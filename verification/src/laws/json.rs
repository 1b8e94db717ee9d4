//! Members of objects.

use vstd::prelude::*;
use crate::json::{
    keys_ascend, law_read_after_insert, law_read_after_remove, well_formed, with_member,
    without_member, Json, Tree,
};
use crate::laws::{holds, lacks, lemma_found_is_held, lemma_member_is_held, lemma_nothing_is_held};

verus! {

/// A written member stands under its key in place of what stood there, and every other member
/// stands as it did; none is added.
pub proof fn law_written_member_stands(
    members: Seq<(Seq<char>, Tree)>,
    key: Seq<char>,
    value: Tree,
    other: Seq<char>,
    held: Tree,
)
    requires
        keys_ascend(members),
    ensures
        keys_ascend(with_member(members, key, value)),
        with_member(members, key, value).contains((other, held)) <==> if other == key {
            held == value
        } else {
            members.contains((other, held))
        },
{
    law_read_after_insert(members, key, value, other);
    lemma_found_is_held(members, other, held);
    lemma_found_is_held(with_member(members, key, value), other, held);
}

/// A removed member is gone, and every other member stands as it did; none is added.
pub proof fn law_removed_member_is_gone(
    members: Seq<(Seq<char>, Tree)>,
    key: Seq<char>,
    other: Seq<char>,
    held: Tree,
)
    requires
        keys_ascend(members),
    ensures
        keys_ascend(without_member(members, key)),
        without_member(members, key).contains((other, held)) <==> other != key && members.contains(
            (other, held),
        ),
{
    law_read_after_remove(members, key, other);
    lemma_found_is_held(members, other, held);
    lemma_found_is_held(without_member(members, key), other, held);
}

/// Reading a member gives what the value holds under the key, and nothing where it holds nothing.
pub proof fn law_read_member_is_held(value: &Json, key: &str, read: Option<&Json>, held: Tree)
    requires
        call_ensures(Json::get, (value, key), read),
        well_formed(value@),
    ensures
        read matches Some(found) ==> holds(value@, key@, found@),
        read is None ==> lacks(value@, key@),
        holds(value@, key@, held) ==> read is Some && read->Some_0@ == held,
{
    lemma_nothing_is_held(value@, key@);
    lemma_member_is_held(value@, key@, held);
    if let Some(found) = read {
        lemma_member_is_held(value@, key@, found@);
    }
}

/// Reading a text gives the text that the value holds under the key, and nothing where it holds
/// nothing or something else.
pub proof fn law_read_text_is_held(value: &Json, key: &str, read: Option<&String>, text: Seq<char>)
    requires
        call_ensures(Json::get_text, (value, key), read),
        well_formed(value@),
    ensures
        (read is Some && read->Some_0@ == text) <==> holds(value@, key@, Tree::Text(text)),
{
    lemma_member_is_held(value@, key@, Tree::Text(text));
}

} // verus!
