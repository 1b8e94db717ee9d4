//! What the library promises, said of calls and of what they return.

use vstd::prelude::*;
use crate::json::{
    keys_ascend, lemma_lookup_at, lemma_lookup_is_some, lookup, member, well_formed, Tree,
};

pub mod alias;
pub mod dispatch;
pub mod history;
pub mod json;
pub mod record;
pub mod render;
pub mod reply;
pub mod retry;
pub mod stream;
pub mod text;
pub mod turn;

verus! {

/// The value is an object with this member.
pub open spec fn holds(value: Tree, key: Seq<char>, held: Tree) -> bool {
    value matches Tree::Object(members) && members.contains((key, held))
}

/// The value is no object, or an object without a member under the key.
pub open spec fn lacks(value: Tree, key: Seq<char>) -> bool {
    forall|held: Tree| !#[trigger] holds(value, key, held)
}

/// Among ascending members, what is found under a key is what stands there.
pub(crate) proof fn lemma_found_is_held(
    members: Seq<(Seq<char>, Tree)>,
    key: Seq<char>,
    held: Tree,
)
    requires
        keys_ascend(members),
    ensures
        lookup(members, key) == Some(held) <==> members.contains((key, held)),
{
    if members.contains((key, held)) {
        let at = choose|i: int| 0 <= i < members.len() && members[i] == (key, held);
        lemma_lookup_at(members, at);
    }
    if lookup(members, key) == Some(held) {
        lemma_lookup_is_some(members, key);
        let at = choose|i: int| 0 <= i < members.len() && (#[trigger] members[i]).0 == key;
        lemma_lookup_at(members, at);
        assert(members[at] == (key, held));
    }
}

/// What is found under a key of a value is what the value holds there.
pub(crate) proof fn lemma_member_is_held(value: Tree, key: Seq<char>, held: Tree)
    requires
        well_formed(value),
    ensures
        member(value, key) == Some(held) <==> holds(value, key, held),
{
    if let Tree::Object(members) = value {
        lemma_found_is_held(members, key, held);
    }
}

/// Nothing is found under a key exactly if the value holds nothing there.
pub(crate) proof fn lemma_nothing_is_held(value: Tree, key: Seq<char>)
    requires
        well_formed(value),
    ensures
        member(value, key) is None <==> lacks(value, key),
{
    if let Some(held) = member(value, key) {
        lemma_member_is_held(value, key, held);
    } else {
        assert forall|held: Tree| !#[trigger] holds(value, key, held) by {
            lemma_member_is_held(value, key, held);
        }
    }
}

/// What a well-formed value holds is well formed.
pub(crate) proof fn lemma_held_is_well_formed(value: Tree, key: Seq<char>, held: Tree)
    requires
        well_formed(value),
        holds(value, key, held),
    ensures
        well_formed(held),
{
    let members = value->Object_0;
    let at = choose|i: int| 0 <= i < members.len() && members[i] == (key, held);
    assert(well_formed(members[at].1));
}

} // verus!
