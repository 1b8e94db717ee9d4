//! JSON values and objects.

use vstd::prelude::*;
use crate::number::{JsonNumber, Numeral};
use crate::text::{lemma_text_less_total, place, same_text, text_less, Standing};

verus! {

/// What a JSON value stands for. The members of an object are listed by ascending key.
pub enum Tree {
    Null,
    Bool(bool),
    Number(Numeral),
    Text(Seq<char>),
    Array(Seq<Tree>),
    Object(Seq<(Seq<char>, Tree)>),
}

/// The keys ascend strictly, so that no key occurs twice.
pub open spec fn keys_ascend(members: Seq<(Seq<char>, Tree)>) -> bool {
    forall|i: int, j: int|
        0 <= i < j < members.len() ==> text_less(
            (#[trigger] members[i]).0,
            (#[trigger] members[j]).0,
        )
}

/// Some member has the key.
pub open spec fn has_member(members: Seq<(Seq<char>, Tree)>, key: Seq<char>) -> bool {
    exists|i: int| 0 <= i < members.len() && (#[trigger] members[i]).0 == key
}

/// The value of the member with the key.
#[verifier::opaque]
pub open spec fn lookup(members: Seq<(Seq<char>, Tree)>, key: Seq<char>) -> Option<Tree> {
    if has_member(members, key) {
        let at = choose|i: int| 0 <= i < members.len() && (#[trigger] members[i]).0 == key;
        Some(members[at].1)
    } else {
        None
    }
}

/// The members with `value` under `key`, in place of what stood there.
#[verifier::opaque]
pub open spec fn with_member(
    members: Seq<(Seq<char>, Tree)>,
    key: Seq<char>,
    value: Tree,
) -> Seq<(Seq<char>, Tree)> {
    members.filter(|entry: (Seq<char>, Tree)| text_less(entry.0, key)) + seq![(key, value)]
        + members.filter(|entry: (Seq<char>, Tree)| text_less(key, entry.0))
}

/// Passes the members under other keys than the given one.
pub open spec fn under_other_key(key: Seq<char>) -> spec_fn((Seq<char>, Tree)) -> bool {
    |entry: (Seq<char>, Tree)| entry.0 != key
}

/// The members without the one under `key`.
#[verifier::opaque]
pub open spec fn without_member(members: Seq<(Seq<char>, Tree)>, key: Seq<char>) -> Seq<
    (Seq<char>, Tree),
> {
    members.filter(under_other_key(key))
}

/// The member of an object under the key; a value that is no object has no members.
pub open spec fn member(value: Tree, key: Seq<char>) -> Option<Tree> {
    match value {
        Tree::Object(members) => lookup(members, key),
        _ => None,
    }
}

/// The member under the key, if it is a text.
pub open spec fn text_member(value: Tree, key: Seq<char>) -> Option<Seq<char>> {
    match member(value, key) {
        Some(Tree::Text(text)) => Some(text),
        _ => None,
    }
}

/// A text value or, in its absence, the empty text.
pub open spec fn or_empty(text: Option<Seq<char>>) -> Seq<char> {
    match text {
        Some(held) => held,
        None => Seq::empty(),
    }
}

/// A value or, in its absence, null.
pub open spec fn or_null(value: Option<Tree>) -> Tree {
    match value {
        Some(held) => held,
        None => Tree::Null,
    }
}

/// An integer as a value.
pub open spec fn integer(value: int) -> Tree {
    Tree::Number(Numeral::Integer(value))
}

/// A JSON value.
#[derive(Debug, PartialEq)]
pub enum Json {
    Null,
    Bool(bool),
    Number(JsonNumber),
    Text(String),
    Array(Vec<Json>),
    Object(JsonObject),
}

/// The members of a JSON object, ordered by key.
#[derive(Debug, PartialEq)]
pub struct JsonObject {
    entries: Vec<(String, Json)>,
}

/// The views of a sequence of values.
pub open spec fn trees(values: Seq<Json>) -> Seq<Tree>
    decreases values,
{
    Seq::new(
        values.len(),
        |i: int|
            if 0 <= i < values.len() {
                values[i].view()
            } else {
                Tree::Null
            },
    )
}

/// No number in the value is a float.
pub open spec fn float_free(value: Tree) -> bool
    decreases value,
{
    match value {
        Tree::Number(number) => number is Integer,
        Tree::Array(items) => forall|i: int|
            0 <= i < items.len() ==> float_free(#[trigger] items[i]),
        Tree::Object(members) => forall|i: int|
            0 <= i < members.len() ==> float_free((#[trigger] members[i]).1),
        _ => true,
    }
}

/// At most so many arrays and objects stand inside one another.
pub open spec fn nested_within(value: Tree, levels: nat) -> bool
    decreases value,
{
    match value {
        Tree::Array(items) => levels > 0 && forall|i: int|
            0 <= i < items.len() ==> nested_within(#[trigger] items[i], (levels - 1) as nat),
        Tree::Object(members) => levels > 0 && forall|i: int|
            0 <= i < members.len() ==> nested_within(
                (#[trigger] members[i]).1,
                (levels - 1) as nat,
            ),
        _ => true,
    }
}

/// The keys of every object ascend strictly, and every integer is one that fits 64 bits, with a
/// sign or without. Every `Json` is well formed.
pub open spec fn well_formed(value: Tree) -> bool
    decreases value,
{
    match value {
        Tree::Number(number) => number matches Numeral::Integer(integer) ==> i64::MIN <= integer
            <= u64::MAX,
        Tree::Array(items) => forall|i: int|
            0 <= i < items.len() ==> well_formed(#[trigger] items[i]),
        Tree::Object(members) => keys_ascend(members) && forall|i: int|
            0 <= i < members.len() ==> well_formed((#[trigger] members[i]).1),
        _ => true,
    }
}

/// The views of a sequence of keyed values.
pub open spec fn members_of(entries: Seq<(String, Json)>) -> Seq<(Seq<char>, Tree)>
    decreases entries,
{
    Seq::new(
        entries.len(),
        |i: int|
            if 0 <= i < entries.len() {
                (entries[i].0@, entries[i].1.view())
            } else {
                (Seq::empty(), Tree::Null)
            },
    )
}

/// What a value is an item of is larger than the value.
pub proof fn lemma_item_smaller(items: Seq<Tree>, i: int)
    requires
        0 <= i < items.len(),
    ensures
        decreases_to!(Tree::Array(items) => items[i]),
{
    let whole = Tree::Array(items);
    assert(decreases_to!(whole => whole->Array_0));
    assert(decreases_to!(whole->Array_0 => whole->Array_0[i]));
}

/// What a value is a member of is larger than the value.
pub proof fn lemma_member_smaller(members: Seq<(Seq<char>, Tree)>, i: int)
    requires
        0 <= i < members.len(),
    ensures
        decreases_to!(Tree::Object(members) => members[i].1),
{
    let whole = Tree::Object(members);
    assert(decreases_to!(whole => whole->Object_0));
    assert(decreases_to!(whole->Object_0 => whole->Object_0[i]));
    assert(decreases_to!(whole->Object_0[i] => whole->Object_0[i].1));
}

/// A filter that a prefix passes, and nothing behind it, gives the prefix.
proof fn lemma_filter_prefix<T>(items: Seq<T>, pass: spec_fn(T) -> bool, end: int)
    requires
        0 <= end <= items.len(),
        forall|i: int| 0 <= i < end ==> pass(#[trigger] items[i]),
        forall|i: int| end <= i < items.len() ==> !pass(#[trigger] items[i]),
    ensures
        items.filter(pass) == items.take(end),
    decreases items.len(),
{
    reveal(Seq::filter);
    if items.len() > 0 {
        let front = items.drop_last();
        if end == items.len() {
            lemma_filter_prefix(front, pass, end - 1);
            assert(front.take(end - 1).push(items.last()) =~= items.take(end));
        } else {
            lemma_filter_prefix(front, pass, end);
            assert(front.take(end) =~= items.take(end));
        }
    } else {
        assert(items.take(end) =~= items);
    }
}

/// A filter that a suffix passes, and nothing ahead of it, gives the suffix.
proof fn lemma_filter_suffix<T>(items: Seq<T>, pass: spec_fn(T) -> bool, start: int)
    requires
        0 <= start <= items.len(),
        forall|i: int| 0 <= i < start ==> !pass(#[trigger] items[i]),
        forall|i: int| start <= i < items.len() ==> pass(#[trigger] items[i]),
    ensures
        items.filter(pass) == items.skip(start),
    decreases items.len(),
{
    reveal(Seq::filter);
    if items.len() > 0 {
        let front = items.drop_last();
        if start == items.len() {
            lemma_filter_suffix(front, pass, start - 1);
            assert(front.skip(start - 1) =~= items.skip(start));
        } else {
            lemma_filter_suffix(front, pass, start);
            assert(front.skip(start).push(items.last()) =~= items.skip(start));
        }
    } else {
        assert(items.skip(start) =~= items);
    }
}

/// A filter that everything but one item passes takes out that item.
proof fn lemma_filter_all_but<T>(items: Seq<T>, pass: spec_fn(T) -> bool, at: int)
    requires
        0 <= at < items.len(),
        forall|i: int| 0 <= i < items.len() && i != at ==> pass(#[trigger] items[i]),
        !pass(items[at]),
    ensures
        items.filter(pass) == items.remove(at),
    decreases items.len(),
{
    reveal(Seq::filter);
    let front = items.drop_last();
    if at == items.len() - 1 {
        lemma_filter_prefix(items, pass, at);
        assert(items.take(at) =~= items.remove(at));
    } else {
        lemma_filter_all_but(front, pass, at);
        assert(front.remove(at).push(items.last()) =~= items.remove(at));
    }
}

/// Where a key stands, or would stand, among ascending members decides what putting a value
/// under it gives.
proof fn lemma_with_member_at(
    members: Seq<(Seq<char>, Tree)>,
    key: Seq<char>,
    value: Tree,
    at: int,
)
    requires
        0 <= at <= members.len(),
        forall|i: int| 0 <= i < at ==> text_less((#[trigger] members[i]).0, key),
        keys_ascend(members),
        at < members.len() ==> members[at].0 == key || text_less(key, members[at].0),
    ensures
        at < members.len() && members[at].0 == key ==> with_member(members, key, value)
            == members.update(at, (key, value)),
        !(at < members.len() && members[at].0 == key) ==> with_member(members, key, value)
            == members.insert(at, (key, value)),
{
    reveal(with_member);
    let below = |entry: (Seq<char>, Tree)| text_less(entry.0, key);
    let above = |entry: (Seq<char>, Tree)| text_less(key, entry.0);
    let found = at < members.len() && members[at].0 == key;
    let next = if found {
        at + 1
    } else {
        at
    };
    assert forall|i: int| next <= i < members.len() implies text_less(
        key,
        (#[trigger] members[i]).0,
    ) by {
        lemma_text_less_total(key, members[at].0, members[i].0);
    }
    assert forall|i: int| at <= i < members.len() implies !below(#[trigger] members[i]) by {
        lemma_text_less_total(key, members[i].0, key);
    }
    assert forall|i: int| 0 <= i < next implies !above(#[trigger] members[i]) by {
        lemma_text_less_total(key, members[i].0, key);
    }
    lemma_filter_prefix(members, below, at);
    lemma_filter_suffix(members, above, next);
    if found {
        assert(with_member(members, key, value) =~= members.update(at, (key, value)));
    } else {
        assert(with_member(members, key, value) =~= members.insert(at, (key, value)));
    }
}

/// Putting a value under a key keeps the keys ascending.
pub proof fn lemma_with_member_ascends(
    members: Seq<(Seq<char>, Tree)>,
    key: Seq<char>,
    value: Tree,
)
    requires
        keys_ascend(members),
    ensures
        keys_ascend(with_member(members, key, value)),
{
    let at = lemma_place_exists(members, key);
    lemma_with_member_at(members, key, value, at);
    let after = with_member(members, key, value);
    assert forall|i: int, j: int| 0 <= i < j < after.len() implies text_less(
        (#[trigger] after[i]).0,
        (#[trigger] after[j]).0,
    ) by {
        if at < members.len() && members[at].0 == key {
            assert(text_less(members[i].0, members[j].0));
        } else if j < at {
            assert(text_less(members[i].0, members[j].0));
        } else if j > at && i != at {
            let low = if i < at {
                i
            } else {
                i - 1
            };
            assert(text_less(members[low].0, members[j - 1].0));
        } else if i == at && j > at + 1 {
            lemma_text_less_total(key, members[at].0, members[j - 1].0);
            assert(text_less(members[at].0, members[j - 1].0));
        }
    }
}

/// Every key has a place among ascending members.
proof fn lemma_place_exists(members: Seq<(Seq<char>, Tree)>, key: Seq<char>) -> (at: int)
    requires
        keys_ascend(members),
    ensures
        0 <= at <= members.len(),
        forall|i: int| 0 <= i < at ==> text_less((#[trigger] members[i]).0, key),
        at < members.len() ==> members[at].0 == key || text_less(key, members[at].0),
    decreases members.len(),
{
    if members.len() == 0 {
        0
    } else {
        let front = members.drop_last();
        assert forall|i: int, j: int| 0 <= i < j < front.len() implies text_less(
            (#[trigger] front[i]).0,
            (#[trigger] front[j]).0,
        ) by {
            assert(text_less(members[i].0, members[j].0));
        }
        let at = lemma_place_exists(front, key);
        lemma_text_less_total(members.last().0, key, key);
        if at < front.len() {
            assert(front[at] == members[at]);
            assert forall|i: int| 0 <= i < at implies text_less((#[trigger] members[i]).0, key) by {
                assert(front[i] == members[i]);
            }
            at
        } else {
            assert forall|i: int| 0 <= i < at implies text_less((#[trigger] members[i]).0, key) by {
                assert(front[i] == members[i]);
            }
            if text_less(members.last().0, key) {
                at + 1
            } else {
                at
            }
        }
    }
}

/// Among ascending members, leaving out a key that is there leaves out one member.
proof fn lemma_without_member_at(members: Seq<(Seq<char>, Tree)>, at: int)
    requires
        0 <= at < members.len(),
        keys_ascend(members),
    ensures
        without_member(members, members[at].0) == members.remove(at),
        keys_ascend(members.remove(at)),
{
    reveal(without_member);
    let key = members[at].0;
    let pass = under_other_key(key);
    assert forall|i: int| 0 <= i < members.len() && i != at implies pass(#[trigger] members[i]) by {
        lemma_text_less_total(key, key, key);
        if i < at {
            assert(text_less(members[i].0, members[at].0));
        } else {
            assert(text_less(members[at].0, members[i].0));
        }
    }
    lemma_filter_all_but(members, pass, at);
    let after = members.remove(at);
    assert forall|i: int, j: int| 0 <= i < j < after.len() implies text_less(
        (#[trigger] after[i]).0,
        (#[trigger] after[j]).0,
    ) by {
        let low = if i < at {
            i
        } else {
            i + 1
        };
        let high = if j < at {
            j
        } else {
            j + 1
        };
        assert(text_less(members[low].0, members[high].0));
    }
}

/// Leaving out a key that is not there changes nothing.
pub proof fn lemma_without_absent(members: Seq<(Seq<char>, Tree)>, key: Seq<char>)
    requires
        lookup(members, key) is None,
    ensures
        without_member(members, key) == members,
{
    reveal(lookup);
    reveal(without_member);
    let pass = under_other_key(key);
    assert forall|i: int| 0 <= i < members.len() implies pass(#[trigger] members[i]) by {}
    lemma_filter_prefix(members, pass, members.len() as int);
    assert(members.take(members.len() as int) =~= members);
}

/// Among ascending members a key is under one value at most.
pub proof fn lemma_lookup_at(members: Seq<(Seq<char>, Tree)>, at: int)
    requires
        0 <= at < members.len(),
        keys_ascend(members),
    ensures
        has_member(members, members[at].0),
        lookup(members, members[at].0) == Some(members[at].1),
{
    reveal(lookup);
    let key = members[at].0;
    assert(has_member(members, key));
    let chosen = choose|i: int| 0 <= i < members.len() && (#[trigger] members[i]).0 == key;
    lemma_text_less_total(key, key, key);
    if chosen < at {
        assert(text_less(members[chosen].0, members[at].0));
    } else if at < chosen {
        assert(text_less(members[at].0, members[chosen].0));
    }
}

/// Reading a key back after writing one: the written value under the written key, and what stood
/// there before under any other.
pub proof fn law_read_after_insert(
    members: Seq<(Seq<char>, Tree)>,
    key: Seq<char>,
    value: Tree,
    other: Seq<char>,
)
    requires
        keys_ascend(members),
    ensures
        keys_ascend(with_member(members, key, value)),
        lookup(with_member(members, key, value), other) == if other == key {
            Some(value)
        } else {
            lookup(members, other)
        },
{
    reveal(lookup);
    let at = lemma_place_exists(members, key);
    lemma_with_member_at(members, key, value, at);
    lemma_with_member_ascends(members, key, value);
    let after = with_member(members, key, value);
    let found = at < members.len() && members[at].0 == key;
    if other == key {
        assert(after[at] == (key, value));
        lemma_lookup_at(after, at);
    } else if has_member(members, other) {
        let i = choose|i: int| 0 <= i < members.len() && (#[trigger] members[i]).0 == other;
        lemma_lookup_at(members, i);
        let j = if found || i < at {
            i
        } else {
            i + 1
        };
        assert(after[j] == members[i]);
        lemma_lookup_at(after, j);
    } else {
        assert forall|j: int| 0 <= j < after.len() implies (#[trigger] after[j]).0 != other by {
            if j != at {
                let i = if found || j < at {
                    j
                } else {
                    j - 1
                };
                assert(after[j] == members[i]);
            }
        }
    }
}

/// Reading a key back after taking one out: nothing under that key, and what stood there before
/// under any other.
pub proof fn law_read_after_remove(
    members: Seq<(Seq<char>, Tree)>,
    key: Seq<char>,
    other: Seq<char>,
)
    requires
        keys_ascend(members),
    ensures
        keys_ascend(without_member(members, key)),
        lookup(without_member(members, key), other) == if other == key {
            None
        } else {
            lookup(members, other)
        },
{
    reveal(lookup);
    let after = without_member(members, key);
    if has_member(members, key) {
        let at = choose|i: int| 0 <= i < members.len() && (#[trigger] members[i]).0 == key;
        lemma_without_member_at(members, at);
        if other == key {
            assert forall|j: int| 0 <= j < after.len() implies (#[trigger] after[j]).0 != key by {
                lemma_text_less_total(key, key, key);
                if j < at {
                    assert(after[j] == members[j]);
                    assert(text_less(members[j].0, members[at].0));
                } else {
                    assert(after[j] == members[j + 1]);
                    assert(text_less(members[at].0, members[j + 1].0));
                }
            }
        } else if has_member(members, other) {
            let i = choose|i: int| 0 <= i < members.len() && (#[trigger] members[i]).0 == other;
            lemma_lookup_at(members, i);
            let j = if i < at {
                i
            } else {
                i - 1
            };
            assert(after[j] == members[i]);
            lemma_lookup_at(after, j);
        } else {
            assert forall|j: int| 0 <= j < after.len() implies (#[trigger] after[j]).0 != other by {
                let i = if j < at {
                    j
                } else {
                    j + 1
                };
                assert(after[j] == members[i]);
            }
        }
    } else {
        lemma_without_absent(members, key);
    }
}

/// A key is found exactly if some member has it.
pub proof fn lemma_lookup_is_some(members: Seq<(Seq<char>, Tree)>, key: Seq<char>)
    ensures
        lookup(members, key) is Some <==> has_member(members, key),
{
    reveal(lookup);
}

/// What is taken out stays out, whatever else is taken out.
pub proof fn lemma_removed_stays_out(
    members: Seq<(Seq<char>, Tree)>,
    key: Seq<char>,
    other: Seq<char>,
)
    requires
        key == other || !has_member(members, other),
    ensures
        !has_member(without_member(members, key), other),
{
    reveal(without_member);
    broadcast use vstd::seq_lib::group_filter_ensures;

    let pass = under_other_key(key);
    let after = members.filter(pass);
    assert forall|i: int| 0 <= i < after.len() implies (#[trigger] after[i]).0 != other by {
        assert(after.contains(after[i]));
        members.lemma_filter_contains_rev(pass, after[i]);
        assert(pass(after[i]));
        let from = choose|j: int| 0 <= j < members.len() && members[j] == after[i];
        assert(members[from] == after[i]);
    }
}

/// Where ascending members hold the last key of others, and the other way round, the last
/// members are the same.
proof fn lemma_same_last(left: Seq<(Seq<char>, Tree)>, right: Seq<(Seq<char>, Tree)>)
    requires
        keys_ascend(left),
        keys_ascend(right),
        left.len() > 0,
        right.len() > 0,
        lookup(right, left.last().0) == Some(left.last().1),
        has_member(left, right.last().0),
    ensures
        left.last() == right.last(),
{
    reveal(lookup);
    let i = choose|i: int| 0 <= i < right.len() && (#[trigger] right[i]).0 == left.last().0;
    let j = choose|j: int| 0 <= j < left.len() && (#[trigger] left[j]).0 == right.last().0;
    lemma_lookup_at(right, i);
    lemma_text_less_total(left.last().0, right.last().0, left.last().0);
    if i < right.len() - 1 {
        assert(text_less(right[i].0, right.last().0));
        if j < left.len() - 1 {
            assert(text_less(left[j].0, left.last().0));
        }
    }
}

/// Members that are found alike are still found alike once the last of each is taken off.
proof fn lemma_lookups_without_last(
    left: Seq<(Seq<char>, Tree)>,
    right: Seq<(Seq<char>, Tree)>,
    key: Seq<char>,
)
    requires
        keys_ascend(left),
        keys_ascend(right),
        left.len() > 0,
        right.len() > 0,
        left.last().0 == right.last().0,
        lookup(left, key) == lookup(right, key),
    ensures
        keys_ascend(left.drop_last()),
        keys_ascend(right.drop_last()),
        lookup(left.drop_last(), key) == lookup(right.drop_last(), key),
{
    lemma_without_member_at(left, left.len() - 1);
    lemma_without_member_at(right, right.len() - 1);
    law_read_after_remove(left, left.last().0, key);
    law_read_after_remove(right, right.last().0, key);
    assert(left.drop_last() =~= left.remove(left.len() - 1));
    assert(right.drop_last() =~= right.remove(right.len() - 1));
}

/// Members that are found alike agree on which is last.
proof fn lemma_last_found_alike(left: Seq<(Seq<char>, Tree)>, right: Seq<(Seq<char>, Tree)>)
    requires
        keys_ascend(left),
        keys_ascend(right),
        left.len() > 0,
        lookup(left, left.last().0) == lookup(right, left.last().0),
        right.len() > 0 ==> lookup(left, right.last().0) == lookup(right, right.last().0),
    ensures
        right.len() > 0,
        left.last() == right.last(),
{
    reveal(lookup);
    lemma_lookup_at(left, left.len() - 1);
    assert(has_member(right, left.last().0));
    lemma_lookup_at(right, right.len() - 1);
    assert(has_member(left, right.last().0));
    lemma_same_last(left, right);
}

/// Objects with the same value under every key are the same object.
pub proof fn law_members_are_their_lookups(
    left: Seq<(Seq<char>, Tree)>,
    right: Seq<(Seq<char>, Tree)>,
)
    requires
        keys_ascend(left),
        keys_ascend(right),
        forall|key: Seq<char>| #[trigger] lookup(left, key) == lookup(right, key),
    ensures
        left == right,
    decreases left.len(),
{
    if left.len() == 0 {
        if right.len() > 0 {
            assert(lookup(left, right.last().0) == lookup(right, right.last().0));
            lemma_last_found_alike(right, left);
        }
        assert(left =~= right);
    } else {
        assert(lookup(left, left.last().0) == lookup(right, left.last().0));
        if right.len() > 0 {
            assert(lookup(left, right.last().0) == lookup(right, right.last().0));
        }
        lemma_last_found_alike(left, right);
        assert forall|key: Seq<char>| #[trigger]
            lookup(left.drop_last(), key) == lookup(right.drop_last(), key) by {
            assert(lookup(left, key) == lookup(right, key));
            lemma_lookups_without_last(left, right, key);
        }
        assert(lookup(left, left.last().0) == lookup(right, left.last().0));
        lemma_lookups_without_last(left, right, left.last().0);
        law_members_are_their_lookups(left.drop_last(), right.drop_last());
        assert(left =~= left.drop_last().push(left.last()));
        assert(right =~= right.drop_last().push(right.last()));
    }
}

/// Putting a value under a key just taken out is putting it there at once.
pub proof fn lemma_remove_then_insert(
    members: Seq<(Seq<char>, Tree)>,
    key: Seq<char>,
    value: Tree,
)
    requires
        keys_ascend(members),
    ensures
        with_member(without_member(members, key), key, value) == with_member(members, key, value),
{
    let left = with_member(without_member(members, key), key, value);
    let right = with_member(members, key, value);
    law_read_after_remove(members, key, key);
    assert forall|k: Seq<char>| #[trigger] lookup(left, k) == lookup(right, k) by {
        law_read_after_remove(members, key, k);
        law_read_after_insert(without_member(members, key), key, value, k);
        law_read_after_insert(members, key, value, k);
    }
    law_read_after_insert(without_member(members, key), key, value, key);
    law_read_after_insert(members, key, value, key);
    law_members_are_their_lookups(left, right);
}

/// Putting back the value that stands under a key changes nothing.
pub proof fn lemma_insert_same(members: Seq<(Seq<char>, Tree)>, key: Seq<char>, value: Tree)
    requires
        keys_ascend(members),
        lookup(members, key) == Some(value),
    ensures
        with_member(members, key, value) == members,
{
    let left = with_member(members, key, value);
    law_read_after_insert(members, key, value, key);
    assert forall|k: Seq<char>| #[trigger] lookup(left, k) == lookup(members, k) by {
        law_read_after_insert(members, key, value, k);
    }
    law_members_are_their_lookups(left, members);
}

impl Json {
    /// What the value stands for.
    pub open spec fn view(self) -> Tree
        decreases self,
    {
        match self {
            Json::Null => Tree::Null,
            Json::Bool(value) => Tree::Bool(value),
            Json::Number(value) => Tree::Number(value@),
            Json::Text(value) => Tree::Text(value@),
            Json::Array(values) => Tree::Array(trees(values@)),
            Json::Object(object) => Tree::Object(object.view()),
        }
    }

    /// The number as a value.
    pub fn unsigned(value: u64) -> (json: Json)
        ensures
            json@ == integer(value as int),
    {
        Json::Number(JsonNumber::Unsigned(value))
    }

    /// The text as a value.
    pub fn text(value: &str) -> (json: Json)
        ensures
            json@ == Tree::Text(value@),
    {
        Json::Text(value.to_owned())
    }

    /// The member under the key, if the value is an object that has it.
    pub fn get(&self, key: &str) -> (value: Option<&Json>)
        ensures
            match value {
                Some(held) => member(self@, key@) == Some(held@),
                None => member(self@, key@) is None,
            },
    {
        match self {
            Json::Object(object) => object.get(key),
            _ => None,
        }
    }

    /// The member under the key, if it is a text.
    pub fn get_text(&self, key: &str) -> (text: Option<&String>)
        ensures
            match text {
                Some(held) => text_member(self@, key@) == Some(held@),
                None => text_member(self@, key@) is None,
            },
    {
        match self.get(key) {
            Some(Json::Text(text)) => Some(text),
            _ => None,
        }
    }
}

impl JsonObject {
    #[verifier::type_invariant]
    spec fn keys_increase(self) -> bool {
        keys_ascend(members_of(self.entries@))
    }

    /// The members by ascending key.
    pub closed spec fn view(self) -> Seq<(Seq<char>, Tree)>
        decreases self,
    {
        members_of(self.entries@)
    }

    /// An object without members.
    pub fn new() -> (object: JsonObject)
        ensures
            object@ == Seq::<(Seq<char>, Tree)>::empty(),
    {
        let entries: Vec<(String, Json)> = Vec::new();
        assert(members_of(entries@) =~= Seq::<(Seq<char>, Tree)>::empty());
        JsonObject { entries }
    }

    /// The object of members that stand by ascending key.
    pub fn from_ascending(entries: Vec<(String, Json)>) -> (object: JsonObject)
        requires
            keys_ascend(members_of(entries@)),
        ensures
            object@ == members_of(entries@),
    {
        JsonObject { entries }
    }

    /// The number of members. The keys of an object ascend strictly.
    pub fn len(&self) -> (count: usize)
        ensures
            count == self@.len(),
            keys_ascend(self@),
    {
        proof {
            use_type_invariant(self);
        }
        self.entries.len()
    }

    /// The key of the member at the position.
    pub fn key_at(&self, at: usize) -> (key: &String)
        requires
            at < self@.len(),
        ensures
            key@ == self@[at as int].0,
    {
        &self.entries[at].0
    }

    /// The value of the member at the position.
    pub fn value_at(&self, at: usize) -> (value: &Json)
        requires
            at < self@.len(),
        ensures
            value@ == self@[at as int].1,
    {
        &self.entries[at].1
    }

    /// The position of the first key that is not below the given one.
    fn position(&self, key: &str) -> (at: usize)
        ensures
            at <= self@.len(),
            forall|i: int| 0 <= i < at ==> text_less((#[trigger] self@[i]).0, key@),
            at < self@.len() ==> self@[at as int].0 == key@ || text_less(
                key@,
                self@[at as int].0,
            ),
            keys_ascend(self@),
    {
        proof {
            use_type_invariant(self);
        }
        let mut at: usize = 0;
        while at < self.entries.len()
            invariant
                at <= self@.len(),
                self@.len() == self.entries@.len(),
                forall|i: int| 0 <= i < at ==> text_less((#[trigger] self@[i]).0, key@),
            ensures
                at <= self@.len(),
                forall|i: int| 0 <= i < at ==> text_less((#[trigger] self@[i]).0, key@),
                at < self@.len() ==> self@[at as int].0 == key@ || text_less(
                    key@,
                    self@[at as int].0,
                ),
            decreases self.entries@.len() - at,
        {
            match place(self.entries[at].0.as_str(), key) {
                Standing::Before => {},
                _ => {
                    break ;
                },
            }
            at = at + 1;
        }
        at
    }

    /// The value under the key.
    pub fn get(&self, key: &str) -> (value: Option<&Json>)
        ensures
            match value {
                Some(held) => lookup(self@, key@) == Some(held@),
                None => lookup(self@, key@) is None,
            },
    {
        let at = self.position(key);
        if at < self.entries.len() && same_text(self.entries[at].0.as_str(), key) {
            proof {
                lemma_lookup_at(self@, at as int);
            }
            Some(&self.entries[at].1)
        } else {
            proof {
                lemma_absent(self@, key@, at as int);
            }
            None
        }
    }

    /// Puts the value under the key, in place of what stood there.
    pub fn insert(&mut self, key: String, value: Json)
        ensures
            final(self)@ == with_member(old(self)@, key@, value@),
    {
        let at = self.position(key.as_str());
        let mut entries: Vec<(String, Json)> = Vec::new();
        assert(members_of(entries@) =~= Seq::<(Seq<char>, Tree)>::empty());
        std::mem::swap(&mut entries, &mut self.entries);
        let ghost before = members_of(entries@);
        proof {
            lemma_with_member_at(before, key@, value@, at as int);
            lemma_with_member_ascends(before, key@, value@);
        }
        let ghost entry = (key@, value@);
        if at < entries.len() && same_text(entries[at].0.as_str(), key.as_str()) {
            entries[at] = (key, value);
            assert(members_of(entries@) =~= before.update(at as int, entry));
        } else {
            entries.insert(at, (key, value));
            assert(members_of(entries@) =~= before.insert(at as int, entry));
        }
        self.entries = entries;
    }

    /// Takes out the member under the key and returns its value.
    pub fn remove(&mut self, key: &str) -> (value: Option<Json>)
        ensures
            final(self)@ == without_member(old(self)@, key@),
            match value {
                Some(held) => lookup(old(self)@, key@) == Some(held@),
                None => lookup(old(self)@, key@) is None,
            },
            keys_ascend(old(self)@),
    {
        let at = self.position(key);
        if at < self.entries.len() && same_text(self.entries[at].0.as_str(), key) {
            let mut entries: Vec<(String, Json)> = Vec::new();
            assert(members_of(entries@) =~= Seq::<(Seq<char>, Tree)>::empty());
            std::mem::swap(&mut entries, &mut self.entries);
            let ghost before = members_of(entries@);
            let removed = entries.remove(at);
            proof {
                lemma_lookup_at(before, at as int);
                lemma_without_member_at(before, at as int);
                assert(members_of(entries@) =~= before.remove(at as int));
            }
            self.entries = entries;
            Some(removed.1)
        } else {
            proof {
                lemma_absent(self@, key@, at as int);
                lemma_without_absent(self@, key@);
            }
            None
        }
    }

    /// Replaces the value at the position and returns the one that stood there.
    pub fn replace_at(&mut self, at: usize, value: Json) -> (former: Json)
        requires
            at < old(self)@.len(),
        ensures
            final(self)@ == old(self)@.update(at as int, (old(self)@[at as int].0, value@)),
            former@ == old(self)@[at as int].1,
    {
        proof {
            use_type_invariant(&*self);
        }
        let mut entries: Vec<(String, Json)> = Vec::new();
        assert(members_of(entries@) =~= Seq::<(Seq<char>, Tree)>::empty());
        std::mem::swap(&mut entries, &mut self.entries);
        let ghost before = members_of(entries@);
        let ghost tree = value@;
        let mut former = value;
        std::mem::swap(&mut entries[at].1, &mut former);
        assert(members_of(entries@) =~= before.update(at as int, (before[at as int].0, tree)));
        self.entries = entries;
        former
    }
}

/// Where no key of ascending members equals the given one at the place where it would stand,
/// none does.
proof fn lemma_absent(members: Seq<(Seq<char>, Tree)>, key: Seq<char>, at: int)
    requires
        0 <= at <= members.len(),
        forall|i: int| 0 <= i < at ==> text_less((#[trigger] members[i]).0, key),
        keys_ascend(members),
        at < members.len() ==> text_less(key, members[at].0),
    ensures
        !has_member(members, key),
        lookup(members, key) is None,
{
    reveal(lookup);
    assert forall|i: int| 0 <= i < members.len() implies (#[trigger] members[i]).0 != key by {
        lemma_text_less_total(key, key, key);
        if at < i {
            lemma_text_less_total(key, members[at].0, members[i].0);
        }
    }
}

} // verus!
