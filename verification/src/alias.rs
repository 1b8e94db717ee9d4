//! Replies name the public model, never the one that answered.

use vstd::prelude::*;
use vstd::slice::slice_to_vec;
use vstd::utf8::encode_utf8;
use crate::json::{
    float_free, lemma_item_smaller, lemma_member_smaller, nested_within, trees, Json, JsonObject,
    Tree,
};
use crate::text::same_text;
use crate::wire::{compact_text, nesting_limit, parsed_bytes, reads_back};

verus! {

/// The model that every reply names.
pub const PUBLIC_MODEL_ALIAS: &'static str = "rayline/router";

/// The value with every `model` member, at any depth, naming the public model.
pub open spec fn aliased(value: Tree) -> Tree
    decreases value,
{
    match value {
        Tree::Array(items) => Tree::Array(aliased_items(items)),
        Tree::Object(members) => Tree::Object(aliased_members(members)),
        _ => value,
    }
}

/// The items with every `model` member below them naming the public model.
pub open spec fn aliased_items(items: Seq<Tree>) -> Seq<Tree>
    decreases items,
{
    Seq::new(
        items.len(),
        |i: int|
            if 0 <= i < items.len() {
                aliased(items[i])
            } else {
                Tree::Null
            },
    )
}

/// The members with every `model` member among and below them naming the public model.
pub open spec fn aliased_members(members: Seq<(Seq<char>, Tree)>) -> Seq<(Seq<char>, Tree)>
    decreases members,
{
    Seq::new(
        members.len(),
        |i: int|
            if 0 <= i < members.len() {
                (
                    members[i].0,
                    if members[i].0 == "model"@ {
                        Tree::Text(PUBLIC_MODEL_ALIAS@)
                    } else {
                        aliased(members[i].1)
                    },
                )
            } else {
                (Seq::empty(), Tree::Null)
            },
    )
}

/// Makes every `model` member, at any depth, name the public model.
pub fn rewrite_models(value: &mut Json)
    ensures
        final(value)@ == aliased(old(value)@),
    decreases old(value)@, 1int,
{
    match value {
        Json::Array(values) => {
            rewrite_items(values);
        },
        Json::Object(object) => {
            rewrite_members(object);
        },
        _ => {},
    }
}

/// Rewrites the items of an array.
fn rewrite_items(values: &mut Vec<Json>)
    ensures
        trees(final(values)@) == aliased_items(trees(old(values)@)),
    decreases Tree::Array(trees(old(values)@)), 0int,
{
    let count = values.len();
    let ghost before = trees(values@);
    for i in 0..count
        invariant
            count == values@.len() == before.len(),
            before == trees(old(values)@),
            forall|j: int|
                0 <= j < count ==> #[trigger] trees(values@)[j] == if j < i {
                    aliased(before[j])
                } else {
                    before[j]
                },
    {
        proof {
            lemma_item_smaller(before, i as int);
            assert(trees(values@)[i as int] == values@[i as int]@);
        }
        let ghost earlier = values@;
        rewrite_models(&mut values[i]);
        assert forall|j: int| 0 <= j < count implies #[trigger] trees(values@)[j] == if j < i + 1 {
            aliased(before[j])
        } else {
            before[j]
        } by {
            if j != i {
                assert(values@[j] == earlier[j]);
                assert(trees(earlier)[j] == earlier[j]@);
            }
        }
    }
    assert(trees(values@) =~= aliased_items(before));
}

/// Rewrites the members of an object.
fn rewrite_members(object: &mut JsonObject)
    ensures
        final(object)@ == aliased_members(old(object)@),
    decreases Tree::Object(old(object)@), 0int,
{
    let count = object.len();
    let ghost before = object@;
    for i in 0..count
        invariant
            count == object@.len() == before.len(),
            before == old(object)@,
            forall|j: int|
                0 <= j < count ==> #[trigger] object@[j] == if j < i {
                    aliased_members(before)[j]
                } else {
                    before[j]
                },
    {
        if same_text(object.key_at(i).as_str(), "model") {
            object.replace_at(i, Json::Text(PUBLIC_MODEL_ALIAS.to_owned()));
        } else {
            let mut value = object.replace_at(i, Json::Null);
            proof {
                lemma_member_smaller(before, i as int);
            }
            rewrite_models(&mut value);
            object.replace_at(i, value);
        }
    }
    assert(object@ =~= aliased_members(before));
}

/// A rewritten value is nested no deeper, and holds no more floats.
pub proof fn lemma_aliased_shape(value: Tree, levels: nat)
    ensures
        float_free(value) ==> float_free(aliased(value)),
        nested_within(value, levels) ==> nested_within(aliased(value), levels),
    decreases value,
{
    let below = (levels - 1) as nat;
    match value {
        Tree::Array(items) => {
            let after = aliased_items(items);
            assert forall|i: int| 0 <= i < after.len() implies (float_free(items[i])
                ==> float_free(#[trigger] after[i])) && (nested_within(items[i], below)
                ==> nested_within(after[i], below)) by {
                lemma_item_smaller(items, i);
                lemma_aliased_shape(items[i], below);
            }
        },
        Tree::Object(members) => {
            let after = aliased_members(members);
            assert forall|i: int| 0 <= i < after.len() implies (float_free(members[i].1)
                ==> float_free((#[trigger] after[i]).1)) && (nested_within(members[i].1, below)
                ==> nested_within(after[i].1, below)) by {
                lemma_member_smaller(members, i);
                lemma_aliased_shape(members[i].1, below);
            }
        },
        _ => {},
    }
}

/// The body of a reply with the public model in it, given what the body reads as. A body that
/// does not read as JSON stays as it is. Who reads the new body finds the rewritten value.
pub fn rewrite_parsed_body(body: &[u8], parsed: Option<Json>) -> (rewritten: Vec<u8>)
    ensures
        rewritten@ == match parsed {
            Some(value) => encode_utf8(compact_text(aliased(value@))),
            None => body@,
        },
        match parsed {
            Some(value) => reads_back(value@) ==> parsed_bytes(rewritten@) == Some(aliased(value@)),
            None => true,
        },
{
    match parsed {
        Some(value) => {
            let mut value = value;
            proof {
                lemma_aliased_shape(value@, nesting_limit());
            }
            rewrite_models(&mut value);
            value.to_bytes()
        },
        None => slice_to_vec(body),
    }
}

/// The body of a reply with the public model in it. The client that reads the new body finds the
/// value of the old one, with every `model` member naming the public model; a float may have
/// changed in its last digit.
pub fn rewrite_body(body: &[u8]) -> (rewritten: Vec<u8>)
    ensures
        rewritten@ == match parsed_bytes(body@) {
            Some(value) => encode_utf8(compact_text(aliased(value))),
            None => body@,
        },
        match parsed_bytes(body@) {
            Some(value) => names_public_model(aliased(value)) && (float_free(value)
                ==> parsed_bytes(rewritten@) == Some(aliased(value))),
            None => true,
        },
{
    let parsed = Json::parse_bytes(body);
    proof {
        if let Some(value) = parsed_bytes(body@) {
            law_rewritten_names_only_public_model(value);
        }
    }
    rewrite_parsed_body(body, parsed)
}

/// Every `model` member, at any depth, names the public model.
pub open spec fn names_public_model(value: Tree) -> bool
    decreases value,
{
    match value {
        Tree::Array(items) => forall|i: int|
            0 <= i < items.len() ==> names_public_model(#[trigger] items[i]),
        Tree::Object(members) => forall|i: int|
            0 <= i < members.len() ==> if (#[trigger] members[i]).0 == "model"@ {
                members[i].1 == Tree::Text(PUBLIC_MODEL_ALIAS@)
            } else {
                names_public_model(members[i].1)
            },
        _ => true,
    }
}

/// The values are the same but for what stands under `model` members.
pub open spec fn same_but_models(left: Tree, right: Tree) -> bool
    decreases left,
{
    match (left, right) {
        (Tree::Array(items), Tree::Array(others)) => items.len() == others.len() && forall|i: int|
            0 <= i < items.len() ==> same_but_models(#[trigger] items[i], others[i]),
        (Tree::Object(members), Tree::Object(others)) => members.len() == others.len() && forall|
            i: int,
        |
            0 <= i < members.len() ==> (#[trigger] members[i]).0 == others[i].0 && (members[i].0
                == "model"@ || same_but_models(members[i].1, others[i].1)),
        _ => left == right,
    }
}

/// A rewritten value names no model but the public one, whatever it named before.
pub proof fn law_rewritten_names_only_public_model(value: Tree)
    ensures
        names_public_model(aliased(value)),
    decreases value,
{
    match value {
        Tree::Array(items) => {
            assert forall|i: int| 0 <= i < items.len() implies names_public_model(
                #[trigger] aliased_items(items)[i],
            ) by {
                lemma_item_smaller(items, i);
                law_rewritten_names_only_public_model(items[i]);
            }
            assert(names_public_model(Tree::Array(aliased_items(items))));
        },
        Tree::Object(members) => {
            assert forall|i: int| 0 <= i < members.len() implies if (
            #[trigger] aliased_members(members)[i]).0 == "model"@ {
                aliased_members(members)[i].1 == Tree::Text(PUBLIC_MODEL_ALIAS@)
            } else {
                names_public_model(aliased_members(members)[i].1)
            } by {
                lemma_member_smaller(members, i);
                law_rewritten_names_only_public_model(members[i].1);
            }
            assert(names_public_model(Tree::Object(aliased_members(members))));
        },
        _ => {},
    }
}

/// A value that names only the public model is left as it is.
pub proof fn law_public_value_is_kept(value: Tree)
    requires
        names_public_model(value),
    ensures
        aliased(value) == value,
    decreases value,
{
    match value {
        Tree::Array(items) => {
            assert forall|i: int| 0 <= i < items.len() implies aliased_items(items)[i]
                == items[i] by {
                lemma_item_smaller(items, i);
                assert(names_public_model(items[i]));
                law_public_value_is_kept(items[i]);
            }
            assert(aliased_items(items) =~= items);
        },
        Tree::Object(members) => {
            assert forall|i: int| 0 <= i < members.len() implies aliased_members(members)[i]
                == members[i] by {
                lemma_member_smaller(members, i);
                assert(members[i].0 == "model"@ || names_public_model(members[i].1));
                if members[i].0 != "model"@ {
                    law_public_value_is_kept(members[i].1);
                }
            }
            assert(aliased_members(members) =~= members);
        },
        _ => {},
    }
}

/// Rewriting a rewritten value changes nothing more.
pub proof fn law_rewriting_twice_is_rewriting_once(value: Tree)
    ensures
        aliased(aliased(value)) == aliased(value),
{
    law_rewritten_names_only_public_model(value);
    law_public_value_is_kept(aliased(value));
}

/// What stood under `model` members leaves no trace: two values that differ nowhere else are
/// rewritten to the same value.
pub proof fn law_rewriting_hides_models(left: Tree, right: Tree)
    requires
        same_but_models(left, right),
    ensures
        aliased(left) == aliased(right),
    decreases left,
{
    match (left, right) {
        (Tree::Array(items), Tree::Array(others)) => {
            assert forall|i: int| 0 <= i < items.len() implies aliased_items(items)[i]
                == aliased_items(others)[i] by {
                lemma_item_smaller(items, i);
                assert(same_but_models(items[i], others[i]));
                law_rewriting_hides_models(items[i], others[i]);
            }
            assert(aliased_items(items) =~= aliased_items(others));
        },
        (Tree::Object(members), Tree::Object(others)) => {
            assert forall|i: int| 0 <= i < members.len() implies aliased_members(members)[i]
                == aliased_members(others)[i] by {
                lemma_member_smaller(members, i);
                assert(members[i].0 == others[i].0);
                if members[i].0 != "model"@ {
                    law_rewriting_hides_models(members[i].1, others[i].1);
                }
            }
            assert(aliased_members(members) =~= aliased_members(others));
        },
        _ => {},
    }
}

/// A rewritten value differs from the value it comes from under `model` members alone: no other
/// member, item, text or number changes, and none comes or goes.
pub proof fn law_rewriting_touches_only_models(value: Tree)
    ensures
        same_but_models(value, aliased(value)),
    decreases value,
{
    match value {
        Tree::Array(items) => {
            assert forall|i: int| 0 <= i < items.len() implies same_but_models(
                #[trigger] items[i],
                aliased_items(items)[i],
            ) by {
                lemma_item_smaller(items, i);
                law_rewriting_touches_only_models(items[i]);
            }
        },
        Tree::Object(members) => {
            assert forall|i: int| 0 <= i < members.len() implies (#[trigger] members[i]).0
                == aliased_members(members)[i].0 && (members[i].0 == "model"@ || same_but_models(
                members[i].1,
                aliased_members(members)[i].1,
            )) by {
                lemma_member_smaller(members, i);
                law_rewriting_touches_only_models(members[i].1);
            }
        },
        _ => {},
    }
}

} // verus!
