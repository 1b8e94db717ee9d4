//! The public model.

use vstd::prelude::*;
use vstd::utf8::encode_utf8;
use crate::alias::{aliased, aliased_items, aliased_members, rewrite_body, rewrite_parsed_body};
use crate::json::{float_free, lemma_item_smaller, lemma_member_smaller, Json, Tree};
use crate::wire::{compact_text, parsed_bytes};

verus! {

/// Whatever stands under `model` in the value, at any depth, is the text `rayline/router`.
pub open spec fn public(value: Tree) -> bool
    decreases value,
{
    match value {
        Tree::Array(items) => forall|i: int| 0 <= i < items.len() ==> public(#[trigger] items[i]),
        Tree::Object(members) => forall|i: int|
            0 <= i < members.len() ==> {
                &&& (#[trigger] members[i]).0 == "model"@ ==> members[i].1 == Tree::Text(
                    "rayline/router"@,
                )
                &&& public(members[i].1)
            },
        _ => true,
    }
}

/// The values have the same items and members, of the same names and in the same places, and the
/// same everywhere else but under `model`.
pub open spec fn same_beside_models(left: Tree, right: Tree) -> bool
    decreases left,
{
    match left {
        Tree::Array(items) => right matches Tree::Array(others) && items.len() == others.len()
            && forall|i: int|
            0 <= i < items.len() ==> same_beside_models(#[trigger] items[i], others[i]),
        Tree::Object(members) => right matches Tree::Object(others) && members.len()
            == others.len() && forall|i: int|
            0 <= i < members.len() ==> {
                &&& (#[trigger] members[i]).0 == others[i].0
                &&& members[i].0 != "model"@ ==> same_beside_models(members[i].1, others[i].1)
            },
        _ => left == right,
    }
}

/// A rewritten value is public, and the same beside its models.
pub proof fn law_value_is_public_and_else_unchanged(value: Tree)
    ensures
        public(aliased(value)),
        same_beside_models(value, aliased(value)),
    decreases value,
{
    match value {
        Tree::Array(items) => {
            let after = aliased_items(items);
            assert forall|i: int| 0 <= i < items.len() implies public(#[trigger] after[i])
                && same_beside_models(items[i], after[i]) by {
                lemma_item_smaller(items, i);
                law_value_is_public_and_else_unchanged(items[i]);
            }
            assert forall|i: int| 0 <= i < items.len() implies same_beside_models(
                #[trigger] items[i],
                after[i],
            ) by {
                assert(public(after[i]));
            }
            assert(public(Tree::Array(after)));
        },
        Tree::Object(members) => {
            let after = aliased_members(members);
            assert forall|i: int| 0 <= i < members.len() implies {
                &&& (#[trigger] after[i]).0 == "model"@ ==> after[i].1 == Tree::Text(
                    "rayline/router"@,
                )
                &&& public(after[i].1)
                &&& members[i].0 == after[i].0
                &&& members[i].0 != "model"@ ==> same_beside_models(members[i].1, after[i].1)
            } by {
                lemma_member_smaller(members, i);
                law_value_is_public_and_else_unchanged(members[i].1);
            }
            assert forall|i: int| 0 <= i < members.len() implies {
                &&& (#[trigger] members[i]).0 == after[i].0
                &&& members[i].0 != "model"@ ==> same_beside_models(members[i].1, after[i].1)
            } by {
                assert(after[i].0 == members[i].0);
            }
            assert(public(Tree::Object(after)));
        },
        _ => {},
    }
}

/// The client that reads a rewritten body finds what the body held, public and else unchanged. A
/// body that does not read as JSON is sent as it came.
pub proof fn law_client_reads_a_public_body(
    body: &[u8],
    rewritten: Vec<u8>,
)
    requires
        call_ensures(rewrite_body, (body,), rewritten),
    ensures
        parsed_bytes(body@) is None ==> rewritten@ == body@,
        parsed_bytes(body@) matches Some(value) ==> {
            &&& exists|shown: Tree|
                public(shown) && same_beside_models(value, shown) && rewritten@ == encode_utf8(
                    #[trigger] compact_text(shown),
                )
            &&& float_free(value) ==> {
                &&& parsed_bytes(rewritten@) is Some
                &&& public(parsed_bytes(rewritten@)->Some_0)
                &&& same_beside_models(value, parsed_bytes(rewritten@)->Some_0)
            }
        },
{
    if let Some(value) = parsed_bytes(body@) {
        law_value_is_public_and_else_unchanged(value);
        let shown = aliased(value);
        assert(rewritten@ == encode_utf8(compact_text(shown)));
    }
}

/// A body is rewritten by what it reads as: its bytes count only where it reads as nothing.
pub proof fn law_body_is_rewritten_by_its_value(
    body: &[u8],
    parsed: Option<Json>,
    rewritten: Vec<u8>,
)
    requires
        call_ensures(rewrite_parsed_body, (body, parsed), rewritten),
    ensures
        parsed is None ==> rewritten@ == body@,
        parsed matches Some(value) ==> exists|shown: Tree|
            public(shown) && same_beside_models(value@, shown) && rewritten@ == encode_utf8(
                #[trigger] compact_text(shown),
            ),
{
    if let Some(value) = parsed {
        law_value_is_public_and_else_unchanged(value@);
        let shown = aliased(value@);
        assert(rewritten@ == encode_utf8(compact_text(shown)));
    }
}

} // verus!
