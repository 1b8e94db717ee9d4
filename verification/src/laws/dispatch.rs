//! What goes to a worker.

use vstd::prelude::*;
use crate::dispatch::{
    law_policy_owns_its_members, law_portable_tool, lemma_owned_keys_differ, owned_members,
    policy_owned_dispatch, portable_tool, portable_tools, requested_tokens, DispatchError,
    WorkerManifest,
};
use crate::json::{integer, keys_ascend, lookup, well_formed, Json, Tree};
use crate::laws::{holds, lacks, lemma_found_is_held, lemma_held_is_well_formed};

verus! {

/// The body asks for so many completion tokens; for none if it does not say so with an integer
/// above zero.
pub open spec fn asks_for(body: Tree, tokens: int) -> bool {
    if tokens > 0 {
        holds(body, "max_tokens"@, integer(tokens))
    } else {
        tokens == 0 && forall|some: int|
            some > 0 ==> !holds(body, "max_tokens"@, #[trigger] integer(some))
    }
}

/// The worker takes a request for so many completion tokens.
pub open spec fn takes(worker: WorkerManifest, tokens: int) -> bool {
    worker.minimum_completion_tokens <= tokens && match worker.max_completion_tokens {
        Some(limit) => tokens <= limit,
        None => true,
    }
}

/// What the dispatched body holds under a key is what is found there once the policy is applied.
proof fn lemma_dispatched(
    body: Json,
    worker: &WorkerManifest,
    dispatch: Result<Json, DispatchError>,
    key: Seq<char>,
    held: Tree,
)
    requires
        call_ensures(policy_owned_dispatch, (body, worker), dispatch),
        well_formed(body@),
        dispatch is Ok,
    ensures
        body@ is Object,
        dispatch->Ok_0@ == Tree::Object(owned_members(body@->Object_0, *worker)),
        keys_ascend(body@->Object_0),
        keys_ascend(owned_members(body@->Object_0, *worker)),
        holds(dispatch->Ok_0@, key, held) <==> lookup(
            owned_members(body@->Object_0, *worker),
            key,
        ) == Some(held),
        holds(body@, key, held) <==> lookup(body@->Object_0, key) == Some(held),
{
    let members = body@->Object_0;
    law_policy_owns_its_members(members, *worker, key);
    lemma_found_is_held(owned_members(members, *worker), key, held);
    lemma_found_is_held(members, key, held);
}

/// What a body asks for is read from its members.
proof fn lemma_asked(body: Tree, tokens: int)
    requires
        well_formed(body),
        body is Object,
        asks_for(body, tokens),
    ensures
        requested_tokens(body->Object_0) == tokens,
{
    let members = body->Object_0;
    if tokens > 0 {
        lemma_found_is_held(members, "max_tokens"@, integer(tokens));
    } else {
        let asked = requested_tokens(members);
        if asked > 0 {
            lemma_found_is_held(members, "max_tokens"@, integer(asked));
            assert(holds(body, "max_tokens"@, integer(asked)));
        }
    }
}

/// A request that the worker takes is granted as asked.
pub proof fn law_request_within_limits_is_granted(
    body: Json,
    worker: &WorkerManifest,
    dispatch: Result<Json, DispatchError>,
    requested: int,
)
    requires
        call_ensures(policy_owned_dispatch, (body, worker), dispatch),
        well_formed(body@),
        dispatch is Ok,
        asks_for(body@, requested),
        requested > 0,
        takes(*worker, requested),
    ensures
        holds(dispatch->Ok_0@, "max_tokens"@, integer(requested)),
{
    lemma_dispatched(body, worker, dispatch, "max_tokens"@, integer(requested));
    lemma_asked(body@, requested);
    law_policy_owns_its_members(body@->Object_0, *worker, "max_tokens"@);
}

/// A request that the worker does not take is granted the nearest number that it takes: its
/// minimum if the request lies below, its limit if it lies above.
pub proof fn law_request_outside_limits_is_moved_to_them(
    body: Json,
    worker: &WorkerManifest,
    dispatch: Result<Json, DispatchError>,
    requested: int,
)
    requires
        call_ensures(policy_owned_dispatch, (body, worker), dispatch),
        well_formed(body@),
        dispatch is Ok,
        asks_for(body@, requested),
    ensures
        requested < worker.minimum_completion_tokens ==> holds(
            dispatch->Ok_0@,
            "max_tokens"@,
            integer(worker.minimum_completion_tokens as int),
        ),
        worker.max_completion_tokens matches Some(limit) ==> requested > limit > 0 ==> holds(
            dispatch->Ok_0@,
            "max_tokens"@,
            integer(limit as int),
        ),
{
    lemma_asked(body@, requested);
    law_policy_owns_its_members(body@->Object_0, *worker, "max_tokens"@);
    lemma_dispatched(
        body,
        worker,
        dispatch,
        "max_tokens"@,
        integer(worker.minimum_completion_tokens as int),
    );
    if let Some(limit) = worker.max_completion_tokens {
        lemma_dispatched(body, worker, dispatch, "max_tokens"@, integer(limit as int));
    }
}

/// Where nothing is asked for and the worker has no minimum, or the worker's limit is zero, what
/// stands under `max_tokens` is left alone.
pub proof fn law_no_token_limit_is_made_up(
    body: Json,
    worker: &WorkerManifest,
    dispatch: Result<Json, DispatchError>,
    requested: int,
    held: Tree,
)
    requires
        call_ensures(policy_owned_dispatch, (body, worker), dispatch),
        well_formed(body@),
        dispatch is Ok,
        asks_for(body@, requested),
        worker.minimum_completion_tokens == 0,
        requested == 0 || worker.max_completion_tokens == Some(0u64),
    ensures
        holds(dispatch->Ok_0@, "max_tokens"@, held) <==> holds(body@, "max_tokens"@, held),
{
    lemma_asked(body@, requested);
    law_policy_owns_its_members(body@->Object_0, *worker, "max_tokens"@);
    lemma_dispatched(body, worker, dispatch, "max_tokens"@, held);
}

/// A body can be sent exactly if it is an object and the worker's limit is not below its minimum;
/// the body is looked at first.
pub proof fn law_dispatch_fails_for_its_cause(
    body: Json,
    worker: &WorkerManifest,
    dispatch: Result<Json, DispatchError>,
)
    requires
        call_ensures(policy_owned_dispatch, (body, worker), dispatch),
    ensures
        dispatch is Ok <==> body@ is Object && match worker.max_completion_tokens {
            Some(limit) => worker.minimum_completion_tokens <= limit,
            None => true,
        },
        body@ !is Object ==> dispatch->Err_0 == DispatchError::BodyNotObject,
        body@ is Object && dispatch is Err ==> dispatch->Err_0 == DispatchError::LimitsIncompatible,
        dispatch is Ok ==> dispatch->Ok_0@ is Object,
{
}

/// The worker's temperature is sent, whatever the client asked for; without one, none is sent.
pub proof fn law_temperature_is_the_workers(
    body: Json,
    worker: &WorkerManifest,
    dispatch: Result<Json, DispatchError>,
    held: Tree,
)
    requires
        call_ensures(policy_owned_dispatch, (body, worker), dispatch),
        well_formed(body@),
        dispatch is Ok,
    ensures
        holds(dispatch->Ok_0@, "temperature"@, held) <==> match worker.temperature {
            Some(value) => held == value@,
            None => false,
        },
{
    law_policy_owns_its_members(body@->Object_0, *worker, "temperature"@);
    lemma_dispatched(body, worker, dispatch, "temperature"@, held);
    lemma_owned_keys_differ();
}

/// Of the other members, those that only Anthropic's own endpoint takes are left out, and every
/// other one is sent as it came; none is added.
pub proof fn law_other_members_pass_but_controls(
    body: Json,
    worker: &WorkerManifest,
    dispatch: Result<Json, DispatchError>,
    key: Seq<char>,
    held: Tree,
)
    requires
        call_ensures(policy_owned_dispatch, (body, worker), dispatch),
        well_formed(body@),
        dispatch is Ok,
        key != "max_tokens"@,
        key != "temperature"@,
        key != "tools"@,
    ensures
        holds(dispatch->Ok_0@, key, held) <==> holds(body@, key, held) && key
            != "context_management"@ && key != "diagnostics"@ && key != "output_config"@ && key
            != "thinking"@,
{
    law_policy_owns_its_members(body@->Object_0, *worker, key);
    lemma_dispatched(body, worker, dispatch, key, held);
}

/// Every tool is sent, in its place: one that is an object without the three fields that only
/// Anthropic's own endpoint takes and with all its others, anything else as it came.
pub proof fn law_tools_pass_without_their_controls(
    body: Json,
    worker: &WorkerManifest,
    dispatch: Result<Json, DispatchError>,
    tools: Seq<Tree>,
    sent: Seq<Tree>,
    i: int,
    key: Seq<char>,
    held: Tree,
)
    requires
        call_ensures(policy_owned_dispatch, (body, worker), dispatch),
        well_formed(body@),
        dispatch is Ok,
        holds(body@, "tools"@, Tree::Array(tools)),
        holds(dispatch->Ok_0@, "tools"@, Tree::Array(sent)),
        0 <= i < tools.len(),
    ensures
        sent.len() == tools.len(),
        sent[i] is Object <==> tools[i] is Object,
        tools[i] !is Object ==> sent[i] == tools[i],
        holds(sent[i], key, held) <==> holds(tools[i], key, held) && key != "defer_loading"@ && key
            != "allowed_callers"@ && key != "eager_input_streaming"@,
{
    law_policy_owns_its_members(body@->Object_0, *worker, "tools"@);
    lemma_dispatched(body, worker, dispatch, "tools"@, Tree::Array(sent));
    lemma_dispatched(body, worker, dispatch, "tools"@, Tree::Array(tools));
    lemma_owned_keys_differ();
    assert(sent == portable_tools(tools));
    assert(sent[i] == portable_tool(tools[i]));
    lemma_held_is_well_formed(body@, "tools"@, Tree::Array(tools));
    assert(well_formed(tools[i]));
    if let Tree::Object(members) = tools[i] {
        law_portable_tool(members, key);
        let kept = sent[i]->Object_0;
        lemma_found_is_held(members, key, held);
        lemma_found_is_held(kept, key, held);
    }
}

/// The dispatched body has tools exactly if the body has; what is no array of tools is sent as it
/// came.
pub proof fn law_tools_come_and_go_with_the_body(
    body: Json,
    worker: &WorkerManifest,
    dispatch: Result<Json, DispatchError>,
    held: Tree,
)
    requires
        call_ensures(policy_owned_dispatch, (body, worker), dispatch),
        well_formed(body@),
        dispatch is Ok,
    ensures
        lacks(dispatch->Ok_0@, "tools"@) <==> lacks(body@, "tools"@),
        holds(body@, "tools"@, held) && held !is Array ==> holds(dispatch->Ok_0@, "tools"@, held),
        holds(body@, "tools"@, held) && held is Array ==> exists|sent: Seq<Tree>|
            #[trigger] holds(dispatch->Ok_0@, "tools"@, Tree::Array(sent)),
{
    law_policy_owns_its_members(body@->Object_0, *worker, "tools"@);
    lemma_dispatched(body, worker, dispatch, "tools"@, held);
    lemma_owned_keys_differ();
    let members = body@->Object_0;
    let after = owned_members(members, *worker);
    match lookup(members, "tools"@) {
        Some(found) => {
            lemma_dispatched(body, worker, dispatch, "tools"@, found);
            let sent = lookup(after, "tools"@)->Some_0;
            lemma_dispatched(body, worker, dispatch, "tools"@, sent);
            assert(holds(body@, "tools"@, found));
            assert(holds(dispatch->Ok_0@, "tools"@, sent));
            if holds(body@, "tools"@, held) && held is Array {
                assert(held == found);
                assert(sent == Tree::Array(sent->Array_0));
            }
        },
        None => {
            assert forall|some: Tree| !#[trigger] holds(body@, "tools"@, some) by {
                lemma_dispatched(body, worker, dispatch, "tools"@, some);
            }
            assert forall|some: Tree| !#[trigger] holds(dispatch->Ok_0@, "tools"@, some) by {
                lemma_dispatched(body, worker, dispatch, "tools"@, some);
            }
        },
    }
}

} // verus!
