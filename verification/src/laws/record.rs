//! The log.

use vstd::prelude::*;
use vstd::utf8::encode_utf8;
use crate::dispatch::{
    dispatch_request_shape, key_list, law_tool_keys_are_listed_once, request_shape, some_tool_has,
    tool_keys, tools_of, WorkerManifest,
};
use crate::json::{
    has_member, integer, keys_ascend, law_read_after_insert, lemma_lookup_is_some, lookup, trees,
    well_formed, with_member, Json, Tree,
};
use crate::laws::{
    holds, lacks, lemma_found_is_held, lemma_held_is_well_formed, lemma_nothing_is_held,
};
use crate::record::{
    cache_record, decision_record, dispatch_record, latency_record, log_line,
    pre_response_failure_record, prior_worker, scores_record, sha256, Decision, RouteReport,
};
use crate::text::{hex_text, text_less};

verus! {

/// The value is an object with exactly these members, whatever their order.
pub open spec fn consists_of(value: Tree, members: Seq<(Seq<char>, Tree)>) -> bool {
    forall|key: Seq<char>, held: Tree|
        #[trigger] holds(value, key, held) <==> members.contains((key, held))
}

/// The members that are written one behind the other, each in place of what stood under its key.
spec fn written(members: Seq<(Seq<char>, Tree)>) -> Seq<(Seq<char>, Tree)>
    decreases members.len(),
{
    if members.len() == 0 {
        Seq::empty()
    } else {
        with_member(written(members.drop_last()), members.last().0, members.last().1)
    }
}

/// No two of the members are under the same key.
pub open spec fn keys_apart(members: Seq<(Seq<char>, Tree)>) -> bool {
    forall|i: int, j: int|
        0 <= i < j < members.len() ==> (#[trigger] members[i]).0 != (#[trigger] members[j]).0
}

/// Members under different keys all stand once they are written, and no others do.
proof fn lemma_written(members: Seq<(Seq<char>, Tree)>, key: Seq<char>, held: Tree)
    requires
        keys_apart(members),
    ensures
        keys_ascend(written(members)),
        written(members).contains((key, held)) <==> members.contains((key, held)),
    decreases members.len(),
{
    if members.len() > 0 {
        let front = members.drop_last();
        let last = members[members.len() - 1];
        assert forall|i: int, j: int| 0 <= i < j < front.len() implies (#[trigger] front[i]).0 != (
        #[trigger] front[j]).0 by {
            assert(front[i] == members[i] && front[j] == members[j]);
        }
        lemma_written(front, key, held);
        let before = written(front);
        law_read_after_insert(before, last.0, last.1, key);
        lemma_found_is_held(before, key, held);
        lemma_found_is_held(written(members), key, held);
        if front.contains((key, held)) {
            let i = choose|i: int| 0 <= i < front.len() && front[i] == (key, held);
            assert(members[i] == (key, held));
            assert(members[i].0 != last.0);
        }
        if members.contains((key, held)) {
            let i = choose|i: int| 0 <= i < members.len() && members[i] == (key, held);
            if i < front.len() {
                assert(front[i] == (key, held));
                assert(members[i].0 != last.0);
            }
        }
        if key == last.0 && held == last.1 {
            assert(members[members.len() - 1] == (key, held));
        }
    }
}

/// An object of members written one behind the other consists of them.
proof fn lemma_consists(value: Tree, members: Seq<(Seq<char>, Tree)>)
    requires
        keys_apart(members),
        value == Tree::Object(written(members)),
    ensures
        consists_of(value, members),
{
    assert forall|key: Seq<char>, held: Tree|
        #[trigger] holds(value, key, held) <==> members.contains((key, held)) by {
        lemma_written(members, key, held);
    }
}

/// One more member is written behind the others.
proof fn lemma_written_grows(members: Seq<(Seq<char>, Tree)>, key: Seq<char>, held: Tree)
    ensures
        written(members.push((key, held))) == with_member(written(members), key, held),
{
    assert(members.push((key, held)).drop_last() =~= members);
}

/// How the key-value cache was used, by name.
pub open spec fn cache_members(route: RouteReport) -> Seq<(Seq<char>, Tree)> {
    seq![
        ("cached_prefix_tokens"@, route.cached_prefix_tokens@),
        ("serialized_tokens"@, route.serialized_tokens@),
        ("kv_session_retained"@, route.kv_session_retained@),
        ("evictions"@, route.kv_evictions@),
    ]
}

/// The scores that a decision rests on, by name.
pub open spec fn scores_members(route: RouteReport) -> Seq<(Seq<char>, Tree)> {
    seq![
        ("raw"@, route.raw_scores@),
        ("adjusted"@, route.adjusted_scores@),
        ("switch_cost_usd"@, route.switch_cost_usd@),
        ("cache_miss_tokens"@, route.cache_miss_tokens@),
        ("stay_margin"@, route.stay_margin@),
        ("cold_switch_multiplier"@, route.cold_switch_multiplier@),
        ("stayed"@, route.stayed@),
    ]
}

/// How long the steps took, by name.
pub open spec fn latency_members(route: RouteReport, decision: Decision) -> Seq<(Seq<char>, Tree)> {
    seq![
        ("encode"@, route.encode_latency_ms@),
        ("head_us"@, route.head_latency_us@),
        ("upstream_headers"@, integer(decision.upstream_header_latency_ms as int)),
        ("total_to_headers"@, integer(decision.total_latency_ms as int)),
    ]
}

/// How a request went upstream, by name.
pub open spec fn dispatch_members(
    worker: WorkerManifest,
    shape: Tree,
    attempts: Seq<Tree>,
    status: int,
) -> Seq<(Seq<char>, Tree)> {
    seq![
        ("provider"@, worker.openrouter_provider_slug@),
        ("provider_order"@, worker.openrouter_provider_order@),
        ("fallbacks"@, worker.openrouter_allow_fallbacks@),
        ("request_shape"@, shape),
        ("attempts"@, Tree::Array(attempts)),
        ("http_status"@, integer(status)),
    ]
}

/// The names in the parts of a record differ.
proof fn lemma_part_names(
    worker: WorkerManifest,
    shape: Tree,
    attempts: Seq<Tree>,
    route: RouteReport,
    decision: Decision,
)
    ensures
        keys_apart(cache_members(route)),
        keys_apart(scores_members(route)),
        keys_apart(latency_members(route, decision)),
        keys_apart(dispatch_members(worker, shape, attempts, decision.status as int)),
{
    reveal_strlit("cached_prefix_tokens");
    reveal_strlit("serialized_tokens");
    reveal_strlit("kv_session_retained");
    reveal_strlit("evictions");
    assert("cached_prefix_tokens"@.len() == 20 && "serialized_tokens"@.len() == 17);
    assert("kv_session_retained"@.len() == 19 && "evictions"@.len() == 9);
    reveal_strlit("raw");
    reveal_strlit("adjusted");
    reveal_strlit("switch_cost_usd");
    reveal_strlit("cache_miss_tokens");
    reveal_strlit("stay_margin");
    reveal_strlit("cold_switch_multiplier");
    reveal_strlit("stayed");
    assert("raw"@.len() == 3 && "adjusted"@.len() == 8 && "switch_cost_usd"@.len() == 15);
    assert("cache_miss_tokens"@.len() == 17 && "stay_margin"@.len() == 11);
    assert("cold_switch_multiplier"@.len() == 22 && "stayed"@.len() == 6);
    reveal_strlit("encode");
    reveal_strlit("head_us");
    reveal_strlit("upstream_headers");
    reveal_strlit("total_to_headers");
    assert("encode"@.len() == 6 && "head_us"@.len() == 7);
    assert("upstream_headers"@.len() == 16 && "total_to_headers"@.len() == 16);
    assert("upstream_headers"@[0] == 'u' && "total_to_headers"@[0] == 't');
    reveal_strlit("provider");
    reveal_strlit("provider_order");
    reveal_strlit("fallbacks");
    reveal_strlit("request_shape");
    reveal_strlit("attempts");
    reveal_strlit("http_status");
    assert("provider"@.len() == 8 && "provider_order"@.len() == 14 && "fallbacks"@.len() == 9);
    assert("request_shape"@.len() == 13 && "attempts"@.len() == 8 && "http_status"@.len() == 11);
    assert("provider"@[0] == 'p' && "attempts"@[0] == 'a');
}

/// The parts of a record are written from their members.
proof fn lemma_parts_are_written(
    worker: WorkerManifest,
    dispatch: Tree,
    attempts: Seq<Tree>,
    route: RouteReport,
    decision: Decision,
)
    ensures
        consists_of(cache_record(route), cache_members(route)),
        consists_of(scores_record(route), scores_members(route)),
        consists_of(latency_record(route, decision), latency_members(route, decision)),
        consists_of(
            dispatch_record(worker, dispatch, attempts, decision.status as int),
            dispatch_members(worker, request_shape(dispatch), attempts, decision.status as int),
        ),
{
    lemma_part_names(worker, request_shape(dispatch), attempts, route, decision);
    reveal_with_fuel(written, 8);
    assert(cache_record(route) == Tree::Object(written(cache_members(route)))) by {
        lemma_four(cache_members(route));
    }
    lemma_consists(cache_record(route), cache_members(route));
    assert(latency_record(route, decision) == Tree::Object(
        written(latency_members(route, decision)),
    )) by {
        lemma_four(latency_members(route, decision));
    }
    lemma_consists(latency_record(route, decision), latency_members(route, decision));
    let sent = dispatch_members(worker, request_shape(dispatch), attempts, decision.status as int);
    lemma_from(sent, 6);
    lemma_from(sent, 5);
    lemma_four(sent.take(4));
    assert(sent.take(6) =~= sent);
    assert(dispatch_record(worker, dispatch, attempts, decision.status as int) == Tree::Object(
        written(sent),
    ));
    lemma_consists(dispatch_record(worker, dispatch, attempts, decision.status as int), sent);
    let scores = scores_members(route);
    lemma_from(scores, 7);
    lemma_from(scores, 6);
    lemma_from(scores, 5);
    lemma_four(scores.take(4));
    assert(scores.take(7) =~= scores);
    assert(scores_record(route) == Tree::Object(written(scores)));
    lemma_consists(scores_record(route), scores);
}

/// Writing a run of members writes all but the last and then the last.
proof fn lemma_from(members: Seq<(Seq<char>, Tree)>, n: int)
    requires
        0 < n <= members.len(),
    ensures
        written(members.take(n)) == with_member(
            written(members.take(n - 1)),
            members[n - 1].0,
            members[n - 1].1,
        ),
{
    assert(members.take(n).drop_last() =~= members.take(n - 1));
}

/// Writing four members writes them one behind the other.
proof fn lemma_four(members: Seq<(Seq<char>, Tree)>)
    requires
        members.len() == 4,
    ensures
        written(members) == with_member(
            with_member(
                with_member(
                    with_member(Seq::empty(), members[0].0, members[0].1),
                    members[1].0,
                    members[1].1,
                ),
                members[2].0,
                members[2].1,
            ),
            members[3].0,
            members[3].1,
        ),
{
    assert(members.take(4) =~= members);
    lemma_from(members, 4);
    lemma_from(members, 3);
    lemma_from(members, 2);
    lemma_from(members, 1);
    assert(written(members.take(0)) =~= Seq::empty());
}

/// What a decision's record says, by name.
pub open spec fn decision_members(
    decision: Decision,
    route: RouteReport,
    worker: WorkerManifest,
    prior: Tree,
    digest: Seq<char>,
    cache: Tree,
    scores: Tree,
    sent: Tree,
    latency: Tree,
) -> Seq<(Seq<char>, Tree)> {
    seq![
        ("schema_version"@, Tree::Text("rayline.c82-decision.v1"@)),
        ("artifact_commit"@, Tree::Text(decision.artifact_commit@)),
        ("request_id"@, Tree::Text(decision.request_id@)),
        ("episode_id_sha256"@, Tree::Text(digest)),
        ("turn_index"@, integer(decision.turn_index as int)),
        ("next_turn_index"@, integer(decision.next_turn_index as int)),
        ("state_committed"@, Tree::Bool(decision.committed)),
        ("prior_arm"@, prior),
        ("selected_arm"@, Tree::Text(worker.id@)),
        ("selected_arm_index"@, integer(route.selected_arm as int)),
        ("device"@, route.device@),
        ("encode_mode"@, route.encode_mode@),
        ("cache"@, cache),
        ("scores"@, scores),
        ("dispatch"@, sent),
        ("latency_ms"@, latency),
    ]
}

/// The names in a decision's record differ.
proof fn lemma_decision_names(
    decision: Decision,
    route: RouteReport,
    worker: WorkerManifest,
    prior: Tree,
    digest: Seq<char>,
    cache: Tree,
    scores: Tree,
    sent: Tree,
    latency: Tree,
)
    ensures
        keys_apart(
            decision_members(
                decision,
                route,
                worker,
                prior,
                digest,
                cache,
                scores,
                sent,
                latency,
            ),
        ),
{
    reveal_strlit("schema_version");
    reveal_strlit("artifact_commit");
    reveal_strlit("request_id");
    reveal_strlit("episode_id_sha256");
    reveal_strlit("turn_index");
    reveal_strlit("next_turn_index");
    reveal_strlit("state_committed");
    reveal_strlit("prior_arm");
    reveal_strlit("selected_arm");
    reveal_strlit("selected_arm_index");
    reveal_strlit("device");
    reveal_strlit("encode_mode");
    reveal_strlit("cache");
    reveal_strlit("scores");
    reveal_strlit("dispatch");
    reveal_strlit("latency_ms");
    assert("schema_version"@.len() == 14 && "artifact_commit"@.len() == 15);
    assert("request_id"@.len() == 10 && "episode_id_sha256"@.len() == 17);
    assert("turn_index"@.len() == 10 && "next_turn_index"@.len() == 15);
    assert("state_committed"@.len() == 15 && "prior_arm"@.len() == 9);
    assert("selected_arm"@.len() == 12 && "selected_arm_index"@.len() == 18);
    assert("device"@.len() == 6 && "encode_mode"@.len() == 11 && "cache"@.len() == 5);
    assert("scores"@.len() == 6 && "dispatch"@.len() == 8 && "latency_ms"@.len() == 10);
    assert("artifact_commit"@[0] == 'a' && "next_turn_index"@[0] == 'n');
    assert("state_committed"@[0] == 's' && "request_id"@[0] == 'r' && "turn_index"@[0] == 't');
    assert("latency_ms"@[0] == 'l' && "device"@[0] == 'd' && "scores"@[0] == 's');
}

/// The record of a decision says what was decided, of which request, in which episode, by its
/// digest alone, on what grounds, what was sent in what shape, how it went and how long it took;
/// each under its name, and nothing else.
pub proof fn law_decision_is_recorded_by_name(
    workers: &Vec<WorkerManifest>,
    decision: &Decision,
    route: &RouteReport,
    worker: &WorkerManifest,
    dispatch: &Json,
    attempts: Vec<Json>,
    record: Json,
    shape: Json,
    digest: Vec<u8>,
    digits: String,
)
    requires
        call_ensures(
            decision_record,
            (workers, decision, route, worker, dispatch, attempts),
            record,
        ),
        call_ensures(dispatch_request_shape, (dispatch,), shape),
        digest@ == sha256(encode_utf8(decision.episode_id@)),
        call_ensures(hex_text, (&digest,), digits),
    ensures
        exists|prior: Tree, cache: Tree, scores: Tree, sent: Tree, latency: Tree|
            {
                &&& #[trigger] consists_of(
                    record@,
                    decision_members(
                        *decision,
                        *route,
                        *worker,
                        prior,
                        digits@,
                        cache,
                        scores,
                        sent,
                        latency,
                    ),
                )
                &&& decision.prior_arm matches Some(at) ==> at < workers@.len() ==> prior
                    == Tree::Text(workers@[at as int].id@)
                &&& decision.prior_arm matches Some(at) ==> at >= workers@.len() ==> prior is Null
                &&& decision.prior_arm is None ==> prior is Null
                &&& consists_of(cache, cache_members(*route))
                &&& consists_of(scores, scores_members(*route))
                &&& consists_of(
                    sent,
                    dispatch_members(
                        *worker,
                        shape@,
                        trees(attempts@),
                        decision.status as int,
                    ),
                )
                &&& consists_of(latency, latency_members(*route, *decision))
            },
{
    let prior = prior_worker(workers@, decision.prior_arm);
    let cache = cache_record(*route);
    let scores = scores_record(*route);
    let sent = dispatch_record(*worker, dispatch@, trees(attempts@), decision.status as int);
    let latency = latency_record(*route, *decision);
    lemma_parts_are_written(*worker, dispatch@, trees(attempts@), *route, *decision);
    lemma_decision_names(
        *decision,
        *route,
        *worker,
        prior,
        digits@,
        cache,
        scores,
        sent,
        latency,
    );
    let members = decision_members(
        *decision,
        *route,
        *worker,
        prior,
        digits@,
        cache,
        scores,
        sent,
        latency,
    );
    lemma_sixteen(members);
    assert(record@ == Tree::Object(written(members)));
    lemma_consists(record@, members);
}

/// Writing sixteen members writes them one behind the other.
proof fn lemma_sixteen(members: Seq<(Seq<char>, Tree)>)
    requires
        members.len() == 16,
    ensures
        ({
            let m = with_member(Seq::empty(), members[0].0, members[0].1);
            let m = with_member(m, members[1].0, members[1].1);
            let m = with_member(m, members[2].0, members[2].1);
            let m = with_member(m, members[3].0, members[3].1);
            let m = with_member(m, members[4].0, members[4].1);
            let m = with_member(m, members[5].0, members[5].1);
            let m = with_member(m, members[6].0, members[6].1);
            let m = with_member(m, members[7].0, members[7].1);
            let m = with_member(m, members[8].0, members[8].1);
            let m = with_member(m, members[9].0, members[9].1);
            let m = with_member(m, members[10].0, members[10].1);
            let m = with_member(m, members[11].0, members[11].1);
            let m = with_member(m, members[12].0, members[12].1);
            let m = with_member(m, members[13].0, members[13].1);
            let m = with_member(m, members[14].0, members[14].1);
            written(members) == with_member(m, members[15].0, members[15].1)
        }),
{
    assert(members.take(16) =~= members);
    lemma_from(members, 16);
    lemma_from(members, 15);
    lemma_from(members, 14);
    lemma_from(members, 13);
    lemma_from(members, 12);
    lemma_from(members, 11);
    lemma_from(members, 10);
    lemma_from(members, 9);
    lemma_from(members, 8);
    lemma_from(members, 7);
    lemma_from(members, 6);
    lemma_from(members, 5);
    lemma_four(members.take(4));
}

/// What the record of a request to which no answer came says, by name.
pub open spec fn failure_members(
    artifact_commit: Seq<char>,
    worker: WorkerManifest,
    sent: Tree,
) -> Seq<(Seq<char>, Tree)> {
    seq![
        ("schema_version"@, Tree::Text("rayline.c82-decision.v1"@)),
        ("artifact_commit"@, Tree::Text(artifact_commit)),
        ("state_committed"@, Tree::Bool(false)),
        ("selected_arm"@, Tree::Text(worker.id@)),
        ("dispatch"@, sent),
    ]
}

/// How a request went upstream to which no answer came, by name.
pub open spec fn failed_dispatch_members(worker: WorkerManifest, attempts: Seq<Tree>) -> Seq<
    (Seq<char>, Tree),
> {
    seq![
        ("provider"@, worker.openrouter_provider_slug@),
        ("attempts"@, Tree::Array(attempts)),
        ("terminal"@, Tree::Text("pre_response_transport_failure"@)),
    ]
}

/// The record of a request to which no answer came says so, and that its turn was not taken in;
/// each under its name, and nothing else.
pub proof fn law_failure_is_recorded_by_name(
    artifact_commit: &str,
    worker: &WorkerManifest,
    attempts: Vec<Json>,
    record: Json,
)
    requires
        call_ensures(pre_response_failure_record, (artifact_commit, worker, attempts), record),
    ensures
        exists|sent: Tree|
            {
                &&& #[trigger] consists_of(
                    record@,
                    failure_members(artifact_commit@, *worker, sent),
                )
                &&& consists_of(
                    sent,
                    failed_dispatch_members(*worker, trees(attempts@)),
                )
            },
{
    let parts = failed_dispatch_members(*worker, trees(attempts@));
    reveal_strlit("provider");
    reveal_strlit("attempts");
    reveal_strlit("terminal");
    assert("provider"@[0] == 'p' && "attempts"@[0] == 'a' && "terminal"@[0] == 't');
    lemma_from(parts, 3);
    lemma_from(parts, 2);
    lemma_from(parts, 1);
    assert(parts.take(3) =~= parts);
    assert(written(parts.take(0)) =~= Seq::empty());
    let sent = Tree::Object(written(parts));
    lemma_consists(sent, parts);
    let members = failure_members(artifact_commit@, *worker, sent);
    reveal_strlit("schema_version");
    reveal_strlit("artifact_commit");
    reveal_strlit("state_committed");
    reveal_strlit("selected_arm");
    reveal_strlit("dispatch");
    assert("schema_version"@.len() == 14 && "artifact_commit"@.len() == 15);
    assert("state_committed"@.len() == 15 && "selected_arm"@.len() == 12);
    assert("dispatch"@.len() == 8 && "artifact_commit"@[0] == 'a' && "state_committed"@[0] == 's');
    lemma_from(members, 5);
    lemma_four(members.take(4));
    assert(members.take(5) =~= members);
    assert(record@ == Tree::Object(written(members)));
    lemma_consists(record@, members);
}

/// The line of a record is the record's bytes and then a line feed, and holds no other.
pub proof fn law_record_is_one_line(record: &Json, line: Vec<u8>, bytes: Vec<u8>)
    requires
        call_ensures(log_line, (record,), line),
        call_ensures(Json::to_bytes, (record,), bytes),
    ensures
        line@ == bytes@.push(10),
        forall|i: int| 0 <= i < bytes@.len() ==> #[trigger] bytes@[i] != 10,
{
}

/// The texts in the array, in order.
pub open spec fn lists(array: Tree, names: Seq<Seq<char>>) -> bool {
    array matches Tree::Array(items) && items.len() == names.len() && forall|i: int|
        0 <= i < items.len() ==> #[trigger] items[i] == Tree::Text(names[i])
}

/// What the shape of an object says, by name.
pub open spec fn shape_members(names: Tree, count: int, tool_names: Tree) -> Seq<
    (Seq<char>, Tree),
> {
    seq![
        ("top_level_keys"@, names),
        ("tool_count"@, integer(count)),
        ("tool_keys"@, tool_names),
    ]
}

/// The shape of an object names its members, in order, counts its tools, and lists each name that
/// a member of one of its tools has, once, in ascending order. It says nothing else.
pub proof fn law_shape_names_and_counts(
    dispatch: &Json,
    shape: Json,
    members: Seq<(Seq<char>, Tree)>,
    tools: Seq<Tree>,
)
    requires
        call_ensures(dispatch_request_shape, (dispatch,), shape),
        well_formed(dispatch@),
        dispatch@ == Tree::Object(members),
        holds(dispatch@, "tools"@, Tree::Array(tools)) || (tools.len() == 0 && forall|
            some: Seq<Tree>,
        |
            !#[trigger] holds(dispatch@, "tools"@, Tree::Array(some))),
    ensures
        exists|names: Tree, tool_names: Tree, fields: Seq<Seq<char>>|
            {
                &&& #[trigger] consists_of(
                    shape@,
                    shape_members(names, tools.len() as int, tool_names),
                )
                &&& lists(names, members.map_values(|entry: (Seq<char>, Tree)| entry.0))
                &&& #[trigger] lists(tool_names, fields)
                &&& forall|i: int, j: int|
                    0 <= i < j < fields.len() ==> text_less(
                        #[trigger] fields[i],
                        #[trigger] fields[j],
                    )
                &&& forall|field: Seq<char>| #[trigger]
                    fields.contains(field) <==> exists|i: int|
                        0 <= i < tools.len() && !lacks(#[trigger] tools[i], field)
            },
{
    lemma_tools(members, tools);
    let names = key_list(members);
    let keys = tool_keys(tools);
    let tool_names = key_list(keys);
    let fields = keys.map_values(|entry: (Seq<char>, Tree)| entry.0);
    let parts = shape_members(names, tools.len() as int, tool_names);
    reveal_strlit("top_level_keys");
    reveal_strlit("tool_count");
    reveal_strlit("tool_keys");
    assert("top_level_keys"@.len() == 14 && "tool_count"@.len() == 10 && "tool_keys"@.len() == 9);
    lemma_from(parts, 3);
    lemma_from(parts, 2);
    lemma_from(parts, 1);
    assert(parts.take(3) =~= parts);
    assert(written(parts.take(0)) =~= Seq::empty());
    assert(shape@ == Tree::Object(written(parts)));
    lemma_consists(shape@, parts);
    assert(lists(names, members.map_values(|entry: (Seq<char>, Tree)| entry.0)));
    assert(lists(tool_names, fields));
    law_tool_keys_are_listed_once(tools, Seq::empty());
    assert forall|i: int, j: int| 0 <= i < j < fields.len() implies text_less(
        #[trigger] fields[i],
        #[trigger] fields[j],
    ) by {
        assert(text_less(keys[i].0, keys[j].0));
    }
    assert forall|field: Seq<char>| #[trigger] fields.contains(field) <==> exists|i: int|
        0 <= i < tools.len() && !lacks(#[trigger] tools[i], field) by {
        lemma_field(tools, keys, fields, field);
    }
}

/// The tools of a body are those that it holds.
proof fn lemma_tools(members: Seq<(Seq<char>, Tree)>, tools: Seq<Tree>)
    requires
        well_formed(Tree::Object(members)),
        holds(Tree::Object(members), "tools"@, Tree::Array(tools)) || (tools.len() == 0 && forall|
            some: Seq<Tree>,
        |
            !#[trigger] holds(Tree::Object(members), "tools"@, Tree::Array(some))),
    ensures
        tools_of(members) == tools,
        forall|i: int| 0 <= i < tools.len() ==> well_formed(#[trigger] tools[i]),
{
    let body = Tree::Object(members);
    lemma_found_is_held(members, "tools"@, Tree::Array(tools));
    if holds(body, "tools"@, Tree::Array(tools)) {
        lemma_held_is_well_formed(body, "tools"@, Tree::Array(tools));
        let whole = Tree::Array(tools);
        assert forall|i: int| 0 <= i < tools.len() implies well_formed(#[trigger] tools[i]) by {
            assert(whole->Array_0[i] == tools[i]);
        }
    } else {
        if let Some(Tree::Array(some)) = lookup(members, "tools"@) {
            lemma_found_is_held(members, "tools"@, Tree::Array(some));
            assert(holds(body, "tools"@, Tree::Array(some)));
        }
        assert(tools_of(members) =~= tools);
    }
}

/// A name is listed exactly if a member of some tool has it.
proof fn lemma_field(
    tools: Seq<Tree>,
    keys: Seq<(Seq<char>, Tree)>,
    fields: Seq<Seq<char>>,
    field: Seq<char>,
)
    requires
        keys == tool_keys(tools),
        fields == keys.map_values(|entry: (Seq<char>, Tree)| entry.0),
        forall|i: int| 0 <= i < tools.len() ==> well_formed(#[trigger] tools[i]),
    ensures
        fields.contains(field) <==> exists|i: int|
            0 <= i < tools.len() && !lacks(#[trigger] tools[i], field),
{
    law_tool_keys_are_listed_once(tools, field);
    assert(fields.contains(field) <==> has_member(keys, field)) by {
        if fields.contains(field) {
            let i = choose|i: int| 0 <= i < fields.len() && fields[i] == field;
            assert(keys[i].0 == field);
        }
        if has_member(keys, field) {
            let i = choose|i: int| 0 <= i < keys.len() && (#[trigger] keys[i]).0 == field;
            assert(fields[i] == field);
        }
    }
    assert forall|i: int| 0 <= i < tools.len() implies (!lacks(#[trigger] tools[i], field) <==> (
    tools[i] matches Tree::Object(members) && has_member(members, field))) by {
        lemma_nothing_is_held(tools[i], field);
        if let Tree::Object(members) = tools[i] {
            lemma_lookup_is_some(members, field);
        }
    }
    if some_tool_has(tools, field) {
        let i = choose|i: int|
            0 <= i < tools.len() && (#[trigger] tools[i] matches Tree::Object(members)
                && has_member(members, field));
        assert(!lacks(tools[i], field));
    }
    if exists|i: int| 0 <= i < tools.len() && !lacks(#[trigger] tools[i], field) {
        let i = choose|i: int| 0 <= i < tools.len() && !lacks(#[trigger] tools[i], field);
        assert(tools[i] matches Tree::Object(members) && has_member(members, field));
    }
}

/// The shape of what is no object names no members and says nothing else.
pub proof fn law_shape_of_no_object(dispatch: &Json, shape: Json)
    requires
        call_ensures(dispatch_request_shape, (dispatch,), shape),
        dispatch@ !is Object,
    ensures
        consists_of(shape@, seq![("top_level_keys"@, Tree::Array(Seq::empty()))]),
{
    let parts = seq![("top_level_keys"@, Tree::Array(Seq::<Tree>::empty()))];
    lemma_from(parts, 1);
    assert(parts.take(1) =~= parts);
    assert(written(parts.take(0)) =~= Seq::empty());
    assert(shape@ == Tree::Object(written(parts)));
    lemma_consists(shape@, parts);
}

} // verus!
