//! The log of decisions: one JSON object per line, without the content of any request.

use vstd::prelude::*;
use vstd::utf8::encode_utf8;
use crate::dispatch::{
    dispatch_request_shape, law_shape_holds_names_and_counts_only, request_shape, same_names,
    same_tool_names, tools_of, WorkerManifest,
};
use crate::json::{integer, trees, with_member, Json, JsonObject, Tree};
use crate::text::{hex, hex_text, lemma_hex_length};
use crate::wire::{compact_text, parsed_bytes, reads_back};

verus! {

/// The SHA-256 digest of bytes.
pub uninterp spec fn sha256(bytes: Seq<u8>) -> Seq<u8>;

/// `sha2::Sha256::digest`: the SHA-256 digest of the bytes, of 32 bytes. What the digest is of
/// given bytes is not spelled out here.
#[verifier::external_body]
fn sha256_digest(bytes: &[u8]) -> (digest: Vec<u8>)
    ensures
        digest@ == sha256(bytes@),
        digest@.len() == 32,
{
    <sha2::Sha256 as sha2::Digest>::digest(bytes).to_vec()
}

/// What a decision was about, and how it ended.
pub struct Decision {
    pub artifact_commit: String,
    pub request_id: String,
    pub episode_id: String,
    pub prior_arm: Option<usize>,
    pub turn_index: u64,
    pub next_turn_index: u64,
    pub committed: bool,
    pub status: u16,
    pub upstream_header_latency_ms: u64,
    pub total_latency_ms: u64,
}

/// What the router reports of a decision. Values that are only passed on stand here as JSON.
pub struct RouteReport {
    pub selected_arm: usize,
    pub device: Json,
    pub encode_mode: Json,
    pub cached_prefix_tokens: Json,
    pub serialized_tokens: Json,
    pub kv_session_retained: Json,
    pub kv_evictions: Json,
    pub raw_scores: Json,
    pub adjusted_scores: Json,
    pub switch_cost_usd: Json,
    pub cache_miss_tokens: Json,
    pub stay_margin: Json,
    pub cold_switch_multiplier: Json,
    pub stayed: Json,
    pub encode_latency_ms: Json,
    pub head_latency_us: Json,
}

/// The id of the worker that had the turn before, if there was one and the manifest has it.
pub open spec fn prior_worker(workers: Seq<WorkerManifest>, prior_arm: Option<usize>) -> Tree {
    match prior_arm {
        Some(index) => if index < workers.len() {
            Tree::Text(workers[index as int].id@)
        } else {
            Tree::Null
        },
        None => Tree::Null,
    }
}

/// How the key-value cache was used.
pub open spec fn cache_record(route: RouteReport) -> Tree {
    let m = with_member(Seq::empty(), "cached_prefix_tokens"@, route.cached_prefix_tokens@);
    let m = with_member(m, "serialized_tokens"@, route.serialized_tokens@);
    let m = with_member(m, "kv_session_retained"@, route.kv_session_retained@);
    Tree::Object(with_member(m, "evictions"@, route.kv_evictions@))
}

/// The scores that the decision rests on.
pub open spec fn scores_record(route: RouteReport) -> Tree {
    let m = with_member(Seq::empty(), "raw"@, route.raw_scores@);
    let m = with_member(m, "adjusted"@, route.adjusted_scores@);
    let m = with_member(m, "switch_cost_usd"@, route.switch_cost_usd@);
    let m = with_member(m, "cache_miss_tokens"@, route.cache_miss_tokens@);
    let m = with_member(m, "stay_margin"@, route.stay_margin@);
    let m = with_member(m, "cold_switch_multiplier"@, route.cold_switch_multiplier@);
    Tree::Object(with_member(m, "stayed"@, route.stayed@))
}

/// How the request went upstream.
pub open spec fn dispatch_record(
    worker: WorkerManifest,
    dispatch: Tree,
    attempts: Seq<Tree>,
    status: int,
) -> Tree {
    let m = with_member(Seq::empty(), "provider"@, worker.openrouter_provider_slug@);
    let m = with_member(m, "provider_order"@, worker.openrouter_provider_order@);
    let m = with_member(m, "fallbacks"@, worker.openrouter_allow_fallbacks@);
    let m = with_member(m, "request_shape"@, request_shape(dispatch));
    let m = with_member(m, "attempts"@, Tree::Array(attempts));
    Tree::Object(with_member(m, "http_status"@, integer(status)))
}

/// How long the steps took.
pub open spec fn latency_record(route: RouteReport, decision: Decision) -> Tree {
    let m = with_member(Seq::empty(), "encode"@, route.encode_latency_ms@);
    let m = with_member(m, "head_us"@, route.head_latency_us@);
    let m = with_member(
        m,
        "upstream_headers"@,
        integer(decision.upstream_header_latency_ms as int),
    );
    Tree::Object(with_member(m, "total_to_headers"@, integer(decision.total_latency_ms as int)))
}

/// The record of a decision. The episode is named by its digest alone.
pub open spec fn decision_tree(
    workers: Seq<WorkerManifest>,
    decision: Decision,
    route: RouteReport,
    worker: WorkerManifest,
    dispatch: Tree,
    attempts: Seq<Tree>,
) -> Tree {
    let m = with_member(Seq::empty(), "schema_version"@, Tree::Text("rayline.c82-decision.v1"@));
    let m = with_member(m, "artifact_commit"@, Tree::Text(decision.artifact_commit@));
    let m = with_member(m, "request_id"@, Tree::Text(decision.request_id@));
    let m = with_member(
        m,
        "episode_id_sha256"@,
        Tree::Text(hex(sha256(encode_utf8(decision.episode_id@)))),
    );
    let m = with_member(m, "turn_index"@, integer(decision.turn_index as int));
    let m = with_member(m, "next_turn_index"@, integer(decision.next_turn_index as int));
    let m = with_member(m, "state_committed"@, Tree::Bool(decision.committed));
    let m = with_member(m, "prior_arm"@, prior_worker(workers, decision.prior_arm));
    let m = with_member(m, "selected_arm"@, Tree::Text(worker.id@));
    let m = with_member(m, "selected_arm_index"@, integer(route.selected_arm as int));
    let m = with_member(m, "device"@, route.device@);
    let m = with_member(m, "encode_mode"@, route.encode_mode@);
    let m = with_member(m, "cache"@, cache_record(route));
    let m = with_member(m, "scores"@, scores_record(route));
    let m = with_member(
        m,
        "dispatch"@,
        dispatch_record(worker, dispatch, attempts, decision.status as int),
    );
    Tree::Object(with_member(m, "latency_ms"@, latency_record(route, decision)))
}

/// The digest of a text, in 64 hexadecimal digits.
fn text_digest(text: &str) -> (digits: String)
    ensures
        digits@ == hex(sha256(encode_utf8(text@))),
        sha256(encode_utf8(text@)).len() == 32,
        digits@.len() == 64,
{
    proof {
        lemma_hex_length(sha256(encode_utf8(text@)));
    }
    hex_text(&sha256_digest(text.as_bytes()))
}

/// Puts a value under a key that is given as a literal.
fn put(object: &mut JsonObject, key: &str, value: Json)
    ensures
        final(object)@ == with_member(old(object)@, key@, value@),
{
    object.insert(key.to_owned(), value);
}

/// How the key-value cache was used.
fn record_cache(route: &RouteReport) -> (record: Json)
    ensures
        record@ == cache_record(*route),
{
    let mut object = JsonObject::new();
    put(&mut object, "cached_prefix_tokens", route.cached_prefix_tokens.copy());
    put(&mut object, "serialized_tokens", route.serialized_tokens.copy());
    put(&mut object, "kv_session_retained", route.kv_session_retained.copy());
    put(&mut object, "evictions", route.kv_evictions.copy());
    Json::Object(object)
}

/// The scores that the decision rests on.
fn record_scores(route: &RouteReport) -> (record: Json)
    ensures
        record@ == scores_record(*route),
{
    let mut object = JsonObject::new();
    put(&mut object, "raw", route.raw_scores.copy());
    put(&mut object, "adjusted", route.adjusted_scores.copy());
    put(&mut object, "switch_cost_usd", route.switch_cost_usd.copy());
    put(&mut object, "cache_miss_tokens", route.cache_miss_tokens.copy());
    put(&mut object, "stay_margin", route.stay_margin.copy());
    put(&mut object, "cold_switch_multiplier", route.cold_switch_multiplier.copy());
    put(&mut object, "stayed", route.stayed.copy());
    Json::Object(object)
}

/// How the request went upstream.
fn record_dispatch(worker: &WorkerManifest, dispatch: &Json, attempts: Vec<Json>, status: u16) -> (
    record: Json)
    ensures
        record@ == dispatch_record(*worker, dispatch@, trees(attempts@), status as int),
{
    let mut object = JsonObject::new();
    put(&mut object, "provider", worker.openrouter_provider_slug.copy());
    put(&mut object, "provider_order", worker.openrouter_provider_order.copy());
    put(&mut object, "fallbacks", worker.openrouter_allow_fallbacks.copy());
    put(&mut object, "request_shape", dispatch_request_shape(dispatch));
    put(&mut object, "attempts", Json::Array(attempts));
    put(&mut object, "http_status", Json::unsigned(status as u64));
    Json::Object(object)
}

/// How long the steps took.
fn record_latency(route: &RouteReport, decision: &Decision) -> (record: Json)
    ensures
        record@ == latency_record(*route, *decision),
{
    let mut object = JsonObject::new();
    put(&mut object, "encode", route.encode_latency_ms.copy());
    put(&mut object, "head_us", route.head_latency_us.copy());
    put(&mut object, "upstream_headers", Json::unsigned(decision.upstream_header_latency_ms));
    put(&mut object, "total_to_headers", Json::unsigned(decision.total_latency_ms));
    Json::Object(object)
}

/// The record of a decision. The digest that names the episode has 64 digits.
pub fn decision_record(
    workers: &Vec<WorkerManifest>,
    decision: &Decision,
    route: &RouteReport,
    worker: &WorkerManifest,
    dispatch: &Json,
    attempts: Vec<Json>,
) -> (record: Json)
    ensures
        record@ == decision_tree(
            workers@,
            *decision,
            *route,
            *worker,
            dispatch@,
            trees(attempts@),
        ),
        sha256(encode_utf8(decision.episode_id@)).len() == 32,
        hex(sha256(encode_utf8(decision.episode_id@))).len() == 64,
{
    let prior = match decision.prior_arm {
        Some(index) => if index < workers.len() {
            Json::text(workers[index].id.as_str())
        } else {
            Json::Null
        },
        None => Json::Null,
    };
    let mut object = JsonObject::new();
    put(&mut object, "schema_version", Json::text("rayline.c82-decision.v1"));
    put(&mut object, "artifact_commit", Json::text(decision.artifact_commit.as_str()));
    put(&mut object, "request_id", Json::text(decision.request_id.as_str()));
    put(
        &mut object,
        "episode_id_sha256",
        Json::Text(text_digest(decision.episode_id.as_str())),
    );
    put(&mut object, "turn_index", Json::unsigned(decision.turn_index));
    put(&mut object, "next_turn_index", Json::unsigned(decision.next_turn_index));
    put(&mut object, "state_committed", Json::Bool(decision.committed));
    put(&mut object, "prior_arm", prior);
    put(&mut object, "selected_arm", Json::text(worker.id.as_str()));
    put(&mut object, "selected_arm_index", Json::unsigned(route.selected_arm as u64));
    put(&mut object, "device", route.device.copy());
    put(&mut object, "encode_mode", route.encode_mode.copy());
    put(&mut object, "cache", record_cache(route));
    put(&mut object, "scores", record_scores(route));
    put(&mut object, "dispatch", record_dispatch(worker, dispatch, attempts, decision.status));
    put(&mut object, "latency_ms", record_latency(route, decision));
    Json::Object(object)
}

/// The record of a request to which no answer came. The episode's state was not committed.
pub open spec fn failure_tree(
    artifact_commit: Seq<char>,
    worker: WorkerManifest,
    attempts: Seq<Tree>,
) -> Tree {
    let d = with_member(Seq::empty(), "provider"@, worker.openrouter_provider_slug@);
    let d = with_member(d, "attempts"@, Tree::Array(attempts));
    let d = with_member(d, "terminal"@, Tree::Text("pre_response_transport_failure"@));
    let m = with_member(Seq::empty(), "schema_version"@, Tree::Text("rayline.c82-decision.v1"@));
    let m = with_member(m, "artifact_commit"@, Tree::Text(artifact_commit));
    let m = with_member(m, "state_committed"@, Tree::Bool(false));
    let m = with_member(m, "selected_arm"@, Tree::Text(worker.id@));
    Tree::Object(with_member(m, "dispatch"@, Tree::Object(d)))
}

/// The record of a request to which no answer came.
pub fn pre_response_failure_record(
    artifact_commit: &str,
    worker: &WorkerManifest,
    attempts: Vec<Json>,
) -> (record: Json)
    ensures
        record@ == failure_tree(artifact_commit@, *worker, trees(attempts@)),
{
    let mut dispatch = JsonObject::new();
    put(&mut dispatch, "provider", worker.openrouter_provider_slug.copy());
    put(&mut dispatch, "attempts", Json::Array(attempts));
    put(&mut dispatch, "terminal", Json::text("pre_response_transport_failure"));
    let mut object = JsonObject::new();
    put(&mut object, "schema_version", Json::text("rayline.c82-decision.v1"));
    put(&mut object, "artifact_commit", Json::text(artifact_commit));
    put(&mut object, "state_committed", Json::Bool(false));
    put(&mut object, "selected_arm", Json::text(worker.id.as_str()));
    put(&mut object, "dispatch", Json::Object(dispatch));
    Json::Object(object)
}

/// The line of the log that holds the record: its one line feed is at the end, and the record
/// reads back from what stands ahead of it.
pub fn log_line(record: &Json) -> (line: Vec<u8>)
    ensures
        line@ == encode_utf8(compact_text(record@)).push(10),
        forall|i: int| 0 <= i < line@.len() - 1 ==> #[trigger] line@[i] != 10,
        reads_back(record@) ==> parsed_bytes(line@.drop_last()) == Some(record@),
{
    let mut line = record.to_bytes();
    let ghost text = line@;
    line.push(10);
    assert(line@.drop_last() =~= text);
    line
}

/// The log holds no content of a request: requests whose fields and whose tools' fields are named
/// alike leave the same record, whatever the fields hold.
pub proof fn law_log_holds_no_request_content(
    workers: Seq<WorkerManifest>,
    decision: Decision,
    route: RouteReport,
    worker: WorkerManifest,
    left: Seq<(Seq<char>, Tree)>,
    right: Seq<(Seq<char>, Tree)>,
    attempts: Seq<Tree>,
)
    requires
        same_names(left, right),
        tools_of(left).len() == tools_of(right).len(),
        forall|i: int|
            0 <= i < tools_of(left).len() ==> same_tool_names(
                #[trigger] tools_of(left)[i],
                tools_of(right)[i],
            ),
    ensures
        decision_tree(workers, decision, route, worker, Tree::Object(left), attempts)
            == decision_tree(workers, decision, route, worker, Tree::Object(right), attempts),
{
    law_shape_holds_names_and_counts_only(left, right);
}

} // verus!
