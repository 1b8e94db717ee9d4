//! One turn, and what has to hold before any.

use vstd::prelude::*;
use crate::dispatch::{worker_arm, DispatchError, WorkerManifest};
use crate::history::{anthropic_messages_to_turns, turn_views, HistoryError, HistoryTurn};
use crate::json::{member, well_formed, Json, Tree};
use crate::laws::text::{all_blank, blank, lemma_trimmed};
use crate::laws::{holds, lacks, lemma_member_is_held};
use crate::startup::{check_startup, is_slow_fallback, readiness, Readiness, StartupError};
use crate::text::{decimal_text, trimmed, trimmed_end, trimmed_start, white_space};
use crate::turn::{
    commits_state, header_views, open_turn, request_id, route_decided, selected_worker,
    upstream_headers, OpenTurn, RouteDecided, TurnEnd, TurnError,
};

verus! {

/// A request that names an episode and has an array of messages opens a turn of that episode,
/// white space around the name aside, with the turns that its messages give.
pub proof fn law_request_with_episode_and_messages_opens_a_turn(
    header: &str,
    request: &Json,
    opened: Result<OpenTurn, TurnError>,
    turns: Result<Vec<HistoryTurn>, HistoryError>,
    lead: Seq<char>,
    episode: Seq<char>,
    trail: Seq<char>,
    messages: Seq<Tree>,
)
    requires
        call_ensures(open_turn, (Some(header), request), opened),
        call_ensures(anthropic_messages_to_turns, (request,), turns),
        well_formed(request@),
        header@ == lead + episode + trail,
        all_blank(lead),
        all_blank(trail),
        episode.len() > 0,
        !blank(episode[0]),
        !blank(episode.last()),
        holds(request@, "messages"@, Tree::Array(messages)),
    ensures
        opened is Ok,
        turns is Ok,
        opened->Ok_0.episode_id@ == episode,
        turn_views(opened->Ok_0.turns@) == turn_views(turns->Ok_0@),
{
    lemma_trimmed(lead, episode, trail);
    lemma_member_is_held(request@, "messages"@, Tree::Array(messages));
}

/// A request without an episode is turned down for that, whatever else it has.
pub proof fn law_request_needs_an_episode(
    header: Option<&str>,
    request: &Json,
    opened: Result<OpenTurn, TurnError>,
)
    requires
        call_ensures(open_turn, (header, request), opened),
        header matches Some(text) ==> all_blank(text@),
    ensures
        opened is Err,
        opened->Err_0 == TurnError::MissingEpisode,
{
    if let Some(text) = header {
        let none = Seq::<char>::empty();
        assert(text@ + none + none =~= text@);
        lemma_trimmed(text@, none, none);
    }
}

/// A request that names an episode but has no array of messages is turned down for that.
pub proof fn law_request_needs_messages(
    header: &str,
    request: &Json,
    opened: Result<OpenTurn, TurnError>,
    at: int,
)
    requires
        call_ensures(open_turn, (Some(header), request), opened),
        well_formed(request@),
        0 <= at < header@.len(),
        !blank(header@[at]),
        forall|messages: Seq<Tree>|
            !#[trigger] holds(request@, "messages"@, Tree::Array(messages)),
    ensures
        opened is Err,
        opened->Err_0 == TurnError::MissingMessages,
{
    lemma_not_all_trimmed(header@, at);
    if let Some(Tree::Array(messages)) = member(request@, "messages"@) {
        lemma_member_is_held(request@, "messages"@, Tree::Array(messages));
        assert(holds(request@, "messages"@, Tree::Array(messages)));
    }
}

/// A text that is not all white space is not trimmed away.
proof fn lemma_not_all_trimmed(text: Seq<char>, at: int)
    requires
        0 <= at < text.len(),
        !blank(text[at]),
    ensures
        trimmed(text).len() > 0,
    decreases text.len(),
{
    lemma_start_kept(text, at);
    let rest = trimmed_start(text);
    let k = choose|k: int| 0 <= k < rest.len() && !blank(#[trigger] rest[k]);
    lemma_end_kept(rest, k);
}

/// What is no white space stays when the start is trimmed.
proof fn lemma_start_kept(text: Seq<char>, at: int)
    requires
        0 <= at < text.len(),
        !blank(text[at]),
    ensures
        exists|k: int|
            0 <= k < trimmed_start(text).len() && !blank(
                #[trigger] trimmed_start(text)[k],
            ),
    decreases text.len(),
{
    if white_space(text[0]) {
        let tail = text.drop_first();
        assert(tail[at - 1] == text[at]);
        lemma_start_kept(tail, at - 1);
        assert(trimmed_start(text) == trimmed_start(tail));
        let k = choose|k: int|
            0 <= k < trimmed_start(tail).len() && !blank(#[trigger] trimmed_start(tail)[k]);
        assert(!blank(trimmed_start(text)[k]));
    } else {
        assert(trimmed_start(text)[at] == text[at]);
    }
}

/// What is no white space stays when the end is trimmed.
proof fn lemma_end_kept(text: Seq<char>, at: int)
    requires
        0 <= at < text.len(),
        !blank(text[at]),
    ensures
        trimmed_end(text).len() > 0,
    decreases text.len(),
{
    if white_space(text.last()) {
        assert(text.drop_last()[at] == text[at]);
        lemma_end_kept(text.drop_last(), at);
    }
}

/// A request keeps the id that the client gave it, and gets the fresh one otherwise.
pub proof fn law_client_names_the_request(header: Option<&str>, fresh: String, id: String)
    requires
        call_ensures(request_id, (header, fresh), id),
    ensures
        header matches Some(given) ==> id@ == given@,
        header is None ==> id@ == fresh@,
{
}

/// The chosen worker is the one at the chosen place; a place behind the last is refused.
pub proof fn law_chosen_worker_is_the_one_at_its_place(
    workers: &Vec<WorkerManifest>,
    arm: usize,
    worker: Result<&WorkerManifest, TurnError>,
)
    requires
        call_ensures(selected_worker, (workers, arm), worker),
    ensures
        arm < workers@.len() ==> worker is Ok && *worker->Ok_0 == workers@[arm as int],
        arm >= workers@.len() ==> worker is Err && worker->Err_0 == TurnError::InvalidArm,
{
}

/// A worker is found again at the first place with its id; one that the manifest lacks is absent.
pub proof fn law_worker_is_found_by_its_id(
    workers: &Vec<WorkerManifest>,
    worker: &WorkerManifest,
    arm: Result<usize, DispatchError>,
    i: int,
)
    requires
        call_ensures(worker_arm, (workers, worker), arm),
        0 <= i < workers@.len(),
    ensures
        arm matches Ok(at) ==> at < workers@.len() && workers@[at as int].id@ == worker.id@,
        workers@[i].id@ == worker.id@ ==> arm is Ok && arm->Ok_0 <= i,
        arm is Err ==> arm->Err_0 == DispatchError::WorkerAbsent,
{
}

/// The state takes a turn in exactly if the upstream answered with a status from 200 to 299.
pub proof fn law_only_success_is_taken_in(end: TurnEnd, committed: bool)
    requires
        call_ensures(commits_state, (end,), committed),
    ensures
        end is Unanswered ==> !committed,
        end matches TurnEnd::Answered { status } ==> (committed <==> status / 100 == 2),
{
}

/// Upstream goes what the body is, whose request it is, and the version that the client named, or
/// else 2023-06-01. Nothing else of the client's headers goes there.
pub proof fn law_upstream_is_told_of_body_sender_and_version(
    version: Option<&str>,
    headers: Vec<(String, String)>,
)
    requires
        call_ensures(upstream_headers, (version,), headers),
    ensures
        headers@.len() == 4,
        headers@[0].0@ == "content-type"@ && headers@[0].1@ == "application/json"@,
        headers@[1].0@ == "http-referer"@ && headers@[1].1@ == "https://rayline.ai"@,
        headers@[2].0@ == "x-title"@ && headers@[2].1@ == "Rayline"@,
        headers@[3].0@ == "anthropic-version"@,
        version matches Some(given) ==> headers@[3].1@ == given@,
        version is None ==> headers@[3].1@ == "2023-06-01"@,
{
    let views = header_views(headers@);
    assert(views.len() == headers@.len());
    assert(views[0] == (headers@[0].0@, headers@[0].1@));
    assert(views[1] == (headers@[1].0@, headers@[1].1@));
    assert(views[2] == (headers@[2].0@, headers@[2].1@));
    assert(views[3] == (headers@[3].0@, headers@[3].1@));
}

/// The metrics are told the request, the turn, the worker that was chosen and the model that was
/// asked for, where that is a text.
pub proof fn law_metrics_are_told_of_the_route(
    request: &Json,
    id: &str,
    turn_index: u64,
    worker: &WorkerManifest,
    update: RouteDecided,
    digits: String,
    model: Seq<char>,
)
    requires
        call_ensures(route_decided, (request, id, turn_index, worker), update),
        call_ensures(decimal_text, (turn_index,), digits),
        well_formed(request@),
    ensures
        update.request_id@ == id@,
        update.route_id is Some && update.route_id->Some_0@ == "c82-"@ + digits@,
        update.target@ == "remote"@,
        update.endpoint_id is Some && update.endpoint_id->Some_0@ == "openrouter"@,
        update.selected_model is Some && update.selected_model->Some_0@ == worker.id@,
        (update.requested_model is Some && update.requested_model->Some_0@ == model) <==> holds(
            request@,
            "model"@,
            Tree::Text(model),
        ),
        update.policy is Some && update.policy->Some_0@ == "c82"@,
        update.task_class is Some && update.task_class->Some_0@ == "c82"@,
        update.agent_id is None && update.agent_type is None,
{
    lemma_member_is_held(request@, "model"@, Tree::Text(model));
}

/// A start goes on exactly with the pinned artifact and a key that is not empty, and gives the key
/// back; the artifact is looked at first.
pub proof fn law_start_needs_pinned_artifact_and_key(
    artifact_commit: &str,
    pinned_commit: &str,
    key: Option<String>,
    checked: Result<String, StartupError>,
)
    requires
        call_ensures(check_startup, (artifact_commit, pinned_commit, key), checked),
    ensures
        checked is Ok <==> artifact_commit@ == pinned_commit@ && key is Some && key->Some_0@.len()
            > 0,
        checked is Ok ==> checked->Ok_0@ == key->Some_0@,
        artifact_commit@ != pinned_commit@ ==> checked->Err_0 == StartupError::ArtifactNotPinned,
        artifact_commit@ == pinned_commit@ && key is None ==> checked->Err_0
            == StartupError::KeyMissing,
        artifact_commit@ == pinned_commit@ && key is Some && checked is Err ==> checked->Err_0
            == StartupError::KeyEmpty,
{
}

/// An encoder that answers is ready, however long it took. One that does not is looked at again
/// every half second until five minutes have gone by, and then given up.
pub proof fn law_encoder_is_waited_for(healthy: bool, waited_ms: u64, next: Readiness)
    requires
        call_ensures(readiness, (healthy, waited_ms), next),
    ensures
        next is Ready <==> healthy,
        next is Wait <==> !healthy && waited_ms < 300_000,
        next is GiveUp <==> !healthy && waited_ms >= 300_000,
        next matches Readiness::Wait { poll_ms } ==> poll_ms == 500,
{
}

/// The processor is a fallback exactly if the choice of a device was left open.
pub proof fn law_fallback_is_unasked_for(device: &str, requested_device: &str, slow: bool)
    requires
        call_ensures(is_slow_fallback, (device, requested_device), slow),
    ensures
        slow <==> device@ == "cpu"@ && requested_device@ == "auto"@,
{
}

/// A request that is turned down says why.
pub proof fn law_refusal_says_why(error: &TurnError, text: String)
    requires
        call_ensures(TurnError::message, (error,), text),
    ensures
        error is MissingEpisode ==> text@ == "C82 requests require x-rayline-episode-id"@,
        error is MissingMessages ==> text@ == "C82 Anthropic request must contain messages"@,
        error is InvalidArm ==> text@ == "C82 selected invalid arm"@,
{
}

/// A request without turns says why.
pub proof fn law_missing_turns_say_why(error: &HistoryError, text: String)
    requires
        call_ensures(HistoryError::message, (error,), text),
    ensures
        text@ == "C82 Anthropic request must contain messages"@,
{
}

/// A request that cannot be sent says why.
pub proof fn law_undispatched_request_says_why(error: &DispatchError, text: String)
    requires
        call_ensures(DispatchError::message, (error,), text),
    ensures
        error is WorkerAbsent ==> text@ == "C82 worker is absent from manifest"@,
        error is BodyNotObject ==> text@ == "Anthropic request body must be an object"@,
        error is LimitsIncompatible ==> text@ == "C82 worker completion limits are incompatible"@,
{
}

/// A start that does not go on says why.
pub proof fn law_missed_start_says_why(error: &StartupError, text: String)
    requires
        call_ensures(StartupError::message, (error,), text),
    ensures
        error is ArtifactNotPinned ==> text@
            == "C82 artifact commit is not the Rayline-pinned immutable commit"@,
        error is KeyMissing ==> text@ == "C82 requires inherited OPENROUTER_API_KEY"@,
        error is KeyEmpty ==> text@ == "OPENROUTER_API_KEY cannot be empty for C82"@,
{
}

} // verus!
