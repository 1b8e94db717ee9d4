//! One turn of an episode: what is read from the request, whom it goes to, and whether it counts.

use vstd::prelude::*;
use vstd::string::StringExecFns;
use crate::dispatch::WorkerManifest;
use crate::history::{
    anthropic_messages_to_turns, message_turns, turn_views, HistoryError, HistoryTurn,
};
use crate::json::{member, text_member, Json, Tree};
use crate::retry::{
    is_run, law_attempts_are_bounded_and_recorded, AttemptOutcome, Dispatching, Made,
};
use crate::startup::text_view;
use crate::text::{decimal, decimal_text, trim, trimmed};

verus! {

/// Why a request is turned down.
#[derive(Debug, PartialEq)]
pub enum TurnError {
    /// The request names no episode.
    MissingEpisode,
    /// The request has no array of messages.
    MissingMessages,
    /// The router chose a worker that there is not.
    InvalidArm,
}

impl TurnError {
    /// The error in words.
    pub open spec fn words(self) -> Seq<char> {
        match self {
            TurnError::MissingEpisode => "C82 requests require x-rayline-episode-id"@,
            TurnError::MissingMessages => "C82 Anthropic request must contain messages"@,
            TurnError::InvalidArm => "C82 selected invalid arm"@,
        }
    }

    /// The error in words.
    pub fn message(&self) -> (text: String)
        ensures
            text@ == self.words(),
    {
        match self {
            TurnError::MissingEpisode => "C82 requests require x-rayline-episode-id".to_owned(),
            TurnError::MissingMessages => "C82 Anthropic request must contain messages".to_owned(),
            TurnError::InvalidArm => "C82 selected invalid arm".to_owned(),
        }
    }
}

/// A request that a turn can be made of.
pub struct OpenTurn {
    pub episode_id: String,
    pub turns: Vec<HistoryTurn>,
}

/// The episode that a header names; white space around it does not count.
pub open spec fn named_episode(header: Option<Seq<char>>) -> Option<Seq<char>> {
    match header {
        Some(text) => if trimmed(text).len() > 0 {
            Some(trimmed(text))
        } else {
            None
        },
        None => None,
    }
}

/// The text of a string slice that may be absent.
pub open spec fn slice_view(text: Option<&str>) -> Option<Seq<char>> {
    match text {
        Some(held) => Some(held@),
        None => None,
    }
}

/// Takes in a request: it must name an episode and hold messages, in that order.
pub fn open_turn(episode_header: Option<&str>, request: &Json) -> (opened: Result<
    OpenTurn,
    TurnError,
>)
    ensures
        match named_episode(slice_view(episode_header)) {
            None => opened == Err::<OpenTurn, TurnError>(TurnError::MissingEpisode),
            Some(episode) => match member(request@, "messages"@) {
                Some(Tree::Array(messages)) => opened is Ok && opened->Ok_0.episode_id@ == episode
                    && turn_views(opened->Ok_0.turns@) == message_turns(messages),
                _ => opened == Err::<OpenTurn, TurnError>(TurnError::MissingMessages),
            },
        },
{
    let episode_id = match episode_header {
        Some(text) => trim(text),
        None => String::new(),
    };
    if episode_id.as_str().is_empty() {
        return Err(TurnError::MissingEpisode);
    }
    match anthropic_messages_to_turns(request) {
        Ok(turns) => Ok(OpenTurn { episode_id, turns }),
        Err(HistoryError::MissingMessages) => Err(TurnError::MissingMessages),
    }
}

/// The id of a request: the client's, or the fresh one.
pub fn request_id(header: Option<&str>, fresh: String) -> (id: String)
    ensures
        id@ == match header {
            Some(given) => given@,
            None => fresh@,
        },
{
    match header {
        Some(given) => given.to_owned(),
        None => fresh,
    }
}

/// The worker that the router chose.
pub fn selected_worker(workers: &Vec<WorkerManifest>, arm: usize) -> (worker: Result<
    &WorkerManifest,
    TurnError,
>)
    ensures
        match worker {
            Ok(chosen) => arm < workers@.len() && *chosen == workers@[arm as int],
            Err(error) => arm >= workers@.len() && error == TurnError::InvalidArm,
        },
{
    if arm < workers.len() {
        Ok(&workers[arm])
    } else {
        Err(TurnError::InvalidArm)
    }
}

/// How the request of a turn ended upstream.
#[derive(Debug, Clone, Copy, PartialEq)]
pub enum TurnEnd {
    /// The upstream answered with this status.
    Answered { status: u16 },
    /// No answer came.
    Unanswered,
}

/// The turn counts: the upstream answered with success.
pub open spec fn counts(end: TurnEnd) -> bool {
    end matches TurnEnd::Answered { status } && 200 <= status < 300
}

/// Whether the episode's state takes the turn in. An answer without success, or no answer, leaves
/// the state as it was before the turn.
pub fn commits_state(end: TurnEnd) -> (committed: bool)
    ensures
        committed == counts(end),
{
    match end {
        TurnEnd::Answered { status } => 200 <= status && status < 300,
        TurnEnd::Unanswered => false,
    }
}

/// How a request ends whose last attempt went like this.
pub open spec fn end_of(outcome: AttemptOutcome) -> TurnEnd {
    match outcome {
        AttemptOutcome::Response { status } => TurnEnd::Answered { status },
        AttemptOutcome::Transport { .. } => TurnEnd::Unanswered,
    }
}

/// A turn counts once at most: no attempt that is followed by another would have made it count.
pub proof fn law_turn_counts_at_most_once(states: Seq<Dispatching>, made: Seq<Made>)
    requires
        is_run(states, made),
    ensures
        forall|i: int| 0 <= i < made.len() ==> !counts(end_of((#[trigger] made[i]).outcome)),
{
    law_attempts_are_bounded_and_recorded(states, made);
}

/// The headers that go upstream beside the key. The client's beta headers do not: every worker is
/// reached through an endpoint that would refuse them.
pub open spec fn upstream_header_list(version: Option<Seq<char>>) -> Seq<(Seq<char>, Seq<char>)> {
    seq![
        ("content-type"@, "application/json"@),
        ("http-referer"@, "https://rayline.ai"@),
        ("x-title"@, "Rayline"@),
        (
            "anthropic-version"@,
            match version {
                Some(given) => given,
                None => "2023-06-01"@,
            },
        ),
    ]
}

/// The texts of named values.
pub open spec fn header_views(headers: Seq<(String, String)>) -> Seq<(Seq<char>, Seq<char>)> {
    headers.map_values(|header: (String, String)| (header.0@, header.1@))
}

/// The headers that go upstream beside the key.
pub fn upstream_headers(inbound_version: Option<&str>) -> (headers: Vec<(String, String)>)
    ensures
        header_views(headers@) == upstream_header_list(slice_view(inbound_version)),
{
    let version = match inbound_version {
        Some(given) => given,
        None => "2023-06-01",
    };
    let mut headers: Vec<(String, String)> = Vec::new();
    headers.push(("content-type".to_owned(), "application/json".to_owned()));
    headers.push(("http-referer".to_owned(), "https://rayline.ai".to_owned()));
    headers.push(("x-title".to_owned(), "Rayline".to_owned()));
    headers.push(("anthropic-version".to_owned(), version.to_owned()));
    assert(header_views(headers@) =~= upstream_header_list(slice_view(inbound_version)));
    headers
}

/// What the metrics are told of a routed request.
#[derive(Debug, PartialEq)]
pub struct RouteDecided {
    pub request_id: String,
    pub route_id: Option<String>,
    pub target: String,
    pub endpoint_id: Option<String>,
    pub selected_model: Option<String>,
    pub requested_model: Option<String>,
    pub policy: Option<String>,
    pub task_class: Option<String>,
    pub agent_id: Option<String>,
    pub agent_type: Option<String>,
}

/// What the metrics are told of a routed request. No agent is named.
pub fn route_decided(request: &Json, request_id: &str, turn_index: u64, worker: &WorkerManifest) -> (
    update: RouteDecided)
    ensures
        update.request_id@ == request_id@,
        text_view(update.route_id) == Some("c82-"@ + decimal(turn_index as nat)),
        update.target@ == "remote"@,
        text_view(update.endpoint_id) == Some("openrouter"@),
        text_view(update.selected_model) == Some(worker.id@),
        text_view(update.requested_model) == text_member(request@, "model"@),
        text_view(update.policy) == Some("c82"@),
        text_view(update.task_class) == Some("c82"@),
        update.agent_id is None,
        update.agent_type is None,
{
    let mut route_id = "c82-".to_owned();
    route_id.append(decimal_text(turn_index).as_str());
    let requested_model = match request.get_text("model") {
        Some(model) => Some(model.clone()),
        None => None,
    };
    RouteDecided {
        request_id: request_id.to_owned(),
        route_id: Some(route_id),
        target: "remote".to_owned(),
        endpoint_id: Some("openrouter".to_owned()),
        selected_model: Some(worker.id.clone()),
        requested_model,
        policy: Some("c82".to_owned()),
        task_class: Some("c82".to_owned()),
        agent_id: None,
        agent_type: None,
    }
}

} // verus!
