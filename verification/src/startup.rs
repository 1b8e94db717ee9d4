//! What has to hold before requests are taken.

use vstd::prelude::*;
use crate::text::same_text;

verus! {

/// How long the encoder may take to become ready, in milliseconds.
pub const READY_TIMEOUT_MS: u64 = 300_000;

/// How long to wait between two looks at the encoder, in milliseconds.
pub const READY_POLL_MS: u64 = 500;

/// Why no requests are taken.
#[derive(Debug, PartialEq)]
pub enum StartupError {
    /// The artifact is not the pinned one.
    ArtifactNotPinned,
    /// There is no key for the upstream.
    KeyMissing,
    /// The key for the upstream is empty.
    KeyEmpty,
}

impl StartupError {
    /// The error in words.
    pub open spec fn words(self) -> Seq<char> {
        match self {
            StartupError::ArtifactNotPinned =>
                "C82 artifact commit is not the Rayline-pinned immutable commit"@,
            StartupError::KeyMissing => "C82 requires inherited OPENROUTER_API_KEY"@,
            StartupError::KeyEmpty => "OPENROUTER_API_KEY cannot be empty for C82"@,
        }
    }

    /// The error in words.
    pub fn message(&self) -> (text: String)
        ensures
            text@ == self.words(),
    {
        match self {
            StartupError::ArtifactNotPinned =>
                "C82 artifact commit is not the Rayline-pinned immutable commit".to_owned(),
            StartupError::KeyMissing => "C82 requires inherited OPENROUTER_API_KEY".to_owned(),
            StartupError::KeyEmpty => "OPENROUTER_API_KEY cannot be empty for C82".to_owned(),
        }
    }
}

/// What stands in the way of a start: the artifact is looked at first, then the key.
pub open spec fn startup_obstacle(
    artifact_commit: Seq<char>,
    pinned_commit: Seq<char>,
    key: Option<Seq<char>>,
) -> Option<StartupError> {
    if artifact_commit != pinned_commit {
        Some(StartupError::ArtifactNotPinned)
    } else {
        match key {
            None => Some(StartupError::KeyMissing),
            Some(text) => if text.len() == 0 {
                Some(StartupError::KeyEmpty)
            } else {
                None
            },
        }
    }
}

/// Lets a start go on with the pinned artifact and a key, and gives the key back.
pub fn check_startup(artifact_commit: &str, pinned_commit: &str, key: Option<String>) -> (checked:
    Result<String, StartupError>)
    ensures
        match (checked, startup_obstacle(artifact_commit@, pinned_commit@, text_view(key))) {
            (Ok(held), None) => key == Some(held),
            (Err(error), Some(obstacle)) => error == obstacle,
            _ => false,
        },
{
    if !same_text(artifact_commit, pinned_commit) {
        return Err(StartupError::ArtifactNotPinned);
    }
    match key {
        None => Err(StartupError::KeyMissing),
        Some(text) => if text.as_str().is_empty() {
            Err(StartupError::KeyEmpty)
        } else {
            Ok(text)
        },
    }
}

/// The text of a string that may be absent.
pub open spec fn text_view(text: Option<String>) -> Option<Seq<char>> {
    match text {
        Some(held) => Some(held@),
        None => None,
    }
}

/// What to do about the encoder.
#[derive(Debug, Clone, Copy, PartialEq, Eq, Structural)]
pub enum Readiness {
    /// It is ready.
    Ready,
    /// Look again after so many milliseconds.
    Wait { poll_ms: u64 },
    /// It took too long.
    GiveUp,
}

/// Decides after a look at the encoder. One that answers is ready even past the deadline.
pub fn readiness(healthy: bool, waited_ms: u64) -> (next: Readiness)
    ensures
        next == if healthy {
            Readiness::Ready
        } else if waited_ms < READY_TIMEOUT_MS {
            Readiness::Wait { poll_ms: READY_POLL_MS }
        } else {
            Readiness::GiveUp
        },
{
    if healthy {
        Readiness::Ready
    } else if waited_ms < READY_TIMEOUT_MS {
        Readiness::Wait { poll_ms: READY_POLL_MS }
    } else {
        Readiness::GiveUp
    }
}

/// Whether the encoder runs on the processor because nothing better was found.
pub fn is_slow_fallback(device: &str, requested_device: &str) -> (slow: bool)
    ensures
        slow == (device@ == "cpu"@ && requested_device@ == "auto"@),
{
    same_text(device, "cpu") && same_text(requested_device, "auto")
}

} // verus!
