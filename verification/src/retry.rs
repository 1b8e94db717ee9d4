//! Sending a request until an attempt settles it, with a record of every attempt.

use vstd::prelude::*;
use vstd::string::StringExecFns;
use crate::json::{integer, trees, with_member, Json, JsonObject, Tree};
use crate::text::{decimal, decimal_text};

verus! {

/// What is known of a transport error.
#[derive(Debug, Clone, Copy, PartialEq)]
pub struct TransportFlags {
    pub timeout: bool,
    pub connect: bool,
    pub request: bool,
    pub body: bool,
}

/// The class of a transport error: the first that holds of it, in this order.
pub open spec fn error_class(flags: TransportFlags) -> Seq<char> {
    if flags.timeout {
        "timeout"@
    } else if flags.connect {
        "connect"@
    } else if flags.request {
        "request"@
    } else if flags.body {
        "body"@
    } else {
        "transport"@
    }
}

/// The class of a transport error.
pub fn transport_error_class(flags: TransportFlags) -> (class: &'static str)
    ensures
        class@ == error_class(flags),
{
    if flags.timeout {
        "timeout"
    } else if flags.connect {
        "connect"
    } else if flags.request {
        "request"
    } else if flags.body {
        "body"
    } else {
        "transport"
    }
}

/// How an attempt went.
#[derive(Debug, Clone, Copy, PartialEq)]
pub enum AttemptOutcome {
    /// The upstream answered with this status.
    Response { status: u16 },
    /// No answer came.
    Transport { flags: TransportFlags },
}

/// Another attempt may go better: the upstream was busy or failed, or no answer came.
pub open spec fn worth_retrying(outcome: AttemptOutcome) -> bool {
    match outcome {
        AttemptOutcome::Response { status } => status == 429 || 500 <= status < 600,
        AttemptOutcome::Transport { .. } => true,
    }
}

/// The record of an attempt.
pub open spec fn attempt_record(
    attempt: int,
    outcome: AttemptOutcome,
    latency_ms: int,
    retry_delay_ms: int,
) -> Tree {
    let numbered = with_member(Seq::empty(), "attempt"@, integer(attempt));
    let told = match outcome {
        AttemptOutcome::Response { status } => {
            let answered = with_member(numbered, "status"@, integer(status as int));
            with_member(answered, "transport_error"@, Tree::Bool(false))
        },
        AttemptOutcome::Transport { flags } => {
            let silent = with_member(numbered, "status"@, Tree::Null);
            let failed = with_member(silent, "transport_error"@, Tree::Bool(true));
            with_member(failed, "error_class"@, Tree::Text(error_class(flags)))
        },
    };
    let timed = with_member(told, "latency_ms"@, integer(latency_ms));
    Tree::Object(with_member(timed, "retry_delay_ms"@, integer(retry_delay_ms)))
}

/// Makes the record of an attempt.
fn record_attempt(
    attempt: u64,
    outcome: AttemptOutcome,
    latency_ms: u64,
    retry_delay_ms: u64,
) -> (record: Json)
    ensures
        record@ == attempt_record(
            attempt as int,
            outcome,
            latency_ms as int,
            retry_delay_ms as int,
        ),
{
    let mut record = JsonObject::new();
    record.insert("attempt".to_owned(), Json::unsigned(attempt));
    match outcome {
        AttemptOutcome::Response { status } => {
            record.insert("status".to_owned(), Json::unsigned(status as u64));
            record.insert("transport_error".to_owned(), Json::Bool(false));
        },
        AttemptOutcome::Transport { flags } => {
            record.insert("status".to_owned(), Json::Null);
            record.insert("transport_error".to_owned(), Json::Bool(true));
            record.insert("error_class".to_owned(), Json::text(transport_error_class(flags)));
        },
    }
    record.insert("latency_ms".to_owned(), Json::unsigned(latency_ms));
    record.insert("retry_delay_ms".to_owned(), Json::unsigned(retry_delay_ms));
    Json::Object(record)
}

/// The attempts that a number of retries allows.
pub open spec fn allowed_attempts(max_retries: u64) -> int {
    if max_retries == u64::MAX {
        u64::MAX as int
    } else {
        max_retries + 1
    }
}

/// A request under way: which attempt is due, and the records of those made.
pub struct Dispatching {
    attempt: u64,
    total: u64,
    attempts: Vec<Json>,
}

/// What an attempt leads to.
pub enum Settled {
    /// Another attempt is due.
    Again(Dispatching),
    /// The upstream's answer stands. Holds the records of all attempts.
    Responded(Vec<Json>),
    /// No answer came and no attempt is left. Holds the records of all attempts.
    Failed(Vec<Json>),
}

impl Dispatching {
    #[verifier::type_invariant]
    spec fn counted(self) -> bool {
        &&& 1 <= self.attempt <= self.total
        &&& self.attempts@.len() == self.attempt - 1
    }

    /// The attempt that is due, counted from 1.
    pub closed spec fn due(self) -> int {
        self.attempt as int
    }

    /// The attempts that are allowed.
    pub closed spec fn allowed(self) -> int {
        self.total as int
    }

    /// The records of the attempts made.
    pub closed spec fn records(self) -> Seq<Tree> {
        trees(self.attempts@)
    }

    /// Another attempt follows one that goes like this.
    pub open spec fn goes_on(self, outcome: AttemptOutcome) -> bool {
        worth_retrying(outcome) && self.due() < self.allowed()
    }

    /// The next attempt is due, and this one is recorded as told.
    pub open spec fn goes_to(
        self,
        outcome: AttemptOutcome,
        latency_ms: u64,
        retry_delay_ms: u64,
        next: Dispatching,
    ) -> bool {
        &&& next.due() == self.due() + 1
        &&& next.allowed() == self.allowed()
        &&& next.records() == self.records().push(
            attempt_record(self.due(), outcome, latency_ms as int, retry_delay_ms as int),
        )
    }

    /// A request of which no attempt was made. The first attempt is always allowed.
    pub fn new(max_retries: u64) -> (dispatching: Dispatching)
        ensures
            dispatching.due() == 1,
            dispatching.allowed() == allowed_attempts(max_retries),
            dispatching.records() == Seq::<Tree>::empty(),
    {
        let total = if max_retries == u64::MAX {
            u64::MAX
        } else {
            max_retries + 1
        };
        let attempts: Vec<Json> = Vec::new();
        assert(trees(attempts@) =~= Seq::<Tree>::empty());
        Dispatching { attempt: 1, total, attempts }
    }

    /// The attempt that is due, counted from 1.
    pub fn attempt(&self) -> (attempt: u64)
        ensures
            attempt == self.due(),
            1 <= self.due() <= self.allowed(),
            self.records().len() == self.due() - 1,
    {
        proof {
            use_type_invariant(self);
        }
        self.attempt
    }

    /// The attempts that are allowed.
    pub fn total(&self) -> (total: u64)
        ensures
            total == self.allowed(),
    {
        self.total
    }

    /// Whether another attempt follows one that goes like this.
    pub fn will_retry(&self, outcome: AttemptOutcome) -> (retry: bool)
        ensures
            retry == self.goes_on(outcome),
    {
        let worth = match outcome {
            AttemptOutcome::Response { status } => status == 429 || (500 <= status && status < 600),
            AttemptOutcome::Transport { .. } => true,
        };
        worth && self.attempt < self.total
    }

    /// Records the attempt that was due and decides what follows. The delay counts only if
    /// another attempt follows.
    pub fn settle(self, outcome: AttemptOutcome, latency_ms: u64, retry_delay_ms: u64) -> (settled:
        Settled)
        ensures
            match settled {
                Settled::Again(next) => self.goes_on(outcome) && self.goes_to(
                    outcome,
                    latency_ms,
                    retry_delay_ms,
                    next,
                ),
                Settled::Responded(attempts) => !self.goes_on(outcome) && outcome is Response
                    && trees(attempts@) == self.records().push(
                    attempt_record(self.due(), outcome, latency_ms as int, 0),
                ),
                Settled::Failed(attempts) => !self.goes_on(outcome) && outcome is Transport
                    && trees(attempts@) == self.records().push(
                    attempt_record(self.due(), outcome, latency_ms as int, 0),
                ),
            },
    {
        proof {
            use_type_invariant(&self);
        }
        let retry = self.will_retry(outcome);
        let delay = if retry {
            retry_delay_ms
        } else {
            0
        };
        let ghost before = self.attempts@;
        let ghost record = attempt_record(self.due(), outcome, latency_ms as int, delay as int);
        let attempt = self.attempt;
        let total = self.total;
        let mut attempts = self.attempts;
        attempts.push(record_attempt(attempt, outcome, latency_ms, delay));
        assert(trees(attempts@) =~= trees(before).push(record));
        if retry {
            return Settled::Again(Dispatching { attempt: attempt + 1, total, attempts });
        }
        match outcome {
            AttemptOutcome::Response { .. } => Settled::Responded(attempts),
            AttemptOutcome::Transport { .. } => Settled::Failed(attempts),
        }
    }
}

/// Why no answer was had, in words.
pub fn transport_failure_message(total_attempts: u64) -> (text: String)
    ensures
        text@ == "C82 OpenRouter transport failed after "@ + decimal(total_attempts as nat)
            + " attempts"@,
{
    let mut text = "C82 OpenRouter transport failed after ".to_owned();
    text.append(decimal_text(total_attempts).as_str());
    text.append(" attempts");
    text
}

/// How often the base delay is doubled after a failed attempt: once more after each, thirty
/// times at most.
pub fn retry_exponent(failed_attempt: u64) -> (exponent: u32)
    ensures
        exponent == if failed_attempt == 0 {
            0
        } else if failed_attempt - 1 < 30 {
            failed_attempt - 1
        } else {
            30
        },
{
    if failed_attempt == 0 {
        0
    } else if failed_attempt - 1 < 30 {
        (failed_attempt - 1) as u32
    } else {
        30
    }
}

/// An attempt that was made: how it went, how long it took, and the delay behind it.
pub struct Made {
    pub outcome: AttemptOutcome,
    pub latency_ms: u64,
    pub retry_delay_ms: u64,
}

/// A request from its start on: each attempt that was made led to the next state.
pub open spec fn is_run(states: Seq<Dispatching>, made: Seq<Made>) -> bool {
    &&& states.len() == made.len() + 1
    &&& states[0].due() == 1
    &&& states[0].allowed() >= 1
    &&& states[0].records() == Seq::<Tree>::empty()
    &&& forall|i: int|
        0 <= i < made.len() ==> states[i].goes_on((#[trigger] made[i]).outcome)
            && states[i].goes_to(
            made[i].outcome,
            made[i].latency_ms,
            made[i].retry_delay_ms,
            states[i + 1],
        )
}

/// The records of attempts, numbered from 1.
pub open spec fn numbered_records(made: Seq<Made>) -> Seq<Tree> {
    Seq::new(
        made.len(),
        |i: int|
            attempt_record(
                i + 1,
                made[i].outcome,
                made[i].latency_ms as int,
                made[i].retry_delay_ms as int,
            ),
    )
}

/// However the attempts go, one more is due only while fewer were made than are allowed, and only
/// if each of them was worth another. Every attempt is on record, in order, numbered from 1.
pub proof fn law_attempts_are_bounded_and_recorded(states: Seq<Dispatching>, made: Seq<Made>)
    requires
        is_run(states, made),
    ensures
        states.last().due() == made.len() + 1,
        made.len() < states[0].allowed(),
        states.last().allowed() == states[0].allowed(),
        states.last().records() == numbered_records(made),
        forall|i: int| 0 <= i < made.len() ==> worth_retrying((#[trigger] made[i]).outcome),
    decreases made.len(),
{
    if made.len() > 0 {
        let earlier = made.drop_last();
        let before = states.drop_last();
        assert forall|i: int| 0 <= i < earlier.len() implies before[i].goes_on(
            (#[trigger] earlier[i]).outcome,
        ) && before[i].goes_to(
            earlier[i].outcome,
            earlier[i].latency_ms,
            earlier[i].retry_delay_ms,
            before[i + 1],
        ) by {
            assert(earlier[i] == made[i]);
        }
        law_attempts_are_bounded_and_recorded(before, earlier);
        let last = made[made.len() - 1];
        assert(states[made.len() - 1].goes_on(last.outcome));
        assert(numbered_records(made) =~= numbered_records(earlier).push(
            attempt_record(
                made.len() as int,
                last.outcome,
                last.latency_ms as int,
                last.retry_delay_ms as int,
            ),
        ));
        assert forall|i: int| 0 <= i < made.len() implies worth_retrying(
            (#[trigger] made[i]).outcome,
        ) by {
            if i < earlier.len() {
                assert(earlier[i] == made[i]);
            }
        }
    } else {
        assert(numbered_records(made) =~= Seq::<Tree>::empty());
    }
}

} // verus!
