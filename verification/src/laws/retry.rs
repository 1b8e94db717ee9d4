//! Attempts: which are repeated, and what is on record of them.

use vstd::prelude::*;
use crate::json::{
    integer, keys_ascend, law_read_after_insert, lemma_lookup_is_some, lookup, trees, with_member,
    Tree,
};
use crate::laws::{holds, lemma_found_is_held};
use crate::text::decimal_text;
use crate::retry::{
    attempt_record, error_class, retry_exponent, transport_error_class, transport_failure_message,
    AttemptOutcome, Dispatching, Settled, TransportFlags,
};

verus! {

/// An attempt that got no answer is followed by another as long as one is allowed, whatever went
/// wrong; the last one that is allowed is a failure.
pub proof fn law_silence_is_retried_while_allowed(
    due: Dispatching,
    flags: TransportFlags,
    latency_ms: u64,
    retry_delay_ms: u64,
    settled: Settled,
)
    requires
        call_ensures(
            Dispatching::settle,
            (due, AttemptOutcome::Transport { flags }, latency_ms, retry_delay_ms),
            settled,
        ),
    ensures
        settled is Again <==> due.due() < due.allowed(),
        settled is Failed <==> due.due() >= due.allowed(),
{
}

/// An answer that says that the upstream is busy (429) or failing (500 to 599) is followed by
/// another attempt as long as one is allowed; any other answer stands, and so does the last.
pub proof fn law_answer_stands_unless_busy_or_failing(
    due: Dispatching,
    status: u16,
    latency_ms: u64,
    retry_delay_ms: u64,
    settled: Settled,
)
    requires
        call_ensures(
            Dispatching::settle,
            (due, AttemptOutcome::Response { status }, latency_ms, retry_delay_ms),
            settled,
        ),
    ensures
        settled is Again <==> (status == 429 || status / 100 == 5) && due.due() < due.allowed(),
        settled is Responded <==> settled !is Again,
{
}

/// Asking whether another attempt follows tells what settling the attempt will say.
pub proof fn law_retry_is_foretold(
    due: Dispatching,
    outcome: AttemptOutcome,
    retry: bool,
    latency_ms: u64,
    retry_delay_ms: u64,
    settled: Settled,
)
    requires
        call_ensures(Dispatching::will_retry, (&due, outcome), retry),
        call_ensures(Dispatching::settle, (due, outcome, latency_ms, retry_delay_ms), settled),
    ensures
        retry <==> settled is Again,
{
}

/// The records that a settled attempt leaves.
pub open spec fn records_after(settled: Settled) -> Seq<Tree> {
    match settled {
        Settled::Again(next) => next.records(),
        Settled::Responded(attempts) => trees(attempts@),
        Settled::Failed(attempts) => trees(attempts@),
    }
}

/// A request from its start on: the states that it went through, each attempt leading from one to
/// the next.
pub open spec fn went_on(
    max_retries: u64,
    states: Seq<Dispatching>,
    outcomes: Seq<AttemptOutcome>,
    latencies: Seq<u64>,
    delays: Seq<u64>,
) -> bool {
    &&& states.len() == outcomes.len() + 1
    &&& latencies.len() == outcomes.len()
    &&& delays.len() == outcomes.len()
    &&& call_ensures(Dispatching::new, (max_retries,), states[0])
    &&& forall|i: int|
        0 <= i < outcomes.len() ==> call_ensures(
            Dispatching::settle,
            (states[i], #[trigger] outcomes[i], latencies[i], delays[i]),
            Settled::Again(states[i + 1]),
        )
}

/// One attempt is allowed beside the retries. Behind each that was not the last, the next is due;
/// as many are on record as were made.
pub proof fn law_attempts_are_counted(
    max_retries: u64,
    states: Seq<Dispatching>,
    outcomes: Seq<AttemptOutcome>,
    latencies: Seq<u64>,
    delays: Seq<u64>,
)
    requires
        went_on(max_retries, states, outcomes, latencies, delays),
    ensures
        states.last().allowed() == if max_retries == u64::MAX {
            u64::MAX as int
        } else {
            max_retries + 1
        },
        states.last().due() == outcomes.len() + 1,
        states.last().records().len() == outcomes.len(),
        outcomes.len() < states.last().allowed(),
    decreases outcomes.len(),
{
    if outcomes.len() > 0 {
        let front = outcomes.drop_last();
        let n = outcomes.len() - 1;
        assert forall|i: int| 0 <= i < front.len() implies call_ensures(
            Dispatching::settle,
            (
                states.drop_last()[i],
                #[trigger] front[i],
                latencies.drop_last()[i],
                delays.drop_last()[i],
            ),
            Settled::Again(states.drop_last()[i + 1]),
        ) by {
            assert(front[i] == outcomes[i]);
        }
        law_attempts_are_counted(
            max_retries,
            states.drop_last(),
            front,
            latencies.drop_last(),
            delays.drop_last(),
        );
        assert(outcomes[n] == outcomes.last());
        assert(states.drop_last().last() == states[n]);
    }
}

/// A request fails only once every attempt that is allowed was made and is on record.
pub proof fn law_request_fails_only_when_exhausted(
    max_retries: u64,
    states: Seq<Dispatching>,
    outcomes: Seq<AttemptOutcome>,
    latencies: Seq<u64>,
    delays: Seq<u64>,
    last: AttemptOutcome,
    latency_ms: u64,
    retry_delay_ms: u64,
    settled: Settled,
)
    requires
        went_on(max_retries, states, outcomes, latencies, delays),
        call_ensures(
            Dispatching::settle,
            (states.last(), last, latency_ms, retry_delay_ms),
            settled,
        ),
        settled is Failed,
    ensures
        last is Transport,
        outcomes.len() + 1 == states.last().allowed(),
        records_after(settled).len() == states.last().allowed(),
        max_retries < u64::MAX ==> records_after(settled).len() == max_retries + 1,
{
    law_attempts_are_counted(max_retries, states, outcomes, latencies, delays);
}

/// What a record of an attempt holds under a key.
proof fn lemma_attempt_record(
    attempt: int,
    outcome: AttemptOutcome,
    latency_ms: int,
    retry_delay_ms: int,
    key: Seq<char>,
)
    ensures
        attempt_record(attempt, outcome, latency_ms, retry_delay_ms) is Object,
        ({
            let members = attempt_record(attempt, outcome, latency_ms, retry_delay_ms)->Object_0;
            &&& keys_ascend(members)
            &&& lookup(members, key) == if key == "retry_delay_ms"@ {
                Some(integer(retry_delay_ms))
            } else if key == "latency_ms"@ {
                Some(integer(latency_ms))
            } else if key == "error_class"@ && outcome is Transport {
                Some(Tree::Text(error_class(outcome->flags)))
            } else if key == "transport_error"@ {
                Some(Tree::Bool(outcome is Transport))
            } else if key == "status"@ {
                Some(
                    match outcome {
                        AttemptOutcome::Response { status } => integer(status as int),
                        AttemptOutcome::Transport { .. } => Tree::Null,
                    },
                )
            } else if key == "attempt"@ {
                Some(integer(attempt))
            } else {
                None
            }
        }),
{
    let empty = Seq::<(Seq<char>, Tree)>::empty();
    lemma_lookup_is_some(empty, key);
    law_read_after_insert(empty, "attempt"@, integer(attempt), key);
    let numbered = with_member(empty, "attempt"@, integer(attempt));
    let told = match outcome {
        AttemptOutcome::Response { status } => {
            law_read_after_insert(numbered, "status"@, integer(status as int), key);
            let answered = with_member(numbered, "status"@, integer(status as int));
            law_read_after_insert(answered, "transport_error"@, Tree::Bool(false), key);
            with_member(answered, "transport_error"@, Tree::Bool(false))
        },
        AttemptOutcome::Transport { flags } => {
            let class = Tree::Text(error_class(flags));
            law_read_after_insert(numbered, "status"@, Tree::Null, key);
            let silent = with_member(numbered, "status"@, Tree::Null);
            law_read_after_insert(silent, "transport_error"@, Tree::Bool(true), key);
            let failed = with_member(silent, "transport_error"@, Tree::Bool(true));
            law_read_after_insert(failed, "error_class"@, class, key);
            with_member(failed, "error_class"@, class)
        },
    };
    law_read_after_insert(told, "latency_ms"@, integer(latency_ms), key);
    let timed = with_member(told, "latency_ms"@, integer(latency_ms));
    law_read_after_insert(timed, "retry_delay_ms"@, integer(retry_delay_ms), key);
}

/// The names in a record of an attempt are told apart by their lengths.
proof fn lemma_record_names_differ()
    ensures
        "attempt"@.len() == 7,
        "status"@.len() == 6,
        "transport_error"@.len() == 15,
        "error_class"@.len() == 11,
        "latency_ms"@.len() == 10,
        "retry_delay_ms"@.len() == 14,
{
    reveal_strlit("attempt");
    reveal_strlit("status");
    reveal_strlit("transport_error");
    reveal_strlit("error_class");
    reveal_strlit("latency_ms");
    reveal_strlit("retry_delay_ms");
}

/// Each attempt leaves one record behind those before it. The record tells the attempt's number,
/// the status or its absence, whether and how the transport failed, how long the attempt took,
/// and the delay behind it, which is zero where nothing follows. It tells nothing else.
pub proof fn law_attempt_is_on_record(
    due: Dispatching,
    outcome: AttemptOutcome,
    latency_ms: u64,
    retry_delay_ms: u64,
    settled: Settled,
    class: &'static str,
    key: Seq<char>,
    held: Tree,
)
    requires
        call_ensures(Dispatching::settle, (due, outcome, latency_ms, retry_delay_ms), settled),
        outcome matches AttemptOutcome::Transport { flags } ==> call_ensures(
            transport_error_class,
            (flags,),
            class,
        ),
    ensures
        records_after(settled).len() == due.records().len() + 1,
        records_after(settled).drop_last() == due.records(),
        holds(records_after(settled).last(), key, held) <==> {
            ||| key == "attempt"@ && held == integer(due.due())
            ||| key == "status"@ && outcome is Response && held == integer(outcome->status as int)
            ||| key == "status"@ && outcome is Transport && held == Tree::Null
            ||| key == "transport_error"@ && held == Tree::Bool(outcome is Transport)
            ||| key == "error_class"@ && outcome is Transport && held == Tree::Text(class@)
            ||| key == "latency_ms"@ && held == integer(latency_ms as int)
            ||| key == "retry_delay_ms"@ && held == integer(
                if settled is Again {
                    retry_delay_ms as int
                } else {
                    0
                },
            )
        },
{
    lemma_record_names_differ();
    let delay = if settled is Again {
        retry_delay_ms as int
    } else {
        0
    };
    let record = attempt_record(due.due(), outcome, latency_ms as int, delay);
    assert(records_after(settled) == due.records().push(record));
    assert(records_after(settled).drop_last() =~= due.records());
    lemma_attempt_record(due.due(), outcome, latency_ms as int, delay, key);
    lemma_found_is_held(record->Object_0, key, held);
}

/// A transport error has the first class that holds of it: timeout, connect, request, body, and
/// transport where none of these does.
pub proof fn law_error_class_is_the_first_that_holds(flags: TransportFlags, class: &'static str)
    requires
        call_ensures(transport_error_class, (flags,), class),
    ensures
        class@ == "timeout"@ <==> flags.timeout,
        class@ == "connect"@ <==> flags.connect && !flags.timeout,
        class@ == "request"@ <==> flags.request && !flags.timeout && !flags.connect,
        class@ == "body"@ <==> flags.body && !flags.timeout && !flags.connect && !flags.request,
        class@ == "transport"@ <==> !flags.timeout && !flags.connect && !flags.request
            && !flags.body,
{
    reveal_strlit("timeout");
    reveal_strlit("connect");
    reveal_strlit("request");
    reveal_strlit("body");
    reveal_strlit("transport");
    assert("timeout"@[0] == 't' && "connect"@[0] == 'c' && "request"@[0] == 'r');
    assert("timeout"@.len() == 7 && "connect"@.len() == 7 && "request"@.len() == 7);
    assert("body"@.len() == 4 && "transport"@.len() == 9);
}

/// The delay is doubled once more after each failed attempt than after the one before, until it
/// was doubled thirty times; after the first it is not doubled.
pub proof fn law_delay_doubles_up_to_thirty_times(attempt: u64, exponent: u32, next: u32)
    requires
        attempt < u64::MAX,
        call_ensures(retry_exponent, (attempt,), exponent),
        call_ensures(retry_exponent, ((attempt + 1) as u64,), next),
    ensures
        attempt <= 1 ==> exponent == 0,
        exponent <= 30,
        1 <= attempt && exponent < 30 ==> next == exponent + 1,
        exponent == 30 ==> next == 30,
{
}

/// A failed request says after how many attempts it failed.
pub proof fn law_failure_tells_the_attempts(total: u64, text: String, digits: String)
    requires
        call_ensures(transport_failure_message, (total,), text),
        call_ensures(decimal_text, (total,), digits),
    ensures
        text@ == "C82 OpenRouter transport failed after "@ + digits@ + " attempts"@,
{
}

/// A request tells which attempt is due, from the first to the last that is allowed, and how many
/// are allowed.
pub proof fn law_request_tells_where_it_stands(due: Dispatching, attempt: u64, total: u64)
    requires
        call_ensures(Dispatching::attempt, (&due,), attempt),
        call_ensures(Dispatching::total, (&due,), total),
    ensures
        attempt == due.due(),
        total == due.allowed(),
        1 <= attempt <= total,
        due.records().len() == attempt - 1,
{
}

} // verus!
