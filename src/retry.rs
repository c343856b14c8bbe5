//! The decisions of the retry executor: one rate-limited remote query made
//! robust by polling the remote's self-reported cooldown and retrying up
//! to a fixed number of attempts. The caller performs each action and
//! reports what came of it as the next event.

use vstd::prelude::*;
use crate::stats::{all_digits, check_digits, digits_to_u64, digits_value, starts_with};
use crate::text::{split_on, split_text, texts_of};

verus! {

/// Attempts per remote operation before it is abandoned for this run.
pub const MAX_ATTEMPTS: u32 = 20;

/// Decides if a query should be tried again after `retry` attempts.
pub fn should_retry(retry: i32) -> (r: bool)
    ensures
        r == (retry < MAX_ATTEMPTS as i32),
{
    retry < MAX_ATTEMPTS as i32
}

/// Why an attempt failed.
#[derive(Clone, Copy, Debug, PartialEq, Eq, Structural)]
pub enum Failure {
    /// The query failed, or the service answered with an error.
    RemoteUnavailable,
    /// Fewer bytes were persisted than were fetched, or none at all.
    ShortWrite,
}

#[derive(Clone, Copy, Debug, PartialEq, Eq, Structural)]
pub enum Phase {
    /// Waiting for the remote's cooldown report.
    AwaitCooldown,
    /// Waiting for the outcome of the query and of persisting its payload.
    AwaitFetch,
    Succeeded,
    Abandoned,
}

/// The executor's state for one operation; never persisted.
#[derive(Clone, Copy, Debug, PartialEq, Eq, Structural)]
pub struct RetryState {
    /// The attempt under way, counted from 1.
    pub attempt: u32,
    pub phase: Phase,
    pub last_failure: Option<Failure>,
}

/// What the caller observed.
#[derive(Clone, Copy, Debug, PartialEq, Eq, Structural)]
pub enum RetryEvent {
    /// The remote reported this many seconds of cooldown.
    Cooldown(u64),
    /// The query failed.
    RemoteFailed,
    /// The query returned `fetched` bytes, of which `written` were persisted.
    Persisted { fetched: usize, written: usize },
}

/// What the caller has to do next.
#[derive(Clone, Copy, Debug, PartialEq, Eq, Structural)]
pub enum RetryAction {
    /// Ask the remote for its current cooldown.
    PollCooldown,
    /// Sleep this many seconds, then ask the remote for its cooldown again.
    Sleep(u64),
    /// Run the query and persist its payload.
    Fetch,
    /// The operation is over; the state tells how it ended.
    Done,
}

/// The attempt failed for one of the listed reasons.
pub open spec fn failure_of(e: RetryEvent) -> Option<Failure> {
    match e {
        RetryEvent::RemoteFailed => Some(Failure::RemoteUnavailable),
        RetryEvent::Persisted { fetched, written } => if written == 0 || written < fetched {
            Some(Failure::ShortWrite)
        } else {
            None
        },
        RetryEvent::Cooldown(_) => None,
    }
}

/// After a failed attempt: another one, or the end at the ceiling.
pub open spec fn after_failure(s: RetryState, f: Failure) -> (RetryState, RetryAction) {
    if s.attempt < MAX_ATTEMPTS {
        (
            RetryState {
                attempt: (s.attempt + 1) as u32,
                phase: Phase::AwaitCooldown,
                last_failure: Some(f),
            },
            RetryAction::PollCooldown,
        )
    } else {
        (
            RetryState { attempt: s.attempt, phase: Phase::Abandoned, last_failure: Some(f) },
            RetryAction::Done,
        )
    }
}

/// The action that a phase waits on, repeated when an event does not fit it.
pub open spec fn pending_action(p: Phase) -> RetryAction {
    match p {
        Phase::AwaitCooldown => RetryAction::PollCooldown,
        Phase::AwaitFetch => RetryAction::Fetch,
        _ => RetryAction::Done,
    }
}

/// One transition of the executor.
pub open spec fn step_spec(s: RetryState, e: RetryEvent) -> (RetryState, RetryAction) {
    match (s.phase, e) {
        (Phase::AwaitCooldown, RetryEvent::Cooldown(secs)) => if secs == 0 {
            (RetryState { phase: Phase::AwaitFetch, ..s }, RetryAction::Fetch)
        } else {
            (s, RetryAction::Sleep(secs))
        },
        (Phase::AwaitFetch, RetryEvent::RemoteFailed) => after_failure(
            s,
            Failure::RemoteUnavailable,
        ),
        (Phase::AwaitFetch, RetryEvent::Persisted { fetched, written }) => if written == 0
            || written < fetched {
            after_failure(s, Failure::ShortWrite)
        } else {
            (RetryState { phase: Phase::Succeeded, ..s }, RetryAction::Done)
        },
        _ => (s, pending_action(s.phase)),
    }
}

/// The state after feeding `events` one by one, from `s`.
pub open spec fn run(s: RetryState, events: Seq<RetryEvent>) -> RetryState
    decreases events.len(),
{
    if events.len() == 0 {
        s
    } else {
        run(step_spec(s, events[0]).0, events.drop_first())
    }
}

/// The attempt counter stays within 1 and the ceiling.
pub open spec fn state_wf(s: RetryState) -> bool {
    1 <= s.attempt <= MAX_ATTEMPTS
}

/// The initial state of an operation.
pub open spec fn initial() -> RetryState {
    RetryState { attempt: 1, phase: Phase::AwaitCooldown, last_failure: None }
}

impl RetryState {
    /// Starts an operation: the first attempt begins with a cooldown poll.
    pub fn start() -> (r: (RetryState, RetryAction))
        ensures
            r.0 == initial(),
            r.1 == RetryAction::PollCooldown,
            state_wf(r.0),
    {
        (RetryState { attempt: 1, phase: Phase::AwaitCooldown, last_failure: None }, RetryAction::PollCooldown)
    }

    /// Feeds one event to the executor.
    pub fn next(self, e: RetryEvent) -> (r: (RetryState, RetryAction))
        requires
            state_wf(self),
        ensures
            r == step_spec(self, e),
            state_wf(r.0),
    {
        match (self.phase, e) {
            (Phase::AwaitCooldown, RetryEvent::Cooldown(secs)) => {
                if secs == 0 {
                    (RetryState { phase: Phase::AwaitFetch, ..self }, RetryAction::Fetch)
                } else {
                    (self, RetryAction::Sleep(secs))
                }
            },
            (Phase::AwaitFetch, RetryEvent::RemoteFailed) => {
                self.fail(Failure::RemoteUnavailable)
            },
            (Phase::AwaitFetch, RetryEvent::Persisted { fetched, written }) => {
                if written == 0 || written < fetched {
                    self.fail(Failure::ShortWrite)
                } else {
                    (RetryState { phase: Phase::Succeeded, ..self }, RetryAction::Done)
                }
            },
            (Phase::AwaitCooldown, _) => (self, RetryAction::PollCooldown),
            (Phase::AwaitFetch, _) => (self, RetryAction::Fetch),
            _ => (self, RetryAction::Done),
        }
    }

    fn fail(self, f: Failure) -> (r: (RetryState, RetryAction))
        requires
            state_wf(self),
        ensures
            r == after_failure(self, f),
            state_wf(r.0),
    {
        if self.attempt < MAX_ATTEMPTS {
            (
                RetryState {
                    attempt: self.attempt + 1,
                    phase: Phase::AwaitCooldown,
                    last_failure: Some(f),
                },
                RetryAction::PollCooldown,
            )
        } else {
            (
                RetryState { attempt: self.attempt, phase: Phase::Abandoned, last_failure: Some(f) },
                RetryAction::Done,
            )
        }
    }

    /// The operation has ended, either way.
    pub fn is_done(&self) -> (r: bool)
        ensures
            r == (self.phase == Phase::Succeeded || self.phase == Phase::Abandoned),
    {
        match self.phase {
            Phase::Succeeded | Phase::Abandoned => true,
            _ => false,
        }
    }
}

proof fn lemma_run_concat(s: RetryState, a: Seq<RetryEvent>, b: Seq<RetryEvent>)
    ensures
        run(s, a + b) == run(run(s, a), b),
    decreases a.len(),
{
    if a.len() > 0 {
        assert((a + b).drop_first() =~= a.drop_first() + b);
        assert((a + b)[0] == a[0]);
        lemma_run_concat(step_spec(s, a[0]).0, a.drop_first(), b);
    } else {
        assert(a + b =~= b);
    }
}

proof fn lemma_run_terminal(s: RetryState, events: Seq<RetryEvent>)
    requires
        s.phase == Phase::Succeeded || s.phase == Phase::Abandoned,
    ensures
        run(s, events) == s,
    decreases events.len(),
{
    if events.len() > 0 {
        lemma_run_terminal(s, events.drop_first());
    }
}

/// The cooldown reports of one attempt: positive values, then zero.
pub open spec fn cooldown_events(waits: Seq<u64>) -> Seq<RetryEvent> {
    waits.map_values(|w: u64| RetryEvent::Cooldown(w)).push(RetryEvent::Cooldown(0))
}

proof fn lemma_cooldown_clears(s: RetryState, waits: Seq<u64>)
    requires
        s.phase == Phase::AwaitCooldown,
        forall|k: int| 0 <= k < waits.len() ==> #[trigger] waits[k] > 0,
    ensures
        run(s, cooldown_events(waits)) == (RetryState { phase: Phase::AwaitFetch, ..s }),
    decreases waits.len(),
{
    if waits.len() > 0 {
        let rest = waits.drop_first();
        assert(cooldown_events(waits).drop_first() =~= cooldown_events(rest));
        assert(cooldown_events(waits)[0] == RetryEvent::Cooldown(waits[0]));
        assert(step_spec(s, RetryEvent::Cooldown(waits[0])).0 == s);
        assert(run(s, cooldown_events(waits)) == run(s, cooldown_events(rest)));
        assert forall|k: int| 0 <= k < rest.len() implies #[trigger] rest[k] > 0 by {
            assert(rest[k] == waits[k + 1]);
        }
        lemma_cooldown_clears(s, rest);
    } else {
        assert(cooldown_events(waits) =~= seq![RetryEvent::Cooldown(0)]);
        assert(seq![RetryEvent::Cooldown(0)].drop_first() =~= Seq::<RetryEvent>::empty());
        assert(step_spec(s, RetryEvent::Cooldown(0)).0 == (RetryState { phase: Phase::AwaitFetch, ..s }));
        assert(run(s, seq![RetryEvent::Cooldown(0)]) == run(step_spec(s, RetryEvent::Cooldown(0)).0, Seq::<RetryEvent>::empty()));
    }
}

/// The events of one failed attempt: cooldown reports, then a failing outcome.
pub open spec fn failed_attempt_events(waits: Seq<u64>, outcome: RetryEvent) -> Seq<RetryEvent> {
    cooldown_events(waits).push(outcome)
}

/// The events of consecutive failed attempts.
pub open spec fn failing_trace(waits: Seq<Seq<u64>>, outcomes: Seq<RetryEvent>) -> Seq<RetryEvent>
    decreases waits.len(),
{
    if waits.len() == 0 || outcomes.len() == 0 {
        Seq::empty()
    } else {
        failed_attempt_events(waits[0], outcomes[0]) + failing_trace(
            waits.drop_first(),
            outcomes.drop_first(),
        )
    }
}

proof fn lemma_failed_attempt(s: RetryState, waits: Seq<u64>, outcome: RetryEvent)
    requires
        s.phase == Phase::AwaitCooldown,
        forall|k: int| 0 <= k < waits.len() ==> #[trigger] waits[k] > 0,
        failure_of(outcome) is Some,
    ensures
        run(s, failed_attempt_events(waits, outcome)) == after_failure(
            s,
            failure_of(outcome)->0,
        ).0,
{
    lemma_cooldown_clears(s, waits);
    lemma_run_concat(s, cooldown_events(waits), seq![outcome]);
    assert(failed_attempt_events(waits, outcome) =~= cooldown_events(waits) + seq![outcome]);
    assert(seq![outcome].drop_first() =~= Seq::<RetryEvent>::empty());
    let s1 = RetryState { phase: Phase::AwaitFetch, ..s };
    assert(run(s1, seq![outcome]) == run(step_spec(s1, outcome).0, Seq::<RetryEvent>::empty()));
}

proof fn lemma_failing_trace_from(s: RetryState, waits: Seq<Seq<u64>>, outcomes: Seq<RetryEvent>)
    requires
        s.phase == Phase::AwaitCooldown,
        state_wf(s),
        waits.len() == outcomes.len(),
        forall|r: int, k: int|
            0 <= r < waits.len() && 0 <= k < waits[r].len() ==> #[trigger] waits[r][k] > 0,
        forall|r: int| 0 <= r < outcomes.len() ==> (#[trigger] failure_of(outcomes[r])) is Some,
    ensures
        s.attempt + waits.len() <= MAX_ATTEMPTS ==> run(s, failing_trace(waits, outcomes)).phase
            == Phase::AwaitCooldown && run(s, failing_trace(waits, outcomes)).attempt == s.attempt
            + waits.len(),
        s.attempt + waits.len() > MAX_ATTEMPTS ==> run(s, failing_trace(waits, outcomes)).phase
            == Phase::Abandoned && run(s, failing_trace(waits, outcomes)).attempt == MAX_ATTEMPTS,
    decreases waits.len(),
{
    if waits.len() > 0 {
        let w0 = waits[0];
        let o0 = outcomes[0];
        assert forall|k: int| 0 <= k < w0.len() implies #[trigger] w0[k] > 0 by {
            assert(waits[0][k] > 0);
        }
        assert(failure_of(outcomes[0]) is Some);
        lemma_failed_attempt(s, w0, o0);
        lemma_run_concat(
            s,
            failed_attempt_events(w0, o0),
            failing_trace(waits.drop_first(), outcomes.drop_first()),
        );
        let s1 = after_failure(s, failure_of(o0)->0).0;
        if s.attempt < MAX_ATTEMPTS {
            let wr = waits.drop_first();
            let or = outcomes.drop_first();
            assert forall|r: int, k: int| 0 <= r < wr.len() && 0 <= k < wr[r].len() implies #[trigger] wr[r][k] > 0 by {
                assert(wr[r] == waits[r + 1]);
                assert(waits[r + 1][k] > 0);
            }
            assert forall|r: int| 0 <= r < or.len() implies (#[trigger] failure_of(or[r])) is Some by {
                assert(or[r] == outcomes[r + 1]);
                assert(failure_of(outcomes[r + 1]) is Some);
            }
            lemma_failing_trace_from(s1, wr, or);
        } else {
            lemma_run_terminal(s1, failing_trace(waits.drop_first(), outcomes.drop_first()));
        }
    }
}

/// Retry ceiling: an operation whose attempts all fail is abandoned after
/// exactly the maximum number of attempts, each of them preceded by as many
/// positive cooldown reports as the remote cares to send; after fewer
/// failures it is still waiting to try again.
pub proof fn lemma_failing_remote_abandoned_at_ceiling(
    waits: Seq<Seq<u64>>,
    outcomes: Seq<RetryEvent>,
)
    requires
        waits.len() == outcomes.len(),
        forall|r: int, k: int|
            0 <= r < waits.len() && 0 <= k < waits[r].len() ==> #[trigger] waits[r][k] > 0,
        forall|r: int| 0 <= r < outcomes.len() ==> (#[trigger] failure_of(outcomes[r])) is Some,
    ensures
        waits.len() >= MAX_ATTEMPTS ==> run(initial(), failing_trace(waits, outcomes)).phase
            == Phase::Abandoned && run(initial(), failing_trace(waits, outcomes)).attempt
            == MAX_ATTEMPTS,
        waits.len() < MAX_ATTEMPTS ==> run(initial(), failing_trace(waits, outcomes)).phase
            == Phase::AwaitCooldown && run(initial(), failing_trace(waits, outcomes)).attempt
            == waits.len() + 1,
{
    lemma_failing_trace_from(initial(), waits, outcomes);
}

/// Retry ceiling, the other side: after failed attempts short of the
/// ceiling, a remote whose cooldown clears after any number of positive
/// reports and whose payload is then persisted in full brings success,
/// within the maximum number of attempts.
pub proof fn lemma_clearing_remote_succeeds(
    waits: Seq<Seq<u64>>,
    outcomes: Seq<RetryEvent>,
    last_waits: Seq<u64>,
    fetched: usize,
    written: usize,
)
    requires
        waits.len() == outcomes.len(),
        waits.len() < MAX_ATTEMPTS,
        forall|r: int, k: int|
            0 <= r < waits.len() && 0 <= k < waits[r].len() ==> #[trigger] waits[r][k] > 0,
        forall|r: int| 0 <= r < outcomes.len() ==> (#[trigger] failure_of(outcomes[r])) is Some,
        forall|k: int| 0 <= k < last_waits.len() ==> #[trigger] last_waits[k] > 0,
        written > 0,
        written >= fetched,
    ensures
        run(
            initial(),
            failing_trace(waits, outcomes) + cooldown_events(last_waits).push(
                RetryEvent::Persisted { fetched, written },
            ),
        ).phase == Phase::Succeeded,
        run(
            initial(),
            failing_trace(waits, outcomes) + cooldown_events(last_waits).push(
                RetryEvent::Persisted { fetched, written },
            ),
        ).attempt == waits.len() + 1,
{
    let ok = RetryEvent::Persisted { fetched, written };
    lemma_failing_trace_from(initial(), waits, outcomes);
    let s = run(initial(), failing_trace(waits, outcomes));
    lemma_run_concat(initial(), failing_trace(waits, outcomes), cooldown_events(last_waits).push(ok));
    lemma_cooldown_clears(s, last_waits);
    lemma_run_concat(s, cooldown_events(last_waits), seq![ok]);
    assert(cooldown_events(last_waits).push(ok) =~= cooldown_events(last_waits) + seq![ok]);
    assert(seq![ok].drop_first() =~= Seq::<RetryEvent>::empty());
    let s1 = RetryState { phase: Phase::AwaitFetch, ..s };
    assert(run(s1, seq![ok]) == run(step_spec(s1, ok).0, Seq::<RetryEvent>::empty()));
}


/// The line of the remote's status page that announces a wait.
pub open spec fn wait_marker() -> Seq<char> {
    seq!['S', 'l', 'o', 't', ' ', 'a', 'v', 'a', 'i', 'l', 'a', 'b', 'l', 'e', ' ', 'a', 'f', 't', 'e', 'r', ':']
}

/// The first line that announces a wait, if any.
pub open spec fn first_wait_line(lines: Seq<Seq<char>>) -> Option<Seq<char>>
    decreases lines.len(),
{
    if lines.len() == 0 {
        None
    } else if starts_with(lines[0], wait_marker()) {
        Some(lines[0])
    } else {
        first_wait_line(lines.drop_first())
    }
}

/// The cooldown a status page reports: in a line such as
/// `Slot available after: 2021-03-09T20:11:58Z, in 12 seconds.`, the number
/// of its sixth word. A page that announces no wait, or none that can be
/// read as a 64-bit number, asks for none.
pub open spec fn status_cooldown(status: Seq<char>) -> nat {
    match first_wait_line(split_on(status, '\n')) {
        Some(line) => {
            let words = split_on(line, ' ');
            if words.len() > 5 && all_digits(words[5]) && digits_value(words[5]) <= u64::MAX {
                digits_value(words[5])
            } else {
                0
            }
        },
        None => 0,
    }
}

fn has_wait_marker(line: &Vec<char>) -> (r: bool)
    ensures
        r == starts_with(line@, wait_marker()),
{
    let marker = vec!['S', 'l', 'o', 't', ' ', 'a', 'v', 'a', 'i', 'l', 'a', 'b', 'l', 'e', ' ', 'a', 'f', 't', 'e', 'r', ':'];
    assert(marker@ =~= wait_marker());
    if line.len() < marker.len() {
        return false;
    }
    let mut i: usize = 0;
    while i < marker.len()
        invariant
            i <= marker@.len(),
            marker@ == wait_marker(),
            marker@.len() <= line@.len(),
            line@.take(i as int) == marker@.take(i as int),
        decreases marker@.len() - i,
    {
        if line[i] != marker[i] {
            assert(line@.take(marker@.len() as int)[i as int] != marker@[i as int]);
            return false;
        }
        assert(line@.take(i + 1) =~= line@.take(i as int).push(line@[i as int]));
        assert(marker@.take(i + 1) =~= marker@.take(i as int).push(marker@[i as int]));
        i += 1;
    }
    assert(marker@.take(i as int) =~= marker@);
    true
}

/// Reads the cooldown, in seconds, from the remote's status page.
pub fn cooldown_from_status(status: &Vec<char>) -> (r: u64)
    ensures
        r as nat == status_cooldown(status@),
{
    let lines = split_text(status.as_slice(), '\n');
    let ghost ls = split_on(status@, '\n');
    let mut i: usize = 0;
    assert(ls.skip(0) =~= ls);
    while i < lines.len()
        invariant
            i <= lines@.len(),
            texts_of(lines@) == ls,
            ls == split_on(status@, '\n'),
            first_wait_line(ls) == first_wait_line(ls.skip(i as int)),
        decreases lines@.len() - i,
    {
        assert(ls[i as int] == lines@[i as int]@);
        assert(ls.skip(i as int)[0] == ls[i as int]);
        if has_wait_marker(&lines[i]) {
            let words = split_text(lines[i].as_slice(), ' ');
            let ghost ws = split_on(ls[i as int], ' ');
            assert(texts_of(words@) == ws);
            if words.len() > 5 && check_digits(&words[5]) {
                assert(words@[5]@ == ws[5]);
                return match digits_to_u64(&words[5]) {
                    Some(v) => v,
                    None => 0,
                };
            }
            return 0;
        }
        assert(ls.skip(i as int).drop_first() =~= ls.skip(i + 1));
        i += 1;
    }
    assert(ls.skip(i as int) =~= Seq::<Seq<char>>::empty());
    0
}

} // verus!
