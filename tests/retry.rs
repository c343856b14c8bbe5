use gimmisn_cron::retry::{
    cooldown_from_status, should_retry, Failure, Phase, RetryAction, RetryEvent, RetryState, MAX_ATTEMPTS,
};

/// A scripted remote: the cooldowns it reports, in order (zero once they
/// run out), and for each fetch whether it fails.
struct Script {
    cooldowns: Vec<u64>,
    fetch_fails: Vec<bool>,
}

/// Drives the executor against the script; returns the final state, the
/// seconds slept and the number of fetches.
fn drive(mut script: Script) -> (RetryState, u64, usize) {
    let (mut state, mut action) = RetryState::start();
    let mut slept = 0;
    let mut fetches = 0;
    script.cooldowns.reverse();
    loop {
        let event = match action {
            RetryAction::PollCooldown | RetryAction::Sleep(_) => {
                if let RetryAction::Sleep(secs) = action {
                    slept += secs;
                }
                RetryEvent::Cooldown(script.cooldowns.pop().unwrap_or(0))
            }
            RetryAction::Fetch => {
                let fails = script.fetch_fails.get(fetches).copied().unwrap_or(true);
                fetches += 1;
                if fails {
                    RetryEvent::RemoteFailed
                } else {
                    RetryEvent::Persisted { fetched: 10, written: 10 }
                }
            }
            RetryAction::Done => break,
        };
        let next = state.next(event);
        state = next.0;
        action = next.1;
    }
    (state, slept, fetches)
}

#[test]
fn test_overpass_sleep_no_sleep() {
    let (state, action) = RetryState::start();
    assert_eq!(action, RetryAction::PollCooldown);
    let (state, action) = state.next(RetryEvent::Cooldown(0));
    assert_eq!(action, RetryAction::Fetch);
    assert_eq!(state.phase, Phase::AwaitFetch);
    let (_, slept, _) = drive(Script { cooldowns: vec![0], fetch_fails: vec![false] });
    assert_eq!(slept, 0);
}

#[test]
fn test_overpass_sleep_need_sleep() {
    let (state, _) = RetryState::start();
    let (state, action) = state.next(RetryEvent::Cooldown(12));
    assert_eq!(action, RetryAction::Sleep(12));
    let (_, action) = state.next(RetryEvent::Cooldown(0));
    assert_eq!(action, RetryAction::Fetch);
    let (_, slept, _) = drive(Script { cooldowns: vec![12, 0], fetch_fails: vec![false] });
    assert_eq!(slept, 12);
}

#[test]
fn test_should_retry() {
    assert!(should_retry(0));
    assert!(should_retry(19));
    assert!(!should_retry(20));
}

#[test]
fn test_cooldowns_then_success() {
    let (state, slept, fetches) =
        drive(Script { cooldowns: vec![5, 7, 3, 0], fetch_fails: vec![false] });
    assert_eq!(state.phase, Phase::Succeeded);
    assert_eq!(state.attempt, 1);
    assert_eq!(slept, 15);
    assert_eq!(fetches, 1);
}

#[test]
fn test_success_after_failures() {
    let (state, _, fetches) =
        drive(Script { cooldowns: vec![], fetch_fails: vec![true, true, false] });
    assert_eq!(state.phase, Phase::Succeeded);
    assert_eq!(state.attempt, 3);
    assert_eq!(fetches, 3);
    assert_eq!(state.last_failure, Some(Failure::RemoteUnavailable));
}

#[test]
fn test_never_succeeding_remote_is_abandoned_after_twenty() {
    let (state, slept, fetches) =
        drive(Script { cooldowns: vec![4, 0, 1, 0], fetch_fails: vec![] });
    assert_eq!(state.phase, Phase::Abandoned);
    assert_eq!(state.attempt, MAX_ATTEMPTS);
    assert_eq!(fetches, 20);
    assert_eq!(slept, 5);
}

#[test]
fn test_short_write_is_retried() {
    let (state, _) = RetryState::start();
    let (state, _) = state.next(RetryEvent::Cooldown(0));
    let (state, action) = state.next(RetryEvent::Persisted { fetched: 10, written: 4 });
    assert_eq!(action, RetryAction::PollCooldown);
    assert_eq!(state.attempt, 2);
    assert_eq!(state.last_failure, Some(Failure::ShortWrite));
    let (state, _) = state.next(RetryEvent::Cooldown(0));
    let (state, action) = state.next(RetryEvent::Persisted { fetched: 0, written: 0 });
    assert_eq!(action, RetryAction::PollCooldown);
    assert_eq!(state.attempt, 3);
    let (state, _) = state.next(RetryEvent::Cooldown(0));
    let (state, action) = state.next(RetryEvent::Persisted { fetched: 10, written: 10 });
    assert_eq!(action, RetryAction::Done);
    assert_eq!(state.phase, Phase::Succeeded);
    assert!(state.is_done());
}

#[test]
fn test_unexpected_event_repeats_pending_action() {
    let (state, _) = RetryState::start();
    let (state2, action) = state.next(RetryEvent::RemoteFailed);
    assert_eq!(action, RetryAction::PollCooldown);
    assert_eq!(state2, state);
}

fn chars(s: &str) -> Vec<char> {
    s.chars().collect()
}

#[test]
fn test_cooldown_from_status() {
    let happy = "Connected as: 1807920285\nCurrent time: 2020-11-22T11:40:37Z\n\
Rate limit: 2\n2 slots available now.\nCurrently running queries (pid, space limit, time limit, start time):\n";
    assert_eq!(cooldown_from_status(&chars(happy)), 0);
    let wait = "Connected as: 1807920285\nCurrent time: 2020-11-22T11:40:37Z\nRate limit: 2\n\
Slot available after: 2020-11-22T11:40:49Z, in 12 seconds.\n\
Slot available after: 2020-11-22T11:41:59Z, in 82 seconds.\n";
    assert_eq!(cooldown_from_status(&chars(wait)), 12);
    let garbled = "Slot available after: soon\n";
    assert_eq!(cooldown_from_status(&chars(garbled)), 0);
}
