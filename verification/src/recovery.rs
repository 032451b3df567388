//! Recovery from transient model failures, and what failed attempts leave behind.

use vstd::prelude::*;
use crate::error::HarnessError;
use crate::journal::{ModelFailureKind, SessionEvent};
use crate::protocol::Usage;

verus! {

/// Nanoseconds of a second.
pub const SECOND: u128 = 1_000_000_000;

/// Nanoseconds of a millisecond.
pub const MILLISECOND: u128 = 1_000_000;

/// Longest wait, in seconds, that the harness chooses by itself.
pub const LONGEST_WAIT: u128 = 30;

/// A failure that a provider reports.
#[derive(Clone, Debug, PartialEq, Eq)]
pub struct ProviderFailure {
    /// How many nanoseconds the server asks to wait.
    pub retry_after: Option<u128>,
    /// Whether trying the same request again can help.
    pub transient: bool,
    pub message: String,
}

/// The power of two.
pub open spec fn power_of_two(exponent: nat) -> nat
    decreases exponent,
{
    if exponent == 0 {
        1
    } else {
        2 * power_of_two((exponent - 1) as nat)
    }
}

/// The wait in seconds before a frozen request is tried again: one second after the
/// first transient failure, twice as long after each further one, with a cap.
pub open spec fn fallback_seconds(failures: nat) -> nat {
    let exponent = if failures == 0 {
        0
    } else {
        (failures - 1) as nat
    };
    if exponent >= 5 {
        LONGEST_WAIT as nat
    } else {
        power_of_two(exponent)
    }
}

/// The wait in nanoseconds: what the server asks for, or else the fallback.
pub open spec fn delay(retry_after: Option<u128>, failures: nat) -> nat {
    match retry_after {
        Some(hint) => hint as nat,
        None => fallback_seconds(failures) * SECOND as nat,
    }
}

/// Computes the wait before a frozen request is tried again. Hints of the server
/// take precedence over the exponential fallback, also where they exceed its cap.
/// `attempt` counts transient failures of the frozen request only.
pub fn recovery_delay(error: &ProviderFailure, attempt: u64) -> (nanoseconds: u128)
    ensures
        nanoseconds == delay(error.retry_after, attempt as nat),
{
    match error.retry_after {
        Some(hint) => hint,
        None => {
            let exponent: u64 = attempt.saturating_sub(1);
            proof {
                reveal_with_fuel(power_of_two, 6);
            }
            let seconds: u128 = if exponent == 0 {
                1
            } else if exponent == 1 {
                2
            } else if exponent == 2 {
                4
            } else if exponent == 3 {
                8
            } else if exponent == 4 {
                16
            } else {
                LONGEST_WAIT
            };
            seconds * SECOND
        },
    }
}

/// Without a hint the wait is at least a second and never exceeds the cap.
pub proof fn fallback_is_bounded(failures: nat)
    ensures
        1 <= fallback_seconds(failures) <= LONGEST_WAIT,
        delay(None, failures) <= LONGEST_WAIT * SECOND,
{
    reveal_with_fuel(power_of_two, 6);
}

/// Without a hint the wait never shrinks from one failure to the next.
pub proof fn fallback_never_shrinks(failures: nat)
    ensures
        fallback_seconds(failures) <= fallback_seconds(failures + 1),
{
    reveal_with_fuel(power_of_two, 6);
}

/// A hint of the server is taken as it is, however many failures there were.
pub proof fn hints_override_the_fallback(hint: u128, failures: nat)
    ensures
        delay(Some(hint), failures) == hint,
{
}

/// Attempts span a logical response; the backoff counts only transient failures of
/// the request that is frozen now.
#[derive(Clone, Copy, Debug, PartialEq, Eq, Structural)]
pub struct RecoveryAttempt {
    pub model: u64,
    pub transient: u64,
}

/// A number of nanoseconds as milliseconds, capped to what a journal entry holds.
pub open spec fn journaled_millis(nanoseconds: nat) -> u64 {
    if nanoseconds / MILLISECOND as nat > u64::MAX {
        u64::MAX
    } else {
        (nanoseconds / MILLISECOND as nat) as u64
    }
}

/// The number after another, or the largest one.
pub open spec fn saturating_next(value: u64) -> u64 {
    if value == u64::MAX {
        u64::MAX
    } else {
        (value + 1) as u64
    }
}

/// Plans the recovery of a request: what is journaled, and how many nanoseconds to
/// wait. A cancelled turn does not recover.
pub fn schedule_model_recovery(
    cancelled: bool,
    request: u64,
    attempt: RecoveryAttempt,
    error: &ProviderFailure,
) -> (result: Result<(SessionEvent, u128), HarnessError>)
    ensures
        cancelled ==> result == Err::<(SessionEvent, u128), HarnessError>(HarnessError::Interrupted),
        !cancelled ==> {
            &&& result matches Ok((event, wait))
            &&& wait == delay(error.retry_after, attempt.transient as nat)
            &&& event matches SessionEvent::ModelRecoveryScheduled {
                request: failed,
                attempt: next,
                max_attempts,
                delay_millis,
                error: text,
            }
            &&& failed == request
            &&& next == saturating_next(attempt.model)
            &&& max_attempts is None
            &&& delay_millis == journaled_millis(wait as nat)
            &&& text@ == error.message@
        },
{
    if cancelled {
        return Err(HarnessError::Interrupted);
    }
    let wait: u128 = recovery_delay(error, attempt.transient);
    let millis: u128 = wait / MILLISECOND;
    let delay_millis: u64 = if millis > u64::MAX as u128 {
        u64::MAX
    } else {
        millis as u64
    };
    let event = SessionEvent::ModelRecoveryScheduled {
        request,
        attempt: attempt.model.saturating_add(1),
        max_attempts: None,
        delay_millis,
        error: error.message.clone(),
    };
    Ok((event, wait))
}

/// Lists what a failed attempt journals, in one commit: the usage that was
/// observed, if there was any, and the failure with its classification.
pub fn record_model_outcome(
    request: u64,
    attempt: u64,
    usage: Usage,
    error: String,
    kind: ModelFailureKind,
) -> (events: Vec<SessionEvent>)
    ensures
        ({
            let failed = SessionEvent::ModelFailed { request, attempt, error, kind };
            let observed = SessionEvent::Usage { request: Some(request), usage };
            events@ == if usage == Usage::none() {
                seq![failed]
            } else {
                seq![observed, failed]
            }
        }),
{
    let mut events: Vec<SessionEvent> = Vec::new();
    if !usage.is_none() {
        events.push(SessionEvent::Usage { request: Some(request), usage });
    }
    events.push(SessionEvent::ModelFailed { request, attempt, error, kind });
    events
}

/// Lists what a failed attempt journals where it is no refusal.
pub fn record_model_failure(request: u64, attempt: u64, usage: Usage, error: String) -> (events: Vec<
    SessionEvent,
>)
    ensures
        ({
            let failed = SessionEvent::ModelFailed { request, attempt, error, kind: ModelFailureKind::Error };
            let observed = SessionEvent::Usage { request: Some(request), usage };
            events@ == if usage == Usage::none() {
                seq![failed]
            } else {
                seq![observed, failed]
            }
        }),
{
    record_model_outcome(request, attempt, usage, error, ModelFailureKind::Error)
}

/// What closes an attempt that was cancelled before it had an outcome.
pub fn record_attempt_interrupted(request: u64, attempt: u64) -> (event: SessionEvent)
    ensures
        event == (SessionEvent::ModelAttemptInterrupted { request, attempt }),
{
    SessionEvent::ModelAttemptInterrupted { request, attempt }
}

/// What is journaled of the tokens that a request used.
pub fn record_model_usage(request: u64, usage: Usage) -> (event: SessionEvent)
    ensures
        event == (SessionEvent::Usage { request: Some(request), usage }),
{
    SessionEvent::Usage { request: Some(request), usage }
}

/// Without a hint the first wait is a second, each further one is twice as long as the one
/// before, and from the sixth failure on it is the cap.
pub proof fn waits_double(failures: nat)
    ensures
        fallback_seconds(1) == 1,
        1 <= failures < 5 ==> fallback_seconds(failures + 1) == 2 * fallback_seconds(failures),
        failures >= 6 ==> fallback_seconds(failures) == 30,
        delay(None, failures) == fallback_seconds(failures) * 1_000_000_000,
{
    reveal_with_fuel(power_of_two, 6);
}

/// What is journaled of a wait are its whole milliseconds, as far as an entry holds them.
pub proof fn waits_are_journaled_in_milliseconds(nanoseconds: nat)
    ensures
        journaled_millis(nanoseconds) < u64::MAX ==> journaled_millis(nanoseconds) * 1_000_000 <= nanoseconds < (
        journaled_millis(nanoseconds) + 1) * 1_000_000,
        nanoseconds >= u64::MAX * 1_000_000 ==> journaled_millis(nanoseconds) == u64::MAX,
{
}

/// Attempts are counted one by one, as far as there are numbers.
pub proof fn attempts_are_counted(value: u64)
    ensures
        value < u64::MAX ==> saturating_next(value) == value + 1,
        saturating_next(value) >= value,
{
}

} // verus!
