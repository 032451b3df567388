use skyhook_core::error::HarnessError;
use skyhook_core::journal::{ModelFailureKind, SessionEvent};
use skyhook_core::protocol::Usage;
use skyhook_core::recovery::{
    record_attempt_interrupted, record_model_failure, record_model_usage, recovery_delay, schedule_model_recovery,
    ProviderFailure, RecoveryAttempt, MILLISECOND, SECOND,
};

fn recoverable() -> ProviderFailure {
    ProviderFailure {
        retry_after: None,
        transient: true,
        message: "scripted websocket connection lost".into(),
    }
}

#[test]
fn fallback_backoff_caps_without_overflow_and_server_hint_overrides_it() {
    let mut error = recoverable();
    let attempts = [0, 1, 2, 3, 4, 5, 6, 7, 256, u64::MAX];
    let seconds = [1, 1, 2, 4, 8, 16, 30, 30, 30, 30];
    for (attempt, seconds) in attempts.into_iter().zip(seconds) {
        let expected: u128 = seconds * SECOND;
        assert_eq!(recovery_delay(&error, attempt), expected);
    }
    for hint in [0, 1234, 90_000].map(|millis| millis * MILLISECOND) {
        error.retry_after = Some(hint);
        assert_eq!(recovery_delay(&error, 1), hint);
        assert_eq!(recovery_delay(&error, u64::MAX), hint);
    }
}

#[test]
fn recovery_is_journaled_with_its_wait_unless_the_turn_is_cancelled() {
    let attempt = RecoveryAttempt {
        model: 4,
        transient: 3,
    };
    let (event, wait) = schedule_model_recovery(false, 7, attempt, &recoverable()).unwrap();
    assert_eq!(wait, 4 * SECOND);
    assert_eq!(
        event,
        SessionEvent::ModelRecoveryScheduled {
            request: 7,
            attempt: 5,
            max_attempts: None,
            delay_millis: 4000,
            error: "scripted websocket connection lost".into(),
        }
    );
    assert_eq!(
        schedule_model_recovery(true, 7, attempt, &recoverable()),
        Err(HarnessError::Interrupted)
    );
}

#[test]
fn observed_usage_is_journaled_before_the_failure() {
    let none = Usage {
        input_tokens: 0,
        cached_input_tokens: 0,
        output_tokens: 0,
    };
    let failed = SessionEvent::ModelFailed {
        request: 7,
        attempt: 2,
        error: "lost".into(),
        kind: ModelFailureKind::Error,
    };
    assert_eq!(record_model_failure(7, 2, none, "lost".into()), vec![failed.clone()]);
    let some = Usage {
        output_tokens: 3,
        ..none
    };
    let usage = SessionEvent::Usage {
        request: Some(7),
        usage: some,
    };
    assert_eq!(record_model_failure(7, 2, some, "lost".into()), vec![usage.clone(), failed]);
    assert_eq!(record_model_usage(7, some), usage);
    assert_eq!(
        record_attempt_interrupted(7, 2),
        SessionEvent::ModelAttemptInterrupted {
            request: 7,
            attempt: 2
        }
    );
}
