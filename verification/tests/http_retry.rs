//! When a failed request is sent again.
use ppe_core::duration::Duration;
use ppe_core::http_retry::{RetryPolicy, RetryStep};
use ppe_core::http_transport::HttpTransportError;

fn fast(policy: RetryPolicy) -> RetryPolicy {
    RetryPolicy {
        initial_backoff: Duration::zero(),
        max_backoff: Duration::zero(),
        ..policy
    }
}

/// How many attempts are made against a transport that fails `fail_times` times
/// with `err`, each attempt taking `cost`, and whether one succeeds.
fn drive(
    policy: RetryPolicy,
    fail_times: u32,
    err: &HttpTransportError,
    cost: Duration,
    timeout: Duration,
) -> (u32, bool) {
    let mut attempt = 0;
    let mut spent = Duration::zero();
    loop {
        attempt += 1;
        spent = Duration { nanos: spent.nanos + cost.nanos };
        if attempt > fail_times {
            return (attempt, true);
        }
        match policy.after_failure(attempt, err, spent, timeout, u64::from(attempt)) {
            RetryStep::Stop => return (attempt, false),
            RetryStep::WaitThenRetry(wait) => {
                spent = Duration { nanos: spent.nanos + wait.nanos };
            }
        }
    }
}

fn plain(policy: RetryPolicy, fail_times: u32, err: &HttpTransportError) -> (u32, bool) {
    drive(policy, fail_times, err, Duration::zero(), Duration::from_secs(5))
}

#[test]
fn an_undelivered_failure_is_retried_and_can_succeed() {
    let err = HttpTransportError::Connect("refused".into());
    assert_eq!(plain(fast(RetryPolicy::undelivered_only()), 2, &err), (3, true));
}

#[test]
fn a_timeout_is_not_retried_for_a_non_idempotent_call() {
    let err = HttpTransportError::Timeout;
    assert_eq!(plain(fast(RetryPolicy::undelivered_only()), 5, &err), (1, false));
}

#[test]
fn a_timeout_is_retried_for_an_idempotent_call() {
    let err = HttpTransportError::Timeout;
    assert_eq!(plain(fast(RetryPolicy::idempotent()), 1, &err), (2, true));
}

#[test]
fn a_host_refusal_is_never_retried() {
    let err = HttpTransportError::Rejected("circuit open".into());
    assert_eq!(plain(fast(RetryPolicy::idempotent()), 5, &err), (1, false));
}

#[test]
fn a_malformed_request_is_never_retried() {
    let err = HttpTransportError::InvalidRequest("bad url".into());
    assert_eq!(plain(fast(RetryPolicy::idempotent()), 5, &err), (1, false));
}

#[test]
fn attempts_are_capped() {
    let err = HttpTransportError::Connect("refused".into());
    let policy = fast(RetryPolicy::idempotent().with_max_attempts(4));
    assert_eq!(plain(policy, 99, &err), (4, false));
}

#[test]
fn the_default_policy_does_not_retry() {
    let err = HttpTransportError::Connect("refused".into());
    assert_eq!(plain(RetryPolicy::default(), 1, &err), (1, false));
    assert_eq!(plain(RetryPolicy::none(), 1, &err), (1, false));
}

#[test]
fn the_budget_stops_a_loop_that_cannot_finish_in_time() {
    let err = HttpTransportError::Connect("refused".into());
    let policy = fast(RetryPolicy::idempotent().with_total_budget(Duration::from_millis(100)));
    let (attempts, done) = drive(
        policy,
        99,
        &err,
        Duration::from_millis(50),
        Duration::from_millis(60),
    );
    assert_eq!(
        attempts, 1,
        "a second attempt could overrun the budget, so it must not start"
    );
    assert!(!done);
}

#[test]
fn a_generous_budget_still_allows_the_full_attempt_count() {
    let err = HttpTransportError::Connect("refused".into());
    let policy = fast(RetryPolicy::idempotent().with_total_budget(Duration::from_secs(10)));
    let (attempts, _) = drive(
        policy,
        99,
        &err,
        Duration::from_millis(10),
        Duration::from_millis(20),
    );
    assert_eq!(attempts, 3);
}

#[test]
fn backoff_grows_and_is_capped() {
    let policy = RetryPolicy {
        initial_backoff: Duration::from_millis(100),
        max_backoff: Duration::from_millis(400),
        ..RetryPolicy::idempotent()
    };
    for seq in 0..64 {
        assert!(policy.backoff_after(1, seq) <= Duration::from_millis(100));
        assert!(policy.backoff_after(2, seq) <= Duration::from_millis(200));
        assert!(policy.backoff_after(9, seq) <= Duration::from_millis(400));
    }
}

#[test]
fn concurrent_callers_do_not_share_a_backoff() {
    let policy = RetryPolicy {
        initial_backoff: Duration::from_millis(1000),
        max_backoff: Duration::from_millis(1000),
        ..RetryPolicy::idempotent()
    };
    let delays: Vec<_> = (0..16).map(|seq| policy.backoff_after(3, seq)).collect();
    let distinct = delays
        .iter()
        .collect::<std::collections::HashSet<_>>()
        .len();
    assert!(
        distinct > 1,
        "sixteen callers produced one delay: {delays:?}"
    );
}

#[test]
fn a_backoff_without_room_is_no_backoff() {
    let policy = fast(RetryPolicy::idempotent());
    assert_eq!(policy.backoff_after(5, 3), Duration::zero());
    assert!(RetryPolicy::idempotent().should_retry(&HttpTransportError::Timeout));
    assert!(!RetryPolicy::undelivered_only().should_retry(&HttpTransportError::Timeout));
}

#[test]
fn spans_are_counted_in_nanoseconds_and_saturate() {
    assert_eq!(Duration::from_secs(2).as_millis(), 2000);
    assert_eq!(Duration::from_millis(3).nanos, 3_000_000);
    assert_eq!(Duration::from_secs(3).saturating_mul(4), Duration::from_secs(12));
    let most = Duration::from_secs(u64::MAX).saturating_mul(2);
    assert_eq!(most.nanos, ppe_core::duration::MAX_NANOS);
    assert_eq!(Duration::from_secs(9).saturating_mul(0), Duration::zero());
}

#[test]
fn the_longest_backoff_doubles_up_to_the_largest() {
    let policy = RetryPolicy {
        initial_backoff: Duration::from_millis(100),
        max_backoff: Duration::from_millis(350),
        ..RetryPolicy::idempotent()
    };
    let longest: Vec<u128> = (0..5).map(|n| policy.longest_backoff(n).as_millis()).collect();
    assert_eq!(longest, [100, 100, 200, 350, 350]);
}

#[test]
fn a_wait_stays_in_the_widest_window() {
    let wide = RetryPolicy {
        initial_backoff: Duration { nanos: (1u128 << 65) * 1_000_000 },
        max_backoff: Duration { nanos: ppe_core::duration::MAX_NANOS },
        ..RetryPolicy::idempotent()
    };
    let full = RetryPolicy {
        initial_backoff: Duration { nanos: u128::from(u64::MAX) * 1_000_000 },
        max_backoff: Duration { nanos: u128::from(u64::MAX) * 1_000_000 },
        ..RetryPolicy::idempotent()
    };
    for policy in [wide, full] {
        for seq in [0, 1, 2, u64::MAX] {
            assert!(policy.backoff_after(1, seq) <= policy.longest_backoff(1));
        }
        assert_eq!(policy.backoff_after(1, 1), Duration::from_millis(0x9E37_79B9));
        let err = HttpTransportError::Connect("refused".into());
        assert_eq!(
            policy.after_failure(1, &err, Duration::zero(), Duration::zero(), 1),
            RetryStep::WaitThenRetry(Duration::from_millis(0x9E37_79B9))
        );
    }
}

#[test]
fn a_number_is_drawn_only_for_a_wait() {
    let refused = HttpTransportError::Connect("refused".into());
    let policy = RetryPolicy::idempotent();
    assert!(policy.draws_number(1, &refused));
    assert!(!policy.draws_number(policy.max_attempts, &refused), "no attempt is left");
    assert!(!policy.draws_number(1, &HttpTransportError::Rejected("no".into())));
    let fast = fast(policy);
    assert!(!fast.draws_number(1, &refused), "there is nothing to wait for");
    for seq in [0, 7, u64::MAX] {
        assert_eq!(
            fast.after_failure(1, &refused, Duration::zero(), Duration::zero(), seq),
            RetryStep::WaitThenRetry(Duration::zero())
        );
    }
}
