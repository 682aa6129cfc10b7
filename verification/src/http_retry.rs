//! Retrying outbound requests: which failures are worth repeating, how long to
//! wait, and when to stop.
//!
//! The transport, the clock and the waiting are the host's. What is decided
//! after each failed attempt is decided here.
use crate::duration::{Duration, MAX_NANOS};
use crate::http_transport::HttpTransportError;
use vstd::arithmetic::div_mod::lemma_mod_decreases;
use vstd::arithmetic::power2::{lemma2_to64, lemma_pow2_unfold, pow2};
use vstd::prelude::*;

verus! {

/// How hard to retry, and whether repeating is safe at all.
///
/// Build with [`RetryPolicy::idempotent`] or [`RetryPolicy::undelivered_only`],
/// so that the choice of `retry_delivered` is made by naming the operation's
/// idempotency instead of by setting a flag.
#[derive(Debug, Clone, Copy)]
pub struct RetryPolicy {
    /// Total attempts including the first. `1` disables retrying.
    pub max_attempts: u32,
    /// Delay before the second attempt. Doubles each time, capped by
    /// `max_backoff`, with jitter applied.
    pub initial_backoff: Duration,
    /// Ceiling on a single backoff interval.
    pub max_backoff: Duration,
    /// Ceiling on the whole loop, covering every attempt and every backoff.
    pub total_budget: Option<Duration>,
    /// Whether to retry when the peer may already have acted.
    pub retry_delivered: bool,
}

/// The most doublings of the first backoff.
pub const MAX_DOUBLINGS: u32 = 16;

/// What spreads consecutive sequence numbers apart.
pub const SPREAD: u64 = 0x9E37_79B9_7F4A_7C15;

/// Whether a failure is worth repeating under a policy.
pub open spec fn is_retried(policy: RetryPolicy, e: HttpTransportError) -> bool {
    match e {
        HttpTransportError::Rejected(_) => false,
        HttpTransportError::InvalidRequest(_) => false,
        HttpTransportError::ResponseTooLarge { .. } => false,
        _ => policy.retry_delivered || !crate::http_transport::may_be_delivered(e),
    }
}

/// How often the first backoff is doubled after `completed` attempts.
pub open spec fn doublings(completed: u32) -> nat {
    if completed == 0 {
        0
    } else if completed - 1 > MAX_DOUBLINGS {
        MAX_DOUBLINGS as nat
    } else {
        (completed - 1) as nat
    }
}

/// The longest wait after `completed` attempts, in nanoseconds: the first
/// backoff doubled, no more than a span holds and no more than `max_backoff`.
pub open spec fn longest_wait(policy: RetryPolicy, completed: u32) -> int {
    let doubled = policy.initial_backoff.nanos * pow2(doublings(completed));
    let held = if doubled <= MAX_NANOS {
        doubled
    } else {
        MAX_NANOS as int
    };
    if held <= policy.max_backoff.nanos {
        held
    } else {
        policy.max_backoff.nanos as int
    }
}

/// Where in its window the wait of sequence number `seq` falls.
pub open spec fn spread_of(seq: u64) -> int {
    (seq * SPREAD) % 0x1_0000_0000_0000_0000 / 0x1_0000_0000
}

/// The wait after `completed` attempts, in nanoseconds: whole milliseconds,
/// spread over the window from none up to the longest wait.
pub open spec fn wait_after(policy: RetryPolicy, completed: u32, seq: u64) -> int {
    spread_of(seq) % (longest_wait(policy, completed) / 1_000_000 + 1) * 1_000_000
}

/// What follows a failed attempt.
#[derive(Debug, Clone, Copy, PartialEq, Eq, Structural)]
pub enum RetryStep {
    /// The failure stands.
    Stop,
    /// Wait so long, then send the identical request again.
    WaitThenRetry(Duration),
}

/// Whether the loop ends after `attempt` attempts, the last failing with `e`,
/// `spent` after it began: the attempts are used up, the failure is not worth
/// repeating, or another attempt might overrun the budget.
pub open spec fn is_over(
    policy: RetryPolicy,
    attempt: u32,
    e: HttpTransportError,
    spent: Duration,
    timeout: Duration,
    seq: u64,
) -> bool {
    ||| attempt >= policy.max_attempts
    ||| !is_retried(policy, e)
    ||| policy.total_budget matches Some(budget) && spent.nanos + wait_after(policy, attempt, seq)
        + timeout.nanos > budget.nanos
}

impl RetryPolicy {
    /// Never retry. The honest default for an operation whose idempotency has
    /// not been reasoned about.
    pub fn none() -> (r: Self)
        ensures
            r == (RetryPolicy {
                max_attempts: 1,
                initial_backoff: Duration { nanos: 100_000_000 },
                max_backoff: Duration { nanos: 2_000_000_000 },
                total_budget: None,
                retry_delivered: false,
            }),
    {
        RetryPolicy {
            max_attempts: 1,
            initial_backoff: Duration::from_millis(100),
            max_backoff: Duration::from_secs(2),
            total_budget: None,
            retry_delivered: false,
        }
    }

    /// For an operation that is safe to repeat, such as a JWKS fetch.
    pub fn idempotent() -> (r: Self)
        ensures
            r == (RetryPolicy {
                max_attempts: 3,
                initial_backoff: Duration { nanos: 100_000_000 },
                max_backoff: Duration { nanos: 2_000_000_000 },
                total_budget: None,
                retry_delivered: true,
            }),
    {
        RetryPolicy {
            max_attempts: 3,
            initial_backoff: Duration::from_millis(100),
            max_backoff: Duration::from_secs(2),
            total_budget: None,
            retry_delivered: true,
        }
    }

    /// For an operation that must not be duplicated, such as a token mint.
    ///
    /// Retries only failures that provably never reached the peer.
    pub fn undelivered_only() -> (r: Self)
        ensures
            r == (RetryPolicy {
                max_attempts: 3,
                initial_backoff: Duration { nanos: 50_000_000 },
                max_backoff: Duration { nanos: 500_000_000 },
                total_budget: None,
                retry_delivered: false,
            }),
    {
        RetryPolicy {
            max_attempts: 3,
            initial_backoff: Duration::from_millis(50),
            max_backoff: Duration::from_millis(500),
            total_budget: None,
            retry_delivered: false,
        }
    }

    /// Bound the whole loop, backoff included.
    #[must_use]
    pub fn with_total_budget(self, budget: Duration) -> (r: Self)
        ensures
            r == (RetryPolicy { total_budget: Some(budget), ..self }),
    {
        RetryPolicy { total_budget: Some(budget), ..self }
    }

    /// Cap the number of attempts.
    #[must_use]
    pub fn with_max_attempts(self, attempts: u32) -> (r: Self)
        ensures
            r == (RetryPolicy { max_attempts: attempts, ..self }),
    {
        RetryPolicy { max_attempts: attempts, ..self }
    }

    /// Whether `err` should be retried under this policy.
    ///
    /// A refusal is never worth repeating even though it is safe to, and a
    /// delivered request is only repeated when the caller declared the
    /// operation idempotent.
    pub fn should_retry(&self, err: &HttpTransportError) -> (r: bool)
        ensures
            r == is_retried(*self, *err),
    {
        match err {
            // It will fail identically, and each attempt feeds the host's
            // circuit breaker.
            HttpTransportError::Rejected(_) => false,
            // A malformed request is deterministic.
            HttpTransportError::InvalidRequest(_) => false,
            // A repeat gets the same oversized body.
            HttpTransportError::ResponseTooLarge { .. } => false,
            other => self.retry_delivered || !other.may_have_reached_peer(),
        }
    }

    /// The longest backoff before the attempt after `completed_attempts`: the
    /// initial one, doubled with each attempt, up to the largest.
    pub fn longest_backoff(&self, completed_attempts: u32) -> (r: Duration)
        ensures
            r.nanos == longest_wait(*self, completed_attempts),
    {
        let shift: u32 = if completed_attempts == 0 {
            0
        } else if completed_attempts - 1 > MAX_DOUBLINGS {
            MAX_DOUBLINGS
        } else {
            completed_attempts - 1
        };
        let mut factor: u32 = 1;
        let mut i: u32 = 0;
        proof {
            lemma2_to64();
        }
        while i < shift
            invariant
                i <= shift <= MAX_DOUBLINGS,
                factor == pow2(i as nat),
                factor <= 65536,
                pow2(16) == 65536,
            decreases shift - i,
        {
            proof {
                lemma_pow2_unfold((i + 1) as nat);
                lemma_pow2_most((i + 1) as nat);
            }
            factor = factor * 2;
            i += 1;
        }
        let doubled = self.initial_backoff.saturating_mul(factor);
        if doubled.nanos <= self.max_backoff.nanos {
            doubled
        } else {
            self.max_backoff
        }
    }

    /// Backoff before the attempt after `completed_attempts`, jittered.
    ///
    /// `seq` is a number of its own for every call in a process, so that
    /// concurrent callers do not wake together. The jitter covers the whole
    /// window from zero up to the exponential.
    pub fn backoff_after(&self, completed_attempts: u32, seq: u64) -> (r: Duration)
        ensures
            r.nanos == wait_after(*self, completed_attempts, seq),
    {
        let ceiling = self.longest_backoff(completed_attempts).as_millis();
        let mixed: u64 = ((seq as u128 * SPREAD as u128) % 0x1_0000_0000_0000_0000) as u64;
        let spread: u64 = mixed / 0x1_0000_0000;
        let millis: u128 = spread as u128 % (ceiling + 1);
        proof {
            assert(seq * SPREAD <= u64::MAX * u64::MAX) by (nonlinear_arith)
                requires
                    seq <= u64::MAX,
                    SPREAD <= u64::MAX,
            ;
            lemma_mod_decreases(spread as nat, (ceiling + 1) as nat);
        }
        Duration::from_millis(millis as u64)
    }

    /// Whether a number is drawn for the wait behind `attempt` attempts, the last
    /// failing with `err`: not where there is nothing to wait for.
    pub fn draws_number(&self, attempt: u32, err: &HttpTransportError) -> (r: bool)
        ensures
            r == is_drawn(*self, attempt, *err),
    {
        attempt < self.max_attempts && self.should_retry(err) && self.longest_backoff(
            attempt,
        ).as_millis() > 0
    }

    /// What follows `attempt` attempts, the last failing with `err`.
    ///
    /// `spent` is the time since the first attempt began and `timeout` what
    /// one attempt may take. An attempt that the budget cannot cover is not
    /// started: it would overrun the caller's deadline.
    pub fn after_failure(
        &self,
        attempt: u32,
        err: &HttpTransportError,
        spent: Duration,
        timeout: Duration,
        seq: u64,
    ) -> (r: RetryStep)
        ensures
            r == RetryStep::Stop <==> is_over(*self, attempt, *err, spent, timeout, seq),
            r matches RetryStep::WaitThenRetry(d) ==> d.nanos == wait_after(*self, attempt, seq),
    {
        if attempt >= self.max_attempts || !self.should_retry(err) {
            return RetryStep::Stop;
        }
        let delay = self.backoff_after(attempt, seq);
        match self.total_budget {
            Some(budget) => {
                if spent.nanos > budget.nanos || delay.nanos > budget.nanos - spent.nanos
                    || timeout.nanos > budget.nanos - spent.nanos - delay.nanos {
                    return RetryStep::Stop;
                }
            },
            None => {},
        }
        RetryStep::WaitThenRetry(delay)
    }
}

impl Default for RetryPolicy {
    /// [`RetryPolicy::none`]: retrying is opt-in.
    fn default() -> (r: Self)
        ensures
            r == (RetryPolicy {
                max_attempts: 1,
                initial_backoff: Duration { nanos: 100_000_000 },
                max_backoff: Duration { nanos: 2_000_000_000 },
                total_budget: None,
                retry_delivered: false,
            }),
    {
        RetryPolicy::none()
    }
}

/// Fewer doublings than the most make no more than the most.
proof fn lemma_pow2_most(n: nat)
    requires
        n <= 16,
    ensures
        pow2(n) <= pow2(16),
    decreases 16 - n,
{
    if n < 16 {
        lemma_pow2_most(n + 1);
        lemma_pow2_unfold(n + 1);
    }
}

/// No wait is longer than its window, nor than the first backoff doubled, nor than
/// `max_backoff`. In a window of less than a millisecond there is none.
pub proof fn law_a_wait_is_bounded(policy: RetryPolicy, completed: u32, seq: u64)
    ensures
        0 <= wait_after(policy, completed, seq) <= longest_wait(policy, completed),
        longest_wait(policy, completed) <= policy.initial_backoff.nanos * pow2(
            doublings(completed),
        ),
        longest_wait(policy, completed) <= policy.max_backoff.nanos,
        longest_wait(policy, completed) < 1_000_000 ==> wait_after(policy, completed, seq) == 0,
{
    let ceiling = longest_wait(policy, completed) / 1_000_000;
    assert(policy.initial_backoff.nanos * pow2(doublings(completed)) >= 0) by (nonlinear_arith);
    assert(0 <= spread_of(seq) % (ceiling + 1) <= ceiling);
}

/// Whether a number is drawn for the wait behind `attempt` attempts: where the
/// last is retried, in a window of at least a millisecond.
pub open spec fn is_drawn(policy: RetryPolicy, attempt: u32, err: HttpTransportError) -> bool {
    attempt < policy.max_attempts && is_retried(policy, err) && longest_wait(policy, attempt)
        >= 1_000_000
}

/// Where no number is drawn, any would do: what follows a failure is the same.
pub proof fn law_a_number_not_drawn_does_not_matter(
    policy: RetryPolicy,
    attempt: u32,
    err: HttpTransportError,
    spent: Duration,
    timeout: Duration,
    a: u64,
    b: u64,
)
    requires
        !is_drawn(policy, attempt, err),
    ensures
        is_over(policy, attempt, err, spent, timeout, a) == is_over(
            policy,
            attempt,
            err,
            spent,
            timeout,
            b,
        ),
        !is_over(policy, attempt, err, spent, timeout, a) ==> wait_after(policy, attempt, a)
            == wait_after(policy, attempt, b) == 0,
{
    law_a_wait_is_bounded(policy, attempt, a);
    law_a_wait_is_bounded(policy, attempt, b);
}

/// One failed attempt of a run: how it failed, when, and the sequence number
/// drawn after it.
pub struct Failure {
    /// How the attempt failed.
    pub error: HttpTransportError,
    /// The time since the first attempt began.
    pub spent: Duration,
    /// The number drawn for the wait behind it.
    pub seq: u64,
}

/// Whether `run` is a run of failed attempts under a policy: after each but
/// the last, the loop went on.
pub open spec fn is_run(policy: RetryPolicy, timeout: Duration, run: Seq<Failure>) -> bool {
    forall|i: int|
        0 <= i < run.len() - 1 ==> !is_over(
            policy,
            (i + 1) as u32,
            (#[trigger] run[i]).error,
            run[i].spent,
            timeout,
            run[i].seq,
        )
}

/// No more attempts are made than the policy allows, and always the first.
pub proof fn law_attempts_are_capped(policy: RetryPolicy, timeout: Duration, run: Seq<Failure>)
    requires
        is_run(policy, timeout, run),
        run.len() <= u32::MAX,
    ensures
        run.len() <= 1 || run.len() <= policy.max_attempts,
{
    if run.len() > 1 {
        let i = run.len() - 2;
        assert(!is_over(policy, (i + 1) as u32, run[i].error, run[i].spent, timeout, run[i].seq));
    }
}

/// A request that may have been delivered is repeated only where the policy
/// declares the operation safe to repeat; a refusal, a malformed request and
/// an oversized response never are.
pub proof fn law_a_delivered_request_is_not_repeated(
    policy: RetryPolicy,
    timeout: Duration,
    run: Seq<Failure>,
    i: int,
)
    requires
        is_run(policy, timeout, run),
        0 <= i < run.len() - 1,
    ensures
        crate::http_transport::may_be_delivered(run[i].error) ==> policy.retry_delivered,
        !(run[i].error is Rejected),
        !(run[i].error is InvalidRequest),
        !(run[i].error is ResponseTooLarge),
{
    assert(!is_over(policy, (i + 1) as u32, run[i].error, run[i].spent, timeout, run[i].seq));
}

/// Whatever attempt is started behind another could take its full timeout and
/// still end within the budget.
pub proof fn law_no_attempt_can_overrun_the_budget(
    policy: RetryPolicy,
    timeout: Duration,
    run: Seq<Failure>,
    i: int,
)
    requires
        is_run(policy, timeout, run),
        0 <= i < run.len() - 1,
    ensures
        policy.total_budget matches Some(budget) ==> run[i].spent.nanos + wait_after(
            policy,
            (i + 1) as u32,
            run[i].seq,
        ) + timeout.nanos <= budget.nanos,
{
    assert(!is_over(policy, (i + 1) as u32, run[i].error, run[i].spent, timeout, run[i].seq));
}

/// Which failures a policy answers with another attempt. One that the host refused, one
/// of a malformed request and one of an oversized answer come back the same and are never
/// repeated; any other is, where the policy repeats what may have been delivered, or where
/// it cannot have been.
pub proof fn law_which_failures_are_retried(policy: RetryPolicy, e: HttpTransportError)
    ensures
        e is Rejected || e is InvalidRequest || e is ResponseTooLarge ==> !is_retried(policy, e),
        !(e is Rejected || e is InvalidRequest || e is ResponseTooLarge) && policy.retry_delivered
            ==> is_retried(policy, e),
        !(e is Rejected || e is InvalidRequest || e is ResponseTooLarge)
            && !policy.retry_delivered ==> (is_retried(policy, e)
            <==> !crate::http_transport::may_be_delivered(e)),
{
}

/// How the ceiling of a wait grows: the first wait is up to the initial backoff, each one
/// behind it up to twice the one before, until sixteen doublings are made; and none is
/// above the greatest backoff.
pub proof fn law_the_ceiling_doubles_up_to_a_bound(policy: RetryPolicy, completed: u32)
    requires
        policy.initial_backoff.nanos <= MAX_NANOS,
        policy.max_backoff.nanos <= MAX_NANOS,
    ensures
        longest_wait(policy, 0) == longest_wait(policy, 1),
        policy.initial_backoff.nanos <= policy.max_backoff.nanos ==> longest_wait(policy, 1)
            == policy.initial_backoff.nanos,
        policy.initial_backoff.nanos > policy.max_backoff.nanos ==> longest_wait(policy, 1)
            == policy.max_backoff.nanos,
        1 <= completed <= 16 && 2 * longest_wait(policy, completed) <= policy.max_backoff.nanos
            ==> longest_wait(policy, (completed + 1) as u32) == 2 * longest_wait(policy, completed),
        1 <= completed <= 16 && 2 * longest_wait(policy, completed) > policy.max_backoff.nanos
            ==> longest_wait(policy, (completed + 1) as u32) == policy.max_backoff.nanos,
        17 <= completed ==> longest_wait(policy, completed) == longest_wait(policy, 17),
{
    lemma2_to64();
    let n = policy.initial_backoff.nanos as int;
    assert(n * pow2(0) == n) by {
        assert(pow2(0) == 1);
    }
    if 1 <= completed <= 16 {
        let d = doublings(completed);
        lemma_pow2_unfold((d + 1) as nat);
        assert(n * pow2((d + 1) as nat) == 2 * (n * pow2(d))) by (nonlinear_arith)
            requires
                pow2((d + 1) as nat) == 2 * pow2(d),
        ;
    }
}

/// The wait itself is a whole number of milliseconds, spread by the number that is drawn
/// over nought up to the ceiling: what is drawn, times the spreading factor, cut to its
/// low sixty-four bits, of which the high thirty-two are taken by the number of
/// milliseconds that there are to choose from.
pub proof fn law_a_wait_is_spread_over_milliseconds(policy: RetryPolicy, completed: u32, seq: u64)
    ensures
        ({
            let steps = longest_wait(policy, completed) / 1_000_000 + 1;
            let product = seq as int * 0x9E37_79B9_7F4A_7C15int;
            let low = product - (product / 0x1_0000_0000_0000_0000) * 0x1_0000_0000_0000_0000;
            let high = low / 0x1_0000_0000;
            &&& 0 <= high < 0x1_0000_0000
            &&& wait_after(policy, completed, seq) == (high - high / steps * steps) * 1_000_000
        }),
{
    let steps = longest_wait(policy, completed) / 1_000_000 + 1;
    law_a_wait_is_bounded(policy, completed, seq);
    let product = seq as int * 0x9E37_79B9_7F4A_7C15int;
    assert(product == seq * SPREAD);
    assert(product >= 0) by (nonlinear_arith)
        requires
            product == seq as int * 0x9E37_79B9_7F4A_7C15int,
    ;
    let high = spread_of(seq);
    assert(longest_wait(policy, completed) >= 0);
    vstd::arithmetic::div_mod::lemma_fundamental_div_mod(high, steps);
    assert(steps * (high / steps) == high / steps * steps) by (nonlinear_arith);
}

/// A failure is answered with another attempt exactly where one is left, the failure is
/// one that is retried, and the time that was spent, the wait and one more timeout are
/// together within the budget, where there is one.
pub proof fn law_when_a_failure_stands(
    policy: RetryPolicy,
    attempt: u32,
    e: HttpTransportError,
    spent: Duration,
    timeout: Duration,
    seq: u64,
)
    ensures
        !is_over(policy, attempt, e, spent, timeout, seq) <==> {
            &&& attempt < policy.max_attempts
            &&& is_retried(policy, e)
            &&& policy.total_budget is None || spent.nanos + wait_after(policy, attempt, seq)
                + timeout.nanos <= policy.total_budget->Some_0.nanos
        },
{
}

/// A number is drawn exactly where there is a wait to spread: another attempt is left, the
/// failure is retried, and the ceiling is at least a millisecond.
pub proof fn law_when_a_number_is_drawn(policy: RetryPolicy, attempt: u32, err: HttpTransportError)
    ensures
        attempt >= policy.max_attempts ==> !is_drawn(policy, attempt, err),
        !is_retried(policy, err) ==> !is_drawn(policy, attempt, err),
        longest_wait(policy, attempt) < 1_000_000 ==> !is_drawn(policy, attempt, err),
        attempt < policy.max_attempts && is_retried(policy, err) && longest_wait(policy, attempt)
            >= 1_000_000 ==> is_drawn(policy, attempt, err),
{
}

} // verus!
