//! Spans of time.
use vstd::prelude::*;

verus! {

/// The most nanoseconds that a span holds.
pub const MAX_NANOS: u128 = 18_446_744_073_709_551_615_999_999_999;

/// A span of time, to the nanosecond.
#[derive(Debug, Clone, Copy, PartialEq, Eq, PartialOrd, Ord, Hash, Structural)]
pub struct Duration {
    /// How many nanoseconds the span holds.
    pub nanos: u128,
}

impl Duration {
    /// A span of no time.
    pub fn zero() -> (r: Duration)
        ensures
            r.nanos == 0,
    {
        Duration { nanos: 0 }
    }

    /// A span of whole seconds.
    pub fn from_secs(secs: u64) -> (r: Duration)
        ensures
            r.nanos == secs * 1_000_000_000,
    {
        Duration { nanos: secs as u128 * 1_000_000_000 }
    }

    /// A span of whole milliseconds.
    pub fn from_millis(millis: u64) -> (r: Duration)
        ensures
            r.nanos == millis * 1_000_000,
    {
        Duration { nanos: millis as u128 * 1_000_000 }
    }

    /// How many whole milliseconds the span holds.
    pub fn as_millis(&self) -> (r: u128)
        ensures
            r == self.nanos / 1_000_000,
    {
        self.nanos / 1_000_000
    }

    /// `k` times the span, but no more than [`MAX_NANOS`].
    pub fn saturating_mul(&self, k: u32) -> (r: Duration)
        ensures
            r.nanos == (if self.nanos * k <= MAX_NANOS {
                self.nanos * k
            } else {
                MAX_NANOS as int
            }),
    {
        let n = self.nanos;
        if k == 0 {
            return Duration { nanos: 0 };
        }
        let k: u128 = k as u128;
        let most = MAX_NANOS / k;
        if n <= most {
            assert(n * k <= MAX_NANOS) by (nonlinear_arith)
                requires
                    n <= most,
                    most == MAX_NANOS / k,
                    k > 0,
            ;
            Duration { nanos: n * k }
        } else {
            assert(n * k > MAX_NANOS) by (nonlinear_arith)
                requires
                    n > most,
                    most == MAX_NANOS / k,
                    k > 0,
            ;
            Duration { nanos: MAX_NANOS }
        }
    }
}

} // verus!
