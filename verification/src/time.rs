//! Points and spans of time, counted in nanoseconds.
//!
//! The transport never reads a clock: the host hands in an [`Instant`] with
//! every call. Instants count from an origin of the host's choosing, so the
//! two peers need no common clock. Both types cover about 584 years; sums and
//! products past that range stop at its end.

use vstd::prelude::*;

verus! {

/// A span of time.
#[derive(Debug, Clone, Copy, PartialEq, Eq, PartialOrd, Ord, Hash, Structural)]
pub struct Duration {
    /// Length in nanoseconds.
    pub nanos: u64,
}

/// A point in time on the host's monotonic clock.
#[derive(Debug, Clone, Copy, PartialEq, Eq, PartialOrd, Ord, Hash, Structural)]
pub struct Instant {
    /// Nanoseconds since the host's origin.
    pub nanos: u64,
}

/// `n`, or the largest `u64` when `n` is larger.
pub open spec fn capped(n: int) -> u64 {
    if n > u64::MAX {
        u64::MAX
    } else {
        n as u64
    }
}

/// The smaller of `n` and the largest `u64`, as a `u64`.
pub fn cap_u64(n: u128) -> (r: u64)
    ensures
        r == capped(n as int),
{
    if n > u64::MAX as u128 {
        u64::MAX
    } else {
        n as u64
    }
}

impl Duration {
    /// The span of `us` microseconds.
    #[verifier::allow_in_spec]
    pub fn from_micros(us: u64) -> (d: Duration)
        returns
            (Duration { nanos: capped(us * 1_000) }),
    {
        Duration { nanos: cap_u64(us as u128 * 1_000) }
    }

    /// The span of `ms` milliseconds.
    #[verifier::allow_in_spec]
    pub fn from_millis(ms: u64) -> (d: Duration)
        returns
            (Duration { nanos: capped(ms * 1_000_000) }),
    {
        Duration { nanos: cap_u64(ms as u128 * 1_000_000) }
    }

    /// Whole microseconds in the span.
    #[verifier::allow_in_spec]
    pub fn as_micros(self) -> (us: u64)
        returns
            self.nanos / 1_000,
    {
        self.nanos / 1_000
    }

    /// Whole milliseconds in the span.
    #[verifier::allow_in_spec]
    pub fn as_millis(self) -> (ms: u64)
        returns
            self.nanos / 1_000_000,
    {
        self.nanos / 1_000_000
    }

    /// Both spans one after the other.
    #[verifier::allow_in_spec]
    pub fn saturating_add(self, other: Duration) -> (d: Duration)
        returns
            (Duration { nanos: capped(self.nanos + other.nanos) }),
    {
        Duration { nanos: cap_u64(self.nanos as u128 + other.nanos as u128) }
    }

    /// `times` copies of the span, one after the other.
    #[verifier::allow_in_spec]
    pub fn saturating_mul(self, times: u64) -> (d: Duration)
        returns
            (Duration { nanos: capped(self.nanos * times) }),
    {
        assert(self.nanos * times <= u64::MAX * u64::MAX) by (nonlinear_arith)
            requires
                self.nanos <= u64::MAX,
                times <= u64::MAX,
        ;
        Duration { nanos: cap_u64(self.nanos as u128 * times as u128) }
    }

    /// Half of the span, rounded down.
    #[verifier::allow_in_spec]
    pub fn half(self) -> (d: Duration)
        returns
            (Duration { nanos: self.nanos / 2 }),
    {
        Duration { nanos: self.nanos / 2 }
    }

    /// The span, raised to `floor` when it is shorter.
    #[verifier::allow_in_spec]
    pub fn at_least(self, floor: Duration) -> (d: Duration)
        returns
            (if self.nanos < floor.nanos {
                floor
            } else {
                self
            }),
    {
        if self.nanos < floor.nanos {
            floor
        } else {
            self
        }
    }

    /// The span, cut to `ceiling` when it is longer.
    #[verifier::allow_in_spec]
    pub fn at_most(self, ceiling: Duration) -> (d: Duration)
        returns
            (if self.nanos > ceiling.nanos {
                ceiling
            } else {
                self
            }),
    {
        if self.nanos > ceiling.nanos {
            ceiling
        } else {
            self
        }
    }
}

impl Instant {
    /// The span from `earlier` to `self`; zero when `earlier` is not earlier.
    #[verifier::allow_in_spec]
    pub fn saturating_duration_since(self, earlier: Instant) -> (d: Duration)
        returns
            (Duration {
                nanos: if self.nanos > earlier.nanos {
                    (self.nanos - earlier.nanos) as u64
                } else {
                    0
                },
            }),
    {
        if self.nanos > earlier.nanos {
            Duration { nanos: self.nanos - earlier.nanos }
        } else {
            Duration { nanos: 0 }
        }
    }

    /// The instant `d` after `self`.
    #[verifier::allow_in_spec]
    pub fn after(self, d: Duration) -> (t: Instant)
        returns
            (Instant { nanos: capped(self.nanos + d.nanos) }),
    {
        Instant { nanos: cap_u64(self.nanos as u128 + d.nanos as u128) }
    }

    /// The instant `d` before `self`, if the clock reaches that far back.
    #[verifier::allow_in_spec]
    pub fn checked_sub(self, d: Duration) -> (t: Option<Instant>)
        returns
            (if d.nanos <= self.nanos {
                Some(Instant { nanos: (self.nanos - d.nanos) as u64 })
            } else {
                None::<Instant>
            }),
    {
        if d.nanos <= self.nanos {
            Some(Instant { nanos: self.nanos - d.nanos })
        } else {
            None
        }
    }
}

} // verus!
