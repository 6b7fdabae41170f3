//! Instants and spans of time.
use vstd::prelude::*;

verus! {

/// Nanoseconds in a second.
pub const NANOS: i128 = 1_000_000_000;

/// An instant, in nanoseconds since the Unix epoch, UTC.
#[derive(Clone, Copy, Debug, PartialEq, Eq, PartialOrd, Ord, Structural)]
pub struct Timestamp {
    pub nanos: i128,
}

/// Whole seconds from `earlier` to `later`, zero when they are out of order.
pub open spec fn span_secs(later: Timestamp, earlier: Timestamp) -> u64 {
    let nanos = later.nanos - earlier.nanos;
    if nanos <= 0 {
        0
    } else if nanos / 1_000_000_000 > u64::MAX {
        u64::MAX
    } else {
        (nanos / 1_000_000_000) as u64
    }
}

/// Whether `now` lies at least `secs` after `then`.
pub open spec fn has_passed(now: Timestamp, then: Timestamp, secs: u64) -> bool {
    now.nanos - then.nanos >= secs * NANOS
}

/// The instant `secs` before `at`, no earlier than the first there is.
pub open spec fn rewound(at: Timestamp, secs: u64) -> Timestamp {
    let nanos = at.nanos - secs * NANOS;
    Timestamp {
        nanos: if nanos < i128::MIN {
            i128::MIN
        } else {
            nanos as i128
        },
    }
}

/// The second an instant falls in, counted from the epoch.
pub open spec fn epoch_secs(at: Timestamp) -> int {
    at.nanos as int / 1_000_000_000
}

impl Timestamp {
    /// The instant a whole number of seconds after the epoch.
    pub fn from_secs(secs: i64) -> (r: Timestamp)
        ensures
            r.nanos == secs * NANOS,
    {
        Timestamp { nanos: secs as i128 * NANOS }
    }

    /// Whole seconds since `earlier`, zero when the two are out of order.
    pub fn secs_since(self, earlier: Timestamp) -> (r: u64)
        ensures
            r == span_secs(self, earlier),
    {
        if self.nanos <= earlier.nanos {
            return 0;
        }
        let gap: u128 = Timestamp::gap(self.nanos, earlier.nanos);
        let secs: u128 = gap / 1_000_000_000;
        if secs > u64::MAX as u128 {
            u64::MAX
        } else {
            secs as u64
        }
    }

    /// Nanoseconds from `low` up to `high`. The distance always fits.
    fn gap(high: i128, low: i128) -> (r: u128)
        requires
            low <= high,
        ensures
            r == high - low,
    {
        if low >= 0 {
            (high - low) as u128
        } else if high < 0 {
            (high - low) as u128
        } else {
            let below: u128 = (-(low + 1)) as u128 + 1;
            high as u128 + below
        }
    }

    /// Whole milliseconds from `earlier` to here, zero when the two are out of
    /// order.
    pub fn millis_since(self, earlier: Timestamp) -> (r: u128)
        ensures
            r == (if self.nanos <= earlier.nanos {
                0
            } else {
                (self.nanos - earlier.nanos) / 1_000_000
            }),
    {
        if self.nanos <= earlier.nanos {
            return 0;
        }
        Timestamp::gap(self.nanos, earlier.nanos) / 1_000_000
    }

    /// Whether at least `secs` have gone by since `then`.
    pub fn is_past(self, then: Timestamp, secs: u64) -> (r: bool)
        ensures
            r == has_passed(self, then, secs),
    {
        let span: i128 = secs as i128 * NANOS;
        if self.nanos < then.nanos {
            return false;
        }
        Timestamp::gap(self.nanos, then.nanos) >= span as u128
    }

    /// The instant `secs` earlier.
    pub fn before(self, secs: u64) -> (r: Timestamp)
        ensures
            r == rewound(self, secs),
    {
        let span: i128 = secs as i128 * NANOS;
        if self.nanos < i128::MIN + span {
            Timestamp { nanos: i128::MIN }
        } else {
            Timestamp { nanos: self.nanos - span }
        }
    }

    /// The second this instant falls in, counted from the epoch.
    pub fn secs(self) -> (r: i128)
        ensures
            r == epoch_secs(self),
    {
        if self.nanos >= 0 {
            self.nanos / NANOS
        } else {
            let below: i128 = -(self.nanos + 1);
            -(below / NANOS) - 1
        }
    }
}

/// Rewinding and asking how long ago that was gives the span back.
pub proof fn law_rewinding_is_undone(at: Timestamp, secs: u64)
    requires
        at.nanos - secs * NANOS >= i128::MIN,
    ensures
        span_secs(at, rewound(at, secs)) == secs,
        has_passed(at, rewound(at, secs), secs),
{
}

} // verus!
