//! Turning readings into what changed between them.
//!
//! Counters only ever grow, so what they say lies in the difference between two
//! readings. Everything here decides whether that difference means anything.
use vstd::prelude::*;

use crate::number::Real;
use crate::sys::SysReading;

verus! {

/// Why a rate could not be computed. Not an error: "there is no honest rate yet"
/// is an answer.
#[derive(Clone, Copy, Debug, PartialEq, Eq, Structural)]
pub enum RateGap {
    /// Every lifetime counter restarted at zero.
    Rebooted,
    /// A counter went backwards without a reboot.
    CounterWentBackwards,
    /// The readings are out of order, or the clock was set back.
    NoElapsedTime,
}

/// CPU ticks over an interval.
#[derive(Clone, Copy, Debug, PartialEq, Eq, Structural)]
pub struct TickShare {
    pub busy: u64,
    pub total: u64,
}

/// What the counters did between two readings.
#[derive(Clone, Copy, Debug, PartialEq, Eq, Structural)]
pub struct CounterRates {
    pub elapsed_secs: Real,
    /// Pages swapped in over the interval.
    pub swapins: u64,
    /// Pages swapped out over the interval.
    pub swapouts: u64,
    /// The share of core time spent running. `None` when the readings cannot
    /// tell; the swap counts stand all the same.
    pub cpu_utilization: Option<TickShare>,
}

/// The positive, finite spans.
pub open spec fn is_span(elapsed_secs: Real) -> bool {
    elapsed_secs.finite() && elapsed_secs.place() > 0
}

/// Why there is no rate between two readings, if there is none. A reboot is
/// looked for first: it explains smaller counters.
pub open spec fn gap_between(prev: SysReading, curr: SysReading, elapsed: bool) -> Option<RateGap> {
    if prev.boot_time_secs != curr.boot_time_secs {
        Some(RateGap::Rebooted)
    } else if !elapsed {
        Some(RateGap::NoElapsedTime)
    } else if curr.swapins < prev.swapins || curr.swapouts < prev.swapouts {
        Some(RateGap::CounterWentBackwards)
    } else {
        None
    }
}

/// The ticks between two readings, when both recorded them, neither counter
/// fell, time went by, and no more of it was idle than there was.
pub open spec fn ticks_between(prev: SysReading, curr: SysReading) -> Option<TickShare> {
    match (prev.cpu_ticks_total, prev.cpu_ticks_idle, curr.cpu_ticks_total, curr.cpu_ticks_idle) {
        (Some(pt), Some(pi), Some(ct), Some(ci)) => if pt < ct && pi <= ci && ci - pi <= ct - pt {
            Some(TickShare { busy: ((ct - pt) - (ci - pi)) as u64, total: (ct - pt) as u64 })
        } else {
            None
        },
        _ => None,
    }
}

/// Find out why there is no rate, given whether time went by.
pub fn counter_gap(prev: &SysReading, curr: &SysReading, elapsed: bool) -> (r: Option<RateGap>)
    ensures
        r == gap_between(*prev, *curr, elapsed),
{
    if prev.boot_time_secs != curr.boot_time_secs {
        return Some(RateGap::Rebooted);
    }
    if !elapsed {
        return Some(RateGap::NoElapsedTime);
    }
    if curr.swapins < prev.swapins || curr.swapouts < prev.swapouts {
        return Some(RateGap::CounterWentBackwards);
    }
    None
}

/// What changed between two readings taken `elapsed_secs` apart, the earlier one
/// first.
pub fn counter_rates(prev: &SysReading, curr: &SysReading, elapsed_secs: Real) -> (r: Result<
    CounterRates,
    RateGap,
>)
    ensures
        match r {
            Err(gap) => gap_between(*prev, *curr, is_span(elapsed_secs)) == Some(gap),
            Ok(rates) => {
                &&& gap_between(*prev, *curr, is_span(elapsed_secs)) is None
                &&& rates == (CounterRates {
                    elapsed_secs,
                    swapins: (curr.swapins - prev.swapins) as u64,
                    swapouts: (curr.swapouts - prev.swapouts) as u64,
                    cpu_utilization: ticks_between(*prev, *curr),
                })
            },
        },
{
    let zero = Real { bits: 0 };
    let elapsed = elapsed_secs.is_finite() && zero.is_below(elapsed_secs);
    match counter_gap(prev, curr, elapsed) {
        Some(gap) => Err(gap),
        None => Ok(
            CounterRates {
                elapsed_secs,
                swapins: curr.swapins - prev.swapins,
                swapouts: curr.swapouts - prev.swapouts,
                cpu_utilization: cpu_utilization(prev, curr),
            },
        ),
    }
}

/// The share of core time spent running between two readings.
///
/// Apart from the swap counters on purpose: an anomaly in the ticks voids the
/// ticks alone.
pub fn cpu_utilization(prev: &SysReading, curr: &SysReading) -> (r: Option<TickShare>)
    ensures
        r == ticks_between(*prev, *curr),
{
    match (prev.cpu_ticks_total, prev.cpu_ticks_idle, curr.cpu_ticks_total, curr.cpu_ticks_idle) {
        (Some(pt), Some(pi), Some(ct), Some(ci)) => {
            if ct < pt || ci < pi {
                return None;
            }
            let total: u64 = ct - pt;
            let idle: u64 = ci - pi;
            if total == 0 || idle > total {
                return None;
            }
            Some(TickShare { busy: total - idle, total })
        },
        _ => None,
    }
}

/// A share is a share: never more than the whole, and the whole is never
/// nothing.
pub proof fn law_utilization_is_a_fraction(prev: SysReading, curr: SysReading)
    ensures
        ticks_between(prev, curr) matches Some(t) ==> t.busy <= t.total && t.total > 0,
{
}

/// A reboot is reported as a reboot, however the counters moved.
pub proof fn law_a_reboot_explains_itself(prev: SysReading, curr: SysReading, elapsed: bool)
    requires
        prev.boot_time_secs != curr.boot_time_secs,
    ensures
        gap_between(prev, curr, elapsed) == Some(RateGap::Rebooted),
{
}

/// Why there is no rate: a boot in between, else no time gone by, else a swap
/// counter that fell; and with none of these there is one.
pub proof fn law_when_there_is_no_rate(prev: SysReading, curr: SysReading, elapsed: bool)
    ensures
        ({
            let gap = gap_between(prev, curr, elapsed);
            let booted = prev.boot_time_secs != curr.boot_time_secs;
            let fell = curr.swapins < prev.swapins || curr.swapouts < prev.swapouts;
            &&& gap == Some(RateGap::Rebooted) <==> booted
            &&& gap == Some(RateGap::NoElapsedTime) <==> !booted && !elapsed
            &&& gap == Some(RateGap::CounterWentBackwards) <==> !booted && elapsed && fell
            &&& gap is None <==> !booted && elapsed && !fell
        }),
{
}

/// A span is a number of seconds above zero.
pub proof fn law_what_is_a_span(elapsed_secs: Real)
    ensures
        is_span(elapsed_secs) <==> elapsed_secs.finite() && (Real { bits: 0 }).below(elapsed_secs),
{
}

/// What was idle and what was busy make up the whole, where both readings counted,
/// the whole rose, and what was idle rose by no more than that.
pub proof fn law_busy_is_what_was_not_idle(prev: SysReading, curr: SysReading)
    ensures
        ticks_between(prev, curr) matches Some(t) ==> {
            &&& prev.cpu_ticks_total matches Some(a) && curr.cpu_ticks_total matches Some(b)
                && t.total == b - a
            &&& prev.cpu_ticks_idle matches Some(a) && curr.cpu_ticks_idle matches Some(b)
                && t.busy + (b - a) == t.total
        },
        (prev.cpu_ticks_total matches Some(pt) && curr.cpu_ticks_total matches Some(ct)
            && prev.cpu_ticks_idle matches Some(pi) && curr.cpu_ticks_idle matches Some(ci) && pt
            < ct && pi <= ci && ci - pi <= ct - pt) <==> ticks_between(prev, curr) is Some,
{
}

} // verus!
