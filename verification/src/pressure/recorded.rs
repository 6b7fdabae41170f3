//! What each sample and each census adds to what is known of a dimension.
use vstd::prelude::*;

use super::config::Dimension;
use super::series::{from_kills, killed, observed, Measure, Observation};
use crate::census::{stale_in, AgentSession, Census};
use crate::rates::TickShare;
use crate::sample::Sample;

verus! {

/// Nothing is known of any dimension before anything was looked at.
pub proof fn law_nothing_is_known_at_first(d: Dimension, min_life_secs: u64)
    ensures
        observed(d, Seq::empty(), Seq::empty(), min_life_secs).len() == 0,
{
}

/// A sample adds the swap in use, in bytes, and nothing of what came before it
/// changes.
pub proof fn law_a_sample_adds_its_swap(
    samples: Seq<Sample>,
    s: Sample,
    censuses: Seq<Census>,
    min_life_secs: u64,
)
    ensures
        observed(Dimension::Swap, samples.push(s), censuses, min_life_secs) == observed(
            Dimension::Swap,
            samples,
            censuses,
            min_life_secs,
        ).push(Observation { at: s.sampled_at, measure: Measure::Whole(s.swap_used_bytes) }),
{
    assert(samples.push(s).drop_last() =~= samples);
}

/// A sample adds the memory that can be had without swapping: the free pages and
/// the three kinds that the kernel may discard, in bytes.
pub proof fn law_a_sample_adds_its_available_memory(
    samples: Seq<Sample>,
    s: Sample,
    censuses: Seq<Census>,
    min_life_secs: u64,
)
    ensures
        ({
            let bytes = (s.pages_free + s.pages_speculative + s.pages_purgeable + s.pages_external)
                * s.page_size;
            observed(Dimension::Memory, samples.push(s), censuses, min_life_secs) == observed(
                Dimension::Memory,
                samples,
                censuses,
                min_life_secs,
            ).push(
                Observation {
                    at: s.sampled_at,
                    measure: Measure::Whole(
                        if bytes > u64::MAX {
                            u64::MAX
                        } else {
                            bytes as u64
                        },
                    ),
                },
            )
        }),
{
    assert(samples.push(s).drop_last() =~= samples);
}

/// A sample adds what is free on its first volume, the data volume, and nothing
/// where it has no volume. No other volume has a say.
pub proof fn law_a_sample_adds_its_data_volume(
    samples: Seq<Sample>,
    s: Sample,
    censuses: Seq<Census>,
    min_life_secs: u64,
)
    ensures
        ({
            let before = observed(Dimension::Disk, samples, censuses, min_life_secs);
            observed(Dimension::Disk, samples.push(s), censuses, min_life_secs)
                == if s.volumes@.len() > 0 {
                before.push(
                    Observation {
                        at: s.sampled_at,
                        measure: Measure::Whole(s.volumes@[0].avail_bytes),
                    },
                )
            } else {
                before
            }
        }),
{
    assert(samples.push(s).drop_last() =~= samples);
}

/// The disk series follows the data volume alone: histories that agree on the
/// times and on what is free on the first volume say the same of disk, whatever
/// else is mounted.
pub proof fn law_other_volumes_say_nothing(
    a: Seq<Sample>,
    b: Seq<Sample>,
    censuses: Seq<Census>,
    others: Seq<Census>,
    min_life_secs: u64,
)
    requires
        a.len() == b.len(),
        forall|i: int|
            0 <= i < a.len() ==> {
                &&& (#[trigger] a[i]).sampled_at == b[i].sampled_at
                &&& a[i].volumes@.len() > 0 <==> b[i].volumes@.len() > 0
                &&& a[i].volumes@.len() > 0 ==> a[i].volumes@[0].avail_bytes
                    == b[i].volumes@[0].avail_bytes
            },
    ensures
        observed(Dimension::Disk, a, censuses, min_life_secs) == observed(
            Dimension::Disk,
            b,
            others,
            min_life_secs,
        ),
    decreases a.len(),
{
    if a.len() > 0 {
        let n = a.len() - 1;
        let x = a.drop_last();
        let y = b.drop_last();
        assert(a[n].sampled_at == b[n].sampled_at);
        assert forall|i: int| 0 <= i < x.len() implies {
            &&& (#[trigger] x[i]).sampled_at == y[i].sampled_at
            &&& x[i].volumes@.len() > 0 <==> y[i].volumes@.len() > 0
            &&& x[i].volumes@.len() > 0 ==> x[i].volumes@[0].avail_bytes
                == y[i].volumes@[0].avail_bytes
        } by {
            assert(a[i].sampled_at == b[i].sampled_at);
        }
        law_other_volumes_say_nothing(x, y, censuses, others, min_life_secs);
        law_a_sample_adds_its_data_volume(x, a[n], censuses, min_life_secs);
        law_a_sample_adds_its_data_volume(y, b[n], others, min_life_secs);
        assert(x.push(a[n]) =~= a);
        assert(y.push(b[n]) =~= b);
    }
}

/// A sample adds the kernel's own words, as far as they were recorded: a pressure
/// level above zero, a thermal level, a free percentage.
pub proof fn law_a_sample_adds_what_the_kernel_said(
    samples: Seq<Sample>,
    s: Sample,
    censuses: Seq<Census>,
    min_life_secs: u64,
)
    ensures
        ({
            let before = observed(Dimension::KernelPressure, samples, censuses, min_life_secs);
            observed(Dimension::KernelPressure, samples.push(s), censuses, min_life_secs)
                == if s.memory_pressure_level > 0 {
                before.push(
                    Observation {
                        at: s.sampled_at,
                        measure: Measure::Whole(s.memory_pressure_level as u64),
                    },
                )
            } else {
                before
            }
        }),
        ({
            let before = observed(Dimension::Thermal, samples, censuses, min_life_secs);
            observed(Dimension::Thermal, samples.push(s), censuses, min_life_secs)
                == match s.thermal_pressure_level {
                Some(l) => before.push(
                    Observation { at: s.sampled_at, measure: Measure::Whole(l as u64) },
                ),
                None => before,
            }
        }),
        ({
            let before = observed(Dimension::KernelFree, samples, censuses, min_life_secs);
            observed(Dimension::KernelFree, samples.push(s), censuses, min_life_secs)
                == match s.kernel_free_percent {
                Some(p) => before.push(
                    Observation { at: s.sampled_at, measure: Measure::Whole(p as u64) },
                ),
                None => before,
            }
        }),
{
    assert(samples.push(s).drop_last() =~= samples);
}

/// A sample adds the pages the compressor holds, with their size, and the time
/// since the machine booted: whole seconds, none where the clock is behind.
pub proof fn law_a_sample_adds_its_pool_and_its_uptime(
    samples: Seq<Sample>,
    s: Sample,
    censuses: Seq<Census>,
    min_life_secs: u64,
)
    ensures
        observed(Dimension::Compressor, samples.push(s), censuses, min_life_secs) == observed(
            Dimension::Compressor,
            samples,
            censuses,
            min_life_secs,
        ).push(
            Observation {
                at: s.sampled_at,
                measure: Measure::Pages { pages: s.pages_compressor, page_size: s.page_size },
            },
        ),
        ({
            let up = s.sampled_at.nanos as int / 1_000_000_000 - s.boot_time_secs;
            observed(Dimension::Uptime, samples.push(s), censuses, min_life_secs) == observed(
                Dimension::Uptime,
                samples,
                censuses,
                min_life_secs,
            ).push(
                Observation {
                    at: s.sampled_at,
                    measure: Measure::Days {
                        secs: if up < 0 {
                            0
                        } else {
                            up as i128
                        },
                    },
                },
            )
        }),
{
    assert(samples.push(s).drop_last() =~= samples);
}

/// Whether counters of two samples can be compared: one boot, a later clock by a
/// millisecond at least, and no counter that fell.
pub open spec fn comparable_counters(p: Sample, s: Sample) -> bool {
    &&& p.boot_time_secs == s.boot_time_secs
    &&& s.sampled_at.nanos - p.sampled_at.nanos >= 1_000_000
    &&& s.swapins >= p.swapins
    &&& s.swapouts >= p.swapouts
}

/// A sample after another adds the pages swapped in and out between the two, over
/// the milliseconds between them, where the counters can be compared. The first
/// sample adds nothing.
pub proof fn law_two_samples_make_a_churn(
    samples: Seq<Sample>,
    s: Sample,
    censuses: Seq<Census>,
    min_life_secs: u64,
)
    ensures
        ({
            let p = samples.last();
            let before = observed(Dimension::Thrash, samples, censuses, min_life_secs);
            observed(Dimension::Thrash, samples.push(s), censuses, min_life_secs)
                == if samples.len() > 0 && comparable_counters(p, s) {
                before.push(
                    Observation {
                        at: s.sampled_at,
                        measure: Measure::Churn {
                            swapins: (s.swapins - p.swapins) as u64,
                            swapouts: (s.swapouts - p.swapouts) as u64,
                            millis: ((s.sampled_at.nanos - p.sampled_at.nanos)
                                / 1_000_000) as u128,
                        },
                    },
                )
            } else {
                before
            }
        }),
{
    assert(samples.push(s).drop_last() =~= samples);
    if samples.len() > 0 {
        assert(samples.push(s)[samples.len() - 1] == samples.last());
    }
}

/// A sample after another adds the share of the ticks between the two that was not
/// idle, where the counters can be compared, both samples have the ticks, some
/// went by, and no more were idle than went by.
pub proof fn law_two_samples_make_a_utilization(
    samples: Seq<Sample>,
    s: Sample,
    censuses: Seq<Census>,
    min_life_secs: u64,
)
    ensures
        ({
            let p = samples.last();
            let before = observed(Dimension::Cpu, samples, censuses, min_life_secs);
            let after = observed(Dimension::Cpu, samples.push(s), censuses, min_life_secs);
            if samples.len() > 0 && comparable_counters(p, s) && p.cpu_ticks_total is Some
                && p.cpu_ticks_idle is Some && s.cpu_ticks_total is Some && s.cpu_ticks_idle is Some
            {
                let total = s.cpu_ticks_total->0 - p.cpu_ticks_total->0;
                let idle = s.cpu_ticks_idle->0 - p.cpu_ticks_idle->0;
                after == if 0 <= idle <= total && total > 0 {
                    before.push(
                        Observation {
                            at: s.sampled_at,
                            measure: Measure::Share(
                                TickShare { busy: (total - idle) as u64, total: total as u64 },
                            ),
                        },
                    )
                } else {
                    before
                }
            } else {
                after == before
            }
        }),
{
    assert(samples.push(s).drop_last() =~= samples);
    if samples.len() > 0 {
        assert(samples.push(s)[samples.len() - 1] == samples.last());
    }
}

proof fn lemma_stale(s: Seq<AgentSession>)
    ensures
        stale_in(s) == s.filter(|x: AgentSession| x.is_stale).len(),
    decreases s.len(),
{
    reveal(Seq::filter);
    if s.len() > 0 {
        lemma_stale(s.drop_last());
    }
}

/// A census adds how many agent sessions are stale, how many helpers are orphans,
/// and, of managed agents that have lived long enough to have a rate, that rate.
pub proof fn law_a_census_adds_its_own(
    samples: Seq<Sample>,
    censuses: Seq<Census>,
    c: Census,
    min_life_secs: u64,
)
    ensures
        observed(Dimension::Agents, samples, censuses.push(c), min_life_secs) == observed(
            Dimension::Agents,
            samples,
            censuses,
            min_life_secs,
        ).push(
            Observation {
                at: c.taken_at,
                measure: Measure::Whole(
                    c.agent_sessions@.filter(|x: AgentSession| x.is_stale).len() as u64,
                ),
            },
        ),
        observed(Dimension::Orphans, samples, censuses.push(c), min_life_secs) == observed(
            Dimension::Orphans,
            samples,
            censuses,
            min_life_secs,
        ).push(
            Observation {
                at: c.taken_at,
                measure: Measure::Whole(c.orphans.orphan_count as u64),
            },
        ),
        ({
            let before = observed(Dimension::Corporate, samples, censuses, min_life_secs);
            observed(Dimension::Corporate, samples, censuses.push(c), min_life_secs)
                == if c.monitor_total.longest_life_secs >= min_life_secs {
                before.push(
                    Observation {
                        at: c.taken_at,
                        measure: Measure::Given(c.monitor_total.percent_of_one_core),
                    },
                )
            } else {
                before
            }
        }),
{
    assert(censuses.push(c).drop_last() =~= censuses);
    lemma_stale(c.agent_sessions@);
}

/// What the newest of some observations counts, none where there is none.
pub open spec fn newest_count(s: Seq<Observation>) -> int {
    if s.len() == 0 {
        0
    } else {
        match s.last().measure {
            Measure::Whole(n) => n as int,
            _ => 0,
        }
    }
}

proof fn lemma_newest_kills(s: Seq<Census>)
    ensures
        killed(s) >= 0,
        killed(s) <= u64::MAX ==> newest_count(from_kills(s)) == killed(s),
        killed(s) > u64::MAX ==> newest_count(from_kills(s)) == u64::MAX,
        killed(s) > 0 ==> from_kills(s).len() > 0,
    decreases s.len(),
{
    if s.len() > 0 {
        lemma_newest_kills(s.drop_last());
    }
}

/// A census that counted its kills adds them to the newest count, which is as high
/// as a count can be where it would be higher. One that could not count adds
/// nothing.
pub proof fn law_a_census_adds_its_kills(
    samples: Seq<Sample>,
    censuses: Seq<Census>,
    c: Census,
    min_life_secs: u64,
)
    ensures
        ({
            let before = observed(Dimension::Jetsam, samples, censuses, min_life_secs);
            let after = observed(Dimension::Jetsam, samples, censuses.push(c), min_life_secs);
            match c.pressure_kills {
                None => after == before,
                Some(k) => {
                    let sum = newest_count(before) + k;
                    &&& after == before.push(after.last())
                    &&& after.last().at == c.taken_at
                    &&& after.last().measure == Measure::Whole(
                        if sum > u64::MAX {
                            u64::MAX
                        } else {
                            sum as u64
                        },
                    )
                    &&& newest_count(after) >= k
                },
            }
        }),
{
    assert(censuses.push(c).drop_last() =~= censuses);
    lemma_newest_kills(censuses);
    lemma_newest_kills(censuses.push(c));
}

/// The kills of a census, none where it could not count them.
pub open spec fn kills_in(c: Census) -> int {
    match c.pressure_kills {
        Some(k) => k as int,
        None => 0,
    }
}

proof fn lemma_killed_is_the_sum(s: Seq<Census>)
    ensures
        killed(s) == s.fold_left(0int, |sum: int, c: Census| sum + kills_in(c)),
    decreases s.len(),
{
    if s.len() > 0 {
        lemma_killed_is_the_sum(s.drop_last());
    }
}

/// The newest count is the sum of the kills of all the censuses, as high as a
/// count can be where the sum is higher: no kill is forgotten, and none is counted
/// twice. So one kill in any of them is enough to be seen.
pub proof fn law_the_kills_are_all_counted(
    samples: Seq<Sample>,
    censuses: Seq<Census>,
    min_life_secs: u64,
)
    ensures
        ({
            let sum = censuses.fold_left(0int, |sum: int, c: Census| sum + kills_in(c));
            let told = newest_count(observed(Dimension::Jetsam, samples, censuses, min_life_secs));
            &&& told == if sum > u64::MAX {
                u64::MAX as int
            } else {
                sum
            }
            &&& forall|i: int| 0 <= i < censuses.len() ==> told >= kills_in(#[trigger] censuses[i])
        }),
    decreases censuses.len(),
{
    lemma_killed_is_the_sum(censuses);
    lemma_newest_kills(censuses);
    let told = newest_count(observed(Dimension::Jetsam, samples, censuses, min_life_secs));
    if censuses.len() > 0 {
        let front = censuses.drop_last();
        law_the_kills_are_all_counted(samples, front, min_life_secs);
        lemma_newest_kills(front);
        assert forall|i: int| 0 <= i < censuses.len() implies told >= kills_in(
            #[trigger] censuses[i],
        ) by {
            if i < front.len() {
                assert(front[i] == censuses[i]);
            }
        }
    }
}

/// Samples have no say in what a census tells, and censuses none in what a sample
/// tells.
pub proof fn law_samples_and_censuses_keep_apart(
    d: Dimension,
    a: Seq<Sample>,
    b: Seq<Sample>,
    censuses: Seq<Census>,
    others: Seq<Census>,
    min_life_secs: u64,
    other_life_secs: u64,
)
    ensures
        d == Dimension::Agents || d == Dimension::Orphans || d == Dimension::Corporate || d
            == Dimension::Jetsam ==> observed(d, a, censuses, min_life_secs) == observed(
            d,
            b,
            censuses,
            min_life_secs,
        ),
        d != Dimension::Agents && d != Dimension::Orphans && d != Dimension::Corporate && d
            != Dimension::Jetsam ==> observed(d, a, censuses, min_life_secs) == observed(
            d,
            a,
            others,
            other_life_secs,
        ),
{
}

} // verus!
