//! What was observed of a dimension, and how continuously.
use vstd::prelude::*;

use super::config::{Dimension, PressureConfig};
use crate::census::{stale_in, Census};
use crate::number::{real_of, Real};
use crate::rates::{counter_gap, cpu_utilization, gap_between, ticks_between, TickShare};
use crate::sample::Sample;
use crate::sorting::{
    inserted, law_sorting, lemma_sorted_len, order, sort, sorted_by, weak_order, Ranked,
};
use crate::sys::capped;
use crate::text::views;
use crate::time::{epoch_secs, has_passed, span_secs, Timestamp};

verus! {

/// What a dimension's value is made of, before it becomes a real number.
#[derive(Clone, Copy, Debug, PartialEq, Eq, Structural)]
pub enum Measure {
    /// A whole number: bytes, a level, a count, a percentage.
    Whole(u64),
    /// The share of `busy` in `total`.
    Share(TickShare),
    /// Swap operations over some milliseconds: a rate per second.
    Churn { swapins: u64, swapouts: u64, millis: u128 },
    /// Seconds, told in days.
    Days { secs: i128 },
    /// Pages times their size.
    Pages { pages: u64, page_size: u64 },
    /// Already a real number.
    Given(Real),
}

/// A measure and when it was taken.
#[derive(Clone, Copy, Debug, PartialEq, Eq, Structural)]
pub struct Observation {
    pub at: Timestamp,
    pub measure: Measure,
}

/// A value and when it was taken.
#[derive(Clone, Copy, Debug, PartialEq, Eq, Structural)]
pub struct Point {
    pub at: Timestamp,
    pub value: Real,
}

/// What one sample says of a dimension. What was not recorded says nothing: it
/// is not a calm reading.
pub open spec fn said_by_sample(d: Dimension, s: Sample) -> Option<Measure> {
    match d {
        Dimension::Thermal => match s.thermal_pressure_level {
            Some(l) => Some(Measure::Whole(l as u64)),
            None => None,
        },
        Dimension::Memory => Some(Measure::Whole(s.reading().available())),
        Dimension::Swap => Some(Measure::Whole(s.swap_used_bytes)),
        Dimension::KernelPressure => if s.memory_pressure_level > 0 {
            Some(Measure::Whole(s.memory_pressure_level as u64))
        } else {
            None
        },
        Dimension::KernelFree => match s.kernel_free_percent {
            Some(p) => Some(Measure::Whole(p as u64)),
            None => None,
        },
        Dimension::Compressor => Some(
            Measure::Pages { pages: s.pages_compressor, page_size: s.page_size },
        ),
        Dimension::Disk => if s.volumes@.len() > 0 {
            Some(Measure::Whole(s.volumes@[0].avail_bytes))
        } else {
            None
        },
        Dimension::Uptime => Some(
            Measure::Days {
                secs: if epoch_secs(s.sampled_at) < s.boot_time_secs {
                    0
                } else {
                    (epoch_secs(s.sampled_at) - s.boot_time_secs) as i128
                },
            },
        ),
        _ => None,
    }
}

/// What two neighbouring samples say: rates need a pair, and a pair across a
/// reboot or a backward clock says nothing.
pub open spec fn said_by_pair(d: Dimension, prev: Sample, curr: Sample) -> Option<Measure> {
    let millis: int = if curr.sampled_at.nanos <= prev.sampled_at.nanos {
        0
    } else {
        (curr.sampled_at.nanos - prev.sampled_at.nanos) / 1_000_000
    };
    if gap_between(prev.reading(), curr.reading(), millis > 0) is Some {
        None
    } else if d == Dimension::Cpu {
        match ticks_between(prev.reading(), curr.reading()) {
            Some(t) => Some(Measure::Share(t)),
            None => None,
        }
    } else if d == Dimension::Thrash {
        Some(
            Measure::Churn {
                swapins: (curr.swapins - prev.swapins) as u64,
                swapouts: (curr.swapouts - prev.swapouts) as u64,
                millis: millis as u128,
            },
        )
    } else {
        None
    }
}

/// What one census says. A managed-agent rate over a short lifetime is noise and
/// says nothing.
pub open spec fn said_by_census(d: Dimension, c: Census, min_life_secs: u64) -> Option<Measure> {
    match d {
        Dimension::Agents => Some(Measure::Whole(stale_in(c.agent_sessions@) as u64)),
        Dimension::Orphans => Some(Measure::Whole(c.orphans.orphan_count as u64)),
        Dimension::Corporate => if c.monitor_total.longest_life_secs >= min_life_secs {
            Some(Measure::Given(c.monitor_total.percent_of_one_core))
        } else {
            None
        },
        _ => None,
    }
}

pub open spec fn from_samples(d: Dimension, s: Seq<Sample>) -> Seq<Observation>
    decreases s.len(),
{
    if s.len() == 0 {
        Seq::empty()
    } else {
        let front = from_samples(d, s.drop_last());
        match said_by_sample(d, s.last()) {
            Some(measure) => front.push(Observation { at: s.last().sampled_at, measure }),
            None => front,
        }
    }
}

pub open spec fn from_pairs(d: Dimension, s: Seq<Sample>) -> Seq<Observation>
    decreases s.len(),
{
    if s.len() < 2 {
        Seq::empty()
    } else {
        let front = from_pairs(d, s.drop_last());
        match said_by_pair(d, s[s.len() - 2], s.last()) {
            Some(measure) => front.push(Observation { at: s.last().sampled_at, measure }),
            None => front,
        }
    }
}

pub open spec fn from_censuses(d: Dimension, s: Seq<Census>, min_life_secs: u64) -> Seq<Observation>
    decreases s.len(),
{
    if s.len() == 0 {
        Seq::empty()
    } else {
        let front = from_censuses(d, s.drop_last(), min_life_secs);
        match said_by_census(d, s.last(), min_life_secs) {
            Some(measure) => front.push(Observation { at: s.last().taken_at, measure }),
            None => front,
        }
    }
}

/// Processes killed in all the censuses together.
pub open spec fn killed(s: Seq<Census>) -> int
    decreases s.len(),
{
    if s.len() == 0 {
        0
    } else {
        killed(s.drop_last()) + match s.last().pressure_kills {
            Some(k) => k as int,
            None => 0,
        }
    }
}

/// The running total of kills: one kill keeps the series up for the rest of the
/// window.
pub open spec fn from_kills(s: Seq<Census>) -> Seq<Observation>
    decreases s.len(),
{
    if s.len() == 0 {
        Seq::empty()
    } else {
        let front = from_kills(s.drop_last());
        if s.last().pressure_kills is Some {
            front.push(
                Observation { at: s.last().taken_at, measure: Measure::Whole(capped(killed(s))) },
            )
        } else {
            front
        }
    }
}

/// Everything that was observed of a dimension, oldest first.
pub open spec fn observed(
    d: Dimension,
    samples: Seq<Sample>,
    censuses: Seq<Census>,
    min_life_secs: u64,
) -> Seq<Observation> {
    match d {
        Dimension::Cpu | Dimension::Thrash => from_pairs(d, samples),
        Dimension::Agents | Dimension::Orphans | Dimension::Corporate => from_censuses(
            d,
            censuses,
            min_life_secs,
        ),
        Dimension::Jetsam => from_kills(censuses),
        _ => from_samples(d, samples),
    }
}

fn sample_says(d: Dimension, s: &Sample) -> (r: Option<Measure>)
    ensures
        r == said_by_sample(d, *s),
{
    match d {
        Dimension::Thermal => match s.thermal_pressure_level {
            Some(l) => Some(Measure::Whole(l as u64)),
            None => None,
        },
        // Available, not free: the free list is kept tiny on purpose.
        Dimension::Memory => Some(Measure::Whole(s.to_reading().available_bytes())),
        Dimension::Swap => Some(Measure::Whole(s.swap_used_bytes)),
        Dimension::KernelPressure => {
            if s.memory_pressure_level > 0 {
                Some(Measure::Whole(s.memory_pressure_level as u64))
            } else {
                None
            }
        },
        Dimension::KernelFree => match s.kernel_free_percent {
            Some(p) => Some(Measure::Whole(p as u64)),
            None => None,
        },
        Dimension::Compressor => Some(
            Measure::Pages { pages: s.pages_compressor, page_size: s.page_size },
        ),
        Dimension::Disk => {
            if s.volumes.len() > 0 {
                Some(Measure::Whole(s.volumes[0].avail_bytes))
            } else {
                None
            }
        },
        Dimension::Uptime => {
            let now: i128 = s.sampled_at.secs();
            let boot: i128 = s.boot_time_secs as i128;
            Some(
                Measure::Days {
                    secs: if now < boot {
                        0
                    } else {
                        now - boot
                    },
                },
            )
        },
        _ => None,
    }
}

fn pair_says(d: Dimension, prev: &Sample, curr: &Sample) -> (r: Option<Measure>)
    ensures
        r == said_by_pair(d, *prev, *curr),
{
    let before = prev.to_reading();
    let after = curr.to_reading();
    let millis: u128 = curr.sampled_at.millis_since(prev.sampled_at);
    match counter_gap(&before, &after, millis > 0) {
        Some(_) => None,
        None => match d {
            Dimension::Cpu => match cpu_utilization(&before, &after) {
                Some(t) => Some(Measure::Share(t)),
                None => None,
            },
            Dimension::Thrash => Some(
                Measure::Churn {
                    swapins: curr.swapins - prev.swapins,
                    swapouts: curr.swapouts - prev.swapouts,
                    millis,
                },
            ),
            _ => None,
        },
    }
}

fn census_says(d: Dimension, c: &Census, min_life_secs: u64) -> (r: Option<Measure>)
    ensures
        r == said_by_census(d, *c, min_life_secs),
{
    match d {
        Dimension::Agents => Some(Measure::Whole(c.stale_sessions() as u64)),
        Dimension::Orphans => Some(Measure::Whole(c.orphans.orphan_count as u64)),
        Dimension::Corporate => {
            if c.monitor_total.longest_life_secs >= min_life_secs {
                Some(Measure::Given(c.monitor_total.percent_of_one_core))
            } else {
                None
            }
        },
        _ => None,
    }
}

fn sample_series(d: Dimension, samples: &[Sample]) -> (r: Vec<Observation>)
    ensures
        r@ == from_samples(d, samples@),
{
    let mut out: Vec<Observation> = Vec::new();
    let mut i: usize = 0;
    while i < samples.len()
        invariant
            i <= samples.len(),
            out@ == from_samples(d, samples@.take(i as int)),
        decreases samples.len() - i,
    {
        assert(samples@.take(i + 1).drop_last() =~= samples@.take(i as int));
        match sample_says(d, &samples[i]) {
            Some(measure) => out.push(Observation { at: samples[i].sampled_at, measure }),
            None => {},
        }
        i = i + 1;
    }
    assert(samples@.take(i as int) =~= samples@);
    out
}

fn pair_series(d: Dimension, samples: &[Sample]) -> (r: Vec<Observation>)
    ensures
        r@ == from_pairs(d, samples@),
{
    let mut out: Vec<Observation> = Vec::new();
    if samples.len() < 2 {
        return out;
    }
    let mut i: usize = 1;
    while i < samples.len()
        invariant
            1 <= i <= samples.len(),
            out@ == from_pairs(d, samples@.take(i as int)),
        decreases samples.len() - i,
    {
        assert(samples@.take(i + 1).drop_last() =~= samples@.take(i as int));
        match pair_says(d, &samples[i - 1], &samples[i]) {
            Some(measure) => out.push(Observation { at: samples[i].sampled_at, measure }),
            None => {},
        }
        i = i + 1;
    }
    assert(samples@.take(i as int) =~= samples@);
    out
}

fn census_series(d: Dimension, censuses: &[Census], min_life_secs: u64) -> (r: Vec<Observation>)
    ensures
        r@ == from_censuses(d, censuses@, min_life_secs),
{
    let mut out: Vec<Observation> = Vec::new();
    let mut i: usize = 0;
    while i < censuses.len()
        invariant
            i <= censuses.len(),
            out@ == from_censuses(d, censuses@.take(i as int), min_life_secs),
        decreases censuses.len() - i,
    {
        assert(censuses@.take(i + 1).drop_last() =~= censuses@.take(i as int));
        match census_says(d, &censuses[i], min_life_secs) {
            Some(measure) => out.push(Observation { at: censuses[i].taken_at, measure }),
            None => {},
        }
        i = i + 1;
    }
    assert(censuses@.take(i as int) =~= censuses@);
    out
}

fn kill_series(censuses: &[Census]) -> (r: Vec<Observation>)
    ensures
        r@ == from_kills(censuses@),
{
    let mut out: Vec<Observation> = Vec::new();
    let mut total: u64 = 0;
    let mut i: usize = 0;
    while i < censuses.len()
        invariant
            i <= censuses.len(),
            out@ == from_kills(censuses@.take(i as int)),
            total == capped(killed(censuses@.take(i as int))),
            killed(censuses@.take(i as int)) >= 0,
        decreases censuses.len() - i,
    {
        assert(censuses@.take(i + 1).drop_last() =~= censuses@.take(i as int));
        match censuses[i].pressure_kills {
            Some(k) => {
                total = total.saturating_add(k);
                out.push(Observation { at: censuses[i].taken_at, measure: Measure::Whole(total) });
            },
            None => {},
        }
        i = i + 1;
    }
    assert(censuses@.take(i as int) =~= censuses@);
    out
}

/// What was observed of a dimension, oldest first. Empty when nothing was.
pub fn series_for(
    d: Dimension,
    samples: &[Sample],
    censuses: &[Census],
    config: &PressureConfig,
) -> (r: Vec<Observation>)
    ensures
        r@ == observed(d, samples@, censuses@, config.corporate_min_life_secs),
{
    match d {
        Dimension::Cpu | Dimension::Thrash => pair_series(d, samples),
        Dimension::Agents | Dimension::Orphans | Dimension::Corporate => census_series(
            d,
            censuses,
            config.corporate_min_life_secs,
        ),
        Dimension::Jetsam => kill_series(censuses),
        _ => sample_series(d, samples),
    }
}

/// What a measure comes to as a real number. Whole numbers speak for themselves;
/// what takes division or multiplication is worked out before, and given.
pub open spec fn worth(measure: Measure, worked_out: Seq<Real>, i: int) -> Option<Real> {
    match measure {
        Measure::Whole(n) => Some(real_of(n as nat)),
        Measure::Given(v) => Some(v),
        _ => if 0 <= i < worked_out.len() {
            Some(worked_out[i])
        } else {
            None
        },
    }
}

/// The observations with the values their measures come to. One that was not
/// worked out says nothing.
pub open spec fn valued(obs: Seq<Observation>, worked_out: Seq<Real>) -> Seq<Point>
    decreases obs.len(),
{
    if obs.len() == 0 {
        Seq::empty()
    } else {
        let front = valued(obs.drop_last(), worked_out);
        match worth(obs.last().measure, worked_out, obs.len() - 1) {
            Some(value) => front.push(Point { at: obs.last().at, value }),
            None => front,
        }
    }
}

/// Give each observation its value. `worked_out` has an entry for each of them,
/// and it counts where the measure is not a whole number.
pub fn points_of(obs: &Vec<Observation>, worked_out: &Vec<Real>) -> (r: Vec<Point>)
    ensures
        r@ == valued(obs@, worked_out@),
{
    let mut out: Vec<Point> = Vec::new();
    let mut i: usize = 0;
    assert(obs@.take(0) =~= Seq::empty());
    while i < obs.len()
        invariant
            i <= obs.len(),
            out@ == valued(obs@.take(i as int), worked_out@),
        decreases obs.len() - i,
    {
        assert(obs@.take(i + 1).drop_last() =~= obs@.take(i as int));
        let o = obs[i];
        let value: Option<Real> = match o.measure {
            Measure::Whole(n) => Some(Real::from_u64(n)),
            Measure::Given(v) => Some(v),
            _ => if i < worked_out.len() {
                Some(worked_out[i])
            } else {
                None
            },
        };
        match value {
            Some(value) => out.push(Point { at: o.at, value }),
            None => {},
        }
        i = i + 1;
    }
    assert(obs@.take(i as int) =~= obs@);
    out
}

impl View for Real {
    type V = Real;

    open spec fn view(&self) -> Real {
        *self
    }
}

impl Ranked for Real {
    open spec fn goes_first(a: Real, b: Real) -> bool {
        a.below(b)
    }

    fn is_first(&self, other: &Real) -> (r: bool) {
        self.is_below(*other)
    }
}

impl Ranked for u64 {
    open spec fn goes_first(a: u64, b: u64) -> bool {
        a < b
    }

    fn is_first(&self, other: &u64) -> (r: bool) {
        *self < *other
    }
}

/// How many neighbouring values a median smooths over.
pub const THRASH_SMOOTH_INTERVALS: usize = 3;

/// The middle one of some values in order, the upper one of two.
pub open spec fn median(s: Seq<Real>) -> Real {
    sorted_by(s, order::<Real>())[s.len() as int / 2]
}

/// The values from `lo` to `hi`, both taken in.
pub open spec fn stretch(points: Seq<Point>, lo: int, hi: int) -> Seq<Real> {
    Seq::new((hi - lo + 1) as nat, |k: int| points[lo + k].value)
}

/// A value with lone spikes taken out: the median of it and the two before.
pub open spec fn smooth_value(points: Seq<Point>, i: int) -> Real {
    median(stretch(points, if i < 2 {
            0
        } else {
            i - 2
        }, i))
}

pub open spec fn smoothed(points: Seq<Point>) -> Seq<Point> {
    Seq::new(points.len(), |i: int| Point { at: points[i].at, value: smooth_value(points, i) })
}

/// The greatest of the first `n` values that lie within `window_secs` of `at`,
/// and of `v`.
pub open spec fn peak_within(s: Seq<Point>, n: int, at: Timestamp, window_secs: u64, v: Real) -> Real
    decreases n,
{
    if n <= 0 {
        v
    } else {
        let front = peak_within(s, n - 1, at, window_secs, v);
        if !has_passed(at, s[n - 1].at, window_secs) {
            front.larger(s[n - 1].value)
        } else {
            front
        }
    }
}

/// Each point raised to the worst sustained level of the window before it.
pub open spec fn peaks(points: Seq<Point>, window_secs: u64) -> Seq<Point> {
    let calm = smoothed(points);
    Seq::new(
        points.len(),
        |i: int|
            Point {
                at: points[i].at,
                value: peak_within(calm, i + 1, points[i].at, window_secs, calm[i].value),
            },
    )
}

fn smooth_at(points: &Vec<Point>, i: usize) -> (r: Real)
    requires
        i < points.len(),
    ensures
        r == smooth_value(points@, i as int),
{
    let lo: usize = if i < 2 {
        0
    } else {
        i - 2
    };
    let mut vals: Vec<Real> = Vec::new();
    let mut k: usize = lo;
    while k <= i
        invariant
            lo <= k <= i + 1,
            lo <= i < points.len(),
            vals.len() == k - lo,
            forall|j: int| 0 <= j < vals.len() ==> #[trigger] vals@[j] == points@[lo + j].value,
        decreases i + 1 - k,
    {
        vals.push(points[k].value);
        k = k + 1;
    }
    let n: usize = vals.len();
    let ghost all = stretch(points@, lo as int, i as int);
    assert(views(vals@) =~= all);
    let sorted = sort(vals);
    proof {
        crate::sorting::lemma_sorted_len(all, order::<Real>());
        assert(views(sorted@)[n as int / 2] == sorted@[n as int / 2]);
    }
    sorted[n / 2]
}

/// Rewrite a spiky series so that each point carries the worst sustained level
/// over the window before it, not that instant's value.
///
/// First a trailing median takes out what lasted for one interval only; then a
/// sliding maximum over the window carries the rest. As the window slides over
/// calm, the figure can only fall. The window is measured in time, so a hole
/// longer than the window forgets what lies behind it.
pub fn windowed_peak(points: &Vec<Point>, window_secs: u64) -> (r: Vec<Point>)
    ensures
        r@ == peaks(points@, window_secs),
{
    let n: usize = points.len();
    let mut calm: Vec<Point> = Vec::new();
    let mut i: usize = 0;
    while i < n
        invariant
            i <= n,
            n == points.len(),
            calm@ == smoothed(points@).take(i as int),
        decreases n - i,
    {
        calm.push(Point { at: points[i].at, value: smooth_at(points, i) });
        i = i + 1;
        assert(calm@ =~= smoothed(points@).take(i as int));
    }
    assert(calm@ =~= smoothed(points@));
    let mut out: Vec<Point> = Vec::new();
    let mut k: usize = 0;
    while k < n
        invariant
            k <= n,
            n == points.len(),
            calm@ == smoothed(points@),
            out@ == peaks(points@, window_secs).take(k as int),
        decreases n - k,
    {
        let at = points[k].at;
        let own = calm[k].value;
        let mut peak = own;
        let mut j: usize = 0;
        while j <= k
            invariant
                j <= k + 1,
                k < n,
                n == calm.len(),
                peak == peak_within(calm@, j as int, at, window_secs, own),
            decreases k + 1 - j,
        {
            if !at.is_past(calm[j].at, window_secs) {
                peak = peak.max(calm[j].value);
            }
            j = j + 1;
        }
        out.push(Point { at, value: peak });
        k = k + 1;
        assert(out@ =~= peaks(points@, window_secs).take(k as int));
    }
    assert(out@ =~= peaks(points@, window_secs));
    out
}

/// How long a band has held, and the gap that cut that short, if one did.
#[derive(Clone, Copy, Debug, PartialEq, Eq, Structural)]
pub struct Held {
    pub secs: u64,
    pub gap_secs: Option<u64>,
}

/// A dimension's points, with what counts as a gap between them.
#[derive(Clone, Debug)]
pub struct Series {
    pub points: Vec<Point>,
    /// The ceiling for the dimension's tier. The effective one is never lower.
    pub configured_max_interval_secs: u64,
    /// The tolerance times the median interval of this series, rounded up.
    pub calibrated_secs: u64,
}

/// Intervals needed before a series can calibrate its own cadence.
pub const MIN_INTERVALS_TO_SELF_CALIBRATE: usize = 3;

/// Seconds between a point and the one before it.
pub open spec fn interval(points: Seq<Point>, i: int) -> u64 {
    span_secs(points[i].at, points[i - 1].at)
}

pub open spec fn intervals(points: Seq<Point>) -> Seq<u64> {
    Seq::new(
        if points.len() == 0 {
            0
        } else {
            (points.len() - 1) as nat
        },
        |i: int| interval(points, i + 1),
    )
}

/// The middle interval, when there are enough to have one.
pub open spec fn cadence(points: Seq<Point>) -> Option<u64> {
    let all = intervals(points);
    if all.len() < MIN_INTERVALS_TO_SELF_CALIBRATE {
        None
    } else {
        Some(sorted_by(all, order::<u64>())[all.len() as int / 2])
    }
}

/// The first point of the unbroken run that ends at `from`, going back no
/// further than `floor`.
pub open spec fn unbroken_from(points: Seq<Point>, ceiling: u64, from: int, floor: int) -> int
    decreases from - floor,
{
    if from <= floor {
        from
    } else if interval(points, from) > ceiling {
        from
    } else {
        unbroken_from(points, ceiling, from - 1, floor)
    }
}

/// The largest interval above `ceiling` behind any point from `from + 1` to
/// `to`.
pub open spec fn widest_gap(points: Seq<Point>, ceiling: u64, from: int, to: int) -> Option<u64>
    decreases to - from,
{
    if to <= from {
        None
    } else {
        let front = widest_gap(points, ceiling, from, to - 1);
        let last = interval(points, to);
        if last <= ceiling {
            front
        } else {
            match front {
                Some(g) if g > last => front,
                _ => Some(last),
            }
        }
    }
}

/// The longest interval that counts as continuous observation of some points.
pub open spec fn ceiling_over(points: Seq<Point>, configured: u64, calibrated: u64) -> u64 {
    if intervals(points).len() < MIN_INTERVALS_TO_SELF_CALIBRATE || calibrated < configured {
        configured
    } else {
        calibrated
    }
}

/// The first of the trailing `held` points.
pub open spec fn run_floor(points: Seq<Point>, held: usize) -> int {
    if held >= points.len() {
        0
    } else {
        points.len() - held
    }
}

/// Where the trailing run of `held` points really starts: at the first point
/// behind which there is a gap.
pub open spec fn run_start(points: Seq<Point>, ceiling: u64, held: usize) -> int {
    unbroken_from(points, ceiling, points.len() - 1, run_floor(points, held))
}

pub open spec fn held_over(points: Seq<Point>, ceiling: u64, held: usize) -> Held {
    let n = points.len();
    if n == 0 || held == 0 {
        Held { secs: 0, gap_secs: None }
    } else {
        let start = run_start(points, ceiling, held);
        Held {
            secs: span_secs(points[n - 1].at, points[start].at),
            gap_secs: if start > run_floor(points, held) {
                Some(interval(points, start))
            } else {
                None
            },
        }
    }
}

/// Where the longest suffix without a gap starts.
pub open spec fn tail_start(points: Seq<Point>, ceiling: u64) -> int {
    if points.len() == 0 {
        0
    } else {
        unbroken_from(points, ceiling, points.len() - 1, 0)
    }
}

/// Whether the points from `from` on fall in more than one second, so that a
/// slope means anything.
pub open spec fn spans_time(points: Seq<Point>, from: int) -> bool {
    exists|i: int|
        from <= i < points.len() && epoch_secs((#[trigger] points[i]).at) != epoch_secs(
            points[from].at,
        )
}

/// The change per second over the unbroken tail: the fitted `slope`, where the
/// tail has two points that a line can be drawn through.
pub open spec fn tail_trend(points: Seq<Point>, ceiling: u64, slope: Option<Real>) -> Option<Real> {
    if spans_time(points, tail_start(points, ceiling)) {
        slope
    } else {
        None
    }
}

impl Series {
    pub open spec fn ceiling(self) -> u64 {
        ceiling_over(self.points@, self.configured_max_interval_secs, self.calibrated_secs)
    }

    pub fn values(&self) -> (r: Vec<Real>)
        ensures
            r@ == Seq::new(self.points@.len(), |i: int| self.points@[i].value),
    {
        let mut out: Vec<Real> = Vec::new();
        let mut i: usize = 0;
        while i < self.points.len()
            invariant
                i <= self.points.len(),
                out.len() == i,
                forall|j: int| 0 <= j < i ==> #[trigger] out@[j] == self.points@[j].value,
            decreases self.points.len() - i,
        {
            out.push(self.points[i].value);
            i = i + 1;
        }
        assert(out@ =~= Seq::new(self.points@.len(), |i: int| self.points@[i].value));
        out
    }

    /// The longest interval that counts as continuous observation here.
    ///
    /// The median interval is what the series does, so the ceiling follows it;
    /// the configured cadence is a floor, and all there is to go by when a
    /// series is too short to have a cadence of its own. A median is not moved
    /// by a few long holes, so holes stay holes.
    pub fn max_interval(&self) -> (r: u64)
        ensures
            r == self.ceiling(),
    {
        let n: usize = self.points.len();
        if n <= MIN_INTERVALS_TO_SELF_CALIBRATE || self.calibrated_secs
            < self.configured_max_interval_secs {
            self.configured_max_interval_secs
        } else {
            self.calibrated_secs
        }
    }

    fn walk_back(&self, ceiling: u64, floor: usize) -> (r: usize)
        requires
            floor < self.points.len(),
        ensures
            r == unbroken_from(self.points@, ceiling, self.points@.len() - 1, floor as int),
            floor <= r < self.points.len(),
    {
        let n: usize = self.points.len();
        let mut i: usize = n - 1;
        while i > floor
            invariant_except_break
                floor <= i < n,
                n == self.points.len(),
                unbroken_from(self.points@, ceiling, n - 1, floor as int) == unbroken_from(
                    self.points@,
                    ceiling,
                    i as int,
                    floor as int,
                ),
            ensures
                floor <= i < n,
                i == unbroken_from(self.points@, ceiling, n - 1, floor as int),
            decreases i,
        {
            let gap: u64 = self.points[i].at.secs_since(self.points[i - 1].at);
            if gap > ceiling {
                break;
            }
            i = i - 1;
        }
        i
    }

    /// Seconds the trailing `held` points span, stopping at the first gap: a hole
    /// in the observations is no evidence of continuity.
    pub fn held(&self, held: usize) -> (r: Held)
        ensures
            r == held_over(self.points@, self.ceiling(), held),
    {
        let n: usize = self.points.len();
        if n == 0 || held == 0 {
            return Held { secs: 0, gap_secs: None };
        }
        let floor: usize = if held >= n {
            0
        } else {
            n - held
        };
        let start: usize = self.walk_back(self.max_interval(), floor);
        let secs: u64 = self.points[n - 1].at.secs_since(self.points[start].at);
        let gap_secs: Option<u64> = if start > floor {
            Some(self.points[start].at.secs_since(self.points[start - 1].at))
        } else {
            None
        };
        Held { secs, gap_secs }
    }

    /// Where the longest suffix without a gap starts.
    pub fn contiguous_tail(&self) -> (r: usize)
        ensures
            r == tail_start(self.points@, self.ceiling()),
            r <= self.points.len(),
            self.points.len() > 0 ==> r < self.points.len(),
    {
        if self.points.len() == 0 {
            return 0;
        }
        self.walk_back(self.max_interval(), 0)
    }

    /// The change per second over the unbroken tail, given the slope that was
    /// fitted to it. A line through two clusters on either side of a hole would
    /// describe the hole.
    pub fn trend_per_sec(&self, slope: Option<Real>) -> (r: Option<Real>)
        ensures
            r == tail_trend(self.points@, self.ceiling(), slope),
    {
        let n: usize = self.points.len();
        if n == 0 {
            return None;
        }
        let from: usize = self.contiguous_tail();
        let first: i128 = self.points[from].at.secs();
        let mut i: usize = from;
        while i < n
            invariant
                from <= i <= n,
                n == self.points.len(),
                from == tail_start(self.points@, self.ceiling()),
                from < n,
                first == epoch_secs(self.points@[from as int].at),
                forall|j: int|
                    from <= j < i ==> epoch_secs((#[trigger] self.points@[j]).at) == first,
            decreases n - i,
        {
            if self.points[i].at.secs() != first {
                assert(epoch_secs(self.points@[i as int].at) != first);
                return slope;
            }
            i = i + 1;
        }
        None
    }

    /// The largest gap between two points, if the stretch has one.
    pub fn largest_gap_between(&self, from: usize, to: usize) -> (r: Option<u64>)
        ensures
            r == (if from >= to || to >= self.points.len() {
                None
            } else {
                widest_gap(self.points@, self.ceiling(), from as int, to as int)
            }),
    {
        if from >= to || to >= self.points.len() {
            return None;
        }
        let ceiling: u64 = self.max_interval();
        let mut widest: Option<u64> = None;
        let mut i: usize = from;
        while i < to
            invariant
                from <= i <= to,
                to < self.points.len(),
                widest == widest_gap(self.points@, ceiling, from as int, i as int),
            decreases to - i,
        {
            i = i + 1;
            let gap: u64 = self.points[i].at.secs_since(self.points[i - 1].at);
            if gap > ceiling {
                let keep = match widest {
                    Some(g) => g > gap,
                    None => false,
                };
                if !keep {
                    widest = Some(gap);
                }
            }
        }
        widest
    }
}

/// The median interval of a series, in seconds. `None` while the series is too
/// short to have a cadence.
pub fn median_interval(points: &Vec<Point>) -> (r: Option<u64>)
    ensures
        r == cadence(points@),
{
    let n: usize = points.len();
    let mut all: Vec<u64> = Vec::new();
    let mut i: usize = 1;
    while i < n
        invariant
            1 <= i,
            n == points.len(),
            n > 0 ==> i <= n && all.len() == i - 1,
            n == 0 ==> all.len() == 0,
            forall|j: int| 0 <= j < all.len() ==> #[trigger] all@[j] == interval(points@, j + 1),
        decreases n - i,
    {
        all.push(points[i].at.secs_since(points[i - 1].at));
        i = i + 1;
    }
    assert(views(all@) =~= intervals(points@));
    if all.len() < MIN_INTERVALS_TO_SELF_CALIBRATE {
        return None;
    }
    let count: usize = all.len();
    let sorted = sort(all);
    proof {
        crate::sorting::lemma_sorted_len(intervals(points@), order::<u64>());
        assert(views(sorted@)[count as int / 2] == sorted@[count as int / 2]);
    }
    Some(sorted[count / 2])
}

proof fn lemma_unbroken(points: Seq<Point>, ceiling: u64, from: int, floor: int)
    requires
        floor <= from,
    ensures
        floor <= unbroken_from(points, ceiling, from, floor) <= from,
        forall|i: int|
            unbroken_from(points, ceiling, from, floor) < i <= from ==> #[trigger] interval(
                points,
                i,
            ) <= ceiling,
        unbroken_from(points, ceiling, from, floor) > floor ==> interval(
            points,
            unbroken_from(points, ceiling, from, floor),
        ) > ceiling,
    decreases from - floor,
{
    if from > floor && interval(points, from) <= ceiling {
        lemma_unbroken(points, ceiling, from - 1, floor);
    }
}

/// The effective ceiling is never below the configured one: a series that runs
/// slower than configured is not shredded into gaps.
pub proof fn law_the_ceiling_has_a_floor(points: Seq<Point>, configured: u64, calibrated: u64)
    ensures
        ceiling_over(points, configured, calibrated) >= configured,
{
}

/// The time a band is said to have held contains no gap, stops at the first one,
/// and names it.
pub proof fn law_held_stops_at_a_gap(points: Seq<Point>, ceiling: u64, held: usize)
    requires
        points.len() > 0,
        held > 0,
    ensures
        0 <= run_start(points, ceiling, held) < points.len(),
        forall|i: int|
            run_start(points, ceiling, held) < i < points.len() ==> #[trigger] interval(points, i)
                <= ceiling,
        held_over(points, ceiling, held).gap_secs matches Some(g) ==> g > ceiling,
        held_over(points, ceiling, held).gap_secs is Some ==> interval(
            points,
            run_start(points, ceiling, held),
        ) > ceiling,
        run_start(points, ceiling, held) >= tail_start(points, ceiling),
{
    let n = points.len();
    lemma_unbroken(points, ceiling, n - 1, run_floor(points, held));
    lemma_unbroken(points, ceiling, n - 1, 0);
    let whole = tail_start(points, ceiling);
    if run_start(points, ceiling, held) < whole {
        assert(interval(points, whole) <= ceiling);
    }
}

/// A gap between two points is reported exactly when there is one, and it is one.
pub proof fn law_gaps_are_reported(points: Seq<Point>, ceiling: u64, from: int, to: int)
    requires
        from <= to,
    ensures
        widest_gap(points, ceiling, from, to) is None <==> forall|i: int|
            from < i <= to ==> #[trigger] interval(points, i) <= ceiling,
        widest_gap(points, ceiling, from, to) matches Some(g) ==> {
            &&& g > ceiling
            &&& forall|i: int| from < i <= to ==> #[trigger] interval(points, i) <= g
        },
    decreases to - from,
{
    if from < to {
        law_gaps_are_reported(points, ceiling, from, to - 1);
        assert(interval(points, to) <= ceiling || interval(points, to) > ceiling);
    }
}

/// One spike among three values does not survive: where two of them stay at or
/// below a limit, so does their median.
pub proof fn law_a_lone_spike_is_smoothed(a: Real, b: Real, c: Real, limit: Real)
    requires
        !a.nan() && !b.nan() && !c.nan() && !limit.nan(),
        (a.at_most(limit) && b.at_most(limit)) || (a.at_most(limit) && c.at_most(limit)) || (
        b.at_most(limit) && c.at_most(limit)),
    ensures
        median(seq![a, b, c]).at_most(limit),
{
    let first = order::<Real>();
    let s = seq![a, b, c];
    assert(s.drop_last() =~= seq![a, b]);
    assert(seq![a, b].drop_last() =~= seq![a]);
    assert(seq![a].drop_last() =~= Seq::empty());
    let one = sorted_by(seq![a], first);
    assert(sorted_by(Seq::<Real>::empty(), first) =~= Seq::empty());
    assert(one =~= seq![a]);
    let two = sorted_by(seq![a, b], first);
    assert(two == inserted(one, b, first));
    assert(one.drop_last() =~= Seq::empty());
    assert(inserted(Seq::<Real>::empty(), b, first) =~= seq![b]);
    if first(b, a) {
        assert(two =~= seq![b, a]);
    } else {
        assert(two =~= seq![a, b]);
    }
    let lo = two[0];
    let hi = two[1];
    assert(two.drop_last() =~= seq![lo]);
    assert(seq![lo].drop_last() =~= Seq::empty());
    assert(inserted(Seq::<Real>::empty(), c, first) =~= seq![c]);
    let three = sorted_by(s, first);
    assert(three == inserted(two, c, first));
    if first(c, hi) {
        assert(three == inserted(seq![lo], c, first).push(hi));
        if first(c, lo) {
            assert(inserted(seq![lo], c, first) =~= seq![c, lo]);
        } else {
            assert(inserted(seq![lo], c, first) =~= seq![lo, c]);
        }
    } else {
        assert(three =~= seq![lo, hi, c]);
    }
}

/// No value of a series is a NaN.
pub open spec fn all_numbers(points: Seq<Point>) -> bool {
    forall|i: int| 0 <= i < points.len() ==> !(#[trigger] points[i]).value.nan()
}

proof fn lemma_smoothing_keeps_numbers(points: Seq<Point>)
    requires
        all_numbers(points),
    ensures
        all_numbers(smoothed(points)),
{
    let calm = smoothed(points);
    assert forall|i: int| 0 <= i < calm.len() implies !(#[trigger] calm[i]).value.nan() by {
        let lo = if i < 2 {
            0
        } else {
            i - 2
        };
        let s = stretch(points, lo, i);
        crate::sorting::lemma_sorted_len(s, order::<Real>());
        crate::sorting::lemma_sorted_members(s, order::<Real>());
        let m = sorted_by(s, order::<Real>())[s.len() as int / 2];
        assert(s.contains(m));
        let k = choose|k: int| 0 <= k < s.len() && s[k] == m;
        assert(!points[lo + k].value.nan());
    }
}

proof fn lemma_peak_within(s: Seq<Point>, n: int, at: Timestamp, window_secs: u64, v: Real)
    requires
        0 <= n <= s.len(),
        all_numbers(s),
        !v.nan(),
    ensures
        !peak_within(s, n, at, window_secs, v).nan(),
        v.at_most(peak_within(s, n, at, window_secs, v)),
        forall|j: int|
            0 <= j < n && !has_passed(at, (#[trigger] s[j]).at, window_secs) ==> s[j].value.at_most(
                peak_within(s, n, at, window_secs, v),
            ),
        peak_within(s, n, at, window_secs, v) == v || exists|j: int|
            0 <= j < n && !has_passed(at, (#[trigger] s[j]).at, window_secs) && s[j].value
                == peak_within(s, n, at, window_secs, v),
    decreases n,
{
    if n > 0 {
        lemma_peak_within(s, n - 1, at, window_secs, v);
        assert(!s[n - 1].value.nan());
    }
}

/// As time goes on without worse churn, the reported peak only falls: the next
/// figure is at most the last one, or what the newest smoothed value itself adds.
pub proof fn law_peaks_only_decay(points: Seq<Point>, window_secs: u64, i: int)
    requires
        all_numbers(points),
        0 <= i,
        i + 1 < points.len(),
        points[i].at.nanos <= points[i + 1].at.nanos,
    ensures
        peaks(points, window_secs)[i + 1].value.at_most(
            peaks(points, window_secs)[i].value.larger(smoothed(points)[i + 1].value),
        ),
{
    lemma_smoothing_keeps_numbers(points);
    let calm = smoothed(points);
    assert(!calm[i].value.nan() && !calm[i + 1].value.nan());
    lemma_peak_within(calm, i + 1, points[i].at, window_secs, calm[i].value);
    lemma_peak_within(calm, i + 2, points[i + 1].at, window_secs, calm[i + 1].value);
    let next = peaks(points, window_secs)[i + 1].value;
    if next != calm[i + 1].value {
        let j = choose|j: int|
            0 <= j < i + 2 && !has_passed(points[i + 1].at, (#[trigger] calm[j]).at, window_secs)
                && calm[j].value == next;
        if j <= i {
            assert(!has_passed(points[i].at, calm[j].at, window_secs));
        }
    }
}

/// What is reported covers every smoothed value inside the window.
pub proof fn law_peaks_cover_the_window(points: Seq<Point>, window_secs: u64, i: int, j: int)
    requires
        all_numbers(points),
        0 <= j <= i < points.len(),
        !has_passed(points[i].at, points[j].at, window_secs),
    ensures
        smoothed(points)[j].value.at_most(peaks(points, window_secs)[i].value),
{
    lemma_smoothing_keeps_numbers(points);
    let calm = smoothed(points);
    assert(!calm[i].value.nan());
    assert(calm[j].at == points[j].at);
    lemma_peak_within(calm, i + 1, points[i].at, window_secs, calm[i].value);
}

proof fn lemma_same_samples(d: Dimension, a: Seq<Sample>, b: Seq<Sample>)
    requires
        a.len() == b.len(),
        forall|i: int|
            0 <= i < a.len() ==> (#[trigger] a[i]).sampled_at == b[i].sampled_at && said_by_sample(
                d,
                a[i],
            ) == said_by_sample(d, b[i]),
    ensures
        from_samples(d, a) == from_samples(d, b),
    decreases a.len(),
{
    if a.len() > 0 {
        let n = a.len() - 1;
        assert(a[n].sampled_at == b[n].sampled_at);
        assert forall|i: int| 0 <= i < n implies (#[trigger] a.drop_last()[i]).sampled_at
            == b.drop_last()[i].sampled_at && said_by_sample(d, a.drop_last()[i])
            == said_by_sample(d, b.drop_last()[i]) by {
            assert(a[i].sampled_at == b[i].sampled_at);
        }
        lemma_same_samples(d, a.drop_last(), b.drop_last());
    }
}

/// Swap is told in bytes, never as a share of a pool that grows: histories that
/// agree on the bytes in use say the same, whatever the pools.
pub proof fn law_swap_is_absolute(
    a: Seq<Sample>,
    b: Seq<Sample>,
    censuses: Seq<Census>,
    min_life_secs: u64,
)
    requires
        a.len() == b.len(),
        forall|i: int|
            0 <= i < a.len() ==> (#[trigger] a[i]).sampled_at == b[i].sampled_at
                && a[i].swap_used_bytes == b[i].swap_used_bytes,
    ensures
        observed(Dimension::Swap, a, censuses, min_life_secs) == observed(
            Dimension::Swap,
            b,
            censuses,
            min_life_secs,
        ),
{
    assert forall|i: int| 0 <= i < a.len() implies (#[trigger] a[i]).sampled_at == b[i].sampled_at
        && said_by_sample(Dimension::Swap, a[i]) == said_by_sample(Dimension::Swap, b[i]) by {
        assert(a[i].swap_used_bytes == b[i].swap_used_bytes);
    }
    lemma_same_samples(Dimension::Swap, a, b);
}

/// The kernel's word on memory is its own: it follows neither what is available
/// nor anything else that was measured.
pub proof fn law_the_kernel_speaks_for_itself(
    a: Seq<Sample>,
    b: Seq<Sample>,
    censuses: Seq<Census>,
    min_life_secs: u64,
)
    requires
        a.len() == b.len(),
        forall|i: int|
            0 <= i < a.len() ==> (#[trigger] a[i]).sampled_at == b[i].sampled_at
                && a[i].memory_pressure_level == b[i].memory_pressure_level
                && a[i].thermal_pressure_level == b[i].thermal_pressure_level,
    ensures
        observed(Dimension::KernelPressure, a, censuses, min_life_secs) == observed(
            Dimension::KernelPressure,
            b,
            censuses,
            min_life_secs,
        ),
        observed(Dimension::Thermal, a, censuses, min_life_secs) == observed(
            Dimension::Thermal,
            b,
            censuses,
            min_life_secs,
        ),
{
    assert forall|i: int| 0 <= i < a.len() implies (#[trigger] a[i]).sampled_at == b[i].sampled_at
        && said_by_sample(Dimension::KernelPressure, a[i]) == said_by_sample(
        Dimension::KernelPressure,
        b[i],
    ) by {
        assert(a[i].memory_pressure_level == b[i].memory_pressure_level);
    }
    lemma_same_samples(Dimension::KernelPressure, a, b);
    assert forall|i: int| 0 <= i < a.len() implies (#[trigger] a[i]).sampled_at == b[i].sampled_at
        && said_by_sample(Dimension::Thermal, a[i]) == said_by_sample(Dimension::Thermal, b[i]) by {
        assert(a[i].thermal_pressure_level == b[i].thermal_pressure_level);
    }
    lemma_same_samples(Dimension::Thermal, a, b);
}

/// The CPU is told by the ticks, never by the run queue: histories that agree on
/// the counters say the same, whatever their load.
pub proof fn law_load_is_not_utilization(
    a: Seq<Sample>,
    b: Seq<Sample>,
    censuses: Seq<Census>,
    min_life_secs: u64,
)
    requires
        a.len() == b.len(),
        forall|i: int|
            0 <= i < a.len() ==> {
                &&& (#[trigger] a[i]).sampled_at == b[i].sampled_at
                &&& a[i].boot_time_secs == b[i].boot_time_secs
                &&& a[i].swapins == b[i].swapins
                &&& a[i].swapouts == b[i].swapouts
                &&& a[i].cpu_ticks_total == b[i].cpu_ticks_total
                &&& a[i].cpu_ticks_idle == b[i].cpu_ticks_idle
            },
    ensures
        observed(Dimension::Cpu, a, censuses, min_life_secs) == observed(
            Dimension::Cpu,
            b,
            censuses,
            min_life_secs,
        ),
    decreases a.len(),
{
    if a.len() >= 2 {
        let n = a.len() - 1;
        assert(a[n].sampled_at == b[n].sampled_at);
        assert(a[n - 1].sampled_at == b[n - 1].sampled_at);
        assert forall|i: int| 0 <= i < n implies {
            &&& (#[trigger] a.drop_last()[i]).sampled_at == b.drop_last()[i].sampled_at
            &&& a.drop_last()[i].boot_time_secs == b.drop_last()[i].boot_time_secs
            &&& a.drop_last()[i].swapins == b.drop_last()[i].swapins
            &&& a.drop_last()[i].swapouts == b.drop_last()[i].swapouts
            &&& a.drop_last()[i].cpu_ticks_total == b.drop_last()[i].cpu_ticks_total
            &&& a.drop_last()[i].cpu_ticks_idle == b.drop_last()[i].cpu_ticks_idle
        } by {
            assert(a[i].sampled_at == b[i].sampled_at);
        }
        law_load_is_not_utilization(a.drop_last(), b.drop_last(), censuses, min_life_secs);
        assert(said_by_pair(Dimension::Cpu, a[n - 1], a[n]) == said_by_pair(
            Dimension::Cpu,
            b[n - 1],
            b[n],
        ));
    }
}

/// A pair of samples across a reboot says nothing of any dimension.
pub proof fn law_no_rate_across_a_reboot(d: Dimension, prev: Sample, curr: Sample)
    requires
        prev.boot_time_secs != curr.boot_time_secs,
    ensures
        said_by_pair(d, prev, curr) is None,
{
}

/// A level that was never recorded is no reading, calm or otherwise.
pub proof fn law_unrecorded_says_nothing(
    samples: Seq<Sample>,
    censuses: Seq<Census>,
    min_life_secs: u64,
)
    ensures
        (forall|i: int| 0 <= i < samples.len() ==> (#[trigger] samples[i]).memory_pressure_level == 0)
            ==> observed(Dimension::KernelPressure, samples, censuses, min_life_secs).len() == 0,
        (forall|i: int|
            0 <= i < samples.len() ==> (#[trigger] samples[i]).thermal_pressure_level is None)
            ==> observed(Dimension::Thermal, samples, censuses, min_life_secs).len() == 0,
        (forall|i: int|
            0 <= i < samples.len() ==> (#[trigger] samples[i]).kernel_free_percent is None)
            ==> observed(Dimension::KernelFree, samples, censuses, min_life_secs).len() == 0,
    decreases samples.len(),
{
    if samples.len() > 0 {
        let front = samples.drop_last();
        law_unrecorded_says_nothing(front, censuses, min_life_secs);
        assert(samples[samples.len() - 1] == samples.last());
        assert(forall|i: int| 0 <= i < front.len() ==> front[i] == #[trigger] samples[i]);
        assert(forall|i: int| 0 <= i < front.len() ==> (#[trigger] front[i]) == samples[i]);
    }
}

/// Without a census the dimensions that need one say nothing.
pub proof fn law_no_census_says_nothing(samples: Seq<Sample>, min_life_secs: u64)
    ensures
        observed(Dimension::Agents, samples, Seq::empty(), min_life_secs).len() == 0,
        observed(Dimension::Orphans, samples, Seq::empty(), min_life_secs).len() == 0,
        observed(Dimension::Corporate, samples, Seq::empty(), min_life_secs).len() == 0,
        observed(Dimension::Jetsam, samples, Seq::empty(), min_life_secs).len() == 0,
{
}

/// The number of kills an observation tells.
pub open spec fn told(o: Observation) -> int {
    match o.measure {
        Measure::Whole(n) => n as int,
        _ => 0,
    }
}

proof fn lemma_kills_told(s: Seq<Census>)
    ensures
        0 <= killed(s),
        forall|i: int|
            0 <= i < from_kills(s).len() ==> 0 <= told(#[trigger] from_kills(s)[i]) <= capped(
                killed(s),
            ),
    decreases s.len(),
{
    if s.len() > 0 {
        lemma_kills_told(s.drop_last());
        let front = from_kills(s.drop_last());
        assert forall|i: int| 0 <= i < from_kills(s).len() implies 0 <= told(
            #[trigger] from_kills(s)[i],
        ) <= capped(killed(s)) by {
            if i < front.len() {
                assert(from_kills(s)[i] == front[i]);
            }
        }
    }
}

/// A kill, once seen, stays seen: the running total never falls.
pub proof fn law_kills_accumulate(s: Seq<Census>, i: int, j: int)
    requires
        0 <= i <= j < from_kills(s).len(),
    ensures
        told(from_kills(s)[i]) <= told(from_kills(s)[j]),
    decreases s.len(),
{
    if s.len() > 0 {
        let front = from_kills(s.drop_last());
        lemma_kills_told(s.drop_last());
        if j < front.len() {
            law_kills_accumulate(s.drop_last(), i, j);
            assert(from_kills(s)[i] == front[i]);
            assert(from_kills(s)[j] == front[j]);
        } else if i < front.len() {
            assert(from_kills(s)[i] == front[i]);
        }
    }
}

/// From a point on nothing was missed: no two neighbours are further apart than
/// `ceiling` seconds.
pub open spec fn watched_from(points: Seq<Point>, ceiling: u64, from: int) -> bool {
    forall|i: int|
        from < i < points.len() ==> span_secs((#[trigger] points[i]).at, points[i - 1].at)
            <= ceiling
}

proof fn lemma_unbroken_is_watched(points: Seq<Point>, ceiling: u64, from: int, floor: int, at: int)
    requires
        0 <= floor <= at <= from < points.len(),
        forall|i: int|
            at < i <= from ==> span_secs((#[trigger] points[i]).at, points[i - 1].at) <= ceiling,
        at > floor ==> span_secs(points[at].at, points[at - 1].at) > ceiling,
    ensures
        unbroken_from(points, ceiling, from, floor) == at,
    decreases from - floor,
{
    if from > at {
        assert(span_secs(points[from].at, points[from - 1].at) <= ceiling);
        lemma_unbroken_is_watched(points, ceiling, from - 1, floor, at);
    }
}

/// A band that held over the trailing points, all of them watched, has held since
/// the first of them; and where something was missed among them, since the last
/// point that something was missed before, with how much.
pub proof fn law_a_band_holds_since_it_was_watched(
    points: Seq<Point>,
    ceiling: u64,
    held: usize,
    at: int,
)
    requires
        0 <= at < points.len(),
        held > 0,
        at >= points.len() - held,
        watched_from(points, ceiling, at),
    ensures
        at == points.len() - held || at == 0 ==> held_over(points, ceiling, held) == (Held {
            secs: span_secs(points.last().at, points[at].at),
            gap_secs: None,
        }),
        at > points.len() - held && at > 0 && span_secs(points[at].at, points[at - 1].at) > ceiling
            ==> held_over(points, ceiling, held) == (Held {
            secs: span_secs(points.last().at, points[at].at),
            gap_secs: Some(span_secs(points[at].at, points[at - 1].at)),
        }),
{
    let n = points.len();
    let floor = run_floor(points, held);
    assert forall|i: int| at < i <= n - 1 implies span_secs(
        (#[trigger] points[i]).at,
        points[i - 1].at,
    ) <= ceiling by {}
    if at == n - held || at == 0 {
        lemma_unbroken_is_watched(points, ceiling, n - 1, floor, at);
    } else if span_secs(points[at].at, points[at - 1].at) > ceiling {
        lemma_unbroken_is_watched(points, ceiling, n - 1, floor, at);
    }
}

/// Nothing has held where there is nothing, or no sample of it.
pub proof fn law_nothing_holds_without_samples(points: Seq<Point>, ceiling: u64, held: usize)
    requires
        points.len() == 0 || held == 0,
    ensures
        held_over(points, ceiling, held) == (Held { secs: 0, gap_secs: None }),
{
}

/// A trend is of the last stretch that was watched, and of that only where it spans
/// two different seconds.
pub proof fn law_a_trend_is_of_what_was_watched(
    points: Seq<Point>,
    ceiling: u64,
    slope: Option<Real>,
    at: int,
)
    requires
        0 <= at < points.len(),
        watched_from(points, ceiling, at),
        at > 0 ==> span_secs(points[at].at, points[at - 1].at) > ceiling,
    ensures
        tail_start(points, ceiling) == at,
        tail_trend(points, ceiling, slope) == if exists|i: int, j: int|
            at <= i < points.len() && at <= j < points.len() && (#[trigger] points[i]).at.nanos
                as int / 1_000_000_000 != (#[trigger] points[j]).at.nanos as int / 1_000_000_000 {
            slope
        } else {
            None
        },
{
    lemma_unbroken_is_watched(points, ceiling, points.len() - 1, 0, at);
    if exists|i: int, j: int|
        at <= i < points.len() && at <= j < points.len() && (#[trigger] points[i]).at.nanos as int
            / 1_000_000_000 != (#[trigger] points[j]).at.nanos as int / 1_000_000_000 {
        let (i, j) = choose|i: int, j: int|
            at <= i < points.len() && at <= j < points.len() && (#[trigger] points[i]).at.nanos
                as int / 1_000_000_000 != (#[trigger] points[j]).at.nanos as int / 1_000_000_000;
        assert(epoch_secs(points[i].at) != epoch_secs(points[at].at) || epoch_secs(points[j].at)
            != epoch_secs(points[at].at));
    }
    if spans_time(points, at) {
        let i = choose|i: int|
            at <= i < points.len() && epoch_secs((#[trigger] points[i]).at) != epoch_secs(
                points[at].at,
            );
        assert(points[i].at.nanos as int / 1_000_000_000 != points[at].at.nanos as int
            / 1_000_000_000);
    }
}

/// Three points or fewer are watched at the configured pace; more of them at their
/// own, where that is the slower one.
pub proof fn law_a_slow_series_is_not_broken(points: Seq<Point>, configured: u64, calibrated: u64)
    ensures
        points.len() <= 3 ==> ceiling_over(points, configured, calibrated) == configured,
        points.len() > 3 && calibrated > configured ==> ceiling_over(points, configured, calibrated)
            == calibrated,
        points.len() > 3 && calibrated <= configured ==> ceiling_over(
            points,
            configured,
            calibrated,
        ) == configured,
{
}

/// A value stands in the middle of some others: in the same values put in order it
/// is the one at half the length.
pub open spec fn is_middle(values: Seq<Real>, m: Real) -> bool {
    exists|t: Seq<Real>| #[trigger] is_ascending(t, values) && t[values.len() as int / 2] == m
}

/// The same values, in order.
pub open spec fn is_ascending(t: Seq<Real>, values: Seq<Real>) -> bool {
    &&& t.len() == values.len()
    &&& t.to_multiset() == values.to_multiset()
    &&& forall|i: int, j: int| 0 <= i < j < t.len() ==> !(#[trigger] t[j]).below(#[trigger] t[i])
}

proof fn lemma_median(values: Seq<Real>)
    requires
        forall|i: int| 0 <= i < values.len() ==> !(#[trigger] values[i]).nan(),
    ensures
        is_middle(values, median(values)),
{
    let first = order::<Real>();
    let number = |v: Real| !v.nan();
    let t = sorted_by(values, first);
    assert(weak_order(first, number));
    law_sorting(values, first, number);
    lemma_sorted_len(values, first);
    assert forall|i: int, j: int| 0 <= i < j < t.len() implies !(#[trigger] t[j]).below(
        #[trigger] t[i],
    ) by {
        assert(!first(t[j], t[i]));
    }
    assert(is_ascending(t, values));
}

/// Churn is smoothed over itself and the two before it: what is taken is the middle
/// one.
pub proof fn law_a_spike_is_weighed_against_its_neighbours(points: Seq<Point>, i: int)
    requires
        all_numbers(points),
        0 <= i < points.len(),
    ensures
        smoothed(points).len() == points.len(),
        smoothed(points)[i].at == points[i].at,
        i == 0 ==> is_middle(seq![points[0].value], smoothed(points)[i].value),
        i == 1 ==> is_middle(
            seq![points[0].value, points[1].value],
            smoothed(points)[i].value,
        ),
        i >= 2 ==> is_middle(
            seq![points[i - 2].value, points[i - 1].value, points[i].value],
            smoothed(points)[i].value,
        ),
{
    let lo = if i < 2 {
        0
    } else {
        i - 2
    };
    let s = stretch(points, lo, i);
    assert forall|k: int| 0 <= k < s.len() implies !(#[trigger] s[k]).nan() by {
        assert(!points[lo + k].value.nan());
    }
    lemma_median(s);
    if i == 0 {
        assert(s =~= seq![points[0].value]);
    } else if i == 1 {
        assert(s =~= seq![points[0].value, points[1].value]);
    } else {
        assert(s =~= seq![points[i - 2].value, points[i - 1].value, points[i].value]);
    }
}

/// A peak is reached: it is one of the smoothed values that lie inside the window
/// before it, its own among them, and none of those is above it.
pub proof fn law_a_peak_is_reached(points: Seq<Point>, window_secs: u64, i: int)
    requires
        all_numbers(points),
        0 <= i < points.len(),
    ensures
        peaks(points, window_secs).len() == points.len(),
        peaks(points, window_secs)[i].at == points[i].at,
        smoothed(points)[i].value.at_most(peaks(points, window_secs)[i].value),
        forall|j: int|
            0 <= j <= i && points[i].at.nanos - (#[trigger] points[j]).at.nanos < window_secs
                * 1_000_000_000 ==> smoothed(points)[j].value.at_most(
                peaks(points, window_secs)[i].value,
            ),
        exists|j: int|
            0 <= j <= i && (j == i || points[i].at.nanos - (#[trigger] points[j]).at.nanos
                < window_secs * 1_000_000_000) && smoothed(points)[j].value == peaks(
                points,
                window_secs,
            )[i].value,
{
    let calm = smoothed(points);
    lemma_smoothing_keeps_numbers(points);
    assert(!calm[i].value.nan());
    lemma_peak_within(calm, i + 1, points[i].at, window_secs, calm[i].value);
    let p = peaks(points, window_secs)[i].value;
    assert forall|j: int|
        0 <= j <= i && points[i].at.nanos - (#[trigger] points[j]).at.nanos < window_secs
            * 1_000_000_000 implies calm[j].value.at_most(p) by {
        assert(calm[j].at == points[j].at);
        assert(!has_passed(points[i].at, calm[j].at, window_secs));
    }
    if p == calm[i].value {
        assert(points[i].at == calm[i].at);
    } else {
        let j = choose|j: int|
            0 <= j < i + 1 && !has_passed(points[i].at, (#[trigger] calm[j]).at, window_secs)
                && calm[j].value == p;
        assert(points[j].at == calm[j].at);
    }
}

/// The pace of a series is its middle interval, once it has three.
pub proof fn law_the_pace_is_the_middle_interval(points: Seq<Point>)
    ensures
        points.len() < 4 ==> cadence(points) is None,
        points.len() >= 4 ==> exists|t: Seq<u64>|
            cadence(points) == Some(t[(points.len() - 1) / 2]) && t.to_multiset() == Seq::new(
                (points.len() - 1) as nat,
                |i: int| span_secs(points[i + 1].at, points[i].at),
            ).to_multiset() && #[trigger] no_fall(t) && t.len() == points.len() - 1,
{
    if points.len() >= 4 {
        let all = intervals(points);
        let first = order::<u64>();
        let any = |v: u64| true;
        let t = sorted_by(all, first);
        assert(weak_order(first, any));
        law_sorting(all, first, any);
        lemma_sorted_len(all, first);
        assert forall|i: int, j: int| 0 <= i < j < t.len() implies #[trigger] t[i]
            <= #[trigger] t[j] by {
            assert(!first(t[j], t[i]));
        }
        assert(no_fall(t));
        assert(all =~= Seq::new(
            (points.len() - 1) as nat,
            |i: int| span_secs(points[i + 1].at, points[i].at),
        ));
    }
}

/// Each is at least the one before it.
pub open spec fn no_fall(t: Seq<u64>) -> bool {
    forall|i: int, j: int| 0 <= i < j < t.len() ==> #[trigger] t[i] <= #[trigger] t[j]
}

/// One observation more is one point more, at its own time: a whole number as it
/// stands, a given one as it was given, and anything else as it was worked out.
pub proof fn law_an_observation_is_a_point(
    obs: Seq<Observation>,
    o: Observation,
    worked_out: Seq<Real>,
)
    ensures
        valued(Seq::empty(), worked_out).len() == 0,
        ({
            let before = valued(obs, worked_out);
            let after = valued(obs.push(o), worked_out);
            &&& o.measure matches Measure::Whole(k) ==> after == before.push(
                Point { at: o.at, value: real_of(k as nat) },
            )
            &&& o.measure matches Measure::Given(v) ==> after == before.push(
                Point { at: o.at, value: v },
            )
            &&& !(o.measure is Whole) && !(o.measure is Given) ==> after == if obs.len()
                < worked_out.len() {
                before.push(Point { at: o.at, value: worked_out[obs.len() as int] })
            } else {
                before
            }
        }),
{
    assert(obs.push(o).drop_last() =~= obs);
}

/// A gap that is reported is one of the distances between neighbours.
pub proof fn law_a_reported_gap_is_there(points: Seq<Point>, ceiling: u64, from: int, to: int)
    requires
        from <= to,
    ensures
        widest_gap(points, ceiling, from, to) matches Some(g) ==> exists|i: int|
            from < i <= to && #[trigger] interval(points, i) == g,
    decreases to - from,
{
    if from < to {
        law_a_reported_gap_is_there(points, ceiling, from, to - 1);
        if let Some(g) = widest_gap(points, ceiling, from, to) {
            if g == interval(points, to) {
                assert(from < to <= to);
            } else {
                let i = choose|i: int| from < i <= to - 1 && #[trigger] interval(points, i) == g;
                assert(interval(points, i) == g);
            }
        }
    }
}

} // verus!
