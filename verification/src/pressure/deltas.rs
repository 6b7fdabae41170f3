//! What changed: now against a moment before.
use vstd::prelude::*;

use super::config::{Dimension, PressureConfig, Source, Unit, ALL_DIMENSIONS};
use super::evaluate::{banded_series, evaluate, evaluation, points_for, Numbers};
use super::level::Level;
use super::lookback::{fmt_secs, span_words};
use super::series::{ceiling_over, widest_gap, Point};
use super::summary::{deltas_of_rows, ranked_rows, summary_of, ConsumerDeltaView, SummaryView};
use super::verdict::PressureView;
use super::who::zero;
use super::wording::{kernel_level_name, kernel_text, thermal_level_name, thermal_text};
use crate::census::Census;
use crate::number::{real_of, Real};
use crate::sample::Sample;
use crate::text::{join, joined, same_text, views};
use crate::time::{span_secs, Timestamp};

pub use super::lookback::{default_lookback_label, parse_lookback, Lookback, MIN_LOOKBACK_SECS};
pub use super::summary::{
    consumer_deltas, consumer_rows, consumer_words, summarise, CensusSummary, ConsumerDelta,
    ConsumerKind, ConsumerRow, ConsumerSize,
};

verus! {

broadcast use crate::text::lemma_views_push;

/// The verdict at both ends.
#[derive(Clone, Debug, PartialEq, Eq)]
pub struct VerdictDelta {
    pub then_level: Level,
    pub now_level: Level,
    pub then_source: Option<Source>,
    pub now_source: Option<Source>,
    /// `pressure Restless → Wailing`, or `pressure unchanged at Restless`.
    pub detail: String,
}

#[verifier::ext_equal]
pub struct VerdictDeltaView {
    pub then_level: Level,
    pub now_level: Level,
    pub then_source: Option<Source>,
    pub now_source: Option<Source>,
    pub detail: Seq<char>,
}

impl View for VerdictDelta {
    type V = VerdictDeltaView;

    open spec fn view(&self) -> VerdictDeltaView {
        VerdictDeltaView {
            then_level: self.then_level,
            now_level: self.now_level,
            then_source: self.then_source,
            now_source: self.now_source,
            detail: self.detail@,
        }
    }
}

/// One dimension's value at both ends.
#[derive(Clone, Debug, PartialEq, Eq)]
pub struct DimensionDelta {
    pub dimension: Dimension,
    pub key: String,
    pub label: String,
    pub unit: Unit,
    pub was: Real,
    pub now: Real,
    /// `now − then`.
    pub delta: Real,
    /// The observation compared against: the latest at or before the anchor, or
    /// the earliest there is.
    pub then_at: Timestamp,
    pub now_at: Timestamp,
    /// The largest gap between the two. A value means that the difference spans
    /// a time nobody was watching.
    pub observation_gap_secs: Option<u64>,
    pub detail: String,
}

#[verifier::ext_equal]
pub struct DimensionDeltaView {
    pub dimension: Dimension,
    pub key: Seq<char>,
    pub label: Seq<char>,
    pub unit: Unit,
    pub was: Real,
    pub now: Real,
    pub delta: Real,
    pub then_at: Timestamp,
    pub now_at: Timestamp,
    pub observation_gap_secs: Option<u64>,
    pub detail: Seq<char>,
}

impl View for DimensionDelta {
    type V = DimensionDeltaView;

    open spec fn view(&self) -> DimensionDeltaView {
        DimensionDeltaView {
            dimension: self.dimension,
            key: self.key@,
            label: self.label@,
            unit: self.unit,
            was: self.was,
            now: self.now,
            delta: self.delta,
            then_at: self.then_at,
            now_at: self.now_at,
            observation_gap_secs: self.observation_gap_secs,
            detail: self.detail@,
        }
    }
}

/// Which two censuses are compared.
#[derive(Clone, Copy, Debug, PartialEq, Eq, Structural)]
pub struct CensusPair {
    pub then_at: Timestamp,
    pub now_at: Timestamp,
}

/// What changed, by how much, across what, and the sentence.
#[derive(Clone, Debug, PartialEq, Eq)]
pub struct Deltas {
    pub evaluated_at: Timestamp,
    /// The lookback as requested.
    pub lookback: String,
    pub episode_id: Option<u128>,
    pub requested_lookback_secs: u64,
    /// The sample compared against.
    pub anchor_at: Option<Timestamp>,
    /// Shorter than requested when the history is.
    pub actual_lookback_secs: Option<u64>,
    pub verdict: Option<VerdictDelta>,
    /// Every dimension with two observations in reach.
    pub dimensions: Vec<DimensionDelta>,
    /// Every consumer in either census, largest change first.
    pub consumers: Vec<ConsumerDelta>,
    pub census: Option<CensusPair>,
    /// The largest gap of all the dimensions.
    pub observation_gap_secs: Option<u64>,
    pub summary: String,
}

#[verifier::ext_equal]
pub struct DeltasView {
    pub evaluated_at: Timestamp,
    pub lookback: Seq<char>,
    pub episode_id: Option<u128>,
    pub requested_lookback_secs: u64,
    pub anchor_at: Option<Timestamp>,
    pub actual_lookback_secs: Option<u64>,
    pub verdict: Option<VerdictDeltaView>,
    pub dimensions: Seq<DimensionDeltaView>,
    pub consumers: Seq<ConsumerDeltaView>,
    pub census: Option<CensusPair>,
    pub observation_gap_secs: Option<u64>,
    pub summary: Seq<char>,
}

pub open spec fn verdict_view(v: Option<VerdictDelta>) -> Option<VerdictDeltaView> {
    match v {
        Some(x) => Some(x@),
        None => None,
    }
}

impl View for Deltas {
    type V = DeltasView;

    open spec fn view(&self) -> DeltasView {
        DeltasView {
            evaluated_at: self.evaluated_at,
            lookback: self.lookback@,
            episode_id: self.episode_id,
            requested_lookback_secs: self.requested_lookback_secs,
            anchor_at: self.anchor_at,
            actual_lookback_secs: self.actual_lookback_secs,
            verdict: verdict_view(self.verdict),
            dimensions: views(self.dimensions@),
            consumers: views(self.consumers@),
            census: self.census,
            observation_gap_secs: self.observation_gap_secs,
            summary: self.summary@,
        }
    }
}

/// A dimension's two values and their difference, in digits.
#[derive(Clone, Debug, Default)]
pub struct DeltaWords {
    pub was: String,
    pub now: String,
    /// The difference with its sign.
    pub change: String,
    /// The difference without its sign, as a size.
    pub size: String,
    pub then_level: i64,
    pub now_level: i64,
}

/// What the arithmetic on real numbers gave for one dimension.
#[derive(Clone, Debug)]
pub struct DeltaFigures {
    /// The value of each observation, in order.
    pub values: Vec<Real>,
    pub calibrated_secs: u64,
    /// `now − then`.
    pub delta: Real,
    pub words: DeltaWords,
}

/// What the arithmetic on real numbers gave for one comparison.
#[derive(Clone, Debug)]
pub struct DeltaNumbers {
    /// One entry per dimension, in the order of `ALL_DIMENSIONS`.
    pub figures: [DeltaFigures; 14],
    /// For the verdict at the anchor.
    pub was: Numbers,
    /// For the verdict now.
    pub now: Numbers,
    /// The size that is told of each of the `consumer_rows`.
    pub sizes: Vec<String>,
}

pub open spec fn verdict_text(then: Level, now: Level) -> Seq<char> {
    if then == now {
        "pressure unchanged at "@ + now.name_text()
    } else {
        "pressure "@ + then.name_text() + " → "@ + now.name_text()
    }
}

/// `pressure Restless → Wailing`, or `pressure unchanged at Restless`.
pub fn verdict_words(then: Level, now: Level) -> (r: String)
    ensures
        r@ == verdict_text(then, now),
{
    if then == now {
        let mut out = "pressure unchanged at ".to_owned();
        out.append(now.name());
        out
    } else {
        let mut out = "pressure ".to_owned();
        out.append(then.name());
        out.append(" → ");
        out.append(now.name());
        out
    }
}

pub open spec fn noun_text(d: Dimension) -> Seq<char> {
    match d {
        Dimension::Cpu => "CPU"@,
        Dimension::Thermal => "thermal"@,
        Dimension::Memory => "available memory"@,
        Dimension::Swap => "swap"@,
        Dimension::KernelPressure => "kernel pressure"@,
        Dimension::Thrash => "peak thrash"@,
        Dimension::Agents => "stale sessions"@,
        Dimension::Orphans => "orphaned helpers"@,
        Dimension::Corporate => "managed agents"@,
        Dimension::Disk => "free disk"@,
        Dimension::Uptime => "uptime"@,
        Dimension::KernelFree => "kernel reclaimable"@,
        Dimension::Compressor => "compressed memory"@,
        Dimension::Jetsam => "memory kills"@,
    }
}

fn noun(d: Dimension) -> (r: &'static str)
    ensures
        r@ == noun_text(d),
{
    match d {
        Dimension::Cpu => "CPU",
        Dimension::Thermal => "thermal",
        Dimension::Memory => "available memory",
        Dimension::Swap => "swap",
        Dimension::KernelPressure => "kernel pressure",
        Dimension::Thrash => "peak thrash",
        Dimension::Agents => "stale sessions",
        Dimension::Orphans => "orphaned helpers",
        Dimension::Corporate => "managed agents",
        Dimension::Disk => "free disk",
        Dimension::Uptime => "uptime",
        Dimension::KernelFree => "kernel reclaimable",
        Dimension::Compressor => "compressed memory",
        Dimension::Jetsam => "memory kills",
    }
}

/// A size with the sign of the difference it is the size of.
pub open spec fn signed_text(delta: Real, size: Seq<char>) -> Seq<char> {
    (if zero().at_most(delta) {
        "+"@
    } else {
        "−"@
    }) + size
}

/// A size with its sign: `+1.3 GB`, or `−700.0 MB`.
pub fn signed_bytes(delta: Real, size: &str) -> (r: String)
    ensures
        r@ == signed_text(delta, size@),
{
    let none = Real { bits: 0 };
    let mut out = if none.is_at_most(delta) {
        "+".to_owned()
    } else {
        "−".to_owned()
    };
    out.append(size);
    out
}

/// `swap 12.0 GB → 13.3 GB (+1.3 GB)`
pub open spec fn dimension_text(d: Dimension, delta: Real, w: DeltaWords) -> Seq<char> {
    let head = noun_text(d) + " "@;
    match d {
        Dimension::Memory | Dimension::Swap | Dimension::Disk | Dimension::Compressor => head
            + w.was@ + " → "@ + w.now@ + " ("@ + signed_text(delta, w.size@) + ")"@,
        Dimension::Cpu => head + w.was@ + "% → "@ + w.now@ + "% busy ("@ + w.change@ + " pts)"@,
        Dimension::Thermal => head + thermal_text(w.then_level) + " → "@ + thermal_text(
            w.now_level,
        ),
        Dimension::KernelPressure => head + kernel_text(w.then_level) + " → "@ + kernel_text(
            w.now_level,
        ),
        Dimension::Thrash => head + w.was@ + " → "@ + w.now@ + " swap ops/sec ("@ + w.change@
            + ")"@,
        Dimension::Agents | Dimension::Orphans | Dimension::Jetsam => head + w.was@ + " → "@
            + w.now@ + " ("@ + w.change@ + ")"@,
        Dimension::Corporate => head + w.was@ + "% → "@ + w.now@ + "% of one core ("@ + w.change@
            + ")"@,
        Dimension::KernelFree => head + w.was@ + "% → "@ + w.now@ + "% ("@ + w.change@ + " pts)"@,
        Dimension::Uptime => head + w.was@ + " → "@ + w.now@ + " days"@,
    }
}

/// `head`, then the four pieces.
fn five(head: String, a: &str, b: &str, c: &str, d: &str) -> (r: String)
    ensures
        r@ == head@ + a@ + b@ + c@ + d@,
{
    let mut out = head;
    out.append(a);
    out.append(b);
    out.append(c);
    out.append(d);
    out
}

/// A dimension at both ends, in words: `swap 12.0 GB → 13.3 GB (+1.3 GB)`.
pub fn dimension_words(d: Dimension, delta: Real, w: &DeltaWords) -> (r: String)
    ensures
        r@ == dimension_text(d, delta, *w),
{
    let mut head = noun(d).to_owned();
    head.append(" ");
    let was = w.was.as_str();
    let now = w.now.as_str();
    match d {
        Dimension::Memory | Dimension::Swap | Dimension::Disk | Dimension::Compressor => {
            let mut out = five(head, was, " → ", now, " (");
            out.append(signed_bytes(delta, w.size.as_str()).as_str());
            out.append(")");
            out
        },
        Dimension::Cpu => {
            let mut out = five(head, was, "% → ", now, "% busy (");
            out.append(w.change.as_str());
            out.append(" pts)");
            out
        },
        Dimension::Thermal => {
            head.append(thermal_level_name(w.then_level).as_str());
            head.append(" → ");
            head.append(thermal_level_name(w.now_level).as_str());
            head
        },
        Dimension::KernelPressure => {
            head.append(kernel_level_name(w.then_level).as_str());
            head.append(" → ");
            head.append(kernel_level_name(w.now_level).as_str());
            head
        },
        Dimension::Thrash => {
            let mut out = five(head, was, " → ", now, " swap ops/sec (");
            out.append(w.change.as_str());
            out.append(")");
            out
        },
        Dimension::Agents | Dimension::Orphans | Dimension::Jetsam => {
            let mut out = five(head, was, " → ", now, " (");
            out.append(w.change.as_str());
            out.append(")");
            out
        },
        Dimension::Corporate => {
            let mut out = five(head, was, "% → ", now, "% of one core (");
            out.append(w.change.as_str());
            out.append(")");
            out
        },
        Dimension::KernelFree => {
            let mut out = five(head, was, "% → ", now, "% (");
            out.append(w.change.as_str());
            out.append(" pts)");
            out
        },
        Dimension::Uptime => five(head, was, " → ", now, " days"),
    }
}

/// The latest instant at or before `at`, or the earliest there is. `None` only
/// when there is none.
pub open spec fn anchor(times: Seq<Timestamp>, at: Timestamp) -> Option<int> {
    if times.len() == 0 {
        None
    } else {
        let i = last_upto(times, at);
        Some(if i < 0 {
                0
            } else {
                i
            })
    }
}

/// The last place at or before `at`, or -1.
pub open spec fn last_upto(times: Seq<Timestamp>, at: Timestamp) -> int
    decreases times.len(),
{
    if times.len() == 0 {
        -1
    } else if times.last().nanos <= at.nanos {
        times.len() - 1
    } else {
        last_upto(times.drop_last(), at)
    }
}

fn last_place(times: &Vec<Timestamp>, at: Timestamp) -> (r: Option<usize>)
    ensures
        match r {
            Some(i) => i == last_upto(times@, at) && i < times.len(),
            None => last_upto(times@, at) == -1,
        },
{
    let mut n: usize = times.len();
    assert(times@.take(n as int) =~= times@);
    while n > 0
        invariant
            n <= times.len(),
            last_upto(times@, at) == last_upto(times@.take(n as int), at),
        decreases n,
    {
        assert(times@.take(n as int).last() == times@[n - 1]);
        assert(times@.take(n as int).drop_last() =~= times@.take(n - 1));
        if times[n - 1].nanos <= at.nanos {
            return Some(n - 1);
        }
        n = n - 1;
    }
    None
}

/// The index of the latest instant at or before `then_at`, or the earliest where
/// the lookback reaches past the history.
pub fn anchor_index(times: &Vec<Timestamp>, then_at: Timestamp) -> (r: Option<usize>)
    ensures
        r is None <==> times@.len() == 0,
        r matches Some(i) ==> i < times.len() && anchor(times@, then_at) == Some(i as int),
{
    if times.len() == 0 {
        return None;
    }
    match last_place(times, then_at) {
        Some(i) => Some(i),
        None => Some(0),
    }
}

pub open spec fn sample_times(s: Seq<Sample>) -> Seq<Timestamp> {
    s.map_values(|x: Sample| x.sampled_at)
}

pub open spec fn census_times(s: Seq<Census>) -> Seq<Timestamp> {
    s.map_values(|x: Census| x.taken_at)
}

pub open spec fn point_times(s: Seq<Point>) -> Seq<Timestamp> {
    s.map_values(|x: Point| x.at)
}

fn times_of_samples(s: &[Sample]) -> (r: Vec<Timestamp>)
    ensures
        r@ == sample_times(s@),
{
    let mut out: Vec<Timestamp> = Vec::new();
    let mut i: usize = 0;
    while i < s.len()
        invariant
            i <= s.len(),
            out@ == sample_times(s@).take(i as int),
        decreases s.len() - i,
    {
        out.push(s[i].sampled_at);
        i = i + 1;
        assert(out@ =~= sample_times(s@).take(i as int));
    }
    assert(out@ =~= sample_times(s@));
    out
}

fn times_of_censuses(s: &[Census]) -> (r: Vec<Timestamp>)
    ensures
        r@ == census_times(s@),
{
    let mut out: Vec<Timestamp> = Vec::new();
    let mut i: usize = 0;
    while i < s.len()
        invariant
            i <= s.len(),
            out@ == census_times(s@).take(i as int),
        decreases s.len() - i,
    {
        out.push(s[i].taken_at);
        i = i + 1;
        assert(out@ =~= census_times(s@).take(i as int));
    }
    assert(out@ =~= census_times(s@));
    out
}

fn times_of_points(s: &Vec<Point>) -> (r: Vec<Timestamp>)
    ensures
        r@ == point_times(s@),
{
    let mut out: Vec<Timestamp> = Vec::new();
    let mut i: usize = 0;
    while i < s.len()
        invariant
            i <= s.len(),
            out@ == point_times(s@).take(i as int),
        decreases s.len() - i,
    {
        out.push(s[i].at);
        i = i + 1;
        assert(out@ =~= point_times(s@).take(i as int));
    }
    assert(out@ =~= point_times(s@));
    out
}

/// The last `n` censuses taken at or before an instant.
pub open spec fn censuses_before(s: Seq<Census>, at: Timestamp, n: nat) -> Seq<Census> {
    let end = last_upto(census_times(s), at) + 1;
    s.subrange(
        if end < n {
            0
        } else {
            end - n
        },
        end,
    )
}

/// The last `n` censuses taken at or before `at`, oldest first.
pub fn last_n_before<'a>(censuses: &'a [Census], at: Timestamp, n: usize) -> (r: &'a [Census])
    ensures
        r@ == censuses_before(censuses@, at, n as nat),
{
    let times = times_of_censuses(censuses);
    let end: usize = match last_place(&times, at) {
        Some(i) => i + 1,
        None => 0,
    };
    let start: usize = if end < n {
        0
    } else {
        end - n
    };
    vstd::slice::slice_subrange(censuses, start, end)
}

/// What a comparison looks at.
#[verifier::ext_equal]
pub struct Comparison {
    pub now: Timestamp,
    pub then_at: Timestamp,
    pub samples: Seq<Sample>,
    pub censuses: Seq<Census>,
    pub config: PressureConfig,
    pub numbers: DeltaNumbers,
}

impl Comparison {
    /// The sample compared against.
    pub open spec fn anchor_place(self) -> Option<int> {
        anchor(sample_times(self.samples), self.then_at)
    }

    pub open spec fn anchor_at(self) -> Option<Timestamp> {
        match self.anchor_place() {
            Some(i) => Some(self.samples[i].sampled_at),
            None => None,
        }
    }

    pub open spec fn actual(self) -> Option<u64> {
        match self.anchor_at() {
            Some(t) => Some(span_secs(self.now, t)),
            None => None,
        }
    }

    /// The verdict on the history as it stood at a sample.
    pub open spec fn then_verdict(self, i: int) -> PressureView {
        let at = self.samples[i].sampled_at;
        evaluation(
            at,
            self.samples.take(i + 1),
            censuses_before(self.censuses, at, 3),
            self.config,
            self.numbers.was,
        )
    }

    pub open spec fn now_verdict(self) -> PressureView {
        evaluation(
            self.now,
            self.samples,
            censuses_before(self.censuses, self.now, 3),
            self.config,
            self.numbers.now,
        )
    }

    pub open spec fn verdict(self) -> Option<VerdictDeltaView> {
        match self.anchor_place() {
            None => None,
            Some(i) => {
                let then = self.then_verdict(i);
                let now = self.now_verdict();
                Some(
                    VerdictDeltaView {
                        then_level: then.level,
                        now_level: now.level,
                        then_source: then.source,
                        now_source: now.source,
                        detail: verdict_text(then.level, now.level),
                    },
                )
            },
        }
    }

    /// What a dimension did, when there are two observations to compare.
    pub open spec fn dimension(self, d: Dimension) -> Option<DimensionDeltaView> {
        let f = self.numbers.figures@[d.place()];
        let points = points_for(d, self.samples, self.censuses, self.config, f.values@);
        let last = points.len() - 1;
        match anchor(point_times(points), self.then_at) {
            Some(i) if i < last => Some(
                DimensionDeltaView {
                    dimension: d,
                    key: d.key_text(),
                    label: d.label_text(),
                    unit: d.measured_in(),
                    was: points[i].value,
                    now: points[last].value,
                    delta: f.delta,
                    then_at: points[i].at,
                    now_at: points[last].at,
                    observation_gap_secs: widest_gap(
                        points,
                        ceiling_over(points, self.config.ceiling_of(d), f.calibrated_secs),
                        i,
                        last,
                    ),
                    detail: dimension_text(d, f.delta, f.words),
                },
            ),
            _ => None,
        }
    }

    pub open spec fn dimensions(self, k: int) -> Seq<DimensionDeltaView>
        decreases k,
    {
        if k <= 0 {
            Seq::empty()
        } else {
            let front = self.dimensions(k - 1);
            match self.dimension(ALL_DIMENSIONS@[k - 1]) {
                Some(x) => front.push(x),
                None => front,
            }
        }
    }

    /// The summary compared against: the one given, or that of the census at the
    /// anchor.
    pub open spec fn then_summary(self, given: Option<SummaryView>) -> Option<SummaryView> {
        match given {
            Some(s) => Some(s),
            None => match anchor(census_times(self.censuses), self.then_at) {
                Some(i) => Some(summary_of(self.censuses[i])),
                None => None,
            },
        }
    }

    /// The two summaries, when the older one is older than the newest census.
    pub open spec fn summaries(self, given: Option<SummaryView>) -> Option<
        (SummaryView, SummaryView),
    > {
        match self.then_summary(given) {
            Some(then) => if self.censuses.len() > 0 && then.taken_at.nanos
                < self.censuses.last().taken_at.nanos {
                Some((then, summary_of(self.censuses.last())))
            } else {
                None
            },
            None => None,
        }
    }

    pub open spec fn consumers(self, given: Option<SummaryView>) -> Seq<ConsumerDeltaView> {
        match self.summaries(given) {
            Some((then, now)) => deltas_of_rows(ranked_rows(then, now), self.numbers.sizes@),
            None => Seq::empty(),
        }
    }

    pub open spec fn pair(self, given: Option<SummaryView>) -> Option<CensusPair> {
        match self.summaries(given) {
            Some((then, now)) => Some(CensusPair { then_at: then.taken_at, now_at: now.taken_at }),
            None => None,
        }
    }

    pub open spec fn swap_size(self) -> Seq<char> {
        self.numbers.figures@[Dimension::Swap.place()].words.size@
    }

    pub open spec fn memory_size(self) -> Seq<char> {
        self.numbers.figures@[Dimension::Memory.place()].words.size@
    }
}

/// The widest of some gaps.
pub open spec fn widest_of(s: Seq<DimensionDeltaView>) -> Option<u64>
    decreases s.len(),
{
    if s.len() == 0 {
        None
    } else {
        let front = widest_of(s.drop_last());
        match (front, s.last().observation_gap_secs) {
            (Some(a), Some(b)) => if a > b {
                Some(a)
            } else {
                Some(b)
            },
            (None, b) => b,
            (a, None) => a,
        }
    }
}

/// The first delta of a dimension.
pub open spec fn delta_about(s: Seq<DimensionDeltaView>, d: Dimension) -> Option<
    DimensionDeltaView,
>
    decreases s.len(),
{
    if s.len() == 0 {
        None
    } else if s[0].dimension == d {
        Some(s[0])
    } else {
        delta_about(s.drop_first(), d)
    }
}

/// Whether a change is large enough to be told.
pub open spec fn reaches(delta: Real, least: int) -> bool {
    !delta.nan() && real_of(least as nat).at_most(delta.size())
}

pub open spec fn size_of_change(c: ConsumerDeltaView) -> int {
    if c.delta_bytes < 0 {
        -c.delta_bytes
    } else {
        c.delta_bytes as int
    }
}

/// The first `limit` consumers that moved enough.
pub open spec fn movers(s: Seq<ConsumerDeltaView>, least: int, limit: nat) -> Seq<
    ConsumerDeltaView,
>
    decreases s.len(),
{
    if s.len() == 0 {
        Seq::empty()
    } else {
        let front = movers(s.drop_last(), least, limit);
        if size_of_change(s.last()) >= least && front.len() < limit {
            front.push(s.last())
        } else {
            front
        }
    }
}

pub open spec fn freed_any(s: Seq<ConsumerDeltaView>) -> bool {
    exists|i: int| 0 <= i < s.len() && (#[trigger] s[i]).delta_bytes < 0
}

pub open spec fn details_of(s: Seq<ConsumerDeltaView>) -> Seq<Seq<char>> {
    s.map_values(|c: ConsumerDeltaView| c.detail)
}

/// The clause about swap or memory, when it moved enough. "Still" says that
/// something was freed and the machine got no better.
pub open spec fn memory_clause(
    clauses: Seq<Seq<char>>,
    d: Dimension,
    up: Seq<char>,
    down: Seq<char>,
    size: Seq<char>,
    dimensions: Seq<DimensionDeltaView>,
    freed: bool,
    worse: bool,
    least: int,
) -> Seq<Seq<char>> {
    match delta_about(dimensions, d) {
        Some(x) if reaches(x.delta, least) => {
            let rose = zero().below(x.delta);
            clauses.push(
                noun_text(d) + " "@ + (if freed && worse && ((d == Dimension::Swap) == rose) {
                    "still "@
                } else {
                    ""@
                }) + (if rose {
                    up
                } else {
                    down
                }) + " "@ + size,
            )
        },
        _ => clauses,
    }
}

/// The clause about the verdict.
pub open spec fn verdict_clause(clauses: Seq<Seq<char>>, v: Option<VerdictDeltaView>) -> Seq<
    Seq<char>,
> {
    match v {
        Some(x) => clauses.push(
            if x.then_level == Level::Checking {
                "no trustworthy verdict at the anchor; pressure now "@ + x.now_level.name_text()
            } else {
                x.detail
            },
        ),
        None => clauses,
    }
}

/// What the sentence says, clause by clause.
pub open spec fn clauses_of(
    verdict: Option<VerdictDeltaView>,
    dimensions: Seq<DimensionDeltaView>,
    consumers: Seq<ConsumerDeltaView>,
    gap: Option<u64>,
    swap_size: Seq<char>,
    memory_size: Seq<char>,
    config: PressureConfig,
) -> Seq<Seq<char>> {
    let least = config.deltas_min_consumer_bytes as int;
    let moved = movers(consumers, least, config.who_limit as nat);
    let freed = freed_any(moved);
    let worse = verdict matches Some(v) && v.now_level.height() >= v.then_level.height();
    let swap = memory_clause(
        details_of(moved),
        Dimension::Swap,
        "grew"@,
        "shrank"@,
        swap_size,
        dimensions,
        freed,
        worse,
        least,
    );
    let memory = memory_clause(
        swap,
        Dimension::Memory,
        "rose"@,
        "fell"@,
        memory_size,
        dimensions,
        freed,
        worse,
        least,
    );
    let judged = verdict_clause(memory, verdict);
    let said = if judged.len() == 0 {
        judged.push("nothing moved"@)
    } else {
        judged
    };
    match gap {
        Some(g) => said.push(
            "not observed for "@ + span_words(g) + " in between — this arithmetic spans a hole"@,
        ),
        None => said,
    }
}

/// How the sentence begins. An anchor a tick short of the request is the
/// request.
pub open spec fn head_text(
    lookback: Seq<char>,
    requested: u64,
    actual: u64,
    config: PressureConfig,
) -> Seq<char> {
    let head = if lookback == "episode"@ {
        "since the episode opened "@ + span_words(actual) + " ago"@
    } else {
        "vs "@ + span_words(actual) + " ago"@
    };
    if actual + config.sample_interval_secs < requested {
        head + " (asked for "@ + span_words(requested) + ")"@
    } else {
        head
    }
}

/// The sentence.
pub open spec fn sentence_text(
    lookback: Seq<char>,
    requested: u64,
    actual: Option<u64>,
    verdict: Option<VerdictDeltaView>,
    dimensions: Seq<DimensionDeltaView>,
    consumers: Seq<ConsumerDeltaView>,
    gap: Option<u64>,
    swap_size: Seq<char>,
    memory_size: Seq<char>,
    config: PressureConfig,
) -> Seq<char> {
    match actual {
        None => "vs "@ + lookback + ": nothing to compare yet — no samples in the window."@,
        Some(a) => head_text(lookback, requested, a, config) + ": "@ + joined(
            clauses_of(
                verdict,
                dimensions,
                consumers,
                gap,
                swap_size,
                memory_size,
                config,
            ),
            "; "@,
        ) + "."@,
    }
}

impl Comparison {
    pub open spec fn deltas(
        self,
        lookback: Seq<char>,
        episode_id: Option<u128>,
        given: Option<SummaryView>,
    ) -> DeltasView {
        let requested = span_secs(self.now, self.then_at);
        let dimensions = self.dimensions(14);
        let gap = widest_of(dimensions);
        DeltasView {
            evaluated_at: self.now,
            lookback,
            episode_id,
            requested_lookback_secs: requested,
            anchor_at: self.anchor_at(),
            actual_lookback_secs: self.actual(),
            verdict: self.verdict(),
            dimensions,
            consumers: self.consumers(given),
            census: self.pair(given),
            observation_gap_secs: gap,
            summary: sentence_text(
                lookback,
                requested,
                self.actual(),
                self.verdict(),
                dimensions,
                self.consumers(given),
                gap,
                self.swap_size(),
                self.memory_size(),
                self.config,
            ),
        }
    }
}

fn find_delta<'a>(s: &'a Vec<DimensionDelta>, d: Dimension) -> (r: Option<&'a DimensionDelta>)
    ensures
        match r {
            Some(x) => delta_about(views(s@), d) == Some(x@),
            None => delta_about(views(s@), d) is None,
        },
{
    let ghost all = views(s@);
    let mut i: usize = 0;
    assert(all.skip(0) =~= all);
    while i < s.len()
        invariant
            i <= s.len(),
            all == views(s@),
            delta_about(all, d) == delta_about(all.skip(i as int), d),
        decreases s.len() - i,
    {
        assert(all.skip(i as int)[0] == s[i as int]@);
        assert(all.skip(i as int).drop_first() =~= all.skip(i + 1));
        if s[i].dimension == d {
            return Some(&s[i]);
        }
        i = i + 1;
    }
    None
}

fn push_memory_clause(
    clauses: &mut Vec<String>,
    d: Dimension,
    up: &str,
    down: &str,
    size: &str,
    dimensions: &Vec<DimensionDelta>,
    freed: bool,
    worse: bool,
    least: u64,
)
    ensures
        views(final(clauses)@) == memory_clause(
            views(old(clauses)@),
            d,
            up@,
            down@,
            size@,
            views(dimensions@),
            freed,
            worse,
            least as int,
        ),
{
    match find_delta(dimensions, d) {
        Some(x) => {
            if !x.delta.is_nan() && Real::from_u64(least).is_at_most(x.delta.abs()) {
                let none = Real { bits: 0 };
                let rose = none.is_below(x.delta);
                let mut out = noun(d).to_owned();
                out.append(" ");
                out.append(
                    if freed && worse && ((d == Dimension::Swap) == rose) {
                        "still "
                    } else {
                        ""
                    },
                );
                out.append(
                    if rose {
                        up
                    } else {
                        down
                    },
                );
                out.append(" ");
                out.append(size);
                clauses.push(out);
            }
        },
        None => {},
    }
}

/// The sentence: the consumers that moved, then swap and memory where they did,
/// then the verdict, then what must be admitted.
pub fn sentence(
    lookback: &str,
    requested: u64,
    actual: Option<u64>,
    verdict: &Option<VerdictDelta>,
    dimensions: &Vec<DimensionDelta>,
    consumers: &Vec<ConsumerDelta>,
    gap: Option<u64>,
    swap_size: &str,
    memory_size: &str,
    config: &PressureConfig,
) -> (r: String)
    ensures
        r@ == sentence_text(
            lookback@,
            requested,
            actual,
            verdict_view(*verdict),
            views(dimensions@),
            views(consumers@),
            gap,
            swap_size@,
            memory_size@,
            *config,
        ),
{
    let actual = match actual {
        Some(a) => a,
        None => {
            let mut out = "vs ".to_owned();
            out.append(lookback);
            out.append(": nothing to compare yet — no samples in the window.");
            return out;
        },
    };
    let mut head = if same_text(lookback, "episode") {
        let mut h = "since the episode opened ".to_owned();
        h.append(fmt_secs(actual).as_str());
        h.append(" ago");
        h
    } else {
        let mut h = "vs ".to_owned();
        h.append(fmt_secs(actual).as_str());
        h.append(" ago");
        h
    };
    if (actual as u128) + (config.sample_interval_secs as u128) < requested as u128 {
        head.append(" (asked for ");
        head.append(fmt_secs(requested).as_str());
        head.append(")");
    }
    assert(head@ == head_text(lookback@, requested, actual, *config));
    let least: u64 = config.deltas_min_consumer_bytes;
    let mut clauses: Vec<String> = Vec::new();
    let mut freed = false;
    let ghost all = views(consumers@);
    let ghost limit = config.who_limit as nat;
    let mut i: usize = 0;
    assert(all.take(0) =~= Seq::empty());
    assert(views(clauses@) =~= details_of(movers(all.take(0), least as int, limit)));
    while i < consumers.len()
        invariant
            i <= consumers.len(),
            all == views(consumers@),
            limit == config.who_limit,
            views(clauses@) == details_of(movers(all.take(i as int), least as int, limit)),
            freed == freed_any(movers(all.take(i as int), least as int, limit)),
        decreases consumers.len() - i,
    {
        let c = &consumers[i];
        let ghost before = movers(all.take(i as int), least as int, limit);
        let ghost after = movers(all.take(i + 1), least as int, limit);
        proof {
            assert(all.take(i + 1).drop_last() =~= all.take(i as int));
            assert(all.take(i + 1).last() == c@);
            assert(views(clauses@).len() == before.len());
        }
        let size: i128 = if c.delta_bytes < 0 {
            -(c.delta_bytes as i128)
        } else {
            c.delta_bytes as i128
        };
        if size >= least as i128 && clauses.len() < config.who_limit {
            clauses.push(c.detail.clone());
            proof {
                assert(after == before.push(c@));
                assert(details_of(after) =~= details_of(before).push(c@.detail));
                if freed_any(before) {
                    let k = choose|k: int|
                        0 <= k < before.len() && (#[trigger] before[k]).delta_bytes < 0;
                    assert(after[k] == before[k]);
                }
                if c.delta_bytes < 0 {
                    assert(after[before.len() as int].delta_bytes < 0);
                }
                if freed_any(after) {
                    let k = choose|k: int|
                        0 <= k < after.len() && (#[trigger] after[k]).delta_bytes < 0;
                    if k < before.len() {
                        assert(before[k] == after[k]);
                    }
                }
            }
            if c.delta_bytes < 0 {
                freed = true;
            }
        } else {
            assert(after == before);
        }
        i = i + 1;
    }
    assert(all.take(i as int) =~= all);
    let worse = match verdict {
        Some(v) => v.now_level.rank() >= v.then_level.rank(),
        None => false,
    };
    push_memory_clause(
        &mut clauses,
        Dimension::Swap,
        "grew",
        "shrank",
        swap_size,
        dimensions,
        freed,
        worse,
        least,
    );
    push_memory_clause(
        &mut clauses,
        Dimension::Memory,
        "rose",
        "fell",
        memory_size,
        dimensions,
        freed,
        worse,
        least,
    );
    match verdict {
        Some(v) => {
            let clause = if v.then_level == Level::Checking {
                let mut c = "no trustworthy verdict at the anchor; pressure now ".to_owned();
                c.append(v.now_level.name());
                c
            } else {
                v.detail.clone()
            };
            clauses.push(clause);
        },
        None => {},
    }
    if clauses.len() == 0 {
        assert(views(clauses@).len() == 0);
        clauses.push("nothing moved".to_owned());
    } else {
        assert(views(clauses@).len() > 0);
    }
    match gap {
        Some(g) => {
            let mut c = "not observed for ".to_owned();
            c.append(fmt_secs(g).as_str());
            c.append(" in between — this arithmetic spans a hole");
            clauses.push(c);
        },
        None => {},
    }
    head.append(": ");
    head.append(join(&clauses, "; ").as_str());
    head.append(".");
    head
}

fn compare_dimension(
    d: Dimension,
    k: usize,
    then_at: Timestamp,
    samples: &[Sample],
    censuses: &[Census],
    config: &PressureConfig,
    numbers: &DeltaNumbers,
    Ghost(c): Ghost<Comparison>,
) -> (r: Option<DimensionDelta>)
    requires
        k == d.place(),
        k < 14,
        c.then_at == then_at,
        c.samples == samples@,
        c.censuses == censuses@,
        c.config == *config,
        c.numbers == *numbers,
    ensures
        match r {
            Some(x) => c.dimension(d) == Some(x@),
            None => c.dimension(d) is None,
        },
{
    let f = &numbers.figures[k];
    let series = banded_series(d, samples, censuses, config, &f.values, f.calibrated_secs);
    let times = times_of_points(&series.points);
    let from: usize = match anchor_index(&times, then_at) {
        Some(i) => i,
        None => {
            return None;
        },
    };
    let last: usize = series.points.len() - 1;
    if from == last {
        // One observation is not a comparison.
        return None;
    }
    let r = DimensionDelta {
        dimension: d,
        key: d.key().to_owned(),
        label: d.label().to_owned(),
        unit: d.unit(),
        was: series.points[from].value,
        now: series.points[last].value,
        delta: f.delta,
        then_at: series.points[from].at,
        now_at: series.points[last].at,
        observation_gap_secs: series.largest_gap_between(from, last),
        detail: dimension_words(d, f.delta, &f.words),
    };
    assert(c.dimension(d) == Some(r@));
    Some(r)
}

fn widest(s: &Vec<DimensionDelta>) -> (r: Option<u64>)
    ensures
        r == widest_of(views(s@)),
{
    let ghost all = views(s@);
    let mut r: Option<u64> = None;
    let mut i: usize = 0;
    assert(all.take(0) =~= Seq::empty());
    while i < s.len()
        invariant
            i <= s.len(),
            all == views(s@),
            r == widest_of(all.take(i as int)),
        decreases s.len() - i,
    {
        assert(all.take(i + 1).drop_last() =~= all.take(i as int));
        assert(all.take(i + 1).last() == s[i as int]@);
        r = match (r, s[i].observation_gap_secs) {
            (Some(a), Some(b)) => if a > b {
                Some(a)
            } else {
                Some(b)
            },
            (None, b) => b,
            (a, None) => a,
        };
        i = i + 1;
    }
    assert(all.take(i as int) =~= all);
    r
}

pub open spec fn summary_view(s: Option<&CensusSummary>) -> Option<SummaryView> {
    match s {
        Some(x) => Some(x@),
        None => None,
    }
}

/// What changed between `then_at` and now. `then_census_override` is a stored
/// summary to compare against; without one it is the census at the anchor.
pub fn compute(
    now: Timestamp,
    then_at: Timestamp,
    lookback: &str,
    episode_id: Option<u128>,
    then_census_override: Option<&CensusSummary>,
    samples: &[Sample],
    censuses: &[Census],
    config: &PressureConfig,
    numbers: &DeltaNumbers,
) -> (r: Deltas)
    ensures
        r@ == (Comparison {
            now,
            then_at,
            samples: samples@,
            censuses: censuses@,
            config: *config,
            numbers: *numbers,
        }).deltas(lookback@, episode_id, summary_view(then_census_override)),
{
    let ghost c = Comparison {
        now,
        then_at,
        samples: samples@,
        censuses: censuses@,
        config: *config,
        numbers: *numbers,
    };
    let ghost given = summary_view(then_census_override);
    let requested: u64 = now.secs_since(then_at);
    let sampled = times_of_samples(samples);
    let place = anchor_index(&sampled, then_at);
    let mut anchor_at: Option<Timestamp> = None;
    let mut actual: Option<u64> = None;
    let mut verdict: Option<VerdictDelta> = None;
    match place {
        Some(i) => {
            let at = samples[i].sampled_at;
            // The history as it stood: the samples up to the anchor and the
            // newest censuses taken by it.
            let seen = vstd::slice::slice_subrange(samples, 0, i + 1);
            let was = evaluate(at, seen, last_n_before(censuses, at, 3), config, &numbers.was);
            let is = evaluate(now, samples, last_n_before(censuses, now, 3), config, &numbers.now);
            anchor_at = Some(at);
            actual = Some(now.secs_since(at));
            let v = VerdictDelta {
                then_level: was.level,
                now_level: is.level,
                then_source: was.source,
                now_source: is.source,
                detail: verdict_words(was.level, is.level),
            };
            proof {
                assert(seen@ =~= samples@.take(i + 1));
                assert(was@ == c.then_verdict(i as int));
                assert(c.verdict() == Some(v@));
            }
            verdict = Some(v);
        },
        None => {},
    }
    assert(anchor_at == c.anchor_at());
    assert(actual == c.actual());
    assert(verdict_view(verdict) == c.verdict());
    let mut dimensions: Vec<DimensionDelta> = Vec::new();
    let mut k: usize = 0;
    assert(views(dimensions@) =~= c.dimensions(0));
    while k < 14
        invariant
            k <= 14,
            c.then_at == then_at,
            c.samples == samples@,
            c.censuses == censuses@,
            c.config == *config,
            c.numbers == *numbers,
            views(dimensions@) == c.dimensions(k as int),
        decreases 14 - k,
    {
        let d = ALL_DIMENSIONS[k];
        match compare_dimension(d, k, then_at, samples, censuses, config, numbers, Ghost(c)) {
            Some(x) => {
                dimensions.push(x);
            },
            None => {},
        }
        k = k + 1;
    }
    let taken = times_of_censuses(censuses);
    let stored: Option<CensusSummary> = match then_census_override {
        Some(s) => Some(s.copied()),
        None => match anchor_index(&taken, then_at) {
            Some(i) => Some(summarise(&censuses[i])),
            None => None,
        },
    };
    let mut consumers: Vec<ConsumerDelta> = Vec::new();
    let mut pair: Option<CensusPair> = None;
    assert(views(consumers@) =~= Seq::empty());
    match stored {
        Some(then) => {
            assert(c.then_summary(given) == Some(then@));
            if censuses.len() > 0 && then.taken_at.nanos < censuses[censuses.len()
                - 1].taken_at.nanos {
                let newest = summarise(&censuses[censuses.len() - 1]);
                consumers = consumer_deltas(&then, &newest, &numbers.sizes);
                pair = Some(CensusPair { then_at: then.taken_at, now_at: newest.taken_at });
            }
        },
        None => {
            assert(c.then_summary(given) is None);
        },
    }
    assert(views(consumers@) == c.consumers(given));
    assert(pair == c.pair(given));
    let gap = widest(&dimensions);
    let summary = sentence(
        lookback,
        requested,
        actual,
        &verdict,
        &dimensions,
        &consumers,
        gap,
        numbers.figures[3].words.size.as_str(),
        numbers.figures[2].words.size.as_str(),
        config,
    );
    let r = Deltas {
        evaluated_at: now,
        lookback: lookback.to_owned(),
        episode_id,
        requested_lookback_secs: requested,
        anchor_at,
        actual_lookback_secs: actual,
        verdict,
        dimensions,
        consumers,
        census: pair,
        observation_gap_secs: gap,
        summary,
    };
    assert(r@ =~= c.deltas(lookback@, episode_id, given));
    r
}

pub proof fn lemma_last_upto(times: Seq<Timestamp>, at: Timestamp)
    ensures
        -1 <= last_upto(times, at) < times.len(),
        last_upto(times, at) >= 0 ==> times[last_upto(times, at)].nanos <= at.nanos,
        forall|j: int| last_upto(times, at) < j < times.len() ==> (#[trigger] times[j]).nanos
            > at.nanos,
    decreases times.len(),
{
    if times.len() > 0 && times.last().nanos > at.nanos {
        let front = times.drop_last();
        lemma_last_upto(front, at);
        assert forall|j: int| last_upto(times, at) < j < times.len() implies (
        #[trigger] times[j]).nanos > at.nanos by {
            if j < front.len() {
                assert(front[j] == times[j]);
            }
        }
    }
}

/// The anchor is the latest instant at or before the one asked for, or the
/// earliest where the lookback reaches past the history. There is none only where
/// there is no history.
pub proof fn law_the_anchor(times: Seq<Timestamp>, at: Timestamp)
    ensures
        anchor(times, at) is None <==> times.len() == 0,
        anchor(times, at) matches Some(i) ==> {
            &&& 0 <= i < times.len()
            &&& forall|j: int| i < j < times.len() ==> (#[trigger] times[j]).nanos > at.nanos
            &&& times[i].nanos <= at.nanos || i == 0
        },
{
    lemma_last_upto(times, at);
}

/// The censuses an evaluation is given are the newest that had been taken: all
/// were taken by then, none that had been is newer than they are, and there are as
/// many as asked for wherever that many had been taken.
pub proof fn law_the_newest_by_then(censuses: Seq<Census>, at: Timestamp, n: nat)
    requires
        forall|i: int, j: int|
            0 <= i <= j < censuses.len() ==> (#[trigger] censuses[i]).taken_at.nanos <= (
            #[trigger] censuses[j]).taken_at.nanos,
    ensures
        ({
            let seen = censuses_before(censuses, at, n);
            let end = last_upto(census_times(censuses), at) + 1;
            &&& seen.len() == if end < n {
                end
            } else {
                n as int
            }
            &&& forall|i: int|
                0 <= i < seen.len() ==> (#[trigger] seen[i]).taken_at.nanos <= at.nanos
            &&& forall|i: int|
                0 <= i < seen.len() ==> (#[trigger] seen[i]) == censuses[end - seen.len() + i]
            &&& forall|j: int|
                end <= j < censuses.len() ==> (#[trigger] censuses[j]).taken_at.nanos > at.nanos
        }),
{
    let times = census_times(censuses);
    lemma_last_upto(times, at);
    let end = last_upto(times, at) + 1;
    let seen = censuses_before(censuses, at, n);
    if end > 0 {
        assert(times[end - 1] == censuses[end - 1].taken_at);
    }
    assert forall|j: int| end <= j < censuses.len() implies (#[trigger] censuses[j]).taken_at.nanos
        > at.nanos by {
        assert(times[j].nanos > at.nanos);
    }
    assert forall|i: int| 0 <= i < seen.len() implies (#[trigger] seen[i]).taken_at.nanos
        <= at.nanos by {
        assert(seen[i] == censuses[end - seen.len() + i]);
        assert(censuses[end - seen.len() + i].taken_at.nanos <= censuses[end - 1].taken_at.nanos);
    }
}

/// The hole that is told of a comparison is the widest of its dimensions, and one
/// is told exactly when some dimension has one.
pub proof fn law_the_widest_hole_is_told(s: Seq<DimensionDeltaView>)
    ensures
        widest_of(s) is None <==> forall|i: int|
            0 <= i < s.len() ==> (#[trigger] s[i]).observation_gap_secs is None,
        widest_of(s) matches Some(g) ==> forall|i: int|
            0 <= i < s.len() ==> ((#[trigger] s[i]).observation_gap_secs matches Some(x) ==> x
                <= g),
        widest_of(s) matches Some(g) ==> exists|i: int|
            0 <= i < s.len() && (#[trigger] s[i]).observation_gap_secs == Some(g),
    decreases s.len(),
{
    if s.len() > 0 {
        let front = s.drop_last();
        law_the_widest_hole_is_told(front);
        let last = s[s.len() - 1];
        assert(s.last() == last);
        assert(forall|i: int| 0 <= i < front.len() ==> (#[trigger] front[i]) == s[i]);
        assert forall|i: int| widest_of(s) is None && 0 <= i < s.len() implies (
        #[trigger] s[i]).observation_gap_secs is None by {
            if i < front.len() {
                assert(front[i] == s[i]);
            }
        }
        match widest_of(s) {
            Some(g) => {
                assert forall|i: int| 0 <= i < s.len() implies ((
                #[trigger] s[i]).observation_gap_secs matches Some(x) ==> x <= g) by {
                    if i < front.len() {
                        assert(front[i] == s[i]);
                    }
                }
                if last.observation_gap_secs == Some(g) {
                    assert(s[s.len() - 1].observation_gap_secs == Some(g));
                } else {
                    assert(widest_of(front) == Some(g));
                    let k = choose|k: int|
                        0 <= k < front.len() && (#[trigger] front[k]).observation_gap_secs
                            == Some(g);
                    assert(s[k] == front[k]);
                }
            },
            None => {},
        }
    }
}

/// Without a sample there is nothing to compare, and the sentence says so.
pub proof fn law_no_samples_nothing_to_compare(
    c: Comparison,
    lookback: Seq<char>,
    episode_id: Option<u128>,
    given: Option<SummaryView>,
)
    requires
        c.samples.len() == 0,
    ensures
        ({
            let r = c.deltas(lookback, episode_id, given);
            &&& r.anchor_at is None
            &&& r.actual_lookback_secs is None
            &&& r.verdict is None
            &&& r.summary == "vs "@ + lookback
                + ": nothing to compare yet — no samples in the window."@
        }),
{
}

/// A stored summary is compared against in place of any live census, so that an
/// incident can be told after its censuses are gone.
pub proof fn law_a_stored_summary_is_preferred(c: Comparison, given: SummaryView)
    ensures
        c.then_summary(Some(given)) == Some(given),
        c.pair(Some(given)) matches Some(p) ==> p.then_at == given.taken_at,
{
}

pub proof fn lemma_dimensions(c: Comparison, k: int)
    requires
        0 <= k <= 14,
    ensures
        forall|i: int|
            0 <= i < c.dimensions(k).len() ==> (#[trigger] c.dimensions(k)[i]).dimension.place() < k
                && c.dimension(c.dimensions(k)[i].dimension) == Some(c.dimensions(k)[i]),
        forall|i: int, j: int|
            0 <= i < j < c.dimensions(k).len() ==> (
            #[trigger] c.dimensions(k)[i]).dimension.place() < (
            #[trigger] c.dimensions(k)[j]).dimension.place(),
    decreases k,
{
    if k > 0 {
        lemma_dimensions(c, k - 1);
        let front = c.dimensions(k - 1);
        let all = c.dimensions(k);
        let d = ALL_DIMENSIONS@[k - 1];
        assert(d.place() == k - 1);
        assert forall|i: int| 0 <= i < all.len() implies (#[trigger] all[i]).dimension.place() < k
            && c.dimension(all[i].dimension) == Some(all[i]) by {
            if i < front.len() {
                assert(all[i] == front[i]);
            }
        }
        assert forall|i: int, j: int| 0 <= i < j < all.len() implies (
        #[trigger] all[i]).dimension.place() < (#[trigger] all[j]).dimension.place() by {
            assert(all[i] == front[i]);
            if j < front.len() {
                assert(all[j] == front[j]);
            }
        }
    }
}

/// Each dimension is compared once, in the declared order, and only across two
/// different observations.
pub proof fn law_one_comparison_per_dimension(c: Comparison)
    ensures
        forall|i: int, j: int|
            0 <= i < j < c.dimensions(14).len() ==> (
            #[trigger] c.dimensions(14)[i]).dimension.place() < (
            #[trigger] c.dimensions(14)[j]).dimension.place(),
        forall|d: Dimension|
            points_for(
                d,
                c.samples,
                c.censuses,
                c.config,
                c.numbers.figures@[d.place()].values@,
            ).len() < 2 ==> #[trigger] c.dimension(d) is None,
{
    lemma_dimensions(c, 14);
    assert forall|d: Dimension|
        points_for(
            d,
            c.samples,
            c.censuses,
            c.config,
            c.numbers.figures@[d.place()].values@,
        ).len() < 2 implies #[trigger] c.dimension(d) is None by {
        let points = points_for(
            d,
            c.samples,
            c.censuses,
            c.config,
            c.numbers.figures@[d.place()].values@,
        );
        law_the_anchor(point_times(points), c.then_at);
    }
}

proof fn lemma_movers(s: Seq<ConsumerDeltaView>, least: int, limit: nat)
    ensures
        movers(s, least, limit).len() <= limit,
        forall|i: int|
            0 <= i < movers(s, least, limit).len() ==> size_of_change(
                #[trigger] movers(s, least, limit)[i],
            ) >= least,
    decreases s.len(),
{
    if s.len() > 0 {
        lemma_movers(s.drop_last(), least, limit);
    }
}

/// The sentence names no more consumers than the limit, and none that moved less
/// than is worth telling. Where a hole lies in between, the last thing it says is
/// that.
pub proof fn law_the_sentence_is_short_and_honest(
    verdict: Option<VerdictDeltaView>,
    dimensions: Seq<DimensionDeltaView>,
    consumers: Seq<ConsumerDeltaView>,
    gap: Option<u64>,
    swap_size: Seq<char>,
    memory_size: Seq<char>,
    config: PressureConfig,
)
    ensures
        ({
            let told = movers(
                consumers,
                config.deltas_min_consumer_bytes as int,
                config.who_limit as nat,
            );
            let clauses = clauses_of(
                verdict,
                dimensions,
                consumers,
                gap,
                swap_size,
                memory_size,
                config,
            );
            &&& told.len() <= config.who_limit
            &&& forall|i: int|
                0 <= i < told.len() ==> size_of_change(#[trigger] told[i])
                    >= config.deltas_min_consumer_bytes
            &&& clauses.len() > 0
            &&& gap matches Some(g) ==> clauses.last() == "not observed for "@ + span_words(g)
                + " in between — this arithmetic spans a hole"@
        }),
{
    lemma_movers(
        consumers,
        config.deltas_min_consumer_bytes as int,
        config.who_limit as nat,
    );
}

} // verus!
