//! The model against stored history.
use vstd::prelude::*;

use super::band::{outcome_of, replay, Band, BandOutcome};
use super::config::{Dimension, PressureConfig, Source, ALL_DIMENSIONS};
use super::disk::{
    judge_volume, notes_of, notes_text, severity_for, severity_of, volume_judged, Floor, Horizons,
    Judgement,
};
use super::episode::{EpisodeView, RecentActivity};
use super::findings::{build_findings, worklist};
use super::level::{
    decide, is_scoring, law_quiet_is_all_green, tally, verdict_of, Contribution, Level, Verdict,
};
use super::series::{
    ceiling_over, held_over, observed, peaks, points_of, series_for, tail_trend, valued,
    windowed_peak, Point, Series,
};
use super::verdict::{
    attached, law_attaching_is_idempotent, law_attaching_wears_one_decoration,
    law_no_verdict_wears_the_decoration, undecorated, unlooked, DimensionReading, Finding,
    Pressure, PressureView, ReadingView,
};
use super::wording::{detail_for, detail_text, Demand, Words};
use crate::census::Census;
use crate::number::Real;
use crate::sample::Sample;
use crate::text::views;
use crate::time::Timestamp;

verus! {

broadcast use crate::text::lemma_views_push;

/// What the arithmetic on real numbers gave for one dimension.
#[derive(Clone, Debug)]
pub struct Figures {
    /// The value of each observation of `series_for`, in order. It counts where
    /// the measure is not a whole number.
    pub values: Vec<Real>,
    /// The tolerance times the median interval of the points, rounded up.
    pub calibrated_secs: u64,
    /// The distance from the yellow line to the red one.
    pub span: Real,
    /// How far the newest value is past yellow, over that distance.
    pub ratio: Real,
    /// The slope of the line fitted to the unbroken tail, if there is one. Disk has
    /// its own.
    pub trend: Option<Real>,
    pub words: Words,
    /// The measure of each of the dimension's `suspects`, in digits.
    pub measures: Vec<String>,
}

/// What the arithmetic on real numbers gave for one evaluation.
#[derive(Clone, Debug)]
pub struct Numbers {
    /// One entry per dimension, in the order of `ALL_DIMENSIONS`.
    pub figures: [Figures; 14],
    /// The newest run-queue depth.
    pub demand: Demand,
    /// The lifetime CPU rate of each group of `sessions_by_program`.
    pub rates: Vec<Real>,
    pub disk: Horizons,
}

/// The samples the model looks at: the newest ones.
pub open spec fn window_of(samples: Seq<Sample>, config: PressureConfig) -> Seq<Sample> {
    if samples.len() > config.window_samples {
        samples.skip(samples.len() - config.window_samples)
    } else {
        samples
    }
}

/// The samples a dimension is replayed over. Disk reads everything there is: its
/// holds outlast the window.
pub open spec fn history_of(
    d: Dimension,
    samples: Seq<Sample>,
    config: PressureConfig,
) -> Seq<Sample> {
    if d == Dimension::Disk {
        samples
    } else {
        window_of(samples, config)
    }
}

/// The points a dimension is banded on. Thrash is a spike train, and is banded on
/// the worst sustained level of its window.
pub open spec fn points_for(
    d: Dimension,
    samples: Seq<Sample>,
    censuses: Seq<Census>,
    config: PressureConfig,
    values: Seq<Real>,
) -> Seq<Point> {
    let points = valued(
        observed(d, samples, censuses, config.corporate_min_life_secs),
        values,
    );
    if d == Dimension::Thrash {
        peaks(points, config.thrash_peak_window_secs)
    } else {
        points
    }
}

pub open spec fn values_of(points: Seq<Point>) -> Seq<Real> {
    Seq::new(points.len(), |i: int| points[i].value)
}

pub open spec fn swap_total_of(window: Seq<Sample>) -> Option<u64> {
    if window.len() == 0 {
        None
    } else {
        Some(window.last().swap_total_bytes)
    }
}

pub open spec fn demand_of(window: Seq<Sample>, n: Numbers) -> Option<Demand> {
    if window.len() == 0 {
        None
    } else {
        Some(n.demand)
    }
}

/// What is made of the newest value of a dimension. A volume is judged on time
/// as well as on bytes.
pub open spec fn judged(
    d: Dimension,
    points: Seq<Point>,
    ceiling: u64,
    o: BandOutcome,
    config: PressureConfig,
    n: Numbers,
) -> Judgement {
    let f = n.figures@[d.place()];
    let replayed = Floor { band: o.band, held: o.held_samples };
    if d == Dimension::Disk {
        volume_judged(points, ceiling, replayed, o.value, n.disk, config)
    } else {
        Judgement {
            floor: replayed,
            severity: severity_for(config.spec_of(d), o.value, f.span, f.ratio),
            trend: tail_trend(points, ceiling, f.trend),
        }
    }
}

/// The reading of a dimension, if anything was observed of it.
pub open spec fn reading_for(
    d: Dimension,
    samples: Seq<Sample>,
    censuses: Seq<Census>,
    config: PressureConfig,
    n: Numbers,
) -> Option<ReadingView> {
    let window = window_of(samples, config);
    let f = n.figures@[d.place()];
    let points = points_for(d, history_of(d, samples, config), censuses, config, f.values@);
    let spec = config.spec_of(d);
    match outcome_of(spec, values_of(points)) {
        None => None,
        Some(o) => {
            let ceiling = ceiling_over(points, config.ceiling_of(d), f.calibrated_secs);
            let j = judged(d, points, ceiling, o, config, n);
            let held = held_over(points, ceiling, j.floor.held);
            let detail = detail_text(
                d,
                o.value,
                j.trend,
                demand_of(window, n),
                swap_total_of(window),
                config,
                f.words,
            );
            Some(
                ReadingView {
                    dimension: d,
                    key: d.key_text(),
                    label: d.label_text(),
                    band: j.floor.band,
                    value: o.value,
                    unit: d.measured_in(),
                    severity: j.severity,
                    held_secs: held.secs,
                    observation_gap_secs: held.gap_secs,
                    trend_per_sec: j.trend,
                    detail: if d == Dimension::Disk {
                        detail + notes_text(n.disk)
                    } else {
                        detail
                    },
                    advisory: d.advisory(),
                    pending: o.pending,
                    recovering: false,
                },
            )
        },
    }
}

/// The readings of the first `k` dimensions.
pub open spec fn readings_upto(
    k: int,
    samples: Seq<Sample>,
    censuses: Seq<Census>,
    config: PressureConfig,
    n: Numbers,
) -> Seq<ReadingView>
    decreases k,
{
    if k <= 0 {
        Seq::empty()
    } else {
        let front = readings_upto(k - 1, samples, censuses, config, n);
        match reading_for(ALL_DIMENSIONS@[k - 1], samples, censuses, config, n) {
            Some(r) => front.push(r),
            None => front,
        }
    }
}

/// The readings of all dimensions.
pub open spec fn readings_of(
    samples: Seq<Sample>,
    censuses: Seq<Census>,
    config: PressureConfig,
    n: Numbers,
) -> Seq<ReadingView> {
    readings_upto(14, samples, censuses, config, n)
}

pub open spec fn contributions_of(readings: Seq<ReadingView>) -> Seq<Contribution> {
    readings.map_values(|r: ReadingView| r.contribution())
}

/// Enough has been seen for a verdict.
pub open spec fn has_data(
    samples: Seq<Sample>,
    censuses: Seq<Census>,
    config: PressureConfig,
    n: Numbers,
) -> bool {
    window_of(samples, config).len() >= config.min_samples && readings_of(
        samples,
        censuses,
        config,
        n,
    ).len() > 0
}

pub open spec fn verdict_for(
    samples: Seq<Sample>,
    censuses: Seq<Census>,
    config: PressureConfig,
    n: Numbers,
) -> Verdict {
    verdict_of(
        contributions_of(readings_of(samples, censuses, config, n)),
        config.red_grace_secs,
        config.catastrophic_severity,
        has_data(samples, censuses, config, n),
    )
}

pub open spec fn newest(censuses: Seq<Census>) -> Option<Census> {
    if censuses.len() == 0 {
        None
    } else {
        Some(censuses[censuses.len() - 1])
    }
}

/// The verdict on some history.
pub open spec fn evaluation(
    now: Timestamp,
    samples: Seq<Sample>,
    censuses: Seq<Census>,
    config: PressureConfig,
    n: Numbers,
) -> PressureView {
    let window = window_of(samples, config);
    let readings = readings_of(samples, censuses, config, n);
    let verdict = verdict_for(samples, censuses, config, n);
    PressureView {
        evaluated_at: now,
        level: verdict.level,
        level_name: verdict.level.name_text(),
        source: verdict.shown_source(),
        glyph: verdict.glyph_text(),
        accessibility_label: verdict.spoken_text(),
        dimensions: readings,
        findings: if has_data(samples, censuses, config, n) {
            worklist(
                readings,
                verdict.level,
                newest(censuses),
                swap_total_of(window),
                n,
                config,
            )
        } else {
            Seq::empty()
        },
        sample_count: window.len() as usize,
        census_count: censuses.len() as usize,
        recovering: false,
        activity: RecentActivity { open: 0, last_hour: 0, last_day: 0 },
    }
}

/// The samples the model looks at.
pub fn window_slice<'a>(samples: &'a [Sample], config: &PressureConfig) -> (r: &'a [Sample])
    ensures
        r@ == window_of(samples@, *config),
{
    let n: usize = samples.len();
    if n > config.window_samples {
        let tail = vstd::slice::slice_subrange(samples, n - config.window_samples, n);
        assert(tail@ =~= samples@.skip(n - config.window_samples));
        tail
    } else {
        samples
    }
}

/// The series a dimension is banded on, given the values of its observations.
pub fn banded_series(
    d: Dimension,
    samples: &[Sample],
    censuses: &[Census],
    config: &PressureConfig,
    values: &Vec<Real>,
    calibrated_secs: u64,
) -> (r: Series)
    ensures
        r.points@ == points_for(d, samples@, censuses@, *config, values@),
        r.configured_max_interval_secs == config.ceiling_of(d),
        r.calibrated_secs == calibrated_secs,
{
    let points = points_of(&series_for(d, samples, censuses, config), values);
    let points = if d == Dimension::Thrash {
        windowed_peak(&points, config.thrash_peak_window_secs)
    } else {
        points
    };
    Series { points, configured_max_interval_secs: config.max_interval_secs(d), calibrated_secs }
}

fn read_dimension(
    d: Dimension,
    samples: &[Sample],
    censuses: &[Census],
    config: &PressureConfig,
    n: &Numbers,
) -> (r: Option<DimensionReading>)
    ensures
        match r {
            Some(x) => reading_for(d, samples@, censuses@, *config, *n) == Some(x@),
            None => reading_for(d, samples@, censuses@, *config, *n) is None,
        },
{
    let window = window_slice(samples, config);
    let demand: Option<&Demand> = if window.len() == 0 {
        None
    } else {
        Some(&n.demand)
    };
    let swap_total: Option<u64> = if window.len() == 0 {
        None
    } else {
        Some(window[window.len() - 1].swap_total_bytes)
    };
    let history: &[Sample] = if d == Dimension::Disk {
        samples
    } else {
        window
    };
    let f = &n.figures[d.index()];
    let series = banded_series(d, history, censuses, config, &f.values, f.calibrated_secs);
    let spec = config.spec(d);
    let values = series.values();
    assert(values@ =~= values_of(series.points@));
    match replay(spec, values.as_slice()) {
        None => None,
        Some(o) => {
            let replayed = Floor { band: o.band, held: o.held_samples };
            let j = if d == Dimension::Disk {
                judge_volume(&series, replayed, o.value, &n.disk, config)
            } else {
                Judgement {
                    floor: replayed,
                    severity: severity_of(spec, o.value, f.span, f.ratio),
                    trend: series.trend_per_sec(f.trend),
                }
            };
            assert(j == judged(d, series.points@, series.ceiling(), o, *config, *n));
            let held = series.held(j.floor.held);
            let mut detail = detail_for(d, o.value, j.trend, demand, swap_total, config, &f.words);
            if d == Dimension::Disk {
                detail.append(notes_of(&n.disk).as_str());
            }
            let r = DimensionReading {
                dimension: d,
                key: d.key().to_owned(),
                label: d.label().to_owned(),
                band: j.floor.band,
                value: o.value,
                unit: d.unit(),
                severity: j.severity,
                held_secs: held.secs,
                observation_gap_secs: held.gap_secs,
                trend_per_sec: j.trend,
                detail,
                advisory: d.is_advisory(),
                pending: o.pending,
                recovering: false,
            };
            assert(Some(r@) == reading_for(d, samples@, censuses@, *config, *n));
            Some(r)
        },
    }
}

/// Evaluate the model against stored history.
///
/// `samples` and `censuses` are oldest first, and may be short or empty: a thin
/// history makes `Checking`, never a confident `Quiet`. `n` holds what the
/// arithmetic on real numbers gave for this history. Nothing is kept between
/// calls.
pub fn evaluate(
    now: Timestamp,
    samples: &[Sample],
    censuses: &[Census],
    config: &PressureConfig,
    n: &Numbers,
) -> (r: Pressure)
    ensures
        r@ == evaluation(now, samples@, censuses@, *config, *n),
{
    let window = window_slice(samples, config);
    let swap_total: Option<u64> = if window.len() == 0 {
        None
    } else {
        Some(window[window.len() - 1].swap_total_bytes)
    };
    let mut readings: Vec<DimensionReading> = Vec::new();
    let mut contributions: Vec<Contribution> = Vec::new();
    let mut k: usize = 0;
    assert(views(readings@) =~= Seq::empty());
    assert(contributions@ =~= contributions_of(views(readings@)));
    while k < 14
        invariant
            k <= 14,
            views(readings@) == readings_upto(k as int, samples@, censuses@, *config, *n),
            contributions@ == contributions_of(views(readings@)),
        decreases 14 - k,
    {
        let d = ALL_DIMENSIONS[k];
        match read_dimension(d, samples, censuses, config, n) {
            Some(r) => {
                let c = r.contribution();
                assert(contributions_of(views(readings@).push(r@)) =~= contributions_of(
                    views(readings@),
                ).push(c));
                contributions.push(c);
                readings.push(r);
            },
            None => {},
        }
        k = k + 1;
    }
    let have_data = window.len() >= config.min_samples && readings.len() > 0;
    assert(have_data == has_data(samples@, censuses@, *config, *n)) by {
        assert(views(readings@).len() == readings.len());
    }
    let verdict = decide(
        contributions.as_slice(),
        config.red_grace_secs,
        config.catastrophic_severity,
        have_data,
    );
    let census: Option<&Census> = if censuses.len() == 0 {
        None
    } else {
        Some(&censuses[censuses.len() - 1])
    };
    let findings: Vec<Finding> = if have_data {
        build_findings(&readings, &verdict, census, swap_total, n, config)
    } else {
        Vec::new()
    };
    let source: Option<Source> = if verdict.level.shows_source() {
        verdict.source
    } else {
        None
    };
    let r = Pressure {
        evaluated_at: now,
        level: verdict.level,
        level_name: verdict.level.name().to_owned(),
        source,
        glyph: verdict.glyph(),
        accessibility_label: verdict.accessibility_label(),
        dimensions: readings,
        findings,
        sample_count: window.len(),
        census_count: censuses.len(),
        recovering: false,
        activity: RecentActivity::default(),
    };
    assert(r@ =~= evaluation(now, samples@, censuses@, *config, *n)) by {
        assert(views(r.findings@) =~= evaluation(
            now,
            samples@,
            censuses@,
            *config,
            *n,
        ).findings);
    }
    r
}

pub proof fn lemma_readings(
    k: int,
    samples: Seq<Sample>,
    censuses: Seq<Census>,
    config: PressureConfig,
    n: Numbers,
)
    requires
        0 <= k <= 14,
    ensures
        forall|i: int|
            0 <= i < readings_upto(k, samples, censuses, config, n).len() ==> {
                let r = #[trigger] readings_upto(k, samples, censuses, config, n)[i];
                r.dimension.place() < k && reading_for(r.dimension, samples, censuses, config, n)
                    == Some(r)
            },
        forall|i: int, j: int|
            0 <= i < j < readings_upto(k, samples, censuses, config, n).len() ==> (
            #[trigger] readings_upto(k, samples, censuses, config, n)[i]).dimension.place() < (
            #[trigger] readings_upto(k, samples, censuses, config, n)[j]).dimension.place(),
        forall|d: Dimension|
            d.place() < k && #[trigger] reading_for(d, samples, censuses, config, n) is Some
                ==> exists|i: int|
                0 <= i < readings_upto(k, samples, censuses, config, n).len()
                    && #[trigger] readings_upto(k, samples, censuses, config, n)[i] == reading_for(
                    d,
                    samples,
                    censuses,
                    config,
                    n,
                )->0,
    decreases k,
{
    if k > 0 {
        lemma_readings(k - 1, samples, censuses, config, n);
        let front = readings_upto(k - 1, samples, censuses, config, n);
        let all = readings_upto(k, samples, censuses, config, n);
        let last = ALL_DIMENSIONS@[k - 1];
        assert(last.place() == k - 1);
        assert forall|d: Dimension|
            d.place() < k && #[trigger] reading_for(d, samples, censuses, config, n)
                is Some implies exists|i: int|
            0 <= i < all.len() && #[trigger] all[i] == reading_for(d, samples, censuses, config, n)->0 by {
            let r = reading_for(d, samples, censuses, config, n)->0;
            if d.place() == k - 1 {
                assert(d == last);
                assert(all[all.len() - 1] == r);
            } else {
                let i = choose|i: int| 0 <= i < front.len() && #[trigger] front[i] == r;
                assert(all[i] == r);
            }
        }
        assert forall|i: int| 0 <= i < all.len() implies {
            let r = #[trigger] all[i];
            r.dimension.place() < k && reading_for(r.dimension, samples, censuses, config, n)
                == Some(r)
        } by {
            if i < front.len() {
                assert(all[i] == front[i]);
            }
        }
        assert forall|i: int, j: int| 0 <= i < j < all.len() implies (
        #[trigger] all[i]).dimension.place() < (#[trigger] all[j]).dimension.place() by {
            assert(all[i] == front[i]);
            if j < front.len() {
                assert(all[j] == front[j]);
            }
        }
    }
}

/// Each dimension that was observed has one row, and the rows are in the declared
/// order. A row is advisory exactly when its dimension is.
pub proof fn law_one_row_per_dimension(
    now: Timestamp,
    samples: Seq<Sample>,
    censuses: Seq<Census>,
    config: PressureConfig,
    n: Numbers,
)
    ensures
        ({
            let rows = evaluation(now, samples, censuses, config, n).dimensions;
            &&& forall|i: int, j: int|
                0 <= i < j < rows.len() ==> (#[trigger] rows[i]).dimension.place() < (
                #[trigger] rows[j]).dimension.place()
            &&& forall|i: int|
                0 <= i < rows.len() ==> (#[trigger] rows[i]).advisory
                    == rows[i].dimension.advisory()
            &&& forall|d: Dimension|
                #[trigger] reading_for(d, samples, censuses, config, n) is Some ==> exists|i: int|
                    0 <= i < rows.len() && #[trigger] rows[i] == reading_for(
                        d,
                        samples,
                        censuses,
                        config,
                        n,
                    )->0
        }),
{
    lemma_readings(14, samples, censuses, config, n);
    assert forall|d: Dimension|
        #[trigger] reading_for(d, samples, censuses, config, n) is Some implies exists|i: int|
        0 <= i < readings_of(samples, censuses, config, n).len() && #[trigger] readings_of(
            samples,
            censuses,
            config,
            n,
        )[i] == reading_for(d, samples, censuses, config, n)->0 by {
        assert(d.place() < 14);
    }
}

/// A thin history is `Checking`, with nothing to say and nobody to blame, never a
/// confident calm.
pub proof fn law_a_thin_history_is_checking(
    now: Timestamp,
    samples: Seq<Sample>,
    censuses: Seq<Census>,
    config: PressureConfig,
    n: Numbers,
)
    requires
        window_of(samples, config).len() < config.min_samples || readings_of(
            samples,
            censuses,
            config,
            n,
        ).len() == 0,
    ensures
        ({
            let p = evaluation(now, samples, censuses, config, n);
            &&& p.level == Level::Checking
            &&& p.source is None
            &&& p.findings.len() == 0
        }),
{
}

/// With no history at all the verdict is the placeholder, the whole of it.
pub proof fn law_no_history_is_the_placeholder(now: Timestamp, config: PressureConfig, n: Numbers)
    ensures
        evaluation(now, Seq::empty(), Seq::empty(), config, n) == unlooked(now),
{
    let none = Seq::<Sample>::empty();
    let nobody = Seq::<Census>::empty();
    let rows = readings_of(none, nobody, config, n);
    lemma_readings(14, none, nobody, config, n);
    assert(rows.len() == 0) by {
        if rows.len() > 0 {
            let d = rows[0].dimension;
            assert(reading_for(d, none, nobody, config, n) == Some(rows[0]));
            assert(window_of(none, config) =~= none);
            let seen = observed(d, none, nobody, config.corporate_min_life_secs);
            assert(seen.len() == 0);
            let f = n.figures@[d.place()];
            assert(valued(seen, f.values@).len() == 0);
            assert(points_for(d, none, nobody, config, f.values@).len() == 0);
        }
    }
    assert(window_of(none, config) =~= none);
    assert(evaluation(now, none, nobody, config, n) =~= unlooked(now));
}

/// The face, the words and the named source agree: a source is named exactly when
/// both carry it, and never below `Restless`.
pub proof fn law_the_face_and_the_words_agree(
    now: Timestamp,
    samples: Seq<Sample>,
    censuses: Seq<Census>,
    config: PressureConfig,
    n: Numbers,
)
    ensures
        ({
            let p = evaluation(now, samples, censuses, config, n);
            match p.source {
                Some(s) => {
                    &&& p.level.height() >= Level::Restless.height()
                    &&& p.glyph == p.level.glyph_text() + s.glyph_text()
                    &&& p.accessibility_label == "Banshee: "@ + p.level.name_text() + ", "@
                        + s.label_text()
                },
                None => {
                    &&& p.glyph == p.level.glyph_text()
                    &&& p.accessibility_label == "Banshee: "@ + p.level.name_text()
                },
            }
        }),
{
}

/// No evaluation comes decorated, and neither does the one of nothing: folding a
/// record into it twice is folding it in once, and folding another one in after it
/// leaves nothing of the first on the face.
pub proof fn law_an_evaluation_is_undecorated(
    now: Timestamp,
    samples: Seq<Sample>,
    censuses: Seq<Census>,
    config: PressureConfig,
    n: Numbers,
    episodes: Seq<EpisodeView>,
    others: Seq<EpisodeView>,
    at: Timestamp,
)
    ensures
        undecorated(evaluation(now, samples, censuses, config, n)),
        undecorated(unlooked(now)),
        ({
            let p = evaluation(now, samples, censuses, config, n);
            let x = attached(p, episodes, at);
            &&& attached(x, episodes, at) == x
            &&& attached(x, others, at) == attached(p, others, at)
        }),
{
    let p = evaluation(now, samples, censuses, config, n);
    law_no_verdict_wears_the_decoration(verdict_for(samples, censuses, config, n));
    law_no_verdict_wears_the_decoration(verdict_of(Seq::empty(), 0, Real { bits: 0 }, false));
    law_attaching_is_idempotent(p, episodes, at);
    law_attaching_wears_one_decoration(p, episodes, at);
    let x = attached(p, episodes, at);
    assert(attached(x, others, at).dimensions =~= attached(p, others, at).dimensions);
}

/// Only the window counts: a dimension other than disk is read the same however
/// much older history there is.
pub proof fn law_only_the_window_counts(
    d: Dimension,
    samples: Seq<Sample>,
    censuses: Seq<Census>,
    config: PressureConfig,
    n: Numbers,
)
    requires
        d != Dimension::Disk,
    ensures
        reading_for(d, samples, censuses, config, n) == reading_for(
            d,
            window_of(samples, config),
            censuses,
            config,
            n,
        ),
        window_of(samples, config).len() <= config.window_samples,
{
    assert(window_of(window_of(samples, config), config) =~= window_of(samples, config));
}

/// Nothing that is green or advisory drives the level: a verdict above `Quiet`
/// has a row that is neither.
pub proof fn law_something_is_behind_the_level(
    now: Timestamp,
    samples: Seq<Sample>,
    censuses: Seq<Census>,
    config: PressureConfig,
    n: Numbers,
)
    requires
        evaluation(now, samples, censuses, config, n).level.height() > Level::Quiet.height(),
    ensures
        ({
            let rows = evaluation(now, samples, censuses, config, n).dimensions;
            exists|i: int|
                0 <= i < rows.len() && (#[trigger] rows[i]).band != Band::Green
                    && !rows[i].dimension.advisory()
        }),
{
    let rows = readings_of(samples, censuses, config, n);
    let all = contributions_of(rows);
    assert(tally(all, is_scoring()) > 0);
    law_quiet_is_all_green(all, config.red_grace_secs, config.catastrophic_severity);
    if forall|i: int|
        0 <= i < rows.len() ==> (#[trigger] rows[i]).band == Band::Green
            || rows[i].dimension.advisory() {
        assert forall|i: int| 0 <= i < all.len() && (#[trigger] all[i]).scores() implies all[i].band
            == Band::Green by {
            assert(rows[i].contribution() == all[i]);
        }
        assert(has_data(samples, censuses, config, n));
        assert(verdict_of(
            all,
            config.red_grace_secs,
            config.catastrophic_severity,
            true,
        ).level == Level::Quiet);
        assert(false);
    }
    let i = choose|i: int|
        0 <= i < rows.len() && (#[trigger] rows[i]).band != Band::Green
            && !rows[i].dimension.advisory();
    assert(evaluation(now, samples, censuses, config, n).dimensions[i] == rows[i]);
}

} // verus!
