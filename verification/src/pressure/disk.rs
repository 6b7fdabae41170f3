//! The time axis of a dimension: how far past its line, and how soon full.
//!
//! Bytes free is the wrong urgency scale for a volume that is emptying. So disk
//! is judged on time too, and the worse one wins. The quotients are computed
//! before; which of them count is decided here.
use vstd::prelude::*;

use super::band::{Band, BandSpec};
use super::config::PressureConfig;
use super::level::bottom;
use super::series::{
    law_a_trend_is_of_what_was_watched, tail_start, watched_from, Point, Series,
};
use super::who::zero;
use super::wording::{falls, meaningful};
use crate::number::Real;
use crate::time::span_secs;

verus! {

/// Minus one.
pub open spec fn minus_one() -> Real {
    Real { bits: 0xBFF0_0000_0000_0000 }
}

/// The severity of a value: `ratio`, its distance past yellow over the distance
/// from yellow to red, which is `span`. A broken reading is no crisis, and a spec
/// without distance between its lines tells only which side a value is on.
pub open spec fn severity_for(spec: BandSpec, value: Real, span: Real, ratio: Real) -> Real {
    if !value.finite() {
        minus_one()
    } else if span.at_most(zero()) {
        if spec.implied(value) == Band::Green {
            minus_one()
        } else {
            Real { bits: 0x3FF0_0000_0000_0000 }
        }
    } else {
        ratio
    }
}

pub fn severity_of(spec: &BandSpec, value: Real, span: Real, ratio: Real) -> (r: Real)
    ensures
        r == severity_for(*spec, value, span, ratio),
{
    if !value.is_finite() {
        return Real { bits: 0xBFF0_0000_0000_0000 };
    }
    let none = Real { bits: 0 };
    if span.is_at_most(none) {
        return if spec.raw_band(value) == Band::Green {
            Real { bits: 0xBFF0_0000_0000_0000 }
        } else {
            Real { bits: 0x3FF0_0000_0000_0000 }
        };
    }
    ratio
}

/// The time until a volume is full: `quotient`, what is free over what goes per
/// second, and only while the volume is emptying and holds something.
pub open spec fn time_to_full(free_bytes: Real, slope: Option<Real>, quotient: Real) -> Option<
    Real,
> {
    if falls(slope) && free_bytes.finite() && zero().below(free_bytes) {
        Some(quotient)
    } else {
        None
    }
}

pub fn projected_full_secs(free_bytes: Real, slope: Option<Real>, quotient: Real) -> (r: Option<
    Real,
>)
    ensures
        r == time_to_full(free_bytes, slope, quotient),
{
    let none = Real { bits: 0 };
    let down = match meaningful(slope) {
        Some(t) => t.is_below(none),
        None => false,
    };
    if down && free_bytes.is_finite() && none.is_below(free_bytes) {
        Some(quotient)
    } else {
        None
    }
}

/// The severity of a volume: the worse of the two axes.
pub open spec fn worse_axis(free_bytes: Real, bytes_term: Real, time_term: Option<Real>) -> Real {
    if !free_bytes.finite() {
        minus_one()
    } else {
        bytes_term.larger(match time_term {
            Some(t) => t,
            None => bottom(),
        })
    }
}

/// Distance to zero and time to full, the worse one.
pub fn severity(free_bytes: Real, bytes_term: Real, time_term: Option<Real>) -> (r: Real)
    ensures
        r == worse_axis(free_bytes, bytes_term, time_term),
{
    if !free_bytes.is_finite() {
        return Real { bits: 0xBFF0_0000_0000_0000 };
    }
    match time_term {
        Some(t) => bytes_term.max(t),
        None => bytes_term.max(Real { bits: 0xFFF0_0000_0000_0000 }),
    }
}

/// The least band a projection allows.
pub open spec fn floor_for(projection: Option<Real>, red_secs: Real, yellow_secs: Real) -> Band {
    match projection {
        Some(p) => if p.at_most(red_secs) {
            Band::Red
        } else if p.at_most(yellow_secs) {
            Band::Yellow
        } else {
            Band::Green
        },
        None => Band::Green,
    }
}

/// Where the projected floor stands after some samples.
pub struct FloorCourse {
    pub band: Band,
    pub held: nat,
    pub pending: Option<Band>,
    pub run: nat,
}

/// One more sample. A new floor, in either direction, must persist.
pub open spec fn floor_advanced(c: FloorCourse, want: Band, confirm: nat) -> FloorCourse {
    let run = if c.pending == Some(want) {
        c.run + 1
    } else {
        1
    };
    if want == c.band {
        FloorCourse { band: c.band, held: c.held + 1, pending: None, run: 0 }
    } else if run >= confirm {
        FloorCourse { band: want, held: run, pending: None, run: 0 }
    } else {
        FloorCourse { band: c.band, held: c.held + 1, pending: Some(want), run }
    }
}

pub open spec fn floor_course(
    projections: Seq<Option<Real>>,
    red_secs: Real,
    yellow_secs: Real,
    confirm: nat,
) -> FloorCourse
    decreases projections.len(),
{
    if projections.len() <= 1 {
        FloorCourse {
            band: floor_for(projections[0], red_secs, yellow_secs),
            held: 1,
            pending: None,
            run: 0,
        }
    } else {
        floor_advanced(
            floor_course(projections.drop_last(), red_secs, yellow_secs, confirm),
            floor_for(projections.last(), red_secs, yellow_secs),
            confirm,
        )
    }
}

/// A band that something forces, and for how many trailing samples it has.
#[derive(Clone, Copy, Debug, PartialEq, Eq, Structural)]
pub struct Floor {
    pub band: Band,
    pub held: usize,
}

pub open spec fn floor_of(
    projections: Seq<Option<Real>>,
    red_secs: Real,
    yellow_secs: Real,
    confirm: usize,
) -> Floor {
    if projections.len() == 0 {
        Floor { band: Band::Green, held: 0 }
    } else {
        let c = floor_course(
            projections,
            red_secs,
            yellow_secs,
            if confirm == 0 {
                1
            } else {
                confirm as nat
            },
        );
        Floor { band: c.band, held: c.held as usize }
    }
}

proof fn lemma_floor_bounds(
    projections: Seq<Option<Real>>,
    red_secs: Real,
    yellow_secs: Real,
    confirm: nat,
)
    requires
        projections.len() > 0,
        confirm > 0,
    ensures
        1 <= floor_course(projections, red_secs, yellow_secs, confirm).held <= projections.len(),
        floor_course(projections, red_secs, yellow_secs, confirm).run < projections.len(),
        floor_course(projections, red_secs, yellow_secs, confirm).run < confirm,
        floor_course(projections, red_secs, yellow_secs, confirm).pending is None <==> floor_course(
            projections,
            red_secs,
            yellow_secs,
            confirm,
        ).run == 0,
    decreases projections.len(),
{
    if projections.len() > 1 {
        lemma_floor_bounds(projections.drop_last(), red_secs, yellow_secs, confirm);
    }
}

fn wanted_floor(projection: Option<Real>, red_secs: Real, yellow_secs: Real) -> (r: Band)
    ensures
        r == floor_for(projection, red_secs, yellow_secs),
{
    match projection {
        Some(p) => if p.is_at_most(red_secs) {
            Band::Red
        } else if p.is_at_most(yellow_secs) {
            Band::Yellow
        } else {
            Band::Green
        },
        None => Band::Green,
    }
}

/// The band the projection forces regardless of bytes, and how many trailing
/// samples it has held. `projections` has one entry per sample: what was known at
/// that tick.
///
/// Stricter than the replay of the bytes themselves: a reading past a line is a
/// fact, a projection is a ratio of two estimates.
pub fn forced_floor(
    projections: &[Option<Real>],
    red_secs: Real,
    yellow_secs: Real,
    confirm: usize,
) -> (r: Floor)
    ensures
        r == floor_of(projections@, red_secs, yellow_secs, confirm),
{
    let n: usize = projections.len();
    if n == 0 {
        return Floor { band: Band::Green, held: 0 };
    }
    let confirm: usize = if confirm == 0 {
        1
    } else {
        confirm
    };
    let mut band = wanted_floor(projections[0], red_secs, yellow_secs);
    let mut held: usize = 1;
    let mut pending: Option<Band> = None;
    let mut run: usize = 0;
    let mut i: usize = 1;
    while i < n
        invariant
            1 <= i <= n,
            n == projections.len(),
            confirm > 0,
            ({
                let c = floor_course(
                    projections@.take(i as int),
                    red_secs,
                    yellow_secs,
                    confirm as nat,
                );
                band == c.band && held == c.held && pending == c.pending && run == c.run
            }),
            held <= i,
            run < i,
        decreases n - i,
    {
        proof {
            assert(projections@.take(i + 1).drop_last() =~= projections@.take(i as int));
            lemma_floor_bounds(
                projections@.take(i + 1),
                red_secs,
                yellow_secs,
                confirm as nat,
            );
        }
        let want = wanted_floor(projections[i], red_secs, yellow_secs);
        if want == band {
            held = held + 1;
            pending = None;
            run = 0;
        } else {
            let again = match pending {
                Some(p) => p == want,
                None => false,
            };
            run = if again {
                run + 1
            } else {
                1
            };
            if run >= confirm {
                band = want;
                held = run;
                pending = None;
                run = 0;
            } else {
                pending = Some(want);
                held = held + 1;
            }
        }
        i = i + 1;
    }
    assert(projections@.take(n as int) =~= projections@);
    Floor { band, held }
}

/// A band that stands as long as its longest-standing cause: a worse floor takes
/// over, an equal one can only lengthen.
pub open spec fn raised(base: Floor, floor: Floor) -> Floor {
    if floor.band.height() > base.band.height() {
        floor
    } else if floor.band == base.band && floor.held > base.held {
        Floor { band: base.band, held: floor.held }
    } else {
        base
    }
}

pub fn raise(base: Floor, floor: Floor) -> (r: Floor)
    ensures
        r == raised(base, floor),
{
    if floor.band.rank() > base.band.rank() {
        floor
    } else if floor.band == base.band && floor.held > base.held {
        Floor { band: base.band, held: floor.held }
    } else {
        base
    }
}

/// How a volume was emptying at one sample, by what was known then.
#[derive(Clone, Copy, Debug)]
pub struct Descent {
    /// The median slope up to that sample, in bytes per second.
    pub slope: Option<Real>,
    /// What was free over what went per second.
    pub quotient: Real,
}

/// The descent at a sample. Where none is given, nothing is known.
pub open spec fn descent_at(descents: Seq<Descent>, i: int) -> Descent {
    if 0 <= i < descents.len() {
        descents[i]
    } else {
        Descent { slope: None, quotient: zero() }
    }
}

fn known_descent(descents: &Vec<Descent>, i: usize) -> (r: Descent)
    ensures
        r == descent_at(descents@, i as int),
{
    if i < descents.len() {
        descents[i]
    } else {
        Descent { slope: None, quotient: Real { bits: 0 } }
    }
}

/// Where the stretch starts that a volume is projected over: the unbroken tail,
/// and no more of it than the window.
pub open spec fn stretch_start(points: Seq<Point>, ceiling: u64, window: usize) -> int {
    let from = tail_start(points, ceiling);
    if points.len() - from > window {
        points.len() - window
    } else {
        from
    }
}

/// Whether some of the first `n` points follows another by a millisecond or more:
/// below that there is no slope.
pub open spec fn timed(stretch: Seq<Point>, n: int) -> bool {
    exists|a: int, b: int|
        #![trigger stretch[a], stretch[b]]
        0 <= a < b < n && stretch[b].at.nanos - stretch[a].at.nanos >= 1_000_000
}

/// The slope at a sample, by what was known then.
pub open spec fn slope_at(stretch: Seq<Point>, descents: Seq<Descent>, i: int) -> Option<Real> {
    if timed(stretch, i + 1) {
        descent_at(descents, i).slope
    } else {
        None
    }
}

/// The slope at each of the points from `from` on.
fn slopes(points: &Vec<Point>, from: usize, descents: &Vec<Descent>) -> (r: Vec<Option<Real>>)
    requires
        from <= points.len(),
    ensures
        r.len() == points.len() - from,
        forall|i: int|
            0 <= i < r.len() ==> #[trigger] r@[i] == slope_at(
                points@.skip(from as int),
                descents@,
                i,
            ),
{
    let ghost stretch = points@.skip(from as int);
    let mut out: Vec<Option<Real>> = Vec::new();
    if points.len() - from == 0 {
        return out;
    }
    // The earliest instant so far.
    let mut earliest = points[from].at;
    let mut apart = false;
    let mut i: usize = 0;
    assert(stretch[0] == points@[from as int]);
    while i < points.len() - from
        invariant
            from < points.len(),
            i <= points.len() - from,
            stretch == points@.skip(from as int),
            out.len() == i,
            i == 0 ==> earliest == stretch[0].at,
            forall|j: int| 0 <= j < i ==> earliest.nanos <= (#[trigger] stretch[j]).at.nanos,
            i > 0 ==> exists|j: int| 0 <= j < i && (#[trigger] stretch[j]).at == earliest,
            apart == timed(stretch, i as int),
            forall|j: int|
                0 <= j < i ==> #[trigger] out@[j] == slope_at(stretch, descents@, j),
        decreases points.len() - from - i,
    {
        let at = points[from + i].at;
        assert(stretch[i as int] == points@[from + i]);
        let later = at.millis_since(earliest) > 0;
        proof {
            if later {
                assert(i > 0);
                let j = choose|j: int| 0 <= j < i && (#[trigger] stretch[j]).at == earliest;
                assert(stretch[i as int].at.nanos - stretch[j].at.nanos >= 1_000_000);
            }
            if timed(stretch, i as int) {
                let (a, b) = choose|a: int, b: int|
                    #![trigger stretch[a], stretch[b]]
                    0 <= a < b < i && stretch[b].at.nanos - stretch[a].at.nanos >= 1_000_000;
                assert(stretch[b].at.nanos - stretch[a].at.nanos >= 1_000_000);
            }
            if timed(stretch, i + 1) && !timed(stretch, i as int) {
                let (a, b) = choose|a: int, b: int|
                    #![trigger stretch[a], stretch[b]]
                    0 <= a < b < i + 1 && stretch[b].at.nanos - stretch[a].at.nanos >= 1_000_000;
                assert(b == i);
                assert(earliest.nanos <= stretch[a].at.nanos);
            }
        }
        apart = apart || later;
        if at.nanos < earliest.nanos {
            earliest = at;
        }
        let known = known_descent(descents, i);
        out.push(
            if apart {
                known.slope
            } else {
                None
            },
        );
        i = i + 1;
    }
    out
}

/// The projected time to full at each sample of the stretch.
pub open spec fn projections_of(stretch: Seq<Point>, descents: Seq<Descent>) -> Seq<Option<Real>> {
    Seq::new(
        stretch.len(),
        |i: int|
            time_to_full(
                stretch[i].value,
                slope_at(stretch, descents, i),
                descent_at(descents, i).quotient,
            ),
    )
}

/// The projected time to full at each sample from `from` on.
pub fn projections(points: &Vec<Point>, from: usize, descents: &Vec<Descent>) -> (r: Vec<
    Option<Real>,
>)
    requires
        from <= points.len(),
    ensures
        r@ == projections_of(points@.skip(from as int), descents@),
{
    let ghost stretch = points@.skip(from as int);
    let falling = slopes(points, from, descents);
    let mut out: Vec<Option<Real>> = Vec::new();
    let mut i: usize = 0;
    while i < points.len() - from
        invariant
            from <= points.len(),
            i <= points.len() - from,
            stretch == points@.skip(from as int),
            falling.len() == points.len() - from,
            forall|j: int|
                0 <= j < falling.len() ==> #[trigger] falling@[j] == slope_at(
                    stretch,
                    descents@,
                    j,
                ),
            out@ == projections_of(stretch, descents@).take(i as int),
        decreases points.len() - from - i,
    {
        let d = known_descent(descents, i);
        let p = projected_full_secs(points[from + i].value, falling[i], d.quotient);
        assert(stretch[i as int] == points@[from + i]);
        out.push(p);
        i = i + 1;
        assert(out@ =~= projections_of(stretch, descents@).take(i as int));
    }
    assert(out@ =~= projections_of(stretch, descents@));
    out
}

/// What the other horizons say of the data volume.
#[derive(Clone, Debug)]
pub struct Horizons {
    /// The descent at each sample of the stretch.
    pub descents: Vec<Descent>,
    /// The red line over what is free, squared.
    pub bytes_term: Real,
    /// The red projection over the time to full.
    pub time_term: Real,
    /// The floor that a sudden drop forces.
    pub burst: Floor,
    pub burst_note: Option<String>,
    /// The floor that the trend of the week forces, up to yellow.
    pub week: Floor,
    pub week_note: Option<String>,
}

impl Horizons {
    /// The newest quotient that is known.
    pub open spec fn newest_quotient(self) -> Real {
        descent_at(self.descents@, self.descents@.len() - 1).quotient
    }

    /// The floor of the week, which stops at yellow: a drain of days is no crisis.
    pub open spec fn week_floor(self) -> Floor {
        if self.week.band == Band::Red {
            Floor { band: Band::Yellow, held: self.week.held }
        } else {
            self.week
        }
    }

    fn mild_week(&self) -> (r: Floor)
        ensures
            r == self.week_floor(),
    {
        if self.week.band == Band::Red {
            Floor { band: Band::Yellow, held: self.week.held }
        } else {
            self.week
        }
    }

    pub fn last_quotient(&self) -> (r: Real)
        ensures
            r == self.newest_quotient(),
    {
        if self.descents.len() == 0 {
            Real { bits: 0 }
        } else {
            self.descents[self.descents.len() - 1].quotient
        }
    }
}

/// The band of the data volume: what its bytes say, raised by the projection, by
/// a sudden drop, and by the week up to yellow.
pub open spec fn volume_band(
    bytes: Floor,
    projections: Seq<Option<Real>>,
    h: Horizons,
    red_secs: Real,
    yellow_secs: Real,
    confirm: usize,
) -> Floor {
    let forced = floor_of(projections, red_secs, yellow_secs, confirm);
    let projected = if forced.band.height() > bytes.band.height() {
        forced
    } else {
        bytes
    };
    raised(raised(projected, h.burst), h.week_floor())
}

pub fn band_of_volume(
    bytes: Floor,
    projections: &Vec<Option<Real>>,
    h: &Horizons,
    red_secs: Real,
    yellow_secs: Real,
    confirm: usize,
) -> (r: Floor)
    ensures
        r == volume_band(bytes, projections@, *h, red_secs, yellow_secs, confirm),
{
    let forced = forced_floor(projections.as_slice(), red_secs, yellow_secs, confirm);
    let projected = if forced.band.rank() > bytes.band.rank() {
        forced
    } else {
        bytes
    };
    raise(raise(projected, h.burst), h.mild_week())
}

/// What is made of a value: the band it stands in, how far past its line it is,
/// and where it is going.
#[derive(Clone, Copy, Debug)]
pub struct Judgement {
    pub floor: Floor,
    pub severity: Real,
    pub trend: Option<Real>,
}

/// The judgement on the data volume, with `value` bytes free now.
pub open spec fn volume_judged(
    points: Seq<Point>,
    ceiling: u64,
    bytes: Floor,
    value: Real,
    h: Horizons,
    config: PressureConfig,
) -> Judgement {
    let stretch = points.skip(stretch_start(points, ceiling, config.window_samples));
    let now = descent_at(h.descents@, stretch.len() - 1);
    let slope = slope_at(stretch, h.descents@, stretch.len() - 1);
    Judgement {
        floor: volume_band(
            bytes,
            projections_of(stretch, h.descents@),
            h,
            config.disk_projection_red_secs,
            config.disk_projection_yellow_secs,
            config.disk.confirm_samples,
        ),
        severity: worse_axis(
            value,
            h.bytes_term,
            match time_to_full(value, slope, now.quotient) {
                Some(_) => Some(h.time_term),
                None => None,
            },
        ),
        trend: slope,
    }
}

pub fn judge_volume(
    series: &Series,
    bytes: Floor,
    value: Real,
    h: &Horizons,
    config: &PressureConfig,
) -> (r: Judgement)
    ensures
        r == volume_judged(series.points@, series.ceiling(), bytes, value, *h, *config),
{
    let n: usize = series.points.len();
    let tail: usize = series.contiguous_tail();
    let from: usize = if n - tail > config.window_samples {
        n - config.window_samples
    } else {
        tail
    };
    assert(from == stretch_start(series.points@, series.ceiling(), config.window_samples));
    let ahead = projections(&series.points, from, &h.descents);
    let falling = slopes(&series.points, from, &h.descents);
    let (slope, quotient) = if n - from == 0 {
        (None, Real { bits: 0 })
    } else {
        (falling[n - from - 1], known_descent(&h.descents, n - from - 1).quotient)
    };
    let time_term = match projected_full_secs(value, slope, quotient) {
        Some(_) => Some(h.time_term),
        None => None,
    };
    Judgement {
        floor: band_of_volume(
            bytes,
            &ahead,
            h,
            config.disk_projection_red_secs,
            config.disk_projection_yellow_secs,
            config.disk.confirm_samples,
        ),
        severity: severity(value, h.bytes_term, time_term),
        trend: slope,
    }
}

/// What the horizons that speak add to the words, the burst first.
pub open spec fn notes_text(h: Horizons) -> Seq<char> {
    let burst = match h.burst_note {
        Some(n) if h.burst.band == Band::Yellow => n@,
        _ => Seq::empty(),
    };
    let week = match h.week_note {
        Some(n) if h.week_floor().band == Band::Yellow => n@,
        _ => Seq::empty(),
    };
    burst + week
}

pub fn notes_of(h: &Horizons) -> (r: String)
    ensures
        r@ == notes_text(*h),
{
    let mut out = String::new();
    if h.burst.band == Band::Yellow {
        match &h.burst_note {
            Some(n) => {
                out = n.clone();
            },
            None => {},
        }
    }
    let mut week = String::new();
    if h.mild_week().band == Band::Yellow {
        match &h.week_note {
            Some(n) => {
                week = n.clone();
            },
            None => {},
        }
    }
    out.append(week.as_str());
    out
}

/// No horizon ever calms a volume: the band is at least what the bytes say, and
/// at least what each floor forces.
pub proof fn law_floors_only_raise(
    bytes: Floor,
    projections: Seq<Option<Real>>,
    h: Horizons,
    red_secs: Real,
    yellow_secs: Real,
    confirm: usize,
)
    ensures
        ({
            let r = volume_band(bytes, projections, h, red_secs, yellow_secs, confirm);
            &&& r.band.height() >= bytes.band.height()
            &&& r.band.height() >= floor_of(
                projections,
                red_secs,
                yellow_secs,
                confirm,
            ).band.height()
            &&& r.band.height() >= h.burst.band.height()
            &&& r.band.height() >= h.week_floor().band.height()
        }),
{
}

/// The week raises a volume to yellow at most: red takes red bytes, a red
/// projection or a red drop.
pub proof fn law_a_week_never_makes_red(
    bytes: Floor,
    projections: Seq<Option<Real>>,
    h: Horizons,
    red_secs: Real,
    yellow_secs: Real,
    confirm: usize,
)
    ensures
        volume_band(bytes, projections, h, red_secs, yellow_secs, confirm).band == Band::Red
            <==> bytes.band == Band::Red || floor_of(
            projections,
            red_secs,
            yellow_secs,
            confirm,
        ).band == Band::Red || h.burst.band == Band::Red,
{
}

/// Neither the week nor a drop has a part in the severity or in the trend.
pub proof fn law_the_other_horizons_move_no_severity(
    points: Seq<Point>,
    ceiling: u64,
    bytes: Floor,
    other: Floor,
    value: Real,
    h: Horizons,
    k: Horizons,
    config: PressureConfig,
)
    requires
        h.descents@ == k.descents@,
        h.bytes_term == k.bytes_term,
        h.time_term == k.time_term,
    ensures
        volume_judged(points, ceiling, bytes, value, h, config).severity == volume_judged(
            points,
            ceiling,
            other,
            value,
            k,
            config,
        ).severity,
        volume_judged(points, ceiling, bytes, value, h, config).trend == volume_judged(
            points,
            ceiling,
            other,
            value,
            k,
            config,
        ).trend,
{
}

proof fn lemma_seeded_green(
    projections: Seq<Option<Real>>,
    red_secs: Real,
    yellow_secs: Real,
    confirm: nat,
)
    requires
        0 < projections.len() <= confirm,
        projections[0] is None,
    ensures
        floor_course(projections, red_secs, yellow_secs, confirm).band == Band::Green,
        floor_course(projections, red_secs, yellow_secs, confirm).run < projections.len(),
    decreases projections.len(),
{
    if projections.len() > 1 {
        lemma_seeded_green(projections.drop_last(), red_secs, yellow_secs, confirm);
    }
}

/// One point has no slope: forcing a band takes at least the confirming samples
/// more, never a single tick.
pub proof fn law_a_tick_forces_nothing(
    stretch: Seq<Point>,
    descents: Seq<Descent>,
    red_secs: Real,
    yellow_secs: Real,
    confirm: usize,
)
    requires
        stretch.len() <= 1 || stretch.len() <= confirm,
    ensures
        floor_of(projections_of(stretch, descents), red_secs, yellow_secs, confirm).band
            == Band::Green,
        slope_at(stretch, descents, 0) is None,
{
    let p = projections_of(stretch, descents);
    assert(!timed(stretch, 1));
    if stretch.len() > 0 {
        assert(p[0] is None);
        lemma_seeded_green(
            p,
            red_secs,
            yellow_secs,
            if confirm == 0 {
                1
            } else {
                confirm as nat
            },
        );
    }
}

/// One tick of projection moves nothing, up or down, where confirmation is asked
/// for.
pub proof fn law_one_projection_does_not_flip(
    projections: Seq<Option<Real>>,
    next: Option<Real>,
    red_secs: Real,
    yellow_secs: Real,
    confirm: nat,
)
    requires
        projections.len() > 0,
        confirm > 1,
        floor_course(projections, red_secs, yellow_secs, confirm).pending is None,
    ensures
        floor_course(projections.push(next), red_secs, yellow_secs, confirm).band == floor_course(
            projections,
            red_secs,
            yellow_secs,
            confirm,
        ).band,
{
    assert(projections.push(next).drop_last() =~= projections);
}

/// The worse axis wins.
pub proof fn law_the_worse_axis_wins(free_bytes: Real, bytes_term: Real, time_term: Real)
    requires
        free_bytes.finite(),
        !bytes_term.nan(),
        !time_term.nan(),
    ensures
        bytes_term.at_most(worse_axis(free_bytes, bytes_term, Some(time_term))),
        time_term.at_most(worse_axis(free_bytes, bytes_term, Some(time_term))),
        worse_axis(free_bytes, bytes_term, Some(time_term)) == bytes_term || worse_axis(
            free_bytes,
            bytes_term,
            Some(time_term),
        ) == time_term,
        worse_axis(free_bytes, bytes_term, None) == bytes_term,
{
}

/// A projection exists exactly while "full in" would be said: the number that is
/// acted on and the number that is read cannot disagree.
pub proof fn law_projecting_is_saying(free_bytes: Real, slope: Option<Real>, quotient: Real)
    requires
        free_bytes.finite(),
    ensures
        time_to_full(free_bytes, slope, quotient) is Some <==> falls(slope) && zero().below(
            free_bytes,
        ),
{
}

/// Whether a projection is for no later than a span.
pub open spec fn within(projection: Option<Real>, secs: Real) -> bool {
    projection matches Some(p) && p.at_most(secs)
}

proof fn lemma_floor_settles(
    older: Seq<Option<Real>>,
    recent: Seq<Option<Real>>,
    red_secs: Real,
    yellow_secs: Real,
    confirm: nat,
    band: Band,
)
    requires
        confirm > 0,
        recent.len() > 0,
        forall|i: int|
            0 <= i < recent.len() ==> floor_for(#[trigger] recent[i], red_secs, yellow_secs)
                == band,
    ensures
        ({
            let c = floor_course(older + recent, red_secs, yellow_secs, confirm);
            c.band == band || (c.pending == Some(band) && c.run >= recent.len())
        }),
    decreases recent.len(),
{
    let all = older + recent;
    let front = recent.drop_last();
    assert(all.last() == recent[recent.len() - 1]);
    if all.len() > 1 {
        assert(all.drop_last() =~= older + front);
        if front.len() > 0 {
            assert forall|i: int| 0 <= i < front.len() implies floor_for(
                #[trigger] front[i],
                red_secs,
                yellow_secs,
            ) == band by {
                assert(floor_for(recent[i], red_secs, yellow_secs) == band);
            }
            lemma_floor_settles(older, front, red_secs, yellow_secs, confirm, band);
        }
    } else {
        assert(all[0] == recent[recent.len() - 1]);
    }
}

/// A projection that stands for the confirming samples forces its band: red where
/// the volume would be full within the red span, yellow where within the yellow one
/// only, and none where within neither.
pub proof fn law_a_standing_projection_forces_its_band(
    older: Seq<Option<Real>>,
    recent: Seq<Option<Real>>,
    red_secs: Real,
    yellow_secs: Real,
    confirm: usize,
)
    requires
        recent.len() > 0,
        recent.len() >= confirm,
    ensures
        ({
            let band = floor_of(older + recent, red_secs, yellow_secs, confirm).band;
            &&& (forall|i: int| 0 <= i < recent.len() ==> within(#[trigger] recent[i], red_secs))
                ==> band == Band::Red
            &&& (forall|i: int|
                0 <= i < recent.len() ==> !within(#[trigger] recent[i], red_secs) && within(
                    recent[i],
                    yellow_secs,
                )) ==> band == Band::Yellow
            &&& (forall|i: int|
                0 <= i < recent.len() ==> !within(#[trigger] recent[i], red_secs) && !within(
                    recent[i],
                    yellow_secs,
                )) ==> band == Band::Green
        }),
{
    let n = if confirm == 0 {
        1nat
    } else {
        confirm as nat
    };
    lemma_floor_bounds(older + recent, red_secs, yellow_secs, n);
    if forall|i: int| 0 <= i < recent.len() ==> within(#[trigger] recent[i], red_secs) {
        assert forall|i: int| 0 <= i < recent.len() implies floor_for(
            #[trigger] recent[i],
            red_secs,
            yellow_secs,
        ) == Band::Red by {
            assert(within(recent[i], red_secs));
        }
        lemma_floor_settles(older, recent, red_secs, yellow_secs, n, Band::Red);
    }
    if forall|i: int|
        0 <= i < recent.len() ==> !within(#[trigger] recent[i], red_secs) && within(
            recent[i],
            yellow_secs,
        ) {
        assert forall|i: int| 0 <= i < recent.len() implies floor_for(
            #[trigger] recent[i],
            red_secs,
            yellow_secs,
        ) == Band::Yellow by {
            assert(within(recent[i], yellow_secs));
            assert(!within(recent[i], red_secs));
        }
        lemma_floor_settles(older, recent, red_secs, yellow_secs, n, Band::Yellow);
    }
    if forall|i: int|
        0 <= i < recent.len() ==> !within(#[trigger] recent[i], red_secs) && !within(
            recent[i],
            yellow_secs,
        ) {
        assert forall|i: int| 0 <= i < recent.len() implies floor_for(
            #[trigger] recent[i],
            red_secs,
            yellow_secs,
        ) == Band::Green by {
            assert(!within(recent[i], yellow_secs));
            assert(!within(recent[i], red_secs));
        }
        lemma_floor_settles(older, recent, red_secs, yellow_secs, n, Band::Green);
    }
}

/// A projection forces a band only where one was within its span.
pub proof fn law_no_floor_without_a_projection(
    projections: Seq<Option<Real>>,
    red_secs: Real,
    yellow_secs: Real,
    confirm: usize,
)
    ensures
        floor_of(projections, red_secs, yellow_secs, confirm).band == Band::Red ==> exists|i: int|
            0 <= i < projections.len() && within(#[trigger] projections[i], red_secs),
        floor_of(projections, red_secs, yellow_secs, confirm).band != Band::Green ==> exists|i: int|
            0 <= i < projections.len() && (within(#[trigger] projections[i], red_secs) || within(
                projections[i],
                yellow_secs,
            )),
{
    if projections.len() > 0 {
        lemma_floor_has_a_cause(
            projections,
            red_secs,
            yellow_secs,
            if confirm == 0 {
                1
            } else {
                confirm as nat
            },
        );
    }
}

proof fn lemma_floor_has_a_cause(
    projections: Seq<Option<Real>>,
    red_secs: Real,
    yellow_secs: Real,
    confirm: nat,
)
    requires
        projections.len() > 0,
    ensures
        ({
            let c = floor_course(projections, red_secs, yellow_secs, confirm);
            &&& exists|i: int|
                0 <= i < projections.len() && floor_for(
                    #[trigger] projections[i],
                    red_secs,
                    yellow_secs,
                ) == c.band
        }),
        ({
            let c = floor_course(projections, red_secs, yellow_secs, confirm);
            &&& c.band == Band::Red ==> exists|i: int|
                0 <= i < projections.len() && within(#[trigger] projections[i], red_secs)
            &&& c.band != Band::Green ==> exists|i: int|
                0 <= i < projections.len() && (within(#[trigger] projections[i], red_secs)
                    || within(projections[i], yellow_secs))
        }),
    decreases projections.len(),
{
    let c = floor_course(projections, red_secs, yellow_secs, confirm);
    let last = projections.len() - 1;
    assert(projections[last] == projections.last());
    if floor_for(projections[last], red_secs, yellow_secs) != c.band {
        let front = projections.drop_last();
        lemma_floor_has_a_cause(front, red_secs, yellow_secs, confirm);
        let i = choose|i: int|
            0 <= i < front.len() && floor_for(#[trigger] front[i], red_secs, yellow_secs) == c.band;
        assert(projections[i] == front[i]);
    }
    let k = choose|k: int|
        0 <= k < projections.len() && floor_for(#[trigger] projections[k], red_secs, yellow_secs)
            == c.band;
    assert(within(projections[k], red_secs) || within(projections[k], yellow_secs) || c.band
        == Band::Green);
}

/// There is a projection at a sample exactly where the volume was falling by what
/// was known then and holds some bytes, and it is the time worked out for that
/// sample.
pub proof fn law_a_projection_is_of_its_sample(
    stretch: Seq<Point>,
    descents: Seq<Descent>,
    i: int,
)
    requires
        0 <= i < stretch.len(),
        i < descents.len(),
    ensures
        ({
            let p = projections_of(stretch, descents)[i];
            let timed = exists|a: int, b: int|
                #![trigger stretch[a], stretch[b]]
                0 <= a < b <= i && stretch[b].at.nanos - stretch[a].at.nanos >= 1_000_000;
            let v = stretch[i].value;
            &&& p is Some <==> timed && v.finite() && (Real { bits: 0 }).below(v) && (
            descents[i].slope matches Some(s) && s.below(Real { bits: 0 })
                && super::wording::epsilon().below(s.size()))
            &&& p matches Some(t) ==> t == descents[i].quotient
        }),
{
    assert(timed(stretch, i + 1) <==> exists|a: int, b: int|
        #![trigger stretch[a], stretch[b]]
        0 <= a < b <= i && stretch[b].at.nanos - stretch[a].at.nanos >= 1_000_000) by {
        if timed(stretch, i + 1) {
            let (a, b) = choose|a: int, b: int|
                #![trigger stretch[a], stretch[b]]
                0 <= a < b < i + 1 && stretch[b].at.nanos - stretch[a].at.nanos >= 1_000_000;
            assert(0 <= a < b <= i);
        }
    }
}

/// The floors have no say in how long a band is taken to have held but their own: a
/// band that came from the bytes alone has held as long as the bytes say, one that a
/// floor forced as long as that floor.
pub proof fn law_a_floor_brings_its_own_time(
    bytes: Floor,
    projections: Seq<Option<Real>>,
    h: Horizons,
    red_secs: Real,
    yellow_secs: Real,
    confirm: usize,
)
    ensures
        ({
            let r = volume_band(bytes, projections, h, red_secs, yellow_secs, confirm);
            let forced = floor_of(projections, red_secs, yellow_secs, confirm);
            ||| r == bytes
            ||| r == forced
            ||| r == h.burst
            ||| r.held == h.week.held && r.band != Band::Red
        }),
{
}

/// A volume is projected over the newest points that were watched, as many of them
/// as the window takes.
pub proof fn law_a_volume_is_projected_over_its_window(
    points: Seq<Point>,
    ceiling: u64,
    window: usize,
    at: int,
)
    requires
        0 <= at < points.len(),
        watched_from(points, ceiling, at),
        at > 0 ==> span_secs(points[at].at, points[at - 1].at) > ceiling,
    ensures
        points.len() - at <= window ==> points.skip(stretch_start(points, ceiling, window))
            == points.skip(at),
        points.len() - at > window ==> points.skip(stretch_start(points, ceiling, window)).len()
            == window && points.skip(stretch_start(points, ceiling, window)) == points.skip(
            points.len() - window,
        ),
{
    law_a_trend_is_of_what_was_watched(points, ceiling, None, at);
}

/// A week of drain is worth a warning and never more.
pub proof fn law_a_week_warns_at_most(h: Horizons)
    ensures
        h.week.band == Band::Green ==> h.week_floor().band == Band::Green,
        h.week.band != Band::Green ==> h.week_floor().band == Band::Yellow,
        h.week_floor().held == h.week.held,
        h.descents@.len() > 0 ==> h.newest_quotient() == h.descents@.last().quotient,
{
}

/// A horizon says why where it warns: the sudden drop first, then the week. One that
/// is green says nothing, nor does a drop that is red.
pub proof fn law_a_horizon_says_why(h: Horizons, drop: String, drain: String)
    requires
        h.burst_note == Some(drop),
        h.week_note == Some(drain),
    ensures
        notes_text(h) == (if h.burst.band == Band::Yellow {
            drop@
        } else {
            Seq::empty()
        }) + (if h.week.band == Band::Green {
            Seq::empty()
        } else {
            drain@
        }),
        notes_text(Horizons { burst_note: None, week_note: None, ..h }).len() == 0,
{
}

/// Where the lines of a dimension are not apart its severity tells the side: one
/// where the value is past a line, minus one where it is not.
pub proof fn law_lines_without_distance_tell_the_side(
    spec: BandSpec,
    value: Real,
    span: Real,
    ratio: Real,
)
    requires
        value.finite(),
        span.at_most(Real { bits: 0 }),
    ensures
        severity_for(spec, value, span, ratio) == if super::band::past(
            spec.inverted,
            spec.red,
            value,
        ) || super::band::past(spec.inverted, spec.yellow, value) {
            Real { bits: 0x3FF0_0000_0000_0000 }
        } else {
            Real { bits: 0xBFF0_0000_0000_0000 }
        },
{
}

/// A floor counts the samples it stands for: one more that leaves it, one more; and
/// a new one begins with the samples that confirmed it.
pub proof fn law_a_floor_counts_its_samples(
    projections: Seq<Option<Real>>,
    next: Option<Real>,
    red_secs: Real,
    yellow_secs: Real,
    confirm: usize,
)
    requires
        projections.len() < usize::MAX,
    ensures
        ({
            let before = floor_of(projections, red_secs, yellow_secs, confirm);
            let after = floor_of(projections.push(next), red_secs, yellow_secs, confirm);
            &&& projections.len() == 0 ==> after.held == 1
            &&& projections.len() > 0 && after.band == before.band ==> after.held == before.held + 1
            &&& projections.len() > 0 && after.band != before.band ==> after.held == if confirm
                == 0 {
                1
            } else {
                confirm as int
            }
        }),
{
    let n = if confirm == 0 {
        1nat
    } else {
        confirm as nat
    };
    let all = projections.push(next);
    assert(all.drop_last() =~= projections);
    lemma_floor_bounds(all, red_secs, yellow_secs, n);
    if projections.len() > 0 {
        lemma_floor_bounds(projections, red_secs, yellow_secs, n);
    }
}

/// A band that several horizons agree on has held as long as the longest of them
/// says: the bytes, the sudden drop, and, for a warning, the week.
pub proof fn law_agreeing_horizons_hold_the_longest(
    bytes: Floor,
    projections: Seq<Option<Real>>,
    h: Horizons,
    red_secs: Real,
    yellow_secs: Real,
    confirm: usize,
)
    ensures
        ({
            let r = volume_band(bytes, projections, h, red_secs, yellow_secs, confirm);
            &&& r.band == bytes.band ==> r.held >= bytes.held
            &&& r.band == h.burst.band ==> r.held >= h.burst.held
            &&& r.band == Band::Yellow && h.week.band != Band::Green ==> r.held >= h.week.held
        }),
{
}

} // verus!
