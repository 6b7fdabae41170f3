//! Thresholds with hysteresis.
//!
//! A monitor that speaks on every threshold crossing gets muted. So a dimension
//! enters a band at its threshold but leaves it only once the value has fallen
//! back past an exit line, and only after the new state has held for a number of
//! consecutive samples.
//!
//! The machine is a replay over the stored window, not state kept between
//! evaluations: a verdict is a function of the history alone.
use vstd::prelude::*;

use crate::number::Real;

verus! {

/// How bad one dimension is right now.
#[derive(Clone, Copy, Debug, PartialEq, Eq, PartialOrd, Ord, Structural)]
pub enum Band {
    Green,
    Yellow,
    Red,
}

impl Band {
    /// Green below yellow below red.
    pub open spec fn height(self) -> nat {
        match self {
            Band::Green => 0,
            Band::Yellow => 1,
            Band::Red => 2,
        }
    }

    /// Green below yellow below red, as a number.
    pub fn rank(self) -> (r: u8)
        ensures
            r == self.height(),
    {
        match self {
            Band::Green => 0,
            Band::Yellow => 1,
            Band::Red => 2,
        }
    }

    pub fn is_at_least(self, other: Band) -> (r: bool)
        ensures
            r == (self.height() >= other.height()),
    {
        self.rank() >= other.rank()
    }
}

/// Thresholds for one dimension, with the rules for leaving them again.
///
/// Every field is configuration.
#[derive(Clone, Copy, Debug, PartialEq, Eq, Structural)]
pub struct BandSpec {
    /// Value at or beyond which the dimension is yellow.
    pub yellow: Real,
    /// Value at or beyond which the dimension is red.
    pub red: Real,
    /// Value at or inside which yellow is left: the threshold less its margin.
    pub yellow_exit: Real,
    /// Value at or inside which red is left: the threshold less its margin.
    pub red_exit: Real,
    /// Consecutive samples a calmer band must hold before it is adopted.
    pub confirm_samples: usize,
    /// When true, a lower value is worse (free space, free memory).
    pub inverted: bool,
}

impl BandSpec {
    /// The band a value implies by itself. A value that is not finite implies
    /// green: it is no reading at all.
    pub open spec fn implied(self, value: Real) -> Band {
        if !value.finite() {
            Band::Green
        } else if self.inverted {
            if value.at_most(self.red) {
                Band::Red
            } else if value.at_most(self.yellow) {
                Band::Yellow
            } else {
                Band::Green
            }
        } else if self.red.at_most(value) {
            Band::Red
        } else if self.yellow.at_most(value) {
            Band::Yellow
        } else {
            Band::Green
        }
    }

    /// Whether a value has come back past an exit line.
    pub open spec fn clears(self, exit: Real, value: Real) -> bool {
        if self.inverted {
            exit.at_most(value)
        } else {
            value.at_most(exit)
        }
    }

    /// The band a value implies while `current` is held: upward at once,
    /// downward only past the exit line of each band that is left.
    pub open spec fn wanted(self, current: Band, value: Real) -> Band {
        let raw = self.implied(value);
        if raw.height() >= current.height() {
            raw
        } else if current == Band::Red && !self.clears(self.red_exit, value) {
            Band::Red
        } else if raw == Band::Green && !self.clears(self.yellow_exit, value) {
            Band::Yellow
        } else {
            raw
        }
    }

    /// How many samples in a row a calmer band needs.
    pub open spec fn patience(self) -> nat {
        if self.confirm_samples == 0 {
            1
        } else {
            self.confirm_samples as nat
        }
    }

    /// The spec for the negated value: lines and exits negated, the worse side
    /// exchanged.
    pub open spec fn mirrored(self) -> BandSpec {
        BandSpec {
            yellow: self.yellow.negated(),
            red: self.red.negated(),
            yellow_exit: self.yellow_exit.negated(),
            red_exit: self.red_exit.negated(),
            confirm_samples: self.confirm_samples,
            inverted: !self.inverted,
        }
    }

    /// A spec for which a higher value is worse.
    pub fn rising(
        yellow: Real,
        red: Real,
        yellow_exit: Real,
        red_exit: Real,
        confirm_samples: usize,
    ) -> (r: Self)
        ensures
            r == (BandSpec {
                yellow,
                red,
                yellow_exit,
                red_exit,
                confirm_samples,
                inverted: false,
            }),
    {
        BandSpec { yellow, red, yellow_exit, red_exit, confirm_samples, inverted: false }
    }

    /// A spec for which a lower value is worse. `yellow` is the higher number.
    pub fn falling(
        yellow: Real,
        red: Real,
        yellow_exit: Real,
        red_exit: Real,
        confirm_samples: usize,
    ) -> (r: Self)
        ensures
            r == (BandSpec {
                yellow,
                red,
                yellow_exit,
                red_exit,
                confirm_samples,
                inverted: true,
            }),
    {
        BandSpec { yellow, red, yellow_exit, red_exit, confirm_samples, inverted: true }
    }

    /// The band a raw value implies, ignoring hysteresis. Boundaries are
    /// inclusive: a value exactly at the threshold is in the band.
    pub fn raw_band(&self, value: Real) -> (r: Band)
        ensures
            r == self.implied(value),
    {
        if !value.is_finite() {
            // A NaN fails every comparison, so without this it would depend on
            // the order of the tests which band it got.
            return Band::Green;
        }
        if self.inverted {
            if value.is_at_most(self.red) {
                Band::Red
            } else if value.is_at_most(self.yellow) {
                Band::Yellow
            } else {
                Band::Green
            }
        } else if self.red.is_at_most(value) {
            Band::Red
        } else if self.yellow.is_at_most(value) {
            Band::Yellow
        } else {
            Band::Green
        }
    }

    fn has_cleared(&self, exit: Real, value: Real) -> (r: bool)
        ensures
            r == self.clears(exit, value),
    {
        if self.inverted {
            exit.is_at_most(value)
        } else {
            value.is_at_most(exit)
        }
    }

    /// The band a value implies given the band currently held.
    ///
    /// Escalation is immediate. De-escalation requires clearing the exit line.
    pub fn band_from(&self, current: Band, value: Real) -> (r: Band)
        ensures
            r == self.wanted(current, value),
    {
        let raw = self.raw_band(value);
        if raw.is_at_least(current) {
            return raw;
        }
        match current {
            Band::Red => {
                if !self.has_cleared(self.red_exit, value) {
                    Band::Red
                } else if raw == Band::Green && !self.has_cleared(self.yellow_exit, value) {
                    Band::Yellow
                } else {
                    raw
                }
            },
            Band::Yellow => {
                if self.has_cleared(self.yellow_exit, value) {
                    Band::Green
                } else {
                    Band::Yellow
                }
            },
            Band::Green => Band::Green,
        }
    }
}

/// The outcome of replaying a series through a `BandSpec`.
#[derive(Clone, Copy, Debug, PartialEq, Eq, Structural)]
pub struct BandOutcome {
    pub band: Band,
    /// How many trailing samples this band has held for, the newest among them.
    pub held_samples: usize,
    /// The newest value.
    pub value: Real,
    /// A calmer band the newest values imply but which is not confirmed yet.
    pub pending: Option<Band>,
}

/// Where a replay stands after some samples.
pub struct Course {
    pub band: Band,
    pub held: nat,
    pub pending: Option<Band>,
    /// Samples in a row that have asked for `pending`.
    pub run: nat,
}

/// One more sample.
pub open spec fn advanced(spec: BandSpec, c: Course, value: Real) -> Course {
    let want = spec.wanted(c.band, value);
    let run = if c.pending == Some(want) {
        c.run + 1
    } else {
        1
    };
    if want == c.band {
        Course { band: c.band, held: c.held + 1, pending: None, run: 0 }
    } else if want.height() > c.band.height() || run >= spec.patience() {
        Course { band: want, held: run, pending: None, run: 0 }
    } else {
        Course { band: c.band, held: c.held + 1, pending: Some(want), run }
    }
}

/// The state after replaying `values`, oldest first. The first value is taken at
/// its word: starting from green would let a window that begins in a crisis
/// report calm.
pub open spec fn course(spec: BandSpec, values: Seq<Real>) -> Course
    recommends
        values.len() > 0,
    decreases values.len(),
{
    if values.len() <= 1 {
        Course { band: spec.implied(values[0]), held: 1, pending: None, run: 0 }
    } else {
        advanced(spec, course(spec, values.drop_last()), values.last())
    }
}

/// What a replay reports. No data is no outcome, never green.
pub open spec fn outcome_of(spec: BandSpec, values: Seq<Real>) -> Option<BandOutcome> {
    if values.len() == 0 {
        None
    } else {
        let c = course(spec, values);
        Some(
            BandOutcome {
                band: c.band,
                held_samples: c.held as usize,
                value: values.last(),
                pending: c.pending,
            },
        )
    }
}

proof fn lemma_course_bounds(spec: BandSpec, values: Seq<Real>)
    requires
        values.len() > 0,
    ensures
        1 <= course(spec, values).held <= values.len(),
        course(spec, values).run < values.len(),
        course(spec, values).run < spec.patience(),
        course(spec, values).pending is None <==> course(spec, values).run == 0,
        course(spec, values).pending is Some ==> course(spec, values).pending->0.height() < course(
            spec,
            values,
        ).band.height(),
    decreases values.len(),
{
    if values.len() > 1 {
        lemma_course_bounds(spec, values.drop_last());
    }
}

/// Replay `values` (oldest first) through the spec and report the final band.
pub fn replay(spec: &BandSpec, values: &[Real]) -> (r: Option<BandOutcome>)
    ensures
        r == outcome_of(*spec, values@),
{
    let n: usize = values.len();
    if n == 0 {
        return None;
    }
    let mut band = spec.raw_band(values[0]);
    let mut held: usize = 1;
    let mut pending: Option<Band> = None;
    let mut run: usize = 0;
    let mut i: usize = 1;
    while i < n
        invariant
            1 <= i <= n,
            n == values.len(),
            ({
                let c = course(*spec, values@.take(i as int));
                band == c.band && held == c.held && pending == c.pending && run == c.run
            }),
            held <= i,
            run < i,
        decreases n - i,
    {
        let v = values[i];
        proof {
            assert(values@.take(i + 1).drop_last() =~= values@.take(i as int));
            lemma_course_bounds(*spec, values@.take(i + 1));
        }
        let want = spec.band_from(band, v);
        if want == band {
            held = held + 1;
            pending = None;
            run = 0;
        } else {
            let again = match pending {
                Some(p) => p == want,
                None => false,
            };
            run = if again {
                run + 1
            } else {
                1
            };
            let needed: usize = if want.rank() > band.rank() || spec.confirm_samples == 0 {
                1
            } else {
                spec.confirm_samples
            };
            if run >= needed {
                band = want;
                held = run;
                pending = None;
                run = 0;
            } else {
                pending = Some(want);
                held = held + 1;
            }
        }
        i = i + 1;
    }
    assert(values@.take(n as int) =~= values@);
    Some(BandOutcome { band, held_samples: held, value: values[n - 1], pending })
}

/// For a finite reading, a worse value never implies a calmer band.
pub proof fn law_worse_values_never_read_calmer(spec: BandSpec, a: Real, b: Real)
    requires
        a.finite(),
        b.finite(),
        spec.inverted ==> b.at_most(a),
        !spec.inverted ==> a.at_most(b),
    ensures
        spec.implied(a).height() <= spec.implied(b).height(),
{
}

/// A value exactly on a threshold is inside the band.
pub proof fn law_thresholds_are_inclusive(spec: BandSpec)
    requires
        spec.red.finite(),
        spec.yellow.finite(),
    ensures
        spec.implied(spec.red) == Band::Red,
        spec.implied(spec.yellow).height() >= Band::Yellow.height(),
{
}

/// A reading that is not a number, or is infinite, never implies alarm.
pub proof fn law_broken_readings_imply_green(spec: BandSpec, value: Real)
    requires
        !value.finite(),
    ensures
        spec.implied(value) == Band::Green,
{
}

/// The band reported is never calmer than what the newest value implies:
/// hysteresis delays recovery and nothing else.
pub proof fn law_replay_never_understates(spec: BandSpec, values: Seq<Real>)
    requires
        values.len() > 0,
    ensures
        outcome_of(spec, values)->0.band.height() >= spec.implied(values.last()).height(),
{
    if values.len() > 1 {
        let c = course(spec, values.drop_last());
        let want = spec.wanted(c.band, values.last());
        assert(want.height() >= spec.implied(values.last()).height());
    }
}

/// A band is left downward only past its exit line.
pub proof fn law_leaving_takes_the_margin(spec: BandSpec, values: Seq<Real>, value: Real)
    requires
        values.len() > 0,
        course(spec, values).band == Band::Red ==> !spec.clears(spec.red_exit, value),
        course(spec, values).band == Band::Yellow ==> !spec.clears(spec.yellow_exit, value),
    ensures
        course(spec, values.push(value)).band.height() >= course(spec, values).band.height(),
{
    assert(values.push(value).drop_last() =~= values);
}

/// A calmer band waits for its confirming samples: only a worse one is adopted
/// on the first.
pub proof fn law_one_calm_sample_does_not_clear(spec: BandSpec, values: Seq<Real>, value: Real)
    requires
        values.len() > 0,
        spec.confirm_samples > 1,
        course(spec, values).pending is None,
    ensures
        course(spec, values.push(value)).band.height() >= course(spec, values).band.height(),
{
    assert(values.push(value).drop_last() =~= values);
    lemma_course_bounds(spec, values);
}

/// What is pending is always calmer than what is held, and has not yet been
/// confirmed.
pub proof fn law_only_recovery_is_pending(spec: BandSpec, values: Seq<Real>)
    requires
        values.len() > 0,
    ensures
        outcome_of(spec, values)->0.pending is Some ==> {
            &&& outcome_of(spec, values)->0.pending->0.height() < outcome_of(
                spec,
                values,
            )->0.band.height()
            &&& course(spec, values).run < spec.patience()
        },
{
    lemma_course_bounds(spec, values);
}

/// A band never claims to have held for longer than there are samples.
pub proof fn law_held_is_observed(spec: BandSpec, values: Seq<Real>)
    requires
        values.len() > 0,
    ensures
        1 <= course(spec, values).held <= values.len(),
{
    lemma_course_bounds(spec, values);
}

/// A value that swings about a threshold without reaching the exit line holds
/// the band for as long as it swings.
pub proof fn law_swinging_does_not_flap(spec: BandSpec, values: Seq<Real>)
    requires
        values.len() > 0,
        spec.implied(values[0]) == Band::Red,
        forall|i: int|
            0 <= i < values.len() ==> !(#[trigger] spec.clears(spec.red_exit, values[i])),
    ensures
        course(spec, values).band == Band::Red,
        course(spec, values).held == values.len(),
    decreases values.len(),
{
    if values.len() > 1 {
        let front = values.drop_last();
        assert forall|i: int| 0 <= i < front.len() implies !(#[trigger] spec.clears(
            spec.red_exit,
            front[i],
        )) by {
            assert(!spec.clears(spec.red_exit, values[i]));
        }
        law_swinging_does_not_flap(spec, front);
        assert(!spec.clears(spec.red_exit, values[values.len() - 1]));
    }
}

/// One replay stands at least where another does, and whatever it is about to
/// leave for, the other is at least as far on the way.
spec fn keeps_above(a: Course, b: Course) -> bool {
    &&& a.band.height() >= b.band.height()
    &&& a.pending is Some && a.pending->0.height() < b.band.height() ==> b.pending == a.pending
        && b.run >= a.run
}

proof fn lemma_keeps_above(spec: BandSpec, a: Course, b: Course, value: Real)
    requires
        keeps_above(a, b),
        a.pending is Some ==> a.pending->0.height() < a.band.height(),
        b.pending is Some ==> b.pending->0.height() < b.band.height(),
    ensures
        keeps_above(advanced(spec, a, value), advanced(spec, b, value)),
{
    let x = spec.wanted(a.band, value);
    let y = spec.wanted(b.band, value);
    assert(x.height() >= y.height());
}

proof fn lemma_more_history(spec: BandSpec, older: Seq<Real>, window: Seq<Real>)
    requires
        window.len() > 0,
    ensures
        keeps_above(course(spec, older + window), course(spec, window)),
    decreases window.len(),
{
    let all = older + window;
    if window.len() > 1 {
        let front = window.drop_last();
        lemma_more_history(spec, older, front);
        lemma_course_bounds(spec, older + front);
        lemma_course_bounds(spec, front);
        assert(all.drop_last() =~= older + front);
        lemma_keeps_above(
            spec,
            course(spec, older + front),
            course(spec, front),
            window.last(),
        );
    } else if older.len() > 0 {
        lemma_course_bounds(spec, all);
        assert(all.drop_last() =~= older);
        assert(all.last() == window[0]);
        law_replay_never_understates(spec, all);
        let c = course(spec, older);
        lemma_course_bounds(spec, older);
        assert(spec.wanted(c.band, window[0]).height() >= spec.implied(window[0]).height());
    } else {
        assert(all =~= window);
    }
}

/// More history never calms a band: a window that opens earlier reports at least
/// the band that a shorter one does.
pub proof fn law_more_history_never_calms(spec: BandSpec, older: Seq<Real>, window: Seq<Real>)
    requires
        window.len() > 0,
    ensures
        course(spec, older + window).band.height() >= course(spec, window).band.height(),
{
    lemma_more_history(spec, older, window);
}

/// Where a window opens on a settled band, history before it changes nothing but
/// how long the band is known to have held.
pub proof fn law_more_history_only_lengthens_the_hold(
    spec: BandSpec,
    older: Seq<Real>,
    window: Seq<Real>,
)
    requires
        window.len() > 0,
        course(spec, older.push(window[0])).band == spec.implied(window[0]),
        course(spec, older.push(window[0])).pending is None,
    ensures
        course(spec, older + window).band == course(spec, window).band,
        course(spec, older + window).pending == course(spec, window).pending,
        course(spec, older + window).run == course(spec, window).run,
        course(spec, older + window).held >= course(spec, window).held,
    decreases window.len(),
{
    let all = older + window;
    if window.len() > 1 {
        let front = window.drop_last();
        assert(front[0] == window[0]);
        law_more_history_only_lengthens_the_hold(spec, older, front);
        assert(all.drop_last() =~= older + front);
    } else {
        assert(all =~= older.push(window[0]));
        lemma_course_bounds(spec, all);
    }
}

pub open spec fn all_negated(values: Seq<Real>) -> Seq<Real> {
    values.map_values(|v: Real| v.negated())
}

proof fn lemma_mirrored_course(spec: BandSpec, values: Seq<Real>)
    requires
        values.len() > 0,
    ensures
        course(spec.mirrored(), all_negated(values)) == course(spec, values),
    decreases values.len(),
{
    let there = all_negated(values);
    assert(there.last() == values.last().negated());
    if values.len() > 1 {
        lemma_mirrored_course(spec, values.drop_last());
        assert(there.drop_last() =~= all_negated(values.drop_last()));
        let c = course(spec, values.drop_last());
        law_either_side_is_treated_alike(spec, c.band, values.last());
    } else {
        law_either_side_is_treated_alike(spec, Band::Green, values[0]);
    }
}

/// A band is entered and left by the same rules whether higher or lower values are
/// the worse ones: a value against a spec is its negative against the mirrored
/// spec.
pub proof fn law_either_side_is_treated_alike(spec: BandSpec, current: Band, value: Real)
    ensures
        spec.mirrored().implied(value.negated()) == spec.implied(value),
        spec.mirrored().wanted(current, value.negated()) == spec.wanted(current, value),
{
}

/// Hysteresis is symmetric: the negated values replayed through the mirrored spec
/// give the same band, held as long, with the same recovery pending.
pub proof fn law_hysteresis_is_symmetric(spec: BandSpec, values: Seq<Real>)
    ensures
        outcome_of(spec.mirrored(), all_negated(values)) == match outcome_of(spec, values) {
            Some(x) => Some(BandOutcome { value: x.value.negated(), ..x }),
            None => None,
        },
        values.len() > 0 ==> course(spec.mirrored(), all_negated(values)) == course(spec, values),
        spec.mirrored().mirrored() == spec,
{
    if values.len() > 0 {
        lemma_mirrored_course(spec, values);
        assert(all_negated(values).last() == values.last().negated());
    }
}

/// Whether a value is a number at or beyond a line, on the worse side of it.
pub open spec fn past(inverted: bool, line: Real, value: Real) -> bool {
    value.finite() && if inverted {
        value.at_most(line)
    } else {
        line.at_most(value)
    }
}

/// The newest value past a line puts the dimension in that band at once, whatever
/// came before.
pub proof fn law_a_crossing_is_seen_at_once(spec: BandSpec, values: Seq<Real>)
    requires
        values.len() > 0,
    ensures
        outcome_of(spec, values) matches Some(o) && o.value == values.last() && (past(
            spec.inverted,
            spec.red,
            values.last(),
        ) ==> o.band == Band::Red) && (past(spec.inverted, spec.yellow, values.last())
            ==> o.band != Band::Green),
{
    law_replay_never_understates(spec, values);
}

/// No alarm comes from nowhere: a dimension is red only where some value of the
/// window was past the red line, and out of green only where some was past a line.
pub proof fn law_no_alarm_without_a_value(spec: BandSpec, values: Seq<Real>)
    requires
        values.len() > 0,
    ensures
        outcome_of(spec, values)->0.band == Band::Red ==> exists|i: int|
            0 <= i < values.len() && past(spec.inverted, spec.red, #[trigger] values[i]),
        outcome_of(spec, values)->0.band != Band::Green ==> exists|i: int|
            0 <= i < values.len() && (past(spec.inverted, spec.red, #[trigger] values[i]) || past(
                spec.inverted,
                spec.yellow,
                values[i],
            )),
    decreases values.len(),
{
    if values.len() == 1 {
        assert(values[0] == values.last());
    } else {
        let front = values.drop_last();
        law_no_alarm_without_a_value(spec, front);
        let before = course(spec, front).band;
        let band = course(spec, values).band;
        lemma_course_bounds(spec, front);
        assert(values[values.len() - 1] == values.last());
        if band == Band::Red {
            if before == Band::Red {
                let i = choose|i: int|
                    0 <= i < front.len() && past(spec.inverted, spec.red, #[trigger] front[i]);
                assert(values[i] == front[i]);
            } else {
                assert(spec.wanted(before, values.last()) == Band::Red);
                assert(past(spec.inverted, spec.red, values[values.len() - 1]));
            }
        }
        if band != Band::Green {
            if before != Band::Green {
                let i = choose|i: int|
                    0 <= i < front.len() && (past(spec.inverted, spec.red, #[trigger] front[i])
                        || past(spec.inverted, spec.yellow, front[i]));
                assert(values[i] == front[i]);
            } else {
                assert(spec.wanted(before, values.last()) == spec.implied(values.last()));
                assert(past(spec.inverted, spec.red, values[values.len() - 1]) || past(
                    spec.inverted,
                    spec.yellow,
                    values[values.len() - 1],
                ));
            }
        }
    }
}

/// Whether a value is calm: past neither line, and back past both exits.
pub open spec fn calm(spec: BandSpec, value: Real) -> bool {
    &&& !past(spec.inverted, spec.red, value)
    &&& !past(spec.inverted, spec.yellow, value)
    &&& if spec.inverted {
        spec.red_exit.at_most(value) && spec.yellow_exit.at_most(value)
    } else {
        value.at_most(spec.red_exit) && value.at_most(spec.yellow_exit)
    }
}

proof fn lemma_calming(spec: BandSpec, older: Seq<Real>, calming: Seq<Real>)
    requires
        older.len() + calming.len() > 0,
        forall|i: int| 0 <= i < calming.len() ==> calm(spec, #[trigger] calming[i]),
    ensures
        ({
            let c = course(spec, older + calming);
            calming.len() > 0 ==> c.band == Band::Green || (c.pending == Some(Band::Green) && c.run
                >= calming.len())
        }),
    decreases calming.len(),
{
    let all = older + calming;
    if calming.len() > 0 {
        let front = calming.drop_last();
        assert(all.last() == calming[calming.len() - 1]);
        if all.len() > 1 {
            assert(all.drop_last() =~= older + front);
            assert forall|i: int| 0 <= i < front.len() implies calm(spec, #[trigger] front[i]) by {
                assert(calm(spec, calming[i]));
            }
            lemma_calming(spec, older, front);
            let c = course(spec, older + front);
            assert(spec.wanted(c.band, all.last()) == Band::Green);
        } else {
            assert(all[0] == calming[calming.len() - 1]);
        }
    }
}

/// Recovery is owed: as many calm values in a row as have to confirm make a
/// dimension green, however bad it was.
pub proof fn law_recovery_is_owed(spec: BandSpec, older: Seq<Real>, calming: Seq<Real>)
    requires
        calming.len() > 0,
        calming.len() >= spec.confirm_samples,
        forall|i: int| 0 <= i < calming.len() ==> calm(spec, #[trigger] calming[i]),
    ensures
        outcome_of(spec, older + calming)->0.band == Band::Green,
{
    lemma_calming(spec, older, calming);
    lemma_course_bounds(spec, older + calming);
}

/// How long a band has held is counted in samples: one more while it stays, one
/// when a worse band takes over, and the confirming ones when a calmer one does.
pub proof fn law_a_band_counts_its_samples(spec: BandSpec, values: Seq<Real>, value: Real)
    requires
        values.len() > 0,
    ensures
        ({
            let a = course(spec, values);
            let b = course(spec, values.push(value));
            &&& b.band == a.band ==> b.held == a.held + 1
            &&& b.band.height() > a.band.height() ==> b.held == 1
            &&& b.band.height() < a.band.height() ==> b.held == if spec.confirm_samples == 0 {
                1
            } else {
                spec.confirm_samples as nat
            }
        }),
        course(spec, seq![value]).held == 1,
{
    assert(values.push(value).drop_last() =~= values);
    lemma_course_bounds(spec, values);
}

} // verus!
