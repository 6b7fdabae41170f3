use banshee_core::number::Real;
use banshee_core::pressure::band::{replay, Band, BandOutcome, BandSpec};

fn r(x: f64) -> Real {
    Real::from_bits(x.to_bits())
}

/// Yellow at 1, red at 3, half a unit below to leave, two samples to confirm.
fn cpu() -> BandSpec {
    rising(1.0, 3.0, 0.5, 2)
}

/// Yellow at 20 GB or less, red at 5 GB or less, 1 GB of margin.
fn disk() -> BandSpec {
    BandSpec::falling(r(20e9), r(5e9), r(20e9 + 1e9), r(5e9 + 1e9), 2)
}

fn rising(yellow: f64, red: f64, margin: f64, confirm: usize) -> BandSpec {
    BandSpec::rising(r(yellow), r(red), r(yellow - margin), r(red - margin), confirm)
}

fn replay_of(s: &BandSpec, values: &[f64]) -> Option<BandOutcome> {
    let values: Vec<Real> = values.iter().map(|v| r(*v)).collect();
    replay(s, &values)
}

#[test]
fn thresholds_are_inclusive_at_the_boundary() {
    let s = cpu();
    assert_eq!(s.raw_band(r(0.999)), Band::Green);
    assert_eq!(s.raw_band(r(1.0)), Band::Yellow, "exactly yellow is yellow");
    assert_eq!(s.raw_band(r(2.999)), Band::Yellow);
    assert_eq!(s.raw_band(r(3.0)), Band::Red, "exactly red is red");
    assert_eq!(s.raw_band(r(76.0 / 8.0)), Band::Red, "the 2026-08-04 load");
}

#[test]
fn inverted_specs_get_worse_as_the_value_falls() {
    let s = disk();
    assert_eq!(s.raw_band(r(100e9)), Band::Green);
    assert_eq!(s.raw_band(r(20e9)), Band::Yellow, "exactly yellow is yellow");
    assert_eq!(s.raw_band(r(19e9)), Band::Yellow);
    assert_eq!(s.raw_band(r(5e9)), Band::Red, "exactly red is red");
    assert_eq!(s.raw_band(r(1.1e9)), Band::Red, "the 2026-07-16 crisis");
}

#[test]
fn non_finite_values_do_not_escalate_or_silently_pass() {
    let s = cpu();
    assert_eq!(s.raw_band(r(f64::NAN)), Band::Green);
    assert_eq!(
        s.raw_band(r(f64::INFINITY)),
        Band::Green,
        "infinity is a broken reading, not a red alert"
    );
    assert_eq!(s.raw_band(r(f64::NEG_INFINITY)), Band::Green);
}

#[test]
fn escalation_is_immediate() {
    let s = cpu();
    let out = replay_of(&s, &[0.2, 0.3, 5.0]).unwrap();
    assert_eq!(out.band, Band::Red, "one red sample is enough to escalate");
    assert_eq!(out.held_samples, 1);
}

#[test]
fn a_value_just_below_the_threshold_does_not_de_escalate() {
    let s = cpu();
    let out = replay_of(&s, &[3.0, 2.9, 2.9, 2.9]).unwrap();
    assert_eq!(out.band, Band::Red, "still red: 2.9 > 3.0 - 0.5");
}

#[test]
fn clearing_the_margin_for_long_enough_de_escalates() {
    let s = cpu();
    let out = replay_of(&s, &[3.0, 2.4, 2.4]).unwrap();
    assert_eq!(out.band, Band::Yellow);
}

#[test]
fn a_single_good_sample_does_not_confirm_a_drop() {
    let s = cpu();
    let out = replay_of(&s, &[3.0, 3.0, 2.0]).unwrap();
    assert_eq!(out.band, Band::Red, "one clearing sample is not enough");
    assert_eq!(out.pending, Some(Band::Yellow), "but the drop is pending");

    let out = replay_of(&s, &[3.0, 3.0, 2.0, 2.0]).unwrap();
    assert_eq!(out.band, Band::Yellow, "two confirms it");
    assert_eq!(out.pending, None);
}

#[test]
fn de_escalation_does_not_skip_a_band_it_has_not_cleared() {
    let s = cpu();
    let out = replay_of(&s, &[3.0, 0.9, 0.9, 0.9]).unwrap();
    assert_eq!(out.band, Band::Yellow, "must land on Yellow, not Green");

    let out = replay_of(&s, &[3.0, 0.4, 0.4, 0.4]).unwrap();
    assert_eq!(out.band, Band::Green);
}

#[test]
fn an_oscillating_value_does_not_flap() {
    let s = cpu();
    let values = [3.1, 2.9, 3.1, 2.8, 3.2, 2.9, 3.0, 2.7];
    let out = replay_of(&s, &values).unwrap();
    assert_eq!(out.band, Band::Red, "stays red throughout");
    assert_eq!(
        out.held_samples,
        values.len(),
        "the band never changed, so it has held for the whole window"
    );
}

#[test]
fn inverted_specs_also_require_the_margin_to_recover() {
    let s = disk();
    let out = replay_of(&s, &[4e9, 5.5e9, 5.5e9]).unwrap();
    assert_eq!(out.band, Band::Red, "5.5 GB < 5 GB + 1 GB margin");

    let out = replay_of(&s, &[4e9, 6.5e9, 6.5e9]).unwrap();
    assert_eq!(out.band, Band::Yellow, "6.5 GB clears red's margin");
}

#[test]
fn an_empty_series_has_no_band() {
    assert!(replay_of(&cpu(), &[]).is_none());
}

#[test]
fn a_single_sample_reports_its_raw_band() {
    let out = replay_of(&cpu(), &[4.0]).unwrap();
    assert_eq!(out.band, Band::Red);
    assert_eq!(out.held_samples, 1);
    assert_eq!(out.value, r(4.0));
}

#[test]
fn a_window_that_begins_in_crisis_does_not_start_from_green() {
    let s = cpu();
    let out = replay_of(&s, &[9.5, 9.5, 9.5]).unwrap();
    assert_eq!(out.band, Band::Red, "the window was red from the start");
    assert_eq!(out.held_samples, 3);
}

#[test]
fn held_samples_counts_only_the_trailing_run() {
    let s = cpu();
    let out = replay_of(&s, &[0.1, 0.2, 5.0, 5.0]).unwrap();
    assert_eq!(out.band, Band::Red);
    assert_eq!(out.held_samples, 2);
}

#[test]
fn a_zero_confirm_count_is_treated_as_one() {
    let s = rising(1.0, 3.0, 0.5, 0);
    let out = replay_of(&s, &[3.0, 2.0]).unwrap();
    assert_eq!(out.band, Band::Yellow, "adopted at once");
}

#[test]
fn band_ordering_is_green_yellow_red() {
    assert!(Band::Red > Band::Yellow);
    assert!(Band::Yellow > Band::Green);
    assert!(Band::Red.is_at_least(Band::Yellow));
    assert!(!Band::Yellow.is_at_least(Band::Red));
}

#[test]
fn a_broken_reading_does_not_disturb_a_held_red() {
    let out = replay_of(&cpu(), &[5.0, f64::NAN, 5.0]).unwrap();
    assert_eq!(out.band, Band::Red);
    assert_eq!(out.held_samples, 3);
    assert_eq!(out.pending, None);
}

#[test]
fn a_drop_is_taken_from_the_band_that_is_held() {
    let s = cpu();
    assert_eq!(s.band_from(Band::Red, r(2.51)), Band::Red);
    assert_eq!(s.band_from(Band::Red, r(2.5)), Band::Yellow);
    assert_eq!(s.band_from(Band::Yellow, r(0.51)), Band::Yellow);
    assert_eq!(s.band_from(Band::Yellow, r(0.5)), Band::Green);
    assert_eq!(s.band_from(Band::Green, r(3.0)), Band::Red);
}

#[test]
fn older_history_never_calms_and_leaves_a_settled_band_alone() {
    let s = cpu();
    let long = replay_of(&s, &[4.0, 2.8]).unwrap();
    let short = replay_of(&s, &[2.8]).unwrap();
    assert_eq!(long.band, Band::Red);
    assert_eq!(short.band, Band::Yellow);
    let long = replay_of(&s, &[3.5, 3.5, 3.5, 3.2]).unwrap();
    let short = replay_of(&s, &[3.5, 3.2]).unwrap();
    assert_eq!(long.band, short.band);
    assert_eq!(long.pending, short.pending);
    assert_eq!((long.held_samples, short.held_samples), (4, 2));
}

#[test]
fn a_falling_spec_replays_as_its_negative_rises() {
    let values = [0.2, 3.5, 2.7, 2.2, 2.4, 0.1, 0.4, 1.0, f64::NAN, -0.0];
    let up = cpu();
    let down = BandSpec::falling(r(-1.0), r(-3.0), r(-0.5), r(-2.5), 2);
    for n in 1..=values.len() {
        let there = replay_of(&up, &values[..n]).unwrap();
        let mirrored: Vec<f64> = values[..n].iter().map(|v| -v).collect();
        let back = replay_of(&down, &mirrored).unwrap();
        assert_eq!(there.band, back.band);
        assert_eq!(there.held_samples, back.held_samples);
        assert_eq!(there.pending, back.pending);
    }
    assert_eq!(replay_of(&up, &values[..4]).unwrap().band, Band::Red);
    assert_eq!(replay_of(&up, &values[..5]).unwrap().band, Band::Yellow);
}
