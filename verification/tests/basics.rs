use banshee_core::number::{Real, Standing};
use banshee_core::pressure::series::{median_interval, Point, Series};
use banshee_core::sorting::sort;
use banshee_core::text::{decimal_text, is_before, join, same_text, signed_decimal_text, strip};
use banshee_core::time::Timestamp;

fn num(x: f64) -> Real {
    Real::from_bits(x.to_bits())
}

#[test]
fn numbers_compare_as_doubles_do() {
    let samples = [
        f64::NEG_INFINITY,
        -1e300,
        -1.0,
        -f64::MIN_POSITIVE,
        -0.0,
        0.0,
        5e-324,
        1.0,
        1.5,
        1e300,
        f64::INFINITY,
        f64::NAN,
    ];
    for a in samples {
        for b in samples {
            assert_eq!(num(a).is_below(num(b)), a < b, "{a} < {b}");
            assert_eq!(num(a).is_at_most(num(b)), a <= b, "{a} <= {b}");
            assert_eq!(num(a).is_same(num(b)), a == b, "{a} == {b}");
        }
        assert_eq!(num(a).is_nan(), a.is_nan());
        assert_eq!(num(a).is_finite(), a.is_finite());
        if !a.is_nan() {
            assert_eq!(num(a).abs(), num(a.abs()));
        }
    }
}

#[test]
fn the_larger_of_two_numbers_is_never_the_broken_one() {
    assert_eq!(num(1.0).max(num(f64::NAN)), num(1.0));
    assert_eq!(num(f64::NAN).max(num(1.0)), num(1.0));
    assert_eq!(num(1.0).max(num(2.0)), num(2.0));
}

#[test]
fn standing_treats_the_incomparable_as_equal() {
    assert_eq!(num(1.0).stands(num(2.0)), Standing::Below);
    assert_eq!(num(2.0).stands(num(1.0)), Standing::Above);
    assert_eq!(num(f64::NAN).stands(num(1.0)), Standing::Same);
}

#[test]
fn whole_numbers_are_rounded_to_the_nearest_double() {
    let mut n: u64 = 1;
    for _ in 0..63 {
        for k in [n - 1, n, n + 1, n.wrapping_mul(3), n ^ (n >> 1)] {
            assert_eq!(Real::from_u64(k), num(k as f64), "{k}");
        }
        n *= 2;
    }
    for k in [
        u64::MAX,
        u64::MAX - 1,
        u64::MAX - 1023,
        u64::MAX - 1024,
        9_007_199_254_740_993,
        9_007_199_254_740_995,
        18_014_398_509_481_990,
    ] {
        assert_eq!(Real::from_u64(k), num(k as f64), "{k}");
    }
}

#[test]
fn spans_are_whole_seconds_and_never_negative() {
    let a = Timestamp { nanos: 1_999_999_999 };
    let b = Timestamp { nanos: 0 };
    assert_eq!(a.secs_since(b), 1);
    assert_eq!(b.secs_since(a), 0);
    assert_eq!(a.millis_since(b), 1_999);
    assert_eq!(Timestamp { nanos: -1 }.secs(), -1);
    assert_eq!(a.before(1), Timestamp { nanos: 999_999_999 });
    assert!(a.is_past(b, 1));
    assert!(!a.is_past(b, 2));
}

#[test]
fn digits_are_written_out() {
    for n in [0, 7, 10, 999, 1_000_000, u64::MAX] {
        assert_eq!(decimal_text(n), n.to_string());
    }
    for n in [0, -1, 42, i64::MIN, i64::MAX] {
        assert_eq!(signed_decimal_text(n), n.to_string());
    }
}

#[test]
fn pieces_are_joined_with_separators_between_them() {
    assert_eq!(join(&Vec::new(), "; "), "");
    assert_eq!(join(&vec!["a".to_string()], "; "), "a");
    assert_eq!(join(&vec!["a".to_string(), "b".to_string()], "; "), "a; b");
}

#[test]
fn names_sort_as_std_sorts_them() {
    let names = ["", "a", "ab", "b", "Z", "é", "zz", "日本"];
    for a in names {
        for b in names {
            assert_eq!(is_before(a, b), a < b, "{a:?} {b:?}");
            assert_eq!(same_text(a, b), a == b);
        }
    }
}

#[test]
fn a_suffix_is_taken_off_once() {
    assert_eq!(strip(&"calmcalm".to_string(), "calm"), "calm");
    assert_eq!(strip(&"calm".to_string(), "x"), "calm");
}

#[test]
fn sorting_puts_the_first_ones_first() {
    assert_eq!(sort(vec![30u64, 10, 20, 10]), vec![10, 10, 20, 30]);
    assert_eq!(sort(vec![num(2.0), num(-1.0), num(0.5)]), vec![num(-1.0), num(0.5), num(2.0)]);
}

fn points(secs: &[i64]) -> Vec<Point> {
    secs.iter().map(|s| Point { at: Timestamp::from_secs(*s), value: num(*s as f64) }).collect()
}

#[test]
fn the_median_interval_ignores_one_hole() {
    assert_eq!(median_interval(&points(&[0, 15, 1044, 1059, 1074, 1089])), Some(15));
    assert_eq!(median_interval(&points(&[0])), None);
}

#[test]
fn a_run_stops_at_a_gap_and_the_gap_is_told() {
    let s = Series {
        points: points(&[0, 15, 1044, 1059]),
        configured_max_interval_secs: 45,
        calibrated_secs: 45,
    };
    assert_eq!(s.contiguous_tail(), 2);
    let held = s.held(4);
    assert_eq!(held.secs, 15);
    assert_eq!(held.gap_secs, Some(1029));
    assert_eq!(s.largest_gap_between(0, 3), Some(1029));
    assert_eq!(s.largest_gap_between(2, 3), None);
    assert_eq!(s.values().len(), 4);
}

#[test]
fn a_tail_within_one_second_has_no_trend() {
    let series = |secs: &[i64]| Series {
        points: points(secs),
        configured_max_interval_secs: 45,
        calibrated_secs: 45,
    };
    let slope = Some(num(2.5));
    assert_eq!(series(&[0, 15, 30]).trend_per_sec(slope), slope);
    assert_eq!(series(&[0, 15, 30]).trend_per_sec(None), None);
    assert_eq!(series(&[0, 15, 1044]).trend_per_sec(slope), None);
    assert_eq!(series(&[7, 7]).trend_per_sec(slope), None);
    assert_eq!(series(&[]).trend_per_sec(slope), None);
}
