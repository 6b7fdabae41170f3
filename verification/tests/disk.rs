use banshee_core::number::Real;
use banshee_core::pressure::band::Band;
use banshee_core::pressure::disk::{self, Descent, Floor, Horizons};
use banshee_core::pressure::series::Point;
use banshee_core::time::Timestamp;

const RED_BYTES: f64 = 30e9;

const RED_SECS: f64 = 3600.0;

const YELLOW_SECS: f64 = 7200.0;

fn num(x: f64) -> Real {
    Real::from_bits(x.to_bits())
}

fn float(x: Real) -> f64 {
    f64::from_bits(x.bits)
}

fn at(secs: i64) -> Timestamp {
    Timestamp::from_secs(1_757_000_000 + secs)
}

/// Falling at `per_tick` bytes per 15 seconds, newest = `newest`.
fn falling(n: usize, newest: f64, per_tick: f64) -> Vec<(Timestamp, f64)> {
    (0..n).map(|i| (at(i as i64 * 15), newest + (n - 1 - i) as f64 * per_tick)).collect()
}

/// The median of the pairwise slopes.
fn slope_per_sec(points: &[(Timestamp, f64)]) -> Option<f64> {
    let mut slopes = Vec::new();
    for (i, (t0, v0)) in points.iter().enumerate() {
        for (t1, v1) in &points[i + 1..] {
            slopes.push((v1 - v0) / ((t1.nanos - t0.nanos) as f64 / 1e9));
        }
    }
    if slopes.is_empty() {
        return None;
    }
    slopes.sort_by(|a, b| a.total_cmp(b));
    let n = slopes.len();
    Some(if n % 2 == 1 { slopes[n / 2] } else { (slopes[n / 2 - 1] + slopes[n / 2]) / 2.0 })
}

fn least_squares(points: &[(Timestamp, f64)]) -> f64 {
    let n = points.len() as f64;
    let t: Vec<f64> = points.iter().map(|(t, _)| t.secs() as f64).collect();
    let mean_t = t.iter().sum::<f64>() / n;
    let mean_v = points.iter().map(|(_, v)| *v).sum::<f64>() / n;
    let (mut sxx, mut sxy) = (0.0, 0.0);
    for (i, (_, v)) in points.iter().enumerate() {
        sxx += (t[i] - mean_t) * (t[i] - mean_t);
        sxy += (t[i] - mean_t) * (v - mean_v);
    }
    sxy / sxx
}

fn projected_full_secs(free: f64, slope: Option<f64>) -> Option<f64> {
    let quotient = free / -slope.unwrap_or(0.0);
    disk::projected_full_secs(num(free), slope.map(num), num(quotient)).map(float)
}

fn severity(red_bytes: f64, red_secs: f64, free: f64, projection: Option<f64>) -> f64 {
    let bytes_term = (red_bytes / free.max(1.0)).powi(2);
    let time_term = projection.map(|p| num(red_secs / p.max(1.0)));
    float(disk::severity(num(free), num(bytes_term), time_term))
}

fn forced_floor(
    points: &[(Timestamp, f64)],
    red_secs: f64,
    yellow_secs: f64,
    confirm: usize,
) -> (Band, usize) {
    let ahead: Vec<Option<Real>> = (0..points.len())
        .map(|i| {
            slope_per_sec(&points[..=i])
                .and_then(|s| projected_full_secs(points[i].1, Some(s)))
                .map(num)
        })
        .collect();
    let r = disk::forced_floor(&ahead, num(red_secs), num(yellow_secs), confirm);
    (r.band, r.held)
}

#[test]
fn the_bytes_term_is_squared_distance_to_zero() {
    let sev = |free: f64| severity(RED_BYTES, RED_SECS, free, None);
    assert!((sev(30e9) - 1.0).abs() < 1e-9, "1.0 at the red line");
    assert!((sev(20e9) - 2.25).abs() < 1e-9);
    assert!((sev(12e9) - 6.25).abs() < 1e-9, "the 2026-09-15 low");
    assert!((sev(5e9) - 36.0).abs() < 1e-9);
    assert!((sev(60e9) - 0.25).abs() < 1e-9, "smooth through yellow");
}

#[test]
fn the_time_term_wins_when_the_volume_empties_fast() {
    let sev = severity(RED_BYTES, RED_SECS, 12e9, Some(22.0 * 60.0));
    assert!(
        (sev - 6.25).abs() < 1e-9,
        "12 GB free: bytes (6.25) still beats 22 min (2.73): {sev}"
    );
    let sev = severity(RED_BYTES, RED_SECS, 40e9, Some(45.0 * 60.0));
    assert!(
        (sev - RED_SECS / 2700.0).abs() < 1e-9,
        "time term must win at 40 GB + 45 min: {sev}"
    );
    assert!(sev >= 1.0, "red on time alone");
}

#[test]
fn equal_bytes_with_a_steeper_slope_ranks_higher() {
    let slow = severity(RED_BYTES, RED_SECS, 40e9, Some(4.0 * 3600.0));
    let fast = severity(RED_BYTES, RED_SECS, 40e9, Some(30.0 * 60.0));
    assert!(
        fast > slow,
        "same bytes, steeper slope must rank higher: {fast} vs {slow}"
    );
}

#[test]
fn equal_slopes_with_less_free_ranks_higher() {
    let slope = -12e9 / (6.0 * 3600.0);
    let low = severity(
        RED_BYTES,
        RED_SECS,
        12e9,
        projected_full_secs(12e9, Some(slope)),
    );
    let high = severity(
        RED_BYTES,
        RED_SECS,
        25e9,
        projected_full_secs(25e9, Some(slope)),
    );
    assert!(
        low > high,
        "same slope, fewer bytes must rank higher: {low} vs {high}"
    );
    assert!((low - 6.25).abs() < 1e-9, "and by the bytes term: {low}");
}

#[test]
fn severity_guards_its_edges() {
    assert_eq!(severity(RED_BYTES, RED_SECS, f64::NAN, None), -1.0);
    assert!(severity(RED_BYTES, RED_SECS, 0.0, None).is_finite());
    assert!(severity(RED_BYTES, RED_SECS, 0.0, None) > 100.0);
    assert!(
        severity(RED_BYTES, RED_SECS, 100e9, Some(0.0)).is_finite(),
        "a zero projection must clamp, not divide by zero"
    );
}

#[test]
fn a_projection_needs_a_falling_slope_and_positive_bytes() {
    assert_eq!(projected_full_secs(10e9, None), None);
    assert_eq!(projected_full_secs(10e9, Some(0.0)), None);
    assert_eq!(
        projected_full_secs(10e9, Some(5e6)),
        None,
        "filling, not emptying"
    );
    assert_eq!(projected_full_secs(0.0, Some(-5e6)), None);
    let p = projected_full_secs(12e9, Some(-1e9 / 60.0)).unwrap();
    assert!((p - 720.0).abs() < 1e-6, "12 GB at 1 GB/min: 12 min");
}

#[test]
fn one_rebound_window_does_not_flip_the_slope() {
    let mut points = falling(9, 10.25e9, 0.25e9);
    points.push((at(9 * 15), 15.5e9));

    let ls = least_squares(&points);
    assert!(ls >= 0.0, "fixture must flip the least-squares slope, got {ls}");

    let ts = slope_per_sec(&points).unwrap();
    assert!(ts < 0.0, "the median slope must stay falling, got {ts}");
    assert!(
        projected_full_secs(15.5e9, Some(ts)).is_some(),
        "and the projection must survive the rebound window"
    );
}

#[test]
fn a_flat_series_has_a_zero_slope_and_no_projection() {
    let points: Vec<_> = (0..6).map(|i| (at(i * 15), 100e9)).collect();
    let s = slope_per_sec(&points).unwrap();
    assert_eq!(s, 0.0);
    assert_eq!(projected_full_secs(100e9, Some(s)), None);
}

#[test]
fn a_sub_hour_projection_forces_red_whatever_the_bytes_say() {
    let points = falling(21, 40e9, 0.25e9);
    let (band, held) = forced_floor(&points, RED_SECS, YELLOW_SECS, 2);
    assert_eq!(band, Band::Red);
    assert!(held >= 2, "and it has held: {held}");

    let flat: Vec<_> = (0..21).map(|i| (at(i * 15), 40e9)).collect();
    assert_eq!(forced_floor(&flat, RED_SECS, YELLOW_SECS, 2).0, Band::Green);
}

#[test]
fn a_sub_two_hour_projection_forces_at_least_yellow() {
    let points = falling(21, 90e9, 0.25e9);
    let (band, _) = forced_floor(&points, RED_SECS, YELLOW_SECS, 2);
    assert_eq!(band, Band::Yellow, "green bytes, yellow time");
}

#[test]
fn the_forced_floor_needs_confirmation_both_ways() {
    let two = falling(2, 10e9, 5e9);
    assert_eq!(forced_floor(&two, RED_SECS, YELLOW_SECS, 2).0, Band::Green);

    let mut points = falling(20, 10e9, 0.25e9);
    points.push((at(20 * 15), 200e9));
    let (band, _) = forced_floor(&points, RED_SECS, YELLOW_SECS, 2);
    assert_eq!(band, Band::Red, "one good tick does not lift the floor");
}

fn quiet_horizons() -> Horizons {
    Horizons {
        descents: Vec::new(),
        bytes_term: num(0.0),
        time_term: num(0.0),
        burst: Floor { band: Band::Green, held: 0 },
        burst_note: None,
        week: Floor { band: Band::Green, held: 0 },
        week_note: None,
    }
}

#[test]
fn an_equal_floor_only_lengthens_the_hold() {
    let base = Floor { band: Band::Yellow, held: 3 };
    assert_eq!(disk::raise(base, Floor { band: Band::Yellow, held: 9 }).held, 9);
    assert_eq!(disk::raise(base, Floor { band: Band::Yellow, held: 2 }), base);
    assert_eq!(disk::raise(base, Floor { band: Band::Green, held: 9 }), base);
    let red = Floor { band: Band::Red, held: 1 };
    assert_eq!(disk::raise(base, red), red);
}

#[test]
fn the_horizons_that_speak_are_told_burst_first() {
    let mut h = quiet_horizons();
    h.burst_note = Some(", dropping fast".into());
    h.week_note = Some(", a week left".into());
    assert_eq!(disk::notes_of(&h), "");
    h.week.band = Band::Yellow;
    assert_eq!(disk::notes_of(&h), ", a week left");
    h.burst.band = Band::Yellow;
    assert_eq!(disk::notes_of(&h), ", dropping fast, a week left");
}

#[test]
fn a_week_that_is_running_out_raises_a_calm_volume() {
    let mut h = quiet_horizons();
    h.week = Floor { band: Band::Yellow, held: 7 };
    let bytes = Floor { band: Band::Green, held: 40 };
    let r = disk::band_of_volume(bytes, &Vec::new(), &h, num(RED_SECS), num(YELLOW_SECS), 2);
    assert_eq!(r, h.week);
}

#[test]
fn one_tick_has_no_slope_and_forces_nothing() {
    let points: Vec<Point> = falling(4, 1e9, 5e8)
        .into_iter()
        .map(|(at, value)| Point { at, value: num(value) })
        .collect();
    let descents: Vec<Descent> = points
        .iter()
        .map(|p| Descent { slope: Some(num(-1e9)), quotient: num(float(p.value) / 1e9) })
        .collect();
    let ahead = disk::projections(&points, 0, &descents);
    assert_eq!(ahead[0], None);
    assert_eq!(ahead[1].map(float), Some(2.0));
    let floor = |n: usize| {
        disk::forced_floor(&ahead[..n].to_vec(), num(RED_SECS), num(YELLOW_SECS), 2).band
    };
    assert_eq!(floor(1), Band::Green);
    assert_eq!(floor(2), Band::Green);
    assert_eq!(floor(3), Band::Red);
    let same: Vec<Point> = points.iter().map(|p| Point { at: at(0), value: p.value }).collect();
    assert_eq!(disk::projections(&same, 0, &descents), vec![None; 4]);
}

#[test]
fn a_week_alone_never_makes_a_volume_red() {
    let mut h = quiet_horizons();
    h.week = Floor { band: Band::Red, held: 7 };
    h.week_note = Some(", a week left".into());
    let band = |h: &Horizons, bytes: Band| {
        let bytes = Floor { band: bytes, held: 3 };
        disk::band_of_volume(bytes, &Vec::new(), h, num(RED_SECS), num(YELLOW_SECS), 2)
    };
    assert_eq!(band(&h, Band::Green), Floor { band: Band::Yellow, held: 7 });
    assert_eq!(band(&h, Band::Yellow), Floor { band: Band::Yellow, held: 7 });
    assert_eq!(band(&h, Band::Red), Floor { band: Band::Red, held: 3 });
    assert_eq!(disk::notes_of(&h), ", a week left");
    h.burst = Floor { band: Band::Red, held: 2 };
    assert_eq!(band(&h, Band::Green), h.burst);
}
