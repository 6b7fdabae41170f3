use banshee_core::pressure::config::PressureConfig;
use banshee_core::pressure::lookback::{
    default_lookback_label, fmt_secs, parse_lookback, Lookback, MIN_LOOKBACK_SECS,
};

fn cfg() -> PressureConfig {
    PressureConfig::default()
}

#[test]
fn parse_lookback_reads_every_unit() {
    let c = cfg();
    assert_eq!(
        parse_lookback("90s", &c),
        Ok(Lookback::Ago(90))
    );
    assert_eq!(
        parse_lookback("30m", &c),
        Ok(Lookback::Ago(1800))
    );
    assert_eq!(
        parse_lookback("1h", &c),
        Ok(Lookback::Ago(3600))
    );
    assert_eq!(
        parse_lookback("600", &c),
        Ok(Lookback::Ago(600))
    );
    assert_eq!(parse_lookback("  episode ", &c), Ok(Lookback::Episode));
}

#[test]
fn parse_lookback_refuses_out_of_bounds_rather_than_clamping() {
    let c = cfg();
    assert!(parse_lookback("30s", &c).is_err());
    assert!(parse_lookback("48h", &c).is_err());
    assert!(parse_lookback("0", &c).is_err());
    assert!(parse_lookback("soon", &c).is_err());
}

#[test]
fn the_bounds_are_inclusive() {
    let c = cfg();
    assert_eq!(parse_lookback("1m", &c), Ok(Lookback::Ago(MIN_LOOKBACK_SECS)));
    let most = format!("{}s", c.deltas_max_lookback_secs);
    assert_eq!(parse_lookback(&most, &c), Ok(Lookback::Ago(c.deltas_max_lookback_secs)));
    let over = format!("{}s", c.deltas_max_lookback_secs + 1);
    assert!(parse_lookback(&over, &c).is_err());
}

#[test]
fn a_lookback_that_is_no_duration_is_quoted_back() {
    let e = parse_lookback("so\"on", &cfg()).unwrap_err();
    assert!(e.contains("\"so\\\"on\""), "{e}");
}

#[test]
fn the_episode_keyword_takes_any_case() {
    assert_eq!(parse_lookback("EPISODE", &cfg()), Ok(Lookback::Episode));
    assert_eq!(parse_lookback("Episode", &cfg()), Ok(Lookback::Episode));
}

#[test]
fn numbers_that_do_not_fit_are_refused() {
    assert!(parse_lookback("99999999999999999999h", &cfg()).is_err());
    assert!(parse_lookback("18446744073709551615h", &cfg()).is_err());
    assert!(parse_lookback("-5m", &cfg()).is_err());
    assert!(parse_lookback("", &cfg()).is_err());
    assert!(parse_lookback("h", &cfg()).is_err());
}

#[test]
fn spans_are_told_in_the_two_units_that_matter() {
    assert_eq!(fmt_secs(45), "45s");
    assert_eq!(fmt_secs(600), "10m");
    assert_eq!(fmt_secs(8_040), "2h14m");
    assert_eq!(default_lookback_label(&cfg()), "1h");
}
