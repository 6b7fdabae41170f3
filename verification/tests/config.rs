use banshee_core::number::Real;
use banshee_core::pressure::band::Band;
use banshee_core::pressure::config::{Dimension, PressureConfig, Source, ALL_DIMENSIONS};

fn r(x: f64) -> Real {
    Real::from_bits(x.to_bits())
}

#[test]
fn every_dimension_has_a_spec_a_key_and_a_label() {
    let c = PressureConfig::default();
    let mut keys = Vec::new();
    for d in ALL_DIMENSIONS {
        let _ = c.spec(d);
        assert!(!d.key().is_empty());
        assert!(!d.label().is_empty());
        keys.push(d.key());
    }
    let mut sorted = keys.clone();
    sorted.sort_unstable();
    sorted.dedup();
    assert_eq!(sorted.len(), keys.len(), "keys must be unique: {keys:?}");
}

#[test]
fn all_dimensions_covers_every_variant() {
    assert_eq!(ALL_DIMENSIONS.len(), 14);
    for d in [
        Dimension::Cpu,
        Dimension::Thermal,
        Dimension::Memory,
        Dimension::Swap,
        Dimension::KernelPressure,
        Dimension::Thrash,
        Dimension::KernelFree,
        Dimension::Compressor,
        Dimension::Jetsam,
        Dimension::Agents,
        Dimension::Orphans,
        Dimension::Corporate,
        Dimension::Disk,
        Dimension::Uptime,
    ] {
        assert!(ALL_DIMENSIONS.contains(&d), "{d:?} is not evaluated");
    }
}

#[test]
fn the_banded_memory_dimensions_exclude_the_advisory_ones() {
    let banded: Vec<Dimension> = ALL_DIMENSIONS
        .iter()
        .copied()
        .filter(|d| d.source() == Source::Memory && !d.is_advisory())
        .collect();
    assert_eq!(
        banded,
        vec![
            Dimension::Swap,
            Dimension::KernelPressure,
            Dimension::Thrash,
            Dimension::Jetsam,
        ],
        "absolute swap, the kernel's verdict, thrash rate and jetsam kills \
         are the memory signals that drive the level"
    );

    let advisory_memory: Vec<Dimension> = ALL_DIMENSIONS
        .iter()
        .copied()
        .filter(|d| d.source() == Source::Memory && d.is_advisory())
        .collect();
    assert_eq!(
        advisory_memory,
        vec![
            Dimension::Memory,
            Dimension::KernelFree,
            Dimension::Compressor,
            Dimension::Uptime,
        ]
    );
}

#[test]
fn only_the_free_headroom_dimensions_are_inverted() {
    let c = PressureConfig::default();
    for d in ALL_DIMENSIONS {
        let inverted = c.spec(d).inverted;
        let expect = matches!(
            d,
            Dimension::Memory | Dimension::Disk | Dimension::KernelFree
        );
        assert_eq!(inverted, expect, "{d:?} inverted = {inverted}");
    }
}

#[test]
fn the_ws1c_memory_signals_band_where_they_were_calibrated() {
    let c = PressureConfig::default();
    assert_eq!(c.jetsam.raw_band(r(1.0)), Band::Red, "any kill is red");
    assert_eq!(c.jetsam.raw_band(r(0.0)), Band::Green, "no kills is green");
    assert_eq!(c.kernel_free.raw_band(r(39.0)), Band::Green);
    assert_eq!(c.kernel_free.raw_band(r(25.0)), Band::Yellow);
    assert_eq!(c.kernel_free.raw_band(r(10.0)), Band::Red);
    assert_eq!(c.compressor.raw_band(r(300e6)), Band::Green);
    assert_eq!(c.compressor.raw_band(r(9e9)), Band::Red);
}

#[test]
fn the_advisory_dimensions_are_the_display_only_ones() {
    let advisory: Vec<Dimension> = ALL_DIMENSIONS
        .iter()
        .copied()
        .filter(|d| d.is_advisory())
        .collect();
    assert_eq!(
        advisory,
        vec![
            Dimension::Memory,
            Dimension::KernelFree,
            Dimension::Compressor,
            Dimension::Uptime,
        ]
    );
    assert!(
        !Dimension::Jetsam.is_advisory(),
        "a jetsam kill must drive the level, not merely inform"
    );
}

#[test]
fn the_defaults_would_have_caught_the_incidents_they_came_from() {
    let c = PressureConfig::default();

    assert_eq!(c.cpu.raw_band(r(0.98)), Band::Red);
    assert_eq!(c.cpu.raw_band(r(0.88)), Band::Yellow);
    assert_eq!(c.swap.raw_band(r(35.6e9)), Band::Red);
    assert_eq!(c.memory.raw_band(r(217e6)), Band::Red);
    assert_eq!(c.memory.raw_band(r(9.3e9)), Band::Green);
    assert_eq!(c.thrash.raw_band(r(9300.0)), Band::Red);
    assert_eq!(c.kernel_pressure.raw_band(r(4.0)), Band::Red);
    assert_eq!(c.kernel_pressure.raw_band(r(2.0)), Band::Yellow);
    assert_eq!(c.orphans.raw_band(r(45.0)), Band::Red);
    assert_eq!(c.disk.raw_band(r(1.1e9)), Band::Red);
}

#[test]
fn the_defaults_are_quiet_on_a_healthy_machine() {
    let c = PressureConfig::default();
    assert_eq!(c.cpu.raw_band(r(0.53)), Band::Green);
    assert_eq!(c.disk.raw_band(r(71e9)), Band::Green);
    assert_eq!(c.orphans.raw_band(r(2.0)), Band::Green);
    assert_eq!(c.agents.raw_band(r(0.0)), Band::Green);
    assert_eq!(c.kernel_pressure.raw_band(r(1.0)), Band::Green);
    assert_eq!(
        c.corporate.raw_band(r(49.2)),
        Band::Green,
        "today's baseline must not be a standing warning"
    );
    assert_eq!(c.corporate.raw_band(r(65.0)), Band::Yellow, "but growth trips");
}

#[test]
fn the_corporate_minimum_lifetime_exceeds_the_observed_noise_case() {
    let c = PressureConfig::default();
    assert!(
        c.corporate_min_life_secs > 109,
        "must exclude the 109s restart that measured 14.6%"
    );
}

#[test]
fn the_episode_timings_nest() {
    let c = PressureConfig::default();
    assert!(c.episode_down_secs > c.thrash_peak_window_secs);
    assert!(c.episode_repeat_secs > c.episode_down_secs);
    assert!(c.episode_up_secs <= c.red_grace_secs);
    assert_eq!(
        c.episode_repeat_secs, 3600,
        "the point-event cooldown, unchanged"
    );
}

#[test]
fn the_window_is_long_enough_for_a_trend_and_short_enough_to_react() {
    let c = PressureConfig::default();
    let window_secs = c.window_samples as u64 * 15;
    assert!(window_secs >= 300, "at least five minutes of history");
    assert!(window_secs <= 1800, "not so long that it lags reality");
    assert!(c.min_samples >= 2, "a rate needs two points");
    assert!(c.min_samples <= c.window_samples);
}

#[test]
fn sources_have_distinct_glyphs_and_no_ghost() {
    let sources = [
        Source::Cpu,
        Source::Memory,
        Source::Disk,
        Source::Sprawl,
        Source::Corporate,
    ];
    let mut glyphs: Vec<&str> = sources.iter().map(|s| s.glyph()).collect();
    let n = glyphs.len();
    glyphs.sort_unstable();
    glyphs.dedup();
    assert_eq!(glyphs.len(), n, "source glyphs must be distinct");
    for s in sources {
        assert!(!s.glyph().is_empty());
        assert_ne!(s.glyph(), "👻", "the ghost belongs to another app");
        assert!(!s.label().is_empty());
    }
}

#[test]
fn every_source_is_reachable_from_some_dimension() {
    for s in [
        Source::Cpu,
        Source::Memory,
        Source::Disk,
        Source::Sprawl,
        Source::Corporate,
    ] {
        assert!(
            ALL_DIMENSIONS.iter().any(|d| d.source() == s),
            "{s:?} has no dimension"
        );
    }
}

#[test]
fn the_gap_ceiling_is_per_tier() {
    let c = PressureConfig::default();
    assert_eq!(c.max_interval_secs(Dimension::Cpu), 45);
    assert_eq!(c.max_interval_secs(Dimension::Swap), 45);
    assert_eq!(c.max_interval_secs(Dimension::KernelPressure), 45);
    assert_eq!(c.max_interval_secs(Dimension::Disk), 45);
    assert_eq!(c.max_interval_secs(Dimension::Agents), 900);
    assert_eq!(c.max_interval_secs(Dimension::Orphans), 900);
    assert_eq!(c.max_interval_secs(Dimension::Corporate), 900);

    assert!(c.max_interval_secs(Dimension::Agents) > c.census_interval_secs);
    assert!(c.max_interval_secs(Dimension::Cpu) < c.census_interval_secs);
}

#[test]
fn the_gap_ceiling_is_never_zero() {
    let zero_tolerance = PressureConfig {
        gap_tolerance: r(0.0),
        sample_gap_secs: 0,
        census_gap_secs: 0,
        ..PressureConfig::default()
    };
    assert!(zero_tolerance.max_interval_secs(Dimension::Cpu) >= 1);

    let zero_cadence = PressureConfig {
        gap_tolerance: r(0.0),
        sample_gap_secs: 0,
        census_gap_secs: 0,
        sample_interval_secs: 0,
        ..PressureConfig::default()
    };
    assert!(zero_cadence.max_interval_secs(Dimension::Cpu) >= 1);
}

#[test]
fn the_words_are_the_ones_on_the_wire() {
    assert_eq!(Dimension::KernelPressure.key(), "kernelPressure");
    assert_eq!(Dimension::Corporate.source(), Source::Corporate);
    for (i, d) in ALL_DIMENSIONS.iter().enumerate() {
        assert_eq!(d.index(), i);
    }
}
