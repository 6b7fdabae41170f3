use banshee_core::number::Real;
use banshee_core::pressure::band::Band;
use banshee_core::pressure::config::{Dimension, Source};
use banshee_core::pressure::level::{self, Contribution, Level, Verdict};

const GRACE: u64 = 120;

const CATASTROPHIC: f64 = 3.0;

fn r(x: f64) -> Real {
    Real::from_bits(x.to_bits())
}

fn decide(contributions: &[Contribution], grace: u64, ceiling: f64, have_data: bool) -> Verdict {
    level::decide(contributions, grace, r(ceiling), have_data)
}

fn c(dimension: Dimension, band: Band, held_secs: u64, severity: f64) -> Contribution {
    Contribution { dimension, band, held_secs, severity: r(severity) }
}

fn green(d: Dimension) -> Contribution {
    c(d, Band::Green, 600, -1.0)
}

#[test]
fn no_data_is_checking_not_quiet() {
    let v = decide(&[], GRACE, CATASTROPHIC, false);
    assert_eq!(v.level, Level::Checking);
    assert_eq!(v.source, None);
    assert_ne!(v.level, Level::Quiet);
}

#[test]
fn only_advisory_data_is_still_checking() {
    let v = decide(
        &[c(Dimension::Uptime, Band::Red, 9999, 3.0)],
        GRACE,
        CATASTROPHIC,
        true,
    );
    assert_eq!(v.level, Level::Checking);
}

#[test]
fn a_single_jetsam_kill_shrieks_without_the_sustain_grace() {
    let v = decide(
        &[c(Dimension::Jetsam, Band::Red, 0, 0.5)],
        GRACE,
        CATASTROPHIC,
        true,
    );
    assert_eq!(
        v.level,
        Level::Shrieking,
        "a jetsam kill is the top bell at once"
    );
    assert_eq!(v.source, Some(Source::Memory));

    let other = decide(
        &[c(Dimension::Swap, Band::Red, 0, 0.5)],
        GRACE,
        CATASTROPHIC,
        true,
    );
    assert_eq!(other.level, Level::Restless);
}

#[test]
fn a_green_jetsam_does_not_ring_the_bell() {
    let v = decide(
        &[
            c(Dimension::Jetsam, Band::Green, 600, -1.0),
            c(Dimension::Swap, Band::Yellow, 600, 0.5),
        ],
        GRACE,
        CATASTROPHIC,
        true,
    );
    assert_eq!(v.level, Level::Stirring);
}

#[test]
fn all_green_is_quiet_with_no_source() {
    let v = decide(
        &[green(Dimension::Cpu), green(Dimension::Disk)],
        GRACE,
        CATASTROPHIC,
        true,
    );
    assert_eq!(v.level, Level::Quiet);
    assert_eq!(v.glyph(), "😴");
}

#[test]
fn one_yellow_is_stirring() {
    let v = decide(
        &[
            c(Dimension::Cpu, Band::Yellow, 60, 0.3),
            green(Dimension::Disk),
        ],
        GRACE,
        CATASTROPHIC,
        true,
    );
    assert_eq!(v.level, Level::Stirring);
    assert_eq!(v.glyph(), "🫥", "no source suffix below Restless");
}

#[test]
fn two_yellows_is_restless() {
    let v = decide(
        &[
            c(Dimension::Cpu, Band::Yellow, 60, 0.3),
            c(Dimension::Swap, Band::Yellow, 60, 0.2),
        ],
        GRACE,
        CATASTROPHIC,
        true,
    );
    assert_eq!(v.level, Level::Restless);
}

#[test]
fn a_fresh_red_is_restless_not_wailing() {
    let v = decide(
        &[c(Dimension::Cpu, Band::Red, 30, 1.4)],
        GRACE,
        CATASTROPHIC,
        true,
    );
    assert_eq!(v.level, Level::Restless, "30s < 120s grace");
    assert_eq!(v.glyph(), "😧🔥", "but the source is named");
}

#[test]
fn a_sustained_red_is_wailing() {
    let v = decide(
        &[c(Dimension::Cpu, Band::Red, 180, 1.4)],
        GRACE,
        CATASTROPHIC,
        true,
    );
    assert_eq!(v.level, Level::Wailing);
    assert_eq!(v.glyph(), "😱🔥");
}

#[test]
fn the_grace_boundary_is_inclusive() {
    assert_eq!(
        decide(
            &[c(Dimension::Cpu, Band::Red, GRACE, 1.4)],
            GRACE,
            CATASTROPHIC,
            true
        )
        .level,
        Level::Wailing
    );
    assert_eq!(
        decide(
            &[c(Dimension::Cpu, Band::Red, GRACE - 1, 1.4)],
            GRACE,
            CATASTROPHIC,
            true
        )
        .level,
        Level::Restless
    );
}

#[test]
fn two_sustained_reds_is_shrieking() {
    let v = decide(
        &[
            c(Dimension::Cpu, Band::Red, 600, 2.2),
            c(Dimension::Thrash, Band::Red, 600, 9.0),
        ],
        GRACE,
        CATASTROPHIC,
        true,
    );
    assert_eq!(v.level, Level::Shrieking);
    assert_eq!(v.glyph(), "💀🧠", "thrash is further past its line");
}

#[test]
fn a_sustained_red_plus_a_fresh_red_is_wailing() {
    let v = decide(
        &[
            c(Dimension::Cpu, Band::Red, 600, 2.2),
            c(Dimension::Disk, Band::Red, 15, 1.1),
        ],
        GRACE,
        CATASTROPHIC,
        true,
    );
    assert_eq!(v.level, Level::Wailing);
}

#[test]
fn a_single_catastrophic_sustained_red_shrieks() {
    let v = decide(
        &[c(Dimension::Swap, Band::Red, 3600, 3.5)],
        GRACE,
        CATASTROPHIC,
        true,
    );
    assert_eq!(v.level, Level::Shrieking);
    assert_eq!(v.glyph(), "💀🧠");
}

#[test]
fn the_catastrophic_ceiling_is_inclusive() {
    assert_eq!(
        decide(
            &[c(Dimension::Swap, Band::Red, 3600, CATASTROPHIC)],
            GRACE,
            CATASTROPHIC,
            true,
        )
        .level,
        Level::Shrieking,
    );
    assert_eq!(
        decide(
            &[c(Dimension::Swap, Band::Red, 3600, CATASTROPHIC - 0.01)],
            GRACE,
            CATASTROPHIC,
            true,
        )
        .level,
        Level::Wailing,
    );
}

#[test]
fn a_catastrophic_spike_that_has_not_held_does_not_shriek() {
    let v = decide(
        &[c(Dimension::Swap, Band::Red, 30, 9.0)],
        GRACE,
        CATASTROPHIC,
        true,
    );
    assert_eq!(v.level, Level::Restless, "30s < 120s grace: still a spike");
}

#[test]
fn the_august_incident_reads_as_shrieking() {
    let v = decide(
        &[
            c(Dimension::Cpu, Band::Red, 3600, 3.2),
            c(Dimension::Swap, Band::Red, 3600, 3.9),
            c(Dimension::Agents, Band::Red, 3600, 2.7),
            c(Dimension::Orphans, Band::Red, 3600, 1.2),
        ],
        GRACE,
        CATASTROPHIC,
        true,
    );
    assert_eq!(v.level, Level::Shrieking);
    assert_eq!(v.source, Some(Source::Memory), "swap is furthest past");
}

#[test]
fn a_worse_band_wins_over_a_higher_severity() {
    let v = decide(
        &[
            c(Dimension::Cpu, Band::Yellow, 600, 0.90),
            c(Dimension::Disk, Band::Red, 600, 0.80),
        ],
        GRACE,
        CATASTROPHIC,
        true,
    );
    assert_eq!(
        v.source,
        Some(Source::Disk),
        "the held Red must outrank the higher-severity Yellow"
    );
}

#[test]
fn among_equal_bands_the_higher_severity_still_wins() {
    let v = decide(
        &[
            c(Dimension::Cpu, Band::Red, 600, 1.10),
            c(Dimension::Disk, Band::Red, 600, 4.00),
        ],
        GRACE,
        CATASTROPHIC,
        true,
    );
    assert_eq!(v.source, Some(Source::Disk));
}

#[test]
fn within_a_band_the_worst_severity_wins() {
    let v = decide(
        &[
            c(Dimension::Cpu, Band::Red, 600, 1.1),
            c(Dimension::Orphans, Band::Red, 600, 4.0),
        ],
        GRACE,
        CATASTROPHIC,
        true,
    );
    assert_eq!(v.source, Some(Source::Sprawl));
}

#[test]
fn an_exact_tie_is_broken_deterministically_by_declaration_order() {
    let a = c(Dimension::Cpu, Band::Red, 600, 2.0);
    let b = c(Dimension::Disk, Band::Red, 600, 2.0);

    let one = decide(&[a, b], GRACE, CATASTROPHIC, true);
    let two = decide(&[b, a], GRACE, CATASTROPHIC, true);
    assert_eq!(one.source, two.source);
    assert_eq!(
        one.source,
        Some(Source::Cpu),
        "Cpu is declared before Disk in ALL_DIMENSIONS"
    );
}

#[test]
fn a_green_machine_has_no_dominant_source() {
    let v = decide(
        &[
            green(Dimension::Cpu),
            green(Dimension::Swap),
            green(Dimension::Disk),
        ],
        GRACE,
        CATASTROPHIC,
        true,
    );
    assert_eq!(v.source, None);
    assert_eq!(v.glyph(), "😴");
}

#[test]
fn an_advisory_dimension_is_never_the_dominant_source() {
    let v = decide(
        &[
            c(Dimension::Uptime, Band::Red, 99999, 9.0),
            c(Dimension::Cpu, Band::Yellow, 600, 0.2),
        ],
        GRACE,
        CATASTROPHIC,
        true,
    );
    assert_eq!(v.level, Level::Stirring, "uptime must not raise the level");
    assert_eq!(v.glyph(), "🫥", "and must not put a source in the menu bar");
}

#[test]
fn every_level_has_a_distinct_non_ghost_glyph() {
    let levels = [
        Level::Checking,
        Level::Quiet,
        Level::Stirring,
        Level::Restless,
        Level::Wailing,
        Level::Shrieking,
    ];
    let mut glyphs: Vec<&str> = levels.iter().map(|l| l.glyph()).collect();
    let n = glyphs.len();
    glyphs.sort_unstable();
    glyphs.dedup();
    assert_eq!(glyphs.len(), n, "level glyphs must be distinct");
    for l in levels {
        assert_ne!(l.glyph(), "👻", "the ghost belongs to another app");
        assert!(!l.name().is_empty());
    }
}

#[test]
fn levels_order_from_checking_up_to_shrieking() {
    assert!(Level::Shrieking > Level::Wailing);
    assert!(Level::Wailing > Level::Restless);
    assert!(Level::Restless > Level::Stirring);
    assert!(Level::Stirring > Level::Quiet);
    assert!(Level::Quiet > Level::Checking);
}

#[test]
fn the_source_suffix_appears_only_from_restless_upward() {
    assert!(!Level::Checking.shows_source());
    assert!(!Level::Quiet.shows_source());
    assert!(!Level::Stirring.shows_source());
    assert!(Level::Restless.shows_source());
    assert!(Level::Wailing.shows_source());
    assert!(Level::Shrieking.shows_source());
}

#[test]
fn the_accessibility_label_is_words_not_glyphs() {
    let v = Verdict {
        level: Level::Wailing,
        source: Some(Source::Memory),
    };
    let label = v.accessibility_label();
    assert_eq!(label, "Banshee: Wailing, memory");
    assert!(
        label.chars().any(|ch| ch.is_alphabetic()),
        "must contain words"
    );
    assert!(!label.contains('😱'), "must not read out an emoji");
    assert!(!label.contains('🧠'));

    let quiet = Verdict {
        level: Level::Quiet,
        source: None,
    };
    assert_eq!(quiet.accessibility_label(), "Banshee: Quiet");
}

#[test]
fn a_source_is_not_shown_below_the_threshold_even_when_known() {
    let v = Verdict {
        level: Level::Stirring,
        source: Some(Source::Corporate),
    };
    assert_eq!(v.glyph(), "🫥");
    assert_eq!(v.accessibility_label(), "Banshee: Stirring");
}

#[test]
fn notifications_start_at_wailing_and_escalation_at_shrieking() {
    assert!(!Level::Restless.warrants_notification());
    assert!(Level::Wailing.warrants_notification());
    assert!(Level::Shrieking.warrants_notification());

    assert!(!Level::Wailing.warrants_escalation());
    assert!(Level::Shrieking.warrants_escalation());
}

#[test]
fn sustained_red_requires_both_the_band_and_the_duration() {
    let fresh = c(Dimension::Cpu, Band::Red, 10, 1.0);
    let old = c(Dimension::Cpu, Band::Red, 500, 1.0);
    let yellow_old = c(Dimension::Cpu, Band::Yellow, 500, 0.5);
    assert!(!fresh.is_sustained_red(GRACE));
    assert!(old.is_sustained_red(GRACE));
    assert!(
        !yellow_old.is_sustained_red(GRACE),
        "yellow is never sustained red"
    );
}


#[test]
fn nothing_is_worth_naming_at_stirring() {
    let v = decide(&[c(Dimension::Cpu, Band::Yellow, 60, 0.3)], GRACE, CATASTROPHIC, true);
    assert_eq!(v.level, Level::Stirring);
    assert_eq!(v.source, None);
    let two = decide(
        &[c(Dimension::Cpu, Band::Yellow, 60, 0.3), c(Dimension::Disk, Band::Yellow, 60, 0.6)],
        GRACE,
        CATASTROPHIC,
        true,
    );
    assert_eq!(two.level, Level::Restless);
    assert_eq!(two.source, Some(Source::Disk));
}

#[test]
fn the_verdict_does_not_depend_on_the_order() {
    let a = c(Dimension::Cpu, Band::Red, 600, 3.5);
    let b = c(Dimension::Disk, Band::Yellow, 60, 0.4);
    let d = c(Dimension::Swap, Band::Red, 10, 9.0);
    let one = decide(&[a, b, d], GRACE, CATASTROPHIC, true);
    let two = decide(&[d, b, a], GRACE, CATASTROPHIC, true);
    assert_eq!(one, two);
    assert_eq!(one.level, Level::Shrieking);
}

#[test]
fn an_advisory_dimension_counts_nowhere_in_the_list() {
    let weighed = [
        c(Dimension::Swap, Band::Red, 600, 1.2),
        c(Dimension::Cpu, Band::Yellow, 600, 0.2),
    ];
    let alone = decide(&weighed, GRACE, CATASTROPHIC, true);
    assert_eq!(alone.level, Level::Wailing);
    for i in 0..=weighed.len() {
        let mut all = weighed.to_vec();
        all.insert(i, c(Dimension::Uptime, Band::Red, 99_999, 9.0));
        assert_eq!(decide(&all, GRACE, CATASTROPHIC, true), alone);
    }
}
