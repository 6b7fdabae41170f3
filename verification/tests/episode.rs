use banshee_core::census::{AppGroup, Census, HelperRollup, MonitorTotal, OrphanCensus};
use banshee_core::number::Real;
use banshee_core::pressure::band::Band;
use banshee_core::pressure::config::{Dimension, PressureConfig, Unit};
use banshee_core::pressure::episode::{
    self, inhibitors, level_changed_materially, record_peak, AlertEpisode, EpisodePeak, EpisodeState,
    Notification, NotificationKind, RecentActivity, Reconciled,
};
use banshee_core::pressure::level::Level;
use banshee_core::pressure::summary::summarise;
use banshee_core::pressure::who::Consumer;
use banshee_core::pressure::{Action, DimensionReading, Finding, Pressure};
use banshee_core::time::Timestamp;

fn num(x: f64) -> Real {
    Real::from_bits(x.to_bits())
}

fn float(x: Real) -> f64 {
    f64::from_bits(x.bits)
}

fn at(secs: i64) -> Timestamp {
    Timestamp::from_secs(1_788_100_000 + secs)
}

fn nothing() -> Reconciled {
    Reconciled { episodes: Vec::new(), notifications: Vec::new() }
}

/// What is free on the data volume over what goes per second.
fn quotient_of(p: &Pressure) -> Real {
    match p.reading(Dimension::Disk) {
        Some(r) => num(float(r.value) / -r.trend_per_sec.map_or(0.0, float)),
        None => num(0.0),
    }
}

fn reconcile_episodes(
    open: &[AlertEpisode],
    p: &Pressure,
    census: Option<&Census>,
    now: Timestamp,
    config: &PressureConfig,
) -> Reconciled {
    episode::reconcile_episodes(open, p, census, now, quotient_of(p), config)
}

fn census_with_chrome(chrome_rss: u64) -> Census {
    Census {
        id: 9,
        taken_at: at(0),
        total_procs: 100,
        agent_sessions: Vec::new(),
        ide_helpers: HelperRollup { count: 0, rss_bytes: 0 },
        orphans: OrphanCensus {
            total_count: 0,
            total_rss_bytes: 0,
            orphan_count: 0,
            orphan_rss_bytes: 0,
            orphans_by_program: Vec::new(),
        },
        tmux_sessions: Vec::new(),
        app_groups: vec![AppGroup { name: "Chrome".into(), proc_count: 10, rss_bytes: chrome_rss }],
        monitor_agents: Vec::new(),
        monitor_total: MonitorTotal {
            proc_count: 0,
            rss_bytes: 0,
            cpu_secs_total: num(0.0),
            percent_of_one_core: num(0.0),
            longest_life_secs: 0,
        },
        tmux_available: true,
        cpu_consumers: Vec::new(),
        pressure_kills: None,
    }
}

fn reading(dimension: Dimension, band: Band, held_secs: u64) -> DimensionReading {
    DimensionReading {
        dimension,
        key: dimension.key().to_string(),
        label: dimension.label().to_string(),
        band,
        value: num(99.0),
        unit: Unit::Ratio,
        severity: if band == Band::Red { num(2.0) } else { num(-0.5) },
        held_secs,
        observation_gap_secs: None,
        trend_per_sec: None,
        detail: "detail".into(),
        advisory: dimension.is_advisory(),
        pending: None,
        recovering: false,
    }
}

fn pressure(level: Level, readings: Vec<DimensionReading>) -> Pressure {
    Pressure {
        evaluated_at: at(0),
        level,
        level_name: level.name().to_string(),
        source: None,
        glyph: level.glyph().to_string(),
        accessibility_label: format!("Banshee: {}", level.name()),
        dimensions: readings,
        findings: Vec::new(),
        sample_count: 40,
        census_count: 2,
        recovering: false,
        activity: RecentActivity::default(),
    }
}

fn red(dimension: Dimension, held_secs: u64, level: Level) -> Pressure {
    pressure(level, vec![reading(dimension, Band::Red, held_secs)])
}

fn cfg() -> PressureConfig {
    PressureConfig::default()
}

fn firing(
    dimension: Dimension,
    started: i64,
    notified: Option<i64>,
    peak: Level,
) -> AlertEpisode {
    AlertEpisode {
        id: 1_000 + dimension.index() as u128,
        dimension,
        started_at: at(started),
        ended_at: None,
        peak: EpisodePeak {
            band: Band::Red,
            level: peak,
            severity: num(2.0),
            at: at(started),
            message: "prior".into(),
            who_line: None,
        },
        census_at_peak: None,
        suppressed: 0,
        state: EpisodeState::Firing,
        last_notified_at: notified.map(at),
        recovering_since: None,
        projection_bracket_secs: None,
    }
}

fn recovering(dimension: Dimension, started: i64, since: i64, peak: Level) -> AlertEpisode {
    AlertEpisode {
        state: EpisodeState::Recovering,
        recovering_since: Some(at(since)),
        last_notified_at: Some(at(started)),
        ..firing(dimension, started, Some(started), peak)
    }
}

fn kinds(r: &Reconciled) -> Vec<NotificationKind> {
    r.notifications.iter().map(|n| n.kind).collect()
}

fn cpu_finding(who_line: Option<&str>) -> Finding {
    let who = match who_line {
        Some(_) => vec![Consumer {
            name: "aider".into(),
            count: 8,
            detail: "62% of one core".into(),
        }],
        None => Vec::new(),
    };
    Finding {
        dimension: Dimension::Cpu,
        band: Band::Red,
        message: "Load is 9.5× the core count.".into(),
        action: Action::ReapStaleSessions,
        action_label: Action::ReapStaleSessions.label().to_string(),
        who,
        who_line: who_line.map(str::to_string),
    }
}

fn disk_reading(free_bytes: f64, projection_secs: f64, held_secs: u64) -> DimensionReading {
    let mut r = reading(Dimension::Disk, Band::Red, held_secs);
    r.value = num(free_bytes);
    r.trend_per_sec = Some(num(-free_bytes / projection_secs));
    r.detail = format!(
        "{:.1} GB free, full in {:.0} min",
        free_bytes / 1e9,
        projection_secs / 60.0
    );
    r
}

#[test]
fn nothing_opens_or_moves_while_the_verdict_is_still_checking() {
    let mut p = red(Dimension::KernelPressure, 600, Level::Checking);
    p.dimensions.push(reading(Dimension::Swap, Band::Green, 30));
    let open = vec![firing(Dimension::Swap, -3600, Some(-3600), Level::Wailing)];
    let out = reconcile_episodes(&open, &p, None, at(0), &cfg());
    assert_eq!(
        out,
        nothing(),
        "an untrusted verdict changes nothing"
    );
}

#[test]
fn a_sustained_red_opens_a_firing_episode_and_says_so_once() {
    let p = red(Dimension::Swap, 600, Level::Wailing);
    let out = reconcile_episodes(&[], &p, None, at(0), &cfg());
    assert_eq!(out.episodes.len(), 1);
    let e = &out.episodes[0];
    assert_eq!(e.dimension, Dimension::Swap);
    assert_eq!(e.state, EpisodeState::Firing);
    assert_eq!(e.ended_at, None);
    assert_eq!(e.peak.level, Level::Wailing);
    assert_eq!(e.peak.band, Band::Red);
    assert_eq!(e.suppressed, 0);
    assert_eq!(
        e.last_notified_at,
        Some(at(0)),
        "the opening notice went out"
    );
    assert_eq!(kinds(&out), vec![NotificationKind::Opened]);
    assert!(out.notifications[0].warrants_notification());
}

#[test]
fn the_episode_starts_when_the_red_run_began_not_when_it_crossed_the_delay() {
    let p = red(Dimension::Cpu, 600, Level::Wailing);
    let out = reconcile_episodes(&[], &p, None, at(0), &cfg());
    assert_eq!(out.episodes[0].started_at, at(-600));
}

#[test]
fn a_red_below_the_up_delay_does_not_open() {
    let c = PressureConfig {
        episode_up_secs: 120,
        ..cfg()
    };
    let p = red(Dimension::Cpu, 119, Level::Restless);
    assert_eq!(
        reconcile_episodes(&[], &p, None, at(0), &c),
        nothing()
    );
    let p = red(Dimension::Cpu, 120, Level::Restless);
    assert_eq!(
        reconcile_episodes(&[], &p, None, at(0), &c).episodes.len(),
        1,
        "at the line"
    );
}

#[test]
fn the_up_delay_is_load_bearing_config() {
    let p = red(Dimension::Cpu, 200, Level::Wailing);
    let short = PressureConfig {
        episode_up_secs: 60,
        ..cfg()
    };
    let long = PressureConfig {
        episode_up_secs: 300,
        ..cfg()
    };
    assert_eq!(
        reconcile_episodes(&[], &p, None, at(0), &short)
            .episodes
            .len(),
        1
    );
    assert!(
        reconcile_episodes(&[], &p, None, at(0), &long)
            .episodes
            .is_empty()
    );
}

#[test]
fn a_red_behind_a_gap_is_judged_on_its_observed_run_only() {
    let mut r = reading(Dimension::Swap, Band::Red, 45);
    r.observation_gap_secs = Some(1029);
    let p = pressure(Level::Restless, vec![r]);
    assert!(
        reconcile_episodes(&[], &p, None, at(0), &cfg())
            .episodes
            .is_empty()
    );
}

#[test]
fn a_yellow_dimension_does_not_open() {
    let p = pressure(
        Level::Stirring,
        vec![reading(Dimension::Cpu, Band::Yellow, 900)],
    );
    assert!(
        reconcile_episodes(&[], &p, None, at(0), &cfg())
            .episodes
            .is_empty()
    );
}

#[test]
fn an_advisory_dimension_never_opens() {
    let p = pressure(
        Level::Wailing,
        vec![reading(Dimension::Uptime, Band::Red, 86_400)],
    );
    assert!(
        reconcile_episodes(&[], &p, None, at(0), &cfg())
            .episodes
            .is_empty()
    );
}

#[test]
fn episodes_are_per_dimension() {
    let p = pressure(
        Level::Shrieking,
        vec![
            reading(Dimension::Cpu, Band::Red, 600),
            reading(Dimension::Disk, Band::Red, 600),
        ],
    );
    let out = reconcile_episodes(&[], &p, None, at(0), &cfg());
    let dims: Vec<Dimension> = out.episodes.iter().map(|e| e.dimension).collect();
    assert_eq!(dims, vec![Dimension::Cpu, Dimension::Disk]);
    assert_eq!(out.notifications.len(), 2);
}

#[test]
fn the_notice_reuses_the_findings_wording_then_says_how_long_and_who() {
    let mut p = red(Dimension::Cpu, 600, Level::Wailing);
    p.findings
        .push(cpu_finding(Some("who: aider ×8 at 62% of one core")));
    let out = reconcile_episodes(&[], &p, None, at(0), &cfg());
    assert_eq!(
        out.notifications[0].message,
        "Load is 9.5× the core count. Red for 10m; who: aider ×8 at 62% of one core."
    );
    assert_eq!(out.episodes[0].peak.message, "Load is 9.5× the core count.");
    assert_eq!(
        out.episodes[0].peak.who_line.as_deref(),
        Some("who: aider ×8 at 62% of one core")
    );
}

#[test]
fn a_notice_for_a_finding_that_names_nobody_has_no_who_clause() {
    let mut p = red(Dimension::Cpu, 600, Level::Wailing);
    p.findings.push(cpu_finding(None));
    let out = reconcile_episodes(&[], &p, None, at(0), &cfg());
    assert_eq!(
        out.notifications[0].message,
        "Load is 9.5× the core count. Red for 10m."
    );
    assert_eq!(out.episodes[0].peak.who_line, None);
}

#[test]
fn a_repeat_names_who_is_behind_it_now() {
    let mut p = red(Dimension::Cpu, 7200, Level::Wailing);
    p.findings
        .push(cpu_finding(Some("who: Chrome ×115 at 7.7 GB")));
    let opened = firing(Dimension::Cpu, -7200, Some(-3601), Level::Wailing);
    let out = reconcile_episodes(&[opened], &p, None, at(0), &cfg());
    assert_eq!(kinds(&out), vec![NotificationKind::Repeat]);
    assert!(
        out.notifications[0]
            .message
            .ends_with("Red for 2h0m; who: Chrome ×115 at 7.7 GB."),
        "{}",
        out.notifications[0].message
    );
}

#[test]
fn a_firing_episode_inside_the_repeat_interval_stays_quiet() {
    let open = vec![firing(Dimension::Cpu, -1800, Some(-1800), Level::Wailing)];
    let p = red(Dimension::Cpu, 2400, Level::Wailing);
    let out = reconcile_episodes(&open, &p, None, at(0), &cfg());
    assert_eq!(
        out,
        nothing(),
        "nothing to say, nothing to write"
    );
}

#[test]
fn a_firing_episode_repeats_after_the_repeat_interval() {
    let open = vec![firing(Dimension::Cpu, -7200, Some(-3601), Level::Wailing)];
    let p = red(Dimension::Cpu, 7200, Level::Wailing);
    let out = reconcile_episodes(&open, &p, None, at(0), &cfg());
    assert_eq!(kinds(&out), vec![NotificationKind::Repeat]);
    assert_eq!(out.episodes[0].last_notified_at, Some(at(0)));
    assert_eq!(
        out.episodes[0].id, open[0].id,
        "the SAME episode, not a new one"
    );
}

#[test]
fn the_repeat_interval_is_load_bearing_config() {
    let open = vec![firing(Dimension::Cpu, -600, Some(-90), Level::Wailing)];
    let p = red(Dimension::Cpu, 600, Level::Wailing);
    let brief = PressureConfig {
        episode_repeat_secs: 60,
        ..cfg()
    };
    assert_eq!(
        kinds(&reconcile_episodes(&open, &p, None, at(0), &brief)),
        vec![NotificationKind::Repeat]
    );
    assert!(
        reconcile_episodes(&open, &p, None, at(0), &cfg())
            .notifications
            .is_empty()
    );
}

#[test]
fn a_worsening_level_reescalates_inside_the_repeat_interval() {
    let open = vec![firing(Dimension::Swap, -600, Some(-60), Level::Wailing)];
    let p = red(Dimension::Swap, 600, Level::Shrieking);
    let out = reconcile_episodes(&open, &p, None, at(0), &cfg());
    assert_eq!(kinds(&out), vec![NotificationKind::Reescalated]);
    assert!(
        out.notifications[0].warrants_escalation(),
        "Shrieking escapes the machine"
    );
    assert_eq!(out.episodes[0].peak.level, Level::Shrieking);
    assert_eq!(out.episodes[0].peak.at, at(0));
}

#[test]
fn a_deeper_red_at_the_same_level_updates_the_peak_silently() {
    let open = vec![firing(Dimension::Swap, -600, Some(-60), Level::Wailing)];
    let mut r = reading(Dimension::Swap, Band::Red, 600);
    r.severity = num(9.0);
    let p = pressure(Level::Wailing, vec![r]);
    let out = reconcile_episodes(&open, &p, None, at(0), &cfg());
    assert!(out.notifications.is_empty(), "already red, already said");
    assert_eq!(out.episodes.len(), 1, "but the peak is recorded");
    assert!((float(out.episodes[0].peak.severity) - 9.0).abs() < 1e-9);
}

#[test]
fn the_peak_census_tracks_the_worst_moment_and_is_frozen_there() {
    let mut r0 = reading(Dimension::Swap, Band::Red, 600);
    r0.severity = num(9.0);
    let e0 = reconcile_episodes(
        &[],
        &pressure(Level::Wailing, vec![r0]),
        Some(&census_with_chrome(8_000_000_000)),
        at(0),
        &cfg(),
    )
    .episodes;
    assert_eq!(
        e0[0]
            .census_at_peak
            .as_ref()
            .expect("the census behind the peak is captured on open")
            .consumers[0]
            .rss_bytes,
        8_000_000_000
    );

    let mut r1 = reading(Dimension::Swap, Band::Red, 900);
    r1.severity = num(12.0);
    let e1 = reconcile_episodes(
        &e0,
        &pressure(Level::Wailing, vec![r1]),
        Some(&census_with_chrome(5_000_000_000)),
        at(30),
        &cfg(),
    )
    .episodes;
    assert_eq!(
        e1[0].census_at_peak.as_ref().unwrap().consumers[0].rss_bytes,
        5_000_000_000,
        "the census moves WITH the peak"
    );

    let mut r2 = reading(Dimension::Swap, Band::Red, 3600);
    r2.severity = num(3.0);
    let e2 = reconcile_episodes(
        &e1,
        &pressure(Level::Wailing, vec![r2]),
        Some(&census_with_chrome(1_000_000_000)),
        at(100_000),
        &cfg(),
    )
    .episodes;
    assert_eq!(
        e2[0].census_at_peak.as_ref().unwrap().consumers[0].rss_bytes,
        5_000_000_000,
        "frozen at the peak's census, not overwritten by the newest tick"
    );
}

#[test]
fn dropping_below_red_moves_a_firing_episode_to_recovering() {
    let open = vec![firing(Dimension::Cpu, -600, Some(-600), Level::Wailing)];
    let p = pressure(
        Level::Stirring,
        vec![reading(Dimension::Cpu, Band::Yellow, 15)],
    );
    let out = reconcile_episodes(&open, &p, None, at(0), &cfg());
    assert_eq!(out.episodes[0].state, EpisodeState::Recovering);
    assert_eq!(out.episodes[0].recovering_since, Some(at(0)));
    assert_eq!(out.episodes[0].ended_at, None, "not over yet");
    assert!(out.notifications.is_empty());
}

#[test]
fn a_recovering_episode_inside_the_down_window_is_left_alone() {
    let open = vec![recovering(Dimension::Cpu, -3600, -599, Level::Wailing)];
    let p = pressure(
        Level::Quiet,
        vec![reading(Dimension::Cpu, Band::Green, 599)],
    );
    assert_eq!(
        reconcile_episodes(&open, &p, None, at(0), &cfg()),
        nothing()
    );
}

#[test]
fn a_recovering_episode_closes_after_the_down_window_with_one_notice() {
    let open = vec![recovering(Dimension::Cpu, -3600, -600, Level::Wailing)];
    let p = pressure(
        Level::Quiet,
        vec![reading(Dimension::Cpu, Band::Green, 600)],
    );
    let out = reconcile_episodes(&open, &p, None, at(0), &cfg());
    let e = &out.episodes[0];
    assert_eq!(e.state, EpisodeState::Closed);
    assert_eq!(e.ended_at, Some(at(-600)));
    assert_eq!(e.id, open[0].id);
    assert_eq!(kinds(&out), vec![NotificationKind::Recovered]);
    assert!(
        out.notifications[0].message.contains("recovered after 50m"),
        "{}",
        out.notifications[0].message
    );
    assert!(
        out.notifications[0].warrants_notification(),
        "Wailing → Quiet is owed its all-clear"
    );
}

#[test]
fn the_down_window_is_load_bearing_config() {
    let open = vec![recovering(Dimension::Cpu, -3600, -120, Level::Wailing)];
    let p = pressure(
        Level::Quiet,
        vec![reading(Dimension::Cpu, Band::Green, 120)],
    );
    let brief = PressureConfig {
        episode_down_secs: 60,
        ..cfg()
    };
    assert_eq!(
        reconcile_episodes(&open, &p, None, at(0), &brief).episodes[0].state,
        EpisodeState::Closed
    );
    assert!(
        reconcile_episodes(&open, &p, None, at(0), &cfg())
            .episodes
            .is_empty()
    );
}

#[test]
fn a_recovery_from_an_unannounced_peak_is_not_announced() {
    let open = vec![recovering(Dimension::Cpu, -3600, -600, Level::Restless)];
    let p = pressure(
        Level::Quiet,
        vec![reading(Dimension::Cpu, Band::Green, 600)],
    );
    let out = reconcile_episodes(&open, &p, None, at(0), &cfg());
    assert_eq!(
        kinds(&out),
        vec![NotificationKind::Recovered],
        "still emitted for the record"
    );
    assert!(
        !out.notifications[0].warrants_notification(),
        "but not worth interrupting for"
    );
}

#[test]
fn a_recovery_while_the_machine_is_still_wailing_is_not_announced() {
    let open = vec![recovering(Dimension::Swap, -3600, -600, Level::Shrieking)];
    let p = pressure(
        Level::Wailing,
        vec![
            reading(Dimension::Swap, Band::Green, 600),
            reading(Dimension::Cpu, Band::Red, 30),
        ],
    );
    let out = reconcile_episodes(&open, &p, None, at(0), &cfg());
    let recovered = out
        .notifications
        .iter()
        .find(|n| n.kind == NotificationKind::Recovered)
        .unwrap();
    assert!(!recovered.warrants_notification());
    assert!(!recovered.warrants_escalation());
}

#[test]
fn a_recovery_while_the_machine_has_since_got_worse_is_not_announced() {
    let p = pressure(
        Level::Shrieking,
        vec![
            reading(Dimension::Orphans, Band::Green, 600),
            reading(Dimension::Cpu, Band::Red, 600),
            reading(Dimension::Swap, Band::Red, 600),
        ],
    );
    let quiet_peak = vec![recovering(Dimension::Orphans, -3600, -600, Level::Restless)];
    let out = reconcile_episodes(&quiet_peak, &p, None, at(0), &cfg());
    let n = out
        .notifications
        .iter()
        .find(|n| n.kind == NotificationKind::Recovered)
        .unwrap();
    assert!(
        !n.warrants_notification(),
        "peak Restless, machine Shrieking: {n:?}"
    );
    let loud_peak = vec![recovering(Dimension::Orphans, -3600, -600, Level::Wailing)];
    let out = reconcile_episodes(&loud_peak, &p, None, at(0), &cfg());
    let n = out
        .notifications
        .iter()
        .find(|n| n.kind == NotificationKind::Recovered)
        .unwrap();
    assert!(
        !n.warrants_notification(),
        "peak Wailing, machine Shrieking: {n:?}"
    );
    assert!(!n.warrants_escalation());
}

#[test]
fn a_recovery_escalates_exactly_when_its_peak_did() {
    let p = pressure(
        Level::Quiet,
        vec![reading(Dimension::Swap, Band::Green, 600)],
    );
    let shrieked = vec![recovering(Dimension::Swap, -3600, -600, Level::Shrieking)];
    let wailed = vec![recovering(Dimension::Swap, -3600, -600, Level::Wailing)];
    assert!(
        reconcile_episodes(&shrieked, &p, None, at(0), &cfg()).notifications[0]
            .warrants_escalation()
    );
    assert!(
        !reconcile_episodes(&wailed, &p, None, at(0), &cfg()).notifications[0]
            .warrants_escalation()
    );
}

#[test]
fn a_flap_reopens_the_same_episode_and_counts_the_swallowed_notice() {
    let open = vec![recovering(Dimension::Thrash, -1800, -120, Level::Wailing)];
    let p = red(Dimension::Thrash, 15, Level::Wailing);
    let out = reconcile_episodes(&open, &p, None, at(0), &cfg());
    let e = &out.episodes[0];
    assert_eq!(e.id, open[0].id, "one incident, not two");
    assert_eq!(e.state, EpisodeState::Firing);
    assert_eq!(e.recovering_since, None);
    assert_eq!(e.suppressed, 1);
    assert_eq!(
        e.started_at, open[0].started_at,
        "the incident's start is kept"
    );
    assert!(out.notifications.is_empty(), "swallowed, not spoken");
}

#[test]
fn forty_storms_are_one_episode_with_thirty_nine_suppressed() {
    let c = PressureConfig {
        episode_down_secs: 300,
        ..cfg()
    };
    let mut open = vec![firing(
        Dimension::Thrash,
        -3000,
        Some(-3000),
        Level::Wailing,
    )];
    let mut t = -2999;
    for _ in 0..39 {
        let dip = pressure(
            Level::Quiet,
            vec![reading(Dimension::Thrash, Band::Green, 30)],
        );
        let out = reconcile_episodes(&open, &dip, None, at(t), &c);
        open = out.episodes;
        t += 30;
        let storm = red(Dimension::Thrash, 15, Level::Wailing);
        let out = reconcile_episodes(&open, &storm, None, at(t), &c);
        open = out.episodes;
        t += 30;
    }
    assert_eq!(open.len(), 1);
    assert_eq!(open[0].suppressed, 39);
    assert_eq!(open[0].state, EpisodeState::Firing);
}

#[test]
fn a_flap_past_the_repeat_interval_speaks_instead_of_counting() {
    let mut e = recovering(Dimension::Thrash, -7200, -120, Level::Wailing);
    e.last_notified_at = Some(at(-3601));
    let p = red(Dimension::Thrash, 15, Level::Wailing);
    let out = reconcile_episodes(&[e], &p, None, at(0), &cfg());
    assert_eq!(kinds(&out), vec![NotificationKind::Repeat]);
    assert_eq!(out.episodes[0].suppressed, 0);
}

#[test]
fn a_flap_that_escalates_is_spoken() {
    let open = vec![recovering(Dimension::Thrash, -1800, -120, Level::Wailing)];
    let p = red(Dimension::Thrash, 15, Level::Shrieking);
    let out = reconcile_episodes(&open, &p, None, at(0), &cfg());
    assert_eq!(kinds(&out), vec![NotificationKind::Reescalated]);
    assert_eq!(out.episodes[0].suppressed, 0);
}

#[test]
fn an_unobserved_dimension_leaves_its_episode_untouched() {
    let open = vec![firing(
        Dimension::Orphans,
        -3600,
        Some(-3600),
        Level::Wailing,
    )];
    let p = red(Dimension::Cpu, 30, Level::Restless);
    let out = reconcile_episodes(&open, &p, None, at(0), &cfg());
    assert!(out.episodes.is_empty(), "{out:?}");
}

#[test]
fn thrash_inhibits_the_swap_notice_but_not_the_swap_episode() {
    let p = pressure(
        Level::Shrieking,
        vec![
            reading(Dimension::Swap, Band::Red, 600),
            reading(Dimension::Thrash, Band::Red, 600),
        ],
    );
    let out = reconcile_episodes(&[], &p, None, at(0), &cfg());
    let dims: Vec<Dimension> = out.episodes.iter().map(|e| e.dimension).collect();
    assert_eq!(
        dims,
        vec![Dimension::Swap, Dimension::Thrash],
        "both RECORDED"
    );
    let spoken: Vec<Dimension> = out.notifications.iter().map(|n| n.dimension).collect();
    assert_eq!(spoken, vec![Dimension::Thrash], "one story, one bell");
    let swap = out
        .episodes
        .iter()
        .find(|e| e.dimension == Dimension::Swap)
        .unwrap();
    assert_eq!(swap.last_notified_at, None, "a muted notice did not go out");
}

#[test]
fn inhibition_is_directional() {
    let open = vec![firing(Dimension::Swap, -3600, Some(-3600), Level::Wailing)];
    let p = pressure(
        Level::Shrieking,
        vec![
            reading(Dimension::Swap, Band::Red, 3600),
            reading(Dimension::Thrash, Band::Red, 600),
        ],
    );
    let out = reconcile_episodes(&open, &p, None, at(0), &cfg());
    assert!(
        out.notifications
            .iter()
            .any(|n| n.dimension == Dimension::Thrash && n.kind == NotificationKind::Opened),
        "swap does not mute thrash"
    );
    assert_eq!(inhibitors(Dimension::Thrash), &[] as &[Dimension]);
    assert_eq!(inhibitors(Dimension::Swap), &[Dimension::Thrash]);
}

#[test]
fn a_recovering_inhibitor_no_longer_mutes() {
    let open = vec![
        recovering(Dimension::Thrash, -3600, -60, Level::Shrieking),
        firing(Dimension::Swap, -3600, None, Level::Shrieking),
    ];
    let p = pressure(
        Level::Wailing,
        vec![
            reading(Dimension::Swap, Band::Red, 3600),
            reading(Dimension::Thrash, Band::Green, 60),
        ],
    );
    let out = reconcile_episodes(&open, &p, None, at(0), &cfg());
    let swap = out
        .notifications
        .iter()
        .find(|n| n.dimension == Dimension::Swap)
        .unwrap();
    assert_eq!(swap.kind, NotificationKind::Repeat);
    assert_eq!(
        out.episodes
            .iter()
            .find(|e| e.dimension == Dimension::Swap)
            .unwrap()
            .last_notified_at,
        Some(at(0))
    );
}

#[test]
fn recovery_from_a_crisis_is_a_material_change() {
    assert!(level_changed_materially(
        Some(Level::Shrieking),
        Level::Quiet
    ));
    assert!(level_changed_materially(
        Some(Level::Wailing),
        Level::Stirring
    ));
}

#[test]
fn escalation_into_notification_territory_is_material() {
    assert!(level_changed_materially(
        Some(Level::Restless),
        Level::Wailing
    ));
    assert!(level_changed_materially(
        Some(Level::Wailing),
        Level::Shrieking
    ));
    assert!(level_changed_materially(None, Level::Wailing));
}

#[test]
fn movement_below_the_notification_threshold_is_not_material() {
    assert!(!level_changed_materially(
        Some(Level::Quiet),
        Level::Stirring
    ));
    assert!(!level_changed_materially(
        Some(Level::Stirring),
        Level::Restless
    ));
    assert!(!level_changed_materially(
        Some(Level::Restless),
        Level::Quiet
    ));
    assert!(!level_changed_materially(None, Level::Restless));
}

#[test]
fn partial_recovery_within_the_crisis_range_is_not_material() {
    assert!(!level_changed_materially(
        Some(Level::Shrieking),
        Level::Wailing
    ));
    assert!(!level_changed_materially(
        Some(Level::Wailing),
        Level::Restless
    ));
}

#[test]
fn activity_counts_episodes_active_in_the_window_not_onsets() {
    let mut closed_recent = firing(Dimension::Cpu, -1800, Some(-1800), Level::Wailing);
    closed_recent.state = EpisodeState::Closed;
    closed_recent.ended_at = Some(at(-600));
    let mut closed_old = firing(
        Dimension::Disk,
        -20 * 3600,
        Some(-20 * 3600),
        Level::Wailing,
    );
    closed_old.state = EpisodeState::Closed;
    closed_old.ended_at = Some(at(-19 * 3600));
    let episodes = vec![
        firing(Dimension::Swap, -5 * 3600, Some(-5 * 3600), Level::Wailing),
        closed_recent,
        closed_old,
    ];
    assert_eq!(
        RecentActivity::summarise(&episodes, at(0)),
        RecentActivity {
            open: 1,
            last_hour: 2,
            last_day: 3
        }
    );
}

#[test]
fn a_projection_crossing_renotifies_before_the_repeat_interval() {
    let e = firing(Dimension::Disk, 0, Some(1200), Level::Shrieking);
    let r = disk_reading(12e9, 22.0 * 60.0, 1320);
    let p = pressure(Level::Shrieking, vec![r]);

    let out = reconcile_episodes(&[e], &p, None, at(1320), &cfg());
    assert_eq!(kinds(&out), vec![NotificationKind::Reescalated]);
    let n = &out.notifications[0];
    assert!(
        n.message.contains("full in 22 min"),
        "the notice must carry the new projection: {}",
        n.message
    );
    assert_eq!(
        out.episodes[0].projection_bracket_secs,
        Some(1800),
        "22 min crossed the 30-minute line"
    );
    assert_eq!(
        out.episodes[0].last_notified_at,
        Some(at(1320)),
        "a spoken notice resets the repeat clock"
    );
}

#[test]
fn only_a_deeper_projection_crossing_speaks_again() {
    let mut e = firing(Dimension::Disk, 0, Some(1200), Level::Shrieking);
    e.projection_bracket_secs = Some(1800);

    let p = pressure(Level::Shrieking, vec![disk_reading(12e9, 1500.0, 1320)]);
    let out = reconcile_episodes(&[e.clone()], &p, None, at(1320), &cfg());
    assert_eq!(kinds(&out), Vec::<NotificationKind>::new());

    let p = pressure(Level::Shrieking, vec![disk_reading(6e9, 480.0, 1440)]);
    let out = reconcile_episodes(&[e], &p, None, at(1440), &cfg());
    assert_eq!(kinds(&out), vec![NotificationKind::Reescalated]);
    assert_eq!(out.episodes[0].projection_bracket_secs, Some(600));
}

#[test]
fn the_bracket_is_seeded_at_open_not_reannounced() {
    let r = disk_reading(12e9, 22.0 * 60.0, 150);
    let p = pressure(Level::Wailing, vec![r.clone()]);
    let out = reconcile_episodes(&[], &p, None, at(150), &cfg());
    assert_eq!(kinds(&out), vec![NotificationKind::Opened]);
    let opened = out.episodes[0].clone();
    assert_eq!(opened.projection_bracket_secs, Some(1800), "seeded at open");

    let p = pressure(Level::Wailing, vec![disk_reading(12e9, 22.0 * 60.0, 165)]);
    let out = reconcile_episodes(&[opened], &p, None, at(165), &cfg());
    assert_eq!(kinds(&out), Vec::<NotificationKind>::new());
}

#[test]
fn new_episodes_get_identifiers_of_their_own() {
    let p = pressure(
        Level::Shrieking,
        vec![reading(Dimension::Cpu, Band::Red, 600), reading(Dimension::Disk, Band::Red, 600)],
    );
    let once = reconcile_episodes(&[], &p, None, at(0), &cfg());
    let again = reconcile_episodes(&[], &p, None, at(0), &cfg());
    assert_ne!(once.episodes[0].id, once.episodes[1].id);
    assert_ne!(once.episodes[0].id, again.episodes[0].id);
    // Version 4 of the variant that RFC 9562 describes.
    for e in once.episodes.iter().chain(again.episodes.iter()) {
        assert_eq!((e.id >> 76) & 0xf, 4);
        assert_eq!((e.id >> 62) & 0x3, 2);
    }
}

#[test]
fn given_identifiers_are_used_as_given() {
    let p = pressure(Level::Wailing, vec![reading(Dimension::Swap, Band::Red, 600)]);
    let ids: [u128; 14] = std::array::from_fn(|i| 100 + i as u128);
    let out =
        episode::reconcile_with_ids(&[], &p, None, at(0), num(0.0), &cfg(), &ids);
    assert_eq!(out.episodes[0].id, 100 + Dimension::Swap.index() as u128);
    assert_eq!(out.notifications[0].episode_id, out.episodes[0].id);
}

#[test]
fn a_closed_episode_is_never_stepped() {
    let mut e = firing(Dimension::Cpu, -600, None, Level::Wailing);
    e.state = EpisodeState::Closed;
    let r = reading(Dimension::Cpu, Band::Red, 600);
    let p = pressure(Level::Wailing, vec![r.clone()]);
    assert!(episode::step(&e, &r, &p, None, at(0), num(0.0), &cfg()).is_none());
}

#[test]
fn an_episode_is_active_from_its_start_to_its_end() {
    let mut e = firing(Dimension::Cpu, -600, None, Level::Wailing);
    assert!(e.is_open());
    assert!(e.active_within(at(-100), at(0)));
    assert!(!e.active_within(at(-1000), at(-700)));
    e.state = EpisodeState::Closed;
    e.ended_at = Some(at(-300));
    assert!(!e.is_open());
    assert!(e.active_within(at(-400), at(0)));
    assert!(!e.active_within(at(-200), at(0)));
}

#[test]
fn the_day_holds_the_hour_and_the_hour_what_is_open() {
    let episodes = vec![
        firing(Dimension::Swap, -300, None, Level::Wailing),
        recovering(Dimension::Cpu, -900, -60, Level::Wailing),
    ];
    let a = RecentActivity::summarise(&episodes, at(0));
    assert_eq!(a, RecentActivity { open: 2, last_hour: 2, last_day: 2 });
}

#[test]
fn a_repeat_tells_what_was_swallowed() {
    let mut e = firing(Dimension::Cpu, -7200, Some(-3601), Level::Wailing);
    e.suppressed = 3;
    let p = red(Dimension::Cpu, 7200, Level::Wailing);
    let out = reconcile_episodes(&[e], &p, None, at(0), &cfg());
    let n: &Notification = &out.notifications[0];
    assert_eq!(n.kind, NotificationKind::Repeat);
    assert_eq!(n.suppressed, 3);
    assert_eq!(n.peak_level, Level::Wailing);
}

#[test]
fn a_deeper_red_does_not_swallow_the_reminder() {
    let open = firing(Dimension::Cpu, -7200, Some(-3600), Level::Wailing);
    let mut p = red(Dimension::Cpu, 7200, Level::Wailing);
    p.dimensions[0].severity = num(2.5);
    let r = reconcile_episodes(std::slice::from_ref(&open), &p, None, at(0), &cfg());
    assert_eq!(kinds(&r), vec![NotificationKind::Repeat]);
    assert_eq!(r.episodes.len(), 1);
    assert_eq!(r.episodes[0].last_notified_at, Some(at(0)));
    assert_eq!(r.episodes[0].peak.severity, num(2.5));

    let early = reconcile_episodes(&[open], &p, None, at(-1), &cfg());
    assert_eq!(early.episodes.len(), 1, "the deeper red is written down");
    assert!(early.notifications.is_empty(), "and not told inside the interval");
}

#[test]
fn the_level_of_a_peak_never_falls() {
    let open = firing(Dimension::Cpu, -600, Some(-60), Level::Shrieking);
    let mut p = red(Dimension::Cpu, 600, Level::Wailing);
    p.dimensions[0].severity = num(4.0);
    let census = census_with_chrome(2_000);
    let r = reconcile_episodes(&[open], &p, Some(&census), at(0), &cfg());
    assert_eq!(r.episodes.len(), 1);
    let e = &r.episodes[0];
    assert_eq!(e.peak.level, Level::Shrieking);
    assert_eq!(e.peak.severity, num(4.0));
    assert_eq!(e.peak.at, at(0));
    assert!(e.census_at_peak.is_some(), "the census moves with the peak");
    assert!(r.notifications.is_empty());

    let mut over = e.clone();
    over.state = EpisodeState::Recovering;
    over.recovering_since = Some(at(0));
    let calm = pressure(Level::Quiet, vec![reading(Dimension::Cpu, Band::Green, 600)]);
    let r = reconcile_episodes(&[over], &calm, None, at(36_000), &cfg());
    assert_eq!(kinds(&r), vec![NotificationKind::Recovered]);
    assert!(r.notifications[0].warrants_escalation(), "on the channel it was announced on");
}

#[test]
fn a_refire_is_swallowed_even_where_no_more_can_be_counted() {
    let mut open = recovering(Dimension::Cpu, -600, -10, Level::Wailing);
    open.suppressed = u32::MAX;
    open.last_notified_at = Some(at(-60));
    let r = reconcile_episodes(
        &[open],
        &red(Dimension::Cpu, 10, Level::Wailing),
        None,
        at(0),
        &cfg(),
    );
    assert_eq!(r.episodes[0].state, EpisodeState::Firing);
    assert!(r.notifications.is_empty());
}

#[test]
fn an_episode_is_orderly_from_end_to_end() {
    let orderly = |e: &AlertEpisode| {
        assert_eq!(e.state == EpisodeState::Closed, e.ended_at.is_some());
        assert_eq!(e.state == EpisodeState::Firing, e.recovering_since.is_none());
        if e.state == EpisodeState::Closed {
            assert_eq!(e.ended_at, e.recovering_since);
        }
    };
    let calm = pressure(Level::Quiet, vec![reading(Dimension::Cpu, Band::Green, 600)]);
    let mut states = Vec::new();
    let mut open: Vec<AlertEpisode> = Vec::new();
    for (secs, p) in [
        (0, red(Dimension::Cpu, 36_000, Level::Wailing)),
        (10, calm.clone()),
        (20, red(Dimension::Cpu, 10, Level::Wailing)),
        (30, calm.clone()),
        (36_030, calm),
    ] {
        let r = reconcile_episodes(&open, &p, None, at(secs), &cfg());
        for e in &r.episodes {
            orderly(e);
        }
        for n in &r.notifications {
            assert!(r.episodes.iter().any(|e| e.id == n.episode_id && e.dimension == n.dimension));
        }
        states.push(r.episodes[0].state);
        open = r.episodes;
    }
    assert_eq!(
        states,
        vec![
            EpisodeState::Firing,
            EpisodeState::Recovering,
            EpisodeState::Firing,
            EpisodeState::Recovering,
            EpisodeState::Closed,
        ]
    );
    assert_eq!(open[0].ended_at, Some(at(30)));
}

#[test]
fn folding_a_reading_in_touches_the_peak_and_its_census_together() {
    let before = firing(Dimension::Cpu, -600, Some(-60), Level::Wailing);
    let census = summarise(&census_with_chrome(2_000));
    let fold = |level, severity: f64| {
        let mut p = red(Dimension::Cpu, 600, level);
        p.dimensions[0].severity = num(severity);
        let mut e = before.clone();
        let worse = record_peak(&mut e, &p.dimensions[0].clone(), &p, Some(&census), at(0));
        (worse, e)
    };
    let deepest = f64::from_bits(before.peak.severity.bits);
    let (worse, e) = fold(Level::Restless, deepest);
    assert!(!worse);
    assert_eq!(e, before);
    let (worse, e) = fold(Level::Restless, deepest + 1.0);
    assert!(!worse);
    assert_eq!((e.peak.level, e.peak.at), (Level::Wailing, at(0)));
    assert_eq!(e.census_at_peak, Some(census.clone()));
    let (worse, e) = fold(Level::Shrieking, deepest - 1.0);
    assert!(worse);
    assert_eq!((e.peak.level, e.peak.severity), (Level::Shrieking, num(deepest - 1.0)));
    assert_eq!(e.census_at_peak, Some(census.clone()));
    let untouched = AlertEpisode { peak: before.peak.clone(), census_at_peak: None, ..e };
    assert_eq!(untouched, AlertEpisode { census_at_peak: None, ..before.clone() });
}

#[test]
fn nothing_is_said_of_a_dimension_that_was_not_observed() {
    let open = vec![firing(Dimension::Orphans, -36_000, None, Level::Wailing)];
    let p = red(Dimension::Cpu, 36_000, Level::Wailing);
    let out = reconcile_episodes(&open, &p, None, at(0), &cfg());
    let spoken: Vec<Dimension> = out.notifications.iter().map(|n| n.dimension).collect();
    assert_eq!(spoken, vec![Dimension::Cpu]);
    assert_eq!(out.episodes.len(), 1);
}

#[test]
fn a_muted_opening_is_told_as_soon_as_the_cause_stops_firing() {
    let both = |thrash| {
        pressure(
            Level::Shrieking,
            vec![
                reading(Dimension::Swap, Band::Red, 600),
                reading(Dimension::Thrash, thrash, 600),
            ],
        )
    };
    let first = reconcile_episodes(&[], &both(Band::Red), None, at(0), &cfg());
    assert!(first.notifications.iter().all(|n| n.dimension != Dimension::Swap));
    let next = reconcile_episodes(&first.episodes, &both(Band::Green), None, at(15), &cfg());
    let swap = next.notifications.iter().find(|n| n.dimension == Dimension::Swap).unwrap();
    assert_eq!(swap.kind, NotificationKind::Repeat);
    let written = next.episodes.iter().find(|e| e.dimension == Dimension::Swap).unwrap();
    assert_eq!(written.last_notified_at, Some(at(15)));
}
