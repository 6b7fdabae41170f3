use banshee_core::number::Real;
use banshee_core::pressure::band::Band;
use banshee_core::pressure::config::{Dimension, PressureConfig, Source};
use banshee_core::pressure::episode::RecentActivity;
use banshee_core::pressure::headroom::{
    self, Condition, ConditionStatus, FreeSlots, Headroom, MachineFacts,
};
use banshee_core::pressure::level::Level;
use banshee_core::pressure::{DimensionReading, Pressure};
use banshee_core::time::Timestamp;

fn num(x: f64) -> Real {
    Real::from_bits(x.to_bits())
}

fn float(x: Real) -> f64 {
    f64::from_bits(x.bits)
}

/// A Tuesday evening.
fn at() -> Timestamp {
    Timestamp::from_secs(1_788_909_300)
}

/// A bad night.
const SHRIEK: Timestamp = Timestamp { nanos: 1_785_883_269_870_112_000 };

fn fmt_bytes(b: f64) -> String {
    if b.abs() >= 1e9 {
        format!("{:.1} GB", b / 1e9)
    } else {
        format!("{:.0} MB", b / 1e6)
    }
}

fn free_slots(p: &Pressure, m: Option<MachineFacts>, config: &PressureConfig) -> FreeSlots {
    let Some(m) = m else {
        return FreeSlots { cpu: 0, memory: 0 };
    };
    let busy = p.reading(Dimension::Cpu).map_or(0.0, |r| float(r.value));
    let available = p.reading(Dimension::Memory).map_or(0.0, |r| float(r.value));
    let kept = float(config.headroom_memory_reserve_fraction).clamp(0.0, 1.0);
    let spendable = (available - m.mem_total_bytes as f64 * kept).max(0.0);
    FreeSlots {
        cpu: (f64::from(m.cores) * (1.0 - busy)).max(0.0).floor() as u32,
        memory: (spendable / config.headroom_memory_per_slot_bytes as f64).floor() as u32,
    }
}

fn derive(p: &Pressure, machine: Option<MachineFacts>, config: &PressureConfig) -> Headroom {
    headroom::derive(p, machine, free_slots(p, machine, config), config)
}

fn reading(
    d: Dimension,
    band: Band,
    value: f64,
    severity: f64,
    held: u64,
    detail: &str,
) -> DimensionReading {
    DimensionReading {
        dimension: d,
        key: d.key().to_string(),
        label: d.label().to_string(),
        band,
        value: num(value),
        unit: d.unit(),
        severity: num(severity),
        held_secs: held,
        observation_gap_secs: None,
        trend_per_sec: None,
        detail: detail.to_string(),
        advisory: d.is_advisory(),
        pending: None,
        recovering: false,
    }
}

fn cpu(utilization: f64) -> DimensionReading {
    let band = if utilization >= 0.95 {
        Band::Red
    } else if utilization >= 0.85 {
        Band::Yellow
    } else {
        Band::Green
    };
    reading(
        Dimension::Cpu,
        band,
        utilization,
        (utilization - 0.85) / 0.10,
        600,
        &format!("{:.0}% busy", utilization * 100.0),
    )
}

fn memory(available_bytes: f64) -> DimensionReading {
    let band = if available_bytes < 512e6 {
        Band::Red
    } else if available_bytes < 2e9 {
        Band::Yellow
    } else {
        Band::Green
    };
    reading(
        Dimension::Memory,
        band,
        available_bytes,
        (2e9 - available_bytes) / (2e9 - 512e6),
        600,
        &format!("{} available", fmt_bytes(available_bytes)),
    )
}

fn verdict(level: Level, source: Option<Source>, dims: Vec<DimensionReading>) -> Pressure {
    Pressure {
        evaluated_at: at(),
        level,
        level_name: level.name().to_string(),
        source,
        glyph: level.glyph().to_string(),
        accessibility_label: format!("Banshee: {}", level.name()),
        dimensions: dims,
        findings: Vec::new(),
        sample_count: 40,
        census_count: 3,
        recovering: false,
        activity: RecentActivity::default(),
    }
}

/// Nothing has been seen.
fn checking_verdict() -> Pressure {
    Pressure::checking(at())
}

/// A calm machine, 53% busy.
fn quiet_verdict() -> Pressure {
    verdict(
        Level::Quiet,
        None,
        vec![
            cpu(0.53),
            reading(Dimension::Disk, Band::Green, 71e9, -0.2, 600, "71.0 GB free"),
        ],
    )
}

/// A machine deep in swap.
fn shrieking_verdict() -> Pressure {
    let mut p = verdict(
        Level::Shrieking,
        Some(Source::Memory),
        vec![
            reading(Dimension::Cpu, Band::Red, 0.98, 1.3, 3600, "98% busy"),
            reading(
                Dimension::Swap,
                Band::Red,
                35.6e9,
                3.95,
                3600,
                "35.6 GB in use, climbing 74 MB/min",
            ),
            reading(Dimension::Uptime, Band::Yellow, 12.0, 0.36, 86_400, "12.0 days"),
        ],
    );
    p.evaluated_at = SHRIEK;
    p
}

fn config() -> PressureConfig {
    PressureConfig::default()
}

fn eight() -> Option<MachineFacts> {
    machine(8)
}

fn machine(cores: u32) -> Option<MachineFacts> {
    Some(MachineFacts { cores, mem_total_bytes: 25_769_803_776 })
}

fn condition<'a>(h: &'a Headroom, kind: &str) -> &'a Condition {
    match h.conditions.iter().find(|c| c.kind == kind) {
        Some(c) => c,
        None => panic!("no {kind} condition in {:?}", h.conditions),
    }
}

fn throttled() -> Pressure {
    verdict(
        Level::Restless,
        Some(Source::Thermal),
        vec![
            cpu(0.20),
            memory(12e9),
            reading(Dimension::Thermal, Band::Red, 2.0, 1.0, 45, "kernel reports heavy"),
        ],
    )
}

#[test]
fn the_checking_fixture_says_wait_and_never_invents_headroom() {
    let p: Pressure = checking_verdict();
    let h = derive(&p, None, &config());
    assert!(h.should_wait);
    assert_eq!(h.recommended_parallelism, 0);
    assert_eq!(h.retry_after_secs, Some(30));
    assert_eq!(h.cores, None);
    assert_eq!(h.level, Level::Checking);
    assert_eq!(condition(&h, "Ready").status, ConditionStatus::False);
    assert!(
        h.conditions[1..]
            .iter()
            .all(|c| c.status == ConditionStatus::Unknown && c.since.is_none()),
        "no reading means Unknown, not False: {:?}",
        h.conditions
    );
    assert!(h.reason.contains("not headroom"), "{}", h.reason);
}

#[test]
fn a_verdict_without_a_core_count_is_wait() {
    let p = verdict(Level::Quiet, None, vec![cpu(0.1)]);
    let h = derive(&p, None, &config());
    assert!(h.should_wait);
    assert_eq!(h.recommended_parallelism, 0);
    assert_eq!(h.cores, None);
}

#[test]
fn the_quiet_fixture_has_room_for_three_more_on_eight_cores() {
    let p: Pressure = quiet_verdict();
    let h = derive(&p, eight(), &config());
    assert!(!h.should_wait);
    assert_eq!(h.recommended_parallelism, 3, "floor(8 × (1 − 0.53)) = 3");
    assert_eq!(h.retry_after_secs, None, "nothing to wait for, so no retry");
    assert_eq!(h.cores, Some(8));
    assert_eq!(condition(&h, "Ready").status, ConditionStatus::True);
    assert_eq!(condition(&h, "CpuPressure").reason, "AllGreen");
    assert_eq!(
        condition(&h, "MemoryPressure").status,
        ConditionStatus::Unknown
    );
}

#[test]
fn the_shrieking_fixture_waits_five_minutes_and_names_the_dominant_source() {
    let p: Pressure = shrieking_verdict();
    let h = derive(&p, eight(), &config());
    assert!(h.should_wait);
    assert_eq!(h.recommended_parallelism, 0);
    assert_eq!(h.retry_after_secs, Some(300));
    assert!(
        h.reason.starts_with("Shrieking: Swap in use is red"),
        "{}",
        h.reason
    );
    assert!(h.reason.contains("held 1h0m"), "{}", h.reason);
    let mem = condition(&h, "MemoryPressure");
    assert_eq!(mem.status, ConditionStatus::True);
    assert_eq!(
        mem.reason, "SwapRed",
        "uptime (yellow, advisory) must not win"
    );
    assert_eq!(mem.message, "35.6 GB in use, climbing 74 MB/min");
    assert_eq!(
        mem.since,
        Some(Timestamp { nanos: SHRIEK.nanos - 3_600_000_000_000 }),
        "since = evaluatedAt − heldSecs (3600)"
    );
    assert_eq!(condition(&h, "CpuPressure").status, ConditionStatus::True);
    assert_eq!(
        condition(&h, "ThermalPressure").status,
        ConditionStatus::Unknown
    );
}

#[test]
fn a_fresh_thermal_red_flips_a_restless_machine_from_two_slots_to_wait() {
    let control = verdict(
        Level::Restless,
        Some(Source::Sprawl),
        vec![
            cpu(0.20),
            memory(12e9),
            reading(Dimension::Orphans, Band::Red, 45.0, 1.2, 45, "45 orphaned"),
        ],
    );
    let h_control = derive(&control, eight(), &config());
    assert!(
        !h_control.should_wait,
        "a fresh SPRAWL red does not zero it"
    );
    assert_eq!(
        h_control.recommended_parallelism, 2,
        "Restless caps 8 cores at 2"
    );

    let h = derive(&throttled(), eight(), &config());
    assert!(h.should_wait, "thermal red must force a wait");
    assert_eq!(h.recommended_parallelism, 0);
    assert_eq!(
        h.retry_after_secs,
        Some(60),
        "a red below Wailing is the 60s rung"
    );
    assert!(
        h.reason.starts_with("Restless: Thermal pressure is red"),
        "{}",
        h.reason
    );
    assert!(h.reason.contains("held 45s"), "{}", h.reason);
    assert_eq!(
        condition(&h, "ThermalPressure").status,
        ConditionStatus::True
    );
    assert_eq!(condition(&h, "ThermalPressure").reason, "ThermalRed");
    assert_eq!(condition(&h, "CpuPressure").status, ConditionStatus::False);
}

#[test]
fn a_fresh_kernel_pressure_red_forces_a_wait_even_with_memory_available() {
    let p = verdict(
        Level::Restless,
        Some(Source::Memory),
        vec![
            cpu(0.20),
            memory(3e9),
            reading(
                Dimension::KernelPressure,
                Band::Red,
                4.0,
                1.0,
                30,
                "kernel reports critical",
            ),
        ],
    );
    let h = derive(&p, eight(), &config());
    assert!(h.should_wait);
    assert_eq!(h.recommended_parallelism, 0);
    assert!(
        h.reason.contains("Kernel memory pressure is red"),
        "{}",
        h.reason
    );
    assert_eq!(condition(&h, "MemoryPressure").reason, "KernelPressureRed");
}

#[test]
fn a_disk_red_forces_a_wait() {
    let p = verdict(
        Level::Restless,
        Some(Source::Disk),
        vec![
            cpu(0.20),
            reading(Dimension::Disk, Band::Red, 9e9, 1.2, 30, "9.0 GB free"),
        ],
    );
    let h = derive(&p, eight(), &config());
    assert!(h.should_wait);
    assert_eq!(condition(&h, "DiskPressure").reason, "DiskRed");
}

#[test]
fn wailing_waits_even_when_the_red_is_not_a_zeroing_source() {
    let p = verdict(
        Level::Wailing,
        Some(Source::Corporate),
        vec![
            cpu(0.10),
            memory(20e9),
            reading(
                Dimension::Corporate,
                Band::Red,
                110.0,
                1.25,
                900,
                "110.0% of one core",
            ),
        ],
    );
    let h = derive(&p, eight(), &config());
    assert!(h.should_wait);
    assert_eq!(h.recommended_parallelism, 0);
    assert_eq!(h.retry_after_secs, Some(120));
    assert!(
        h.reason.starts_with("Wailing: Managed agents is red"),
        "{}",
        h.reason
    );
}

#[test]
fn the_memory_budget_per_slot_is_configuration_and_caps_the_answer() {
    let p = verdict(
        Level::Quiet,
        None,
        vec![cpu(0.10), memory(10.0 * 1024.0 * 1024.0 * 1024.0)],
    );
    let mut c = config();
    assert_eq!(
        derive(&p, eight(), &c).recommended_parallelism,
        2,
        "2 GiB per slot"
    );
    c.headroom_memory_per_slot_bytes = 1 << 30;
    assert_eq!(
        derive(&p, eight(), &c).recommended_parallelism,
        4,
        "1 GiB per slot"
    );
}

#[test]
fn the_memory_reserve_is_a_fraction_of_total_and_is_configuration() {
    let p = verdict(
        Level::Quiet,
        None,
        vec![cpu(0.10), memory(10.0 * 1024.0 * 1024.0 * 1024.0)],
    );
    let mut c = config();
    assert_eq!(derive(&p, eight(), &c).recommended_parallelism, 2);
    c.headroom_memory_reserve_fraction = num(0.0);
    assert_eq!(
        derive(&p, eight(), &c).recommended_parallelism,
        5,
        "no reserve: floor(10 GiB / 2 GiB)"
    );
    c.headroom_memory_reserve_fraction = num(0.5);
    let h = derive(&p, eight(), &c);
    assert_eq!(h.recommended_parallelism, 1);
    assert!(!h.should_wait);
}

#[test]
fn stirring_caps_at_half_the_cores_and_restless_at_a_quarter() {
    let dims = || {
        vec![
            cpu(0.10),
            memory(20e9),
            reading(
                Dimension::Orphans,
                Band::Yellow,
                12.0,
                0.07,
                300,
                "12 orphaned",
            ),
        ]
    };
    let quiet = derive(&verdict(Level::Quiet, None, dims()), eight(), &config());
    assert_eq!(
        quiet.recommended_parallelism, 6,
        "Quiet: 7 free cores, but 20 GB − 6.44 GB reserve is 6 workers at 2 GiB"
    );
    let stirring = derive(&verdict(Level::Stirring, None, dims()), eight(), &config());
    assert_eq!(stirring.recommended_parallelism, 4);
    let restless = derive(
        &verdict(Level::Restless, Some(Source::Sprawl), dims()),
        eight(),
        &config(),
    );
    assert_eq!(restless.recommended_parallelism, 2);
    let ten = derive(
        &verdict(Level::Restless, Some(Source::Sprawl), dims()),
        machine(10),
        &config(),
    );
    assert_eq!(ten.recommended_parallelism, 3);
}

#[test]
fn thermal_moderate_halves_the_answer() {
    let hot = verdict(
        Level::Stirring,
        None,
        vec![
            cpu(0.10),
            memory(20e9),
            reading(
                Dimension::Thermal,
                Band::Yellow,
                1.0,
                0.0,
                300,
                "kernel reports moderate",
            ),
        ],
    );
    let cool = verdict(
        Level::Stirring,
        None,
        vec![
            cpu(0.10),
            memory(20e9),
            reading(
                Dimension::Orphans,
                Band::Yellow,
                12.0,
                0.07,
                300,
                "12 orphaned",
            ),
        ],
    );
    assert_eq!(derive(&cool, eight(), &config()).recommended_parallelism, 4);
    assert_eq!(derive(&hot, eight(), &config()).recommended_parallelism, 2);
    assert!(
        !derive(&hot, eight(), &config()).should_wait,
        "moderate is a cut, not a wait"
    );
}

#[test]
fn a_calm_machine_with_no_free_cores_still_has_room_for_one() {
    let p = verdict(Level::Quiet, None, vec![cpu(0.95), memory(20e9)]);
    let h = derive(&p, eight(), &config());
    assert!(!h.should_wait);
    assert_eq!(
        h.recommended_parallelism, 1,
        "floor(8 × 0.05) = 0, floored to 1"
    );
    assert_eq!(h.retry_after_secs, None);
    assert!(
        h.reason.contains("room for 1 more worker on 8 cores"),
        "{}",
        h.reason
    );
}

#[test]
fn should_wait_is_exactly_zero_parallelism_and_retry_is_present_exactly_then() {
    let cases = vec![
        derive(
            &checking_verdict(),
            None,
            &config(),
        ),
        derive(
            &quiet_verdict(),
            eight(),
            &config(),
        ),
        derive(
            &shrieking_verdict(),
            eight(),
            &config(),
        ),
        derive(&throttled(), eight(), &config()),
        derive(
            &verdict(Level::Quiet, None, vec![cpu(0.95)]),
            eight(),
            &config(),
        ),
        derive(
            &verdict(Level::Stirring, None, vec![cpu(0.5), memory(900e6)]),
            eight(),
            &config(),
        ),
        derive(
            &verdict(
                Level::Restless,
                Some(Source::Memory),
                vec![cpu(0.5), memory(400e6)],
            ),
            eight(),
            &config(),
        ),
    ];
    for h in cases {
        assert_eq!(h.should_wait, h.recommended_parallelism == 0, "{h:?}");
        assert_eq!(h.should_wait, h.retry_after_secs.is_some(), "{h:?}");
    }
}

#[test]
fn the_retry_ladder_is_configuration_rung_by_rung() {
    let mut c = config();
    c.headroom_retry_checking_secs = 11;
    c.headroom_retry_red_secs = 22;
    c.headroom_retry_wailing_secs = 33;
    c.headroom_retry_shrieking_secs = 44;

    let checking: Pressure = checking_verdict();
    assert_eq!(derive(&checking, None, &c).retry_after_secs, Some(11));

    let fresh_red = verdict(
        Level::Restless,
        Some(Source::Memory),
        vec![cpu(0.2), memory(400e6)],
    );
    assert_eq!(derive(&fresh_red, eight(), &c).retry_after_secs, Some(22));

    let wailing = verdict(Level::Wailing, Some(Source::Cpu), vec![cpu(3.5)]);
    assert_eq!(derive(&wailing, eight(), &c).retry_after_secs, Some(33));

    let shrieking = verdict(
        Level::Shrieking,
        Some(Source::Memory),
        vec![cpu(3.5), memory(400e6)],
    );
    assert_eq!(derive(&shrieking, eight(), &c).retry_after_secs, Some(44));
}

#[test]
fn conditions_are_ready_then_the_six_sources_in_order() {
    let p: Pressure = quiet_verdict();
    let h = derive(&p, eight(), &config());
    let kinds: Vec<&str> = h.conditions.iter().map(|c| c.kind.as_str()).collect();
    assert_eq!(
        kinds,
        vec![
            "Ready",
            "CpuPressure",
            "MemoryPressure",
            "ThermalPressure",
            "DiskPressure",
            "SprawlPressure",
            "CorporatePressure",
        ]
    );
}

#[test]
fn a_condition_names_the_worst_non_advisory_dimension_of_its_source() {
    let p = verdict(
        Level::Stirring,
        None,
        vec![
            cpu(0.3),
            reading(
                Dimension::Swap,
                Band::Yellow,
                5e9,
                0.125,
                200,
                "5.0 GB in use",
            ),
            reading(
                Dimension::Uptime,
                Band::Yellow,
                12.0,
                0.36,
                86400,
                "12.0 days",
            ),
        ],
    );
    let h = derive(&p, eight(), &config());
    let mem = condition(&h, "MemoryPressure");
    assert_eq!(mem.status, ConditionStatus::False, "yellow is not pressure");
    assert_eq!(mem.reason, "SwapYellow");
    assert_eq!(mem.message, "5.0 GB in use");
    assert_eq!(mem.since, Some(at().before(200)));

    let only_uptime = verdict(
        Level::Quiet,
        None,
        vec![
            cpu(0.3),
            reading(
                Dimension::Uptime,
                Band::Yellow,
                12.0,
                0.36,
                86400,
                "12.0 days",
            ),
        ],
    );
    let h = derive(&only_uptime, eight(), &config());
    assert_eq!(
        condition(&h, "MemoryPressure").status,
        ConditionStatus::Unknown
    );
    assert_eq!(condition(&h, "MemoryPressure").reason, "NoReading");
}

#[test]
fn an_all_green_source_reports_its_primary_dimension() {
    let thrash = reading(
        Dimension::Thrash,
        Band::Green,
        0.0,
        -0.11,
        600,
        "peak 0 swap ops/sec",
    );
    let p = verdict(
        Level::Quiet,
        None,
        vec![cpu(0.3), memory(7.2e9), thrash.clone()],
    );
    let h = derive(&p, eight(), &config());
    let mem = condition(&h, "MemoryPressure");
    assert_eq!(mem.reason, "AllGreen");
    assert_eq!(
        mem.message, "7.2 GB available",
        "the primary dimension, not the closest green"
    );

    let hot_thrash = reading(
        Dimension::Thrash,
        Band::Yellow,
        150.0,
        0.05,
        60,
        "peak 150 swap ops/sec",
    );
    let p = verdict(
        Level::Stirring,
        None,
        vec![cpu(0.3), memory(7.2e9), hot_thrash],
    );
    let h = derive(&p, eight(), &config());
    assert_eq!(condition(&h, "MemoryPressure").reason, "ThrashYellow");
    assert_eq!(
        condition(&h, "MemoryPressure").message,
        "peak 150 swap ops/sec"
    );
}

#[test]
fn the_camel_names_start_with_a_capital() {
    let p = verdict(
        Level::Stirring,
        None,
        vec![reading(Dimension::KernelPressure, Band::Yellow, 2.0, 0.0, 30, "kernel reports warn")],
    );
    let h = derive(&p, eight(), &config());
    assert_eq!(condition(&h, "MemoryPressure").reason, "KernelPressureYellow");
}

#[test]
fn a_broken_reading_leaves_the_cores_to_decide() {
    let mut broken = cpu(0.1);
    broken.value = num(f64::NAN);
    let p = verdict(Level::Quiet, None, vec![broken, memory(60e9)]);
    assert_eq!(derive(&p, eight(), &config()).recommended_parallelism, 8);
}

#[test]
fn a_long_uptime_on_its_own_stops_nothing() {
    let p = verdict(
        Level::Quiet,
        None,
        vec![cpu(0.10), reading(Dimension::Uptime, Band::Red, 30.0, 1.6, 86400, "30.0 days")],
    );
    let h = derive(&p, eight(), &config());
    assert!(!h.should_wait);
    assert_eq!(h.recommended_parallelism, 7);
    assert_eq!(h.retry_after_secs, None);
}
