use banshee_core::census::{AgentSession, Census, HelperRollup, MonitorTotal, OrphanCensus};
use banshee_core::number::Real;
use banshee_core::sample::{
    self, bucket_start_of, CensusScalars, CoreError, Rollup, Sample, VolumeSample,
};
use banshee_core::sys::VolumeReading;
use banshee_core::time::Timestamp;
use chrono::DateTime;

const DATA_VOLUME: &str = "/System/Volumes/Data";

fn num(x: f64) -> Real {
    Real::from_bits(x.to_bits())
}

fn float(x: Real) -> f64 {
    f64::from_bits(x.bits)
}

fn at(s: &str) -> Timestamp {
    let t = DateTime::parse_from_rfc3339(s).unwrap();
    Timestamp { nanos: i128::from(t.timestamp_nanos_opt().unwrap()) }
}

fn to_wire(t: &Timestamp) -> String {
    DateTime::from_timestamp_nanos(t.nanos as i64).format("%Y-%m-%dT%H:%M:%S%.6fZ").to_string()
}

fn rollup(
    bucket_start: Timestamp,
    samples: &[Sample],
    censuses: &[CensusScalars],
) -> Option<Rollup> {
    let total: f64 = samples.iter().map(|s| float(s.load1m)).sum();
    sample::rollup(bucket_start, samples, censuses, num(total / samples.len() as f64))
}

fn sample(ts: &str, load: f64, swap_used: u64, free: u64, swapins: u64) -> Sample {
    Sample {
        id: 5,
        sampled_at: at(ts),
        boot_time_secs: 1_788_122_573,
        ncpu: 8,
        mem_total_bytes: 25_769_803_776,
        page_size: 16384,
        load1m: num(load),
        load5m: num(load),
        load15m: num(load),
        swap_total_bytes: 8_589_934_592,
        swap_used_bytes: swap_used,
        pages_free: free,
        pages_active: 100,
        pages_inactive: 100,
        pages_wired: 100,
        pages_speculative: 0,
        pages_compressor: 500,
        pages_purgeable: 0,
        pages_external: 0,
        swapins,
        swapouts: swapins * 2,
        memory_pressure_level: 2,
        thermal_pressure_level: Some(2),
        cpu_speed_limit_percent: Some(85),
        cpu_ticks_total: Some(80_000_000),
        cpu_ticks_idle: Some(60_000_000),
        kernel_free_percent: Some(37),
        jetsam_kills: Some(2),
        volumes: vec![VolumeSample {
            mount_point: DATA_VOLUME.into(),
            total_bytes: 494_384_795_648,
            avail_bytes: 71_000_000_000,
        }],
    }
}

fn scalars(ts: &str, procs: u32, stale: u32, orphans: u32, monitor: f64) -> CensusScalars {
    CensusScalars {
        taken_at: at(ts),
        total_procs: procs,
        stale_sessions: stale,
        orphans,
        monitor_percent: num(monitor),
    }
}

#[test]
fn round_trips_through_a_kernel_reading() {
    let s = sample(
        "2026-08-31T15:00:00.000000Z",
        4.2,
        7_078_019_072,
        13_267,
        1000,
    );
    let r = s.to_reading();
    let back = Sample::from_reading(s.sampled_at, &r, &[]);
    assert_eq!(back.load1m, s.load1m);
    assert_eq!(back.swap_used_bytes, s.swap_used_bytes);
    assert_eq!(back.swapins, s.swapins);
    assert_eq!(back.boot_time_secs, s.boot_time_secs);
    assert_eq!(back.page_size, s.page_size);
    assert_eq!(back.memory_pressure_level, 2);
    assert_eq!(back.thermal_pressure_level, Some(2));
    assert_eq!(back.cpu_speed_limit_percent, Some(85));
    assert_eq!(back.cpu_ticks_total, Some(80_000_000));
    assert_eq!(back.cpu_ticks_idle, Some(60_000_000));
    assert_eq!(back.kernel_free_percent, Some(37));
    assert_eq!(back.jetsam_kills, Some(2));
}

#[test]
fn buckets_floor_to_five_minute_boundaries() {
    for (input, want) in [
        ("2026-08-31T15:00:00.000000Z", "2026-08-31T15:00:00.000000Z"),
        ("2026-08-31T15:04:59.999999Z", "2026-08-31T15:00:00.000000Z"),
        ("2026-08-31T15:05:00.000000Z", "2026-08-31T15:05:00.000000Z"),
        ("2026-08-31T15:59:59.000000Z", "2026-08-31T15:55:00.000000Z"),
        ("2026-08-31T00:00:01.000000Z", "2026-08-31T00:00:00.000000Z"),
    ] {
        let got = bucket_start_of(at(input)).unwrap();
        assert_eq!(to_wire(&got), want, "bucket for {input}");
    }
}

#[test]
fn bucket_boundaries_are_utc_not_local() {
    let utc = at("2026-08-31T15:05:00.000000Z");
    let offset = at("2026-08-31T20:50:00.000000+05:45");
    assert_eq!(utc, offset, "same instant");
    assert_eq!(
        bucket_start_of(utc).unwrap(),
        bucket_start_of(offset).unwrap()
    );
    assert_eq!(
        to_wire(&bucket_start_of(offset).unwrap()),
        "2026-08-31T15:05:00.000000Z"
    );
}

#[test]
fn empty_bucket_produces_no_rollup() {
    assert!(rollup(at("2026-08-31T15:00:00.000000Z"), &[], &[]).is_none());
}

#[test]
fn census_scalars_keep_the_max_of_each_counter_independently() {
    let b = at("2026-08-31T15:00:00.000000Z");
    let samples = vec![sample("2026-08-31T15:00:00.000000Z", 1.0, 1, 1, 1)];
    let censuses = vec![
        scalars("2026-08-31T15:00:10.000000Z", 900, 2, 45, 39.0),
        scalars("2026-08-31T15:04:50.000000Z", 850, 17, 12, 64.1),
    ];
    let r = rollup(b, &samples, &censuses).unwrap();

    assert_eq!(r.stale_sessions_max, Some(17), "second census wins");
    assert_eq!(r.orphans_max, Some(45), "first census wins");
    assert_eq!(r.monitor_percent_max, Some(num(64.1)));
    assert_eq!(r.total_procs_max, Some(900));
}

#[test]
fn a_bucket_without_a_census_has_null_scalars_not_zero() {
    let b = at("2026-08-31T15:00:00.000000Z");
    let r = rollup(
        b,
        &[sample("2026-08-31T15:00:00.000000Z", 1.0, 1, 1, 1)],
        &[],
    )
    .unwrap();
    assert_eq!(r.stale_sessions_max, None);
    assert_eq!(r.orphans_max, None);
    assert_eq!(r.monitor_percent_max, None);
    assert_eq!(r.total_procs_max, None);
}

#[test]
fn census_scalars_project_the_pressure_models_numbers() {

    let mk_session = |stale: bool| AgentSession {
        pid: 1,
        program: "aider".into(),
        rss_bytes: 1,
        age_secs: 1,
        age_days: if stale { 8 } else { 0 },
        cpu_secs: num(1.0),
        tty: "ttys000".into(),
        is_stale: stale,
        cwd: None,
    };
    let c = Census {
        id: 4,
        taken_at: at("2026-08-31T15:00:10.000000Z"),
        total_procs: 812,
        agent_sessions: vec![mk_session(false), mk_session(true), mk_session(false)],
        ide_helpers: HelperRollup {
            count: 2,
            rss_bytes: 0,
        },
        orphans: OrphanCensus {
            total_count: 150,
            total_rss_bytes: 1,
            orphan_count: 14,
            orphan_rss_bytes: 1,
            orphans_by_program: Vec::new(),
        },
        tmux_sessions: Vec::new(),
        app_groups: Vec::new(),
        monitor_agents: Vec::new(),
        monitor_total: MonitorTotal {
            proc_count: 13,
            rss_bytes: 1,
            cpu_secs_total: num(1.0),
            percent_of_one_core: num(49.2),
            longest_life_secs: 78_000,
        },
        tmux_available: true,
        cpu_consumers: Vec::new(),
        pressure_kills: None,
    };
    let s = CensusScalars::from(&c);
    assert_eq!(s.stale_sessions, 1, "stale sessions, not all sessions");
    assert_eq!(s.orphans, 14, "orphan_count, not total_count");
    assert_eq!(s.total_procs, 812);
    assert_eq!(s.monitor_percent, num(49.2));
    assert_eq!(s.taken_at, c.taken_at);
}

#[test]
fn keeps_the_extreme_that_matters_not_just_the_average() {
    let b = at("2026-08-31T15:00:00.000000Z");
    let samples = vec![
        sample("2026-08-31T15:00:00.000000Z", 1.0, 100, 9_000, 10),
        sample("2026-08-31T15:01:00.000000Z", 12.0, 900, 500, 20),
        sample("2026-08-31T15:02:00.000000Z", 2.0, 500, 4_000, 30),
    ];
    let r = rollup(b, &samples, &[]).unwrap();

    assert_eq!(r.sample_count, 3);
    assert!((float(r.load1m_avg) - 5.0).abs() < 1e-9);
    assert_eq!(r.load1m_max, num(12.0), "the spike must survive the rollup");
    assert_eq!(r.swap_used_max, 900);
    assert_eq!(r.swap_used_avg, 500);
    assert_eq!(r.pages_free_min, 500, "the low-water mark must survive");
    assert_eq!(r.swapins_delta, Some(20));
    assert_eq!(r.swapouts_delta, Some(40));
}

#[test]
fn a_reboot_inside_the_bucket_voids_the_counter_delta() {
    let b = at("2026-08-31T15:00:00.000000Z");
    let mut a1 = sample("2026-08-31T15:00:00.000000Z", 1.0, 100, 900, 1000);
    let mut a2 = sample("2026-08-31T15:01:00.000000Z", 1.0, 100, 900, 5);
    a1.boot_time_secs = 1_000;
    a2.boot_time_secs = 2_000;
    let r = rollup(b, &[a1, a2], &[]).unwrap();

    assert_eq!(r.swapins_delta, None, "counters restarted; no honest delta");
    assert_eq!(r.swapouts_delta, None);
    assert_eq!(r.load1m_max, num(1.0));
    assert_eq!(r.pages_free_min, 900);
}

#[test]
fn a_single_sample_bucket_has_no_counter_delta() {
    let b = at("2026-08-31T15:00:00.000000Z");
    let r = rollup(
        b,
        &[sample("2026-08-31T15:00:00.000000Z", 3.0, 7, 8, 42)],
        &[],
    )
    .unwrap();
    assert_eq!(r.sample_count, 1);
    assert_eq!(r.swapins_delta, None);
    assert_eq!(r.load1m_max, num(3.0));
}

#[test]
fn out_of_order_samples_do_not_produce_a_wrapped_delta() {
    let b = at("2026-08-31T15:00:00.000000Z");
    let samples = vec![
        sample("2026-08-31T15:02:00.000000Z", 1.0, 1, 1, 300),
        sample("2026-08-31T15:00:00.000000Z", 1.0, 1, 1, 100),
    ];
    let r = rollup(b, &samples, &[]).unwrap();
    assert_eq!(r.swapins_delta, Some(200));
}

#[test]
fn aggregates_volumes_by_mount_point() {
    let b = at("2026-08-31T15:00:00.000000Z");
    let mut a1 = sample("2026-08-31T15:00:00.000000Z", 1.0, 1, 1, 10);
    let mut a2 = sample("2026-08-31T15:01:00.000000Z", 1.0, 1, 1, 20);
    a1.volumes[0].avail_bytes = 100;
    a2.volumes[0].avail_bytes = 50;
    a2.volumes.push(VolumeSample {
        mount_point: "/Volumes/Backup".into(),
        total_bytes: 2_000,
        avail_bytes: 700,
    });

    let r = rollup(b, &[a1, a2], &[]).unwrap();
    assert_eq!(r.volumes.len(), 2);
    let data = r
        .volumes
        .iter()
        .find(|v| v.mount_point == DATA_VOLUME)
        .unwrap();
    assert_eq!(data.avail_min, 50, "low-water mark");
    assert_eq!(data.avail_avg, 75);
    let backup = r
        .volumes
        .iter()
        .find(|v| v.mount_point == "/Volumes/Backup")
        .unwrap();
    assert_eq!(backup.avail_min, 700);
}

#[test]
fn byte_averages_do_not_overflow_on_large_values() {
    let b = at("2026-08-31T15:00:00.000000Z");
    let samples: Vec<Sample> = (0..4)
        .map(|i| {
            let mut s = sample("2026-08-31T15:00:00.000000Z", 1.0, u64::MAX, 1, i);
            s.volumes[0].avail_bytes = u64::MAX;
            s
        })
        .collect();
    let r = rollup(b, &samples, &[]).unwrap();
    assert_eq!(r.swap_used_avg, u64::MAX);
    assert_eq!(r.volumes[0].avail_avg, u64::MAX);
}

#[test]
fn an_instant_that_cannot_be_floored_is_refused() {
    let at = Timestamp { nanos: i128::from(i64::MAX) + 1 };
    assert_eq!(bucket_start_of(at), Err(CoreError::NoBucket { at }));
    let at = Timestamp { nanos: i128::from(i64::MIN) - 1 };
    assert_eq!(bucket_start_of(at), Err(CoreError::NoBucket { at }));
}

#[test]
fn instants_before_the_epoch_are_floored_downward() {
    let got = bucket_start_of(Timestamp { nanos: -1 }).unwrap();
    assert_eq!(got, Timestamp { nanos: -300_000_000_000 });
}

#[test]
fn a_bucket_starts_itself() {
    let s = sample("2026-08-31T15:04:59.999999Z", 1.0, 0, 1, 1);
    let start = s.bucket_start().unwrap();
    assert_eq!(start, at("2026-08-31T15:00:00.000000Z"));
    assert_eq!(bucket_start_of(start), Ok(start));
}

#[test]
fn a_sample_keeps_its_volumes_and_gets_an_identifier_of_its_own() {
    let s = sample("2026-08-31T15:00:00.000000Z", 1.0, 0, 1, 1);
    let v = [VolumeReading { mount_point: "/".into(), total_bytes: 10, avail_bytes: 4 }];
    let a = Sample::from_reading(s.sampled_at, &s.to_reading(), &v);
    let b = Sample::from_reading(s.sampled_at, &s.to_reading(), &v);
    assert_eq!(a.volumes, vec![VolumeSample::from(&v[0])]);
    assert_ne!(a.id, b.id);
    let c = Sample::with_id(42, s.sampled_at, &s.to_reading(), &v);
    assert_eq!(c.id, 42);
    assert_eq!(c.to_reading(), s.to_reading());
}

#[test]
fn the_compressor_peak_survives() {
    let mut a = sample("2026-08-31T15:00:00.000000Z", 1.0, 1, 1, 1);
    let b = sample("2026-08-31T15:01:00.000000Z", 1.0, 1, 1, 2);
    a.pages_compressor = 9_000;
    let r = rollup(at("2026-08-31T15:00:00.000000Z"), &[a, b], &[]).unwrap();
    assert_eq!(r.pages_compressor_max, 9_000);
}

#[test]
fn a_bucket_is_the_same_whatever_order_its_samples_come_in() {
    let b = at("2026-08-31T15:00:00.000000Z");
    let x = sample("2026-08-31T15:00:00.000000Z", 1.0, 10, 5, 100);
    let y = sample("2026-08-31T15:01:00.000000Z", 7.5, 30, 2, 160);
    let z = sample("2026-08-31T15:02:00.000000Z", 3.0, 20, 9, 130);
    let forward = rollup(b, &[x.clone(), y.clone(), z.clone()], &[]).unwrap();
    let backward = rollup(b, &[z, y, x], &[]).unwrap();
    assert_eq!(forward.swapins_delta, Some(60));
    assert_eq!(forward, backward);
}

#[test]
fn the_volumes_of_a_bucket_need_no_order() {
    let b = at("2026-08-31T15:00:00.000000Z");
    let mut x = sample("2026-08-31T15:00:00.000000Z", 1.0, 10, 5, 100);
    let mut y = sample("2026-08-31T15:01:00.000000Z", 1.0, 30, 2, 160);
    x.volumes[0].avail_bytes = 700;
    y.volumes[0].avail_bytes = 301;
    y.volumes.insert(
        0,
        VolumeSample { mount_point: "/".into(), total_bytes: 9, avail_bytes: 4 },
    );
    let forward = rollup(b, &[x.clone(), y.clone()], &[]).unwrap();
    let backward = rollup(b, &[y, x], &[]).unwrap();
    assert_eq!(forward.volumes.len(), 2);
    for (f, g) in forward.volumes.iter().zip(&backward.volumes) {
        assert_eq!((&f.mount_point, f.avail_min, f.avail_avg), (&g.mount_point, g.avail_min, g.avail_avg));
    }
    assert_eq!(forward.volumes[1].avail_min, 301);
    assert_eq!(forward.volumes[1].avail_avg, 500);
}

#[test]
fn the_mean_of_a_volume_is_exact_however_it_swings() {
    let b = at("2026-08-31T15:00:00.000000Z");
    let mean = |free: &[u64]| {
        let samples: Vec<Sample> = free
            .iter()
            .map(|n| {
                let mut s = sample("2026-08-31T15:00:00.000000Z", 1.0, 10, 5, 100);
                s.volumes[0].avail_bytes = *n;
                s
            })
            .collect();
        rollup(b, &samples, &[]).unwrap().volumes[0].avail_avg
    };
    assert_eq!(mean(&[7]), 7);
    assert_eq!(mean(&[1, 2]), 1);
    assert_eq!(mean(&[10, 0, 0]), 3);
    assert_eq!(mean(&[0, 0, 11]), 3);
    assert_eq!(mean(&[100, 1, 50, 2, 3]), 31);
    assert_eq!(mean(&[u64::MAX; 5]), u64::MAX);
    assert_eq!(mean(&[u64::MAX, 0, u64::MAX]), u64::MAX / 3 * 2);
    let swings: Vec<u64> = (0u64..40).map(|i| i.wrapping_mul(0x9E37_79B9_7F4A_7C15)).collect();
    let sum: u128 = swings.iter().map(|n| *n as u128).sum();
    assert_eq!(mean(&swings) as u128, sum / 40);
}
