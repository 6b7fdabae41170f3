use banshee_core::number::Real;
use banshee_core::rates::{self, RateGap, TickShare};
use banshee_core::sys::SysReading;

fn num(x: f64) -> Real {
    Real::from_bits(x.to_bits())
}

#[derive(Debug, PartialEq)]
struct Rates {
    elapsed_secs: f64,
    swapins_per_sec: f64,
    swapouts_per_sec: f64,
    cpu_utilization: Option<f64>,
}

fn counter_rates(prev: &SysReading, curr: &SysReading, elapsed: f64) -> Result<Rates, RateGap> {
    let r = rates::counter_rates(prev, curr, num(elapsed))?;
    Ok(Rates {
        elapsed_secs: f64::from_bits(r.elapsed_secs.bits),
        swapins_per_sec: r.swapins as f64 / elapsed,
        swapouts_per_sec: r.swapouts as f64 / elapsed,
        cpu_utilization: r.cpu_utilization.map(|s| s.busy as f64 / s.total as f64),
    })
}

fn base() -> SysReading {
    SysReading {
        ncpu: 8,
        mem_total_bytes: 25_769_803_776,
        page_size: 16384,
        boot_time_secs: 1_788_122_573,
        load_1m: num(1.0),
        load_5m: num(1.0),
        load_15m: num(1.0),
        swap_total_bytes: 8_589_934_592,
        swap_used_bytes: 1_000_000,
        pages_free: 100_000,
        pages_active: 100_000,
        pages_inactive: 100_000,
        pages_wired: 100_000,
        pages_speculative: 0,
        pages_compressor: 0,
        pages_purgeable: 0,
        pages_external: 0,
        swapins: 1_000_000,
        swapouts: 2_000_000,
        memory_pressure_level: 1,
        thermal_pressure_level: Some(0),
        cpu_speed_limit_percent: None,
        cpu_ticks_total: Some(1_000_000),
        cpu_ticks_idle: Some(600_000),
        kernel_free_percent: Some(50),
        jetsam_kills: Some(0),
    }
}

#[test]
fn computes_per_second_rates_over_the_elapsed_interval() {
    let prev = base();
    let mut curr = base();
    curr.swapins += 1500;
    curr.swapouts += 300;

    let r = counter_rates(&prev, &curr, 15.0).unwrap();
    assert_eq!(r.swapins_per_sec, 100.0);
    assert_eq!(r.swapouts_per_sec, 20.0);
    assert_eq!(r.elapsed_secs, 15.0);
}

#[test]
fn computes_cpu_utilization_from_the_tick_delta() {
    let prev = base();
    let mut curr = base();
    curr.cpu_ticks_total = Some(1_100_000);
    curr.cpu_ticks_idle = Some(640_000);
    let r = counter_rates(&prev, &curr, 15.0).unwrap();
    assert_eq!(r.cpu_utilization, Some(0.6));
}

#[test]
fn a_high_run_queue_over_idle_cores_reads_as_low_utilization() {
    let mut prev = base();
    let mut curr = base();
    for r in [&mut prev, &mut curr] {
        r.load_1m = num(26.0);
    }
    curr.cpu_ticks_total = Some(1_100_000);
    curr.cpu_ticks_idle = Some(692_000);
    let r = counter_rates(&prev, &curr, 15.0).unwrap();
    assert!(
        r.cpu_utilization.is_some_and(|u| (u - 0.08).abs() < 1e-9),
        "got {:?}",
        r.cpu_utilization
    );
}

#[test]
fn missing_ticks_void_only_utilization_not_the_swap_rates() {
    let prev = base();
    let mut curr = base();
    curr.swapins += 1500;
    curr.cpu_ticks_total = None;
    curr.cpu_ticks_idle = None;
    let r = counter_rates(&prev, &curr, 15.0).unwrap();
    assert_eq!(r.cpu_utilization, None);
    assert_eq!(r.swapins_per_sec, 100.0);
}

#[test]
fn a_zero_tick_delta_yields_no_utilization() {
    let prev = base();
    let mut curr = base();
    curr.cpu_ticks_total = prev.cpu_ticks_total;
    curr.cpu_ticks_idle = prev.cpu_ticks_idle;
    let r = counter_rates(&prev, &curr, 15.0).unwrap();
    assert_eq!(r.cpu_utilization, None);
}

#[test]
fn a_reboot_invalidates_the_delta_rather_than_reporting_a_negative_rate() {
    let prev = base();
    let mut curr = base();
    curr.boot_time_secs = prev.boot_time_secs + 500;
    curr.swapins = 12;
    curr.swapouts = 3;

    assert_eq!(
        counter_rates(&prev, &curr, 15.0),
        Err(RateGap::Rebooted),
        "a reboot must not produce a rate"
    );
}

#[test]
fn a_reboot_is_diagnosed_as_a_reboot_not_as_a_counter_fault() {
    let prev = base();
    let mut curr = base();
    curr.boot_time_secs += 1;
    curr.swapins = 0;
    curr.swapouts = 0;
    assert_eq!(counter_rates(&prev, &curr, 15.0), Err(RateGap::Rebooted));
}

#[test]
fn counters_going_backwards_without_a_reboot_is_a_gap_not_a_negative_rate() {
    let prev = base();
    let mut curr = base();
    curr.swapins -= 5;
    assert_eq!(
        counter_rates(&prev, &curr, 15.0),
        Err(RateGap::CounterWentBackwards)
    );
}

#[test]
fn a_regression_in_either_counter_is_caught() {
    let prev = base();
    let mut curr = base();
    curr.swapins += 100;
    curr.swapouts -= 1;
    assert_eq!(
        counter_rates(&prev, &curr, 15.0),
        Err(RateGap::CounterWentBackwards)
    );
}

#[test]
fn non_positive_elapsed_time_is_refused() {
    let prev = base();
    let mut curr = base();
    curr.swapins += 100;
    for bad in [0.0, -15.0, f64::NAN, f64::INFINITY] {
        assert_eq!(
            counter_rates(&prev, &curr, bad),
            Err(RateGap::NoElapsedTime),
            "elapsed {bad} must be refused"
        );
    }
}

#[test]
fn the_share_of_busy_ticks_is_exact() {
    let prev = base();
    let mut curr = base();
    curr.cpu_ticks_total = Some(1_100_000);
    curr.cpu_ticks_idle = Some(640_000);
    assert_eq!(
        rates::cpu_utilization(&prev, &curr),
        Some(TickShare { busy: 60_000, total: 100_000 })
    );
}

#[test]
fn idle_ticks_that_outrun_the_total_make_no_negative_share() {
    let prev = base();
    let mut curr = base();
    curr.cpu_ticks_total = Some(1_000_010);
    curr.cpu_ticks_idle = Some(600_020);
    if let Some(s) = rates::cpu_utilization(&prev, &curr) {
        assert!(s.busy <= s.total);
    }
}

#[test]
fn available_memory_counts_what_can_be_reclaimed() {
    let mut r = base();
    r.pages_free = 10;
    r.pages_speculative = 1;
    r.pages_purgeable = 2;
    r.pages_external = 3;
    assert_eq!(r.free_bytes(), 10 * 16384);
    assert_eq!(r.available_bytes(), 16 * 16384);
}
