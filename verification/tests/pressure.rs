#![allow(dead_code)]
use banshee_core::census::Census;
use banshee_core::number::Real;
use banshee_core::pressure::config::{Dimension, PressureConfig, ALL_DIMENSIONS};
use banshee_core::pressure::deltas::{
    anchor_index, consumer_rows, last_n_before, summarise, CensusSummary, DeltaFigures,
    DeltaNumbers, DeltaWords,
};
use banshee_core::pressure::disk::{severity_of, Descent, Floor, Horizons};
use banshee_core::pressure::band::{Band, BandSpec};
use banshee_core::pressure::findings::{action_for, build_findings};
use banshee_core::pressure::evaluate::{banded_series, window_slice, Figures, Numbers};
use banshee_core::pressure::headroom::{FreeSlots, MachineFacts};
use banshee_core::pressure::series::{median_interval, series_for, Measure, Point, Series};
use banshee_core::pressure::verdict::Pressure;
use banshee_core::pressure::who::{sessions_by_program, suspects, Cost, ProgramGroup, Suspect};
use banshee_core::pressure::wording::{Demand, Words};
use banshee_core::sample::Sample;
use banshee_core::time::Timestamp;

use banshee_core::census::{
    AgentSession, AppGroup, CpuConsumer, HelperRollup, MonitorAgent, MonitorTotal, OrphanCensus,
    OrphanProgram,
};
use banshee_core::pressure::config::{Source, Unit};
use banshee_core::pressure::deltas::{
    self, ConsumerDelta, ConsumerKind, Deltas, DimensionDelta, VerdictDelta,
};
use banshee_core::pressure::episode::{AlertEpisode, EpisodePeak, EpisodeState};
use banshee_core::pressure::level::{Level, Verdict};
use banshee_core::pressure::series;
use banshee_core::pressure::who::{self, who_line, Consumer};
use banshee_core::pressure::assess::assess_with_ids;
use banshee_core::pressure::{self, wording, Action, Assessment, DimensionReading};
use banshee_core::sample::VolumeSample;

/// A double, carried by its bits.
fn num(x: f64) -> Real {
    Real::from_bits(x.to_bits())
}

/// The double that a number carries.
fn float(x: Real) -> f64 {
    f64::from_bits(x.bits)
}

/// the value of one observation.
fn value_of(m: &Measure) -> f64 {
    match m {
        Measure::Whole(n) => *n as f64,
        Measure::Share(s) => s.busy as f64 / s.total as f64,
        Measure::Churn { swapins, swapouts, millis } => {
            let elapsed = *millis as f64 / 1000.0;
            *swapins as f64 / elapsed + *swapouts as f64 / elapsed
        }
        Measure::Days { secs } => *secs as f64 / 86_400.0,
        Measure::Pages { pages, page_size } => *pages as f64 * *page_size as f64,
        Measure::Given(v) => float(*v),
    }
}

/// a cadence times the tolerance, rounded up.
fn gap_secs(cadence: u64, tolerance: f64) -> u64 {
    (cadence as f64 * tolerance).ceil().max(1.0) as u64
}

/// the tolerance times the median interval, rounded up.
fn calibrated_secs(points: &Vec<Point>, tolerance: f64) -> u64 {
    match median_interval(points) {
        Some(median) => {
            let c = (median as f64 * tolerance).ceil();
            if c.is_finite() && c >= 0.0 {
                c as u64
            } else {
                u64::MAX
            }
        }
        None => 0,
    }
}

/// the lines to leave a band by.
fn spec_of(yellow: f64, red: f64, margin: f64, confirm: usize, inverted: bool) -> BandSpec {
    let (y, r) = (num(yellow), num(red));
    if inverted {
        BandSpec::falling(y, r, num(yellow + margin), num(red + margin), confirm)
    } else {
        BandSpec::rising(y, r, num(yellow - margin), num(red - margin), confirm)
    }
}

/// bytes in digits.
fn fmt_bytes(b: f64) -> String {
    let abs = b.abs();
    if abs >= 1e9 {
        format!("{:.1} GB", b / 1e9)
    } else if abs >= 1e6 {
        format!("{:.0} MB", b / 1e6)
    } else if abs >= 1e3 {
        format!("{:.0} KB", b / 1e3)
    } else {
        format!("{b:.0} B")
    }
}

/// a duration in digits.
fn fmt_duration(secs: f64) -> String {
    if secs < 3600.0 {
        format!("{:.0} min", secs / 60.0)
    } else if secs < 86_400.0 {
        format!("{:.1} hours", secs / 3600.0)
    } else {
        format!("{:.1} days", secs / 86_400.0)
    }
}

/// the value of a dimension in digits.
fn amount(d: Dimension, value: f64) -> String {
    match d {
        Dimension::Memory | Dimension::Swap | Dimension::Disk | Dimension::Compressor => {
            fmt_bytes(value)
        }
        Dimension::Cpu => format!("{:.0}", value * 100.0),
        Dimension::Corporate | Dimension::Uptime => format!("{value:.1}"),
        _ => format!("{value:.0}"),
    }
}

/// the figures of one dimension in digits.
fn words_of(d: Dimension, value: f64, trend: Option<f64>, swap_total: Option<u64>) -> Words {
    let t = trend.unwrap_or(0.0);
    let pool = swap_total.unwrap_or(0) as f64;
    Words {
        amount: amount(d, value),
        whole: format!("{value:.0}"),
        pace: match d {
            Dimension::Cpu => format!("{:.0}", (t * 60.0 * 100.0).abs()),
            Dimension::Memory => fmt_bytes(-t * 60.0),
            _ => fmt_bytes(t * 60.0),
        },
        until_full: fmt_duration(value / -t),
        pool_share: format!("{:.0}", (value / pool) * 100.0),
        pool_left: fmt_duration((pool - value).max(0.0) / t),
        pool: fmt_bytes(pool),
        level: value as i64,
    }
}

/// the lifetime CPU rate of each group.
fn rates_of(census: &Census) -> Vec<Real> {
    let groups: Vec<ProgramGroup> = sessions_by_program(census, false);
    groups
        .iter()
        .map(|g| {
            let mut cpu = 0.0;
            for c in &g.cpu_secs {
                cpu += float(*c);
            }
            num(cpu * 100.0 / g.life_secs as f64)
        })
        .collect()
}

/// the measure of each suspect in digits.
fn measures_of(s: &[Suspect]) -> Vec<String> {
    s.iter()
        .map(|x| match x.cost {
            Cost::Bytes => fmt_bytes(float(x.measure)),
            Cost::PercentOfOneCore => format!("{:.0}", float(x.measure)),
        })
        .collect()
}

/// The points from `from` on, in seconds since the first of them.
fn run(points: &[Point], from: usize) -> Vec<Spot> {
    let tail = &points[from..];
    let base = tail[0].at.secs() as f64;
    tail.iter()
        .map(|p| Spot { t_secs: p.at.secs() as f64 - base, value: float(p.value) })
        .collect()
}

/// change per second over the unbroken tail.
fn trend_of(series: &Series) -> Option<f64> {
    let from = series.contiguous_tail();
    if series.points.len() - from < 2 {
        return None;
    }
    Trend::fit(&run(&series.points, from)).map(|t| t.slope_per_sec)
}

/// the descent at each sample of the stretch.
fn descents_of(points: &[Point]) -> Vec<Descent> {
    (0..points.len())
        .map(|i| {
            let slope = slope_per_sec(&points[..=i]);
            Descent {
                slope: slope.map(num),
                quotient: num(float(points[i].value) / -slope.unwrap_or(0.0)),
            }
        })
        .collect()
}

/// the arithmetic for one evaluation.
fn numbers(samples: &[Sample], censuses: &[Census], config: &PressureConfig) -> Numbers {
    let window = window_slice(samples, config);
    let swap_total = window.last().map(|s| s.swap_total_bytes);
    let rates = censuses.last().map(rates_of).unwrap_or_default();
    let mut disk = Horizons {
        descents: Vec::new(),
        bytes_term: num(0.0),
        time_term: num(0.0),
        burst: Floor { band: Band::Green, held: 0 },
        burst_note: None,
        week: Floor { band: Band::Green, held: 0 },
        week_note: None,
    };
    let figures = ALL_DIMENSIONS.map(|d| {
        let history = if d == Dimension::Disk { samples } else { window };
        let values: Vec<Real> = series_for(d, history, censuses, config)
            .iter()
            .map(|o| num(value_of(&o.measure)))
            .collect();
        let mut series = banded_series(d, history, censuses, config, &values, 0);
        series.calibrated_secs = calibrated_secs(&series.points, float(config.gap_tolerance));
        let value = series.points.last().map_or(0.0, |p| float(p.value));
        let spec = config.spec(d);
        let (yellow, red) = (float(spec.yellow), float(spec.red));
        let span = if spec.inverted { yellow - red } else { red - yellow };
        let past = if spec.inverted { yellow - value } else { value - yellow };
        let trend = if d == Dimension::Disk {
            let n = series.points.len();
            let from = series.contiguous_tail().max(n.saturating_sub(config.window_samples));
            disk.descents = descents_of(&series.points[from..]);
            disk.bytes_term = num((red / value.max(1.0)).powi(2));
            let last = disk.descents.last();
            let left = last.map_or(0.0, |x| float(x.quotient));
            let line = float(config.disk_projection_red_secs);
            disk.time_term = num(line / left.max(1.0));
            last.and_then(|x| x.slope).map(float)
        } else {
            trend_of(&series)
        };
        Figures {
            values,
            calibrated_secs: series.calibrated_secs,
            span: num(span),
            ratio: num(past / span),
            trend: trend.map(num),
            words: words_of(d, value, trend, swap_total),
            measures: censuses.last().map_or(Vec::new(), |c| {
                measures_of(&suspects(d, c, &rates, config))
            }),
        }
    });
    let per_core = window.last().map_or(0.0, |s| {
        if s.ncpu == 0 {
            0.0
        } else {
            float(s.load1m) / f64::from(s.ncpu)
        }
    });
    Numbers {
        figures,
        demand: Demand { per_core: num(per_core), text: format!("{per_core:.1}") },
        rates,
        disk,
    }
}

/// the free capacity of the two resources a worker consumes.
fn free_slots(p: &Pressure, m: Option<MachineFacts>, config: &PressureConfig) -> FreeSlots {
    let Some(m) = m else {
        return FreeSlots { cpu: 0, memory: 0 };
    };
    let busy = p.reading(Dimension::Cpu).map_or(0.0, |r| float(r.value));
    let available = p.reading(Dimension::Memory).map_or(0.0, |r| float(r.value));
    let kept = float(config.headroom_memory_reserve_fraction).clamp(0.0, 1.0);
    let spendable = (available - m.mem_total_bytes as f64 * kept).max(0.0);
    FreeSlots {
        cpu: (f64::from(m.cores) * (1.0 - busy)).max(0.0).floor() as u32,
        memory: (spendable / config.headroom_memory_per_slot_bytes as f64).floor() as u32,
    }
}

/// the digits of a change.
fn delta_words(d: Dimension, then: f64, now: f64) -> DeltaWords {
    let delta = now - then;
    DeltaWords {
        was: amount(d, then),
        now: amount(d, now),
        change: match d {
            Dimension::Cpu => format!("{:+.0}", delta * 100.0),
            Dimension::Corporate => format!("{delta:+.1}"),
            _ => format!("{delta:+.0}"),
        },
        size: fmt_bytes(delta.abs()),
        then_level: then as i64,
        now_level: now as i64,
    }
}

/// the size that is told of each row.
fn sizes_of(then: &CensusSummary, now: &CensusSummary) -> Vec<String> {
    consumer_rows(then, now)
        .iter()
        .map(|r| match r.delta_bytes() {
            0 => fmt_bytes(r.now_bytes as f64),
            delta => fmt_bytes(delta.unsigned_abs() as f64),
        })
        .collect()
}

/// the arithmetic for one comparison.
fn delta_numbers(
    now: Timestamp,
    then_at: Timestamp,
    stored: Option<&CensusSummary>,
    samples: &[Sample],
    censuses: &[Census],
    config: &PressureConfig,
) -> DeltaNumbers {
    let figures = ALL_DIMENSIONS.map(|d| {
        let values: Vec<Real> = series_for(d, samples, censuses, config)
            .iter()
            .map(|o| num(value_of(&o.measure)))
            .collect();
        let series = banded_series(d, samples, censuses, config, &values, 0);
        let times: Vec<Timestamp> = series.points.iter().map(|p| p.at).collect();
        let then = anchor_index(&times, then_at)
            .map_or(0.0, |i| float(series.points[i].value));
        let is = series.points.last().map_or(0.0, |p| float(p.value));
        DeltaFigures {
            calibrated_secs: calibrated_secs(&series.points, float(config.gap_tolerance)),
            values,
            delta: num(is - then),
            words: delta_words(d, then, is),
        }
    });
    let sampled: Vec<Timestamp> = samples.iter().map(|s| s.sampled_at).collect();
    let was = match anchor_index(&sampled, then_at) {
        Some(i) => {
            let seen = last_n_before(censuses, samples[i].sampled_at, 3);
            numbers(&samples[..=i], seen, config)
        }
        None => numbers(&[], &[], config),
    };
    let taken: Vec<Timestamp> = censuses.iter().map(|c| c.taken_at).collect();
    let then = match stored {
        Some(s) => Some(s.copied()),
        None => anchor_index(&taken, then_at).map(|i| summarise(&censuses[i])),
    };
    DeltaNumbers {
        figures,
        was,
        now: numbers(samples, last_n_before(censuses, now, 3), config),
        sizes: match (then, censuses.last()) {
            (Some(then), Some(c)) => sizes_of(&then, &summarise(c)),
            _ => Vec::new(),
        },
    }
}

/// One observation.
#[derive(Debug, Clone, Copy, PartialEq)]
struct Spot {
    pub t_secs: f64,
    pub value: f64,
}

/// A line fitted through some observations.
#[derive(Debug, Clone, Copy, PartialEq)]
struct Trend {
    /// Change per second. Negative means falling.
    pub slope_per_sec: f64,
}

impl Trend {
    /// least squares of the values against time. `None` where a
    /// slope would mean nothing: under two points, or all at one instant.
    pub fn fit(points: &[Spot]) -> Option<Trend> {
        if points.len() < 2 {
            return None;
        }
        let n = points.len() as f64;
        let mean_t = points.iter().map(|p| p.t_secs).sum::<f64>() / n;
        let mean_v = points.iter().map(|p| p.value).sum::<f64>() / n;
        let mut sxx = 0.0;
        let mut sxy = 0.0;
        for p in points {
            let dt = p.t_secs - mean_t;
            sxx += dt * dt;
            sxy += dt * (p.value - mean_v);
        }
        if sxx == 0.0 {
            return None;
        }
        let slope = sxy / sxx;
        Some(Trend {
            slope_per_sec: slope,
        })
    }

}

/// the median of the pairwise slopes, which one rebound does not
/// flip.
fn slope_per_sec(points: &[Point]) -> Option<f64> {
    let mut slopes = Vec::new();
    for (i, a) in points.iter().enumerate() {
        for b in &points[i + 1..] {
            let dt = ((b.at.nanos - a.at.nanos) / 1_000_000) as f64 / 1000.0;
            if dt > 0.0 {
                slopes.push((float(b.value) - float(a.value)) / dt);
            }
        }
    }
    if slopes.is_empty() {
        return None;
    }
    slopes.sort_unstable_by(|a, b| a.partial_cmp(b).unwrap_or(std::cmp::Ordering::Equal));
    let n = slopes.len();
    Some(if n % 2 == 1 {
        slopes[n / 2]
    } else {
        (slopes[n / 2 - 1] + slopes[n / 2]) / 2.0
    })
}

const DATA_VOLUME: &str = "/System/Volumes/Data";

const BOOT: i64 = 1_788_100_000;

fn at(secs: i64) -> Timestamp {
    Timestamp::from_secs(BOOT + secs)
}

fn cfg() -> PressureConfig {
    PressureConfig::default()
}

fn rising(yellow: f64, red: f64, margin: f64, confirm: usize) -> BandSpec {
    spec_of(yellow, red, margin, confirm, false)
}

fn evaluate(
    now: Timestamp,
    samples: &[Sample],
    censuses: &[Census],
    config: &PressureConfig,
) -> Pressure {
    pressure::evaluate(now, samples, censuses, config, &numbers(samples, censuses, config))
}

fn assess(
    now: Timestamp,
    samples: &[Sample],
    censuses: &[Census],
    recent: &[AlertEpisode],
    config: &PressureConfig,
) -> Assessment {
    let n = numbers(samples, censuses, config);
    let p = pressure::evaluate(now, samples, censuses, config, &n);
    let machine = samples
        .last()
        .map(|s| MachineFacts { cores: s.ncpu, mem_total_bytes: s.mem_total_bytes });
    pressure::assess(now, samples, censuses, recent, config, &n, free_slots(&p, machine, config))
}

fn attribute(d: Dimension, c: &Census, config: &PressureConfig) -> Vec<Consumer> {
    let rates = rates_of(c);
    let measures = measures_of(&suspects(d, c, &rates, config));
    who::attribute(d, c, &rates, &measures, config)
}

fn windowed_peak(points: &[(Timestamp, f64)], window_secs: u64) -> Vec<(Timestamp, f64)> {
    let points: Vec<Point> =
        points.iter().map(|(at, v)| Point { at: *at, value: num(*v) }).collect();
    series::windowed_peak(&points, window_secs).iter().map(|p| (p.at, float(p.value))).collect()
}

fn detail_for(
    d: Dimension,
    value: f64,
    trend: Option<f64>,
    demand: Option<f64>,
    swap_total: Option<u64>,
    config: &PressureConfig,
) -> String {
    let words = words_of(d, value, trend, swap_total);
    let demand = demand.map(|q| Demand { per_core: num(q), text: format!("{q:.1}") });
    wording::detail_for(
        d,
        num(value),
        trend.map(num),
        demand.as_ref(),
        swap_total,
        config,
        &words,
    )
}

fn message_for(r: &DimensionReading, swap_total: Option<u64>) -> String {
    let words =
        words_of(r.dimension, float(r.value), r.trend_per_sec.map(float), swap_total);
    wording::message_for(r, swap_total, &words)
}

/// A healthy sample, 20% busy, `t` seconds after boot.
fn sample(t: i64) -> Sample {
    let (cpu_ticks_total, cpu_ticks_idle) = cpu_ticks_for(t, 0.20);
    Sample {
        id: 1,
        sampled_at: at(t),
        boot_time_secs: BOOT,
        ncpu: 8,
        mem_total_bytes: 25_769_803_776,
        page_size: 16384,
        load1m: num(4.0),
        load5m: num(4.0),
        load15m: num(4.0),
        swap_total_bytes: 8_589_934_592,
        swap_used_bytes: 1_000_000_000,
        pages_free: 400_000,
        pages_active: 200_000,
        pages_inactive: 200_000,
        pages_wired: 100_000,
        pages_speculative: 0,
        pages_compressor: 10_000,
        pages_purgeable: 0,
        pages_external: 0,
        swapins: 1_000,
        swapouts: 2_000,
        memory_pressure_level: 1,
        thermal_pressure_level: Some(0),
        cpu_speed_limit_percent: None,
        cpu_ticks_total,
        cpu_ticks_idle,
        kernel_free_percent: Some(50),
        jetsam_kills: Some(0),
        volumes: vec![VolumeSample {
            mount_point: DATA_VOLUME.into(),
            total_bytes: 494_384_795_648,
            avail_bytes: 100_000_000_000,
        }],
    }
}

/// `n` healthy samples, 15 seconds apart, ending `end_t` seconds after boot.
fn healthy(n: usize, end_t: i64) -> Vec<Sample> {
    (0..n).map(|i| sample(end_t - ((n - 1 - i) as i64 * 15))).collect()
}

/// Ticks the whole machine accrues per second.
const CPU_RATE: u64 = 10_000;

/// The counters of a machine that has been `util` busy since boot.
fn cpu_ticks_for(t: i64, util: f64) -> (Option<u64>, Option<u64>) {
    let t = t.max(0) as u64;
    let total = t * CPU_RATE;
    let idle = (t as f64 * CPU_RATE as f64 * (1.0 - util)).round() as u64;
    (Some(total), Some(idle))
}

fn set_cpu(samples: &mut [Sample], util: f64) {
    for s in samples.iter_mut() {
        let (total, idle) = cpu_ticks_for(s.sampled_at.secs() as i64 - BOOT, util);
        s.cpu_ticks_total = total;
        s.cpu_ticks_idle = idle;
    }
}

/// One utilization per interval.
fn with_cpu_utils(samples: &mut [Sample], utils: &[f64]) {
    assert_eq!(utils.len(), samples.len() - 1);
    let budget: u64 = 100_000;
    let (mut total, mut idle) = (0u64, 0u64);
    samples[0].cpu_ticks_total = Some(total);
    samples[0].cpu_ticks_idle = Some(idle);
    for (i, &u) in utils.iter().enumerate() {
        let busy = (budget as f64 * u).round() as u64;
        total += budget;
        idle += budget - busy;
        samples[i + 1].cpu_ticks_total = Some(total);
        samples[i + 1].cpu_ticks_idle = Some(idle);
    }
}

/// One rate per interval of 15 seconds.
fn with_thrash_rates(samples: &mut [Sample], rates: &[f64]) {
    assert_eq!(rates.len(), samples.len() - 1);
    let mut swapins = 1_000u64;
    let mut swapouts = 2_000u64;
    samples[0].swapins = swapins;
    samples[0].swapouts = swapouts;
    for (i, &rate) in rates.iter().enumerate() {
        let per_counter = (rate * 15.0 / 2.0).round() as u64;
        swapins += per_counter;
        swapouts += per_counter;
        samples[i + 1].swapins = swapins;
        samples[i + 1].swapouts = swapouts;
    }
}

fn census(t: i64, stale: u32, orphans: u32, managed_agents: f64, life: u64) -> Census {
    let sessions = (0..stale)
        .map(|i| AgentSession {
            pid: 1000 + i,
            program: "aider".into(),
            rss_bytes: 100 * 1024 * 1024,
            age_secs: 8 * 86_400,
            age_days: 8,
            cpu_secs: num(100.0),
            tty: format!("ttys{i:03}"),
            is_stale: true,
            cwd: None,
        })
        .collect();
    Census {
        id: 2,
        taken_at: at(t),
        total_procs: 900,
        agent_sessions: sessions,
        ide_helpers: HelperRollup { count: 2, rss_bytes: 0 },
        orphans: OrphanCensus {
            total_count: 150,
            total_rss_bytes: 1_000_000_000,
            orphan_count: orphans,
            orphan_rss_bytes: 10_000_000,
            orphans_by_program: Vec::new(),
        },
        tmux_sessions: Vec::new(),
        app_groups: Vec::new(),
        monitor_agents: Vec::new(),
        monitor_total: MonitorTotal {
            proc_count: 13,
            rss_bytes: 577_000_000,
            cpu_secs_total: num(1000.0),
            percent_of_one_core: num(managed_agents),
            longest_life_secs: life,
        },
        tmux_available: true,
        cpu_consumers: Vec::new(),
        pressure_kills: Some(0),
    }
}

fn healthy_census(t: i64) -> Census {
    census(t, 0, 2, 49.2, 78_000)
}

fn config_censuses() -> Vec<Census> {
    Vec::new()
}

/// A census of a busy machine, with something of every kind.
fn full_census() -> Census {
    Census {
        id: 3,
        taken_at: at(0),
        total_procs: 842,
        agent_sessions: vec![
            AgentSession {
                pid: 501,
                program: "aider".into(),
                rss_bytes: 914_000_000,
                age_secs: 700_000,
                age_days: 8,
                cpu_secs: num(9_500.0),
                tty: "ttys001".into(),
                is_stale: true,
                cwd: None,
            },
            AgentSession {
                pid: 502,
                program: "kiro-cli".into(),
                rss_bytes: 412_000_000,
                age_secs: 40_000,
                age_days: 0,
                cpu_secs: num(800.0),
                tty: "ttys002".into(),
                is_stale: false,
                cwd: Some("/tmp/work".into()),
            },
        ],
        ide_helpers: HelperRollup { count: 48, rss_bytes: 6_400_000_000 },
        orphans: OrphanCensus {
            total_count: 150,
            total_rss_bytes: 4_000_000_000,
            orphan_count: 23,
            orphan_rss_bytes: 1_600_000_000,
            orphans_by_program: vec![
                OrphanProgram {
                    program: "mcp-server-fetch".into(),
                    count: 14,
                    rss_bytes: 1_100_000_000,
                },
                OrphanProgram {
                    program: "language-server".into(),
                    count: 9,
                    rss_bytes: 537_000_000,
                },
            ],
        },
        tmux_sessions: vec!["main".into()],
        app_groups: vec![
            AppGroup { name: "Slack".into(), proc_count: 14, rss_bytes: 2_100_000_000 },
            AppGroup { name: "Chrome".into(), proc_count: 128, rss_bytes: 8_100_000_000 },
        ],
        monitor_agents: vec![
            MonitorAgent {
                name: "log-shipper".into(),
                proc_count: 2,
                percent_of_one_core: num(14.6),
                longest_life_secs: 109,
            },
            MonitorAgent {
                name: "endpoint-shield".into(),
                proc_count: 6,
                percent_of_one_core: num(31.4),
                longest_life_secs: 78_000,
            },
        ],
        monitor_total: MonitorTotal {
            proc_count: 7,
            rss_bytes: 577_000_000,
            cpu_secs_total: num(22_000.0),
            percent_of_one_core: num(29.2),
            longest_life_secs: 78_000,
        },
        tmux_available: true,
        cpu_consumers: vec![
            CpuConsumer {
                name: "swift-frontend".into(),
                proc_count: 1,
                percent_of_one_core: num(47.0),
            },
            CpuConsumer {
                name: "Chrome Helper (Renderer)".into(),
                proc_count: 4,
                percent_of_one_core: num(312.0),
            },
            CpuConsumer { name: "aider".into(), proc_count: 2, percent_of_one_core: num(88.0) },
        ],
        pressure_kills: Some(0),
    }
}

fn who_of(d: Dimension, c: &Census, config: &PressureConfig) -> Vec<String> {
    attribute(d, c, config).iter().map(|c| c.to_text()).collect()
}

fn open_episode(d: Dimension, state: EpisodeState, started: i64) -> AlertEpisode {
    AlertEpisode {
        id: 77,
        dimension: d,
        started_at: at(started),
        ended_at: None,
        peak: EpisodePeak {
            band: Band::Red,
            level: Level::Wailing,
            severity: num(2.0),
            at: at(started),
            message: "was red".into(),
            who_line: None,
        },
        census_at_peak: None,
        suppressed: 0,
        state,
        last_notified_at: Some(at(started)),
        recovering_since: if state == EpisodeState::Recovering {
            Some(at(started + 60))
        } else {
            None
        },
        projection_bracket_secs: None,
    }
}

fn dr(dimension: Dimension, value: f64, trend: Option<f64>) -> DimensionReading {
    DimensionReading {
        dimension,
        key: dimension.key().to_string(),
        label: dimension.label().to_string(),
        band: Band::Red,
        value: num(value),
        unit: dimension.unit(),
        severity: num(2.0),
        held_secs: 0,
        observation_gap_secs: None,
        trend_per_sec: trend.map(num),
        detail: String::new(),
        advisory: dimension.is_advisory(),
        pending: None,
        recovering: false,
    }
}


#[test]
fn an_empty_history_is_checking() {
    let p = evaluate(at(0), &[], &[], &cfg());
    assert_eq!(p.level, Level::Checking);
    assert_eq!(p.glyph, "🫧");
    assert!(p.findings.is_empty(), "no findings without data");
    assert_eq!(p.sample_count, 0);
}

#[test]
fn a_single_sample_is_still_checking() {
    let p = evaluate(at(15), &healthy(1, 15), &[], &cfg());
    assert_eq!(p.level, Level::Checking);
    assert!(p.findings.is_empty());
}

#[test]
fn two_healthy_samples_are_enough_for_a_verdict() {
    let p = evaluate(at(15), &healthy(2, 15), &[], &cfg());
    assert_eq!(p.level, Level::Quiet);
    assert_eq!(p.glyph, "😴");
    assert!(p.findings.is_empty());
}

#[test]
fn samples_without_a_census_still_produce_a_verdict() {
    let p = evaluate(at(60), &healthy(5, 60), &[], &cfg());
    assert_ne!(p.level, Level::Checking);
    assert!(p.reading(Dimension::Cpu).is_some());
    assert!(
        p.reading(Dimension::Agents).is_none(),
        "no census, no census-derived dimensions"
    );
    assert_eq!(p.census_count, 0);
}

#[test]
fn the_window_is_trimmed_to_the_configured_length() {
    let c = PressureConfig {
        window_samples: 5,
        ..cfg()
    };
    let p = evaluate(at(1500), &healthy(100, 1500), &[], &c);
    assert_eq!(p.sample_count, 5);
}

#[test]
fn a_healthy_machine_reports_every_dimension_green() {
    let p = evaluate(at(300), &healthy(21, 300), &[healthy_census(300)], &cfg());
    assert_eq!(p.level, Level::Quiet);
    for r in &p.dimensions {
        assert_eq!(
            r.band,
            Band::Green,
            "{:?} should be green: {r:?}",
            r.dimension
        );
    }
    assert_eq!(p.dimensions.len(), 14, "{:?}", p.dimensions);
}

#[test]
fn cpu_is_banded_on_measured_utilization_not_load() {
    let p = evaluate(at(300), &healthy(21, 300), &[], &cfg());
    let cpu = p.reading(Dimension::Cpu).unwrap();
    assert_eq!(cpu.band, Band::Green);
    assert!(
        (float(cpu.value) - 0.20).abs() < 1e-9,
        "20% busy from the tick counters"
    );
    assert!(cpu.detail.contains("20% busy"), "got {:?}", cpu.detail);
    assert!(cpu.detail.contains("0.5× per core"), "got {:?}", cpu.detail);
}

#[test]
fn a_deep_run_queue_over_idle_cores_is_contention_not_saturation() {
    let mut idle = healthy(21, 300);
    for s in &mut idle {
        s.load1m = num(28.0);
    }
    set_cpu(&mut idle, 0.20);
    let p = evaluate(at(300), &idle, &[], &cfg());
    let cpu = p.reading(Dimension::Cpu).unwrap();
    assert_eq!(
        cpu.band,
        Band::Green,
        "idle cores are not saturated, whatever the run queue: {cpu:?}"
    );
    assert!(
        cpu.detail.contains("scheduling contention"),
        "the words name contention, not saturation: {:?}",
        cpu.detail
    );
    assert!(
        cpu.detail.contains("3.5× per core"),
        "and still name the run queue: {:?}",
        cpu.detail
    );
    assert_ne!(p.source, Some(Source::Cpu), "CPU is not the story");
    assert!(
        !p.glyph.contains('🔥'),
        "no fire over idle cores: {:?}",
        p.glyph
    );
    assert!(
        p.findings.iter().all(|f| f.dimension != Dimension::Cpu),
        "a green CPU produces no finding, so no saturation alarm: {:?}",
        p.findings
    );

    let mut busy = healthy(21, 300);
    for s in &mut busy {
        s.load1m = num(28.0);
    }
    set_cpu(&mut busy, 0.98);
    let p = evaluate(at(300), &busy, &[], &cfg());
    let cpu = p.reading(Dimension::Cpu).unwrap();
    assert_eq!(cpu.band, Band::Red, "98% busy IS saturation: {cpu:?}");
    assert!(cpu.detail.contains("98% busy"), "got {:?}", cpu.detail);
    let f = p
        .findings
        .iter()
        .find(|f| f.dimension == Dimension::Cpu)
        .expect("a red cpu dimension is a finding");
    assert!(
        f.message.contains("saturated"),
        "the finding earns the word: {:?}",
        f.message
    );
    assert_eq!(p.source, Some(Source::Cpu));
    assert!(
        p.glyph.contains('🔥'),
        "fire over pegged cores: {:?}",
        p.glyph
    );
}

#[test]
fn a_saturated_machine_reports_cpu_red() {
    let mut samples = healthy(21, 300);
    set_cpu(&mut samples, 0.98);
    let p = evaluate(at(300), &samples, &[], &cfg());
    assert_eq!(p.reading(Dimension::Cpu).unwrap().band, Band::Red);
    assert!(p.level >= Level::Wailing, "sustained red: {:?}", p.level);
}

#[test]
fn memory_is_banded_on_available_bytes_falling() {
    let mut samples = healthy(21, 300);
    for s in &mut samples {
        s.pages_free = 5_127;
        s.pages_speculative = 1_250;
        s.pages_purgeable = 5_581;
        s.pages_external = 550_000;
    }
    let p = evaluate(at(300), &samples, &[], &cfg());
    let mem = p.reading(Dimension::Memory).unwrap();
    assert_eq!(
        mem.band,
        Band::Green,
        "a tiny free list with a full page cache is a HEALTHY machine"
    );

    let mut samples = healthy(21, 300);
    for s in &mut samples {
        s.pages_free = 5_127;
        s.pages_speculative = 0;
        s.pages_purgeable = 0;
        s.pages_external = 4_000;
    }
    let p = evaluate(at(300), &samples, &[], &cfg());
    let mem = p.reading(Dimension::Memory).unwrap();
    assert_eq!(mem.band, Band::Red);
    assert!(mem.detail.contains("MB available"), "got {:?}", mem.detail);
}

#[test]
fn kernel_pressure_is_banded_on_the_kernels_level_not_availability() {
    let mut samples = healthy(21, 300);
    for s in &mut samples {
        s.memory_pressure_level = 2;
    }
    let p = evaluate(at(300), &samples, &[], &cfg());

    let kernel = p.reading(Dimension::KernelPressure).unwrap();
    assert_eq!(kernel.band, Band::Yellow, "WARN is yellow: {kernel:?}");
    assert!(kernel.detail.contains("warn"), "got {:?}", kernel.detail);
    let mem = p.reading(Dimension::Memory).unwrap();
    assert_eq!(
        mem.band,
        Band::Green,
        "availability stays green — the kernel's verdict is its OWN dimension, \
         not an override of this one"
    );
    assert_eq!(p.level, Level::Stirring, "the verdict is no longer blind");
}

#[test]
fn a_normal_kernel_level_does_not_follow_availability_down() {
    let mut samples = healthy(21, 300);
    for s in &mut samples {
        s.pages_free = 5_127;
        s.pages_speculative = 0;
        s.pages_purgeable = 0;
        s.pages_external = 4_000;
        s.memory_pressure_level = 1;
    }
    let p = evaluate(at(300), &samples, &[], &cfg());
    assert_eq!(p.reading(Dimension::Memory).unwrap().band, Band::Red);
    assert_eq!(
        p.reading(Dimension::KernelPressure).unwrap().band,
        Band::Green,
        "the kernel dimension reports what the KERNEL said"
    );
}

#[test]
fn a_critical_kernel_level_is_red_with_the_kernels_own_words() {
    let mut samples = healthy(21, 300);
    for s in &mut samples {
        s.memory_pressure_level = 4;
    }
    let p = evaluate(at(300), &samples, &[], &cfg());
    let kernel = p.reading(Dimension::KernelPressure).unwrap();
    assert_eq!(kernel.band, Band::Red);
    let f = p
        .findings
        .iter()
        .find(|f| f.dimension == Dimension::KernelPressure)
        .expect("a red kernel level is a finding");
    assert!(
        f.message.contains("kernel itself reports critical"),
        "got {:?}",
        f.message
    );
    assert_eq!(f.action, Action::RelaunchApps, "same lever as memory/swap");
}

#[test]
fn an_unrecorded_kernel_level_produces_no_reading_not_a_green_one() {
    let mut samples = healthy(21, 300);
    for s in &mut samples {
        s.memory_pressure_level = 0;
    }
    let p = evaluate(at(300), &samples, &[], &cfg());
    assert!(
        p.reading(Dimension::KernelPressure).is_none(),
        "no recorded level, no claim: {:?}",
        p.reading(Dimension::KernelPressure)
    );
    assert!(p.reading(Dimension::Memory).is_some());
    assert_ne!(p.level, Level::Checking);
}

#[test]
fn a_heavy_thermal_level_is_red_with_the_kernels_words_and_no_action() {
    let mut samples = healthy(21, 300);
    for s in &mut samples {
        s.thermal_pressure_level = Some(2);
    }
    let p = evaluate(at(300), &samples, &[], &cfg());
    let t = p.reading(Dimension::Thermal).unwrap();
    assert_eq!(t.band, Band::Red);
    assert_eq!(t.detail, "kernel reports heavy");
    let f = p
        .findings
        .iter()
        .find(|f| f.dimension == Dimension::Thermal)
        .expect("a red thermal level is a finding");
    assert!(
        f.message.contains("heavy thermal pressure"),
        "got {:?}",
        f.message
    );
    assert!(
        f.message.contains("throttled"),
        "red must say the CPU is being slowed: {:?}",
        f.message
    );
    assert_eq!(f.action, Action::Nothing, "heat has no process to reap");
}

#[test]
fn a_moderate_thermal_level_is_yellow_without_the_throttling_claim() {
    let mut samples = healthy(21, 300);
    for s in &mut samples {
        s.thermal_pressure_level = Some(1);
    }
    let p = evaluate(at(300), &samples, &[], &cfg());
    let t = p.reading(Dimension::Thermal).unwrap();
    assert_eq!(t.band, Band::Yellow);
    assert_eq!(t.detail, "kernel reports moderate");
    let f = p
        .findings
        .iter()
        .find(|f| f.dimension == Dimension::Thermal)
        .unwrap();
    assert!(
        f.message.contains("moderate thermal pressure"),
        "got {:?}",
        f.message
    );
    assert!(
        !f.message.contains("throttled"),
        "yellow must not claim throttling: {:?}",
        f.message
    );

    let calm = evaluate(at(300), &healthy(21, 300), &[], &cfg());
    assert_eq!(calm.reading(Dimension::Thermal).unwrap().band, Band::Green);
    assert_eq!(
        calm.reading(Dimension::Thermal).unwrap().detail,
        "kernel reports nominal"
    );
}

#[test]
fn an_unrecorded_thermal_level_produces_no_reading_not_a_nominal_one() {
    let mut samples = healthy(21, 300);
    for s in &mut samples {
        s.thermal_pressure_level = None;
    }
    let p = evaluate(at(300), &samples, &[], &cfg());
    assert!(
        p.reading(Dimension::Thermal).is_none(),
        "no recorded level, no claim: {:?}",
        p.reading(Dimension::Thermal)
    );
    assert!(
        p.reading(Dimension::Cpu).is_some(),
        "the other dimensions are untouched"
    );
    assert_ne!(p.level, Level::Checking);
}

#[test]
fn a_throttled_idle_machine_is_a_thermal_red_not_a_cpu_red() {
    let mut samples = healthy(21, 300);
    for s in &mut samples {
        s.thermal_pressure_level = Some(3);
        s.load1m = num(2.0);
    }
    let p = evaluate(at(300), &samples, &[], &cfg());
    assert_eq!(p.reading(Dimension::Thermal).unwrap().band, Band::Red);
    assert_eq!(p.reading(Dimension::Cpu).unwrap().band, Band::Green);
    assert_eq!(
        p.level,
        Level::Wailing,
        "one sustained red past the 120 s grace"
    );
    assert_eq!(p.source, Some(Source::Thermal));
    assert!(
        p.glyph.contains("🌡️"),
        "the menu bar names heat: {:?}",
        p.glyph
    );
}

#[test]
fn a_saturated_cool_machine_is_a_cpu_red_not_a_thermal_red() {
    let mut samples = healthy(21, 300);
    for s in &mut samples {
        s.thermal_pressure_level = Some(0);
    }
    set_cpu(&mut samples, 0.98);
    let p = evaluate(at(300), &samples, &[], &cfg());
    assert_eq!(p.reading(Dimension::Cpu).unwrap().band, Band::Red);
    assert_eq!(p.reading(Dimension::Thermal).unwrap().band, Band::Green);
    assert_eq!(p.source, Some(Source::Cpu));
}

#[test]
fn swap_is_banded_on_absolute_bytes_not_a_percentage() {
    let mut samples = healthy(21, 300);
    for s in &mut samples {
        s.swap_used_bytes = 10_660_000_000;
        s.swap_total_bytes = 64_000_000_000;
    }
    let p = evaluate(at(300), &samples, &[], &cfg());
    let swap = p.reading(Dimension::Swap).unwrap();

    assert_eq!(swap.band, Band::Yellow);
    assert!(swap.band > Band::Green, "the machine is not calm");

    let pct = 10_660_000_000.0 / 64_000_000_000.0 * 100.0;
    assert!(
        pct < 60.0,
        "a percentage rule would have called this calm at {pct:.0}%"
    );

    let mut bigger = samples.clone();
    for s in &mut bigger {
        s.swap_total_bytes = 256_000_000_000;
    }
    let p2 = evaluate(at(300), &bigger, &[], &cfg());
    assert_eq!(
        p2.reading(Dimension::Swap).unwrap().band,
        Band::Yellow,
        "the verdict must not depend on the denominator"
    );
}

#[test]
fn thrash_is_a_rate_derived_from_consecutive_samples() {
    let mut samples = healthy(21, 300);
    for (i, s) in samples.iter_mut().enumerate() {
        s.swapins = 1_000 + i as u64 * 45_000;
        s.swapouts = 2_000 + i as u64 * 94_500;
    }
    let p = evaluate(at(300), &samples, &[], &cfg());
    let th = p.reading(Dimension::Thrash).unwrap();
    assert_eq!(th.band, Band::Red);
    assert!(
        (float(th.value) - 9300.0).abs() < 1.0,
        "expected ~9300 ops/sec, got {}",
        float(th.value)
    );
}

#[test]
fn thrash_bands_on_the_window_peak_so_a_storm_in_a_trough_still_reports_red() {
    let mut samples = healthy(21, 300);
    let mut rates = vec![20.0; 12];
    rates.extend(std::iter::repeat_n(2500.0, 5));
    rates.extend(std::iter::repeat_n(20.0, 3));
    with_thrash_rates(&mut samples, &rates);

    let p = evaluate(at(300), &samples, &[], &cfg());
    let th = p.reading(Dimension::Thrash).unwrap();
    assert_eq!(
        th.band,
        Band::Red,
        "a storm inside the window is still red once it has gone quiet, got value {}",
        float(th.value)
    );
    assert!(
        (float(th.value) - 2500.0).abs() < 1.0,
        "the value must be the window peak, not the newest 20 ops/sec: got {}",
        float(th.value)
    );
    assert!(
        th.detail.starts_with("peak "),
        "detail must say it is a peak: {:?}",
        th.detail
    );
}

#[test]
fn a_single_isolated_thrash_spike_does_not_pin_the_band() {
    let mut samples = healthy(21, 300);
    let mut rates = vec![20.0; 20];
    rates[10] = 6394.0;
    with_thrash_rates(&mut samples, &rates);

    let p = evaluate(at(300), &samples, &[], &cfg());
    let th = p.reading(Dimension::Thrash).unwrap();
    assert_eq!(
        th.band,
        Band::Green,
        "one 15s burst is not a thrashing machine, got value {}",
        float(th.value)
    );
}

#[test]
fn a_storm_ageing_out_of_the_window_only_ever_decays() {
    let mut t = 0i64;
    let mut times = Vec::new();
    for i in 0..44 {
        times.push(t);
        t += if i % 4 == 0 { 20 } else { 15 };
    }
    let points: Vec<(Timestamp, f64)> = times
        .iter()
        .enumerate()
        .map(|(i, &secs)| {
            let v = if (5..11).contains(&i) { 2500.0 } else { 15.0 };
            (at(secs), v)
        })
        .collect();

    let out = windowed_peak(&points, 300);
    let tail: Vec<f64> = out[10..].iter().map(|(_, v)| *v).collect();
    for w in tail.windows(2) {
        assert!(
            w[1] <= w[0] + 1e-9,
            "the reported peak climbed with no new churn: {:?}",
            tail
        );
    }
    assert!(
        (tail.last().unwrap() - 15.0).abs() < 1e-9,
        "a storm long past the window must decay to the calm level, got {:?}",
        tail.last()
    );
}

#[test]
fn the_thrash_peak_window_is_load_bearing() {
    let mut samples = healthy(21, 300);
    let mut rates = vec![20.0; 12];
    rates.extend(std::iter::repeat_n(2500.0, 5));
    rates.extend(std::iter::repeat_n(20.0, 3));
    with_thrash_rates(&mut samples, &rates);

    let mut narrow = cfg();
    narrow.thrash_peak_window_secs = 20;
    let p = evaluate(at(300), &samples, &[], &narrow);
    let th = p.reading(Dimension::Thrash).unwrap();
    assert!(
        (float(th.value) - 20.0).abs() < 1.0,
        "a 20s window cannot see a storm that ended 45s ago: got {}",
        float(th.value)
    );
}

#[test]
fn a_reboot_inside_the_window_does_not_manufacture_a_thrash_spike() {
    let mut samples = healthy(6, 90);
    for s in samples.iter_mut().skip(3) {
        s.boot_time_secs = BOOT + 1000;
        s.swapins = 5;
        s.swapouts = 7;
    }
    let p = evaluate(at(90), &samples, &[], &cfg());
    if let Some(th) = p.reading(Dimension::Thrash) {
        assert!(float(th.value) >= 0.0, "no negative rate: {}", float(th.value));
        assert!(float(th.value) < 1000.0, "no manufactured spike: {}", float(th.value));
    }
}

#[test]
fn disk_projects_a_time_to_full_when_space_is_falling() {
    let n = 21;
    let mut samples = healthy(n, 300);
    for (i, s) in samples.iter_mut().enumerate() {
        s.volumes[0].avail_bytes = 45_000_000_000 - (i as u64 * 100_000_000);
    }
    let p = evaluate(at(300), &samples, &[], &cfg());
    let disk = p.reading(Dimension::Disk).unwrap();
    assert_eq!(disk.band, Band::Yellow);
    assert!(
        disk.trend_per_sec.is_some_and(|t| float(t) < 0.0),
        "trend must be negative: {:?}",
        disk.trend_per_sec
    );
    assert!(
        disk.detail.contains("full in"),
        "expected a projection, got {:?}",
        disk.detail
    );
}

#[test]
fn a_fast_emptying_disk_is_red_though_its_bytes_say_yellow() {
    let mut falling = healthy(21, 300);
    for (i, s) in falling.iter_mut().enumerate() {
        s.volumes[0].avail_bytes = 45_000_000_000 - (i as u64 * 250_000_000);
    }
    let p = evaluate(at(300), &falling, &[], &cfg());
    let disk = p.reading(Dimension::Disk).unwrap();
    assert_eq!(disk.band, Band::Red, "red on time alone: {}", disk.detail);
    assert!(
        float(disk.severity) >= 1.0,
        "and past its line by severity: {}",
        float(disk.severity)
    );

    let mut flat = healthy(21, 300);
    for s in flat.iter_mut() {
        s.volumes[0].avail_bytes = 40_000_000_000;
    }
    let p = evaluate(at(300), &flat, &[], &cfg());
    assert_eq!(p.reading(Dimension::Disk).unwrap().band, Band::Yellow);
}

#[test]
fn the_disk_finding_defers_to_disk_tool() {
    let mut samples = healthy(21, 300);
    for s in &mut samples {
        s.volumes[0].avail_bytes = 3_000_000_000;
    }
    let p = evaluate(at(300), &samples, &[], &cfg());
    let f = p
        .findings
        .iter()
        .find(|f| f.dimension == Dimension::Disk)
        .expect("a disk finding");
    assert_eq!(f.action, Action::OpenDiskTool);
    assert!(p.actions().contains(&Action::OpenDiskTool));
}

#[test]
fn stale_sessions_and_orphans_come_from_the_census() {
    let censuses = vec![
        census(0, 7, 45, 49.2, 78_000),
        census(300, 7, 45, 49.2, 78_000),
    ];
    let p = evaluate(at(300), &healthy(21, 300), &censuses, &cfg());
    assert_eq!(float(p.reading(Dimension::Agents).unwrap().value), 7.0);
    assert_eq!(p.reading(Dimension::Orphans).unwrap().band, Band::Red);
    assert_eq!(p.reading(Dimension::Agents).unwrap().band, Band::Red);
}

#[test]
fn the_worklist_puts_stale_sessions_before_orphans() {
    let censuses = vec![
        census(0, 7, 45, 49.2, 78_000),
        census(300, 7, 45, 49.2, 78_000),
    ];
    let p = evaluate(at(300), &healthy(21, 300), &censuses, &cfg());
    let actions = p.actions();
    let sessions = actions.iter().position(|a| *a == Action::ReapStaleSessions);
    let orphans = actions.iter().position(|a| *a == Action::ReapOrphans);
    assert!(sessions.is_some() && orphans.is_some(), "{actions:?}");
    assert!(
        sessions < orphans,
        "stale sessions must rank above orphans: {actions:?}"
    );
}

#[test]
fn a_cpu_red_with_nothing_to_reap_offers_no_reap_button() {
    let mut samples = healthy(41, 600);
    set_cpu(&mut samples, 0.98);
    let censuses = vec![
        census(0, 0, 2, 49.2, 78_000),
        census(600, 0, 2, 49.2, 78_000),
    ];
    let p = evaluate(at(600), &samples, &censuses, &cfg());
    let cpu = p
        .findings
        .iter()
        .find(|f| f.dimension == Dimension::Cpu)
        .expect("a cpu finding");
    assert_eq!(cpu.action, Action::Nothing, "nothing to reap");
    assert!(
        !p.actions().contains(&Action::ReapStaleSessions),
        "no dead button anywhere in the worklist: {:?}",
        p.actions()
    );

    let censuses = vec![
        census(0, 7, 2, 49.2, 78_000),
        census(600, 7, 2, 49.2, 78_000),
    ];
    let p = evaluate(at(600), &samples, &censuses, &cfg());
    let cpu = p
        .findings
        .iter()
        .find(|f| f.dimension == Dimension::Cpu)
        .expect("a cpu finding");
    assert_eq!(cpu.action, Action::ReapStaleSessions);
}

#[test]
fn a_young_managed_agent_reading_is_skipped_entirely() {
    let censuses = vec![census(0, 0, 2, 200.0, 60), census(300, 0, 2, 200.0, 60)];
    let p = evaluate(at(300), &healthy(21, 300), &censuses, &cfg());
    assert!(
        p.reading(Dimension::Corporate).is_none(),
        "a 60s-old process must not be banded at all"
    );
    assert_eq!(p.level, Level::Quiet, "and must not raise the level");
}

#[test]
fn a_mature_managed_agent_group_bands_on_growth() {
    let censuses = vec![
        census(0, 0, 2, 70.0, 78_000),
        census(300, 0, 2, 70.0, 78_000),
    ];
    let p = evaluate(at(300), &healthy(21, 300), &censuses, &cfg());
    let corp = p.reading(Dimension::Corporate).unwrap();
    assert_eq!(corp.band, Band::Yellow, "70% is past the 60% line");
    assert!(corp.detail.contains("of one core"));
}

#[test]
fn todays_managed_agent_baseline_is_not_a_standing_warning() {
    let censuses = vec![healthy_census(0), healthy_census(300)];
    let p = evaluate(at(300), &healthy(21, 300), &censuses, &cfg());
    assert_eq!(
        p.reading(Dimension::Corporate).unwrap().band,
        Band::Green
    );
    assert_eq!(p.level, Level::Quiet);
}

#[test]
fn the_managed_agent_finding_recommends_no_action() {
    let censuses = vec![
        census(0, 0, 2, 120.0, 78_000),
        census(300, 0, 2, 120.0, 78_000),
    ];
    let p = evaluate(at(300), &healthy(21, 300), &censuses, &cfg());
    let f = p
        .findings
        .iter()
        .find(|f| f.dimension == Dimension::Corporate)
        .expect("a managed-agents finding");
    assert_eq!(f.action, Action::Nothing);
    assert!(
        !p.actions().contains(&Action::Nothing),
        "None is not a worklist item"
    );
}

#[test]
fn a_brief_spike_does_not_reach_wailing() {
    let mut samples = healthy(21, 300);
    let mut utils = vec![0.20; 20];
    for u in utils.iter_mut().rev().take(3) {
        *u = 0.98;
    }
    with_cpu_utils(&mut samples, &utils);
    let p = evaluate(at(300), &samples, &[], &cfg());
    assert_eq!(p.reading(Dimension::Cpu).unwrap().band, Band::Red);
    assert_eq!(
        p.level,
        Level::Restless,
        "30s of red is inside the 120s grace"
    );
    assert_eq!(p.glyph, "😧🔥");
}

#[test]
fn a_sustained_spike_reaches_wailing() {
    let mut samples = healthy(41, 600);
    let mut utils = vec![0.20; 40];
    for u in utils.iter_mut().skip(20) {
        *u = 0.98;
    }
    with_cpu_utils(&mut samples, &utils);
    let p = evaluate(at(600), &samples, &[], &cfg());
    let cpu = p.reading(Dimension::Cpu).unwrap();
    assert_eq!(cpu.band, Band::Red);
    assert!(cpu.held_secs >= 120, "held {}s", cpu.held_secs);
    assert_eq!(p.level, Level::Wailing);
}

#[test]
fn held_secs_is_derived_from_timestamps_not_an_assumed_cadence() {
    let mut samples: Vec<Sample> = (0..6).map(|i| sample(i * 60)).collect();
    let mut utils = vec![0.20; 5];
    for u in utils.iter_mut().skip(1) {
        *u = 0.98;
    }
    with_cpu_utils(&mut samples, &utils);
    let p = evaluate(at(300), &samples, &[], &cfg());
    let cpu = p.reading(Dimension::Cpu).unwrap();
    assert_eq!(cpu.held_secs, 180, "must reflect the real 60s spacing");
}

#[test]
fn a_recovering_dimension_reports_a_pending_band() {
    let mut samples = healthy(21, 300);
    let mut utils = vec![0.98; 20];
    utils[19] = 0.20;
    with_cpu_utils(&mut samples, &utils);
    let p = evaluate(at(300), &samples, &[], &cfg());
    let cpu = p.reading(Dimension::Cpu).unwrap();
    assert_eq!(cpu.band, Band::Red, "not yet confirmed");
    assert_eq!(cpu.pending, Some(Band::Green));
}

#[test]
fn the_cpu_finding_claims_saturation_only_at_red() {
    let cpu_message = |p: &Pressure| {
        p.findings
            .iter()
            .find(|f| f.dimension == Dimension::Cpu)
            .expect("a banded cpu dimension must produce a finding")
            .message
            .clone()
    };

    let mut samples = healthy(21, 300);
    set_cpu(&mut samples, 0.88);
    let p = evaluate(at(300), &samples, &[], &cfg());
    assert_eq!(p.reading(Dimension::Cpu).unwrap().band, Band::Yellow);
    let msg = cpu_message(&p);
    assert!(msg.contains("88% busy"), "{msg}");
    assert!(
        !msg.contains("saturated"),
        "yellow must not claim saturation: {msg}"
    );

    set_cpu(&mut samples, 0.98);
    let p = evaluate(at(300), &samples, &[], &cfg());
    assert_eq!(p.reading(Dimension::Cpu).unwrap().band, Band::Red);
    assert!(cpu_message(&p).contains("saturated"));

    let mut utils = vec![0.98; 20];
    utils[19] = 0.20;
    with_cpu_utils(&mut samples, &utils);
    let p = evaluate(at(300), &samples, &[], &cfg());
    let cpu = p.reading(Dimension::Cpu).unwrap();
    assert_eq!(cpu.band, Band::Red, "hysteresis must hold red");
    assert!(
        float(cpu.value) < float(cfg().cpu.yellow),
        "the raw value must have recovered"
    );
    assert!(
        cpu_message(&p).contains("saturated"),
        "the message follows the band, not the raw value"
    );
}

#[test]
fn the_august_incident_shrieks_and_names_the_right_worklist() {
    let mut samples = healthy(41, 600);
    for s in &mut samples {
        s.load1m = num(76.0);
        s.swap_used_bytes = 35_600_000_000;
        s.pages_free = 13_267;
    }
    set_cpu(&mut samples, 0.98);
    let censuses = vec![
        census(0, 7, 45, 49.2, 78_000),
        census(300, 7, 45, 49.2, 78_000),
        census(600, 7, 45, 49.2, 78_000),
    ];
    let p = evaluate(at(600), &samples, &censuses, &cfg());

    assert_eq!(p.level, Level::Shrieking);
    assert_eq!(p.glyph.chars().next().unwrap().to_string(), "💀");

    let actions = p.actions();
    assert_eq!(
        actions.first(),
        Some(&Action::ReapStaleSessions),
        "got {actions:?}"
    );
    assert!(actions.contains(&Action::ReapOrphans));
    assert!(actions.contains(&Action::RelaunchApps));
    assert_eq!(actions.last(), Some(&Action::Reboot), "got {actions:?}");
}

#[test]
fn a_pinned_swap_at_shrieking_recommends_a_reboot_last() {
    let mut samples = healthy(41, 600);
    for s in &mut samples {
        s.load1m = num(76.0);
        s.swap_used_bytes = 35_600_000_000;
    }
    set_cpu(&mut samples, 0.98);
    let p = evaluate(at(600), &samples, &[], &cfg());
    assert_eq!(p.level, Level::Shrieking);
    let reboot = p
        .findings
        .iter()
        .find(|f| f.action == Action::Reboot)
        .expect("reboot advice");
    assert!(reboot.message.contains("compressor pool"), "{reboot:?}");
    assert_eq!(
        p.findings.last().map(|f| f.action),
        Some(Action::Reboot),
        "the last resort must be last"
    );
}

#[test]
fn a_long_uptime_alone_produces_no_finding() {
    let boot_30d_ago = 30 * 86_400;
    let mut samples = healthy(21, boot_30d_ago);
    for s in &mut samples {
        s.boot_time_secs = BOOT;
    }
    let p = evaluate(at(boot_30d_ago), &samples, &[], &cfg());

    let uptime = p.reading(Dimension::Uptime).unwrap();
    assert_eq!(uptime.band, Band::Red, "30 days is past the 21-day line");
    assert!(uptime.advisory);
    assert_eq!(p.level, Level::Quiet, "advisory must not raise the level");
    assert!(
        !p.findings.iter().any(|f| f.dimension == Dimension::Uptime),
        "no finding without memory pressure: {:?}",
        p.findings
    );
}

#[test]
fn a_long_uptime_with_swap_pressure_does_produce_a_finding() {
    let boot_30d_ago = 30 * 86_400;
    let mut samples = healthy(21, boot_30d_ago);
    for s in &mut samples {
        s.boot_time_secs = BOOT;
        s.swap_used_bytes = 5_000_000_000;
    }
    let p = evaluate(at(boot_30d_ago), &samples, &[], &cfg());
    assert!(
        p.findings.iter().any(|f| f.dimension == Dimension::Uptime),
        "expected an uptime finding: {:?}",
        p.findings
    );
}

#[test]
fn evaluation_is_deterministic_for_the_same_history() {
    let samples = healthy(21, 300);
    let censuses = vec![healthy_census(0), healthy_census(300)];
    let a = evaluate(at(300), &samples, &censuses, &cfg());
    let b = evaluate(at(300), &samples, &censuses, &cfg());
    assert_eq!(a, b);
}

#[test]
fn thresholds_are_configuration() {
    let samples = healthy(21, 300);
    let strict = PressureConfig {
        cpu: rising(0.05, 0.1, 0.01, 1),
        ..cfg()
    };
    let p = evaluate(at(300), &samples, &[], &strict);
    assert_eq!(
        p.reading(Dimension::Cpu).unwrap().band,
        Band::Red,
        "a stricter config must change the answer"
    );
}

#[test]
fn the_verdict_carries_the_glyph_and_a_spoken_label() {
    let mut samples = healthy(41, 600);
    set_cpu(&mut samples, 0.98);
    let p = evaluate(at(600), &samples, &[], &cfg());
    assert_eq!(p.glyph, "😱🔥");
    assert_eq!(p.accessibility_label, "Banshee: Wailing, CPU");
    assert_eq!(p.level_name, "Wailing");
    assert!(
        !p.accessibility_label.contains('😱'),
        "VoiceOver must get words"
    );
}

#[test]
fn a_calm_verdict_with_a_recovering_dimension_is_decorated() {
    let mut p = evaluate(at(600), &healthy(41, 600), &[healthy_census(600)], &cfg());
    assert_eq!(p.level, Level::Quiet, "precondition: calm");
    assert_eq!(p.glyph, "😴");
    p.attach_episodes(
        &[open_episode(
            Dimension::Disk,
            EpisodeState::Recovering,
            0,
        )],
        at(600),
    );
    assert!(p.recovering);
    assert_eq!(p.glyph, "😴🩹");
    assert_eq!(p.accessibility_label, "Banshee: Quiet, recovering");
    assert!(p.reading(Dimension::Disk).unwrap().recovering);
    assert!(!p.reading(Dimension::Cpu).unwrap().recovering);
    assert_eq!(
        p.reading(Dimension::Disk).unwrap().band,
        Band::Green,
        "a modifier, not a band"
    );
    assert_eq!(p.activity.open, 1);
}

#[test]
fn the_decoration_is_only_for_a_calm_face_and_only_for_recovering() {
    let mut calm = evaluate(at(600), &healthy(41, 600), &[healthy_census(600)], &cfg());
    calm.attach_episodes(
        &[open_episode(
            Dimension::Disk,
            EpisodeState::Firing,
            0,
        )],
        at(600),
    );
    assert!(!calm.recovering, "firing is not recovering");
    assert_eq!(calm.glyph, "😴");
    assert_eq!(calm.activity.open, 1, "but it IS an open episode");

    let mut samples = healthy(41, 600);
    set_cpu(&mut samples, 0.98);
    let mut loud = evaluate(at(600), &samples, &[healthy_census(600)], &cfg());
    assert!(
        loud.level >= Level::Restless,
        "precondition: {:?}",
        loud.level
    );
    let bare = loud.glyph.clone();
    loud.attach_episodes(
        &[open_episode(
            Dimension::Disk,
            EpisodeState::Recovering,
            0,
        )],
        at(600),
    );
    assert!(loud.recovering, "the flag is still honest");
    assert!(loud.reading(Dimension::Disk).unwrap().recovering);
    assert_eq!(loud.glyph, bare, "the face is left to the source suffix");
    assert!(!loud.accessibility_label.ends_with(", recovering"));
}

#[test]
fn attaching_the_record_is_idempotent() {
    let mut p = evaluate(at(600), &healthy(41, 600), &[healthy_census(600)], &cfg());
    let record = [open_episode(
        Dimension::Disk,
        EpisodeState::Recovering,
        0,
    )];
    p.attach_episodes(&record, at(600));
    let once = p.clone();
    p.attach_episodes(&record, at(600));
    assert_eq!(p, once);
    p.attach_episodes(&[], at(600));
    assert_eq!(p.glyph, "😴");
    assert_eq!(p.accessibility_label, "Banshee: Quiet");
    assert!(!p.recovering);
}

#[test]
fn assess_decorates_with_the_post_reconcile_record() {
    let open = open_episode(Dimension::Disk, EpisodeState::Firing, 0);
    let out = assess(
        at(600),
        &healthy(41, 600),
        &[healthy_census(600)],
        std::slice::from_ref(&open),
        &cfg(),
    );
    assert_eq!(out.episodes.len(), 1, "the disk episode moved");
    assert_eq!(out.episodes[0].id, open.id);
    assert_eq!(out.episodes[0].state, EpisodeState::Recovering);
    assert!(out.pressure.recovering, "the verdict saw the transition");
    assert_eq!(out.pressure.glyph, "😴🩹");
    assert!(out.notifications.is_empty(), "nothing to say about a dip");
}

#[test]
fn the_memory_who_ranks_by_resident_size_not_process_count() {
    let c = full_census();
    let expected = vec![
        "Chrome ×128 at 8.1 GB".to_string(),
        "IDE agent helpers ×48 at 6.4 GB".to_string(),
        "Slack ×14 at 2.1 GB".to_string(),
    ];
    assert_eq!(who_of(Dimension::Memory, &c, &cfg()), expected);
    for d in [
        Dimension::Swap,
        Dimension::KernelPressure,
        Dimension::Thrash,
    ] {
        assert_eq!(who_of(d, &c, &cfg()), expected, "{d:?}");
    }
}

#[test]
fn the_cpu_who_uses_the_cumulative_cpu_rule_and_the_deduplicated_total() {
    let mut c = full_census();
    c.cpu_consumers.clear();
    let expected = vec![
        "managed agents ×7 at 29% of one core".to_string(),
        "kiro-cli ×1 at 2% of one core".to_string(),
        "aider ×1 at 1% of one core".to_string(),
    ];
    assert_eq!(who_of(Dimension::Cpu, &c, &cfg()), expected);
    assert_eq!(who_of(Dimension::Thermal, &c, &cfg()), expected);
    let line = who_line(&attribute(Dimension::Cpu, &c, &cfg())).unwrap();
    assert!(
        !line.contains("46%") && !line.contains("×8 at"),
        "the per-group percentages must never be summed: {line}"
    );
}

#[test]
fn the_cpu_who_prefers_the_recent_rate_lens_over_cumulative() {
    let c = full_census();
    let expected = vec![
        "Chrome Helper (Renderer) ×4 at 312% of one core".to_string(),
        "aider ×2 at 88% of one core".to_string(),
        "swift-frontend ×1 at 47% of one core".to_string(),
    ];
    assert_eq!(who_of(Dimension::Cpu, &c, &cfg()), expected);
    assert_eq!(who_of(Dimension::Thermal, &c, &cfg()), expected);
    assert!(
        !who_of(Dimension::Cpu, &c, &cfg())
            .iter()
            .any(|w| w.starts_with("managed agents")),
        "recent-rate must not fall back while it has consumers"
    );
}

#[test]
fn the_cpu_who_falls_back_to_cumulative_when_no_recent_rate() {
    let mut c = full_census();
    let recent = who_of(Dimension::Cpu, &c, &cfg());
    c.cpu_consumers.clear();
    let fallback = who_of(Dimension::Cpu, &c, &cfg());
    assert_ne!(
        recent, fallback,
        "the two lenses must produce different lines"
    );
    assert!(
        fallback.iter().any(|w| w.starts_with("managed agents")),
        "the fallback must still name someone: {fallback:?}"
    );
}

#[test]
fn the_cpu_who_skips_a_group_too_young_for_the_ratio_to_mean_anything() {
    let mut c = full_census();
    c.cpu_consumers.clear();
    c.agent_sessions.push(AgentSession {
        pid: 99,
        program: "newborn".into(),
        rss_bytes: 1,
        age_secs: 60,
        age_days: 0,
        cpu_secs: num(54.0),
        tty: "ttys099".into(),
        is_stale: false,
        cwd: None,
    });
    let who = who_of(Dimension::Cpu, &c, &cfg());
    assert!(
        !who.iter().any(|w| w.starts_with("newborn")),
        "a 60s-old group must not be named for CPU: {who:?}"
    );
    c.monitor_total.longest_life_secs = 109;
    let who = who_of(Dimension::Cpu, &c, &cfg());
    assert!(
        !who.iter().any(|w| w.starts_with("managed agents")),
        "{who:?}"
    );
}

#[test]
fn the_stale_sessions_who_names_only_stale_sessions() {
    let c = full_census();
    assert_eq!(
        who_of(Dimension::Agents, &c, &cfg()),
        vec!["aider ×1 at 914 MB".to_string()]
    );
}

#[test]
fn the_orphans_who_follows_the_census_breakdown() {
    let c = full_census();
    assert_eq!(
        who_of(Dimension::Orphans, &c, &cfg()),
        vec![
            "mcp-server-fetch ×14 at 1.1 GB".to_string(),
            "language-server ×9 at 537 MB".to_string(),
        ]
    );
}

#[test]
fn the_managed_agents_who_ranks_groups_by_their_own_rate_and_skips_young_ones() {
    let c = full_census();
    assert_eq!(
        who_of(Dimension::Corporate, &c, &cfg()),
        vec!["endpoint-shield ×6 at 31% of one core".to_string()]
    );
}

#[test]
fn disk_and_uptime_name_nobody() {
    let c = full_census();
    for d in [Dimension::Disk, Dimension::Uptime] {
        let who = attribute(d, &c, &cfg());
        assert!(who.is_empty(), "{d:?}: {who:?}");
        assert_eq!(who_line(&who), None);
    }
}

#[test]
fn the_who_limit_is_load_bearing_config() {
    let c = full_census();
    for limit in [2usize, 5] {
        let config = PressureConfig {
            who_limit: limit,
            ..cfg()
        };
        assert_eq!(
            attribute(Dimension::Memory, &c, &config).len(),
            limit,
            "who_limit {limit}"
        );
    }
}

#[test]
fn the_who_line_is_worded_once() {
    let consumers = vec![
        Consumer {
            name: "Chrome".into(),
            count: 115,
            detail: "7.7 GB".into(),
        },
        Consumer {
            name: "aider".into(),
            count: 8,
            detail: "2.1 GB".into(),
        },
    ];
    assert_eq!(
        who_line(&consumers).as_deref(),
        Some("who: Chrome ×115 at 7.7 GB, aider ×8 at 2.1 GB")
    );
    assert_eq!(
        who_line(&[]),
        None,
        "nobody to name → no line, not `who:`"
    );
}

#[test]
fn findings_name_who_from_the_newest_census() {
    let mut samples = healthy(21, 600);
    for s in &mut samples {
        s.swap_used_bytes = 20_000_000_000;
    }
    let app = |name: &str| AppGroup {
        name: name.into(),
        proc_count: 40,
        rss_bytes: 5_000_000_000,
    };
    let mut older = healthy_census(300);
    older.app_groups = vec![app("OlderBrowser")];
    let mut newer = healthy_census(600);
    newer.app_groups = vec![app("NewerBrowser")];
    let p = evaluate(at(600), &samples, &[older, newer], &cfg());
    let swap = p
        .findings
        .iter()
        .find(|f| f.dimension == Dimension::Swap)
        .expect("a swap finding");
    let line = swap.who_line.as_deref().expect("a who line");
    assert!(line.contains("NewerBrowser ×40 at 5.0 GB"), "{line}");
    assert!(!line.contains("OlderBrowser"), "{line}");
    assert_eq!(
        swap.who.iter().map(|c| c.name.as_str()).collect::<Vec<_>>(),
        vec!["NewerBrowser", "managed agents", "orphaned helpers"],
        "the fixture census's three sized groups, biggest first: {:?}",
        swap.who
    );
}

#[test]
fn a_finding_without_a_census_names_nobody() {
    let mut samples = healthy(21, 300);
    for s in &mut samples {
        s.swap_used_bytes = 20_000_000_000;
    }
    let p = evaluate(at(300), &samples, &[], &cfg());
    let swap = p
        .findings
        .iter()
        .find(|f| f.dimension == Dimension::Swap)
        .expect("a swap finding");
    assert!(swap.who.is_empty());
    assert_eq!(swap.who_line, None);
}

#[test]
fn a_yellow_finding_names_who_too() {
    let mut samples = healthy(21, 300);
    for s in &mut samples {
        s.swap_used_bytes = 6_000_000_000;
    }
    let mut c = healthy_census(300);
    c.app_groups = vec![AppGroup {
        name: "Chrome".into(),
        proc_count: 115,
        rss_bytes: 7_710_000_000,
    }];
    let p = evaluate(at(300), &samples, &[c], &cfg());
    let swap = p
        .findings
        .iter()
        .find(|f| f.dimension == Dimension::Swap)
        .expect("a swap finding");
    assert_eq!(swap.band, Band::Yellow);
    assert!(
        swap.who_line
            .as_deref()
            .is_some_and(|l| l.starts_with("who: Chrome ×115 at 7.7 GB")),
        "{:?}",
        swap.who_line
    );
}

#[test]
fn the_zero_jetsam_detail_scopes_itself_to_sustained_pressure() {
    let detail = detail_for(Dimension::Jetsam, 0.0, None, None, None, &cfg());
    assert!(
        detail.contains("sustained-pressure"),
        "a zero must name the ONE kill path it counts, not imply none happened: {detail:?}"
    );
    assert_ne!(
        detail, "no kills this window",
        "the bare reassurance is the banshee-714 lie: it was 0 while 170 processes died"
    );

    let killed = detail_for(Dimension::Jetsam, 2.0, None, None, None, &cfg());
    assert!(
        killed.contains('2') && killed.contains("memory pressure"),
        "got {killed:?}"
    );
}

#[test]
fn swap_detail_names_pool_fill_only_when_the_total_is_known() {
    let with_total = detail_for(Dimension::Swap, 96.0, None, None, Some(100), &cfg());
    assert!(with_total.contains("pool 96% full"), "got {with_total:?}");

    let without = detail_for(Dimension::Swap, 96.0, None, None, None, &cfg());
    assert!(
        !without.contains("pool"),
        "must not fabricate a fill%: {without:?}"
    );
    assert!(!without.contains('%'), "got {without:?}");
}

#[test]
fn disk_finding_names_swap_only_when_it_rivals_free_space() {
    let disk = dr(Dimension::Disk, 12.0, None);

    let coupled = message_for(&disk, Some(24));
    assert!(coupled.contains("of the volume is swap"), "got {coupled:?}");

    let roomy = message_for(&disk, Some(6));
    assert!(
        !roomy.contains("swap"),
        "6<12, coupling is not material: {roomy:?}"
    );

    let unknown = message_for(&disk, None);
    assert!(
        !unknown.contains("of the volume is swap"),
        "got {unknown:?}"
    );
}

#[test]
fn swap_finding_projects_pool_exhaustion_while_climbing() {
    let climbing = message_for(&dr(Dimension::Swap, 96.0, Some(1.0)), Some(100));
    assert!(
        climbing.contains("allocated pool is 96% full"),
        "got {climbing:?}"
    );
    assert!(climbing.contains("exhausted in"), "got {climbing:?}");

    let flat = message_for(&dr(Dimension::Swap, 96.0, None), Some(100));
    assert!(flat.contains("allocated pool is 96% full"), "got {flat:?}");
    assert!(
        !flat.contains("exhausted in"),
        "a flat pool has no projection: {flat:?}"
    );
}

#[test]
fn the_checking_placeholder_is_what_the_model_says_about_no_data() {
    let now = at(0);
    let placeholder = Pressure::checking(now);
    let from_model = evaluate(now, &[], &[], &cfg());

    assert_eq!(placeholder.level, from_model.level);
    assert_eq!(placeholder.level_name, from_model.level_name);
    assert_eq!(placeholder.glyph, from_model.glyph);
    assert_eq!(placeholder.source, from_model.source);
    assert_eq!(
        placeholder.accessibility_label,
        from_model.accessibility_label
    );
    assert_eq!(
        placeholder, from_model,
        "the whole verdict, not just the level"
    );
}

#[test]
fn the_checking_placeholder_is_never_quiet() {
    let p = Pressure::checking(at(0));
    assert_eq!(p.level, Level::Checking);
    assert_ne!(p.level, Level::Quiet);
    assert_ne!(p.glyph, Level::Quiet.glyph());
    assert_eq!(p.sample_count, 0, "it has seen nothing");
    assert!(p.findings.is_empty(), "and so has nothing to recommend");
}

#[test]
fn every_finding_carries_its_actions_wording() {
    let censuses = vec![
        census(0, 7, 45, 49.2, 78_000),
        census(300, 7, 45, 49.2, 78_000),
    ];
    let p = evaluate(at(300), &healthy(21, 300), &censuses, &cfg());
    assert!(
        !p.findings.is_empty(),
        "precondition: something must be wrong"
    );
    assert!(
        p.actions().len() >= 2,
        "precondition: several distinct actions, got {:?}",
        p.actions()
    );

    for f in &p.findings {
        assert_eq!(
            f.action_label,
            f.action.label(),
            "{:?} carried the wrong wording",
            f.action
        );
        assert!(!f.action_label.is_empty());
    }
}

#[test]
fn every_action_has_a_distinct_label() {
    let actions = [
        Action::ReapStaleSessions,
        Action::ReapOrphans,
        Action::RelaunchApps,
        Action::Reboot,
        Action::OpenDiskTool,
        Action::Nothing,
    ];
    let mut labels: Vec<&str> = actions.iter().map(|a| a.label()).collect();
    let n = labels.len();
    labels.sort_unstable();
    labels.dedup();
    assert_eq!(labels.len(), n, "action labels must be distinct");
    for a in actions {
        assert!(!a.label().is_empty(), "{a:?} has no label");
    }
}

#[test]
fn the_glyph_and_the_label_never_disagree_about_the_source() {


    for level in [
        Level::Checking,
        Level::Quiet,
        Level::Stirring,
        Level::Restless,
        Level::Wailing,
        Level::Shrieking,
    ] {
        for source in [
            None,
            Some(Source::Cpu),
            Some(Source::Memory),
            Some(Source::Disk),
            Some(Source::Sprawl),
            Some(Source::Corporate),
        ] {
            let v = Verdict { level, source };
            let glyph = v.glyph();
            let label = v.accessibility_label();
            let named = source.is_some() && level.shows_source();

            let expected = match (named, source) {
                (true, Some(s)) => format!("{}{}", level.glyph(), s.glyph()),
                _ => level.glyph().to_string(),
            };
            assert_eq!(
                glyph, expected,
                "{level:?}/{source:?}: glyph disagrees with named={named}"
            );
            assert_eq!(
                label.contains(", "),
                named,
                "{level:?}/{source:?}: label {label:?} disagrees with named={named}"
            );
            if let (true, Some(s)) = (named, source) {
                assert!(
                    glyph.ends_with(s.glyph()),
                    "{glyph:?} must end with the source"
                );
                assert!(label.ends_with(s.label()), "{label:?} must name the source");
            }
        }
    }
}

#[test]
fn a_run_does_not_count_across_a_gap_in_the_observations() {
    let mut samples = Vec::new();
    for t in [0, 15] {
        let mut s = sample(t);
        s.swap_used_bytes = 20_000_000_000;
        samples.push(s);
    }
    for t in [1044, 1059, 1074, 1089] {
        let mut s = sample(t);
        s.swap_used_bytes = 20_000_000_000;
        samples.push(s);
    }

    let p = evaluate(at(1089), &samples, &[], &cfg());
    let swap = p.reading(Dimension::Swap).expect("swap reading");
    assert_eq!(swap.band, Band::Red, "precondition: the machine reads red");

    assert_eq!(swap.held_secs, 45, "held must stop at the gap");
    assert_eq!(
        swap.observation_gap_secs,
        Some(1029),
        "and the gap must be REPORTED, not silently swallowed"
    );

    assert_eq!(
        p.level,
        Level::Restless,
        "a red that has only been observed for 45s is a spike, not a crisis"
    );
    assert_ne!(p.level, Level::Wailing);
    assert_ne!(p.level, Level::Shrieking);
}

#[test]
fn an_uninterrupted_red_is_still_sustained() {
    let mut samples = Vec::new();
    for i in 0..40 {
        let mut s = sample(i * 15);
        s.swap_used_bytes = 20_000_000_000;
        samples.push(s);
    }
    let p = evaluate(at(39 * 15), &samples, &[], &cfg());
    let swap = p.reading(Dimension::Swap).expect("swap reading");
    assert_eq!(swap.band, Band::Red);
    assert_eq!(swap.held_secs, 585, "39 intervals of 15s");
    assert_eq!(swap.observation_gap_secs, None, "no gap to report");
    assert!(swap.held_secs >= cfg().red_grace_secs);
    assert_eq!(p.level, Level::Wailing, "sustained red escalates");
}

#[test]
fn a_missed_tick_is_tolerated() {
    let mut samples = Vec::new();
    for t in [0, 15, 30, 60, 75, 90] {
        let mut s = sample(t);
        s.swap_used_bytes = 20_000_000_000;
        samples.push(s);
    }
    let p = evaluate(at(90), &samples, &[], &cfg());
    let swap = p.reading(Dimension::Swap).expect("swap reading");
    assert_eq!(swap.held_secs, 90, "a 30s hiccup must not break the run");
    assert_eq!(swap.observation_gap_secs, None);
}

#[test]
fn the_census_tiers_normal_spacing_is_not_a_gap() {
    let censuses = vec![
        census(0, 7, 45, 49.2, 78_000),
        census(300, 7, 45, 49.2, 78_000),
    ];
    let p = evaluate(at(300), &healthy(20, 300), &censuses, &cfg());

    let agents = p.reading(Dimension::Agents).expect("agents reading");
    assert_eq!(
        agents.band,
        Band::Red,
        "precondition: 7 stale sessions is red"
    );
    assert_eq!(
        agents.held_secs, 300,
        "one 300s interval is normal census spacing, not a gap"
    );
    assert_eq!(agents.observation_gap_secs, None);

    let many: Vec<Census> = (0..5)
        .map(|i| census(i * 300, 7, 45, 49.2, 78_000))
        .collect();
    let p = evaluate(at(1200), &healthy(40, 1200), &many, &cfg());
    let agents = p.reading(Dimension::Agents).expect("agents reading");
    assert_eq!(agents.held_secs, 1200);
    assert_eq!(agents.observation_gap_secs, None);
}

#[test]
fn two_samples_far_apart_cannot_calibrate_and_fall_back_to_config() {
    let mut samples = Vec::new();
    for t in [0, 1029] {
        let mut s = sample(t);
        s.swap_used_bytes = 20_000_000_000;
        samples.push(s);
    }
    let p = evaluate(at(1029), &samples, &[], &cfg());
    let swap = p.reading(Dimension::Swap).expect("swap reading");
    assert_eq!(swap.band, Band::Red);
    assert_eq!(swap.held_secs, 0, "one observation's worth of continuity");
    assert_eq!(swap.observation_gap_secs, Some(1029));
    assert_eq!(p.level, Level::Restless, "not a crisis on two readings");
}

#[test]
fn a_slower_than_configured_cadence_self_calibrates() {
    let mut samples = Vec::new();
    for i in 0..6 {
        let mut s = sample(i * 60);
        s.swap_used_bytes = 20_000_000_000;
        samples.push(s);
    }
    let p = evaluate(at(300), &samples, &[], &cfg());
    let swap = p.reading(Dimension::Swap).expect("swap reading");
    assert_eq!(
        swap.held_secs, 300,
        "the series' own cadence is what counts"
    );
    assert_eq!(swap.observation_gap_secs, None);
    assert!(
        swap.held_secs >= cfg().red_grace_secs,
        "and it can still escalate"
    );
}

#[test]
fn the_cadence_estimate_is_robust_to_the_gap_it_is_looking_for() {
    let mut samples = Vec::new();
    for t in [0, 15, 3015, 3030] {
        let mut s = sample(t);
        s.swap_used_bytes = 20_000_000_000;
        samples.push(s);
    }
    let p = evaluate(at(3030), &samples, &[], &cfg());
    let swap = p.reading(Dimension::Swap).expect("swap reading");
    assert_eq!(
        swap.observation_gap_secs,
        Some(3000),
        "a mean would have set the ceiling above the gap and missed it"
    );
    assert_eq!(swap.held_secs, 15, "only the 15s since the gap");
}

#[test]
fn a_sub_second_cadence_survives_the_occasional_one_second_interval() {
    let offsets_ms: [i64; 12] = [
        0, 120, 240, 1300, 1420, 1540, 1660, 2700, 2820, 2940, 3060, 3180,
    ];
    let mut samples = Vec::new();
    for ms in offsets_ms {
        let mut s = sample(0);
        s.sampled_at = Timestamp { nanos: at(0).nanos + ms as i128 * 1_000_000 };
        s.swap_used_bytes = 20_000_000_000;
        samples.push(s);
    }
    let mut config = cfg();
    config.sample_interval_secs = 1;
    config.sample_gap_secs = gap_secs(1, float(config.gap_tolerance));

    let p = evaluate(
        samples[11].sampled_at,
        &samples,
        &config_censuses(),
        &config,
    );
    let swap = p.reading(Dimension::Swap).expect("swap reading");
    assert_eq!(swap.band, Band::Red);
    assert_eq!(
        swap.observation_gap_secs, None,
        "a 1s hiccup in a sub-second series is a hiccup, not a gap"
    );
    assert_eq!(swap.held_secs, 3, "the whole 3.18s run, not just the tail");
}

#[test]
fn the_trend_is_fitted_only_over_contiguous_observations() {
    let mut samples = Vec::new();
    for (i, t) in [0i64, 15].iter().enumerate() {
        let mut s = sample(*t);
        s.volumes[0].avail_bytes = 400_000_000_000 - (i as u64 * 50_000_000_000);
        samples.push(s);
    }
    for t in [1044, 1059, 1074, 1089] {
        let mut s = sample(t);
        s.volumes[0].avail_bytes = 100_000_000_000;
        samples.push(s);
    }

    let p = evaluate(at(1089), &samples, &[], &cfg());
    let disk = p.reading(Dimension::Disk).expect("disk reading");
    let slope = float(disk.trend_per_sec.expect("a trend over 4 contiguous points"));
    assert!(
        slope.abs() < 1.0,
        "the fit must describe the flat contiguous tail, got {slope}"
    );
    assert!(
        !disk.detail.contains("full in"),
        "no time-to-full projection across a gap: {}",
        disk.detail
    );
}

/// A sample with a chosen swap load and free-page count.
fn delta_sample(t: i64, swap_used: u64, pages_free: u64) -> Sample {
    Sample {
        swap_used_bytes: swap_used,
        pages_free,
        cpu_ticks_total: Some(80_000_000),
        cpu_ticks_idle: Some(60_000_000),
        ..sample(t)
    }
}

/// A census with a browser and a run of sessions.
fn delta_census(
    t: i64,
    chrome_procs: u32,
    chrome_rss: u64,
    aider_procs: u32,
    aider_rss_each: u64,
    managed_rss: u64,
) -> Census {
    let agent_sessions = (0..aider_procs)
        .map(|i| AgentSession {
            pid: 1000 + i,
            program: "aider".into(),
            rss_bytes: aider_rss_each,
            age_secs: 8 * 86_400,
            age_days: 8,
            cpu_secs: num(100.0),
            tty: format!("ttys{i:03}"),
            is_stale: false,
            cwd: None,
        })
        .collect();
    let app_groups = if chrome_procs > 0 {
        vec![AppGroup { name: "Chrome".into(), proc_count: chrome_procs, rss_bytes: chrome_rss }]
    } else {
        Vec::new()
    };
    Census {
        agent_sessions,
        app_groups,
        ide_helpers: HelperRollup { count: 0, rss_bytes: 0 },
        orphans: OrphanCensus {
            total_count: 150,
            total_rss_bytes: 1_000_000_000,
            orphan_count: 5,
            orphan_rss_bytes: 0,
            orphans_by_program: Vec::new(),
        },
        monitor_total: MonitorTotal {
            proc_count: 13,
            rss_bytes: managed_rss,
            cpu_secs_total: num(1000.0),
            percent_of_one_core: num(49.2),
            longest_life_secs: 78_000,
        },
        pressure_kills: None,
        ..healthy_census(t)
    }
}

fn consumer_deltas(then: &CensusSummary, now: &CensusSummary) -> Vec<ConsumerDelta> {
    deltas::consumer_deltas(then, now, &sizes_of(then, now))
}

fn consumer_words(
    name: &str,
    then_count: u32,
    now_count: u32,
    then_b: u64,
    now_b: u64,
) -> String {
    let size = if then_b == now_b {
        fmt_bytes(now_b as f64)
    } else {
        fmt_bytes((now_b as f64 - then_b as f64).abs())
    };
    deltas::consumer_words(name, then_count, now_count, then_b, now_b, &size)
}

fn dimension_words(d: Dimension, then: f64, now: f64) -> String {
    deltas::dimension_words(d, num(now - then), &delta_words(d, then, now))
}

fn compute(
    now: Timestamp,
    then_at: Timestamp,
    lookback: &str,
    episode_id: Option<u128>,
    stored: Option<&CensusSummary>,
    samples: &[Sample],
    censuses: &[Census],
    config: &PressureConfig,
) -> Deltas {
    let n = delta_numbers(now, then_at, stored, samples, censuses, config);
    deltas::compute(now, then_at, lookback, episode_id, stored, samples, censuses, config, &n)
}

fn sentence(
    lookback: &str,
    requested: u64,
    actual: Option<u64>,
    verdict: Option<&VerdictDelta>,
    dimensions: &Vec<DimensionDelta>,
    consumers: &Vec<ConsumerDelta>,
    gap: Option<u64>,
    config: &PressureConfig,
) -> String {
    let size = |d: Dimension| {
        dimensions
            .iter()
            .find(|x| x.dimension == d)
            .map_or(String::new(), |x| fmt_bytes(float(x.delta).abs()))
    };
    deltas::sentence(
        lookback,
        requested,
        actual,
        &verdict.cloned(),
        dimensions,
        consumers,
        gap,
        &size(Dimension::Swap),
        &size(Dimension::Memory),
        config,
    )
}

#[test]
fn summarise_groups_every_kind_biggest_first() {
    let c = delta_census(0, 100, 8_000_000_000, 2, 1_000_000_000, 1_400_000_000);
    let s = summarise(&c);
    let names: Vec<&str> = s.consumers.iter().map(|c| c.name.as_str()).collect();
    assert_eq!(names, vec!["Chrome", "aider", "managed agents"]);
    assert_eq!(s.consumers[0].kind, ConsumerKind::AppGroup);
    assert_eq!(s.consumers[1].kind, ConsumerKind::Sessions);
    assert_eq!(s.consumers[1].count, 2);
    assert_eq!(s.consumers[1].rss_bytes, 2_000_000_000);
    assert_eq!(s.consumers[2].kind, ConsumerKind::Rollup);
    assert_eq!(s.orphan_count, 5);
}

#[test]
fn summarise_drops_zero_sized_consumers() {
    let c = delta_census(0, 0, 0, 0, 0, 0);
    let s = summarise(&c);
    assert!(
        s.consumers.is_empty(),
        "a consumer that costs nothing is not a consumer, got {:?}",
        s.consumers
    );
}

#[test]
fn consumer_deltas_rank_by_absolute_change_not_current_size() {
    let then = summarise(&delta_census(
        0,
        100,
        8_000_000_000,
        8,
        187_500_000,
        1_000_000_000,
    ));
    let now = summarise(&delta_census(
        300,
        100,
        8_000_000_000,
        10,
        210_000_000,
        1_000_000_000,
    ));
    let d = consumer_deltas(&then, &now);
    assert_eq!(
        d[0].name, "aider",
        "the mover ranks first, not the largest"
    );
    assert_eq!(d[0].then_count, 8);
    assert_eq!(d[0].now_count, 10);
    let chrome = d.iter().find(|c| c.name == "Chrome").unwrap();
    assert_eq!(chrome.delta_bytes, 0);
    assert!(
        d.iter().position(|c| c.name == "aider").unwrap()
            < d.iter().position(|c| c.name == "Chrome").unwrap()
    );
}

#[test]
fn consumer_words_lead_with_the_action() {
    assert_eq!(
        consumer_words("Chrome", 128, 34, 8_000_000_000, 4_000_000_000),
        "freed 4.0 GB from Chrome (×128 → ×34)"
    );
    assert_eq!(
        consumer_words("aider", 8, 10, 1_500_000_000, 2_100_000_000),
        "aider grew 600 MB (×8 → ×10)"
    );
    assert_eq!(
        consumer_words("Slack", 3, 3, 2_100_000_000, 2_100_000_000),
        "Slack unchanged at 2.1 GB"
    );
}

#[test]
fn verdict_words_say_changed_or_unchanged() {
    assert_eq!(
        deltas::verdict_words(Level::Restless, Level::Wailing),
        "pressure Restless → Wailing"
    );
    assert_eq!(
        deltas::verdict_words(Level::Restless, Level::Restless),
        "pressure unchanged at Restless"
    );
}

#[test]
fn dimension_words_render_per_unit() {
    assert_eq!(
        dimension_words(Dimension::Swap, 12_000_000_000.0, 13_300_000_000.0),
        "swap 12.0 GB → 13.3 GB (+1.3 GB)"
    );
    assert!(
        dimension_words(Dimension::Memory, 9_000_000_000.0, 8_100_000_000.0).contains("−900 MB")
    );
    assert_eq!(
        dimension_words(Dimension::Cpu, 0.20, 0.98),
        "CPU 20% → 98% busy (+78 pts)"
    );
}

#[test]
fn compute_reports_verdict_dimensions_and_consumers() {
    let n = 20;
    let samples: Vec<Sample> = (0..n)
        .map(|i| {
            let t = (i as i64) * 15;
            delta_sample(
                t,
                1_000_000_000 + (i as u64) * 100_000_000,
                400_000 - (i as u64) * 5_000,
            )
        })
        .collect();
    let then_at = samples[0].sampled_at;
    let now = samples[n - 1].sampled_at;
    let censuses = vec![
        delta_census(0, 100, 8_000_000_000, 8, 187_500_000, 1_000_000_000),
        delta_census(
            (n as i64 - 1) * 15,
            100,
            4_000_000_000,
            10,
            210_000_000,
            1_000_000_000,
        ),
    ];
    let d = compute(now, then_at, "1h", None, None, &samples, &censuses, &cfg());

    assert!(d.verdict.is_some());
    let swap = d
        .dimensions
        .iter()
        .find(|x| x.dimension == Dimension::Swap)
        .unwrap();
    assert!(float(swap.delta) > 0.0, "swap grew");
    assert_eq!(swap.observation_gap_secs, None, "evenly spaced, no hole");
    let chrome = d.consumers.iter().find(|c| c.name == "Chrome").unwrap();
    assert!(chrome.delta_bytes < 0);
    assert!(d.census.is_some());
    assert!(d.summary.contains("Chrome"));
}

#[test]
fn compute_uses_the_stored_override_when_live_censuses_are_swept() {
    let n = 10;
    let samples: Vec<Sample> = (0..n)
        .map(|i| delta_sample((i as i64) * 15, 2_000_000_000, 400_000))
        .collect();
    let live_now = delta_census(
        (n as i64 - 1) * 15,
        40,
        4_900_000_000,
        10,
        210_000_000,
        2_100_000_000,
    );
    let stored_peak = summarise(&delta_census(
        -100_000,
        102,
        8_900_000_000,
        8,
        187_500_000,
        1_400_000_000,
    ));

    let d = compute(
        samples[n - 1].sampled_at,
        samples[0].sampled_at,
        "episode",
        Some(0),
        Some(&stored_peak),
        &samples,
        std::slice::from_ref(&live_now),
        &cfg(),
    );
    let chrome = d.consumers.iter().find(|c| c.name == "Chrome").unwrap();
    assert_eq!(
        chrome.then_bytes, 8_900_000_000,
        "compared against the STORED peak"
    );
    assert!(chrome.delta_bytes < 0, "Chrome fell from the peak");
    assert_eq!(d.episode_id, Some(0));
    assert!(d.summary.starts_with("since the episode opened"));
}

#[test]
fn compute_reports_an_observation_gap() {
    let mut samples: Vec<Sample> = (0..5)
        .map(|i| delta_sample((i as i64) * 15, 2_000_000_000, 400_000))
        .collect();
    for i in 0..5 {
        samples.push(delta_sample(60 + 1200 + (i as i64) * 15, 3_000_000_000, 300_000));
    }
    let then_at = samples[0].sampled_at;
    let now = samples.last().unwrap().sampled_at;
    let d = compute(now, then_at, "1h", None, None, &samples, &[], &cfg());
    assert_eq!(d.observation_gap_secs, Some(1200));
    assert!(
        d.summary.contains("spans a hole"),
        "sentence: {}",
        d.summary
    );
}

#[test]
fn compute_reports_a_truncated_lookback() {
    let samples: Vec<Sample> = (0..10)
        .map(|i| delta_sample((i as i64) * 15, 2_000_000_000, 400_000))
        .collect();
    let now = samples.last().unwrap().sampled_at;
    let then_at = samples[0].sampled_at.before(3600);
    let d = compute(now, then_at, "1h", None, None, &samples, &[], &cfg());
    assert_eq!(d.anchor_at, Some(samples[0].sampled_at));
    assert!(d.actual_lookback_secs.unwrap() < d.requested_lookback_secs);
    assert!(d.summary.contains("asked for"), "sentence: {}", d.summary);
}

#[test]
fn the_sentence_says_still_when_freeing_did_not_help() {
    let verdict = VerdictDelta {
        then_level: Level::Restless,
        now_level: Level::Wailing,
        then_source: None,
        now_source: None,
        detail: deltas::verdict_words(Level::Restless, Level::Wailing),
    };
    let dimensions = vec![DimensionDelta {
        dimension: Dimension::Swap,
        key: "swap".into(),
        label: "Swap".into(),
        unit: Unit::Bytes,
        was: num(12_000_000_000.0),
        now: num(13_300_000_000.0),
        delta: num(1_300_000_000.0),
        then_at: at(0),
        now_at: at(300),
        observation_gap_secs: None,
        detail: String::new(),
    }];
    let consumers = vec![ConsumerDelta {
        name: "Chrome".into(),
        kind: ConsumerKind::AppGroup,
        then_count: 128,
        now_count: 34,
        then_bytes: 8_000_000_000,
        now_bytes: 4_000_000_000,
        delta_bytes: -4_000_000_000,
        detail: consumer_words("Chrome", 128, 34, 8_000_000_000, 4_000_000_000),
    }];
    let s = sentence(
        "1h",
        3600,
        Some(3600),
        Some(&verdict),
        &dimensions,
        &consumers,
        None,
        &cfg(),
    );
    assert!(s.contains("freed 4.0 GB from Chrome"), "sentence: {s}");
    assert!(s.contains("swap still grew 1.3 GB"), "sentence: {s}");
    assert!(s.contains("Restless → Wailing"), "sentence: {s}");
}


#[test]
fn an_assessment_with_given_ids_opens_each_dimension_once() {
    let config = cfg();
    let mut samples = healthy(60, 900);
    for s in samples.iter_mut() {
        s.memory_pressure_level = 4;
    }
    let n = numbers(&samples, &[], &config);
    let mut ids = [0u128; 14];
    for (k, id) in ids.iter_mut().enumerate() {
        *id = 100 + k as u128;
    }
    let slots = FreeSlots { cpu: 0, memory: 0 };
    let first = assess_with_ids(at(900), &samples, &[], &[], &config, &n, slots, &ids);
    let opened: Vec<u128> = first.episodes.iter().map(|e| e.id).collect();
    assert!(!opened.is_empty());
    for e in &first.episodes {
        let place = ALL_DIMENSIONS.iter().position(|d| *d == e.dimension).unwrap();
        assert_eq!(e.id, 100 + place as u128);
    }
    let again =
        assess_with_ids(at(900), &samples, &[], &first.episodes, &config, &n, slots, &[7; 14]);
    for e in &again.episodes {
        assert!(opened.contains(&e.id), "no second episode for {:?}", e.dimension);
    }
    assert_eq!(again.pressure.dimensions, first.pressure.dimensions);
}

#[test]
fn levels_are_named_and_unknown_ones_are_told() {
    assert_eq!(wording::thermal_level_name(3), "trapping");
    assert_eq!(wording::thermal_level_name(9), "level 9");
    assert_eq!(wording::kernel_level_name(4), "critical");
    assert_eq!(wording::kernel_level_name(3), "level 3");
}

#[test]
fn a_signed_size_carries_its_direction() {
    assert_eq!(deltas::signed_bytes(num(1.5), "1.5 GB"), "+1.5 GB");
    assert_eq!(deltas::signed_bytes(num(-1.5), "1.5 GB"), "−1.5 GB");
}

#[test]
fn a_degenerate_line_is_past_or_not_past() {
    let flat = rising(1.0, 1.0, 0.0, 1);
    assert_eq!(severity_of(&flat, num(2.0), num(0.0), num(f64::INFINITY)), num(1.0));
    assert_eq!(severity_of(&flat, num(0.5), num(0.0), num(f64::NEG_INFINITY)), num(-1.0));
    let line = rising(1.0, 3.0, 0.0, 1);
    assert_eq!(severity_of(&line, num(f64::NAN), num(2.0), num(0.0)), num(-1.0));
    assert_eq!(severity_of(&line, num(2.0), num(2.0), num(0.5)), num(0.5));
}

#[test]
fn each_dimension_has_its_lever() {
    assert_eq!(action_for(Dimension::Disk, Band::Yellow, 0), Action::OpenDiskTool);
    assert_eq!(action_for(Dimension::Orphans, Band::Red, 0), Action::ReapOrphans);
    assert_eq!(action_for(Dimension::Corporate, Band::Red, 0), Action::Nothing);
    assert_eq!(action_for(Dimension::Uptime, Band::Red, 0), Action::Reboot);
}

#[test]
fn the_names_are_the_same_whatever_order_the_census_lists_them_in() {
    let forward = full_census();
    let mut backward = full_census();
    backward.agent_sessions.reverse();
    backward.app_groups.reverse();
    backward.cpu_consumers.reverse();
    backward.monitor_agents.reverse();
    for d in ALL_DIMENSIONS {
        assert_eq!(who_of(d, &forward, &cfg()), who_of(d, &backward, &cfg()), "{d:?}");
    }
}

#[test]
fn findings_of_one_action_are_ranked_by_how_far_past_the_line() {
    let config = cfg();
    let n = numbers(&healthy(41, 600), &[], &config);
    let mut swap = dr(Dimension::Swap, 5e9, None);
    swap.band = Band::Red;
    swap.severity = num(1.1);
    let mut thrash = dr(Dimension::Thrash, 900.0, None);
    thrash.band = Band::Red;
    thrash.severity = num(8.0);
    let verdict = Verdict { level: Level::Wailing, source: Some(Source::Memory) };
    for readings in [vec![swap.clone(), thrash.clone()], vec![thrash.clone(), swap.clone()]] {
        let told = build_findings(&readings, &verdict, None, None, &n, &config);
        let order: Vec<Dimension> = told.iter().map(|f| f.dimension).collect();
        assert_eq!(order, vec![Dimension::Thrash, Dimension::Swap]);
    }
    swap.severity = num(8.0);
    let told = build_findings(&vec![thrash, swap], &verdict, None, None, &n, &config);
    assert_eq!(told[0].dimension, Dimension::Swap, "a tie goes as declared");
}

#[test]
fn a_summary_is_the_same_whatever_order_the_census_lists_them_in() {
    let forward = full_census();
    let mut backward = full_census();
    backward.agent_sessions.reverse();
    backward.app_groups.reverse();
    assert_eq!(summarise(&forward), summarise(&backward));
}

#[test]
fn looking_back_from_the_other_end_negates_every_change() {
    let then = summarise(&full_census());
    let mut c = full_census();
    c.app_groups[0].rss_bytes += 7_000;
    c.app_groups.pop();
    c.orphans.orphan_count += 1;
    let now = summarise(&c);
    let forth = deltas::consumer_deltas(&then, &now, &Vec::new());
    let back = deltas::consumer_deltas(&now, &then, &Vec::new());
    assert_eq!(forth.len(), back.len());
    assert!(forth.iter().any(|d| d.delta_bytes != 0));
    for (f, b) in forth.iter().zip(&back) {
        assert_eq!((f.kind, &f.name), (b.kind, &b.name));
        assert_eq!((f.then_bytes, f.now_bytes), (b.now_bytes, b.then_bytes));
        assert_eq!(f.delta_bytes, -b.delta_bytes);
    }
}

#[test]
fn a_change_of_very_many_bytes_keeps_its_sign() {
    let half = 1u64 << 63;
    let words = |then_b, now_b| deltas::consumer_words("Chrome", 1, 1, then_b, now_b, "some");
    assert_eq!(words(half - 1, half), "Chrome grew some");
    assert_eq!(words(0, u64::MAX), "Chrome grew some");
    assert_eq!(words(half, half - 1), "freed some from Chrome");
    assert_eq!(words(u64::MAX, 0), "freed some from Chrome");
    assert_eq!(words(half, half), "Chrome unchanged at some");
    let mut c = full_census();
    c.app_groups[0].rss_bytes = half - 1;
    let then = summarise(&c);
    c.app_groups[0].rss_bytes = half;
    let now = summarise(&c);
    let name = c.app_groups[0].name.clone();
    let d = deltas::consumer_deltas(&then, &now, &Vec::new());
    assert_eq!(d[0].name, name);
    assert_eq!(d[0].delta_bytes, 1);
}

#[test]
fn a_summary_holds_each_program_once_with_all_its_sessions() {
    let mut c = full_census();
    let mut again = c.agent_sessions[0].clone();
    again.pid = 900;
    again.rss_bytes = 86_000_000;
    c.agent_sessions.push(again);
    let s = summarise(&c);
    let of: Vec<_> = s.consumers.iter().filter(|x| x.name == "aider").collect();
    assert_eq!(of.len(), 1);
    assert_eq!((of[0].count, of[0].rss_bytes), (2, 1_000_000_000));
    for (i, x) in s.consumers.iter().enumerate() {
        assert!(x.count > 0 && x.rss_bytes > 0);
        assert!(s.consumers[i + 1..].iter().all(|y| (x.kind, &x.name) != (y.kind, &y.name)));
    }
}

#[test]
fn consumers_that_moved_equally_far_are_by_name() {
    let mut c = full_census();
    c.app_groups.truncate(1);
    let mut group = |name: &str, rss_bytes| {
        let mut g = c.app_groups[0].clone();
        g.name = name.into();
        g.rss_bytes = rss_bytes;
        c.app_groups.push(g);
        summarise(&c)
    };
    group("Zed", 5_000);
    let then = group("Arc", 9_000);
    let mut later = c.clone();
    later.app_groups[1].rss_bytes = 6_000;
    later.app_groups[2].rss_bytes = 8_000;
    let d = deltas::consumer_deltas(&then, &summarise(&later), &Vec::new());
    assert_eq!((d[0].name.as_str(), d[0].delta_bytes), ("Arc", -1_000));
    assert_eq!((d[1].name.as_str(), d[1].delta_bytes), ("Zed", 1_000));
}
