//! The verdict, reduced to what an agent should do.
//!
//! A decision, not a number: wait or not, how many more workers fit, when to ask
//! again, and why. It is advice: nothing here blocks anything.
use vstd::prelude::*;

use super::band::Band;
use super::config::{Dimension, PressureConfig, Source};
use super::level::Level;
use super::verdict::{reading_of, DimensionReading, Pressure, PressureView, ReadingView};
use crate::outside::{uppercase, uppercase_of};
use crate::text::{decimal, decimal_text, join, joined, mentions, push_decimal, views};
use crate::time::{rewound, Timestamp};

verus! {

broadcast use crate::text::lemma_views_push;

/// True, false, or not known: a source without a reading is neither under
/// pressure nor fine.
#[derive(Clone, Copy, Debug, PartialEq, Eq, Structural)]
pub enum ConditionStatus {
    True,
    False,
    Unknown,
}

/// One statement about the machine.
#[derive(Clone, Debug, PartialEq, Eq)]
pub struct Condition {
    /// `Ready`, or the source followed by `Pressure`.
    pub kind: String,
    pub status: ConditionStatus,
    /// The worst dimension and its band (`SwapRed`), or `AllGreen`, or
    /// `NoReading`.
    pub reason: String,
    /// The worst dimension's detail, as it stands.
    pub message: String,
    /// When the worst dimension entered its band.
    pub since: Option<Timestamp>,
}

#[verifier::ext_equal]
pub struct ConditionView {
    pub kind: Seq<char>,
    pub status: ConditionStatus,
    pub reason: Seq<char>,
    pub message: Seq<char>,
    pub since: Option<Timestamp>,
}

impl View for Condition {
    type V = ConditionView;

    open spec fn view(&self) -> ConditionView {
        ConditionView {
            kind: self.kind@,
            status: self.status,
            reason: self.reason@,
            message: self.message@,
            since: self.since,
        }
    }
}

/// The answer.
#[derive(Clone, Debug, PartialEq, Eq)]
pub struct Headroom {
    pub evaluated_at: Timestamp,
    pub level: Level,
    /// Do not start new work right now.
    pub should_wait: bool,
    /// How many more workers the machine can take.
    pub recommended_parallelism: u32,
    /// Seconds before asking again, when there is something to wait for.
    pub retry_after_secs: Option<u64>,
    pub cores: Option<u32>,
    /// One sentence a person can read.
    pub reason: String,
    /// `Ready` first, then one per source.
    pub conditions: Vec<Condition>,
}

#[verifier::ext_equal]
pub struct HeadroomView {
    pub evaluated_at: Timestamp,
    pub level: Level,
    pub should_wait: bool,
    pub recommended_parallelism: u32,
    pub retry_after_secs: Option<u64>,
    pub cores: Option<u32>,
    pub reason: Seq<char>,
    pub conditions: Seq<ConditionView>,
}

impl View for Headroom {
    type V = HeadroomView;

    open spec fn view(&self) -> HeadroomView {
        HeadroomView {
            evaluated_at: self.evaluated_at,
            level: self.level,
            should_wait: self.should_wait,
            recommended_parallelism: self.recommended_parallelism,
            retry_after_secs: self.retry_after_secs,
            cores: self.cores,
            reason: self.reason@,
            conditions: views(self.conditions@),
        }
    }
}

/// The sources that get a condition, in order.
pub const CONDITION_SOURCES: [Source; 6] = [
    Source::Cpu,
    Source::Memory,
    Source::Thermal,
    Source::Disk,
    Source::Sprawl,
    Source::Corporate,
];

/// What is known of the machine itself, from the newest sample.
#[derive(Clone, Copy, Debug, PartialEq, Eq, Structural)]
pub struct MachineFacts {
    pub cores: u32,
    pub mem_total_bytes: u64,
}

/// How many workers the two resources a worker takes have room for.
#[derive(Clone, Copy, Debug, PartialEq, Eq, Structural)]
pub struct FreeSlots {
    /// The idle cores, rounded down.
    pub cpu: u32,
    /// What is available beyond the reserve, over what one worker takes, rounded
    /// down.
    pub memory: u32,
}

/// The sources whose red stops new work whatever the level.
pub open spec fn zeroes(s: Source) -> bool {
    s == Source::Memory || s == Source::Thermal || s == Source::Disk
}

fn is_zeroing(s: Source) -> (r: bool)
    ensures
        r == zeroes(s),
{
    match s {
        Source::Memory => true,
        Source::Thermal => true,
        Source::Disk => true,
        _ => false,
    }
}

/// Which readings are looked at.
#[derive(Clone, Copy, Debug, PartialEq, Eq, Structural)]
pub enum Pick {
    /// A red that stops new work. A long uptime is none.
    ZeroingRed,
    /// Out of band, and of a source.
    Blamed(Source),
    /// Out of band, of a source, and not the uptime.
    Pressing(Source),
}

impl Pick {
    pub open spec fn takes(self, r: ReadingView) -> bool {
        match self {
            Pick::ZeroingRed => r.band == Band::Red && zeroes(r.dimension.blames()) && r.dimension
                != Dimension::Uptime,
            Pick::Blamed(s) => r.dimension.blames() == s && r.band != Band::Green,
            Pick::Pressing(s) => r.dimension.blames() == s && r.band != Band::Green && r.dimension
                != Dimension::Uptime,
        }
    }

    fn is_taken(self, r: &DimensionReading) -> (b: bool)
        ensures
            b == self.takes(r@),
    {
        match self {
            Pick::ZeroingRed => r.band == Band::Red && is_zeroing(r.dimension.source())
                && r.dimension != Dimension::Uptime,
            Pick::Blamed(s) => r.dimension.source() == s && r.band != Band::Green,
            Pick::Pressing(s) => r.dimension.source() == s && r.band != Band::Green && r.dimension
                != Dimension::Uptime,
        }
    }
}

/// The worst of the readings that are looked at, in the order the dominant
/// source is found by.
pub open spec fn worst_pick(s: Seq<ReadingView>, pick: Pick) -> Option<ReadingView>
    decreases s.len(),
{
    if s.len() == 0 {
        None
    } else {
        let front = worst_pick(s.drop_last(), pick);
        let r = s.last();
        if !pick.takes(r) {
            front
        } else {
            match front {
                Some(w) if w.contribution().outranks(r.contribution()) => front,
                _ => Some(r),
            }
        }
    }
}

pub open spec fn reading_view(r: Option<&DimensionReading>) -> Option<ReadingView> {
    match r {
        Some(x) => Some(x@),
        None => None,
    }
}

fn worst_reading<'a>(p: &'a Pressure, pick: Pick) -> (r: Option<&'a DimensionReading>)
    ensures
        reading_view(r) == worst_pick(p@.dimensions, pick),
{
    let ghost all = p@.dimensions;
    let mut worst: Option<&'a DimensionReading> = None;
    let mut i: usize = 0;
    while i < p.dimensions.len()
        invariant
            i <= p.dimensions.len(),
            all == views(p.dimensions@),
            reading_view(worst) == worst_pick(all.take(i as int), pick),
        decreases p.dimensions.len() - i,
    {
        let r = &p.dimensions[i];
        assert(all.take(i + 1).drop_last() =~= all.take(i as int));
        assert(all.take(i + 1).last() == r@);
        if pick.is_taken(r) {
            let keep = match worst {
                Some(w) => w.contribution().is_worse(&r.contribution()),
                None => false,
            };
            if !keep {
                worst = Some(r);
            }
        }
        i = i + 1;
    }
    assert(all.take(i as int) =~= all);
    worst
}

/// A source's primary dimension: the first one declared, the uptime left aside.
pub open spec fn primary(s: Seq<ReadingView>, source: Source) -> Option<ReadingView>
    decreases s.len(),
{
    if s.len() == 0 {
        None
    } else if s[0].dimension.blames() == source && s[0].dimension != Dimension::Uptime {
        Some(s[0])
    } else {
        primary(s.drop_first(), source)
    }
}

fn primary_reading<'a>(p: &'a Pressure, source: Source) -> (r: Option<&'a DimensionReading>)
    ensures
        reading_view(r) == primary(p@.dimensions, source),
{
    let ghost all = p@.dimensions;
    let mut i: usize = 0;
    assert(all.skip(0) =~= all);
    while i < p.dimensions.len()
        invariant
            i <= p.dimensions.len(),
            all == views(p.dimensions@),
            primary(all, source) == primary(all.skip(i as int), source),
        decreases p.dimensions.len() - i,
    {
        let r = &p.dimensions[i];
        assert(all.skip(i as int)[0] == r@);
        assert(all.skip(i as int).drop_first() =~= all.skip(i + 1));
        if r.dimension.source() == source && r.dimension != Dimension::Uptime {
            return Some(r);
        }
        i = i + 1;
    }
    None
}

pub open spec fn band_text(b: Band) -> Seq<char> {
    match b {
        Band::Green => "green"@,
        Band::Yellow => "yellow"@,
        Band::Red => "red"@,
    }
}

pub open spec fn band_camel(b: Band) -> Seq<char> {
    match b {
        Band::Green => "Green"@,
        Band::Yellow => "Yellow"@,
        Band::Red => "Red"@,
    }
}

fn band_word(b: Band) -> (r: &'static str)
    ensures
        r@ == band_text(b),
{
    match b {
        Band::Green => "green",
        Band::Yellow => "yellow",
        Band::Red => "red",
    }
}

fn band_word_camel(b: Band) -> (r: &'static str)
    ensures
        r@ == band_camel(b),
{
    match b {
        Band::Green => "Green",
        Band::Yellow => "Yellow",
        Band::Red => "Red",
    }
}

/// A key with its first letter in upper case: `KernelPressure`.
pub open spec fn capitalised(key: Seq<char>) -> Seq<char> {
    if key.len() == 0 {
        key
    } else {
        uppercase_of(key[0]) + key.skip(1)
    }
}

fn camel(key: &str) -> (r: String)
    ensures
        r@ == capitalised(key@),
{
    let n: usize = key.unicode_len();
    if n == 0 {
        return key.to_owned();
    }
    let mut out = uppercase(key.get_char(0));
    let rest = key.substring_char(1, n);
    assert(rest@ =~= key@.skip(1));
    out.append(rest);
    out
}

pub open spec fn kind_text(source: Source) -> Seq<char> {
    (match source {
        Source::Cpu => "Cpu"@,
        Source::Memory => "Memory"@,
        Source::Thermal => "Thermal"@,
        Source::Disk => "Disk"@,
        Source::Sprawl => "Sprawl"@,
        Source::Corporate => "Corporate"@,
    }) + "Pressure"@
}

fn condition_type(source: Source) -> (r: String)
    ensures
        r@ == kind_text(source),
{
    let name = match source {
        Source::Cpu => "Cpu",
        Source::Memory => "Memory",
        Source::Thermal => "Thermal",
        Source::Disk => "Disk",
        Source::Sprawl => "Sprawl",
        Source::Corporate => "Corporate",
    };
    let mut out = name.to_owned();
    out.append("Pressure");
    out
}

/// Held time at a human scale: `45s`, `12m`, `1h2m`.
pub open spec fn held_text(secs: u64) -> Seq<char> {
    if secs < 60 {
        decimal(secs as nat) + "s"@
    } else if secs < 3600 {
        decimal((secs / 60) as nat) + "m"@
    } else {
        decimal((secs / 3600) as nat) + "h"@ + decimal(((secs % 3600) / 60) as nat) + "m"@
    }
}

fn fmt_held(secs: u64) -> (r: String)
    ensures
        r@ == held_text(secs),
{
    if secs < 60 {
        let mut out = decimal_text(secs);
        out.append("s");
        out
    } else if secs < 3600 {
        let mut out = decimal_text(secs / 60);
        out.append("m");
        out
    } else {
        let mut out = decimal_text(secs / 3600);
        out.append("h");
        push_decimal(&mut out, (secs % 3600) / 60);
        out.append("m");
        out
    }
}

/// Whether there is a verdict at all.
pub open spec fn ready_condition(p: PressureView) -> ConditionView {
    let ready = p.level != Level::Checking;
    ConditionView {
        kind: "Ready"@,
        status: if ready {
            ConditionStatus::True
        } else {
            ConditionStatus::False
        },
        reason: if ready {
            "VerdictAvailable"@
        } else {
            "Checking"@
        },
        message: if ready {
            decimal(p.sample_count as nat) + " samples, "@ + decimal(p.census_count as nat)
                + " censuses in the window"@
        } else {
            "not enough samples for a verdict yet"@
        },
        since: None,
    }
}

/// The reading that speaks for a source: the worst that is out of band, or the
/// primary one when none is.
pub open spec fn speaks_for(s: Seq<ReadingView>, source: Source) -> Option<ReadingView> {
    match worst_pick(s, Pick::Pressing(source)) {
        Some(r) => Some(r),
        None => primary(s, source),
    }
}

/// What is said of a source.
pub open spec fn source_condition(p: PressureView, source: Source) -> ConditionView {
    match speaks_for(p.dimensions, source) {
        None => ConditionView {
            kind: kind_text(source),
            status: ConditionStatus::Unknown,
            reason: "NoReading"@,
            message: "no "@ + source.label_text() + " reading yet"@,
            since: None,
        },
        Some(r) => ConditionView {
            kind: kind_text(source),
            status: if r.band == Band::Red {
                ConditionStatus::True
            } else {
                ConditionStatus::False
            },
            reason: if r.band == Band::Green {
                "AllGreen"@
            } else {
                capitalised(r.dimension.key_text()) + band_camel(r.band)
            },
            message: r.detail,
            since: Some(rewound(p.evaluated_at, r.held_secs)),
        },
    }
}

/// `Ready`, then one condition per source.
pub open spec fn conditions_of(p: PressureView) -> Seq<ConditionView> {
    seq![
        ready_condition(p),
        source_condition(p, Source::Cpu),
        source_condition(p, Source::Memory),
        source_condition(p, Source::Thermal),
        source_condition(p, Source::Disk),
        source_condition(p, Source::Sprawl),
        source_condition(p, Source::Corporate),
    ]
}

fn condition_for(p: &Pressure, source: Source) -> (c: Condition)
    ensures
        c@ == source_condition(p@, source),
{
    let speaker = match worst_reading(p, Pick::Pressing(source)) {
        Some(r) => Some(r),
        None => primary_reading(p, source),
    };
    match speaker {
        None => {
            let mut message = "no ".to_owned();
            message.append(source.label());
            message.append(" reading yet");
            Condition {
                kind: condition_type(source),
                status: ConditionStatus::Unknown,
                reason: "NoReading".to_owned(),
                message,
                since: None,
            }
        },
        Some(r) => {
            let reason = if r.band == Band::Green {
                "AllGreen".to_owned()
            } else {
                let mut out = camel(r.dimension.key());
                out.append(band_word_camel(r.band));
                out
            };
            Condition {
                kind: condition_type(source),
                status: if r.band == Band::Red {
                    ConditionStatus::True
                } else {
                    ConditionStatus::False
                },
                reason,
                message: r.detail.clone(),
                since: Some(p.evaluated_at.before(r.held_secs)),
            }
        },
    }
}

/// `Ready`, then one condition per source in `CONDITION_SOURCES` order.
pub fn conditions_for(p: &Pressure) -> (r: Vec<Condition>)
    ensures
        views(r@) == conditions_of(p@),
{
    let mut out: Vec<Condition> = Vec::new();
    let ready = p.level != Level::Checking;
    let message = if ready {
        let mut m = decimal_text(p.sample_count as u64);
        m.append(" samples, ");
        push_decimal(&mut m, p.census_count as u64);
        m.append(" censuses in the window");
        m
    } else {
        "not enough samples for a verdict yet".to_owned()
    };
    let first = Condition {
        kind: "Ready".to_owned(),
        status: if ready {
            ConditionStatus::True
        } else {
            ConditionStatus::False
        },
        reason: if ready {
            "VerdictAvailable".to_owned()
        } else {
            "Checking".to_owned()
        },
        message,
        since: None,
    };
    assert(first@ =~= ready_condition(p@));
    out.push(first);
    let mut i: usize = 0;
    assert(views(out@) =~= conditions_of(p@).take(1));
    while i < 6
        invariant
            i <= 6,
            views(out@) == conditions_of(p@).take(i + 1),
        decreases 6 - i,
    {
        let source = CONDITION_SOURCES[i];
        out.push(condition_for(p, source));
        i = i + 1;
        assert(views(out@) =~= conditions_of(p@).take(i + 1));
    }
    assert(views(out@) =~= conditions_of(p@));
    out
}

/// The cause that is named when there is no work to be had: the dominant source's
/// worst dimension when the level is the cause, else the red that stops work.
pub open spec fn cause_of(p: PressureView) -> Option<ReadingView> {
    let zeroing = worst_pick(p.dimensions, Pick::ZeroingRed);
    if p.level.height() >= Level::Wailing.height() {
        match p.source {
            Some(s) => match worst_pick(p.dimensions, Pick::Blamed(s)) {
                Some(r) => Some(r),
                None => zeroing,
            },
            None => zeroing,
        }
    } else {
        zeroing
    }
}

/// Whether new work must wait: a sustained red, or a fresh one on a source that
/// stops work.
pub open spec fn must_wait(p: PressureView) -> bool {
    p.level.height() >= Level::Wailing.height() || worst_pick(
        p.dimensions,
        Pick::ZeroingRed,
    ) is Some
}

pub open spec fn retry_of(level: Level, config: PressureConfig) -> u64 {
    match level {
        Level::Shrieking => config.headroom_retry_shrieking_secs,
        Level::Wailing => config.headroom_retry_wailing_secs,
        _ => config.headroom_retry_red_secs,
    }
}

pub open spec fn cause_text(cause: Option<ReadingView>) -> Seq<char> {
    match cause {
        Some(r) => r.label + " is "@ + band_text(r.band) + " — "@ + r.detail + " (held "@
            + held_text(r.held_secs) + ")"@,
        None => "the level alone says so"@,
    }
}

pub open spec fn halved_up(n: u32) -> u32 {
    (n / 2 + n % 2) as u32
}

pub open spec fn quartered_up(n: u32) -> u32 {
    (n / 4 + if n % 4 == 0 {
        0int
    } else {
        1int
    }) as u32
}

pub open spec fn lesser(a: u32, b: u32) -> u32 {
    if a < b {
        a
    } else {
        b
    }
}

/// Idle cores, or all of them where the CPU was not read.
pub open spec fn cpu_room(p: PressureView, cores: u32, slots: FreeSlots) -> u32 {
    match reading_of(p.dimensions, Dimension::Cpu) {
        Some(r) if r.value.finite() => slots.cpu,
        _ => cores,
    }
}

/// Room by memory, where memory was read and a worker takes any.
pub open spec fn memory_room(p: PressureView, slots: FreeSlots, config: PressureConfig) -> Option<
    u32,
> {
    match reading_of(p.dimensions, Dimension::Memory) {
        Some(r) if r.value.finite() && config.headroom_memory_per_slot_bytes > 0 => Some(
            slots.memory,
        ),
        _ => None,
    }
}

/// The most an uneasy machine gives.
pub open spec fn cap_of(level: Level, cores: u32) -> u32 {
    match level {
        Level::Stirring => halved_up(cores),
        Level::Restless => quartered_up(cores),
        _ => cores,
    }
}

pub open spec fn thermal_yellow(p: PressureView) -> bool {
    reading_of(p.dimensions, Dimension::Thermal) matches Some(r) && r.band == Band::Yellow
}

/// How many more workers fit: the scarcer resource, capped by the level, halved
/// by heat, and never none.
pub open spec fn room_of(
    p: PressureView,
    cores: u32,
    slots: FreeSlots,
    config: PressureConfig,
) -> u32 {
    let cpu = cpu_room(p, cores, slots);
    let scarce = match memory_room(p, slots, config) {
        Some(m) => lesser(cpu, m),
        None => cpu,
    };
    let capped = lesser(scarce, cap_of(p.level, cores));
    let cooled = if thermal_yellow(p) {
        halved_up(capped)
    } else {
        capped
    };
    if cooled == 0 {
        1
    } else {
        cooled
    }
}

/// The details behind the room, where there are any.
pub open spec fn facts_of(p: PressureView) -> Seq<Seq<char>> {
    let cpu = match reading_of(p.dimensions, Dimension::Cpu) {
        Some(r) => seq![r.detail],
        None => Seq::empty(),
    };
    match reading_of(p.dimensions, Dimension::Memory) {
        Some(r) => cpu.push(r.detail),
        None => cpu,
    }
}

pub open spec fn facts_text(p: PressureView) -> Seq<char> {
    if facts_of(p).len() == 0 {
        Seq::empty()
    } else {
        " — "@ + joined(facts_of(p), "; "@)
    }
}

/// The decision.
pub open spec fn headroom_of(
    p: PressureView,
    machine: Option<MachineFacts>,
    slots: FreeSlots,
    config: PressureConfig,
) -> HeadroomView {
    let waiting = HeadroomView {
        evaluated_at: p.evaluated_at,
        level: p.level,
        should_wait: true,
        recommended_parallelism: 0,
        retry_after_secs: None,
        cores: match machine {
            Some(m) => Some(m.cores),
            None => None,
        },
        reason: Seq::empty(),
        conditions: conditions_of(p),
    };
    if machine is None || p.level == Level::Checking {
        HeadroomView {
            retry_after_secs: Some(config.headroom_retry_checking_secs),
            reason: "Checking: not enough samples for a verdict yet — this is not headroom. Wait; retry in "@
                + decimal(config.headroom_retry_checking_secs as nat) + "s."@,
            ..waiting
        }
    } else if must_wait(p) {
        HeadroomView {
            retry_after_secs: Some(retry_of(p.level, config)),
            reason: p.level.name_text() + ": "@ + cause_text(cause_of(p)) + ". Wait; retry in "@
                + decimal(retry_of(p.level, config) as nat) + "s."@,
            ..waiting
        }
    } else {
        let cores = machine->0.cores;
        let room = room_of(p, cores, slots, config);
        HeadroomView {
            should_wait: false,
            recommended_parallelism: room,
            reason: p.level.name_text() + ": room for "@ + decimal(room as nat) + " more worker"@
                + (if room == 1 {
                ""@
            } else {
                "s"@
            }) + " on "@ + decimal(cores as nat) + " cores"@ + facts_text(p) + "."@,
            ..waiting
        }
    }
}

fn least_of(a: u32, b: u32) -> (r: u32)
    ensures
        r == lesser(a, b),
{
    if a < b {
        a
    } else {
        b
    }
}

fn half_up(n: u32) -> (r: u32)
    ensures
        r == halved_up(n),
{
    n / 2 + n % 2
}

fn quarter_up(n: u32) -> (r: u32)
    ensures
        r == quartered_up(n),
{
    if n % 4 == 0 {
        n / 4
    } else {
        n / 4 + 1
    }
}

fn room(p: &Pressure, cores: u32, slots: FreeSlots, config: &PressureConfig) -> (r: u32)
    ensures
        r == room_of(p@, cores, slots, *config),
{
    let cpu: u32 = match p.reading(Dimension::Cpu) {
        Some(r) => if r.value.is_finite() {
            slots.cpu
        } else {
            cores
        },
        None => cores,
    };
    let scarce: u32 = match p.reading(Dimension::Memory) {
        Some(r) => if r.value.is_finite() && config.headroom_memory_per_slot_bytes > 0 {
            least_of(cpu, slots.memory)
        } else {
            cpu
        },
        None => cpu,
    };
    let cap: u32 = match p.level {
        Level::Stirring => half_up(cores),
        Level::Restless => quarter_up(cores),
        _ => cores,
    };
    let capped: u32 = least_of(scarce, cap);
    let warm = match p.reading(Dimension::Thermal) {
        Some(r) => r.band == Band::Yellow,
        None => false,
    };
    let cooled: u32 = if warm {
        half_up(capped)
    } else {
        capped
    };
    // A machine that is not in trouble can always run one more thing.
    if cooled == 0 {
        1
    } else {
        cooled
    }
}

fn facts(p: &Pressure) -> (r: String)
    ensures
        r@ == facts_text(p@),
{
    let mut details: Vec<String> = Vec::new();
    match p.reading(Dimension::Cpu) {
        Some(r) => details.push(r.detail.clone()),
        None => {},
    }
    match p.reading(Dimension::Memory) {
        Some(r) => details.push(r.detail.clone()),
        None => {},
    }
    assert(views(details@) =~= facts_of(p@));
    if details.len() == 0 {
        assert(facts_of(p@).len() == 0);
        return String::new();
    }
    assert(facts_of(p@).len() > 0);
    let mut out = " — ".to_owned();
    out.append(join(&details, "; ").as_str());
    out
}

fn cause_words(cause: Option<&DimensionReading>) -> (r: String)
    ensures
        r@ == cause_text(reading_view(cause)),
{
    match cause {
        Some(r) => {
            let mut out = r.label.clone();
            out.append(" is ");
            out.append(band_word(r.band));
            out.append(" — ");
            out.append(r.detail.as_str());
            out.append(" (held ");
            out.append(fmt_held(r.held_secs).as_str());
            out.append(")");
            out
        },
        None => "the level alone says so".to_owned(),
    }
}

/// Reduce a verdict to a decision.
///
/// `machine` comes from the newest sample; without one, as without a verdict, the
/// answer is to wait, never an invented capacity.
pub fn derive(
    p: &Pressure,
    machine: Option<MachineFacts>,
    slots: FreeSlots,
    config: &PressureConfig,
) -> (r: Headroom)
    ensures
        r@ == headroom_of(p@, machine, slots, *config),
{
    let conditions = conditions_for(p);
    let cores: Option<u32> = match machine {
        Some(m) => Some(m.cores),
        None => None,
    };
    let facts_known: Option<MachineFacts> = if p.level == Level::Checking {
        None
    } else {
        machine
    };
    let machine_now = match facts_known {
        Some(m) => m,
        None => {
            let retry: u64 = config.headroom_retry_checking_secs;
            let mut reason =
                "Checking: not enough samples for a verdict yet — this is not headroom. Wait; retry in ".to_owned();
            push_decimal(&mut reason, retry);
            reason.append("s.");
            return Headroom {
                evaluated_at: p.evaluated_at,
                level: p.level,
                should_wait: true,
                recommended_parallelism: 0,
                retry_after_secs: Some(retry),
                cores,
                reason,
                conditions,
            };
        },
    };
    let sustained = p.level.rank() >= Level::Wailing.rank();
    let zeroing_red = worst_reading(p, Pick::ZeroingRed);
    if sustained || zeroing_red.is_some() {
        let retry: u64 = match p.level {
            Level::Shrieking => config.headroom_retry_shrieking_secs,
            Level::Wailing => config.headroom_retry_wailing_secs,
            _ => config.headroom_retry_red_secs,
        };
        let cause = if sustained {
            let blamed = match p.source {
                Some(s) => worst_reading(p, Pick::Blamed(s)),
                None => None,
            };
            match blamed {
                Some(r) => Some(r),
                None => zeroing_red,
            }
        } else {
            zeroing_red
        };
        assert(reading_view(cause) == cause_of(p@));
        let mut reason = p.level.name().to_owned();
        reason.append(": ");
        reason.append(cause_words(cause).as_str());
        reason.append(". Wait; retry in ");
        push_decimal(&mut reason, retry);
        reason.append("s.");
        return Headroom {
            evaluated_at: p.evaluated_at,
            level: p.level,
            should_wait: true,
            recommended_parallelism: 0,
            retry_after_secs: Some(retry),
            cores,
            reason,
            conditions,
        };
    }
    let slots_free: u32 = room(p, machine_now.cores, slots, config);
    let mut reason = p.level.name().to_owned();
    reason.append(": room for ");
    push_decimal(&mut reason, slots_free as u64);
    reason.append(" more worker");
    reason.append(if slots_free == 1 {
        ""
    } else {
        "s"
    });
    reason.append(" on ");
    push_decimal(&mut reason, machine_now.cores as u64);
    reason.append(" cores");
    reason.append(facts(p).as_str());
    reason.append(".");
    Headroom {
        evaluated_at: p.evaluated_at,
        level: p.level,
        should_wait: false,
        recommended_parallelism: slots_free,
        retry_after_secs: None,
        cores,
        reason,
        conditions,
    }
}

/// Waiting, no room, and a time to ask again are one thing.
pub proof fn law_waiting_is_having_no_room(
    p: PressureView,
    machine: Option<MachineFacts>,
    slots: FreeSlots,
    config: PressureConfig,
)
    ensures
        ({
            let h = headroom_of(p, machine, slots, config);
            &&& h.should_wait <==> h.recommended_parallelism == 0
            &&& h.should_wait <==> h.retry_after_secs is Some
        }),
{
}

/// Headroom is never invented: without a verdict, or without a sample, wait.
pub proof fn law_no_headroom_without_data(
    p: PressureView,
    machine: Option<MachineFacts>,
    slots: FreeSlots,
    config: PressureConfig,
)
    requires
        machine is None || p.level == Level::Checking,
    ensures
        headroom_of(p, machine, slots, config).should_wait,
{
}

/// A red on a source that stops work stops it, at any level. Uptime alone does
/// not speak for its source here.
pub proof fn law_a_zeroing_red_stops_work(
    p: PressureView,
    i: int,
    machine: Option<MachineFacts>,
    slots: FreeSlots,
    config: PressureConfig,
)
    requires
        0 <= i < p.dimensions.len(),
        p.dimensions[i].band == Band::Red,
        zeroes(p.dimensions[i].dimension.blames()),
        p.dimensions[i].dimension != Dimension::Uptime,
    ensures
        headroom_of(p, machine, slots, config).should_wait,
{
    lemma_pick_found(p.dimensions, Pick::ZeroingRed, i);
}

/// A long uptime on its own is no reason to wait: below a sustained red there is
/// room unless some other dimension is red on a source that stops work.
pub proof fn law_a_long_uptime_stops_nothing(
    p: PressureView,
    machine: MachineFacts,
    slots: FreeSlots,
    config: PressureConfig,
)
    requires
        p.level != Level::Checking,
        p.level.height() < Level::Wailing.height(),
        forall|i: int|
            0 <= i < p.dimensions.len() && (#[trigger] p.dimensions[i]).band == Band::Red && zeroes(
                p.dimensions[i].dimension.blames(),
            ) ==> p.dimensions[i].dimension == Dimension::Uptime,
    ensures
        !headroom_of(p, Some(machine), slots, config).should_wait,
{
    lemma_pick_missed(p.dimensions, Pick::ZeroingRed);
}

proof fn lemma_pick_missed(s: Seq<ReadingView>, pick: Pick)
    requires
        forall|i: int| 0 <= i < s.len() ==> !pick.takes(#[trigger] s[i]),
    ensures
        worst_pick(s, pick) is None,
    decreases s.len(),
{
    if s.len() > 0 {
        lemma_pick_missed(s.drop_last(), pick);
    }
}

proof fn lemma_pick_found(s: Seq<ReadingView>, pick: Pick, i: int)
    requires
        0 <= i < s.len(),
        pick.takes(s[i]),
    ensures
        worst_pick(s, pick) is Some,
    decreases s.len(),
{
    if i < s.len() - 1 {
        lemma_pick_found(s.drop_last(), pick, i);
    }
}

/// No more work is recommended than the machine has cores, and less of it the
/// more uneasy the machine is.
pub proof fn law_unease_shrinks_the_room(
    p: PressureView,
    machine: MachineFacts,
    slots: FreeSlots,
    config: PressureConfig,
)
    ensures
        ({
            let n = headroom_of(p, Some(machine), slots, config).recommended_parallelism;
            &&& n <= 1 || n <= machine.cores
            &&& p.level == Level::Stirring ==> n <= 1 || 2 * n <= machine.cores + 1
            &&& p.level == Level::Restless ==> n <= 1 || 4 * n <= machine.cores + 3
            &&& p.level.height() >= Level::Wailing.height() ==> n == 0
        }),
{
}

/// Whatever was read, there are seven conditions in a fixed order.
pub proof fn law_conditions_are_fixed(p: PressureView)
    ensures
        conditions_of(p).len() == 1 + CONDITION_SOURCES@.len(),
        conditions_of(p)[0].kind == "Ready"@,
        forall|i: int|
            0 <= i < CONDITION_SOURCES@.len() ==> (#[trigger] conditions_of(p)[i + 1]).kind
                == kind_text(CONDITION_SOURCES@[i]),
{
    assert forall|i: int| 0 <= i < CONDITION_SOURCES@.len() implies (#[trigger] conditions_of(
        p,
    )[i + 1]).kind == kind_text(CONDITION_SOURCES@[i]) by {
    }
}

/// A source that was not read is unknown, not fine.
pub proof fn law_unread_is_unknown(p: PressureView, source: Source)
    requires
        forall|i: int|
            0 <= i < p.dimensions.len() ==> (#[trigger] p.dimensions[i]).dimension.blames()
                != source || p.dimensions[i].dimension == Dimension::Uptime,
    ensures
        source_condition(p, source).status == ConditionStatus::Unknown,
        source_condition(p, source).since is None,
{
    lemma_nothing_picked(p.dimensions, source);
    lemma_no_primary(p.dimensions, source);
}

proof fn lemma_nothing_picked(s: Seq<ReadingView>, source: Source)
    requires
        forall|i: int|
            0 <= i < s.len() ==> (#[trigger] s[i]).dimension.blames() != source || s[i].dimension
                == Dimension::Uptime,
    ensures
        worst_pick(s, Pick::Pressing(source)) is None,
    decreases s.len(),
{
    if s.len() > 0 {
        lemma_nothing_picked(s.drop_last(), source);
        assert(!Pick::Pressing(source).takes(s[s.len() - 1]));
    }
}

proof fn lemma_no_primary(s: Seq<ReadingView>, source: Source)
    requires
        forall|i: int|
            0 <= i < s.len() ==> (#[trigger] s[i]).dimension.blames() != source || s[i].dimension
                == Dimension::Uptime,
    ensures
        primary(s, source) is None,
    decreases s.len(),
{
    if s.len() > 0 {
        let rest = s.drop_first();
        assert forall|i: int| 0 <= i < rest.len() implies (#[trigger] rest[i]).dimension.blames()
            != source || rest[i].dimension == Dimension::Uptime by {
            assert(s[i + 1].dimension.blames() != source || s[i + 1].dimension
                == Dimension::Uptime);
        }
        lemma_no_primary(rest, source);
        assert(s[0].dimension.blames() != source || s[0].dimension == Dimension::Uptime);
    }
}

/// The dimensions whose red stops new work: memory in each of its shapes, heat and
/// the data volume. A saturated CPU is queued for, not stopped by.
pub open spec fn stops_work(d: Dimension) -> bool {
    match d {
        Dimension::Memory => true,
        Dimension::Swap => true,
        Dimension::KernelPressure => true,
        Dimension::Thrash => true,
        Dimension::KernelFree => true,
        Dimension::Compressor => true,
        Dimension::Jetsam => true,
        Dimension::Thermal => true,
        Dimension::Disk => true,
        Dimension::Cpu => false,
        Dimension::Agents => false,
        Dimension::Orphans => false,
        Dimension::Corporate => false,
        Dimension::Uptime => false,
    }
}

/// Who has to wait: whoever asks without a sample or without a verdict, while a red
/// is sustained, and while any dimension that stops work is red. Nobody else.
pub proof fn law_who_has_to_wait(
    p: PressureView,
    machine: Option<MachineFacts>,
    slots: FreeSlots,
    config: PressureConfig,
)
    ensures
        headroom_of(p, machine, slots, config).should_wait <==> {
            ||| machine is None
            ||| p.level == Level::Checking
            ||| p.level == Level::Wailing
            ||| p.level == Level::Shrieking
            ||| exists|i: int|
                0 <= i < p.dimensions.len() && (#[trigger] p.dimensions[i]).band == Band::Red
                    && stops_work(p.dimensions[i].dimension)
        },
{
    if exists|i: int|
        0 <= i < p.dimensions.len() && (#[trigger] p.dimensions[i]).band == Band::Red && stops_work(
            p.dimensions[i].dimension,
        ) {
        let i = choose|i: int|
            0 <= i < p.dimensions.len() && (#[trigger] p.dimensions[i]).band == Band::Red
                && stops_work(p.dimensions[i].dimension);
        lemma_pick_found(p.dimensions, Pick::ZeroingRed, i);
    } else {
        assert forall|i: int| 0 <= i < p.dimensions.len() implies !Pick::ZeroingRed.takes(
            #[trigger] p.dimensions[i],
        ) by {
            assert(!(p.dimensions[i].band == Band::Red && stops_work(p.dimensions[i].dimension)));
        }
        lemma_pick_missed(p.dimensions, Pick::ZeroingRed);
    }
}

/// Whether the CPU was read as a number.
pub open spec fn cpu_read(p: PressureView) -> bool {
    reading_of(p.dimensions, Dimension::Cpu) matches Some(r) && r.value.finite()
}

/// Whether memory was read as a number.
pub open spec fn memory_read(p: PressureView) -> bool {
    reading_of(p.dimensions, Dimension::Memory) matches Some(r) && r.value.finite()
}

/// No more workers are recommended than any one resource has room for: not more
/// than the larger of one and the idle cores, the memory slots, the cores, half of
/// them on a machine that stirs and a quarter on a restless one.
pub proof fn law_the_scarcest_resource_decides(
    p: PressureView,
    machine: Option<MachineFacts>,
    slots: FreeSlots,
    config: PressureConfig,
)
    ensures
        ({
            let n = headroom_of(p, machine, slots, config).recommended_parallelism;
            &&& memory_read(p) && config.headroom_memory_per_slot_bytes > 0 ==> n <= 1 || n
                <= slots.memory
            &&& cpu_read(p) ==> n <= 1 || n <= slots.cpu
            &&& machine matches Some(m) ==> {
                &&& n <= 1 || n <= m.cores
                &&& p.level == Level::Stirring ==> n <= 1 || 2 * (n - 1) < m.cores
                &&& p.level == Level::Restless ==> n <= 1 || 4 * (n - 1) < m.cores
            }
        }),
{
}

/// Heat halves the room: with the thermal row in yellow no more is recommended than
/// half of what any one resource has room for, rounded up.
pub proof fn law_heat_halves_the_room(
    p: PressureView,
    machine: MachineFacts,
    slots: FreeSlots,
    config: PressureConfig,
)
    requires
        reading_of(p.dimensions, Dimension::Thermal) matches Some(r) && r.band == Band::Yellow,
    ensures
        ({
            let n = headroom_of(p, Some(machine), slots, config).recommended_parallelism;
            &&& memory_read(p) && config.headroom_memory_per_slot_bytes > 0 ==> n <= 1 || 2 * (n
                - 1) < slots.memory
            &&& cpu_read(p) ==> n <= 1 || 2 * (n - 1) < slots.cpu
            &&& n <= 1 || 2 * (n - 1) < machine.cores
        }),
{
}

/// Nothing is held back: whoever need not wait gets one worker at least, and, on a
/// machine that is not warm, every number that all the resources have room for.
/// What was not read limits nothing.
pub proof fn law_no_room_is_held_back(
    p: PressureView,
    machine: MachineFacts,
    slots: FreeSlots,
    config: PressureConfig,
    k: u32,
)
    requires
        !headroom_of(p, Some(machine), slots, config).should_wait,
    ensures
        ({
            let n = headroom_of(p, Some(machine), slots, config).recommended_parallelism;
            let warm = reading_of(p.dimensions, Dimension::Thermal) matches Some(r) && r.band
                == Band::Yellow;
            let fits = {
                &&& memory_read(p) && config.headroom_memory_per_slot_bytes > 0 ==> k
                    <= slots.memory
                &&& cpu_read(p) ==> k <= slots.cpu
                &&& k <= machine.cores
                &&& p.level == Level::Stirring ==> k == 0 || 2 * (k - 1) < machine.cores
                &&& p.level == Level::Restless ==> k == 0 || 4 * (k - 1) < machine.cores
            };
            &&& n >= 1
            &&& fits && !warm ==> n >= k
            &&& fits && warm ==> 2 * n >= k
        }),
{
}

/// An answer is about the verdict it was asked of: its time, its level and the
/// cores of the machine. It says when to ask again by what stands in the way.
pub proof fn law_when_to_ask_again(
    p: PressureView,
    machine: Option<MachineFacts>,
    slots: FreeSlots,
    config: PressureConfig,
)
    ensures
        ({
            let h = headroom_of(p, machine, slots, config);
            &&& h.evaluated_at == p.evaluated_at
            &&& h.level == p.level
            &&& machine matches Some(m) ==> h.cores == Some(m.cores)
            &&& machine is None ==> h.cores is None
            &&& !h.should_wait ==> h.retry_after_secs is None
            &&& machine is None || p.level == Level::Checking ==> h.retry_after_secs == Some(
                config.headroom_retry_checking_secs,
            )
            &&& machine is Some && p.level == Level::Shrieking ==> h.retry_after_secs == Some(
                config.headroom_retry_shrieking_secs,
            )
            &&& machine is Some && p.level == Level::Wailing ==> h.retry_after_secs == Some(
                config.headroom_retry_wailing_secs,
            )
            &&& h.should_wait && machine is Some && (p.level == Level::Quiet || p.level
                == Level::Stirring || p.level == Level::Restless) ==> h.retry_after_secs == Some(
                config.headroom_retry_red_secs,
            )
        }),
{
}

proof fn lemma_worst_pick(s: Seq<ReadingView>, pick: Pick)
    ensures
        worst_pick(s, pick) matches Some(w) ==> s.contains(w) && pick.takes(w),
    decreases s.len(),
{
    if s.len() > 0 {
        let front = s.drop_last();
        lemma_worst_pick(front, pick);
        assert(s[s.len() - 1] == s.last());
        if let Some(w) = worst_pick(front, pick) {
            let k = choose|k: int| 0 <= k < front.len() && front[k] == w;
            assert(s[k] == w);
        }
    }
}

/// Whoever is told to wait is told why: below a sustained red the reason tells the
/// detail of a red row that stops work; with one, that of a row out of green of the
/// source that is blamed, where it has one.
pub proof fn law_waiting_is_explained(
    p: PressureView,
    machine: MachineFacts,
    slots: FreeSlots,
    config: PressureConfig,
)
    requires
        p.level != Level::Checking,
        headroom_of(p, Some(machine), slots, config).should_wait,
    ensures
        ({
            let h = headroom_of(p, Some(machine), slots, config);
            &&& mentions(h.reason, p.level.name_text())
            &&& p.level.height() < Level::Wailing.height() ==> exists|i: int|
                0 <= i < p.dimensions.len() && (#[trigger] p.dimensions[i]).band == Band::Red
                    && stops_work(p.dimensions[i].dimension) && mentions(
                    h.reason,
                    p.dimensions[i].detail,
                ) && mentions(h.reason, p.dimensions[i].label)
            &&& p.level.height() >= Level::Wailing.height() && (p.source matches Some(s) && exists|
                i: int,
            |
                0 <= i < p.dimensions.len() && (#[trigger] p.dimensions[i]).dimension.blames() == s
                    && p.dimensions[i].band != Band::Green) ==> exists|i: int|
                0 <= i < p.dimensions.len() && Some(
                    (#[trigger] p.dimensions[i]).dimension.blames(),
                ) == p.source && p.dimensions[i].band != Band::Green && mentions(
                    h.reason,
                    p.dimensions[i].detail,
                )
        }),
{
    let h = headroom_of(p, Some(machine), slots, config);
    let none = Seq::<char>::empty();
    let retry = decimal(retry_of(p.level, config) as nat);
    let name = p.level.name_text();
    let tail = ". Wait; retry in "@ + retry + "s."@;
    assert(must_wait(p));
    assert(h.reason == name + ": "@ + cause_text(cause_of(p)) + ". Wait; retry in "@ + retry
        + "s."@);
    assert(h.reason =~= (none + name) + (": "@ + cause_text(cause_of(p)) + tail));
    lemma_worst_pick(p.dimensions, Pick::ZeroingRed);
    if let Some(s) = p.source {
        lemma_worst_pick(p.dimensions, Pick::Blamed(s));
        if exists|i: int|
            0 <= i < p.dimensions.len() && (#[trigger] p.dimensions[i]).dimension.blames() == s
                && p.dimensions[i].band != Band::Green {
            let i = choose|i: int|
                0 <= i < p.dimensions.len() && (#[trigger] p.dimensions[i]).dimension.blames() == s
                    && p.dimensions[i].band != Band::Green;
            lemma_pick_found(p.dimensions, Pick::Blamed(s), i);
        }
    }
    if let Some(r) = cause_of(p) {
        let held = " (held "@ + held_text(r.held_secs) + ")"@;
        let middle = " is "@ + band_text(r.band) + " — "@;
        assert(h.reason =~= ((name + ": "@ + r.label + middle) + r.detail) + (held + tail));
        assert(h.reason =~= ((name + ": "@) + r.label) + (middle + r.detail + held + tail));
        let i = choose|i: int| 0 <= i < p.dimensions.len() && p.dimensions[i] == r;
        assert(p.dimensions[i] == r);
    }
}

/// Whether a row speaks for a source: it is one of its dimensions, and not the
/// uptime.
pub open spec fn is_of_source(r: ReadingView, s: Source) -> bool {
    r.dimension.blames() == s && r.dimension != Dimension::Uptime
}

proof fn lemma_primary(s: Seq<ReadingView>, source: Source)
    ensures
        primary(s, source) matches Some(r) ==> s.contains(r) && is_of_source(r, source),
        primary(s, source) is None ==> forall|i: int|
            0 <= i < s.len() ==> !is_of_source(#[trigger] s[i], source),
    decreases s.len(),
{
    if s.len() > 0 {
        let rest = s.drop_first();
        lemma_primary(rest, source);
        if is_of_source(s[0], source) {
            assert(s.contains(s[0]));
        } else if let Some(r) = primary(rest, source) {
            let k = choose|k: int| 0 <= k < rest.len() && rest[k] == r;
            assert(s[k + 1] == r);
        } else {
            assert forall|i: int| 0 <= i < s.len() implies !is_of_source(#[trigger] s[i], source) by {
                if i > 0 {
                    assert(rest[i - 1] == s[i]);
                }
            }
        }
    }
}

proof fn lemma_pick_is_worst(s: Seq<ReadingView>, pick: Pick, i: int)
    requires
        0 <= i < s.len(),
        pick.takes(s[i]),
    ensures
        worst_pick(s, pick) matches Some(w) && w.band.height() >= s[i].band.height(),
    decreases s.len(),
{
    if i < s.len() - 1 {
        lemma_pick_is_worst(s.drop_last(), pick, i);
    }
}

/// What the condition of a source says: true exactly while one of its rows is red,
/// unknown exactly while it has none, and false otherwise. It tells the detail of
/// one of them, and since when that one is in its band; all green is said only
/// where all are.
pub proof fn law_a_condition_speaks_for_its_source(p: PressureView, k: int)
    requires
        0 <= k < 6,
    ensures
        ({
            let source = CONDITION_SOURCES@[k];
            let c = conditions_of(p)[k + 1];
            let some = exists|i: int|
                0 <= i < p.dimensions.len() && is_of_source(#[trigger] p.dimensions[i], source);
            let red = exists|i: int|
                0 <= i < p.dimensions.len() && is_of_source(#[trigger] p.dimensions[i], source)
                    && p.dimensions[i].band == Band::Red;
            &&& c.status == ConditionStatus::True <==> red
            &&& c.status == ConditionStatus::Unknown <==> !some
            &&& some ==> exists|i: int|
                0 <= i < p.dimensions.len() && is_of_source(#[trigger] p.dimensions[i], source)
                    && c.message == p.dimensions[i].detail && c.since == Some(
                    rewound(p.evaluated_at, p.dimensions[i].held_secs),
                ) && (p.dimensions[i].band == Band::Red <==> red) && (p.dimensions[i].band
                    == Band::Green <==> c.reason == "AllGreen"@) && (p.dimensions[i].band
                    == Band::Green ==> forall|j: int|
                    0 <= j < p.dimensions.len() && is_of_source(#[trigger] p.dimensions[j], source)
                        ==> p.dimensions[j].band == Band::Green)
            &&& !some ==> c.since is None && c.reason == "NoReading"@
        }),
{
    let source = CONDITION_SOURCES@[k];
    let rows = p.dimensions;
    let pick = Pick::Pressing(source);
    let c = conditions_of(p)[k + 1];
    assert(c == source_condition(p, source));
    lemma_primary(rows, source);
    lemma_worst_pick(rows, pick);
    lemma_reasons_differ();
    assert forall|j: int|
        0 <= j < rows.len() && is_of_source(#[trigger] rows[j], source) && rows[j].band
            != Band::Green implies worst_pick(rows, pick) matches Some(w) && w.band.height()
        >= rows[j].band.height() by {
        lemma_pick_is_worst(rows, pick, j);
    }
    if let Some(r) = speaks_for(rows, source) {
        let i = choose|i: int| 0 <= i < rows.len() && rows[i] == r;
        assert(is_of_source(rows[i], source));
        if r.band != Band::Green {
            lemma_reason_of(r);
        }
        if r.band == Band::Green {
            assert(worst_pick(rows, pick) is None);
        }
    }
}

proof fn lemma_reasons_differ()
    ensures
        "AllGreen"@ != "NoReading"@,
{
    reveal_strlit("AllGreen");
    reveal_strlit("NoReading");
    assert("AllGreen"@.len() == 8);
    assert("NoReading"@.len() == 9);
}

/// The reason of a row out of green is not that all is green: it ends otherwise.
proof fn lemma_reason_of(r: ReadingView)
    requires
        r.band != Band::Green,
    ensures
        capitalised(r.dimension.key_text()) + band_camel(r.band) != "AllGreen"@,
{
    reveal_strlit("AllGreen");
    reveal_strlit("Yellow");
    reveal_strlit("Red");
    let text = capitalised(r.dimension.key_text()) + band_camel(r.band);
    assert(text.last() == band_camel(r.band).last());
    assert("AllGreen"@[7] == 'n');
    assert("AllGreen"@.last() == 'n');
}

/// Of two rows the first is no better: its band is worse, or it is as bad and at
/// least as far past its line, declared first where they are equally far.
pub open spec fn no_better(w: ReadingView, r: ReadingView) -> bool {
    ||| w.band.height() > r.band.height()
    ||| w.band == r.band && r.severity.below(w.severity)
    ||| w.band == r.band && r.severity.same(w.severity) && w.dimension.place()
        <= r.dimension.place()
}

/// No row has a severity that is not a number.
pub open spec fn all_weighed(s: Seq<ReadingView>) -> bool {
    forall|i: int| 0 <= i < s.len() ==> !(#[trigger] s[i]).severity.nan()
}

proof fn lemma_pick_is_no_better(s: Seq<ReadingView>, pick: Pick)
    requires
        all_weighed(s),
    ensures
        worst_pick(s, pick) matches Some(w) ==> !w.severity.nan() && forall|i: int|
            0 <= i < s.len() && pick.takes(#[trigger] s[i]) ==> no_better(w, s[i]),
    decreases s.len(),
{
    if s.len() > 0 {
        let front = s.drop_last();
        let r = s.last();
        assert(all_weighed(front)) by {
            assert forall|i: int| 0 <= i < front.len() implies !(
            #[trigger] front[i]).severity.nan() by {
                assert(!s[i].severity.nan());
            }
        }
        assert(!s[s.len() - 1].severity.nan());
        lemma_pick_is_no_better(front, pick);
        if let Some(w) = worst_pick(s, pick) {
            assert forall|i: int| 0 <= i < s.len() && pick.takes(#[trigger] s[i]) implies no_better(
                w,
                s[i],
            ) by {
                if i < front.len() {
                    assert(front[i] == s[i]);
                    let v = worst_pick(front, pick)->0;
                    assert(worst_pick(front, pick) is Some) by {
                        lemma_pick_is_worst(front, pick, i);
                    }
                    assert(no_better(v, s[i]));
                }
            }
        }
    }
}

/// Of all that stands in the way the worst is told: the reason for waiting has the
/// words of a row that no other row of its kind is worse than.
pub proof fn law_the_worst_is_told(
    p: PressureView,
    machine: MachineFacts,
    slots: FreeSlots,
    config: PressureConfig,
)
    requires
        p.level != Level::Checking,
        all_weighed(p.dimensions),
        headroom_of(p, Some(machine), slots, config).should_wait,
    ensures
        ({
            let h = headroom_of(p, Some(machine), slots, config);
            &&& p.level != Level::Wailing && p.level != Level::Shrieking ==> exists|r: ReadingView|
                #[trigger] p.dimensions.contains(r) && r.band == Band::Red && stops_work(
                    r.dimension,
                ) && is_explained_by(h, p.level, r) && forall|i: int|
                    0 <= i < p.dimensions.len() && (#[trigger] p.dimensions[i]).band == Band::Red
                        && stops_work(p.dimensions[i].dimension) ==> no_better(r, p.dimensions[i])
            &&& (p.level == Level::Wailing || p.level == Level::Shrieking) && (p.source matches Some(
                s,
            ) && exists|i: int|
                0 <= i < p.dimensions.len() && (#[trigger] p.dimensions[i]).dimension.blames() == s
                    && p.dimensions[i].band != Band::Green) ==> exists|r: ReadingView|
                #[trigger] p.dimensions.contains(r) && Some(r.dimension.blames()) == p.source
                    && r.band != Band::Green && is_explained_by(h, p.level, r) && forall|i: int|
                    0 <= i < p.dimensions.len() && Some(
                        (#[trigger] p.dimensions[i]).dimension.blames(),
                    ) == p.source && p.dimensions[i].band != Band::Green ==> no_better(
                        r,
                        p.dimensions[i],
                    )
        }),
{
    let h = headroom_of(p, Some(machine), slots, config);
    let rows = p.dimensions;
    assert(must_wait(p));
    lemma_worst_pick(rows, Pick::ZeroingRed);
    lemma_pick_is_no_better(rows, Pick::ZeroingRed);
    assert forall|i: int|
        0 <= i < rows.len() && (#[trigger] rows[i]).band == Band::Red && stops_work(
            rows[i].dimension,
        ) implies Pick::ZeroingRed.takes(rows[i]) by {}
    if let Some(s) = p.source {
        lemma_worst_pick(rows, Pick::Blamed(s));
        lemma_pick_is_no_better(rows, Pick::Blamed(s));
        if exists|i: int|
            0 <= i < rows.len() && (#[trigger] rows[i]).dimension.blames() == s && rows[i].band
                != Band::Green {
            let i = choose|i: int|
                0 <= i < rows.len() && (#[trigger] rows[i]).dimension.blames() == s
                    && rows[i].band != Band::Green;
            lemma_pick_found(rows, Pick::Blamed(s), i);
        }
        assert forall|i: int|
            0 <= i < rows.len() && (#[trigger] rows[i]).dimension.blames() == s && rows[i].band
                != Band::Green implies Pick::Blamed(s).takes(rows[i]) by {}
    }
    if let Some(r) = cause_of(p) {
        let retry = decimal(retry_of(p.level, config) as nat);
        let tail = ". Wait; retry in "@ + retry + "s."@;
        let told = r.label + " is "@ + band_text(r.band) + " — "@ + r.detail + " (held "@
            + held_text(r.held_secs) + ")"@;
        assert(h.reason =~= p.level.name_text() + ": "@ + told + tail);
        assert(h.reason =~= (p.level.name_text() + ": "@ + told) + ". Wait; retry in "@ + retry
            + "s."@);
        assert(h.retry_after_secs == Some(retry_of(p.level, config)));
        assert(is_explained_by(h, p.level, r));
    }
}

/// The reason is the level and then a row: its label, its band, its detail and how
/// long it has held; and it ends with when to ask again.
pub open spec fn is_explained_by(h: HeadroomView, level: Level, r: ReadingView) -> bool {
    h.retry_after_secs matches Some(retry) && h.reason == level.name_text() + ": "@ + (r.label
        + " is "@ + (if r.band == Band::Red {
        "red"@
    } else if r.band == Band::Yellow {
        "yellow"@
    } else {
        "green"@
    }) + " — "@ + r.detail + " (held "@ + held_text(r.held_secs) + ")"@) + ". Wait; retry in "@
        + decimal(retry as nat) + "s."@
}

/// Room is explained: the reason tells the level, how many workers fit, on how many
/// cores, and the details of the CPU and of memory where they were read.
pub proof fn law_room_is_explained(
    p: PressureView,
    machine: MachineFacts,
    slots: FreeSlots,
    config: PressureConfig,
)
    requires
        !headroom_of(p, Some(machine), slots, config).should_wait,
    ensures
        ({
            let h = headroom_of(p, Some(machine), slots, config);
            let n = h.recommended_parallelism;
            &&& mentions(h.reason, p.level.name_text())
            &&& mentions(h.reason, "room for "@ + decimal(n as nat) + " more worker"@)
            &&& mentions(h.reason, " on "@ + decimal(machine.cores as nat) + " cores"@)
            &&& reading_of(p.dimensions, Dimension::Cpu) matches Some(r) ==> mentions(
                h.reason,
                r.detail,
            )
            &&& reading_of(p.dimensions, Dimension::Memory) matches Some(r) ==> mentions(
                h.reason,
                r.detail,
            )
        }),
{
    let h = headroom_of(p, Some(machine), slots, config);
    let n = decimal(h.recommended_parallelism as nat);
    let name = p.level.name_text();
    let cores = decimal(machine.cores as nat);
    let plural = if h.recommended_parallelism == 1 {
        ""@
    } else {
        "s"@
    };
    let facts = facts_text(p);
    assert(h.reason == name + ": room for "@ + n + " more worker"@ + plural + " on "@ + cores
        + " cores"@ + facts + "."@);
    lemma_room_words(name, n, plural, cores, facts);
    lemma_facts(p);
    if let Some(c) = reading_of(p.dimensions, Dimension::Cpu) {
        lemma_within(h.reason, facts, c.detail);
    }
    if let Some(m) = reading_of(p.dimensions, Dimension::Memory) {
        lemma_within(h.reason, facts, m.detail);
    }
}

proof fn lemma_within(text: Seq<char>, part: Seq<char>, bit: Seq<char>)
    requires
        mentions(text, part),
        mentions(part, bit),
    ensures
        mentions(text, bit),
{
    let (a, b) = choose|a: Seq<char>, b: Seq<char>| text == #[trigger] (a + part + b);
    let (x, y) = choose|x: Seq<char>, y: Seq<char>| part == #[trigger] (x + bit + y);
    assert(text =~= (a + x) + bit + (y + b));
}

proof fn lemma_room_words(
    name: Seq<char>,
    n: Seq<char>,
    plural: Seq<char>,
    cores: Seq<char>,
    facts: Seq<char>,
)
    ensures
        ({
            let text = name + ": room for "@ + n + " more worker"@ + plural + " on "@ + cores
                + " cores"@ + facts + "."@;
            &&& mentions(text, name)
            &&& mentions(text, "room for "@ + n + " more worker"@)
            &&& mentions(text, " on "@ + cores + " cores"@)
            &&& mentions(text, facts)
        }),
{
    let text = name + ": room for "@ + n + " more worker"@ + plural + " on "@ + cores + " cores"@
        + facts + "."@;
    let none = Seq::<char>::empty();
    reveal_strlit(": room for ");
    reveal_strlit(": ");
    reveal_strlit("room for ");
    assert(": room for "@ =~= ": "@ + "room for "@);
    let tail = plural + " on "@ + cores + " cores"@ + facts + "."@;
    assert(text =~= none + name + (": room for "@ + n + " more worker"@ + tail));
    assert(text =~= (name + ": "@) + ("room for "@ + n + " more worker"@) + tail);
    let front = name + ": room for "@ + n + " more worker"@ + plural;
    assert(text =~= front + (" on "@ + cores + " cores"@) + (facts + "."@));
    assert(text =~= (front + " on "@ + cores + " cores"@) + facts + "."@);
}

proof fn lemma_facts(p: PressureView)
    ensures
        reading_of(p.dimensions, Dimension::Cpu) matches Some(r) ==> mentions(
            facts_text(p),
            r.detail,
        ),
        reading_of(p.dimensions, Dimension::Memory) matches Some(r) ==> mentions(
            facts_text(p),
            r.detail,
        ),
{
    let none = Seq::<char>::empty();
    let all = facts_of(p);
    let said = facts_text(p);
    match (
        reading_of(p.dimensions, Dimension::Cpu),
        reading_of(p.dimensions, Dimension::Memory),
    ) {
        (Some(c), Some(m)) => {
            assert(all =~= seq![c.detail, m.detail]);
            lemma_joined_two(c.detail, m.detail, "; "@);
            assert(said =~= " — "@ + c.detail + ("; "@ + m.detail));
            assert(said =~= (" — "@ + c.detail + "; "@) + m.detail + none);
        },
        (Some(c), None) => {
            assert(all =~= seq![c.detail]);
            lemma_joined_one(c.detail, "; "@);
            assert(said =~= " — "@ + c.detail + none);
        },
        (None, Some(m)) => {
            assert(all =~= seq![m.detail]);
            lemma_joined_one(m.detail, "; "@);
            assert(said =~= " — "@ + m.detail + none);
        },
        (None, None) => {},
    }
}

proof fn lemma_joined_one(a: Seq<char>, sep: Seq<char>)
    ensures
        joined(seq![a], sep) == a,
{
    reveal_with_fuel(joined, 2);
    assert(joined(seq![a], sep) =~= a);
}

proof fn lemma_joined_two(a: Seq<char>, b: Seq<char>, sep: Seq<char>)
    ensures
        joined(seq![a, b], sep) == a + sep + b,
{
    reveal_with_fuel(joined, 3);
    assert(seq![a, b].drop_last() =~= seq![a]);
    assert(seq![a, b].drop_first() =~= seq![b]);
    lemma_joined_one(a, sep);
    lemma_joined_one(b, sep);
    assert(joined(seq![a, b], sep) =~= a + sep + b);
}

/// A machine is ready exactly where its level is known, and a ready one says how
/// much was looked at.
pub proof fn law_when_a_machine_is_ready(p: PressureView)
    ensures
        ({
            let c = conditions_of(p)[0];
            &&& c.status == ConditionStatus::True <==> p.level != Level::Checking
            &&& c.status != ConditionStatus::Unknown
            &&& c.since is None
            &&& p.level != Level::Checking ==> c.reason == "VerdictAvailable"@ && c.message
                == decimal(p.sample_count as nat) + " samples, "@ + decimal(p.census_count as nat)
                + " censuses in the window"@
            &&& p.level == Level::Checking ==> c.reason == "Checking"@
        }),
{
}

/// The reason a condition gives names the row it speaks of, in its band.
pub proof fn law_a_condition_names_its_row(p: PressureView, k: int)
    requires
        0 <= k < 6,
        all_weighed(p.dimensions),
        exists|i: int|
            0 <= i < p.dimensions.len() && is_of_source(
                #[trigger] p.dimensions[i],
                CONDITION_SOURCES@[k],
            ) && p.dimensions[i].band != Band::Green,
    ensures
        ({
            let source = CONDITION_SOURCES@[k];
            let c = conditions_of(p)[k + 1];
            exists|r: ReadingView| #[trigger]
                p.dimensions.contains(r) && is_of_source(r, source) && c.message == r.detail
                    && c.reason == capitalised(r.dimension.key_text()) + (if r.band == Band::Red {
                    "Red"@
                } else {
                    "Yellow"@
                }) && forall|i: int|
                    0 <= i < p.dimensions.len() && is_of_source(#[trigger] p.dimensions[i], source)
                        ==> no_better(r, p.dimensions[i])
        }),
{
    let source = CONDITION_SOURCES@[k];
    let rows = p.dimensions;
    let pick = Pick::Pressing(source);
    let i = choose|i: int|
        0 <= i < rows.len() && is_of_source(#[trigger] rows[i], source) && rows[i].band
            != Band::Green;
    lemma_pick_found(rows, pick, i);
    lemma_worst_pick(rows, pick);
    lemma_pick_is_no_better(rows, pick);
    let r = worst_pick(rows, pick)->0;
    assert(conditions_of(p)[k + 1] == source_condition(p, source));
    assert(rows.contains(r));
    assert forall|j: int| 0 <= j < rows.len() && is_of_source(#[trigger] rows[j], source) implies no_better(
        r,
        rows[j],
    ) by {
        if rows[j].band != Band::Green {
            assert(pick.takes(rows[j]));
        }
    }
}

/// The conditions come in this order, each under the name of its source.
pub proof fn law_conditions_bear_their_names(p: PressureView)
    ensures
        conditions_of(p).len() == 7,
        conditions_of(p)[1].kind == "Cpu"@ + "Pressure"@,
        conditions_of(p)[2].kind == "Memory"@ + "Pressure"@,
        conditions_of(p)[3].kind == "Thermal"@ + "Pressure"@,
        conditions_of(p)[4].kind == "Disk"@ + "Pressure"@,
        conditions_of(p)[5].kind == "Sprawl"@ + "Pressure"@,
        conditions_of(p)[6].kind == "Corporate"@ + "Pressure"@,
        CONDITION_SOURCES@ == seq![
            Source::Cpu,
            Source::Memory,
            Source::Thermal,
            Source::Disk,
            Source::Sprawl,
            Source::Corporate,
        ],
{
}

/// Held time is told at its own scale and rounded down: in seconds under a minute,
/// in minutes under an hour, and then in hours and minutes.
pub proof fn law_held_time_is_told_at_its_scale(secs: u64)
    ensures
        secs < 60 ==> held_text(secs) == decimal(secs as nat) + "s"@,
        60 <= secs < 3600 ==> exists|m: nat|
            m * 60 <= secs < m * 60 + 60 && held_text(secs) == #[trigger] decimal(m) + "m"@,
        3600 <= secs ==> exists|h: nat, m: nat|
            m < 60 && h * 3600 + m * 60 <= secs < h * 3600 + m * 60 + 60 && held_text(secs)
                == #[trigger] decimal(h) + "h"@ + #[trigger] decimal(m) + "m"@,
{
    if 60 <= secs < 3600 {
        let m = (secs / 60) as nat;
        assert(held_text(secs) == decimal(m) + "m"@);
    } else if 3600 <= secs {
        let h = (secs / 3600) as nat;
        let m = ((secs % 3600) / 60) as nat;
        assert(held_text(secs) == decimal(h) + "h"@ + decimal(m) + "m"@);
    }
}

} // verus!
