//! The words for a reading, composed once so that every surface says the same.
//!
//! Rounding a real number into digits is done before: what arrives here are the
//! digits, and what is decided here is which of them are said, and how.
use vstd::prelude::*;

use super::band::Band;
use super::config::{Dimension, PressureConfig};
use super::verdict::{DimensionReading, ReadingView};
use super::who::zero;
use crate::number::{real_of, Real};
use crate::text::{mentions, owned, signed_decimal, signed_decimal_text};

verus! {

/// The figures of one dimension in digits, ready to be put into words.
#[derive(Clone, Debug, Default)]
pub struct Words {
    /// The value as the detail tells it: `97`, `8.1 GB`, `12.4`.
    pub amount: String,
    /// The value as a whole number.
    pub whole: String,
    /// The trend per minute, without its sign.
    pub pace: String,
    /// The time left until a volume is full.
    pub until_full: String,
    /// How full the swap pool is, in percent.
    pub pool_share: String,
    /// The time left until the swap pool is exhausted.
    pub pool_left: String,
    /// The size of the swap pool.
    pub pool: String,
    /// The value cut to an integer: a level.
    pub level: i64,
}

/// The run queue, in digits.
#[derive(Clone, Debug)]
pub struct Demand {
    /// Run-queue depth per core.
    pub per_core: Real,
    pub text: String,
}

/// The distance between one and the next number after it.
pub open spec fn epsilon() -> Real {
    Real { bits: 0x3CB0_0000_0000_0000 }
}

/// One.
pub open spec fn one() -> Real {
    Real { bits: 0x3FF0_0000_0000_0000 }
}

/// The trend, where it is more than noise.
pub open spec fn moving(trend: Option<Real>) -> Option<Real> {
    match trend {
        Some(t) if epsilon().below(t.size()) => Some(t),
        _ => None,
    }
}

pub open spec fn falls(trend: Option<Real>) -> bool {
    moving(trend) matches Some(t) && t.below(zero())
}

pub open spec fn climbs(trend: Option<Real>) -> bool {
    moving(trend) matches Some(t) && zero().below(t)
}

/// A pool that exists.
pub open spec fn has_pool(swap_total: Option<u64>) -> bool {
    swap_total matches Some(t) && t > 0
}

pub open spec fn kernel_text(level: i64) -> Seq<char> {
    if level == 1 {
        "normal"@
    } else if level == 2 {
        "warn"@
    } else if level == 4 {
        "critical"@
    } else {
        "level "@ + signed_decimal(level as int)
    }
}

pub open spec fn thermal_text(level: i64) -> Seq<char> {
    if level == 0 {
        "nominal"@
    } else if level == 1 {
        "moderate"@
    } else if level == 2 {
        "heavy"@
    } else if level == 3 {
        "trapping"@
    } else if level == 4 {
        "sleeping"@
    } else {
        "level "@ + signed_decimal(level as int)
    }
}

/// What the run queue adds to the words about the CPU. A deep queue over cores
/// that are not busy is contention, not saturation.
pub open spec fn demand_text(value: Real, demand: Option<Demand>, config: PressureConfig) -> Seq<
    char,
> {
    match demand {
        Some(q) => if config.cpu_contention_demand_per_core.below(q.per_core) && value.below(
            config.cpu.yellow,
        ) {
            "; "@ + q.text@ + "× per core queued — scheduling contention, cores not saturated"@
        } else {
            "; "@ + q.text@ + "× per core"@
        },
        None => Seq::empty(),
    }
}

/// The words for a value: what it is, and where it is going.
pub open spec fn detail_text(
    d: Dimension,
    value: Real,
    trend: Option<Real>,
    demand: Option<Demand>,
    swap_total: Option<u64>,
    config: PressureConfig,
    w: Words,
) -> Seq<char> {
    let nothing = Seq::<char>::empty();
    match d {
        Dimension::Cpu => w.amount@ + "% busy"@ + (match moving(trend) {
            Some(t) => ", "@ + (if zero().below(t) {
                "rising"@
            } else {
                "falling"@
            }) + " "@ + w.pace@ + "%/min"@,
            None => nothing,
        }) + demand_text(value, demand, config),
        Dimension::Memory => w.amount@ + " available"@ + (if falls(trend) {
            ", falling "@ + w.pace@ + "/min"@
        } else {
            nothing
        }),
        Dimension::Swap => w.amount@ + " in use"@ + (if climbs(trend) {
            ", climbing "@ + w.pace@ + "/min"@
        } else {
            nothing
        }) + (if has_pool(swap_total) {
            " · pool "@ + w.pool_share@ + "% full"@
        } else {
            nothing
        }),
        Dimension::Thrash => "peak "@ + w.amount@ + " swap ops/sec"@,
        Dimension::KernelPressure => "kernel reports "@ + kernel_text(w.level),
        Dimension::Thermal => "kernel reports "@ + thermal_text(w.level),
        Dimension::Agents => w.amount@ + " stale"@,
        Dimension::Orphans => w.amount@ + " orphaned"@,
        Dimension::Corporate => w.amount@ + "% of one core"@,
        Dimension::Disk => w.amount@ + " free"@ + (if falls(trend) && zero().below(value) {
            ", full in "@ + w.until_full@
        } else {
            nothing
        }),
        Dimension::Uptime => w.amount@ + " days"@,
        Dimension::KernelFree => w.amount@ + "% reclaimable"@,
        Dimension::Compressor => w.amount@ + " held compressed"@,
        Dimension::Jetsam => if one().at_most(value) {
            w.amount@ + " killed under memory pressure"@
        } else {
            "no sustained-pressure kills this window"@
        },
    }
}

/// The sentence for a reading that is out of band.
pub open spec fn message_text(r: ReadingView, swap_total: Option<u64>, w: Words) -> Seq<char> {
    let nothing = Seq::<char>::empty();
    match r.dimension {
        Dimension::Cpu => if r.band == Band::Red {
            "CPU is saturated: cores are "@ + w.amount@ + "% busy."@
        } else {
            "CPU is "@ + w.amount@ + "% busy."@
        },
        Dimension::Thermal => if r.band == Band::Red {
            "The kernel reports "@ + thermal_text(w.level)
                + " thermal pressure. The CPU is being throttled, so load figures understate the work being asked of it."@
        } else {
            "The kernel reports "@ + thermal_text(w.level)
                + " thermal pressure — fans up, headroom shrinking."@
        },
        Dimension::Memory => "Only "@ + w.amount@ + " of RAM available."@,
        Dimension::Swap => w.amount@ + " of swap in use."@ + (if has_pool(swap_total) {
            " The allocated pool is "@ + w.pool_share@ + "% full"@ + (if r.trend_per_sec matches Some(
                t,
            ) && zero().below(t) {
                " and would be exhausted in "@ + w.pool_left@ + " at this rate"@
            } else {
                nothing
            }) + "."@
        } else {
            nothing
        }),
        Dimension::KernelPressure => "The kernel itself reports "@ + kernel_text(w.level)
            + " memory pressure."@,
        Dimension::Thrash => "Peaked at "@ + w.amount@
            + " swap operations per second — the machine is thrashing."@,
        Dimension::Agents => w.amount@ + " agent sessions past the staleness threshold."@,
        Dimension::Orphans => w.amount@
            + " orphaned helper processes. Their parent sessions are gone."@,
        Dimension::Corporate => "Managed agents are using "@ + w.whole@
            + "% of one core — up from the recorded baseline."@,
        Dimension::Disk => w.amount@ + " free on the data volume. "@ + r.detail + (if has_pool(
            swap_total,
        ) && r.value.at_most(real_of(swap_total->0 as nat)) {
            " "@ + w.pool@ + " of the volume is swap."@
        } else {
            nothing
        }),
        Dimension::Uptime => "Up "@ + w.whole@
            + " days. Long uptime with pinned swap means fragmented, unreclaimable memory."@,
        Dimension::KernelFree => "The kernel reports "@ + w.amount@ + "% of memory reclaimable."@,
        Dimension::Compressor => w.amount@ + " held in the compressor pool."@,
        Dimension::Jetsam => "The kernel killed "@ + w.amount@
            + " process(es) under sustained memory pressure."@,
    }
}

/// The kernel's name for its memory level. A value outside the contract is told
/// as the number.
pub fn kernel_level_name(level: i64) -> (r: String)
    ensures
        r@ == kernel_text(level),
{
    if level == 1 {
        "normal".to_owned()
    } else if level == 2 {
        "warn".to_owned()
    } else if level == 4 {
        "critical".to_owned()
    } else {
        let mut out = "level ".to_owned();
        out.append(signed_decimal_text(level).as_str());
        out
    }
}

/// The kernel's name for its thermal level.
pub fn thermal_level_name(level: i64) -> (r: String)
    ensures
        r@ == thermal_text(level),
{
    if level == 0 {
        "nominal".to_owned()
    } else if level == 1 {
        "moderate".to_owned()
    } else if level == 2 {
        "heavy".to_owned()
    } else if level == 3 {
        "trapping".to_owned()
    } else if level == 4 {
        "sleeping".to_owned()
    } else {
        let mut out = "level ".to_owned();
        out.append(signed_decimal_text(level).as_str());
        out
    }
}

/// The trend, where it is more than noise.
pub fn meaningful(trend: Option<Real>) -> (r: Option<Real>)
    ensures
        r == moving(trend),
{
    let eps = Real { bits: 0x3CB0_0000_0000_0000 };
    match trend {
        Some(t) => if eps.is_below(t.abs()) {
            Some(t)
        } else {
            None
        },
        None => None,
    }
}

fn direction(t: Real) -> (r: &'static str)
    ensures
        r@ == (if zero().below(t) {
            "rising"@
        } else {
            "falling"@
        }),
{
    let none = Real { bits: 0 };
    if none.is_below(t) {
        "rising"
    } else {
        "falling"
    }
}

fn pool_exists(swap_total: Option<u64>) -> (r: bool)
    ensures
        r == has_pool(swap_total),
{
    match swap_total {
        Some(t) => t > 0,
        None => false,
    }
}

/// `a`, then `b`, then `c`.
pub(crate) fn three(a: &str, b: &str, c: &str) -> (r: String)
    ensures
        r@ == a@ + b@ + c@,
{
    let mut out = a.to_owned();
    out.append(b);
    out.append(c);
    out
}

fn demand_words(value: Real, demand: Option<&Demand>, config: &PressureConfig) -> (r: String)
    ensures
        r@ == demand_text(value, owned(demand), *config),
{
    match demand {
        Some(q) => if config.cpu_contention_demand_per_core.is_below(q.per_core) && value.is_below(
            config.cpu.yellow,
        ) {
            three(
                "; ",
                q.text.as_str(),
                "× per core queued — scheduling contention, cores not saturated",
            )
        } else {
            three("; ", q.text.as_str(), "× per core")
        },
        None => String::new(),
    }
}

/// The words for a value: what it is, and where it is going.
///
/// Thrash carries no trend: a series of peaks is dominated by when the storm was,
/// and its slope says nothing about now.
pub fn detail_for(
    d: Dimension,
    value: Real,
    trend: Option<Real>,
    demand: Option<&Demand>,
    swap_total: Option<u64>,
    config: &PressureConfig,
    w: &Words,
) -> (r: String)
    ensures
        r@ == detail_text(d, value, trend, owned(demand), swap_total, *config, *w),
{
    let none = Real { bits: 0 };
    let rising = meaningful(trend);
    let mut s = w.amount.clone();
    match d {
        Dimension::Cpu => {
            s.append("% busy");
            let course = match rising {
                Some(t) => {
                    let mut c = ", ".to_owned();
                    c.append(direction(t));
                    c.append(" ");
                    c.append(w.pace.as_str());
                    c.append("%/min");
                    c
                },
                None => String::new(),
            };
            s.append(course.as_str());
            s.append(demand_words(value, demand, config).as_str());
            s
        },
        Dimension::Memory => {
            s.append(" available");
            let down = match rising {
                Some(t) => t.is_below(none),
                None => false,
            };
            let course = if down {
                three(", falling ", w.pace.as_str(), "/min")
            } else {
                String::new()
            };
            s.append(course.as_str());
            s
        },
        Dimension::Swap => {
            s.append(" in use");
            let up = match rising {
                Some(t) => none.is_below(t),
                None => false,
            };
            let course = if up {
                three(", climbing ", w.pace.as_str(), "/min")
            } else {
                String::new()
            };
            s.append(course.as_str());
            let pool = if pool_exists(swap_total) {
                three(" · pool ", w.pool_share.as_str(), "% full")
            } else {
                String::new()
            };
            s.append(pool.as_str());
            s
        },
        Dimension::Thrash => three("peak ", w.amount.as_str(), " swap ops/sec"),
        Dimension::KernelPressure => {
            let mut out = "kernel reports ".to_owned();
            out.append(kernel_level_name(w.level).as_str());
            out
        },
        Dimension::Thermal => {
            let mut out = "kernel reports ".to_owned();
            out.append(thermal_level_name(w.level).as_str());
            out
        },
        Dimension::Agents => {
            s.append(" stale");
            s
        },
        Dimension::Orphans => {
            s.append(" orphaned");
            s
        },
        Dimension::Corporate => {
            s.append("% of one core");
            s
        },
        Dimension::Disk => {
            s.append(" free");
            let down = match rising {
                Some(t) => t.is_below(none),
                None => false,
            };
            let course = if down && none.is_below(value) {
                let mut c = ", full in ".to_owned();
                c.append(w.until_full.as_str());
                c
            } else {
                String::new()
            };
            s.append(course.as_str());
            s
        },
        Dimension::Uptime => {
            s.append(" days");
            s
        },
        Dimension::KernelFree => {
            s.append("% reclaimable");
            s
        },
        Dimension::Compressor => {
            s.append(" held compressed");
            s
        },
        Dimension::Jetsam => {
            let whole = Real { bits: 0x3FF0_0000_0000_0000 };
            if whole.is_at_most(value) {
                s.append(" killed under memory pressure");
                s
            } else {
                "no sustained-pressure kills this window".to_owned()
            }
        },
    }
}

/// The sentence for a reading that is out of band. What it claims follows the
/// band, not the raw value: a held red is the model's position while recovery is
/// unconfirmed.
pub fn message_for(r: &DimensionReading, swap_total: Option<u64>, w: &Words) -> (m: String)
    ensures
        m@ == message_text(r@, swap_total, *w),
{
    let amount = w.amount.as_str();
    match r.dimension {
        Dimension::Cpu => {
            if r.band == Band::Red {
                three("CPU is saturated: cores are ", amount, "% busy.")
            } else {
                three("CPU is ", amount, "% busy.")
            }
        },
        Dimension::Thermal => {
            let name = thermal_level_name(w.level);
            if r.band == Band::Red {
                three(
                    "The kernel reports ",
                    name.as_str(),
                    " thermal pressure. The CPU is being throttled, so load figures understate the work being asked of it.",
                )
            } else {
                three(
                    "The kernel reports ",
                    name.as_str(),
                    " thermal pressure — fans up, headroom shrinking.",
                )
            }
        },
        Dimension::Memory => three("Only ", amount, " of RAM available."),
        Dimension::Swap => {
            let mut m = amount.to_owned();
            m.append(" of swap in use.");
            let pool = if pool_exists(swap_total) {
                let mut p = three(" The allocated pool is ", w.pool_share.as_str(), "% full");
                let none = Real { bits: 0 };
                let up = match r.trend_per_sec {
                    Some(t) => none.is_below(t),
                    None => false,
                };
                let left = if up {
                    three(" and would be exhausted in ", w.pool_left.as_str(), " at this rate")
                } else {
                    String::new()
                };
                p.append(left.as_str());
                p.append(".");
                p
            } else {
                String::new()
            };
            m.append(pool.as_str());
            m
        },
        Dimension::KernelPressure => three(
            "The kernel itself reports ",
            kernel_level_name(w.level).as_str(),
            " memory pressure.",
        ),
        Dimension::Thrash => three(
            "Peaked at ",
            amount,
            " swap operations per second — the machine is thrashing.",
        ),
        Dimension::Agents => {
            let mut m = amount.to_owned();
            m.append(" agent sessions past the staleness threshold.");
            m
        },
        Dimension::Orphans => {
            let mut m = amount.to_owned();
            m.append(" orphaned helper processes. Their parent sessions are gone.");
            m
        },
        Dimension::Corporate => three(
            "Managed agents are using ",
            w.whole.as_str(),
            "% of one core — up from the recorded baseline.",
        ),
        Dimension::Disk => {
            let mut m = three(amount, " free on the data volume. ", r.detail.as_str());
            let rivals = match swap_total {
                Some(t) => t > 0 && r.value.is_at_most(Real::from_u64(t)),
                None => false,
            };
            let pool = if rivals {
                three(" ", w.pool.as_str(), " of the volume is swap.")
            } else {
                String::new()
            };
            m.append(pool.as_str());
            m
        },
        Dimension::Uptime => three(
            "Up ",
            w.whole.as_str(),
            " days. Long uptime with pinned swap means fragmented, unreclaimable memory.",
        ),
        Dimension::KernelFree => three("The kernel reports ", amount, "% of memory reclaimable."),
        Dimension::Compressor => {
            let mut m = amount.to_owned();
            m.append(" held in the compressor pool.");
            m
        },
        Dimension::Jetsam => three(
            "The kernel killed ",
            amount,
            " process(es) under sustained memory pressure.",
        ),
    }
}

/// The words for a value begin with the value, whatever else is said: the kernel's
/// levels by their names, and no kills as such.
pub proof fn law_the_value_is_told(
    d: Dimension,
    value: Real,
    trend: Option<Real>,
    demand: Option<Demand>,
    swap_total: Option<u64>,
    config: PressureConfig,
    w: Words,
)
    ensures
        ({
            let said = detail_text(d, value, trend, demand, swap_total, config, w);
            &&& d == Dimension::KernelPressure ==> mentions(said, kernel_text(w.level))
            &&& d == Dimension::Thermal ==> mentions(said, thermal_text(w.level))
            &&& d == Dimension::Jetsam ==> (if (Real { bits: 0x3FF0_0000_0000_0000 }).at_most(
                value,
            ) {
                mentions(said, w.amount@)
            } else {
                said == "no sustained-pressure kills this window"@
            })
            &&& d != Dimension::KernelPressure && d != Dimension::Thermal && d != Dimension::Jetsam
                ==> mentions(said, w.amount@)
        }),
{
    let said = detail_text(d, value, trend, demand, swap_total, config, w);
    let nothing = Seq::<char>::empty();
    let a = w.amount@;
    match d {
        Dimension::KernelPressure => {
            assert(said =~= "kernel reports "@ + kernel_text(w.level) + nothing);
        },
        Dimension::Thermal => {
            assert(said =~= "kernel reports "@ + thermal_text(w.level) + nothing);
        },
        Dimension::Thrash => {
            assert(said =~= "peak "@ + a + " swap ops/sec"@);
        },
        Dimension::Jetsam => {
            if one().at_most(value) {
                assert(said =~= nothing + a + " killed under memory pressure"@);
            }
        },
        _ => {
            assert(said.take(a.len() as int) =~= a);
            assert(said =~= nothing + a + said.skip(a.len() as int));
        },
    }
}

/// A trend within the noise is not told: the words are as without it. Nor is one of
/// memory or of a volume that gains, or of swap that drains.
pub proof fn law_noise_is_not_told(
    d: Dimension,
    value: Real,
    trend: Real,
    demand: Option<Demand>,
    swap_total: Option<u64>,
    config: PressureConfig,
    w: Words,
)
    requires
        ({
            ||| !(Real { bits: 0x3CB0_0000_0000_0000 }).below(trend.size())
            ||| (d == Dimension::Memory || d == Dimension::Disk) && !trend.below(
                Real { bits: 0 },
            )
            ||| d == Dimension::Swap && !(Real { bits: 0 }).below(trend)
            ||| d == Dimension::Disk && !(Real { bits: 0 }).below(value)
        }),
    ensures
        detail_text(d, value, Some(trend), demand, swap_total, config, w) == detail_text(
            d,
            value,
            None,
            demand,
            swap_total,
            config,
            w,
        ),
{
}

/// A trend that is more than noise is told: which way the CPU goes and how fast,
/// how fast memory falls and swap climbs, and when a volume is full.
pub proof fn law_a_trend_is_told(
    value: Real,
    trend: Real,
    demand: Option<Demand>,
    swap_total: Option<u64>,
    config: PressureConfig,
    w: Words,
)
    requires
        (Real { bits: 0x3CB0_0000_0000_0000 }).below(trend.size()),
    ensures
        (Real { bits: 0 }).below(trend) ==> mentions(
            detail_text(Dimension::Cpu, value, Some(trend), demand, swap_total, config, w),
            ", rising "@ + w.pace@ + "%/min"@,
        ) && mentions(
            detail_text(Dimension::Swap, value, Some(trend), demand, swap_total, config, w),
            ", climbing "@ + w.pace@ + "/min"@,
        ),
        trend.below(Real { bits: 0 }) ==> mentions(
            detail_text(Dimension::Cpu, value, Some(trend), demand, swap_total, config, w),
            ", falling "@ + w.pace@ + "%/min"@,
        ) && detail_text(Dimension::Memory, value, Some(trend), demand, swap_total, config, w)
            == detail_text(Dimension::Memory, value, None, demand, swap_total, config, w)
            + ", falling "@ + w.pace@ + "/min"@ && ((Real { bits: 0 }).below(value) ==> detail_text(
            Dimension::Disk,
            value,
            Some(trend),
            demand,
            swap_total,
            config,
            w,
        ) == detail_text(Dimension::Disk, value, None, demand, swap_total, config, w)
            + ", full in "@ + w.until_full@),
{
    reveal_strlit(", ");
    reveal_strlit("rising");
    reveal_strlit("falling");
    reveal_strlit(" ");
    reveal_strlit(", rising ");
    reveal_strlit(", falling ");
    let busy = detail_text(Dimension::Cpu, value, Some(trend), demand, swap_total, config, w);
    let queue = demand_text(value, demand, config);
    assert(", "@ + "rising"@ + " "@ =~= ", rising "@);
    assert(", "@ + "falling"@ + " "@ =~= ", falling "@);
    if zero().below(trend) {
        assert(busy =~= (w.amount@ + "% busy"@) + (", rising "@ + w.pace@ + "%/min"@) + queue);
        let swap = detail_text(Dimension::Swap, value, Some(trend), demand, swap_total, config, w);
        let pool = if has_pool(swap_total) {
            " · pool "@ + w.pool_share@ + "% full"@
        } else {
            Seq::<char>::empty()
        };
        assert(swap =~= (w.amount@ + " in use"@) + (", climbing "@ + w.pace@ + "/min"@) + pool);
    } else if trend.below(zero()) {
        assert(busy =~= (w.amount@ + "% busy"@) + (", falling "@ + w.pace@ + "%/min"@) + queue);
        assert(detail_text(Dimension::Memory, value, Some(trend), demand, swap_total, config, w)
            =~= detail_text(Dimension::Memory, value, None, demand, swap_total, config, w)
            + ", falling "@ + w.pace@ + "/min"@);
        if zero().below(value) {
            assert(detail_text(Dimension::Disk, value, Some(trend), demand, swap_total, config, w)
                =~= detail_text(Dimension::Disk, value, None, demand, swap_total, config, w)
                + ", full in "@ + w.until_full@);
        }
    }
}

/// A queue is told beside the CPU and nowhere else, and as contention exactly where
/// it is deep over cores that are not busy.
pub proof fn law_a_queue_is_told(
    d: Dimension,
    value: Real,
    trend: Option<Real>,
    q: Demand,
    swap_total: Option<u64>,
    config: PressureConfig,
    w: Words,
)
    ensures
        ({
            let alone = detail_text(d, value, trend, None, swap_total, config, w);
            let said = detail_text(d, value, trend, Some(q), swap_total, config, w);
            if d != Dimension::Cpu {
                said == alone
            } else if config.cpu_contention_demand_per_core.below(q.per_core) && value.below(
                config.cpu.yellow,
            ) {
                said == alone + "; "@ + q.text@
                    + "× per core queued — scheduling contention, cores not saturated"@
            } else {
                said == alone + "; "@ + q.text@ + "× per core"@
            }
        }),
{
    let alone = detail_text(d, value, trend, None, swap_total, config, w);
    let said = detail_text(d, value, trend, Some(q), swap_total, config, w);
    if d == Dimension::Cpu {
        if config.cpu_contention_demand_per_core.below(q.per_core) && value.below(
            config.cpu.yellow,
        ) {
            assert(said =~= alone + "; "@ + q.text@
                + "× per core queued — scheduling contention, cores not saturated"@);
        } else {
            assert(said =~= alone + "; "@ + q.text@ + "× per core"@);
        }
    }
}

/// A pool is told beside swap, where there is one: one of no bytes is none.
pub proof fn law_a_pool_is_told(
    d: Dimension,
    value: Real,
    trend: Option<Real>,
    demand: Option<Demand>,
    total: u64,
    config: PressureConfig,
    w: Words,
)
    ensures
        ({
            let alone = detail_text(d, value, trend, demand, None, config, w);
            let said = detail_text(d, value, trend, demand, Some(total), config, w);
            if d == Dimension::Swap && total > 0 {
                said == alone + " · pool "@ + w.pool_share@ + "% full"@
            } else {
                said == alone
            }
        }),
{
    let alone = detail_text(d, value, trend, demand, None, config, w);
    let said = detail_text(d, value, trend, demand, Some(total), config, w);
    if d == Dimension::Swap && total > 0 {
        assert(said =~= alone + " · pool "@ + w.pool_share@ + "% full"@);
    }
}

/// A sentence tells the value it is about: the kernel's levels by their names, a
/// long uptime and the managed agents in whole numbers, and a volume with its
/// detail.
pub proof fn law_a_sentence_tells_the_value(r: ReadingView, swap_total: Option<u64>, w: Words)
    ensures
        ({
            let said = message_text(r, swap_total, w);
            let d = r.dimension;
            &&& d == Dimension::KernelPressure ==> mentions(said, kernel_text(w.level))
            &&& d == Dimension::Thermal ==> mentions(said, thermal_text(w.level))
            &&& d == Dimension::Corporate || d == Dimension::Uptime ==> mentions(said, w.whole@)
            &&& d == Dimension::Disk ==> mentions(said, w.amount@) && mentions(said, r.detail)
            &&& d != Dimension::KernelPressure && d != Dimension::Thermal && d
                != Dimension::Corporate && d != Dimension::Uptime ==> mentions(said, w.amount@)
        }),
{
    let said = message_text(r, swap_total, w);
    let nothing = Seq::<char>::empty();
    let a = w.amount@;
    match r.dimension {
        Dimension::KernelPressure => {
            assert(said =~= "The kernel itself reports "@ + kernel_text(w.level)
                + " memory pressure."@);
        },
        Dimension::Thermal => {
            let n = "The kernel reports "@.len() as int;
            let name = thermal_text(w.level);
            assert(said.subrange(n, n + name.len()) =~= name);
            assert(said =~= said.take(n) + name + said.skip(n + name.len()));
        },
        Dimension::Corporate => {
            assert(said =~= "Managed agents are using "@ + w.whole@
                + "% of one core — up from the recorded baseline."@);
        },
        Dimension::Uptime => {
            assert(said =~= "Up "@ + w.whole@
                + " days. Long uptime with pinned swap means fragmented, unreclaimable memory."@);
        },
        Dimension::Cpu => {
            if r.band == Band::Red {
                assert(said =~= "CPU is saturated: cores are "@ + a + "% busy."@);
            } else {
                assert(said =~= "CPU is "@ + a + "% busy."@);
            }
        },
        Dimension::Memory => {
            assert(said =~= "Only "@ + a + " of RAM available."@);
        },
        Dimension::Thrash => {
            assert(said =~= "Peaked at "@ + a
                + " swap operations per second — the machine is thrashing."@);
        },
        Dimension::KernelFree => {
            assert(said =~= "The kernel reports "@ + a + "% of memory reclaimable."@);
        },
        Dimension::Jetsam => {
            assert(said =~= "The kernel killed "@ + a
                + " process(es) under sustained memory pressure."@);
        },
        Dimension::Disk => {
            let free = " free on the data volume. "@;
            let n = (a + free).len() as int;
            assert(said.take(a.len() as int) =~= a);
            assert(said =~= nothing + a + said.skip(a.len() as int));
            assert(said.subrange(n, n + r.detail.len()) =~= r.detail);
            assert(said =~= said.take(n) + r.detail + said.skip(n + r.detail.len()));
        },
        _ => {
            assert(said.take(a.len() as int) =~= a);
            assert(said =~= nothing + a + said.skip(a.len() as int));
        },
    }
}

/// The sentence about swap tells how full the pool is where there is one, and when
/// it runs out exactly where swap climbs. The one about a volume tells the pool
/// where it takes at least what is free. No other sentence speaks of it.
pub proof fn law_a_sentence_tells_the_pool(r: ReadingView, total: u64, w: Words)
    ensures
        ({
            let alone = message_text(r, None, w);
            let said = message_text(r, Some(total), w);
            let share = " The allocated pool is "@ + w.pool_share@ + "% full"@;
            let left = " and would be exhausted in "@ + w.pool_left@ + " at this rate"@;
            let climbing = r.trend_per_sec matches Some(t) && (Real { bits: 0 }).below(t);
            if r.dimension == Dimension::Swap && total > 0 {
                said == alone + share + (if climbing {
                    left
                } else {
                    Seq::empty()
                }) + "."@
            } else if r.dimension == Dimension::Disk && total > 0 && r.value.at_most(
                real_of(total as nat),
            ) {
                said == alone + " "@ + w.pool@ + " of the volume is swap."@
            } else {
                said == alone
            }
        }),
{
    let alone = message_text(r, None, w);
    let said = message_text(r, Some(total), w);
    if r.dimension == Dimension::Swap && total > 0 {
        let share = " The allocated pool is "@ + w.pool_share@ + "% full"@;
        let left = " and would be exhausted in "@ + w.pool_left@ + " at this rate"@;
        if r.trend_per_sec matches Some(t) && zero().below(t) {
            assert(said =~= alone + share + left + "."@);
        } else {
            assert(said =~= alone + share + Seq::<char>::empty() + "."@);
        }
    } else if r.dimension == Dimension::Disk && total > 0 && r.value.at_most(
        real_of(total as nat),
    ) {
        assert(said =~= alone + " "@ + w.pool@ + " of the volume is swap."@);
    } else {
        assert(said =~= alone);
    }
}

/// A saturated CPU is called so, and a hot one is said to be throttled: exactly
/// where they are red. For the rest the band changes no word.
pub proof fn law_red_is_called_so(r: ReadingView, swap_total: Option<u64>, w: Words)
    ensures
        ({
            let said = message_text(r, swap_total, w);
            let red = r.band == Band::Red;
            &&& r.dimension == Dimension::Cpu ==> said == (if red {
                "CPU is saturated: cores are "@
            } else {
                "CPU is "@
            }) + w.amount@ + "% busy."@
            &&& r.dimension == Dimension::Thermal && red ==> mentions(
                said,
                "The CPU is being throttled"@,
            )
            &&& r.dimension == Dimension::Thermal && !red ==> mentions(said, "headroom shrinking"@)
            &&& r.dimension != Dimension::Cpu && r.dimension != Dimension::Thermal ==> forall|
                b: Band,
            | said == #[trigger] message_text(ReadingView { band: b, ..r }, swap_total, w)
        }),
{
    let said = message_text(r, swap_total, w);
    let name = thermal_text(w.level);
    reveal_strlit("The CPU is being throttled");
    reveal_strlit("headroom shrinking");
    reveal_strlit(
        " thermal pressure. The CPU is being throttled, so load figures understate the work being asked of it.",
    );
    reveal_strlit(" thermal pressure — fans up, headroom shrinking.");
    if r.dimension == Dimension::Thermal {
        let front = "The kernel reports "@ + name;
        if r.band == Band::Red {
            let tail =
                " thermal pressure. The CPU is being throttled, so load figures understate the work being asked of it."@;
            assert(tail.subrange(19, 45) =~= "The CPU is being throttled"@);
            assert(said =~= (front + tail.take(19)) + "The CPU is being throttled"@ + tail.skip(
                45,
            ));
        } else {
            let tail = " thermal pressure — fans up, headroom shrinking."@;
            assert(tail.subrange(29, 47) =~= "headroom shrinking"@);
            assert(said =~= (front + tail.take(29)) + "headroom shrinking"@ + tail.skip(47));
        }
    }
}

} // verus!
