//! What is watched, where the lines are, and what each dimension is called.
use vstd::prelude::*;

use super::band::BandSpec;
use crate::number::Real;
use crate::{DEFAULT_CENSUS_INTERVAL_SECS, DEFAULT_SAMPLE_INTERVAL_SECS};

verus! {

/// One thing that is watched.
#[derive(Clone, Copy, Debug, PartialEq, Eq, Hash, PartialOrd, Ord, Structural)]
pub enum Dimension {
    /// Measured CPU utilization: the share of core time spent running. Not the run
    /// queue, which counts threads that merely want to run.
    Cpu,
    /// The kernel's thermal level, 0 nominal to 4 sleeping.
    Thermal,
    /// Bytes available without swapping. Advisory.
    Memory,
    /// Swap bytes in use.
    Swap,
    /// The kernel's own word on memory, 1 normal, 2 warn, 4 critical.
    KernelPressure,
    /// Swap operations per second, as the worst sustained level of the window.
    Thrash,
    /// Percent of memory the kernel calls reclaimable. Advisory.
    KernelFree,
    /// Bytes held compressed. Advisory.
    Compressor,
    /// Processes killed under sustained memory pressure.
    Jetsam,
    /// Interactive agent sessions past the staleness threshold.
    Agents,
    /// Helper processes whose parent session is gone.
    Orphans,
    /// CPU spent by centrally managed agents, in percent of one core.
    Corporate,
    /// Free bytes on the data volume, and how fast they go.
    Disk,
    /// Days since boot. Advisory.
    Uptime,
}

/// Every dimension, in the order in which it is declared, evaluated and shown.
pub const ALL_DIMENSIONS: [Dimension; 14] = [
    Dimension::Cpu,
    Dimension::Thermal,
    Dimension::Memory,
    Dimension::Swap,
    Dimension::KernelPressure,
    Dimension::Thrash,
    Dimension::KernelFree,
    Dimension::Compressor,
    Dimension::Jetsam,
    Dimension::Agents,
    Dimension::Orphans,
    Dimension::Corporate,
    Dimension::Disk,
    Dimension::Uptime,
];

/// Where pressure comes from, as the menu bar tells it.
#[derive(Clone, Copy, Debug, PartialEq, Eq, Hash, Structural)]
pub enum Source {
    Cpu,
    Memory,
    Disk,
    Sprawl,
    Corporate,
    Thermal,
}

impl Source {
    pub open spec fn glyph_text(self) -> Seq<char> {
        match self {
            Source::Cpu => "🔥"@,
            Source::Memory => "🧠"@,
            Source::Disk => "💽"@,
            Source::Sprawl => "🕸️"@,
            Source::Corporate => "🏢"@,
            Source::Thermal => "🌡️"@,
        }
    }

    pub open spec fn label_text(self) -> Seq<char> {
        match self {
            Source::Cpu => "CPU"@,
            Source::Memory => "memory"@,
            Source::Disk => "disk"@,
            Source::Sprawl => "agent sprawl"@,
            Source::Corporate => "managed agents"@,
            Source::Thermal => "thermal"@,
        }
    }

    pub fn glyph(self) -> (r: &'static str)
        ensures
            r@ == self.glyph_text(),
    {
        match self {
            Source::Cpu => "🔥",
            Source::Memory => "🧠",
            Source::Disk => "💽",
            Source::Sprawl => "🕸️",
            Source::Corporate => "🏢",
            Source::Thermal => "🌡️",
        }
    }

    /// The source in words. Decorated glyphs are not read out.
    pub fn label(self) -> (r: &'static str)
        ensures
            r@ == self.label_text(),
    {
        match self {
            Source::Cpu => "CPU",
            Source::Memory => "memory",
            Source::Disk => "disk",
            Source::Sprawl => "agent sprawl",
            Source::Corporate => "managed agents",
            Source::Thermal => "thermal",
        }
    }
}

/// What a dimension's value counts.
#[derive(Clone, Copy, Debug, PartialEq, Eq, Structural)]
pub enum Unit {
    Ratio,
    Bytes,
    PerSecond,
    Count,
    Percent,
    Days,
}

impl Dimension {
    /// The place of a dimension in `ALL_DIMENSIONS`.
    pub open spec fn place(self) -> int {
        match self {
            Dimension::Cpu => 0,
            Dimension::Thermal => 1,
            Dimension::Memory => 2,
            Dimension::Swap => 3,
            Dimension::KernelPressure => 4,
            Dimension::Thrash => 5,
            Dimension::KernelFree => 6,
            Dimension::Compressor => 7,
            Dimension::Jetsam => 8,
            Dimension::Agents => 9,
            Dimension::Orphans => 10,
            Dimension::Corporate => 11,
            Dimension::Disk => 12,
            Dimension::Uptime => 13,
        }
    }

    pub open spec fn key_text(self) -> Seq<char> {
        match self {
            Dimension::Cpu => "cpu"@,
            Dimension::Thermal => "thermal"@,
            Dimension::Memory => "memory"@,
            Dimension::Swap => "swap"@,
            Dimension::KernelPressure => "kernelPressure"@,
            Dimension::Thrash => "thrash"@,
            Dimension::KernelFree => "kernelFree"@,
            Dimension::Compressor => "compressor"@,
            Dimension::Jetsam => "jetsam"@,
            Dimension::Agents => "agents"@,
            Dimension::Orphans => "orphans"@,
            Dimension::Corporate => "corporate"@,
            Dimension::Disk => "disk"@,
            Dimension::Uptime => "uptime"@,
        }
    }

    pub open spec fn label_text(self) -> Seq<char> {
        match self {
            Dimension::Cpu => "CPU utilization"@,
            Dimension::Thermal => "Thermal pressure"@,
            Dimension::Memory => "Available memory"@,
            Dimension::Swap => "Swap in use"@,
            Dimension::KernelPressure => "Kernel memory pressure"@,
            Dimension::Thrash => "Swap thrash"@,
            Dimension::KernelFree => "Kernel reclaimable memory"@,
            Dimension::Compressor => "Compressed memory"@,
            Dimension::Jetsam => "Memory kills"@,
            Dimension::Agents => "Stale agent sessions"@,
            Dimension::Orphans => "Orphaned helpers"@,
            Dimension::Corporate => "Managed agents"@,
            Dimension::Disk => "Disk headroom"@,
            Dimension::Uptime => "Uptime"@,
        }
    }

    pub open spec fn blames(self) -> Source {
        match self {
            Dimension::Cpu => Source::Cpu,
            Dimension::Thermal => Source::Thermal,
            Dimension::Memory => Source::Memory,
            Dimension::Swap => Source::Memory,
            Dimension::KernelPressure => Source::Memory,
            Dimension::Thrash => Source::Memory,
            Dimension::KernelFree => Source::Memory,
            Dimension::Compressor => Source::Memory,
            Dimension::Jetsam => Source::Memory,
            Dimension::Agents => Source::Sprawl,
            Dimension::Orphans => Source::Sprawl,
            Dimension::Corporate => Source::Corporate,
            Dimension::Disk => Source::Disk,
            Dimension::Uptime => Source::Memory,
        }
    }

    pub open spec fn measured_in(self) -> Unit {
        match self {
            Dimension::Cpu => Unit::Ratio,
            Dimension::Thermal => Unit::Count,
            Dimension::Memory => Unit::Bytes,
            Dimension::Swap => Unit::Bytes,
            Dimension::KernelPressure => Unit::Count,
            Dimension::Thrash => Unit::PerSecond,
            Dimension::KernelFree => Unit::Percent,
            Dimension::Compressor => Unit::Bytes,
            Dimension::Jetsam => Unit::Count,
            Dimension::Agents => Unit::Count,
            Dimension::Orphans => Unit::Count,
            Dimension::Corporate => Unit::Percent,
            Dimension::Disk => Unit::Bytes,
            Dimension::Uptime => Unit::Days,
        }
    }

    /// Shown, but never part of the level.
    pub open spec fn advisory(self) -> bool {
        self == Dimension::Uptime || self == Dimension::Memory || self == Dimension::KernelFree
            || self == Dimension::Compressor
    }

    /// The tier that is read at the census cadence.
    pub open spec fn ticks_with_the_census(self) -> bool {
        self == Dimension::Agents || self == Dimension::Orphans || self == Dimension::Corporate
    }

    pub fn index(self) -> (r: usize)
        ensures
            r == self.place(),
    {
        match self {
            Dimension::Cpu => 0,
            Dimension::Thermal => 1,
            Dimension::Memory => 2,
            Dimension::Swap => 3,
            Dimension::KernelPressure => 4,
            Dimension::Thrash => 5,
            Dimension::KernelFree => 6,
            Dimension::Compressor => 7,
            Dimension::Jetsam => 8,
            Dimension::Agents => 9,
            Dimension::Orphans => 10,
            Dimension::Corporate => 11,
            Dimension::Disk => 12,
            Dimension::Uptime => 13,
        }
    }

    /// Stable identifier.
    pub fn key(self) -> (r: &'static str)
        ensures
            r@ == self.key_text(),
    {
        match self {
            Dimension::Cpu => "cpu",
            Dimension::Thermal => "thermal",
            Dimension::Memory => "memory",
            Dimension::Swap => "swap",
            Dimension::KernelPressure => "kernelPressure",
            Dimension::Thrash => "thrash",
            Dimension::KernelFree => "kernelFree",
            Dimension::Compressor => "compressor",
            Dimension::Jetsam => "jetsam",
            Dimension::Agents => "agents",
            Dimension::Orphans => "orphans",
            Dimension::Corporate => "corporate",
            Dimension::Disk => "disk",
            Dimension::Uptime => "uptime",
        }
    }

    pub fn label(self) -> (r: &'static str)
        ensures
            r@ == self.label_text(),
    {
        match self {
            Dimension::Cpu => "CPU utilization",
            Dimension::Thermal => "Thermal pressure",
            Dimension::Memory => "Available memory",
            Dimension::Swap => "Swap in use",
            Dimension::KernelPressure => "Kernel memory pressure",
            Dimension::Thrash => "Swap thrash",
            Dimension::KernelFree => "Kernel reclaimable memory",
            Dimension::Compressor => "Compressed memory",
            Dimension::Jetsam => "Memory kills",
            Dimension::Agents => "Stale agent sessions",
            Dimension::Orphans => "Orphaned helpers",
            Dimension::Corporate => "Managed agents",
            Dimension::Disk => "Disk headroom",
            Dimension::Uptime => "Uptime",
        }
    }

    pub fn source(self) -> (r: Source)
        ensures
            r == self.blames(),
    {
        match self {
            Dimension::Cpu => Source::Cpu,
            Dimension::Thermal => Source::Thermal,
            Dimension::Memory => Source::Memory,
            Dimension::Swap => Source::Memory,
            Dimension::KernelPressure => Source::Memory,
            Dimension::Thrash => Source::Memory,
            Dimension::KernelFree => Source::Memory,
            Dimension::Compressor => Source::Memory,
            Dimension::Jetsam => Source::Memory,
            Dimension::Agents => Source::Sprawl,
            Dimension::Orphans => Source::Sprawl,
            Dimension::Corporate => Source::Corporate,
            Dimension::Disk => Source::Disk,
            Dimension::Uptime => Source::Memory,
        }
    }

    pub fn unit(self) -> (r: Unit)
        ensures
            r == self.measured_in(),
    {
        match self {
            Dimension::Cpu => Unit::Ratio,
            Dimension::Thermal => Unit::Count,
            Dimension::Memory => Unit::Bytes,
            Dimension::Swap => Unit::Bytes,
            Dimension::KernelPressure => Unit::Count,
            Dimension::Thrash => Unit::PerSecond,
            Dimension::KernelFree => Unit::Percent,
            Dimension::Compressor => Unit::Bytes,
            Dimension::Jetsam => Unit::Count,
            Dimension::Agents => Unit::Count,
            Dimension::Orphans => Unit::Count,
            Dimension::Corporate => Unit::Percent,
            Dimension::Disk => Unit::Bytes,
            Dimension::Uptime => Unit::Days,
        }
    }

    /// Advisory dimensions inform but never drive the level.
    pub fn is_advisory(self) -> (r: bool)
        ensures
            r == self.advisory(),
    {
        matches!(
            self,
            Dimension::Uptime | Dimension::Memory | Dimension::KernelFree | Dimension::Compressor
        )
    }
}

/// Where the lines are unless they are tuned.
pub open spec fn default_spec(d: Dimension) -> BandSpec {
    match d {
        // The share of core time spent running: yellow at 0.85, left at
        // 0.7999999999999999; red at 0.95, left at 0.8999999999999999.
        Dimension::Cpu => BandSpec {
            yellow: Real { bits: 0x3FEB_3333_3333_3333 },
            red: Real { bits: 0x3FEE_6666_6666_6666 },
            yellow_exit: Real { bits: 0x3FE9_9999_9999_9999 },
            red_exit: Real { bits: 0x3FEC_CCCC_CCCC_CCCC },
            confirm_samples: 2,
            inverted: false,
        },
        // The kernel's thermal level: yellow at 1.0, left at 0.5; red at 2.0,
        // left at 1.5.
        Dimension::Thermal => BandSpec {
            yellow: Real { bits: 0x3FF0_0000_0000_0000 },
            red: Real { bits: 0x4000_0000_0000_0000 },
            yellow_exit: Real { bits: 0x3FE0_0000_0000_0000 },
            red_exit: Real { bits: 0x3FF8_0000_0000_0000 },
            confirm_samples: 2,
            inverted: false,
        },
        // Available bytes: yellow at 2_000_000_000, left at 2_256_000_000; red
        // at 512_000_000, left at 768_000_000.
        Dimension::Memory => BandSpec {
            yellow: Real { bits: 0x41DD_CD65_0000_0000 },
            red: Real { bits: 0x41BE_8480_0000_0000 },
            yellow_exit: Real { bits: 0x41E0_CEFA_8000_0000 },
            red_exit: Real { bits: 0x41C6_E360_0000_0000 },
            confirm_samples: 2,
            inverted: true,
        },
        // Swap bytes in use: yellow at 4_000_000_000, left at 3_000_000_000; red
        // at 12_000_000_000, left at 11_000_000_000.
        Dimension::Swap => BandSpec {
            yellow: Real { bits: 0x41ED_CD65_0000_0000 },
            red: Real { bits: 0x4206_5A0B_C000_0000 },
            yellow_exit: Real { bits: 0x41E6_5A0B_C000_0000 },
            red_exit: Real { bits: 0x4204_7D35_7000_0000 },
            confirm_samples: 2,
            inverted: false,
        },
        // The kernel's memory level: yellow at 2.0, left at 1.5; red at 4.0,
        // left at 3.5.
        Dimension::KernelPressure => BandSpec {
            yellow: Real { bits: 0x4000_0000_0000_0000 },
            red: Real { bits: 0x4010_0000_0000_0000 },
            yellow_exit: Real { bits: 0x3FF8_0000_0000_0000 },
            red_exit: Real { bits: 0x400C_0000_0000_0000 },
            confirm_samples: 2,
            inverted: false,
        },
        // Swap operations per second: yellow at 100.0, left at 50.0; red at
        // 1000.0, left at 950.0.
        Dimension::Thrash => BandSpec {
            yellow: Real { bits: 0x4059_0000_0000_0000 },
            red: Real { bits: 0x408F_4000_0000_0000 },
            yellow_exit: Real { bits: 0x4049_0000_0000_0000 },
            red_exit: Real { bits: 0x408D_B000_0000_0000 },
            confirm_samples: 2,
            inverted: false,
        },
        // Stale sessions: yellow at 2.0, left at 1.0; red at 6.0, left at 5.0.
        Dimension::Agents => BandSpec {
            yellow: Real { bits: 0x4000_0000_0000_0000 },
            red: Real { bits: 0x4018_0000_0000_0000 },
            yellow_exit: Real { bits: 0x3FF0_0000_0000_0000 },
            red_exit: Real { bits: 0x4014_0000_0000_0000 },
            confirm_samples: 1,
            inverted: false,
        },
        // Orphaned helpers: yellow at 10.0, left at 5.0; red at 40.0, left at
        // 35.0.
        Dimension::Orphans => BandSpec {
            yellow: Real { bits: 0x4024_0000_0000_0000 },
            red: Real { bits: 0x4044_0000_0000_0000 },
            yellow_exit: Real { bits: 0x4014_0000_0000_0000 },
            red_exit: Real { bits: 0x4041_8000_0000_0000 },
            confirm_samples: 1,
            inverted: false,
        },
        // Percent of one core: yellow at 60.0, left at 55.0; red at 100.0, left
        // at 95.0.
        Dimension::Corporate => BandSpec {
            yellow: Real { bits: 0x404E_0000_0000_0000 },
            red: Real { bits: 0x4059_0000_0000_0000 },
            yellow_exit: Real { bits: 0x404B_8000_0000_0000 },
            red_exit: Real { bits: 0x4057_C000_0000_0000 },
            confirm_samples: 2,
            inverted: false,
        },
        // Free bytes: yellow at 60_000_000_000, left at 65_000_000_000; red at
        // 30_000_000_000, left at 35_000_000_000.
        Dimension::Disk => BandSpec {
            yellow: Real { bits: 0x422B_F08E_B000_0000 },
            red: Real { bits: 0x421B_F08E_B000_0000 },
            yellow_exit: Real { bits: 0x422E_449A_9400_0000 },
            red_exit: Real { bits: 0x4220_4C53_3C00_0000 },
            confirm_samples: 2,
            inverted: true,
        },
        // Days: yellow at 7.0, left at 6.0; red at 21.0, left at 20.0.
        Dimension::Uptime => BandSpec {
            yellow: Real { bits: 0x401C_0000_0000_0000 },
            red: Real { bits: 0x4035_0000_0000_0000 },
            yellow_exit: Real { bits: 0x4018_0000_0000_0000 },
            red_exit: Real { bits: 0x4034_0000_0000_0000 },
            confirm_samples: 1,
            inverted: false,
        },
        // Percent reclaimable: yellow at 30.0, left at 35.0; red at 15.0, left
        // at 20.0.
        Dimension::KernelFree => BandSpec {
            yellow: Real { bits: 0x403E_0000_0000_0000 },
            red: Real { bits: 0x402E_0000_0000_0000 },
            yellow_exit: Real { bits: 0x4041_8000_0000_0000 },
            red_exit: Real { bits: 0x4034_0000_0000_0000 },
            confirm_samples: 2,
            inverted: true,
        },
        // Bytes held compressed: yellow at 4_000_000_000, left at 3_488_000_000;
        // red at 8_000_000_000, left at 7_488_000_000.
        Dimension::Compressor => BandSpec {
            yellow: Real { bits: 0x41ED_CD65_0000_0000 },
            red: Real { bits: 0x41FD_CD65_0000_0000 },
            yellow_exit: Real { bits: 0x41E9_FCD5_0000_0000 },
            red_exit: Real { bits: 0x41FB_E51D_0000_0000 },
            confirm_samples: 2,
            inverted: false,
        },
        // Kills in the window: yellow at 0.5, left at 0.0; red at 1.0, left at
        // 0.5.
        Dimension::Jetsam => BandSpec {
            yellow: Real { bits: 0x3FE0_0000_0000_0000 },
            red: Real { bits: 0x3FF0_0000_0000_0000 },
            yellow_exit: Real { bits: 0x0000_0000_0000_0000 },
            red_exit: Real { bits: 0x3FE0_0000_0000_0000 },
            confirm_samples: 1,
            inverted: false,
        },
    }
}

/// Everything that can be tuned.
#[derive(Clone, Debug, PartialEq, Eq)]
pub struct PressureConfig {
    pub cpu: BandSpec,
    pub thermal: BandSpec,
    pub memory: BandSpec,
    pub swap: BandSpec,
    pub kernel_pressure: BandSpec,
    pub thrash: BandSpec,
    pub agents: BandSpec,
    pub orphans: BandSpec,
    pub corporate: BandSpec,
    pub disk: BandSpec,
    pub uptime: BandSpec,
    pub kernel_free: BandSpec,
    pub compressor: BandSpec,
    pub jetsam: BandSpec,
    /// How long a red must hold before it counts as sustained.
    pub red_grace_secs: u64,
    /// The severity at which one sustained red is enough for the top level.
    pub catastrophic_severity: Real,
    /// How many samples the model looks at.
    pub window_samples: usize,
    /// How many samples make a verdict.
    pub min_samples: usize,
    /// How long a red must hold before an episode opens.
    pub episode_up_secs: u64,
    /// How long a dimension must stay below red before its episode closes.
    pub episode_down_secs: u64,
    /// How often an open episode is repeated.
    pub episode_repeat_secs: u64,
    /// A managed-agent rate over a shorter lifetime than this is noise.
    pub corporate_min_life_secs: u64,
    /// How many consumers a finding names.
    pub who_limit: usize,
    /// A volume this close to full is red whatever its size.
    pub disk_projection_red_secs: Real,
    /// A volume this close to full is at least yellow.
    pub disk_projection_yellow_secs: Real,
    /// The times to full that are announced afresh inside an open episode.
    pub disk_projection_notify_secs: Vec<u64>,
    /// Run-queue depth per core above which idle cores are contended for.
    pub cpu_contention_demand_per_core: Real,
    pub sample_interval_secs: u64,
    pub census_interval_secs: u64,
    /// How many cadences an interval may last before it is a gap.
    pub gap_tolerance: Real,
    /// `sample_interval_secs` times `gap_tolerance`, rounded up.
    pub sample_gap_secs: u64,
    /// `census_interval_secs` times `gap_tolerance`, rounded up.
    pub census_gap_secs: u64,
    pub thrash_peak_window_secs: u64,
    /// What one more worker is expected to take.
    pub headroom_memory_per_slot_bytes: u64,
    /// The share of the machine workers may never fill.
    pub headroom_memory_reserve_fraction: Real,
    pub headroom_retry_checking_secs: u64,
    pub headroom_retry_red_secs: u64,
    pub headroom_retry_wailing_secs: u64,
    pub headroom_retry_shrieking_secs: u64,
    pub deltas_default_lookback_secs: u64,
    pub deltas_max_lookback_secs: u64,
    /// A consumer that moved less than this is not worth a clause.
    pub deltas_min_consumer_bytes: u64,
}

impl Default for PressureConfig {
    fn default() -> (r: Self)
        ensures
            forall|d: Dimension| #[trigger] r.spec_of(d) == default_spec(d),
            r.red_grace_secs == 120,
            r.catastrophic_severity.bits == 0x4008_0000_0000_0000,
            r.window_samples == 40,
            r.min_samples == 2,
            r.episode_up_secs == 120,
            r.episode_down_secs == 600,
            r.episode_repeat_secs == 3600,
            r.corporate_min_life_secs == 600,
            r.who_limit == 3,
            r.disk_projection_red_secs.bits == 0x40AC_2000_0000_0000,
            r.disk_projection_yellow_secs.bits == 0x40BC_2000_0000_0000,
            r.disk_projection_notify_secs@ == seq![3600u64, 1800, 600],
            r.cpu_contention_demand_per_core.bits == 0x4008_0000_0000_0000,
            r.sample_interval_secs == DEFAULT_SAMPLE_INTERVAL_SECS,
            r.census_interval_secs == DEFAULT_CENSUS_INTERVAL_SECS,
            r.gap_tolerance.bits == 0x4008_0000_0000_0000,
            r.sample_gap_secs == 45,
            r.census_gap_secs == 900,
            r.thrash_peak_window_secs == 300,
            r.headroom_memory_per_slot_bytes == 0x8000_0000,
            r.headroom_memory_reserve_fraction.bits == 0x3FD0_0000_0000_0000,
            r.headroom_retry_checking_secs == 30,
            r.headroom_retry_red_secs == 60,
            r.headroom_retry_wailing_secs == 120,
            r.headroom_retry_shrieking_secs == 300,
            r.deltas_default_lookback_secs == 3600,
            r.deltas_max_lookback_secs == 86_400,
            r.deltas_min_consumer_bytes == 100_000_000,
    {
        PressureConfig {
            cpu: BandSpec::rising(
                Real { bits: 0x3FEB_3333_3333_3333 },
                Real { bits: 0x3FEE_6666_6666_6666 },
                Real { bits: 0x3FE9_9999_9999_9999 },
                Real { bits: 0x3FEC_CCCC_CCCC_CCCC },
                2,
            ),
            thermal: BandSpec::rising(
                Real { bits: 0x3FF0_0000_0000_0000 },
                Real { bits: 0x4000_0000_0000_0000 },
                Real { bits: 0x3FE0_0000_0000_0000 },
                Real { bits: 0x3FF8_0000_0000_0000 },
                2,
            ),
            memory: BandSpec::falling(
                Real { bits: 0x41DD_CD65_0000_0000 },
                Real { bits: 0x41BE_8480_0000_0000 },
                Real { bits: 0x41E0_CEFA_8000_0000 },
                Real { bits: 0x41C6_E360_0000_0000 },
                2,
            ),
            swap: BandSpec::rising(
                Real { bits: 0x41ED_CD65_0000_0000 },
                Real { bits: 0x4206_5A0B_C000_0000 },
                Real { bits: 0x41E6_5A0B_C000_0000 },
                Real { bits: 0x4204_7D35_7000_0000 },
                2,
            ),
            kernel_pressure: BandSpec::rising(
                Real { bits: 0x4000_0000_0000_0000 },
                Real { bits: 0x4010_0000_0000_0000 },
                Real { bits: 0x3FF8_0000_0000_0000 },
                Real { bits: 0x400C_0000_0000_0000 },
                2,
            ),
            thrash: BandSpec::rising(
                Real { bits: 0x4059_0000_0000_0000 },
                Real { bits: 0x408F_4000_0000_0000 },
                Real { bits: 0x4049_0000_0000_0000 },
                Real { bits: 0x408D_B000_0000_0000 },
                2,
            ),
            agents: BandSpec::rising(
                Real { bits: 0x4000_0000_0000_0000 },
                Real { bits: 0x4018_0000_0000_0000 },
                Real { bits: 0x3FF0_0000_0000_0000 },
                Real { bits: 0x4014_0000_0000_0000 },
                1,
            ),
            orphans: BandSpec::rising(
                Real { bits: 0x4024_0000_0000_0000 },
                Real { bits: 0x4044_0000_0000_0000 },
                Real { bits: 0x4014_0000_0000_0000 },
                Real { bits: 0x4041_8000_0000_0000 },
                1,
            ),
            corporate: BandSpec::rising(
                Real { bits: 0x404E_0000_0000_0000 },
                Real { bits: 0x4059_0000_0000_0000 },
                Real { bits: 0x404B_8000_0000_0000 },
                Real { bits: 0x4057_C000_0000_0000 },
                2,
            ),
            disk: BandSpec::falling(
                Real { bits: 0x422B_F08E_B000_0000 },
                Real { bits: 0x421B_F08E_B000_0000 },
                Real { bits: 0x422E_449A_9400_0000 },
                Real { bits: 0x4220_4C53_3C00_0000 },
                2,
            ),
            uptime: BandSpec::rising(
                Real { bits: 0x401C_0000_0000_0000 },
                Real { bits: 0x4035_0000_0000_0000 },
                Real { bits: 0x4018_0000_0000_0000 },
                Real { bits: 0x4034_0000_0000_0000 },
                1,
            ),
            kernel_free: BandSpec::falling(
                Real { bits: 0x403E_0000_0000_0000 },
                Real { bits: 0x402E_0000_0000_0000 },
                Real { bits: 0x4041_8000_0000_0000 },
                Real { bits: 0x4034_0000_0000_0000 },
                2,
            ),
            compressor: BandSpec::rising(
                Real { bits: 0x41ED_CD65_0000_0000 },
                Real { bits: 0x41FD_CD65_0000_0000 },
                Real { bits: 0x41E9_FCD5_0000_0000 },
                Real { bits: 0x41FB_E51D_0000_0000 },
                2,
            ),
            jetsam: BandSpec::rising(
                Real { bits: 0x3FE0_0000_0000_0000 },
                Real { bits: 0x3FF0_0000_0000_0000 },
                Real { bits: 0x0000_0000_0000_0000 },
                Real { bits: 0x3FE0_0000_0000_0000 },
                1,
            ),
            red_grace_secs: 120,
            catastrophic_severity: Real { bits: 0x4008_0000_0000_0000 },
            window_samples: 40,
            min_samples: 2,
            episode_up_secs: 120,
            episode_down_secs: 600,
            episode_repeat_secs: 3600,
            corporate_min_life_secs: 600,
            who_limit: 3,
            disk_projection_red_secs: Real { bits: 0x40AC_2000_0000_0000 },
            disk_projection_yellow_secs: Real { bits: 0x40BC_2000_0000_0000 },
            disk_projection_notify_secs: vec![3600, 1800, 600],
            cpu_contention_demand_per_core: Real { bits: 0x4008_0000_0000_0000 },
            sample_interval_secs: DEFAULT_SAMPLE_INTERVAL_SECS,
            census_interval_secs: DEFAULT_CENSUS_INTERVAL_SECS,
            gap_tolerance: Real { bits: 0x4008_0000_0000_0000 },
            sample_gap_secs: 45,
            census_gap_secs: 900,
            thrash_peak_window_secs: 300,
            headroom_memory_per_slot_bytes: 0x8000_0000,
            headroom_memory_reserve_fraction: Real { bits: 0x3FD0_0000_0000_0000 },
            headroom_retry_checking_secs: 30,
            headroom_retry_red_secs: 60,
            headroom_retry_wailing_secs: 120,
            headroom_retry_shrieking_secs: 300,
            deltas_default_lookback_secs: 3600,
            deltas_max_lookback_secs: 86_400,
            deltas_min_consumer_bytes: 100_000_000,
        }
    }
}

impl PressureConfig {
    pub open spec fn spec_of(self, d: Dimension) -> BandSpec {
        match d {
            Dimension::Cpu => self.cpu,
            Dimension::Thermal => self.thermal,
            Dimension::Memory => self.memory,
            Dimension::Swap => self.swap,
            Dimension::KernelPressure => self.kernel_pressure,
            Dimension::Thrash => self.thrash,
            Dimension::KernelFree => self.kernel_free,
            Dimension::Compressor => self.compressor,
            Dimension::Jetsam => self.jetsam,
            Dimension::Agents => self.agents,
            Dimension::Orphans => self.orphans,
            Dimension::Corporate => self.corporate,
            Dimension::Disk => self.disk,
            Dimension::Uptime => self.uptime,
        }
    }

    /// The longest interval that still counts as continuous observation in the
    /// dimension's tier. Never zero.
    pub open spec fn ceiling_of(self, d: Dimension) -> u64 {
        let secs = if d.ticks_with_the_census() {
            self.census_gap_secs
        } else {
            self.sample_gap_secs
        };
        if secs == 0 {
            1
        } else {
            secs
        }
    }

    pub fn max_interval_secs(&self, d: Dimension) -> (r: u64)
        ensures
            r == self.ceiling_of(d),
            r >= 1,
    {
        let secs: u64 = match d {
            Dimension::Agents | Dimension::Orphans | Dimension::Corporate => self.census_gap_secs,
            _ => self.sample_gap_secs,
        };
        if secs == 0 {
            1
        } else {
            secs
        }
    }

    pub fn spec(&self, d: Dimension) -> (r: &BandSpec)
        ensures
            *r == self.spec_of(d),
    {
        match d {
            Dimension::Cpu => &self.cpu,
            Dimension::Thermal => &self.thermal,
            Dimension::Memory => &self.memory,
            Dimension::Swap => &self.swap,
            Dimension::KernelPressure => &self.kernel_pressure,
            Dimension::Thrash => &self.thrash,
            Dimension::KernelFree => &self.kernel_free,
            Dimension::Compressor => &self.compressor,
            Dimension::Jetsam => &self.jetsam,
            Dimension::Agents => &self.agents,
            Dimension::Orphans => &self.orphans,
            Dimension::Corporate => &self.corporate,
            Dimension::Disk => &self.disk,
            Dimension::Uptime => &self.uptime,
        }
    }
}

/// The order of `ALL_DIMENSIONS` is the order of declaration: each dimension is
/// in it exactly once.
pub proof fn law_all_dimensions_are_listed(d: Dimension)
    ensures
        0 <= d.place() < ALL_DIMENSIONS@.len(),
        ALL_DIMENSIONS@[d.place()] == d,
        forall|i: int| 0 <= i < 14 ==> (#[trigger] ALL_DIMENSIONS@[i]).place() == i,
{
}

/// No two dimensions share a key, and none is without one.
pub proof fn law_keys_are_distinct(a: Dimension, b: Dimension)
    ensures
        a.key_text().len() > 0,
        a.key_text() == b.key_text() <==> a == b,
{
    reveal_strlit("cpu");
    reveal_strlit("thermal");
    reveal_strlit("memory");
    reveal_strlit("swap");
    reveal_strlit("kernelPressure");
    reveal_strlit("thrash");
    reveal_strlit("kernelFree");
    reveal_strlit("compressor");
    reveal_strlit("jetsam");
    reveal_strlit("agents");
    reveal_strlit("orphans");
    reveal_strlit("corporate");
    reveal_strlit("disk");
    reveal_strlit("uptime");
    if a.key_text() == b.key_text() {
        assert(a.key_text()[0] == b.key_text()[0]);
        assert(a.key_text().len() == b.key_text().len());
    }
}

/// No two sources share a glyph.
pub proof fn law_source_glyphs_are_distinct(a: Source, b: Source)
    ensures
        a.glyph_text().len() > 0,
        a.glyph_text() == b.glyph_text() <==> a == b,
{
    reveal_strlit("🔥");
    reveal_strlit("🧠");
    reveal_strlit("💽");
    reveal_strlit("🕸️");
    reveal_strlit("🏢");
    reveal_strlit("🌡️");
    if a.glyph_text() == b.glyph_text() {
        assert(a.glyph_text()[0] == b.glyph_text()[0]);
    }
}

/// Every dimension has a source, and every source is that of some dimension.
pub proof fn law_every_source_is_reachable(s: Source)
    ensures
        exists|d: Dimension| #[trigger] d.blames() == s,
{
    match s {
        Source::Cpu => assert(Dimension::Cpu.blames() == s),
        Source::Memory => assert(Dimension::Swap.blames() == s),
        Source::Disk => assert(Dimension::Disk.blames() == s),
        Source::Sprawl => assert(Dimension::Orphans.blames() == s),
        Source::Corporate => assert(Dimension::Corporate.blames() == s),
        Source::Thermal => assert(Dimension::Thermal.blames() == s),
    }
}

/// Whatever shows that memory is short is memory's fault, sessions and orphans are
/// sprawl, and each other dimension answers for itself.
pub proof fn law_who_is_blamed(d: Dimension)
    ensures
        d.blames() == Source::Sprawl <==> d == Dimension::Agents || d == Dimension::Orphans,
        d.blames() == Source::Cpu <==> d == Dimension::Cpu,
        d.blames() == Source::Thermal <==> d == Dimension::Thermal,
        d.blames() == Source::Disk <==> d == Dimension::Disk,
        d.blames() == Source::Corporate <==> d == Dimension::Corporate,
        d.blames() == Source::Memory <==> d == Dimension::Memory || d == Dimension::Swap || d
            == Dimension::KernelPressure || d == Dimension::Thrash || d == Dimension::KernelFree
            || d == Dimension::Compressor || d == Dimension::Jetsam || d == Dimension::Uptime,
        d.advisory() <==> d == Dimension::Memory || d == Dimension::KernelFree || d
            == Dimension::Compressor || d == Dimension::Uptime,
{
}

/// A dimension is watched at the pace of what it is read from: counts of processes
/// at that of the census, everything else at that of the samples, and at no less
/// than a second.
pub proof fn law_a_dimension_is_watched_at_its_pace(config: PressureConfig, d: Dimension)
    ensures
        d == Dimension::Agents || d == Dimension::Orphans || d == Dimension::Corporate
            ==> config.ceiling_of(d) == if config.census_gap_secs == 0 {
            1
        } else {
            config.census_gap_secs
        },
        d != Dimension::Agents && d != Dimension::Orphans && d != Dimension::Corporate
            ==> config.ceiling_of(d) == if config.sample_gap_secs == 0 {
            1
        } else {
            config.sample_gap_secs
        },
{
}

/// Lines are the dimension's own: moving those of one moves no other's.
pub proof fn law_lines_are_a_dimensions_own(
    config: PressureConfig,
    line: BandSpec,
    d: Dimension,
)
    ensures
        (PressureConfig { cpu: line, ..config }).spec_of(d) == if d == Dimension::Cpu {
            line
        } else {
            config.spec_of(d)
        },
        (PressureConfig { thermal: line, ..config }).spec_of(d) == if d == Dimension::Thermal {
            line
        } else {
            config.spec_of(d)
        },
        (PressureConfig { memory: line, ..config }).spec_of(d) == if d == Dimension::Memory {
            line
        } else {
            config.spec_of(d)
        },
        (PressureConfig { swap: line, ..config }).spec_of(d) == if d == Dimension::Swap {
            line
        } else {
            config.spec_of(d)
        },
        (PressureConfig { kernel_pressure: line, ..config }).spec_of(d) == if d
            == Dimension::KernelPressure {
            line
        } else {
            config.spec_of(d)
        },
        (PressureConfig { thrash: line, ..config }).spec_of(d) == if d == Dimension::Thrash {
            line
        } else {
            config.spec_of(d)
        },
        (PressureConfig { kernel_free: line, ..config }).spec_of(d) == if d
            == Dimension::KernelFree {
            line
        } else {
            config.spec_of(d)
        },
        (PressureConfig { compressor: line, ..config }).spec_of(d) == if d
            == Dimension::Compressor {
            line
        } else {
            config.spec_of(d)
        },
        (PressureConfig { jetsam: line, ..config }).spec_of(d) == if d == Dimension::Jetsam {
            line
        } else {
            config.spec_of(d)
        },
        (PressureConfig { agents: line, ..config }).spec_of(d) == if d == Dimension::Agents {
            line
        } else {
            config.spec_of(d)
        },
        (PressureConfig { orphans: line, ..config }).spec_of(d) == if d == Dimension::Orphans {
            line
        } else {
            config.spec_of(d)
        },
        (PressureConfig { corporate: line, ..config }).spec_of(d) == if d == Dimension::Corporate {
            line
        } else {
            config.spec_of(d)
        },
        (PressureConfig { disk: line, ..config }).spec_of(d) == if d == Dimension::Disk {
            line
        } else {
            config.spec_of(d)
        },
        (PressureConfig { uptime: line, ..config }).spec_of(d) == if d == Dimension::Uptime {
            line
        } else {
            config.spec_of(d)
        },
{
}

} // verus!
