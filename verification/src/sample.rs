//! A stored reading, and the five-minute rollup it collapses into.
use vstd::prelude::*;

use crate::census::{stale_in, Census};
use crate::number::Real;
use crate::outside::{floor_secs, fresh_id, is_random_id};
use crate::sys::{SysReading, VolumeReading};
use crate::text::{
    is_before, lemma_same_names, lemma_sorts_before_total, lemma_sorts_before_transitive,
    names_ascend, same_text, sorts_before,
};
use crate::time::Timestamp;

verus! {

/// The width of a rollup bucket.
pub const ROLLUP_BUCKET_SECS: i64 = 300;

/// What can go wrong.
#[derive(Clone, Copy, Debug, PartialEq, Eq, Structural)]
pub enum CoreError {
    /// The instant is further from the epoch than 64 bits of nanoseconds reach.
    NoBucket { at: Timestamp },
}

/// One volume at one instant.
#[derive(Clone, Debug, PartialEq, Eq)]
pub struct VolumeSample {
    pub mount_point: String,
    pub total_bytes: u64,
    pub avail_bytes: u64,
}

impl VolumeSample {
    pub open spec fn of(v: VolumeReading) -> VolumeSample {
        VolumeSample {
            mount_point: v.mount_point,
            total_bytes: v.total_bytes,
            avail_bytes: v.avail_bytes,
        }
    }
}

impl From<&VolumeReading> for VolumeSample {
    fn from(v: &VolumeReading) -> (r: Self) {
        VolumeSample {
            mount_point: v.mount_point.clone(),
            total_bytes: v.total_bytes,
            avail_bytes: v.avail_bytes,
        }
    }
}

impl vstd::std_specs::convert::FromSpecImpl<&VolumeReading> for VolumeSample {
    open spec fn obeys_from_spec() -> bool {
        true
    }

    open spec fn from_spec(v: &VolumeReading) -> VolumeSample {
        VolumeSample::of(*v)
    }
}

/// One reading, stored.
#[derive(Clone, Debug, PartialEq, Eq)]
pub struct Sample {
    pub id: u128,
    pub sampled_at: Timestamp,
    /// Two samples with different values have no counter delta between them.
    pub boot_time_secs: i64,
    pub ncpu: u32,
    pub mem_total_bytes: u64,
    pub page_size: u64,
    pub load1m: Real,
    pub load5m: Real,
    pub load15m: Real,
    pub swap_total_bytes: u64,
    pub swap_used_bytes: u64,
    pub pages_free: u64,
    pub pages_active: u64,
    pub pages_inactive: u64,
    pub pages_wired: u64,
    pub pages_speculative: u64,
    pub pages_compressor: u64,
    pub pages_purgeable: u64,
    pub pages_external: u64,
    pub swapins: u64,
    pub swapouts: u64,
    /// 0 means "not recorded".
    pub memory_pressure_level: u32,
    /// `None` means "not recorded": 0 is a reading.
    pub thermal_pressure_level: Option<u32>,
    pub cpu_speed_limit_percent: Option<u32>,
    pub cpu_ticks_total: Option<u64>,
    pub cpu_ticks_idle: Option<u64>,
    pub kernel_free_percent: Option<u32>,
    pub jetsam_kills: Option<u64>,
    /// The data volume first.
    pub volumes: Vec<VolumeSample>,
}

impl Sample {
    /// The reading a sample was made from.
    pub open spec fn reading(self) -> SysReading {
        SysReading {
            ncpu: self.ncpu,
            mem_total_bytes: self.mem_total_bytes,
            page_size: self.page_size,
            boot_time_secs: self.boot_time_secs,
            load_1m: self.load1m,
            load_5m: self.load5m,
            load_15m: self.load15m,
            swap_total_bytes: self.swap_total_bytes,
            swap_used_bytes: self.swap_used_bytes,
            pages_free: self.pages_free,
            pages_active: self.pages_active,
            pages_inactive: self.pages_inactive,
            pages_wired: self.pages_wired,
            pages_speculative: self.pages_speculative,
            pages_compressor: self.pages_compressor,
            pages_purgeable: self.pages_purgeable,
            pages_external: self.pages_external,
            swapins: self.swapins,
            swapouts: self.swapouts,
            memory_pressure_level: self.memory_pressure_level,
            thermal_pressure_level: self.thermal_pressure_level,
            cpu_speed_limit_percent: self.cpu_speed_limit_percent,
            cpu_ticks_total: self.cpu_ticks_total,
            cpu_ticks_idle: self.cpu_ticks_idle,
            kernel_free_percent: self.kernel_free_percent,
            jetsam_kills: self.jetsam_kills,
        }
    }

    /// Build a sample from a reading taken at `at`, under a fresh identifier.
    pub fn from_reading(at: Timestamp, reading: &SysReading, volumes: &[VolumeReading]) -> (r: Self)
        ensures
            is_random_id(r.id),
            r.sampled_at == at,
            r.reading() == *reading,
            r.volumes@ == volumes@.map_values(|v: VolumeReading| VolumeSample::of(v)),
    {
        Sample::with_id(fresh_id(), at, reading, volumes)
    }

    /// Build a sample under a given identifier.
    pub fn with_id(
        id: u128,
        at: Timestamp,
        reading: &SysReading,
        volumes: &[VolumeReading],
    ) -> (r: Self)
        ensures
            r.id == id,
            r.sampled_at == at,
            r.reading() == *reading,
            r.volumes@ == volumes@.map_values(|v: VolumeReading| VolumeSample::of(v)),
    {
        let ghost kept = |v: VolumeReading| VolumeSample::of(v);
        let mut stored: Vec<VolumeSample> = Vec::new();
        let mut i: usize = 0;
        while i < volumes.len()
            invariant
                i <= volumes.len(),
                stored@ == volumes@.take(i as int).map_values(kept),
                kept == (|v: VolumeReading| VolumeSample::of(v)),
            decreases volumes.len() - i,
        {
            stored.push(VolumeSample::from(&volumes[i]));
            assert(volumes@.take(i + 1).map_values(kept) =~= volumes@.take(i as int).map_values(
                kept,
            ).push(kept(volumes[i as int])));
            i = i + 1;
        }
        assert(volumes@.take(i as int) =~= volumes@);
        Sample {
            id,
            sampled_at: at,
            boot_time_secs: reading.boot_time_secs,
            ncpu: reading.ncpu,
            mem_total_bytes: reading.mem_total_bytes,
            page_size: reading.page_size,
            load1m: reading.load_1m,
            load5m: reading.load_5m,
            load15m: reading.load_15m,
            swap_total_bytes: reading.swap_total_bytes,
            swap_used_bytes: reading.swap_used_bytes,
            pages_free: reading.pages_free,
            pages_active: reading.pages_active,
            pages_inactive: reading.pages_inactive,
            pages_wired: reading.pages_wired,
            pages_speculative: reading.pages_speculative,
            pages_compressor: reading.pages_compressor,
            pages_purgeable: reading.pages_purgeable,
            pages_external: reading.pages_external,
            swapins: reading.swapins,
            swapouts: reading.swapouts,
            memory_pressure_level: reading.memory_pressure_level,
            thermal_pressure_level: reading.thermal_pressure_level,
            cpu_speed_limit_percent: reading.cpu_speed_limit_percent,
            cpu_ticks_total: reading.cpu_ticks_total,
            cpu_ticks_idle: reading.cpu_ticks_idle,
            kernel_free_percent: reading.kernel_free_percent,
            jetsam_kills: reading.jetsam_kills,
            volumes: stored,
        }
    }

    /// Recover the reading, so that stored samples and live readings go through
    /// the same rate rules.
    pub fn to_reading(&self) -> (r: SysReading)
        ensures
            r == self.reading(),
    {
        SysReading {
            ncpu: self.ncpu,
            mem_total_bytes: self.mem_total_bytes,
            page_size: self.page_size,
            boot_time_secs: self.boot_time_secs,
            load_1m: self.load1m,
            load_5m: self.load5m,
            load_15m: self.load15m,
            swap_total_bytes: self.swap_total_bytes,
            swap_used_bytes: self.swap_used_bytes,
            pages_free: self.pages_free,
            pages_active: self.pages_active,
            pages_inactive: self.pages_inactive,
            pages_wired: self.pages_wired,
            pages_speculative: self.pages_speculative,
            pages_compressor: self.pages_compressor,
            pages_purgeable: self.pages_purgeable,
            pages_external: self.pages_external,
            swapins: self.swapins,
            swapouts: self.swapouts,
            memory_pressure_level: self.memory_pressure_level,
            thermal_pressure_level: self.thermal_pressure_level,
            cpu_speed_limit_percent: self.cpu_speed_limit_percent,
            cpu_ticks_total: self.cpu_ticks_total,
            cpu_ticks_idle: self.cpu_ticks_idle,
            kernel_free_percent: self.kernel_free_percent,
            jetsam_kills: self.jetsam_kills,
        }
    }

    /// The bucket this sample belongs to.
    pub fn bucket_start(&self) -> (r: Result<Timestamp, CoreError>)
        ensures
            r == bucket_of(self.sampled_at),
    {
        bucket_start_of(self.sampled_at)
    }
}

/// The start of the bucket that holds an instant: the last multiple of the bucket
/// width, counted from the epoch in UTC, that is not after it.
pub open spec fn bucket_of(at: Timestamp) -> Result<Timestamp, CoreError> {
    if i64::MIN <= at.nanos <= i64::MAX {
        Ok(
            Timestamp {
                nanos: (at.nanos as int / 300_000_000_000 * 300_000_000_000) as i128,
            },
        )
    } else {
        Err(CoreError::NoBucket { at })
    }
}

/// Take an instant down to the start of its bucket.
pub fn bucket_start_of(at: Timestamp) -> (r: Result<Timestamp, CoreError>)
    ensures
        r == bucket_of(at),
{
    if at.nanos < i64::MIN as i128 || at.nanos > i64::MAX as i128 {
        return Err(CoreError::NoBucket { at });
    }
    let secs: i64 = floor_secs(at.nanos as i64, ROLLUP_BUCKET_SECS);
    Ok(Timestamp { nanos: secs as i128 * 1_000_000_000 })
}

/// Every instant lies in its bucket, and a bucket starts itself.
pub proof fn law_buckets_tile_time(at: Timestamp)
    requires
        i64::MIN <= at.nanos <= i64::MAX,
    ensures
        bucket_of(at) matches Ok(start) && start.nanos <= at.nanos < start.nanos
            + ROLLUP_BUCKET_SECS * 1_000_000_000,
        i64::MIN <= bucket_of(at)->Ok_0.nanos ==> bucket_of(bucket_of(at)->Ok_0) == bucket_of(at),
{
}

/// Two instants in one bucket's span start at the same place.
pub proof fn law_a_bucket_starts_once(a: Timestamp, b: Timestamp)
    requires
        i64::MIN <= a.nanos <= i64::MAX,
        i64::MIN <= b.nanos <= i64::MAX,
        bucket_of(a)->Ok_0.nanos <= b.nanos < bucket_of(a)->Ok_0.nanos + ROLLUP_BUCKET_SECS
            * 1_000_000_000,
    ensures
        bucket_of(a) == bucket_of(b),
{
}

/// A five-minute aggregate.
///
/// Averages hide the spike that matters, so load and swap carry a maximum, free
/// memory carries a minimum, and the counters carry an increase.
#[derive(Clone, Debug, PartialEq, Eq)]
pub struct Rollup {
    pub bucket_start: Timestamp,
    pub sample_count: u32,
    pub load1m_avg: Real,
    pub load1m_max: Real,
    pub swap_used_avg: u64,
    pub swap_used_max: u64,
    pub pages_free_min: u64,
    pub pages_compressor_max: u64,
    /// The increase across the bucket. `None` after a reboot inside it, or with
    /// a single sample.
    pub swapins_delta: Option<u64>,
    pub swapouts_delta: Option<u64>,
    /// `None` means that no census fell into the bucket, never zero.
    pub stale_sessions_max: Option<u32>,
    pub orphans_max: Option<u32>,
    pub monitor_percent_max: Option<Real>,
    pub total_procs_max: Option<u32>,
    pub volumes: Vec<VolumeRollup>,
}

/// The numbers one census contributes to its bucket.
#[derive(Clone, Copy, Debug, PartialEq, Eq, Structural)]
pub struct CensusScalars {
    pub taken_at: Timestamp,
    pub total_procs: u32,
    pub stale_sessions: u32,
    pub orphans: u32,
    pub monitor_percent: Real,
}

impl CensusScalars {
    pub open spec fn of(c: Census) -> CensusScalars {
        CensusScalars {
            taken_at: c.taken_at,
            total_procs: c.total_procs,
            stale_sessions: stale_in(c.agent_sessions@) as u32,
            orphans: c.orphans.orphan_count,
            monitor_percent: c.monitor_total.percent_of_one_core,
        }
    }
}

impl From<&Census> for CensusScalars {
    fn from(c: &Census) -> (r: Self) {
        CensusScalars {
            taken_at: c.taken_at,
            total_procs: c.total_procs,
            stale_sessions: c.stale_sessions() as u32,
            orphans: c.orphans.orphan_count,
            monitor_percent: c.monitor_total.percent_of_one_core,
        }
    }
}

impl vstd::std_specs::convert::FromSpecImpl<&Census> for CensusScalars {
    open spec fn obeys_from_spec() -> bool {
        true
    }

    open spec fn from_spec(c: &Census) -> CensusScalars {
        CensusScalars::of(*c)
    }
}

/// One volume over a bucket.
#[derive(Clone, Debug, PartialEq, Eq)]
pub struct VolumeRollup {
    pub mount_point: String,
    pub total_bytes: u64,
    pub avail_min: u64,
    pub avail_avg: u64,
}

/// The numbers a bucket's samples give for one field.
pub open spec fn field(s: Seq<Sample>, pick: spec_fn(Sample) -> int) -> Seq<int> {
    s.map_values(pick)
}

/// The greatest of some numbers.
pub open spec fn most(s: Seq<int>) -> int
    decreases s.len(),
{
    if s.len() <= 1 {
        s[0]
    } else {
        let front = most(s.drop_last());
        if s.last() > front {
            s.last()
        } else {
            front
        }
    }
}

/// The least of some numbers.
pub open spec fn least(s: Seq<int>) -> int
    decreases s.len(),
{
    if s.len() <= 1 {
        s[0]
    } else {
        let front = least(s.drop_last());
        if s.last() < front {
            s.last()
        } else {
            front
        }
    }
}

/// The sum of some numbers.
pub open spec fn total(s: Seq<int>) -> int
    decreases s.len(),
{
    if s.len() == 0 {
        0
    } else {
        total(s.drop_last()) + s.last()
    }
}

/// `most` and `least` are reached, and bound the rest.
pub proof fn law_extremes(s: Seq<int>)
    requires
        s.len() > 0,
    ensures
        s.contains(most(s)),
        s.contains(least(s)),
        forall|i: int| 0 <= i < s.len() ==> least(s) <= #[trigger] s[i] <= most(s),
    decreases s.len(),
{
    if s.len() > 1 {
        let front = s.drop_last();
        law_extremes(front);
        let i = choose|i: int| 0 <= i < front.len() && front[i] == most(front);
        let j = choose|j: int| 0 <= j < front.len() && front[j] == least(front);
        assert(s[i] == most(front) && s[j] == least(front));
        assert(s[s.len() - 1] == s.last());
        assert forall|k: int| 0 <= k < s.len() implies least(s) <= #[trigger] s[k] <= most(s) by {
            if k < s.len() - 1 {
                assert(front[k] == s[k]);
            }
        }
    } else {
        assert(s[0] == most(s));
    }
}

pub open spec fn swap_used() -> spec_fn(Sample) -> int {
    |s: Sample| s.swap_used_bytes as int
}

pub open spec fn free_pages() -> spec_fn(Sample) -> int {
    |s: Sample| s.pages_free as int
}

pub open spec fn compressed_pages() -> spec_fn(Sample) -> int {
    |s: Sample| s.pages_compressor as int
}

pub open spec fn swapped_in() -> spec_fn(Sample) -> int {
    |s: Sample| s.swapins as int
}

pub open spec fn swapped_out() -> spec_fn(Sample) -> int {
    |s: Sample| s.swapouts as int
}

/// The most negative finite number.
pub open spec fn floor_value() -> Real {
    Real { bits: 0xFFEF_FFFF_FFFF_FFFF }
}

/// The greatest load of the bucket, NaNs passed over.
pub open spec fn peak_load(s: Seq<Sample>) -> Real
    decreases s.len(),
{
    if s.len() == 0 {
        floor_value()
    } else {
        peak_load(s.drop_last()).larger(s.last().load1m)
    }
}

/// The samples straddle a boot.
pub open spec fn rebooted(s: Seq<Sample>) -> bool {
    exists|i: int| 0 <= i < s.len() && (#[trigger] s[i]).boot_time_secs != s[0].boot_time_secs
}

/// How far a counter rose across a bucket.
pub open spec fn rise(s: Seq<Sample>, pick: spec_fn(Sample) -> int) -> Option<u64> {
    if rebooted(s) || s.len() < 2 {
        None
    } else {
        Some((most(field(s, pick)) - least(field(s, pick))) as u64)
    }
}

/// The greatest of a census field, when there was a census.
pub open spec fn census_most(
    s: Seq<CensusScalars>,
    pick: spec_fn(CensusScalars) -> int,
) -> Option<u32> {
    if s.len() == 0 {
        None
    } else {
        Some(most(s.map_values(pick)) as u32)
    }
}

pub open spec fn census_stale() -> spec_fn(CensusScalars) -> int {
    |c: CensusScalars| c.stale_sessions as int
}

pub open spec fn census_orphans() -> spec_fn(CensusScalars) -> int {
    |c: CensusScalars| c.orphans as int
}

pub open spec fn census_procs() -> spec_fn(CensusScalars) -> int {
    |c: CensusScalars| c.total_procs as int
}

/// The greatest managed-agent rate of the bucket, when there was a census.
pub open spec fn peak_monitor(s: Seq<CensusScalars>) -> Option<Real>
    decreases s.len(),
{
    if s.len() == 0 {
        None
    } else {
        match peak_monitor(s.drop_last()) {
            None => Some(s.last().monitor_percent),
            Some(a) => Some(a.larger(s.last().monitor_percent)),
        }
    }
}

/// Every volume observed in a bucket, in the order of observation.
pub open spec fn observations(s: Seq<Sample>) -> Seq<VolumeSample>
    decreases s.len(),
{
    if s.len() == 0 {
        Seq::empty()
    } else {
        observations(s.drop_last()) + s.last().volumes@
    }
}

/// The observations of one mount point.
pub open spec fn seen_at(obs: Seq<VolumeSample>, mount: Seq<char>) -> Seq<VolumeSample>
    decreases obs.len(),
{
    if obs.len() == 0 {
        obs
    } else {
        let front = seen_at(obs.drop_last(), mount);
        if obs.last().mount_point@ == mount {
            front.push(obs.last())
        } else {
            front
        }
    }
}

pub open spec fn avail() -> spec_fn(VolumeSample) -> int {
    |v: VolumeSample| v.avail_bytes as int
}

/// A mount point's row sums up what was observed of it: the last size, the least
/// free, and the mean free, rounded down.
pub open spec fn sums_up(row: VolumeRollup, obs: Seq<VolumeSample>) -> bool {
    let mine = seen_at(obs, row.mount_point@);
    &&& mine.len() > 0
    &&& row.total_bytes == mine.last().total_bytes
    &&& row.avail_min == least(mine.map_values(avail()))
    &&& row.avail_avg == total(mine.map_values(avail())) / (mine.len() as int)
}

/// The rows of a bucket: one per mount point observed in it, in the order of
/// their names.
pub open spec fn are_rows_of(rows: Seq<VolumeRollup>, obs: Seq<VolumeSample>) -> bool {
    &&& forall|i: int| 0 <= i < rows.len() ==> sums_up(#[trigger] rows[i], obs)
    &&& forall|i: int, j: int|
        0 <= i < j < rows.len() ==> sorts_before(
            (#[trigger] rows[i]).mount_point@,
            (#[trigger] rows[j]).mount_point@,
        )
    &&& forall|k: int| 0 <= k < obs.len() ==> has_row(rows, (#[trigger] obs[k]).mount_point@)
}

/// Whether a mount point has a row.
pub open spec fn has_row(rows: Seq<VolumeRollup>, mount: Seq<char>) -> bool {
    exists|i: int| 0 <= i < rows.len() && (#[trigger] rows[i]).mount_point@ == mount
}

/// What a rollup of some samples and censuses holds.
pub open spec fn rolls_up(
    r: Rollup,
    bucket_start: Timestamp,
    samples: Seq<Sample>,
    censuses: Seq<CensusScalars>,
    load1m_avg: Real,
) -> bool {
    &&& r.bucket_start == bucket_start
    &&& r.sample_count == (if samples.len() > u32::MAX {
        u32::MAX
    } else {
        samples.len() as u32
    })
    &&& r.load1m_avg == load1m_avg
    &&& r.load1m_max == peak_load(samples)
    &&& r.swap_used_avg == total(field(samples, swap_used())) / (samples.len() as int)
    &&& r.swap_used_max == most(field(samples, swap_used()))
    &&& r.pages_free_min == least(field(samples, free_pages()))
    &&& r.pages_compressor_max == most(field(samples, compressed_pages()))
    &&& r.swapins_delta == rise(samples, swapped_in())
    &&& r.swapouts_delta == rise(samples, swapped_out())
    &&& r.stale_sessions_max == census_most(censuses, census_stale())
    &&& r.orphans_max == census_most(censuses, census_orphans())
    &&& r.monitor_percent_max == peak_monitor(censuses)
    &&& r.total_procs_max == census_most(censuses, census_procs())
    &&& are_rows_of(r.volumes@, observations(samples))
}

proof fn lemma_field_push(s: Seq<Sample>, i: int, pick: spec_fn(Sample) -> int)
    requires
        0 <= i < s.len(),
    ensures
        field(s.take(i + 1), pick).len() == i + 1,
        field(s.take(i + 1), pick).drop_last() == field(s.take(i), pick),
        field(s.take(i + 1), pick).last() == pick(s[i]),
{
    assert(field(s.take(i + 1), pick).drop_last() =~= field(s.take(i), pick));
}

/// The five extremes and the sum that one pass over the samples gives.
struct Extremes {
    load_max: Real,
    swap_sum: u128,
    swap_max: u64,
    free_min: u64,
    comp_max: u64,
    ins_max: u64,
    ins_min: u64,
    outs_max: u64,
    outs_min: u64,
    rebooted: bool,
}

fn extremes_of(samples: &[Sample]) -> (x: Extremes)
    requires
        samples.len() > 0,
    ensures
        x.load_max == peak_load(samples@),
        x.swap_sum == total(field(samples@, swap_used())),
        x.swap_sum <= samples.len() * u64::MAX,
        x.swap_max == most(field(samples@, swap_used())),
        x.free_min == least(field(samples@, free_pages())),
        x.comp_max == most(field(samples@, compressed_pages())),
        x.ins_max == most(field(samples@, swapped_in())),
        x.ins_min == least(field(samples@, swapped_in())),
        x.outs_max == most(field(samples@, swapped_out())),
        x.outs_min == least(field(samples@, swapped_out())),
        x.rebooted == rebooted(samples@),
{
    let n: usize = samples.len();
    let floor = Real { bits: 0xFFEF_FFFF_FFFF_FFFF };
    let mut x = Extremes {
        load_max: floor.max(samples[0].load1m),
        swap_sum: samples[0].swap_used_bytes as u128,
        swap_max: samples[0].swap_used_bytes,
        free_min: samples[0].pages_free,
        comp_max: samples[0].pages_compressor,
        ins_max: samples[0].swapins,
        ins_min: samples[0].swapins,
        outs_max: samples[0].swapouts,
        outs_min: samples[0].swapouts,
        rebooted: false,
    };
    proof {
        assert(samples@.take(1).drop_last() =~= Seq::empty());
        assert(peak_load(samples@.take(1).drop_last()) == floor_value());
        lemma_field_push(samples@, 0, swap_used());
        lemma_field_push(samples@, 0, free_pages());
        lemma_field_push(samples@, 0, compressed_pages());
        lemma_field_push(samples@, 0, swapped_in());
        lemma_field_push(samples@, 0, swapped_out());
        assert(field(samples@.take(0), swap_used()) =~= Seq::empty());
        assert(total(field(samples@.take(1), swap_used()).drop_last()) == 0);
    }
    let mut i: usize = 1;
    while i < n
        invariant
            1 <= i <= n,
            n == samples.len(),
            x.load_max == peak_load(samples@.take(i as int)),
            x.swap_sum == total(field(samples@.take(i as int), swap_used())),
            x.swap_sum <= i * u64::MAX,
            x.swap_max == most(field(samples@.take(i as int), swap_used())),
            x.free_min == least(field(samples@.take(i as int), free_pages())),
            x.comp_max == most(field(samples@.take(i as int), compressed_pages())),
            x.ins_max == most(field(samples@.take(i as int), swapped_in())),
            x.ins_min == least(field(samples@.take(i as int), swapped_in())),
            x.outs_max == most(field(samples@.take(i as int), swapped_out())),
            x.outs_min == least(field(samples@.take(i as int), swapped_out())),
            x.rebooted == exists|k: int|
                0 <= k < i && (#[trigger] samples@[k]).boot_time_secs
                    != samples@[0].boot_time_secs,
        decreases n - i,
    {
        proof {
            assert(samples@.take(i + 1).drop_last() =~= samples@.take(i as int));
            lemma_field_push(samples@, i as int, swap_used());
            lemma_field_push(samples@, i as int, free_pages());
            lemma_field_push(samples@, i as int, compressed_pages());
            lemma_field_push(samples@, i as int, swapped_in());
            lemma_field_push(samples@, i as int, swapped_out());
            assert(i * u64::MAX + u64::MAX == (i + 1) * u64::MAX) by (nonlinear_arith);
            assert((i + 1) * u64::MAX <= u64::MAX * u64::MAX) by (nonlinear_arith)
                requires
                    i + 1 <= u64::MAX,
            ;
        }
        let s = &samples[i];
        x.load_max = x.load_max.max(s.load1m);
        x.swap_sum = x.swap_sum + s.swap_used_bytes as u128;
        if s.swap_used_bytes > x.swap_max {
            x.swap_max = s.swap_used_bytes;
        }
        if s.pages_free < x.free_min {
            x.free_min = s.pages_free;
        }
        if s.pages_compressor > x.comp_max {
            x.comp_max = s.pages_compressor;
        }
        if s.swapins > x.ins_max {
            x.ins_max = s.swapins;
        }
        if s.swapins < x.ins_min {
            x.ins_min = s.swapins;
        }
        if s.swapouts > x.outs_max {
            x.outs_max = s.swapouts;
        }
        if s.swapouts < x.outs_min {
            x.outs_min = s.swapouts;
        }
        if s.boot_time_secs != samples[0].boot_time_secs {
            x.rebooted = true;
        }
        i = i + 1;
    }
    assert(samples@.take(n as int) =~= samples@);
    x
}

/// The greatest of each census field.
struct CensusExtremes {
    stale: Option<u32>,
    orphans: Option<u32>,
    monitor: Option<Real>,
    procs: Option<u32>,
}

fn more(a: Option<u32>, b: u32) -> (r: Option<u32>)
    ensures
        r == Some(match a {
            Some(x) => if b > x {
                b
            } else {
                x
            },
            None => b,
        }),
{
    match a {
        Some(x) => if b > x {
            Some(b)
        } else {
            Some(x)
        },
        None => Some(b),
    }
}

proof fn lemma_census_push(s: Seq<CensusScalars>, i: int, pick: spec_fn(CensusScalars) -> int)
    requires
        0 <= i < s.len(),
    ensures
        s.take(i + 1).map_values(pick).len() == i + 1,
        s.take(i + 1).map_values(pick).drop_last() == s.take(i).map_values(pick),
        s.take(i + 1).map_values(pick).last() == pick(s[i]),
        s.take(i).map_values(pick).len() == i,
{
    assert(s.take(i + 1).map_values(pick).drop_last() =~= s.take(i).map_values(pick));
}

proof fn lemma_census_most_fits(s: Seq<CensusScalars>, pick: spec_fn(CensusScalars) -> int)
    requires
        s.len() > 0,
        forall|c: CensusScalars| 0 <= #[trigger] pick(c) <= u32::MAX,
    ensures
        0 <= most(s.map_values(pick)) <= u32::MAX,
{
    law_extremes(s.map_values(pick));
    let i = choose|i: int|
        0 <= i < s.map_values(pick).len() && s.map_values(pick)[i] == most(s.map_values(pick));
    assert(s.map_values(pick)[i] == pick(s[i]));
}

fn census_extremes_of(censuses: &[CensusScalars]) -> (x: CensusExtremes)
    ensures
        x.stale == census_most(censuses@, census_stale()),
        x.orphans == census_most(censuses@, census_orphans()),
        x.monitor == peak_monitor(censuses@),
        x.procs == census_most(censuses@, census_procs()),
{
    let n: usize = censuses.len();
    let mut x = CensusExtremes { stale: None, orphans: None, monitor: None, procs: None };
    let mut i: usize = 0;
    while i < n
        invariant
            i <= n,
            n == censuses.len(),
            x.stale == census_most(censuses@.take(i as int), census_stale()),
            x.orphans == census_most(censuses@.take(i as int), census_orphans()),
            x.monitor == peak_monitor(censuses@.take(i as int)),
            x.procs == census_most(censuses@.take(i as int), census_procs()),
        decreases n - i,
    {
        let c = censuses[i];
        proof {
            assert(censuses@.take(i + 1).drop_last() =~= censuses@.take(i as int));
            lemma_census_push(censuses@, i as int, census_stale());
            lemma_census_push(censuses@, i as int, census_orphans());
            lemma_census_push(censuses@, i as int, census_procs());
            if i > 0 {
                lemma_census_most_fits(censuses@.take(i as int), census_stale());
                lemma_census_most_fits(censuses@.take(i as int), census_orphans());
                lemma_census_most_fits(censuses@.take(i as int), census_procs());
            }
        }
        x.stale = more(x.stale, c.stale_sessions);
        x.orphans = more(x.orphans, c.orphans);
        x.monitor = match x.monitor {
            None => Some(c.monitor_percent),
            Some(a) => Some(a.max(c.monitor_percent)),
        };
        x.procs = more(x.procs, c.total_procs);
        i = i + 1;
    }
    assert(censuses@.take(n as int) =~= censuses@);
    x
}

/// Whether a name is among some names.
spec fn named(s: Seq<String>, name: Seq<char>) -> bool {
    exists|i: int| 0 <= i < s.len() && (#[trigger] s[i])@ == name
}

spec fn ascending(s: Seq<String>) -> bool {
    forall|i: int, j: int| 0 <= i < j < s.len() ==> sorts_before((#[trigger] s[i])@, (#[trigger] s[j])@)
}

/// Add a name to an ascending list, unless it is there.
fn add_name(names: &mut Vec<String>, name: &String)
    requires
        ascending(old(names)@),
    ensures
        ascending(final(names)@),
        forall|x: Seq<char>| #[trigger]
            named(final(names)@, x) <==> named(old(names)@, x) || x == name@,
{
    let ghost before = names@;
    let mut at: usize = 0;
    while at < names.len() && is_before(names[at].as_str(), name.as_str())
        invariant
            at <= names.len(),
            names@ == before,
            forall|k: int| 0 <= k < at ==> sorts_before((#[trigger] before[k])@, name@),
        decreases names.len() - at,
    {
        at = at + 1;
    }
    if at < names.len() && same_text(names[at].as_str(), name.as_str()) {
        assert(before[at as int]@ == name@);
        return;
    }
    names.insert(at, name.clone());
    proof {
        let after = names@;
        assert(after == before.insert(at as int, after[at as int]));
        assert(after[at as int]@ == name@);
        assert forall|j: int| at <= j < before.len() implies sorts_before(
            name@,
            (#[trigger] before[j])@,
        ) by {
            lemma_sorts_before_total(before[at as int]@, name@);
            if j > at {
                assert(sorts_before(before[at as int]@, before[j]@));
                lemma_sorts_before_transitive(name@, before[at as int]@, before[j]@);
            }
        }
        assert forall|i: int, j: int| 0 <= i < j < after.len() implies sorts_before(
            (#[trigger] after[i])@,
            (#[trigger] after[j])@,
        ) by {
            let a = if i < at {
                i
            } else {
                i - 1
            };
            let b = if j < at {
                j
            } else {
                j - 1
            };
            if i < at {
                assert(after[i] == before[i]);
            } else if i > at {
                assert(after[i] == before[i - 1]);
            }
            if j < at {
                assert(after[j] == before[j]);
            } else if j > at {
                assert(after[j] == before[j - 1]);
            }
            if i != at && j != at {
                assert(sorts_before(before[a]@, before[b]@));
            }
        }
        assert forall|x: Seq<char>| #[trigger] named(after, x) <==> named(before, x) || x
            == name@ by {
            if named(before, x) {
                let k = choose|k: int| 0 <= k < before.len() && (#[trigger] before[k])@ == x;
                if k < at {
                    assert(after[k] == before[k]);
                } else {
                    assert(after[k + 1] == before[k]);
                }
            }
            if x == name@ {
                assert(after[at as int]@ == x);
            }
            if named(after, x) && x != name@ {
                let k = choose|k: int| 0 <= k < after.len() && (#[trigger] after[k])@ == x;
                if k < at {
                    assert(before[k] == after[k]);
                } else {
                    assert(before[k - 1] == after[k]);
                }
            }
        }
    }
}

/// The observations up to the `j`th volume of the `i`th sample.
spec fn so_far(s: Seq<Sample>, i: int, j: int) -> Seq<VolumeSample> {
    observations(s.take(i)) + s[i].volumes@.take(j)
}

proof fn lemma_so_far(s: Seq<Sample>, i: int)
    requires
        0 <= i < s.len(),
    ensures
        so_far(s, i, 0) == observations(s.take(i)),
        so_far(s, i, s[i].volumes@.len() as int) == observations(s.take(i + 1)),
{
    assert(so_far(s, i, 0) =~= observations(s.take(i)));
    assert(s.take(i + 1).drop_last() =~= s.take(i));
    assert(s[i].volumes@.take(s[i].volumes@.len() as int) =~= s[i].volumes@);
}

proof fn lemma_so_far_step(s: Seq<Sample>, i: int, j: int)
    requires
        0 <= i < s.len(),
        0 <= j < s[i].volumes@.len(),
    ensures
        so_far(s, i, j + 1).len() == so_far(s, i, j).len() + 1,
        so_far(s, i, j + 1) == so_far(s, i, j).push(s[i].volumes@[j]),
        so_far(s, i, j + 1).drop_last() == so_far(s, i, j),
        so_far(s, i, j + 1).last() == s[i].volumes@[j],
{
    assert(so_far(s, i, j + 1) =~= so_far(s, i, j).push(s[i].volumes@[j]));
    assert(so_far(s, i, j + 1).drop_last() =~= so_far(s, i, j));
}

/// Whether an observation is of a mount point.
spec fn mounted(obs: Seq<VolumeSample>, name: Seq<char>) -> bool {
    exists|k: int| 0 <= k < obs.len() && (#[trigger] obs[k]).mount_point@ == name
}

proof fn lemma_mounted_push(obs: Seq<VolumeSample>, v: VolumeSample)
    ensures
        forall|x: Seq<char>| #[trigger]
            mounted(obs.push(v), x) <==> mounted(obs, x) || x == v.mount_point@,
{
    assert forall|x: Seq<char>| #[trigger] mounted(obs.push(v), x) <==> mounted(obs, x) || x
        == v.mount_point@ by {
        if mounted(obs, x) {
            let k = choose|k: int| 0 <= k < obs.len() && (#[trigger] obs[k]).mount_point@ == x;
            assert(obs.push(v)[k] == obs[k]);
        }
        if x == v.mount_point@ {
            assert(obs.push(v)[obs.len() as int] == v);
        }
        if mounted(obs.push(v), x) {
            let k = choose|k: int|
                0 <= k < obs.push(v).len() && (#[trigger] obs.push(v)[k]).mount_point@ == x;
            if k < obs.len() {
                assert(obs[k] == obs.push(v)[k]);
            }
        }
    }
}

proof fn lemma_seen_when_mounted(obs: Seq<VolumeSample>, name: Seq<char>)
    ensures
        mounted(obs, name) <==> seen_at(obs, name).len() > 0,
    decreases obs.len(),
{
    if obs.len() > 0 {
        lemma_seen_when_mounted(obs.drop_last(), name);
        lemma_mounted_push(obs.drop_last(), obs.last());
        assert(obs.drop_last().push(obs.last()) =~= obs);
    }
}

/// The mount points of a bucket, ascending.
fn mounts_of(samples: &[Sample]) -> (names: Vec<String>)
    ensures
        ascending(names@),
        forall|x: Seq<char>| #[trigger]
            named(names@, x) <==> mounted(observations(samples@), x),
{
    let mut names: Vec<String> = Vec::new();
    let mut i: usize = 0;
    while i < samples.len()
        invariant
            i <= samples.len(),
            ascending(names@),
            forall|x: Seq<char>| #[trigger]
                named(names@, x) <==> mounted(observations(samples@.take(i as int)), x),
        decreases samples.len() - i,
    {
        proof {
            lemma_so_far(samples@, i as int);
        }
        let mut j: usize = 0;
        while j < samples[i].volumes.len()
            invariant
                i < samples.len(),
                j <= samples@[i as int].volumes.len(),
                    so_far(samples@, i as int, samples@[i as int].volumes@.len() as int)
                    == observations(samples@.take(i + 1)),
                ascending(names@),
                forall|x: Seq<char>| #[trigger]
                    named(names@, x) <==> mounted(so_far(samples@, i as int, j as int), x),
            decreases samples@[i as int].volumes.len() - j,
        {
            proof {
                lemma_so_far_step(samples@, i as int, j as int);
                lemma_mounted_push(
                    so_far(samples@, i as int, j as int),
                    samples@[i as int].volumes@[j as int],
                );
            }
            add_name(&mut names, &samples[i].volumes[j].mount_point);
            j = j + 1;
        }
        i = i + 1;
    }
    assert(samples@.take(i as int) =~= samples@);
    names
}

proof fn lemma_seen_push(mine: Seq<VolumeSample>, v: VolumeSample)
    ensures
        mine.push(v).map_values(avail()).drop_last() == mine.map_values(avail()),
        mine.push(v).map_values(avail()).last() == v.avail_bytes,
        mine.push(v).map_values(avail()).len() == mine.len() + 1,
        mine.map_values(avail()).len() == mine.len(),
{
    assert(mine.push(v).map_values(avail()).drop_last() =~= mine.map_values(avail()));
}

/// A mean, rounded down, as the numbers come: how many there were, the whole part
/// of their mean, and what is left of their sum.
#[derive(Clone, Copy)]
struct Mean {
    count: u128,
    whole: u64,
    rest: u128,
}

impl Mean {
    spec fn sum(self) -> int {
        self.whole * self.count + self.rest
    }

    spec fn well_formed(self) -> bool {
        &&& self.count == 0 ==> self.whole == 0 && self.rest == 0
        &&& self.count > 0 ==> self.rest < self.count
        &&& self.sum() <= self.count * u64::MAX
    }

    /// The mean with one number more.
    fn with(self, v: u64) -> (r: Mean)
        requires
            self.well_formed(),
            self.count < u64::MAX * u64::MAX,
        ensures
            r.well_formed(),
            r.count == self.count + 1,
            r.sum() == self.sum() + v,
    {
        proof {
            assert(u64::MAX * u64::MAX + 2 * u64::MAX <= u128::MAX) by (nonlinear_arith);
        }
        let n: u128 = self.count + 1;
        let part: u128 = self.rest + v as u128;
        let whole: u128 = self.whole as u128;
        if part >= whole {
            let over: u128 = part - whole;
            let up: u128 = over / n;
            proof {
                lemma_mean_rises(self, v, over as int, n as int);
            }
            Mean { count: n, whole: (whole + up) as u64, rest: over % n }
        } else {
            let under: u128 = whole - part;
            let down: u128 = (under + self.count) / n;
            proof {
                lemma_mean_falls(self, v, under as int, n as int);
            }
            Mean { count: n, whole: (whole - down) as u64, rest: down * n - under }
        }
    }
}

proof fn lemma_mean_rises(m: Mean, v: u64, over: int, n: int)
    requires
        m.well_formed(),
        n == m.count + 1,
        over == m.rest + v - m.whole,
        over >= 0,
    ensures
        (m.whole + over / n) * n + over % n == m.sum() + v,
        0 <= over / n,
        0 <= over % n < n,
        m.whole + over / n <= u64::MAX,
        m.sum() + v <= n * u64::MAX,
{
    let up = over / n;
    let left = over % n;
    vstd::arithmetic::div_mod::lemma_fundamental_div_mod(over, n);
    assert(0 <= up && 0 <= left < n) by (nonlinear_arith)
        requires
            up == over / n,
            left == over % n,
            over >= 0,
            n > 0,
    ;
    let (w, c, r) = (m.whole as int, m.count as int, m.rest as int);
    assert((w + up) * n + left == w * c + r + v) by (nonlinear_arith)
        requires
            n == c + 1,
            over == r + v - w,
            over == n * up + left,
    ;
    assert(w * c + r + v <= n * u64::MAX) by (nonlinear_arith)
        requires
            w * c + r <= c * u64::MAX,
            n == c + 1,
            v <= u64::MAX,
    ;
    assert(w + up <= u64::MAX) by (nonlinear_arith)
        requires
            (w + up) * n + left <= n * u64::MAX,
            left >= 0,
            n > 0,
    ;
}

proof fn lemma_mean_falls(m: Mean, v: u64, under: int, n: int)
    requires
        m.well_formed(),
        n == m.count + 1,
        under == m.whole - m.rest - v,
        under > 0,
    ensures
        ({
            let down = (under + m.count) / n;
            &&& (m.whole - down) * n + (down * n - under) == m.sum() + v
            &&& 0 <= down <= under
            &&& 0 <= down * n - under < n
            &&& m.sum() + v <= n * u64::MAX
            &&& down * n <= under + m.count
        }),
{
    let (w, c, r) = (m.whole as int, m.count as int, m.rest as int);
    let down = (under + c) / n;
    let left = (under + c) % n;
    vstd::arithmetic::div_mod::lemma_fundamental_div_mod(under + c, n);
    assert(0 <= left < n) by (nonlinear_arith)
        requires
            left == (under + c) % n,
            n > 0,
    ;
    assert(n * down == down * n) by (nonlinear_arith);
    assert(0 <= down <= under) by (nonlinear_arith)
        requires
            under + c == n * down + left,
            0 <= left < n,
            n == c + 1,
            c >= 0,
            under > 0,
    ;
    assert((w - down) * n + (down * n - under) == w * c + r + v) by (nonlinear_arith)
        requires
            n == c + 1,
            under == w - r - v,
    ;
    assert(w * c + r + v <= n * u64::MAX) by (nonlinear_arith)
        requires
            w * c + r <= c * u64::MAX,
            n == c + 1,
            v <= u64::MAX,
    ;
}

/// Sum up what was observed of one mount point.
fn row_of(samples: &[Sample], mount: &String) -> (row: VolumeRollup)
    requires
        mounted(observations(samples@), mount@),
    ensures
        row.mount_point@ == mount@,
        sums_up(row, observations(samples@)),
{
    let mut mean = Mean { count: 0, whole: 0, rest: 0 };
    let mut avail_min: u64 = 0;
    let mut total_bytes: u64 = 0;
    let mut i: usize = 0;
    assert(observations(samples@.take(0)) =~= Seq::empty());
    while i < samples.len()
        invariant
            i <= samples.len(),
            mean.well_formed(),
            mean.count <= i * usize::MAX,
            ({
                let mine = seen_at(observations(samples@.take(i as int)), mount@);
                &&& mean.count == mine.len()
                &&& mean.sum() == total(mine.map_values(avail()))
                &&& mean.count > 0 ==> avail_min == least(mine.map_values(avail()))
                &&& mean.count > 0 ==> total_bytes == mine.last().total_bytes
            }),
        decreases samples.len() - i,
    {
        proof {
            lemma_so_far(samples@, i as int);
            assert(i * usize::MAX + usize::MAX == (i + 1) * usize::MAX) by (nonlinear_arith);
            assert((i + 1) * usize::MAX <= u64::MAX * u64::MAX) by (nonlinear_arith)
                requires
                    i + 1 <= usize::MAX,
                    usize::MAX <= u64::MAX,
            ;
        }
        let mut j: usize = 0;
        while j < samples[i].volumes.len()
            invariant
                i < samples.len(),
                j <= samples@[i as int].volumes.len(),
                so_far(samples@, i as int, samples@[i as int].volumes@.len() as int)
                    == observations(samples@.take(i + 1)),
                mean.well_formed(),
                mean.count <= i * usize::MAX + j,
                i * usize::MAX + usize::MAX <= u64::MAX * u64::MAX,
                ({
                    let mine = seen_at(so_far(samples@, i as int, j as int), mount@);
                    &&& mean.count == mine.len()
                    &&& mean.sum() == total(mine.map_values(avail()))
                    &&& mean.count > 0 ==> avail_min == least(mine.map_values(avail()))
                    &&& mean.count > 0 ==> total_bytes == mine.last().total_bytes
                }),
            decreases samples@[i as int].volumes.len() - j,
        {
            proof {
                let mine = seen_at(so_far(samples@, i as int, j as int), mount@);
                lemma_so_far_step(samples@, i as int, j as int);
                lemma_seen_push(mine, samples@[i as int].volumes@[j as int]);
            }
            let v = &samples[i].volumes[j];
            if same_text(v.mount_point.as_str(), mount.as_str()) {
                if mean.count == 0 || v.avail_bytes < avail_min {
                    avail_min = v.avail_bytes;
                }
                mean = mean.with(v.avail_bytes);
                total_bytes = v.total_bytes;
            }
            j = j + 1;
        }
        i = i + 1;
    }
    proof {
        assert(samples@.take(i as int) =~= samples@);
        lemma_seen_when_mounted(observations(samples@), mount@);
        vstd::arithmetic::div_mod::lemma_fundamental_div_mod_converse(
            mean.sum(),
            mean.count as int,
            mean.whole as int,
            mean.rest as int,
        );
    }
    VolumeRollup { mount_point: mount.clone(), total_bytes, avail_min, avail_avg: mean.whole }
}

proof fn lemma_mean_fits(sum: int, count: int)
    requires
        count > 0,
        0 <= sum <= count * u64::MAX,
    ensures
        0 <= sum / count <= u64::MAX,
{
    assert(0 <= sum / count <= u64::MAX) by (nonlinear_arith)
        requires
            count > 0,
            0 <= sum <= count * u64::MAX,
    ;
}

fn rows_of(samples: &[Sample]) -> (rows: Vec<VolumeRollup>)
    ensures
        are_rows_of(rows@, observations(samples@)),
{
    let names = mounts_of(samples);
    let ghost obs = observations(samples@);
    let mut rows: Vec<VolumeRollup> = Vec::new();
    let mut i: usize = 0;
    while i < names.len()
        invariant
            i <= names.len(),
            obs == observations(samples@),
            forall|x: Seq<char>| #[trigger] named(names@, x) <==> mounted(obs, x),
            rows.len() == i,
            forall|k: int|
                0 <= k < i ==> (#[trigger] rows@[k]).mount_point@ == names@[k]@ && sums_up(
                    rows@[k],
                    obs,
                ),
        decreases names.len() - i,
    {
        assert(named(names@, names@[i as int]@));
        rows.push(row_of(samples, &names[i]));
        i = i + 1;
    }
    proof {
        assert forall|k: int| 0 <= k < obs.len() implies has_row(
            rows@,
            (#[trigger] obs[k]).mount_point@,
        ) by {
            assert(mounted(obs, obs[k].mount_point@));
            assert(named(names@, obs[k].mount_point@));
            let at = choose|at: int|
                0 <= at < names@.len() && (#[trigger] names@[at])@ == obs[k].mount_point@;
            assert(rows@[at].mount_point@ == obs[k].mount_point@);
        }
        assert forall|a: int, b: int| 0 <= a < b < rows@.len() implies sorts_before(
            (#[trigger] rows@[a]).mount_point@,
            (#[trigger] rows@[b]).mount_point@,
        ) by {
            assert(sorts_before(names@[a]@, names@[b]@));
        }
        assert forall|k: int| 0 <= k < rows@.len() implies sums_up(#[trigger] rows@[k], obs) by {
            assert(rows@[k].mount_point@ == names@[k]@);
        }
        assert(are_rows_of(rows@, obs));
    }
    rows
}

/// Collapse the samples of one bucket, folding in the numbers of the censuses
/// taken inside it. `load1m_avg` is the mean load of the samples.
///
/// No samples make no rollup. Samples need not be in order.
pub fn rollup(
    bucket_start: Timestamp,
    samples: &[Sample],
    censuses: &[CensusScalars],
    load1m_avg: Real,
) -> (r: Option<Rollup>)
    ensures
        r is None <==> samples@.len() == 0,
        r matches Some(x) ==> rolls_up(x, bucket_start, samples@, censuses@, load1m_avg),
{
    let n: usize = samples.len();
    if n == 0 {
        return None;
    }
    let x = extremes_of(samples);
    let c = census_extremes_of(censuses);
    proof {
        lemma_mean_fits(x.swap_sum as int, n as int);
        law_extremes(field(samples@, swapped_in()));
        law_extremes(field(samples@, swapped_out()));
        let ins = field(samples@, swapped_in());
        let outs = field(samples@, swapped_out());
        assert(least(ins) <= ins[0] <= most(ins));
        assert(least(outs) <= outs[0] <= most(outs));
    }
    let mean: u128 = x.swap_sum / n as u128;
    let whole = !x.rebooted && n >= 2;
    Some(
        Rollup {
            bucket_start,
            sample_count: if n as u64 > u32::MAX as u64 {
                u32::MAX
            } else {
                n as u32
            },
            load1m_avg,
            load1m_max: x.load_max,
            swap_used_avg: mean as u64,
            swap_used_max: x.swap_max,
            pages_free_min: x.free_min,
            pages_compressor_max: x.comp_max,
            swapins_delta: if whole {
                Some(x.ins_max - x.ins_min)
            } else {
                None
            },
            swapouts_delta: if whole {
                Some(x.outs_max - x.outs_min)
            } else {
                None
            },
            stale_sessions_max: c.stale,
            orphans_max: c.orphans,
            monitor_percent_max: c.monitor,
            total_procs_max: c.procs,
            volumes: rows_of(samples),
        },
    )
}

/// A boot inside a bucket leaves no counter delta, and neither does one sample
/// alone.
pub proof fn law_no_delta_across_a_boot(s: Seq<Sample>, pick: spec_fn(Sample) -> int)
    ensures
        rise(s, pick) is None <==> rebooted(s) || s.len() < 2,
{
}

/// What no census was taken of is not told, rather than told as zero.
pub proof fn law_no_census_is_no_zero(
    r: Rollup,
    bucket_start: Timestamp,
    samples: Seq<Sample>,
    censuses: Seq<CensusScalars>,
    load1m_avg: Real,
)
    requires
        rolls_up(r, bucket_start, samples, censuses, load1m_avg),
    ensures
        r.stale_sessions_max is None <==> censuses.len() == 0,
        r.orphans_max is None <==> censuses.len() == 0,
        r.monitor_percent_max is None <==> censuses.len() == 0,
        r.total_procs_max is None <==> censuses.len() == 0,
{
}

/// What the bucket keeps of a field bounds every sample in it.
pub proof fn law_the_spike_survives(s: Seq<Sample>, i: int)
    requires
        0 <= i < s.len(),
    ensures
        s[i].swap_used_bytes <= most(field(s, swap_used())),
        s[i].pages_free >= least(field(s, free_pages())),
        s[i].pages_compressor <= most(field(s, compressed_pages())),
{
    law_extremes(field(s, swap_used()));
    law_extremes(field(s, free_pages()));
    law_extremes(field(s, compressed_pages()));
    assert(field(s, swap_used())[i] == s[i].swap_used_bytes);
    assert(field(s, free_pages())[i] == s[i].pages_free);
    assert(field(s, compressed_pages())[i] == s[i].pages_compressor);
}

/// The load a bucket keeps is no less than any load in it.
pub proof fn law_the_load_spike_survives(s: Seq<Sample>, i: int)
    requires
        0 <= i < s.len(),
        !s[i].load1m.nan(),
    ensures
        s[i].load1m.at_most(peak_load(s)),
    decreases s.len(),
{
    if i < s.len() - 1 {
        law_the_load_spike_survives(s.drop_last(), i);
    }
}

/// Samples need not be sorted: what a bucket keeps of a field, how far a counter
/// rose in it and the greatest load are the same for every order they come in.
pub proof fn law_samples_need_no_order(
    a: Seq<Sample>,
    b: Seq<Sample>,
    pick: spec_fn(Sample) -> int,
)
    requires
        a.len() > 0,
        a.to_multiset() == b.to_multiset(),
    ensures
        most(field(a, pick)) == most(field(b, pick)),
        least(field(a, pick)) == least(field(b, pick)),
        total(field(a, pick)) == total(field(b, pick)),
        rise(a, pick) == rise(b, pick),
        peak_load(a).same(peak_load(b)),
{
    broadcast use vstd::seq_lib::group_to_multiset_ensures;

    assert(a.len() == a.to_multiset().len() && b.len() == b.to_multiset().len());
    lemma_same_extremes(a, b, pick);
    lemma_same_extremes(b, a, pick);
    lemma_same_boots(a, b);
    lemma_same_boots(b, a);
    lemma_same_total(a, b, pick);
    lemma_same_peak(a, b);
    lemma_same_peak(b, a);
}

/// Two rows tell the same of a mount point, its size aside: there the last
/// observation counts.
pub open spec fn same_row(a: VolumeRollup, b: VolumeRollup) -> bool {
    &&& a.mount_point@ == b.mount_point@
    &&& a.avail_min == b.avail_min
    &&& a.avail_avg == b.avail_avg
}

/// The volumes of a bucket need no order either: the same mount points have rows,
/// in the same order, with the same least and mean free.
pub proof fn law_volumes_need_no_order(
    a: Seq<Sample>,
    b: Seq<Sample>,
    rows: Seq<VolumeRollup>,
    others: Seq<VolumeRollup>,
)
    requires
        a.to_multiset() == b.to_multiset(),
        are_rows_of(rows, observations(a)),
        are_rows_of(others, observations(b)),
    ensures
        rows.len() == others.len(),
        forall|i: int|
            #![trigger rows[i], others[i]]
            0 <= i < rows.len() ==> same_row(rows[i], others[i]),
{
    let x = observations(a);
    let y = observations(b);
    lemma_same_observations(a, b);
    assert forall|m: Seq<char>| #[trigger]
        row_mounts(rows).contains(m) <==> row_mounts(others).contains(m) by {
        lemma_mounts(rows, x, m);
        lemma_mounts(others, y, m);
        lemma_same_seen(x, y, m);
    }
    assert(names_ascend(row_mounts(rows)) && names_ascend(row_mounts(others))) by {
        assert forall|i: int, j: int| 0 <= i < j < rows.len() implies sorts_before(
            #[trigger] row_mounts(rows)[i],
            #[trigger] row_mounts(rows)[j],
        ) by {
            assert(sorts_before(rows[i].mount_point@, rows[j].mount_point@));
        }
        assert forall|i: int, j: int| 0 <= i < j < others.len() implies sorts_before(
            #[trigger] row_mounts(others)[i],
            #[trigger] row_mounts(others)[j],
        ) by {
            assert(sorts_before(others[i].mount_point@, others[j].mount_point@));
        }
    }
    lemma_same_names(row_mounts(rows), row_mounts(others));
    assert(rows.len() == row_mounts(rows).len() && others.len() == row_mounts(others).len());
    assert forall|i: int| #![trigger rows[i], others[i]] 0 <= i < rows.len() implies same_row(
        rows[i],
        others[i],
    ) by {
        assert(row_mounts(rows)[i] == row_mounts(others)[i]);
        let m = rows[i].mount_point@;
        assert(sums_up(rows[i], x) && sums_up(others[i], y));
        let p = seen_at(x, m);
        let q = seen_at(y, m);
        lemma_same_seen(x, y, m);
        lemma_same_extremes(p, q, avail());
        lemma_same_extremes(q, p, avail());
        lemma_same_total(p, q, avail());
    }
}

/// A rollup depends on which samples there are and not on their order, but for
/// the size of a volume, where the last observation counts, and for the mean
/// load, which is given.
pub proof fn law_a_rollup_needs_no_order(
    a: Seq<Sample>,
    b: Seq<Sample>,
    start: Timestamp,
    censuses: Seq<CensusScalars>,
    r: Rollup,
    mean: Real,
    other: Rollup,
    other_mean: Real,
)
    requires
        a.len() > 0,
        a.to_multiset() == b.to_multiset(),
        rolls_up(r, start, a, censuses, mean),
        rolls_up(other, start, b, censuses, other_mean),
    ensures
        r.bucket_start == other.bucket_start,
        r.sample_count == other.sample_count,
        r.load1m_max.same(other.load1m_max),
        r.swap_used_avg == other.swap_used_avg,
        r.swap_used_max == other.swap_used_max,
        r.pages_free_min == other.pages_free_min,
        r.pages_compressor_max == other.pages_compressor_max,
        r.swapins_delta == other.swapins_delta,
        r.swapouts_delta == other.swapouts_delta,
        r.stale_sessions_max == other.stale_sessions_max,
        r.orphans_max == other.orphans_max,
        r.monitor_percent_max == other.monitor_percent_max,
        r.total_procs_max == other.total_procs_max,
        r.volumes@.len() == other.volumes@.len(),
        forall|i: int|
            #![trigger r.volumes@[i], other.volumes@[i]]
            0 <= i < r.volumes@.len() ==> same_row(r.volumes@[i], other.volumes@[i]),
{
    broadcast use vstd::seq_lib::group_to_multiset_ensures;

    assert(a.len() == a.to_multiset().len() && b.len() == b.to_multiset().len());
    law_samples_need_no_order(a, b, swap_used());
    law_samples_need_no_order(a, b, free_pages());
    law_samples_need_no_order(a, b, compressed_pages());
    law_samples_need_no_order(a, b, swapped_in());
    law_samples_need_no_order(a, b, swapped_out());
    law_volumes_need_no_order(a, b, r.volumes@, other.volumes@);
}

/// The mount points that have rows.
spec fn row_mounts(rows: Seq<VolumeRollup>) -> Seq<Seq<char>> {
    rows.map_values(|r: VolumeRollup| r.mount_point@)
}

proof fn lemma_mounts(rows: Seq<VolumeRollup>, obs: Seq<VolumeSample>, mount: Seq<char>)
    requires
        are_rows_of(rows, obs),
    ensures
        row_mounts(rows).contains(mount) <==> seen_at(obs, mount).len() > 0,
{
    if row_mounts(rows).contains(mount) {
        let k = choose|k: int| 0 <= k < rows.len() && row_mounts(rows)[k] == mount;
        assert(sums_up(rows[k], obs));
    }
    if seen_at(obs, mount).len() > 0 {
        let k = lemma_seen_somewhere(obs, mount);
        assert(has_row(rows, obs[k].mount_point@));
        let i = choose|i: int| 0 <= i < rows.len() && (#[trigger] rows[i]).mount_point@ == mount;
        assert(row_mounts(rows)[i] == mount);
    }
}

proof fn lemma_seen_somewhere(obs: Seq<VolumeSample>, mount: Seq<char>) -> (k: int)
    requires
        seen_at(obs, mount).len() > 0,
    ensures
        0 <= k < obs.len(),
        obs[k].mount_point@ == mount,
    decreases obs.len(),
{
    if obs.last().mount_point@ == mount {
        obs.len() - 1
    } else {
        lemma_seen_somewhere(obs.drop_last(), mount)
    }
}

proof fn lemma_seen_without(obs: Seq<VolumeSample>, at: int, mount: Seq<char>)
    requires
        0 <= at < obs.len(),
    ensures
        seen_at(obs, mount).to_multiset() == (if obs[at].mount_point@ == mount {
            seen_at(obs.remove(at), mount).to_multiset().insert(obs[at])
        } else {
            seen_at(obs.remove(at), mount).to_multiset()
        }),
    decreases obs.len(),
{
    broadcast use vstd::seq_lib::group_to_multiset_ensures;

    if at < obs.len() - 1 {
        lemma_seen_without(obs.drop_last(), at, mount);
        assert(obs.remove(at).drop_last() =~= obs.drop_last().remove(at));
        assert(obs.remove(at).last() == obs.last());
        assert(seen_at(obs, mount).to_multiset() =~= (if obs[at].mount_point@ == mount {
            seen_at(obs.remove(at), mount).to_multiset().insert(obs[at])
        } else {
            seen_at(obs.remove(at), mount).to_multiset()
        }));
    } else {
        assert(obs.remove(at) =~= obs.drop_last());
    }
}

proof fn lemma_same_seen(x: Seq<VolumeSample>, y: Seq<VolumeSample>, mount: Seq<char>)
    requires
        x.to_multiset() == y.to_multiset(),
    ensures
        seen_at(x, mount).to_multiset() == seen_at(y, mount).to_multiset(),
        seen_at(x, mount).len() == seen_at(y, mount).len(),
    decreases x.len(),
{
    broadcast use vstd::seq_lib::group_to_multiset_ensures;

    assert(x.len() == x.to_multiset().len() && y.len() == y.to_multiset().len());
    if x.len() > 0 {
        let v = x.last();
        assert(x.contains(v));
        assert(y.to_multiset().contains(v));
        let at = choose|at: int| 0 <= at < y.len() && y[at] == v;
        assert(x =~= x.drop_last().push(v));
        assert(x.drop_last().to_multiset() =~= x.to_multiset().remove(v));
        assert(y.remove(at).to_multiset() =~= y.to_multiset().remove(v));
        lemma_same_seen(x.drop_last(), y.remove(at), mount);
        lemma_seen_without(y, at, mount);
    } else {
        assert(x =~= y);
    }
    assert(seen_at(x, mount).len() == seen_at(x, mount).to_multiset().len());
    assert(seen_at(y, mount).len() == seen_at(y, mount).to_multiset().len());
}

proof fn lemma_observations_without(s: Seq<Sample>, at: int)
    requires
        0 <= at < s.len(),
    ensures
        observations(s).to_multiset() == observations(s.remove(at)).to_multiset().add(
            s[at].volumes@.to_multiset(),
        ),
    decreases s.len(),
{
    vstd::seq_lib::lemma_multiset_commutative(observations(s.drop_last()), s.last().volumes@);
    if at < s.len() - 1 {
        let t = s.remove(at);
        lemma_observations_without(s.drop_last(), at);
        assert(t.drop_last() =~= s.drop_last().remove(at));
        assert(t.last() == s.last());
        vstd::seq_lib::lemma_multiset_commutative(observations(t.drop_last()), t.last().volumes@);
        assert(observations(s).to_multiset() =~= observations(t).to_multiset().add(
            s[at].volumes@.to_multiset(),
        ));
    } else {
        assert(s.remove(at) =~= s.drop_last());
    }
}

proof fn lemma_same_observations(a: Seq<Sample>, b: Seq<Sample>)
    requires
        a.to_multiset() == b.to_multiset(),
    ensures
        observations(a).to_multiset() == observations(b).to_multiset(),
    decreases a.len(),
{
    broadcast use vstd::seq_lib::group_to_multiset_ensures;

    assert(a.len() == a.to_multiset().len() && b.len() == b.to_multiset().len());
    if a.len() > 0 {
        let x = a.last();
        assert(a.contains(x));
        assert(b.to_multiset().contains(x));
        let at = choose|at: int| 0 <= at < b.len() && b[at] == x;
        assert(a =~= a.drop_last().push(x));
        assert(a.drop_last().to_multiset() =~= a.to_multiset().remove(x));
        assert(b.remove(at).to_multiset() =~= b.to_multiset().remove(x));
        lemma_same_observations(a.drop_last(), b.remove(at));
        lemma_observations_without(a, a.len() - 1);
        assert(a.remove(a.len() - 1) =~= a.drop_last());
        lemma_observations_without(b, at);
    } else {
        assert(a =~= b);
    }
}

proof fn lemma_same_extremes<T>(a: Seq<T>, b: Seq<T>, pick: spec_fn(T) -> int)
    requires
        a.len() > 0,
        a.len() == b.len(),
        a.to_multiset() == b.to_multiset(),
    ensures
        most(a.map_values(pick)) <= most(b.map_values(pick)),
        least(b.map_values(pick)) <= least(a.map_values(pick)),
{
    broadcast use vstd::seq_lib::group_to_multiset_ensures;

    let x = a.map_values(pick);
    let y = b.map_values(pick);
    law_extremes(x);
    law_extremes(y);
    let i = choose|i: int| 0 <= i < a.len() && x[i] == most(x);
    let j = choose|j: int| 0 <= j < a.len() && x[j] == least(x);
    assert(a.contains(a[i]) && a.contains(a[j]));
    assert(b.to_multiset().contains(a[i]) && b.to_multiset().contains(a[j]));
    let m = choose|m: int| 0 <= m < b.len() && b[m] == a[i];
    let n = choose|n: int| 0 <= n < b.len() && b[n] == a[j];
    assert(y[m] == most(x));
    assert(y[n] == least(x));
}

proof fn lemma_same_boots(a: Seq<Sample>, b: Seq<Sample>)
    requires
        a.len() == b.len(),
        a.to_multiset() == b.to_multiset(),
    ensures
        rebooted(a) ==> rebooted(b),
{
    broadcast use vstd::seq_lib::group_to_multiset_ensures;

    if rebooted(a) {
        let i = choose|i: int|
            0 <= i < a.len() && (#[trigger] a[i]).boot_time_secs != a[0].boot_time_secs;
        assert(a.contains(a[i]) && a.contains(a[0]));
        assert(b.to_multiset().contains(a[i]) && b.to_multiset().contains(a[0]));
        let m = choose|m: int| 0 <= m < b.len() && b[m] == a[i];
        let n = choose|n: int| 0 <= n < b.len() && b[n] == a[0];
        assert(b[m].boot_time_secs != b[0].boot_time_secs || b[n].boot_time_secs
            != b[0].boot_time_secs);
    }
}

proof fn lemma_total_without(s: Seq<int>, at: int)
    requires
        0 <= at < s.len(),
    ensures
        total(s) == total(s.remove(at)) + s[at],
    decreases s.len(),
{
    if at < s.len() - 1 {
        lemma_total_without(s.drop_last(), at);
        assert(s.remove(at).drop_last() =~= s.drop_last().remove(at));
    } else {
        assert(s.remove(at) =~= s.drop_last());
    }
}

proof fn lemma_same_total<T>(a: Seq<T>, b: Seq<T>, pick: spec_fn(T) -> int)
    requires
        a.to_multiset() == b.to_multiset(),
    ensures
        total(a.map_values(pick)) == total(b.map_values(pick)),
    decreases a.len(),
{
    broadcast use vstd::seq_lib::group_to_multiset_ensures;

    assert(a.len() == a.to_multiset().len() && b.len() == b.to_multiset().len());
    if a.len() > 0 {
        let x = a.last();
        assert(a.contains(x));
        assert(b.to_multiset().contains(x));
        let at = choose|at: int| 0 <= at < b.len() && b[at] == x;
        assert(a =~= a.drop_last().push(x));
        assert(a.drop_last().to_multiset() =~= a.to_multiset().remove(x));
        assert(b.remove(at).to_multiset() =~= b.to_multiset().remove(x));
        lemma_same_total(a.drop_last(), b.remove(at), pick);
        lemma_total_without(b.map_values(pick), at);
        assert(b.map_values(pick).remove(at) =~= b.remove(at).map_values(pick));
        assert(a.map_values(pick).drop_last() =~= a.drop_last().map_values(pick));
    }
}

proof fn lemma_peak_is_reached(s: Seq<Sample>)
    ensures
        !peak_load(s).nan(),
        peak_load(s) == floor_value() || exists|i: int|
            0 <= i < s.len() && (#[trigger] s[i]).load1m == peak_load(s),
        forall|i: int|
            0 <= i < s.len() && !(#[trigger] s[i]).load1m.nan() ==> s[i].load1m.at_most(
                peak_load(s),
            ),
        floor_value().at_most(peak_load(s)),
    decreases s.len(),
{
    if s.len() > 0 {
        let front = s.drop_last();
        lemma_peak_is_reached(front);
        if peak_load(s) == peak_load(front) && peak_load(s) != floor_value() {
            let i = choose|i: int|
                0 <= i < front.len() && (#[trigger] front[i]).load1m == peak_load(front);
            assert(s[i].load1m == peak_load(s));
        } else if peak_load(s) != floor_value() {
            assert(s[s.len() - 1].load1m == peak_load(s));
        }
        assert forall|i: int| 0 <= i < s.len() && !(#[trigger] s[i]).load1m.nan() implies s[
            i
        ].load1m.at_most(peak_load(s)) by {
            if i < front.len() {
                assert(front[i] == s[i]);
            }
        }
    }
}

proof fn lemma_same_peak(a: Seq<Sample>, b: Seq<Sample>)
    requires
        a.to_multiset() == b.to_multiset(),
    ensures
        peak_load(a).at_most(peak_load(b)),
{
    broadcast use vstd::seq_lib::group_to_multiset_ensures;

    lemma_peak_is_reached(a);
    lemma_peak_is_reached(b);
    if peak_load(a) != floor_value() {
        let i = choose|i: int| 0 <= i < a.len() && (#[trigger] a[i]).load1m == peak_load(a);
        assert(a.contains(a[i]));
        assert(b.to_multiset().contains(a[i]));
        let m = choose|m: int| 0 <= m < b.len() && b[m] == a[i];
        assert(b[m].load1m == peak_load(a));
    }
}

/// Buckets start every five minutes from the epoch on, and an instant has one
/// exactly where 64 bits of nanoseconds reach it.
pub proof fn law_buckets_start_on_the_five_minutes(at: Timestamp)
    ensures
        bucket_of(at) matches Ok(start) ==> start.nanos as int % 300_000_000_000 == 0
            && start.nanos <= at.nanos < start.nanos + 300_000_000_000,
        bucket_of(at) is Ok <==> i64::MIN <= at.nanos <= i64::MAX,
{
}

/// A sample says what was read: two samples with one reading agree on all of it,
/// and a volume is kept as it was read.
pub proof fn law_a_sample_says_what_was_read(a: Sample, b: Sample, v: VolumeReading)
    ensures
        a.reading() == b.reading() <==> a.ncpu == b.ncpu && a.mem_total_bytes == b.mem_total_bytes
            && a.page_size == b.page_size && a.boot_time_secs == b.boot_time_secs && a.load1m
            == b.load1m && a.load5m == b.load5m && a.load15m == b.load15m && a.swap_total_bytes
            == b.swap_total_bytes && a.swap_used_bytes == b.swap_used_bytes && a.pages_free
            == b.pages_free && a.pages_active == b.pages_active && a.pages_inactive
            == b.pages_inactive && a.pages_wired == b.pages_wired && a.pages_speculative
            == b.pages_speculative && a.pages_compressor == b.pages_compressor && a.pages_purgeable
            == b.pages_purgeable && a.pages_external == b.pages_external && a.swapins == b.swapins
            && a.swapouts == b.swapouts && a.memory_pressure_level == b.memory_pressure_level
            && a.thermal_pressure_level == b.thermal_pressure_level && a.cpu_speed_limit_percent
            == b.cpu_speed_limit_percent && a.cpu_ticks_total == b.cpu_ticks_total
            && a.cpu_ticks_idle == b.cpu_ticks_idle && a.kernel_free_percent
            == b.kernel_free_percent && a.jetsam_kills == b.jetsam_kills,
        a.reading().load_1m == a.load1m && a.reading().load_5m == a.load5m && a.reading().load_15m
            == a.load15m,
        a.reading().swapins == a.swapins && a.reading().swapouts == a.swapouts,
        a.reading().cpu_ticks_total == a.cpu_ticks_total && a.reading().cpu_ticks_idle
            == a.cpu_ticks_idle,
        a.reading().pages_free == a.pages_free && a.reading().swap_used_bytes == a.swap_used_bytes
            && a.reading().swap_total_bytes == a.swap_total_bytes,
        VolumeSample::of(v).mount_point == v.mount_point && VolumeSample::of(v).total_bytes
            == v.total_bytes && VolumeSample::of(v).avail_bytes == v.avail_bytes,
{
}

} // verus!
