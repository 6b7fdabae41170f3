//! What a rollup keeps of its bucket.
use vstd::prelude::*;

use crate::census::{stale_in, AgentSession, Census};
use crate::number::Real;
use crate::sample::{
    avail, census_orphans, census_procs, census_stale, compressed_pages, field, free_pages,
    law_extremes, least, most, observations, peak_load, peak_monitor, rebooted, rise, rolls_up,
    seen_at, swap_used, swapped_in, swapped_out, total, CensusScalars, Rollup, Sample, VolumeRollup,
    VolumeSample,
};
use crate::time::Timestamp;

verus! {

/// `m` is the greatest of what the samples say of a field.
pub open spec fn is_greatest(s: Seq<Sample>, pick: spec_fn(Sample) -> int, m: int) -> bool {
    &&& forall|i: int| 0 <= i < s.len() ==> pick(#[trigger] s[i]) <= m
    &&& exists|i: int| 0 <= i < s.len() && pick(#[trigger] s[i]) == m
}

/// `m` is the least of what the samples say of a field.
pub open spec fn is_smallest(s: Seq<Sample>, pick: spec_fn(Sample) -> int, m: int) -> bool {
    &&& forall|i: int| 0 <= i < s.len() ==> pick(#[trigger] s[i]) >= m
    &&& exists|i: int| 0 <= i < s.len() && pick(#[trigger] s[i]) == m
}

proof fn lemma_field(s: Seq<Sample>, pick: spec_fn(Sample) -> int)
    requires
        s.len() > 0,
    ensures
        is_greatest(s, pick, most(field(s, pick))),
        is_smallest(s, pick, least(field(s, pick))),
{
    let all = field(s, pick);
    law_extremes(all);
    assert forall|i: int| 0 <= i < s.len() implies pick(#[trigger] s[i]) <= most(all) && pick(s[i])
        >= least(all) by {
        assert(all[i] == pick(s[i]));
    }
    let i = choose|i: int| 0 <= i < all.len() && all[i] == most(all);
    let j = choose|j: int| 0 <= j < all.len() && all[j] == least(all);
    assert(pick(s[i]) == most(all));
    assert(pick(s[j]) == least(all));
}

/// A bucket keeps the worst of what its samples say: the most swap in use, the
/// fewest free pages and the most compressed ones.
pub proof fn law_a_bucket_keeps_the_worst(
    r: Rollup,
    bucket_start: Timestamp,
    samples: Seq<Sample>,
    censuses: Seq<CensusScalars>,
    load1m_avg: Real,
)
    requires
        samples.len() > 0,
        rolls_up(r, bucket_start, samples, censuses, load1m_avg),
    ensures
        r.bucket_start == bucket_start,
        samples.len() <= u32::MAX ==> r.sample_count == samples.len(),
        r.load1m_avg == load1m_avg,
        is_greatest(samples, |s: Sample| s.swap_used_bytes as int, r.swap_used_max as int),
        is_smallest(samples, |s: Sample| s.pages_free as int, r.pages_free_min as int),
        is_greatest(samples, |s: Sample| s.pages_compressor as int, r.pages_compressor_max as int),
{
    lemma_field(samples, |s: Sample| s.swap_used_bytes as int);
    lemma_field(samples, |s: Sample| s.pages_free as int);
    lemma_field(samples, |s: Sample| s.pages_compressor as int);
    assert(swap_used() =~= |s: Sample| s.swap_used_bytes as int);
    assert(free_pages() =~= |s: Sample| s.pages_free as int);
    assert(compressed_pages() =~= |s: Sample| s.pages_compressor as int);
}

/// A counter's rise: none after a boot or with one sample, and otherwise the
/// distance between the greatest and the least it was seen at.
pub open spec fn is_rise(s: Seq<Sample>, pick: spec_fn(Sample) -> int, r: Option<u64>) -> bool {
    let booted = exists|i: int, j: int|
        0 <= i < s.len() && 0 <= j < s.len() && (#[trigger] s[i]).boot_time_secs != (
        #[trigger] s[j]).boot_time_secs;
    if s.len() < 2 || booted {
        r is None
    } else {
        r matches Some(d) && exists|hi: int, lo: int| #[trigger]
            is_greatest(s, pick, hi) && #[trigger] is_smallest(s, pick, lo) && d == hi - lo
    }
}

proof fn lemma_rise(s: Seq<Sample>, pick: spec_fn(Sample) -> int)
    requires
        forall|x: Sample| 0 <= #[trigger] pick(x) <= u64::MAX,
    ensures
        is_rise(s, pick, rise(s, pick)),
{
    let booted = exists|i: int, j: int|
        0 <= i < s.len() && 0 <= j < s.len() && (#[trigger] s[i]).boot_time_secs != (
        #[trigger] s[j]).boot_time_secs;
    assert(s.len() > 0 ==> (rebooted(s) <==> booted)) by {
        if rebooted(s) {
            let i = choose|i: int|
                0 <= i < s.len() && (#[trigger] s[i]).boot_time_secs != s[0].boot_time_secs;
            assert(s[i].boot_time_secs != s[0].boot_time_secs);
        }
        if s.len() > 0 && booted {
            let (i, j) = choose|i: int, j: int|
                0 <= i < s.len() && 0 <= j < s.len() && (#[trigger] s[i]).boot_time_secs != (
                #[trigger] s[j]).boot_time_secs;
            assert(s[i].boot_time_secs != s[0].boot_time_secs || s[j].boot_time_secs
                != s[0].boot_time_secs);
        }
    }
    if s.len() >= 2 && !booted {
        lemma_field(s, pick);
        let hi = most(field(s, pick));
        let lo = least(field(s, pick));
        assert(is_greatest(s, pick, hi) && is_smallest(s, pick, lo));
        let a = choose|a: int| 0 <= a < s.len() && pick(#[trigger] s[a]) == hi;
        let b = choose|b: int| 0 <= b < s.len() && pick(#[trigger] s[b]) == lo;
        assert(pick(s[a]) <= u64::MAX && pick(s[b]) >= 0);
        assert(pick(s[b]) <= hi);
    }
}

/// A bucket keeps how far swapping went on in it, each way by its own counter.
pub proof fn law_a_bucket_keeps_the_rise(
    r: Rollup,
    bucket_start: Timestamp,
    samples: Seq<Sample>,
    censuses: Seq<CensusScalars>,
    load1m_avg: Real,
)
    requires
        rolls_up(r, bucket_start, samples, censuses, load1m_avg),
    ensures
        is_rise(samples, |s: Sample| s.swapins as int, r.swapins_delta),
        is_rise(samples, |s: Sample| s.swapouts as int, r.swapouts_delta),
{
    lemma_rise(samples, |s: Sample| s.swapins as int);
    lemma_rise(samples, |s: Sample| s.swapouts as int);
    assert(swapped_in() =~= |s: Sample| s.swapins as int);
    assert(swapped_out() =~= |s: Sample| s.swapouts as int);
}

/// The mean a bucket keeps of swap is that of all its samples, rounded down.
pub proof fn law_a_bucket_keeps_the_mean(
    r: Rollup,
    bucket_start: Timestamp,
    samples: Seq<Sample>,
    censuses: Seq<CensusScalars>,
    load1m_avg: Real,
)
    requires
        samples.len() > 0,
        rolls_up(r, bucket_start, samples, censuses, load1m_avg),
    ensures
        ({
            let sum = samples.fold_left(0int, |sum: int, s: Sample| sum + s.swap_used_bytes);
            let n = samples.len() as int;
            r.swap_used_avg * n <= sum < r.swap_used_avg * n + n
        }),
{
    let n = samples.len() as int;
    let sum = total(field(samples, swap_used()));
    lemma_sum(samples);
    vstd::arithmetic::div_mod::lemma_fundamental_div_mod(sum, n);
    vstd::arithmetic::div_mod::lemma_mod_bound(sum, n);
    assert(n * (sum / n) == (sum / n) * n) by (nonlinear_arith);
}

proof fn lemma_sum(samples: Seq<Sample>)
    ensures
        total(field(samples, swap_used())) == samples.fold_left(
            0int,
            |sum: int, s: Sample| sum + s.swap_used_bytes,
        ),
    decreases samples.len(),
{
    let all = field(samples, swap_used());
    if samples.len() > 0 {
        lemma_sum(samples.drop_last());
        assert(all.drop_last() =~= field(samples.drop_last(), swap_used()));
        assert(all.last() == samples.last().swap_used_bytes);
    }
}

/// The load a bucket keeps is no less than any in it, and is one of them where one
/// is a number above the least there is.
pub proof fn law_a_bucket_keeps_the_load(
    r: Rollup,
    bucket_start: Timestamp,
    samples: Seq<Sample>,
    censuses: Seq<CensusScalars>,
    load1m_avg: Real,
)
    requires
        rolls_up(r, bucket_start, samples, censuses, load1m_avg),
    ensures
        forall|i: int|
            0 <= i < samples.len() && !(#[trigger] samples[i]).load1m.nan()
                ==> samples[i].load1m.at_most(r.load1m_max),
        r.load1m_max == (Real { bits: 0xFFEF_FFFF_FFFF_FFFF }) || exists|i: int|
            0 <= i < samples.len() && (#[trigger] samples[i]).load1m == r.load1m_max,
{
    lemma_peak(samples);
}

proof fn lemma_peak(s: Seq<Sample>)
    ensures
        !peak_load(s).nan(),
        forall|i: int|
            0 <= i < s.len() && !(#[trigger] s[i]).load1m.nan() ==> s[i].load1m.at_most(
                peak_load(s),
            ),
        peak_load(s) == (Real { bits: 0xFFEF_FFFF_FFFF_FFFF }) || exists|i: int|
            0 <= i < s.len() && (#[trigger] s[i]).load1m == peak_load(s),
    decreases s.len(),
{
    if s.len() > 0 {
        let front = s.drop_last();
        lemma_peak(front);
        assert forall|i: int| 0 <= i < s.len() && !(#[trigger] s[i]).load1m.nan() implies s[i].load1m.at_most(
            peak_load(s),
        ) by {
            if i < front.len() {
                assert(front[i] == s[i]);
            }
        }
        if peak_load(s) == s.last().load1m {
            assert(s[s.len() - 1].load1m == peak_load(s));
        } else if peak_load(front) != (Real { bits: 0xFFEF_FFFF_FFFF_FFFF }) {
            let i = choose|i: int|
                0 <= i < front.len() && (#[trigger] front[i]).load1m == peak_load(front);
            assert(s[i].load1m == peak_load(front));
        }
    }
}

/// `m` is the greatest of what the censuses say, and nothing without a census.
pub open spec fn is_census_peak(
    s: Seq<CensusScalars>,
    pick: spec_fn(CensusScalars) -> int,
    m: Option<u32>,
) -> bool {
    match m {
        None => s.len() == 0,
        Some(x) => {
            &&& forall|i: int| 0 <= i < s.len() ==> pick(#[trigger] s[i]) <= x
            &&& exists|i: int| 0 <= i < s.len() && pick(#[trigger] s[i]) == x
        },
    }
}

proof fn lemma_census_peak(s: Seq<CensusScalars>, pick: spec_fn(CensusScalars) -> int)
    requires
        forall|x: CensusScalars| 0 <= #[trigger] pick(x) <= u32::MAX,
    ensures
        is_census_peak(s, pick, crate::sample::census_most(s, pick)),
{
    if s.len() > 0 {
        let all = s.map_values(pick);
        law_extremes(all);
        let i = choose|i: int| 0 <= i < all.len() && all[i] == most(all);
        assert(pick(s[i]) == most(all));
        assert forall|k: int| 0 <= k < s.len() implies pick(#[trigger] s[k]) <= most(all) by {
            assert(all[k] == pick(s[k]));
        }
    }
}

/// A bucket keeps the worst of what its censuses counted, each count by itself.
pub proof fn law_a_bucket_keeps_the_counts(
    r: Rollup,
    bucket_start: Timestamp,
    samples: Seq<Sample>,
    censuses: Seq<CensusScalars>,
    load1m_avg: Real,
)
    requires
        rolls_up(r, bucket_start, samples, censuses, load1m_avg),
    ensures
        is_census_peak(
            censuses,
            |c: CensusScalars| c.stale_sessions as int,
            r.stale_sessions_max,
        ),
        is_census_peak(censuses, |c: CensusScalars| c.orphans as int, r.orphans_max),
        is_census_peak(censuses, |c: CensusScalars| c.total_procs as int, r.total_procs_max),
        (forall|i: int| 0 <= i < censuses.len() ==> !(#[trigger] censuses[i]).monitor_percent.nan())
            ==> (match r.monitor_percent_max {
            None => censuses.len() == 0,
            Some(m) => {
                &&& forall|i: int|
                    0 <= i < censuses.len() ==> (#[trigger] censuses[i]).monitor_percent.at_most(m)
                &&& exists|i: int|
                    0 <= i < censuses.len() && (#[trigger] censuses[i]).monitor_percent == m
            },
        }),
{
    lemma_census_peak(censuses, |c: CensusScalars| c.stale_sessions as int);
    lemma_census_peak(censuses, |c: CensusScalars| c.orphans as int);
    lemma_census_peak(censuses, |c: CensusScalars| c.total_procs as int);
    assert(census_stale() =~= |c: CensusScalars| c.stale_sessions as int);
    assert(census_orphans() =~= |c: CensusScalars| c.orphans as int);
    assert(census_procs() =~= |c: CensusScalars| c.total_procs as int);
    lemma_peak_monitor(censuses);
}

proof fn lemma_peak_monitor(s: Seq<CensusScalars>)
    ensures
        peak_monitor(s) is None <==> s.len() == 0,
        (forall|i: int| 0 <= i < s.len() ==> !(#[trigger] s[i]).monitor_percent.nan()) ==> (
        peak_monitor(s) matches Some(m) ==> {
            &&& !m.nan()
            &&& forall|i: int| 0 <= i < s.len() ==> (#[trigger] s[i]).monitor_percent.at_most(m)
            &&& exists|i: int| 0 <= i < s.len() && (#[trigger] s[i]).monitor_percent == m
        }),
    decreases s.len(),
{
    if s.len() > 0 {
        let front = s.drop_last();
        lemma_peak_monitor(front);
        if forall|i: int| 0 <= i < s.len() ==> !(#[trigger] s[i]).monitor_percent.nan() {
            assert forall|i: int| 0 <= i < front.len() implies !(
            #[trigger] front[i]).monitor_percent.nan() by {
                assert(front[i] == s[i]);
            }
            let m = peak_monitor(s)->0;
            assert(!s[s.len() - 1].monitor_percent.nan());
            assert forall|i: int| 0 <= i < s.len() implies (
            #[trigger] s[i]).monitor_percent.at_most(m) by {
                if i < front.len() {
                    assert(front[i] == s[i]);
                    assert(front[i].monitor_percent.at_most(peak_monitor(front)->0));
                }
            }
            if m == s.last().monitor_percent {
                assert(s[s.len() - 1].monitor_percent == m);
            } else {
                let i = choose|i: int|
                    0 <= i < front.len() && (#[trigger] front[i]).monitor_percent == m;
                assert(s[i].monitor_percent == m);
            }
        }
    }
}

/// Volume `v` of sample `k` is at a mount point.
pub open spec fn is_at(samples: Seq<Sample>, k: int, v: int, mount: Seq<char>) -> bool {
    &&& 0 <= k < samples.len()
    &&& 0 <= v < samples[k].volumes@.len()
    &&& samples[k].volumes@[v].mount_point@ == mount
}

/// No observation of a mount point comes after volume `v` of sample `k`.
pub open spec fn is_last_at(samples: Seq<Sample>, k: int, v: int, mount: Seq<char>) -> bool {
    &&& is_at(samples, k, v, mount)
    &&& forall|a: int, b: int| #[trigger] is_at(samples, a, b, mount) ==> a < k || (a == k && b <= v)
}

proof fn lemma_observed(samples: Seq<Sample>, k: int, v: int, mount: Seq<char>)
    requires
        is_at(samples, k, v, mount),
    ensures
        seen_at(observations(samples), mount).contains(samples[k].volumes@[v]),
        observations(samples).contains(samples[k].volumes@[v]),
    decreases samples.len(),
{
    let front = samples.drop_last();
    let obs = observations(samples);
    let before = observations(front);
    let x = samples[k].volumes@[v];
    if k < front.len() {
        assert(is_at(front, k, v, mount));
        lemma_observed(front, k, v, mount);
        let i = choose|i: int| 0 <= i < before.len() && before[i] == x;
        assert(obs[i] == x);
    } else {
        assert(obs[before.len() + v] == x);
    }
    let i = choose|i: int| 0 <= i < obs.len() && obs[i] == x;
    lemma_seen(obs, mount, i);
}

proof fn lemma_seen(obs: Seq<VolumeSample>, mount: Seq<char>, i: int)
    requires
        0 <= i < obs.len(),
        obs[i].mount_point@ == mount,
    ensures
        seen_at(obs, mount).contains(obs[i]),
    decreases obs.len(),
{
    let front = obs.drop_last();
    let seen = seen_at(obs, mount);
    if i < front.len() {
        lemma_seen(front, mount, i);
        let before = seen_at(front, mount);
        let k = choose|k: int| 0 <= k < before.len() && before[k] == obs[i];
        assert(seen[k] == obs[i]);
    } else {
        assert(seen[seen.len() - 1] == obs[i]);
    }
}

proof fn lemma_seen_members(obs: Seq<VolumeSample>, mount: Seq<char>)
    ensures
        forall|j: int|
            0 <= j < seen_at(obs, mount).len() ==> obs.contains(#[trigger] seen_at(obs, mount)[j])
                && seen_at(obs, mount)[j].mount_point@ == mount,
    decreases obs.len(),
{
    if obs.len() > 0 {
        let front = obs.drop_last();
        lemma_seen_members(front, mount);
        let seen = seen_at(obs, mount);
        let before = seen_at(front, mount);
        assert forall|j: int| 0 <= j < seen.len() implies obs.contains(#[trigger] seen[j])
            && seen[j].mount_point@ == mount by {
            if j < before.len() {
                assert(seen[j] == before[j]);
                let k = choose|k: int| 0 <= k < front.len() && front[k] == before[j];
                assert(obs[k] == seen[j]);
            } else {
                assert(obs[obs.len() - 1] == seen[j]);
            }
        }
    }
}

proof fn lemma_observations_are_of_samples(samples: Seq<Sample>)
    ensures
        forall|i: int|
            0 <= i < observations(samples).len() ==> of_some(
                samples,
                #[trigger] observations(samples)[i],
            ),
    decreases samples.len(),
{
    if samples.len() > 0 {
        let front = samples.drop_last();
        lemma_observations_are_of_samples(front);
        let obs = observations(samples);
        let before = observations(front);
        assert forall|i: int| 0 <= i < obs.len() implies of_some(samples, #[trigger] obs[i]) by {
            if i < before.len() {
                assert(obs[i] == before[i]);
                let (k, v) = choose|k: int, v: int| #[trigger] is_volume(front, k, v, before[i]);
                assert(is_volume(samples, k, v, obs[i]));
            } else {
                assert(is_volume(samples, samples.len() - 1, i - before.len(), obs[i]));
            }
        }
    }
}

/// Volume `v` of sample `k` is `x`.
pub open spec fn is_volume(samples: Seq<Sample>, k: int, v: int, x: VolumeSample) -> bool {
    &&& 0 <= k < samples.len()
    &&& 0 <= v < samples[k].volumes@.len()
    &&& samples[k].volumes@[v] == x
}

spec fn of_some(samples: Seq<Sample>, x: VolumeSample) -> bool {
    exists|k: int, v: int| #[trigger] is_volume(samples, k, v, x)
}

/// Some sample lists a row's mount point with the least that the row keeps.
pub open spec fn is_reached(samples: Seq<Sample>, row: VolumeRollup) -> bool {
    exists|k: int, v: int| #[trigger]
        is_at(samples, k, v, row.mount_point@) && samples[k].volumes@[v].avail_bytes
            == row.avail_min
}

/// A bucket has a row for every mount point that a sample of it lists, and for no
/// other, and each row keeps the least that was free there.
pub proof fn law_a_bucket_keeps_its_volumes(
    r: Rollup,
    bucket_start: Timestamp,
    samples: Seq<Sample>,
    censuses: Seq<CensusScalars>,
    load1m_avg: Real,
)
    requires
        rolls_up(r, bucket_start, samples, censuses, load1m_avg),
    ensures
        forall|k: int, v: int, mount: Seq<char>|
            #[trigger] is_at(samples, k, v, mount) ==> exists|i: int|
                0 <= i < r.volumes@.len() && (#[trigger] r.volumes@[i]).mount_point@ == mount
                    && r.volumes@[i].avail_min <= samples[k].volumes@[v].avail_bytes,
        forall|i: int|
            0 <= i < r.volumes@.len() ==> is_reached(samples, #[trigger] r.volumes@[i]),
        forall|i: int, j: int|
            0 <= i < j < r.volumes@.len() ==> (#[trigger] r.volumes@[i]).mount_point@ != (
            #[trigger] r.volumes@[j]).mount_point@,
{
    let rows = r.volumes@;
    let obs = observations(samples);
    assert forall|k: int, v: int, mount: Seq<char>| #[trigger]
        is_at(samples, k, v, mount) implies exists|i: int|
        0 <= i < rows.len() && (#[trigger] rows[i]).mount_point@ == mount && rows[i].avail_min
            <= samples[k].volumes@[v].avail_bytes by {
        lemma_observed(samples, k, v, mount);
        let x = samples[k].volumes@[v];
        let o = choose|o: int| 0 <= o < obs.len() && obs[o] == x;
        assert(crate::sample::has_row(rows, obs[o].mount_point@));
        let i = choose|i: int| 0 <= i < rows.len() && (#[trigger] rows[i]).mount_point@ == mount;
        assert(crate::sample::sums_up(rows[i], obs));
        let mine = seen_at(obs, mount);
        let free = mine.map_values(avail());
        law_extremes(free);
        let m = choose|m: int| 0 <= m < mine.len() && mine[m] == x;
        assert(free[m] == x.avail_bytes);
    }
    lemma_observations_are_of_samples(samples);
    assert forall|i: int| 0 <= i < rows.len() implies is_reached(samples, #[trigger] rows[i]) by {
        let mount = rows[i].mount_point@;
        assert(crate::sample::sums_up(rows[i], obs));
        let mine = seen_at(obs, mount);
        let free = mine.map_values(avail());
        law_extremes(free);
        lemma_seen_members(obs, mount);
        let m = choose|m: int| 0 <= m < free.len() && free[m] == least(free);
        assert(obs.contains(mine[m]));
        let o = choose|o: int| 0 <= o < obs.len() && obs[o] == mine[m];
        assert(of_some(samples, obs[o]));
        let (k, v) = choose|k: int, v: int| #[trigger] is_volume(samples, k, v, obs[o]);
        assert(is_at(samples, k, v, mount));
    }
    assert forall|i: int, j: int| 0 <= i < j < rows.len() implies (
    #[trigger] rows[i]).mount_point@ != (#[trigger] rows[j]).mount_point@ by {
        crate::text::lemma_sorts_before_irreflexive(rows[i].mount_point@);
    }
}

proof fn lemma_last_seen(obs: Seq<VolumeSample>, mount: Seq<char>, i: int)
    requires
        0 <= i < obs.len(),
        obs[i].mount_point@ == mount,
        forall|j: int| i < j < obs.len() ==> (#[trigger] obs[j]).mount_point@ != mount,
    ensures
        seen_at(obs, mount).len() > 0,
        seen_at(obs, mount).last() == obs[i],
    decreases obs.len(),
{
    if i < obs.len() - 1 {
        assert(obs[obs.len() - 1].mount_point@ != mount);
        lemma_last_seen(obs.drop_last(), mount, i);
    }
}

proof fn lemma_last_observed(samples: Seq<Sample>, k: int, v: int, mount: Seq<char>)
    requires
        is_last_at(samples, k, v, mount),
    ensures
        seen_at(observations(samples), mount).len() > 0,
        seen_at(observations(samples), mount).last() == samples[k].volumes@[v],
    decreases samples.len(),
{
    let front = samples.drop_last();
    let obs = observations(samples);
    let before = observations(front);
    let mine = samples.last().volumes@;
    let n = samples.len() - 1;
    if k < n {
        assert forall|a: int, b: int| #[trigger] is_at(front, a, b, mount) implies a < k || (a == k
            && b <= v) by {
            assert(is_at(samples, a, b, mount));
        }
        assert(is_last_at(front, k, v, mount));
        lemma_last_observed(front, k, v, mount);
        assert forall|b: int| 0 <= b < mine.len() implies (#[trigger] mine[b]).mount_point@
            != mount by {
            if mine[b].mount_point@ == mount {
                assert(is_at(samples, n, b, mount));
            }
        }
        lemma_seen_nothing(before, mine, mount);
    } else {
        assert forall|j: int| before.len() + v < j < obs.len() implies (
        #[trigger] obs[j]).mount_point@ != mount by {
            let b = j - before.len();
            assert(obs[j] == mine[b]);
            if mine[b].mount_point@ == mount {
                assert(is_at(samples, n, b, mount));
            }
        }
        lemma_last_seen(obs, mount, before.len() + v);
    }
}

proof fn lemma_seen_nothing(a: Seq<VolumeSample>, b: Seq<VolumeSample>, mount: Seq<char>)
    requires
        forall|i: int| 0 <= i < b.len() ==> (#[trigger] b[i]).mount_point@ != mount,
    ensures
        seen_at(a + b, mount) == seen_at(a, mount),
    decreases b.len(),
{
    if b.len() > 0 {
        assert((a + b).drop_last() =~= a + b.drop_last());
        assert((a + b).last() == b[b.len() - 1]);
        lemma_seen_nothing(a, b.drop_last(), mount);
    } else {
        assert(a + b =~= a);
    }
}

/// The size a bucket keeps of a volume is the last one that was read.
pub proof fn law_a_bucket_keeps_the_last_size(
    r: Rollup,
    bucket_start: Timestamp,
    samples: Seq<Sample>,
    censuses: Seq<CensusScalars>,
    load1m_avg: Real,
    i: int,
    k: int,
    v: int,
)
    requires
        rolls_up(r, bucket_start, samples, censuses, load1m_avg),
        0 <= i < r.volumes@.len(),
        is_last_at(samples, k, v, r.volumes@[i].mount_point@),
    ensures
        r.volumes@[i].total_bytes == samples[k].volumes@[v].total_bytes,
{
    assert(crate::sample::sums_up(r.volumes@[i], observations(samples)));
    lemma_last_observed(samples, k, v, r.volumes@[i].mount_point@);
}

/// Everything that a bucket's samples list for a mount point, in order.
pub open spec fn listed_at(samples: Seq<Sample>, mount: Seq<char>) -> Seq<VolumeSample> {
    samples.fold_left(
        Seq::<VolumeSample>::empty(),
        |all: Seq<VolumeSample>, s: Sample| all + s.volumes@,
    ).filter(at_mount(mount))
}

pub open spec fn at_mount(mount: Seq<char>) -> spec_fn(VolumeSample) -> bool {
    |v: VolumeSample| v.mount_point@ == mount
}

proof fn lemma_listed(samples: Seq<Sample>)
    ensures
        observations(samples) == samples.fold_left(
            Seq::<VolumeSample>::empty(),
            |all: Seq<VolumeSample>, s: Sample| all + s.volumes@,
        ),
    decreases samples.len(),
{
    if samples.len() > 0 {
        lemma_listed(samples.drop_last());
    }
}

proof fn lemma_seen_is_listed(obs: Seq<VolumeSample>, mount: Seq<char>)
    ensures
        seen_at(obs, mount) == obs.filter(at_mount(mount)),
    decreases obs.len(),
{
    reveal(Seq::filter);
    if obs.len() > 0 {
        lemma_seen_is_listed(obs.drop_last(), mount);
    }
}

proof fn lemma_free_sum(s: Seq<VolumeSample>)
    ensures
        total(s.map_values(avail())) == s.fold_left(
            0int,
            |sum: int, v: VolumeSample| sum + v.avail_bytes,
        ),
    decreases s.len(),
{
    let all = s.map_values(avail());
    if s.len() > 0 {
        lemma_free_sum(s.drop_last());
        assert(all.drop_last() =~= s.drop_last().map_values(avail()));
        assert(all.last() == s.last().avail_bytes);
    }
}

/// The mean a bucket keeps of a volume is that of all that was free there, rounded
/// down.
pub proof fn law_a_bucket_keeps_the_mean_free(
    r: Rollup,
    bucket_start: Timestamp,
    samples: Seq<Sample>,
    censuses: Seq<CensusScalars>,
    load1m_avg: Real,
    i: int,
)
    requires
        rolls_up(r, bucket_start, samples, censuses, load1m_avg),
        0 <= i < r.volumes@.len(),
    ensures
        ({
            let all = listed_at(samples, r.volumes@[i].mount_point@);
            let sum = all.fold_left(0int, |sum: int, v: VolumeSample| sum + v.avail_bytes);
            let n = all.len() as int;
            n > 0 && r.volumes@[i].avail_avg * n <= sum < r.volumes@[i].avail_avg * n + n
        }),
{
    let mount = r.volumes@[i].mount_point@;
    let obs = observations(samples);
    lemma_listed(samples);
    lemma_seen_is_listed(obs, mount);
    assert(crate::sample::sums_up(r.volumes@[i], obs));
    let mine = seen_at(obs, mount);
    lemma_free_sum(mine);
    let n = mine.len() as int;
    let sum = total(mine.map_values(avail()));
    vstd::arithmetic::div_mod::lemma_fundamental_div_mod(sum, n);
    vstd::arithmetic::div_mod::lemma_mod_bound(sum, n);
    assert(n * (sum / n) == (sum / n) * n) by (nonlinear_arith);
}

/// What a bucket takes of a census: when it was taken, its processes, its orphans,
/// the share of the managed agents, and how many of its sessions are stale.
pub proof fn law_a_census_is_told_in_numbers(c: Census)
    requires
        c.agent_sessions@.len() <= u32::MAX,
    ensures
        CensusScalars::of(c).taken_at == c.taken_at,
        CensusScalars::of(c).total_procs == c.total_procs,
        CensusScalars::of(c).orphans == c.orphans.orphan_count,
        CensusScalars::of(c).monitor_percent == c.monitor_total.percent_of_one_core,
        CensusScalars::of(c).stale_sessions == c.agent_sessions@.filter(
            |s: AgentSession| s.is_stale,
        ).len(),
{
    lemma_stale(c.agent_sessions@);
}

proof fn lemma_stale(s: Seq<AgentSession>)
    ensures
        stale_in(s) == s.filter(|x: AgentSession| x.is_stale).len(),
        stale_in(s) <= s.len(),
    decreases s.len(),
{
    reveal(Seq::filter);
    if s.len() > 0 {
        lemma_stale(s.drop_last());
    }
}

} // verus!
