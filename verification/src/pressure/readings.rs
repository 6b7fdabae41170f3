//! What an evaluation tells of the history it was given.
use vstd::prelude::*;

use super::band::{
    law_a_crossing_is_seen_at_once, law_no_alarm_without_a_value, outcome_of, past, Band,
};
use super::config::{Dimension, PressureConfig};
use super::disk::{floor_of, notes_text, projections_of, stretch_start};
use super::evaluate::{
    contributions_of, evaluation, has_data, history_of, law_one_row_per_dimension, lemma_readings,
    points_for, reading_for, values_of, window_of, Numbers,
};
use super::findings::{
    is_alarming, is_finding_of, law_findings_are_the_readings, law_what_alarms_is_listed, worklist,
};
use super::level::{
    lasts, law_a_kill_shrieks, law_quiet_is_all_green, law_the_level_has_its_reason,
    law_what_raises_the_level, verdict_of, Contribution, Level,
};
use super::recorded::{
    kills_in, law_a_census_adds_its_kills, law_a_census_adds_its_own,
    law_a_sample_adds_its_available_memory, law_a_sample_adds_its_data_volume,
    law_a_sample_adds_its_swap, law_a_sample_adds_what_the_kernel_said,
    law_the_kills_are_all_counted, newest_count,
};
use super::series::{
    ceiling_over, held_over, observed, peaks, tail_trend, valued, Measure, Observation,
};
use super::verdict::{FindingView, ReadingView};
use super::wording::detail_text;
use crate::census::{AgentSession, Census};
use crate::number::{law_whole_numbers_keep_their_order, real_of, Real};
use crate::sample::Sample;
use crate::time::Timestamp;

verus! {

/// Whether a dimension has a row that tells a value.
pub open spec fn tells(rows: Seq<ReadingView>, d: Dimension, value: Real) -> bool {
    exists|i: int|
        0 <= i < rows.len() && (#[trigger] rows[i]).dimension == d && rows[i].value == value
}

/// Whether a dimension has a row.
pub open spec fn has_row(rows: Seq<ReadingView>, d: Dimension) -> bool {
    exists|i: int| 0 <= i < rows.len() && (#[trigger] rows[i]).dimension == d
}

proof fn lemma_row(
    now: Timestamp,
    samples: Seq<Sample>,
    censuses: Seq<Census>,
    config: PressureConfig,
    n: Numbers,
    d: Dimension,
)
    ensures
        ({
            let rows = evaluation(now, samples, censuses, config, n).dimensions;
            &&& has_row(rows, d) <==> reading_for(d, samples, censuses, config, n) is Some
            &&& reading_for(d, samples, censuses, config, n) matches Some(r) ==> r.dimension == d
                && rows.contains(r)
            &&& forall|i: int|
                0 <= i < rows.len() && (#[trigger] rows[i]).dimension == d ==> reading_for(
                    d,
                    samples,
                    censuses,
                    config,
                    n,
                ) == Some(rows[i])
        }),
{
    let rows = evaluation(now, samples, censuses, config, n).dimensions;
    lemma_readings(14, samples, censuses, config, n);
    law_one_row_per_dimension(now, samples, censuses, config, n);
    if let Some(r) = reading_for(d, samples, censuses, config, n) {
        let i = choose|i: int| 0 <= i < rows.len() && #[trigger] rows[i] == r;
        assert(rows[i].dimension == d);
    }
}

proof fn lemma_newest_value(
    d: Dimension,
    samples: Seq<Sample>,
    censuses: Seq<Census>,
    config: PressureConfig,
    n: Numbers,
    before: Seq<Observation>,
    o: Observation,
    v: Real,
)
    requires
        d != Dimension::Thrash,
        observed(
            d,
            history_of(d, samples, config),
            censuses,
            config.corporate_min_life_secs,
        ) == before.push(o),
        o.measure matches Measure::Whole(k) ==> v == real_of(k as nat),
        o.measure matches Measure::Given(x) ==> v == x,
        o.measure is Whole || o.measure is Given,
    ensures
        reading_for(d, samples, censuses, config, n) matches Some(r) && r.value == v,
{
    let f = n.figures@[d.place()];
    let all = before.push(o);
    assert(all.drop_last() =~= before);
    let points = points_for(d, history_of(d, samples, config), censuses, config, f.values@);
    assert(points == valued(all, f.values@));
    assert(points.last().value == v);
    let values = values_of(points);
    assert(values.last() == v);
}

proof fn lemma_history_ends(d: Dimension, samples: Seq<Sample>, config: PressureConfig)
    requires
        samples.len() > 0,
        config.window_samples > 0,
    ensures
        ({
            let h = history_of(d, samples, config);
            h.len() > 0 && h == h.drop_last().push(samples.last())
        }),
{
    let h = history_of(d, samples, config);
    assert(h.last() == samples.last());
    assert(h =~= h.drop_last().push(samples.last()));
}

/// The newest sample is what is read: the swap in use, the memory that can be had,
/// and, as far as they were recorded, what is free on the data volume and what the
/// kernel said.
pub proof fn law_the_newest_sample_is_read(
    now: Timestamp,
    samples: Seq<Sample>,
    censuses: Seq<Census>,
    config: PressureConfig,
    n: Numbers,
)
    requires
        samples.len() > 0,
        config.window_samples > 0,
    ensures
        ({
            let rows = evaluation(now, samples, censuses, config, n).dimensions;
            let s = samples.last();
            let bytes = (s.pages_free + s.pages_speculative + s.pages_purgeable + s.pages_external)
                * s.page_size;
            &&& tells(rows, Dimension::Swap, real_of(s.swap_used_bytes as nat))
            &&& tells(
                rows,
                Dimension::Memory,
                real_of(
                    if bytes > u64::MAX {
                        u64::MAX as nat
                    } else {
                        bytes as nat
                    },
                ),
            )
            &&& s.volumes@.len() > 0 ==> tells(
                rows,
                Dimension::Disk,
                real_of(s.volumes@[0].avail_bytes as nat),
            )
            &&& s.memory_pressure_level > 0 ==> tells(
                rows,
                Dimension::KernelPressure,
                real_of(s.memory_pressure_level as nat),
            )
            &&& s.thermal_pressure_level matches Some(l) ==> tells(
                rows,
                Dimension::Thermal,
                real_of(l as nat),
            )
            &&& s.kernel_free_percent matches Some(p) ==> tells(
                rows,
                Dimension::KernelFree,
                real_of(p as nat),
            )
        }),
{
    let rows = evaluation(now, samples, censuses, config, n).dimensions;
    let s = samples.last();
    let life = config.corporate_min_life_secs;
    let w = history_of(Dimension::Swap, samples, config);
    lemma_history_ends(Dimension::Swap, samples, config);
    let front = w.drop_last();
    law_a_sample_adds_its_swap(front, s, censuses, life);
    law_a_sample_adds_its_available_memory(front, s, censuses, life);
    law_a_sample_adds_what_the_kernel_said(front, s, censuses, life);
    let swap = observed(Dimension::Swap, w, censuses, life);
    lemma_newest_value(
        Dimension::Swap,
        samples,
        censuses,
        config,
        n,
        observed(Dimension::Swap, front, censuses, life),
        swap.last(),
        real_of(s.swap_used_bytes as nat),
    );
    lemma_row(now, samples, censuses, config, n, Dimension::Swap);
    let memory = observed(Dimension::Memory, w, censuses, life).last();
    let k = memory.measure->Whole_0;
    lemma_newest_value(
        Dimension::Memory,
        samples,
        censuses,
        config,
        n,
        observed(Dimension::Memory, front, censuses, life),
        memory,
        real_of(k as nat),
    );
    lemma_row(now, samples, censuses, config, n, Dimension::Memory);
    if s.volumes@.len() > 0 {
        lemma_history_ends(Dimension::Disk, samples, config);
        let less = samples.drop_last();
        assert(samples =~= less.push(s));
        law_a_sample_adds_its_data_volume(less, s, censuses, life);
        lemma_newest_value(
            Dimension::Disk,
            samples,
            censuses,
            config,
            n,
            observed(Dimension::Disk, less, censuses, life),
            observed(Dimension::Disk, samples, censuses, life).last(),
            real_of(s.volumes@[0].avail_bytes as nat),
        );
        lemma_row(now, samples, censuses, config, n, Dimension::Disk);
    }
    if s.memory_pressure_level > 0 {
        lemma_newest_value(
            Dimension::KernelPressure,
            samples,
            censuses,
            config,
            n,
            observed(Dimension::KernelPressure, front, censuses, life),
            observed(Dimension::KernelPressure, w, censuses, life).last(),
            real_of(s.memory_pressure_level as nat),
        );
        lemma_row(now, samples, censuses, config, n, Dimension::KernelPressure);
    }
    if let Some(l) = s.thermal_pressure_level {
        lemma_newest_value(
            Dimension::Thermal,
            samples,
            censuses,
            config,
            n,
            observed(Dimension::Thermal, front, censuses, life),
            observed(Dimension::Thermal, w, censuses, life).last(),
            real_of(l as nat),
        );
        lemma_row(now, samples, censuses, config, n, Dimension::Thermal);
    }
    if let Some(p) = s.kernel_free_percent {
        lemma_newest_value(
            Dimension::KernelFree,
            samples,
            censuses,
            config,
            n,
            observed(Dimension::KernelFree, front, censuses, life),
            observed(Dimension::KernelFree, w, censuses, life).last(),
            real_of(p as nat),
        );
        lemma_row(now, samples, censuses, config, n, Dimension::KernelFree);
    }
}

/// The newest census is what is read: how many sessions are stale, how many
/// helpers are orphans, the rate of managed agents that have lived long enough,
/// and, where it counted them, the kills of all the censuses together.
pub proof fn law_the_newest_census_is_read(
    now: Timestamp,
    samples: Seq<Sample>,
    censuses: Seq<Census>,
    config: PressureConfig,
    n: Numbers,
)
    requires
        censuses.len() > 0,
    ensures
        ({
            let rows = evaluation(now, samples, censuses, config, n).dimensions;
            let c = censuses.last();
            let kills = censuses.fold_left(0int, |sum: int, x: Census| sum + kills_in(x));
            &&& tells(
                rows,
                Dimension::Agents,
                real_of(c.agent_sessions@.filter(|x: AgentSession| x.is_stale).len() as u64 as nat),
            )
            &&& tells(rows, Dimension::Orphans, real_of(c.orphans.orphan_count as nat))
            &&& c.monitor_total.longest_life_secs >= config.corporate_min_life_secs ==> tells(
                rows,
                Dimension::Corporate,
                c.monitor_total.percent_of_one_core,
            )
            &&& c.pressure_kills is Some ==> tells(
                rows,
                Dimension::Jetsam,
                real_of(
                    if kills > u64::MAX {
                        u64::MAX as nat
                    } else {
                        kills as nat
                    },
                ),
            )
        }),
{
    let rows = evaluation(now, samples, censuses, config, n).dimensions;
    let c = censuses.last();
    let life = config.corporate_min_life_secs;
    let front = censuses.drop_last();
    let w = window_of(samples, config);
    assert(censuses =~= front.push(c));
    law_a_census_adds_its_own(w, front, c, life);
    law_a_census_adds_its_kills(w, front, c, life);
    law_the_kills_are_all_counted(w, censuses, life);
    let agents = observed(Dimension::Agents, w, censuses, life).last();
    lemma_newest_value(
        Dimension::Agents,
        samples,
        censuses,
        config,
        n,
        observed(Dimension::Agents, w, front, life),
        agents,
        real_of(agents.measure->Whole_0 as nat),
    );
    lemma_row(now, samples, censuses, config, n, Dimension::Agents);
    lemma_newest_value(
        Dimension::Orphans,
        samples,
        censuses,
        config,
        n,
        observed(Dimension::Orphans, w, front, life),
        observed(Dimension::Orphans, w, censuses, life).last(),
        real_of(c.orphans.orphan_count as nat),
    );
    lemma_row(now, samples, censuses, config, n, Dimension::Orphans);
    if c.monitor_total.longest_life_secs >= life {
        lemma_newest_value(
            Dimension::Corporate,
            samples,
            censuses,
            config,
            n,
            observed(Dimension::Corporate, w, front, life),
            observed(Dimension::Corporate, w, censuses, life).last(),
            c.monitor_total.percent_of_one_core,
        );
        lemma_row(now, samples, censuses, config, n, Dimension::Corporate);
    }
    if c.pressure_kills is Some {
        let o = observed(Dimension::Jetsam, w, censuses, life).last();
        lemma_newest_value(
            Dimension::Jetsam,
            samples,
            censuses,
            config,
            n,
            observed(Dimension::Jetsam, w, front, life),
            o,
            real_of(o.measure->Whole_0 as nat),
        );
        lemma_row(now, samples, censuses, config, n, Dimension::Jetsam);
        assert(newest_count(observed(Dimension::Jetsam, w, censuses, life))
            == o.measure->Whole_0);
    }
}

proof fn lemma_contribution(
    now: Timestamp,
    samples: Seq<Sample>,
    censuses: Seq<Census>,
    config: PressureConfig,
    n: Numbers,
)
    ensures
        ({
            let rows = evaluation(now, samples, censuses, config, n).dimensions;
            let all = contributions_of(rows);
            &&& all.len() == rows.len()
            &&& forall|i: int|
                0 <= i < rows.len() ==> #[trigger] all[i] == (Contribution {
                    dimension: rows[i].dimension,
                    band: rows[i].band,
                    held_secs: rows[i].held_secs,
                    severity: rows[i].severity,
                })
            &&& evaluation(now, samples, censuses, config, n).level == verdict_of(
                all,
                config.red_grace_secs,
                config.catastrophic_severity,
                has_data(samples, censuses, config, n),
            ).level
        }),
{
}

/// Whether there are samples enough to say anything, of those that fit the window.
pub open spec fn enough(samples: Seq<Sample>, config: PressureConfig) -> bool {
    samples.len() >= config.min_samples && config.window_samples >= config.min_samples
}

proof fn lemma_enough(
    now: Timestamp,
    samples: Seq<Sample>,
    censuses: Seq<Census>,
    config: PressureConfig,
    n: Numbers,
)
    ensures
        has_data(samples, censuses, config, n) <==> enough(samples, config) && evaluation(
            now,
            samples,
            censuses,
            config,
            n,
        ).dimensions.len() > 0,
{
    let w = window_of(samples, config);
    assert(w.len() == if samples.len() > config.window_samples {
        config.window_samples as int
    } else {
        samples.len() as int
    });
}

/// The level is what the rows amount to. With samples enough, a red row that has
/// lasted makes it wail, and shriek where it is as bad as a catastrophe or there
/// are two; any red or two yellows make it restless, and one yellow makes it stir.
/// Advisory rows count for nothing.
pub proof fn law_the_rows_raise_the_level(
    now: Timestamp,
    samples: Seq<Sample>,
    censuses: Seq<Census>,
    config: PressureConfig,
    n: Numbers,
    i: int,
    j: int,
)
    requires
        enough(samples, config),
        0 <= i < evaluation(now, samples, censuses, config, n).dimensions.len(),
        0 <= j < evaluation(now, samples, censuses, config, n).dimensions.len(),
        !evaluation(now, samples, censuses, config, n).dimensions[i].dimension.advisory(),
        !evaluation(now, samples, censuses, config, n).dimensions[j].dimension.advisory(),
    ensures
        ({
            let p = evaluation(now, samples, censuses, config, n);
            let (a, b) = (p.dimensions[i], p.dimensions[j]);
            let lasting = a.band == Band::Red && a.held_secs >= config.red_grace_secs;
            let another = b.band == Band::Red && b.held_secs >= config.red_grace_secs;
            &&& p.level != Level::Checking
            &&& lasting ==> p.level == Level::Wailing || p.level == Level::Shrieking
            &&& lasting && another && i != j ==> p.level == Level::Shrieking
            &&& lasting && config.catastrophic_severity.at_most(a.severity) ==> p.level
                == Level::Shrieking
            &&& a.band == Band::Red && a.dimension == Dimension::Jetsam ==> p.level
                == Level::Shrieking
            &&& a.band == Band::Red ==> p.level.height() >= Level::Restless.height()
            &&& a.band == Band::Yellow && b.band == Band::Yellow && i != j ==> p.level.height()
                >= Level::Restless.height()
            &&& a.band == Band::Yellow ==> p.level.height() >= Level::Stirring.height()
        }),
{
    let rows = evaluation(now, samples, censuses, config, n).dimensions;
    let all = contributions_of(rows);
    lemma_contribution(now, samples, censuses, config, n);
    lemma_enough(now, samples, censuses, config, n);
    law_what_raises_the_level(
        all,
        config.red_grace_secs,
        config.catastrophic_severity,
        i,
        j,
    );
    assert(!all[i].dimension.advisory());
    law_the_level_has_its_reason(all, config.red_grace_secs, config.catastrophic_severity);
    if all[i].band == Band::Red && all[i].dimension == Dimension::Jetsam {
        law_a_kill_shrieks(all, i, config.red_grace_secs, config.catastrophic_severity);
    }
}

/// The level has its reason in the rows. A machine is quiet exactly where every row
/// that counts is green; it wails or shrieks only over a red row that has lasted,
/// or a kill.
pub proof fn law_the_level_is_in_the_rows(
    now: Timestamp,
    samples: Seq<Sample>,
    censuses: Seq<Census>,
    config: PressureConfig,
    n: Numbers,
)
    requires
        evaluation(now, samples, censuses, config, n).level != Level::Checking,
    ensures
        ({
            let p = evaluation(now, samples, censuses, config, n);
            let rows = p.dimensions;
            &&& p.level == Level::Quiet <==> forall|i: int|
                0 <= i < rows.len() && !(#[trigger] rows[i]).dimension.advisory() ==> rows[i].band
                    == Band::Green
            &&& p.level.height() >= Level::Wailing.height() ==> exists|i: int|
                0 <= i < rows.len() && !(#[trigger] rows[i]).dimension.advisory() && rows[i].band
                    == Band::Red && (rows[i].held_secs >= config.red_grace_secs
                    || rows[i].dimension == Dimension::Jetsam)
            &&& p.level == Level::Shrieking && !config.catastrophic_severity.at_most(
                super::level::bottom(),
            ) ==> (exists|i: int|
                0 <= i < rows.len() && (#[trigger] rows[i]).band == Band::Red && (
                rows[i].dimension == Dimension::Jetsam || (!rows[i].dimension.advisory()
                    && rows[i].held_secs >= config.red_grace_secs
                    && config.catastrophic_severity.at_most(rows[i].severity)))) || (exists|
                i: int,
                j: int,
            |
                0 <= i < j < rows.len() && !(#[trigger] rows[i]).dimension.advisory() && !(
                #[trigger] rows[j]).dimension.advisory() && rows[i].band == Band::Red
                    && rows[j].band == Band::Red && rows[i].held_secs >= config.red_grace_secs
                    && rows[j].held_secs >= config.red_grace_secs)
        }),
{
    let p = evaluation(now, samples, censuses, config, n);
    let rows = p.dimensions;
    let all = contributions_of(rows);
    let grace = config.red_grace_secs;
    lemma_contribution(now, samples, censuses, config, n);
    assert(super::level::tally(all, super::level::is_scoring()) > 0);
    super::level::lemma_tally_of_one(all, super::level::is_scoring());
    let k = choose|k: int|
        0 <= k < all.len() && super::level::is_scoring()(#[trigger] all[k]);
    assert(!all[k].dimension.advisory());
    law_quiet_is_all_green(all, grace, config.catastrophic_severity);
    law_the_level_has_its_reason(all, grace, config.catastrophic_severity);
    if p.level == Level::Quiet {
        assert forall|i: int|
            0 <= i < rows.len() && !(#[trigger] rows[i]).dimension.advisory() implies rows[i].band
            == Band::Green by {
            assert(all[i].scores());
        }
    }
    if forall|i: int|
        0 <= i < rows.len() && !(#[trigger] rows[i]).dimension.advisory() ==> rows[i].band
            == Band::Green {
        assert forall|i: int| 0 <= i < all.len() && (#[trigger] all[i]).scores() implies all[i].band
            == Band::Green by {
            assert(!rows[i].dimension.advisory());
        }
    }
    if p.level.height() >= Level::Wailing.height() {
        if exists|i: int| 0 <= i < all.len() && lasts(#[trigger] all[i], grace) {
            let i = choose|i: int| 0 <= i < all.len() && lasts(#[trigger] all[i], grace);
            assert(!rows[i].dimension.advisory());
        } else {
            let i = choose|i: int|
                0 <= i < all.len() && super::level::counts_as(#[trigger] all[i], Band::Red)
                    && all[i].dimension == Dimension::Jetsam;
            assert(!rows[i].dimension.advisory());
        }
    }
    if p.level == Level::Shrieking && !config.catastrophic_severity.at_most(
        super::level::bottom(),
    ) {
        if exists|i: int|
            0 <= i < all.len() && super::level::counts_as(#[trigger] all[i], Band::Red)
                && all[i].dimension == Dimension::Jetsam {
            let i = choose|i: int|
                0 <= i < all.len() && super::level::counts_as(#[trigger] all[i], Band::Red)
                    && all[i].dimension == Dimension::Jetsam;
            assert(rows[i].band == Band::Red);
        } else if exists|i: int|
            0 <= i < all.len() && lasts(#[trigger] all[i], grace)
                && config.catastrophic_severity.at_most(all[i].severity) {
            let i = choose|i: int|
                0 <= i < all.len() && lasts(#[trigger] all[i], grace)
                    && config.catastrophic_severity.at_most(all[i].severity);
            assert(rows[i].band == Band::Red);
        } else {
            let (i, j) = choose|i: int, j: int|
                0 <= i < j < all.len() && lasts(#[trigger] all[i], grace) && lasts(
                    #[trigger] all[j],
                    grace,
                );
            assert(!rows[i].dimension.advisory() && !rows[j].dimension.advisory());
        }
    }
}

/// A row is in the band its value has crossed into, at once. A dimension other than
/// disk is out of green only where some value it was replayed over was past a line,
/// and red only where one was past the red line.
pub proof fn law_bands_follow_the_lines(
    now: Timestamp,
    samples: Seq<Sample>,
    censuses: Seq<Census>,
    config: PressureConfig,
    n: Numbers,
    i: int,
)
    requires
        0 <= i < evaluation(now, samples, censuses, config, n).dimensions.len(),
    ensures
        ({
            let r = evaluation(now, samples, censuses, config, n).dimensions[i];
            let spec = config.spec_of(r.dimension);
            let points = points_for(
                r.dimension,
                history_of(r.dimension, samples, config),
                censuses,
                config,
                n.figures@[r.dimension.place()].values@,
            );
            &&& points.len() > 0
            &&& r.value == points.last().value
            &&& past(spec.inverted, spec.red, r.value) ==> r.band == Band::Red
            &&& past(spec.inverted, spec.yellow, r.value) ==> r.band != Band::Green
            &&& r.dimension != Dimension::Disk && r.band == Band::Red ==> exists|k: int|
                0 <= k < points.len() && past(
                    spec.inverted,
                    spec.red,
                    (#[trigger] points[k]).value,
                )
            &&& r.dimension != Dimension::Disk && r.band != Band::Green ==> exists|k: int|
                0 <= k < points.len() && (past(
                    spec.inverted,
                    spec.red,
                    (#[trigger] points[k]).value,
                ) || past(spec.inverted, spec.yellow, points[k].value))
        }),
{
    let r = evaluation(now, samples, censuses, config, n).dimensions[i];
    let d = r.dimension;
    lemma_row(now, samples, censuses, config, n, d);
    assert(reading_for(d, samples, censuses, config, n) == Some(r));
    let spec = config.spec_of(d);
    let points = points_for(
        d,
        history_of(d, samples, config),
        censuses,
        config,
        n.figures@[d.place()].values@,
    );
    let values = values_of(points);
    assert(points.len() > 0);
    assert(values.last() == points.last().value);
    law_a_crossing_is_seen_at_once(spec, values);
    law_no_alarm_without_a_value(spec, values);
    if d != Dimension::Disk {
        if r.band == Band::Red {
            let k = choose|k: int|
                0 <= k < values.len() && past(spec.inverted, spec.red, #[trigger] values[k]);
            assert(values[k] == points[k].value);
        }
        if r.band != Band::Green {
            let k = choose|k: int|
                0 <= k < values.len() && (past(spec.inverted, spec.red, #[trigger] values[k])
                    || past(spec.inverted, spec.yellow, values[k]));
            assert(values[k] == points[k].value);
        }
    }
}

/// Whether the worklist has an entry about a row.
pub open spec fn listed(findings: Seq<FindingView>, r: ReadingView) -> bool {
    exists|k: int|
        0 <= k < findings.len() && (#[trigger] findings[k]).dimension == r.dimension
            && findings[k].band == r.band
}

/// With samples enough every row that is out of green and not advisory is in the
/// worklist, and so is a long uptime beside swap that is out of green.
pub proof fn law_every_alarm_is_listed(
    now: Timestamp,
    samples: Seq<Sample>,
    censuses: Seq<Census>,
    config: PressureConfig,
    n: Numbers,
    i: int,
)
    requires
        enough(samples, config),
        0 <= i < evaluation(now, samples, censuses, config, n).dimensions.len(),
        evaluation(now, samples, censuses, config, n).dimensions[i].band != Band::Green,
    ensures
        ({
            let p = evaluation(now, samples, censuses, config, n);
            let r = p.dimensions[i];
            &&& !r.dimension.advisory() ==> listed(p.findings, r)
            &&& r.dimension == Dimension::Uptime && (exists|k: int|
                0 <= k < p.dimensions.len() && (#[trigger] p.dimensions[k]).dimension
                    == Dimension::Swap && p.dimensions[k].band != Band::Green) ==> listed(
                p.findings,
                r,
            )
        }),
{
    let p = evaluation(now, samples, censuses, config, n);
    let rows = p.dimensions;
    let r = rows[i];
    lemma_enough(now, samples, censuses, config, n);
    law_one_row_per_dimension(now, samples, censuses, config, n);
    let census = super::evaluate::newest(censuses);
    let swap_total = super::evaluate::swap_total_of(window_of(samples, config));
    law_findings_are_the_readings(rows, p.level, census, swap_total, n, config);
    if super::findings::admitted(r, rows) {
        let f = super::findings::finding_of(r, census, swap_total, n, config);
        assert(p.findings.contains(f));
        let k = choose|k: int| 0 <= k < p.findings.len() && p.findings[k] == f;
        assert(p.findings[k].dimension == r.dimension);
    }
}

/// One kill rings the top bell: where the newest census counted a kill, and kills
/// are red from one upward, the row of kills is red and tells at least those, and
/// with samples enough the machine shrieks and the worklist says so.
pub proof fn law_a_kill_is_never_missed(
    now: Timestamp,
    samples: Seq<Sample>,
    censuses: Seq<Census>,
    config: PressureConfig,
    n: Numbers,
    k: u64,
)
    requires
        censuses.len() > 0,
        censuses.last().pressure_kills == Some(k),
        k >= 1,
        !config.jetsam.inverted,
        config.jetsam.red.at_most(real_of(1)),
    ensures
        ({
            let p = evaluation(now, samples, censuses, config, n);
            let rows = p.dimensions;
            &&& exists|i: int|
                0 <= i < rows.len() && (#[trigger] rows[i]).dimension == Dimension::Jetsam
                    && rows[i].band == Band::Red && real_of(k as nat).at_most(rows[i].value)
            &&& enough(samples, config) ==> p.level == Level::Shrieking
            &&& enough(samples, config) ==> exists|j: int|
                0 <= j < p.findings.len() && (#[trigger] p.findings[j]).dimension
                    == Dimension::Jetsam && p.findings[j].band == Band::Red
        }),
{
    let p = evaluation(now, samples, censuses, config, n);
    let rows = p.dimensions;
    law_the_newest_census_is_read(now, samples, censuses, config, n);
    law_the_kills_are_all_counted(samples, censuses, config.corporate_min_life_secs);
    let kills = censuses.fold_left(0int, |sum: int, x: Census| sum + kills_in(x));
    assert(kills_in(censuses[censuses.len() - 1]) == k);
    let told = if kills > u64::MAX {
        u64::MAX as nat
    } else {
        kills as nat
    };
    assert(told >= k);
    law_whole_numbers_keep_their_order(1, told);
    law_whole_numbers_keep_their_order(k as nat, told);
    let i = choose|i: int|
        0 <= i < rows.len() && (#[trigger] rows[i]).dimension == Dimension::Jetsam
            && rows[i].value == real_of(told);
    law_bands_follow_the_lines(now, samples, censuses, config, n, i);
    assert(past(false, config.jetsam.red, rows[i].value));
    assert(rows[i].band == Band::Red);
    if enough(samples, config) {
        law_the_rows_raise_the_level(now, samples, censuses, config, n, i, i);
        law_every_alarm_is_listed(now, samples, censuses, config, n, i);
        let j = choose|j: int|
            0 <= j < p.findings.len() && (#[trigger] p.findings[j]).dimension
                == rows[i].dimension && p.findings[j].band == rows[i].band;
        assert(p.findings[j].dimension == Dimension::Jetsam);
    }
}

/// An evaluation counts what it looked at: the samples that fit the window, and
/// every census. It bears its own time, and says `Checking` exactly where there are
/// too few samples or no row that counts.
pub proof fn law_an_evaluation_says_what_it_saw(
    now: Timestamp,
    samples: Seq<Sample>,
    censuses: Seq<Census>,
    config: PressureConfig,
    n: Numbers,
)
    requires
        censuses.len() <= usize::MAX,
    ensures
        ({
            let p = evaluation(now, samples, censuses, config, n);
            &&& p.evaluated_at == now
            &&& p.sample_count == if samples.len() > config.window_samples {
                config.window_samples as int
            } else {
                samples.len() as int
            }
            &&& p.census_count == censuses.len()
            &&& p.level_name == p.level.name_text()
            &&& !p.recovering
            &&& p.level == Level::Checking <==> !enough(samples, config) || forall|i: int|
                0 <= i < p.dimensions.len() ==> (#[trigger] p.dimensions[i]).dimension.advisory()
            &&& p.level == Level::Checking ==> p.source is None
            &&& !enough(samples, config) ==> p.findings.len() == 0
        }),
{
    let p = evaluation(now, samples, censuses, config, n);
    let rows = p.dimensions;
    lemma_enough(now, samples, censuses, config, n);
    lemma_contribution(now, samples, censuses, config, n);
    let all = contributions_of(rows);
    if forall|i: int| 0 <= i < rows.len() ==> (#[trigger] rows[i]).dimension.advisory() {
        assert forall|i: int| 0 <= i < all.len() implies !(#[trigger] all[i]).scores() by {
            assert(rows[i].dimension.advisory());
        }
        super::level::law_no_data_is_checking(
            all,
            config.red_grace_secs,
            config.catastrophic_severity,
        );
    } else if enough(samples, config) {
        let i = choose|i: int|
            0 <= i < rows.len() && !(#[trigger] rows[i]).dimension.advisory();
        law_the_rows_raise_the_level(now, samples, censuses, config, n, i, i);
    }
}

/// What never was recorded has no row: a dimension has one only where it was
/// observed, and one that is observed in whole numbers always where it was.
pub proof fn law_a_row_is_of_what_was_observed(
    now: Timestamp,
    samples: Seq<Sample>,
    censuses: Seq<Census>,
    config: PressureConfig,
    n: Numbers,
    d: Dimension,
)
    ensures
        ({
            let rows = evaluation(now, samples, censuses, config, n).dimensions;
            has_row(rows, d) ==> observed(
                d,
                history_of(d, samples, config),
                censuses,
                config.corporate_min_life_secs,
            ).len() > 0
        }),
{
    lemma_row(now, samples, censuses, config, n, d);
    let seen = observed(d, history_of(d, samples, config), censuses, config.corporate_min_life_secs);
    if seen.len() == 0 {
        let f = n.figures@[d.place()];
        assert(valued(seen, f.values@).len() == 0);
    }
}

/// A row bears the names of its own dimension, and its severity is the one worked
/// out for that dimension wherever its lines are apart: a reading that is no number
/// is no crisis.
pub proof fn law_a_row_is_its_dimensions(
    now: Timestamp,
    samples: Seq<Sample>,
    censuses: Seq<Census>,
    config: PressureConfig,
    n: Numbers,
    i: int,
)
    requires
        0 <= i < evaluation(now, samples, censuses, config, n).dimensions.len(),
    ensures
        ({
            let r = evaluation(now, samples, censuses, config, n).dimensions[i];
            let f = n.figures@[r.dimension.place()];
            &&& r.key == r.dimension.key_text()
            &&& r.label == r.dimension.label_text()
            &&& r.unit == r.dimension.measured_in()
            &&& r.advisory == r.dimension.advisory()
            &&& !r.recovering
            &&& r.dimension != Dimension::Disk && r.value.finite() && (Real { bits: 0 }).below(
                f.span,
            ) ==> r.severity == f.ratio
            &&& !r.value.finite() ==> r.severity == (Real { bits: 0xBFF0_0000_0000_0000 })
        }),
{
    let r = evaluation(now, samples, censuses, config, n).dimensions[i];
    lemma_row(now, samples, censuses, config, n, r.dimension);
    assert(reading_for(r.dimension, samples, censuses, config, n) == Some(r));
}

/// The data volume is judged on bytes, on time and on the two other horizons, and
/// the worst of them stands. It is red exactly where its bytes, its projection or a
/// sudden drop say so, and out of green exactly where those or the week do.
pub proof fn law_the_worst_horizon_stands(
    now: Timestamp,
    samples: Seq<Sample>,
    censuses: Seq<Census>,
    config: PressureConfig,
    n: Numbers,
    i: int,
)
    requires
        0 <= i < evaluation(now, samples, censuses, config, n).dimensions.len(),
        evaluation(now, samples, censuses, config, n).dimensions[i].dimension == Dimension::Disk,
    ensures
        ({
            let r = evaluation(now, samples, censuses, config, n).dimensions[i];
            let f = n.figures@[Dimension::Disk.place()];
            let points = points_for(Dimension::Disk, samples, censuses, config, f.values@);
            let ceiling = ceiling_over(
                points,
                config.ceiling_of(Dimension::Disk),
                f.calibrated_secs,
            );
            let stretch = points.skip(stretch_start(points, ceiling, config.window_samples));
            let bytes = outcome_of(config.disk, values_of(points))->0.band;
            let time = floor_of(
                projections_of(stretch, n.disk.descents@),
                config.disk_projection_red_secs,
                config.disk_projection_yellow_secs,
                config.disk.confirm_samples,
            ).band;
            &&& r.band == Band::Red <==> bytes == Band::Red || time == Band::Red
                || n.disk.burst.band == Band::Red
            &&& r.band == Band::Green <==> bytes == Band::Green && time == Band::Green
                && n.disk.burst.band == Band::Green && n.disk.week.band == Band::Green
            &&& r.value.finite() && !n.disk.bytes_term.nan() ==> n.disk.bytes_term.at_most(
                r.severity,
            )
            &&& r.value.finite() && !n.disk.time_term.nan() && (Real { bits: 0 }).below(r.value)
                && super::wording::falls(r.trend_per_sec) ==> n.disk.time_term.at_most(r.severity)
            &&& r.value.finite() ==> r.severity == n.disk.bytes_term || r.severity
                == n.disk.time_term || r.severity == super::level::bottom()
            &&& r.trend_per_sec matches Some(s) ==> stretch.len() > 1 && n.disk.descents@.len()
                >= stretch.len() && n.disk.descents@[stretch.len() - 1].slope == Some(s)
        }),
{
    let r = evaluation(now, samples, censuses, config, n).dimensions[i];
    lemma_row(now, samples, censuses, config, n, Dimension::Disk);
    assert(reading_for(Dimension::Disk, samples, censuses, config, n) == Some(r));
    let f = n.figures@[Dimension::Disk.place()];
    let points = points_for(Dimension::Disk, samples, censuses, config, f.values@);
    let ceiling = ceiling_over(points, config.ceiling_of(Dimension::Disk), f.calibrated_secs);
    let stretch = points.skip(stretch_start(points, ceiling, config.window_samples));
    if let Some(s) = r.trend_per_sec {
        assert(super::disk::timed(stretch, stretch.len() as int));
    }
}

/// A row other than disk's says how long its band has held, over the points that
/// the band was replayed on, and what was missed; which calmer band is not
/// confirmed yet; and where the value is going by what was watched last.
pub proof fn law_a_row_says_how_long(
    now: Timestamp,
    samples: Seq<Sample>,
    censuses: Seq<Census>,
    config: PressureConfig,
    n: Numbers,
    i: int,
)
    requires
        0 <= i < evaluation(now, samples, censuses, config, n).dimensions.len(),
    ensures
        ({
            let r = evaluation(now, samples, censuses, config, n).dimensions[i];
            let d = r.dimension;
            let f = n.figures@[d.place()];
            let points = points_for(d, history_of(d, samples, config), censuses, config, f.values@);
            let o = outcome_of(config.spec_of(d), values_of(points))->0;
            let ceiling = ceiling_over(points, config.ceiling_of(d), f.calibrated_secs);
            &&& r.pending == o.pending
            &&& d != Dimension::Disk ==> r.band == o.band && r.held_secs == held_over(
                points,
                ceiling,
                o.held_samples,
            ).secs && r.observation_gap_secs == held_over(
                points,
                ceiling,
                o.held_samples,
            ).gap_secs && r.trend_per_sec == tail_trend(points, ceiling, f.trend)
        }),
{
    let r = evaluation(now, samples, censuses, config, n).dimensions[i];
    lemma_row(now, samples, censuses, config, n, r.dimension);
    assert(reading_for(r.dimension, samples, censuses, config, n) == Some(r));
}

/// A row is told in the words for its own value and trend, with the newest sample's
/// pool and queue; a volume with what its other horizons say.
pub proof fn law_a_row_is_told_in_its_words(
    now: Timestamp,
    samples: Seq<Sample>,
    censuses: Seq<Census>,
    config: PressureConfig,
    n: Numbers,
    i: int,
)
    requires
        0 <= i < evaluation(now, samples, censuses, config, n).dimensions.len(),
        samples.len() > 0,
        config.window_samples > 0,
    ensures
        ({
            let r = evaluation(now, samples, censuses, config, n).dimensions[i];
            r.detail == detail_text(
                r.dimension,
                r.value,
                r.trend_per_sec,
                Some(n.demand),
                Some(samples.last().swap_total_bytes),
                config,
                n.figures@[r.dimension.place()].words,
            ) + if r.dimension == Dimension::Disk {
                notes_text(n.disk)
            } else {
                Seq::empty()
            }
        }),
{
    let r = evaluation(now, samples, censuses, config, n).dimensions[i];
    lemma_row(now, samples, censuses, config, n, r.dimension);
    assert(reading_for(r.dimension, samples, censuses, config, n) == Some(r));
    let window = super::evaluate::window_of(samples, config);
    assert(window.last() == samples.last());
    let said = detail_text(
        r.dimension,
        r.value,
        r.trend_per_sec,
        Some(n.demand),
        Some(samples.last().swap_total_bytes),
        config,
        n.figures@[r.dimension.place()].words,
    );
    assert(said + Seq::<char>::empty() =~= said);
}

/// Thrashing is read as the worst sustained churn of its window; every other
/// dimension as it was observed.
pub proof fn law_only_thrashing_is_read_at_its_worst(
    d: Dimension,
    samples: Seq<Sample>,
    censuses: Seq<Census>,
    config: PressureConfig,
    values: Seq<Real>,
)
    ensures
        ({
            let seen = valued(
                observed(d, samples, censuses, config.corporate_min_life_secs),
                values,
            );
            points_for(d, samples, censuses, config, values) == if d == Dimension::Thrash {
                peaks(seen, config.thrash_peak_window_secs)
            } else {
                seen
            }
        }),
{
}

/// A dimension is replayed over the newest samples that fit the window, and a volume
/// over all there are.
pub proof fn law_what_a_dimension_is_replayed_over(
    d: Dimension,
    samples: Seq<Sample>,
    config: PressureConfig,
)
    ensures
        d == Dimension::Disk || samples.len() <= config.window_samples ==> history_of(
            d,
            samples,
            config,
        ) == samples,
        d != Dimension::Disk && samples.len() > config.window_samples ==> ({
            let h = history_of(d, samples, config);
            h.len() == config.window_samples && forall|i: int|
                0 <= i < h.len() ==> #[trigger] h[i] == samples[samples.len()
                    - config.window_samples + i]
        }),
{
}

/// With samples enough every alarming row has its finding: in the words for its own
/// value, with the remedy for it and with whoever the newest census shows behind it.
pub proof fn law_an_alarm_names_the_newest(
    now: Timestamp,
    samples: Seq<Sample>,
    censuses: Seq<Census>,
    config: PressureConfig,
    n: Numbers,
    i: int,
)
    requires
        enough(samples, config),
        samples.len() > 0,
        config.window_samples > 0,
        0 <= i < evaluation(now, samples, censuses, config, n).dimensions.len(),
        is_alarming(
            evaluation(now, samples, censuses, config, n).dimensions[i],
            evaluation(now, samples, censuses, config, n).dimensions,
        ),
    ensures
        ({
            let p = evaluation(now, samples, censuses, config, n);
            exists|f: FindingView| #[trigger]
                p.findings.contains(f) && is_finding_of(
                    f,
                    p.dimensions[i],
                    if censuses.len() > 0 {
                        Some(censuses.last())
                    } else {
                        None
                    },
                    Some(samples.last().swap_total_bytes),
                    n,
                    config,
                )
        }),
{
    let p = evaluation(now, samples, censuses, config, n);
    lemma_enough(now, samples, censuses, config, n);
    let window = window_of(samples, config);
    assert(window.last() == samples.last());
    let total = Some(samples.last().swap_total_bytes);
    let census = super::evaluate::newest(censuses);
    assert(total == super::evaluate::swap_total_of(window));
    law_what_alarms_is_listed(p.dimensions, p.level, census, total, n, config, i);
    let f = choose|f: FindingView| #[trigger]
        worklist(p.dimensions, p.level, census, total, n, config).contains(f) && is_finding_of(
            f,
            p.dimensions[i],
            census,
            total,
            n,
            config,
        );
    assert(p.findings.contains(f));
}

} // verus!
