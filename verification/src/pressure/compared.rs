//! What a comparison with the past compares, and what it says of it.
use vstd::prelude::*;

use super::config::{Dimension, PressureConfig, ALL_DIMENSIONS};
use super::deltas::{
    anchor, census_times, censuses_before, clauses_of, delta_about, details_of, dimension_text,
    freed_any, law_the_anchor, law_the_widest_hole_is_told, lemma_dimensions, lemma_last_upto,
    movers, point_times, reaches, sample_times, size_of_change, Comparison, DimensionDeltaView,
    VerdictDeltaView,
};
use super::evaluate::{evaluation, points_for};
use super::level::Level;
use super::lookback::span_words;
use super::recorded::law_a_sample_adds_its_swap;
use super::series::{
    ceiling_over, interval, law_a_reported_gap_is_there, law_gaps_are_reported, observed, valued,
    Point,
};
use super::summary::{
    last_of, law_every_consumer_has_one_row, law_movers_come_first, listed, ranked_rows, row_is,
    side_by_side, summary_of, tells, ConsumerDeltaView, SizeView, SummaryView,
};
use super::who::zero;
use super::wording::{kernel_text, thermal_text};
use crate::census::Census;
use crate::number::{real_of, Real};
use crate::sample::Sample;
use crate::text::{decimal, joined, mentions, sorts_before};
use crate::time::{span_secs, Timestamp};

verus! {

/// Whether censuses are oldest first, no two of one instant.
pub open spec fn censuses_ascend(s: Seq<Census>) -> bool {
    forall|i: int, j: int|
        0 <= i < j < s.len() ==> (#[trigger] s[i]).taken_at.nanos < (
        #[trigger] s[j]).taken_at.nanos
}

/// Whether samples are oldest first, no two of one instant.
pub open spec fn samples_ascend(s: Seq<Sample>) -> bool {
    forall|i: int, j: int|
        0 <= i < j < s.len() ==> (#[trigger] s[i]).sampled_at.nanos < (
        #[trigger] s[j]).sampled_at.nanos
}

/// Whether a census is the one to compare against: the latest taken by an instant,
/// or the earliest there is where none was.
pub open spec fn is_census_at(s: Seq<Census>, at: Timestamp, i: int) -> bool {
    &&& 0 <= i < s.len()
    &&& forall|j: int|
        0 <= j < s.len() && (#[trigger] s[j]).taken_at.nanos <= at.nanos ==> s[j].taken_at.nanos
            <= s[i].taken_at.nanos
    &&& s[i].taken_at.nanos <= at.nanos || forall|j: int|
        0 <= j < s.len() ==> s[i].taken_at.nanos <= (#[trigger] s[j]).taken_at.nanos
}

proof fn lemma_census_anchor(s: Seq<Census>, at: Timestamp)
    requires
        censuses_ascend(s),
        s.len() > 0,
    ensures
        anchor(census_times(s), at) matches Some(i) && is_census_at(s, at, i),
{
    let times = census_times(s);
    law_the_anchor(times, at);
    let i = anchor(times, at)->0;
    assert(times[i] == s[i].taken_at);
    assert forall|j: int|
        0 <= j < s.len() && (#[trigger] s[j]).taken_at.nanos <= at.nanos implies s[j].taken_at.nanos
        <= s[i].taken_at.nanos by {
        if j > i {
            assert(times[j].nanos > at.nanos);
            assert(times[j] == s[j].taken_at);
        } else if j < i {
            assert(s[j].taken_at.nanos < s[i].taken_at.nanos);
        }
    }
    if s[i].taken_at.nanos > at.nanos {
        assert forall|j: int| 0 <= j < s.len() implies s[i].taken_at.nanos <= (
        #[trigger] s[j]).taken_at.nanos by {
            if j > 0 {
                assert(s[0].taken_at.nanos < s[j].taken_at.nanos);
            }
        }
    }
}

proof fn lemma_only_census_at(s: Seq<Census>, at: Timestamp, i: int, j: int)
    requires
        censuses_ascend(s),
        is_census_at(s, at, i),
        is_census_at(s, at, j),
    ensures
        i == j,
{
    assert(s[i].taken_at.nanos <= s[j].taken_at.nanos || s[j].taken_at.nanos
        <= s[i].taken_at.nanos);
    if i < j {
        assert(s[i].taken_at.nanos < s[j].taken_at.nanos);
    } else if j < i {
        assert(s[j].taken_at.nanos < s[i].taken_at.nanos);
    }
}

/// Without a stored summary the newest census is compared with the latest that had
/// been taken by the instant asked for, or with the earliest where none had. There
/// is something to compare exactly where the newest is later than that instant and
/// not the only one.
pub proof fn law_the_census_of_then(
    c: Comparison,
    lookback: Seq<char>,
    episode_id: Option<u128>,
    i: int,
)
    requires
        censuses_ascend(c.censuses),
        is_census_at(c.censuses, c.then_at, i),
    ensures
        ({
            let r = c.deltas(lookback, episode_id, None);
            &&& r.census matches Some(p) ==> p.then_at == c.censuses[i].taken_at && p.now_at
                == c.censuses.last().taken_at && p.then_at.nanos < p.now_at.nanos
            &&& r.census is Some <==> c.censuses.last().taken_at.nanos > c.then_at.nanos
                && c.censuses.len() > 1
            &&& r.census is None ==> r.consumers.len() == 0
        }),
{
    lemma_census_anchor(c.censuses, c.then_at);
    let k = anchor(census_times(c.censuses), c.then_at)->0;
    lemma_only_census_at(c.censuses, c.then_at, i, k);
    let last = c.censuses.len() - 1;
    assert(c.censuses[last] == c.censuses.last());
    if i < last {
        assert(c.censuses[i].taken_at.nanos < c.censuses[last].taken_at.nanos);
    }
    if c.censuses[last].taken_at.nanos <= c.then_at.nanos {
        assert(c.censuses[last].taken_at.nanos <= c.censuses[i].taken_at.nanos);
    } else if c.censuses.len() > 1 && i == last {
        assert(c.censuses[i].taken_at.nanos <= c.censuses[0].taken_at.nanos);
        assert(c.censuses[0].taken_at.nanos < c.censuses[last].taken_at.nanos);
    }
}

/// A stored summary stands in for the census: the newest census is compared with
/// it, where it is the older one.
pub proof fn law_the_summary_of_then(
    c: Comparison,
    lookback: Seq<char>,
    episode_id: Option<u128>,
    given: SummaryView,
)
    ensures
        ({
            let r = c.deltas(lookback, episode_id, Some(given));
            &&& r.census matches Some(p) ==> p.then_at == given.taken_at && p.now_at
                == c.censuses.last().taken_at
            &&& r.census is Some <==> c.censuses.len() > 0 && given.taken_at.nanos
                < c.censuses.last().taken_at.nanos
            &&& r.census is None ==> r.consumers.len() == 0
        }),
{
}

/// Whether a row of a comparison tells what two lists of consumers hold of it, none
/// where one does not have it, and the difference, as far as it fits.
pub open spec fn tells_both_ends(
    x: ConsumerDeltaView,
    then: Seq<SizeView>,
    now: Seq<SizeView>,
) -> bool {
    let a = last_of(then, x.kind, x.name);
    let b = last_of(now, x.kind, x.name);
    let change = x.now_bytes - x.then_bytes;
    &&& a is Some || b is Some
    &&& a matches Some(e) ==> x.then_count == e.count && x.then_bytes == e.rss_bytes
    &&& a is None ==> x.then_count == 0 && x.then_bytes == 0
    &&& b matches Some(e) ==> x.now_count == e.count && x.now_bytes == e.rss_bytes
    &&& b is None ==> x.now_count == 0 && x.now_bytes == 0
    &&& -i64::MAX <= change <= i64::MAX ==> x.delta_bytes == change
    &&& change > i64::MAX ==> x.delta_bytes == i64::MAX
    &&& change < -i64::MAX ==> x.delta_bytes == -i64::MAX
}

/// Whether a consumer has a row.
pub open spec fn has_row(s: Seq<ConsumerDeltaView>, e: SizeView) -> bool {
    exists|k: int| 0 <= k < s.len() && (#[trigger] s[k]).kind == e.kind && s[k].name == e.name
}

proof fn lemma_consumer_rows(then: SummaryView, now: SummaryView, sizes: Seq<String>)
    ensures
        ({
            let s = super::summary::deltas_of_rows(ranked_rows(then, now), sizes);
            &&& forall|k: int|
                0 <= k < s.len() ==> tells_both_ends(
                    #[trigger] s[k],
                    then.consumers,
                    now.consumers,
                )
            &&& forall|i: int|
                0 <= i < then.consumers.len() ==> has_row(s, #[trigger] then.consumers[i])
            &&& forall|i: int|
                0 <= i < now.consumers.len() ==> has_row(s, #[trigger] now.consumers[i])
        }),
{
    broadcast use vstd::seq_lib::group_to_multiset_ensures;

    let rows = side_by_side(then.consumers, now.consumers);
    let ranked = ranked_rows(then, now);
    let s = super::summary::deltas_of_rows(ranked, sizes);
    law_every_consumer_has_one_row(then.consumers, now.consumers);
    law_movers_come_first(then, now);
    assert forall|k: int| 0 <= k < s.len() implies tells_both_ends(
        #[trigger] s[k],
        then.consumers,
        now.consumers,
    ) by {
        let r = ranked[k];
        assert(ranked.contains(r));
        assert(ranked.to_multiset().count(r) > 0);
        assert(rows.contains(r));
        let m = choose|m: int| 0 <= m < rows.len() && rows[m] == r;
        assert(tells(rows[m], then.consumers, now.consumers));
    }
    assert forall|e: SizeView| #[trigger] listed(rows, e) implies has_row(s, e) by {
        let m = choose|m: int| 0 <= m < rows.len() && row_is(#[trigger] rows[m], e);
        let r = rows[m];
        assert(rows.contains(r));
        assert(rows.to_multiset().count(r) > 0);
        assert(ranked.contains(r));
        let k = choose|k: int| 0 <= k < ranked.len() && ranked[k] == r;
        assert(s[k].kind == e.kind && s[k].name == e.name);
    }
}

/// Every consumer of either census is told, with its count and its size at both
/// ends and the difference between them, and nobody else.
pub proof fn law_consumers_are_told_at_both_ends(
    c: Comparison,
    lookback: Seq<char>,
    episode_id: Option<u128>,
    i: int,
)
    requires
        censuses_ascend(c.censuses),
        is_census_at(c.censuses, c.then_at, i),
        c.deltas(lookback, episode_id, None).census is Some,
    ensures
        ({
            let s = c.deltas(lookback, episode_id, None).consumers;
            let then = summary_of(c.censuses[i]).consumers;
            let now = summary_of(c.censuses.last()).consumers;
            &&& forall|k: int| 0 <= k < s.len() ==> tells_both_ends(#[trigger] s[k], then, now)
            &&& forall|k: int| 0 <= k < then.len() ==> has_row(s, #[trigger] then[k])
            &&& forall|k: int| 0 <= k < now.len() ==> has_row(s, #[trigger] now[k])
        }),
{
    lemma_census_anchor(c.censuses, c.then_at);
    let k = anchor(census_times(c.censuses), c.then_at)->0;
    lemma_only_census_at(c.censuses, c.then_at, i, k);
    lemma_consumer_rows(
        summary_of(c.censuses[i]),
        summary_of(c.censuses.last()),
        c.numbers.sizes@,
    );
}

/// With a stored summary likewise: every consumer of it or of the newest census is
/// told at both ends.
pub proof fn law_consumers_are_told_since_a_summary(
    c: Comparison,
    lookback: Seq<char>,
    episode_id: Option<u128>,
    given: SummaryView,
)
    requires
        c.deltas(lookback, episode_id, Some(given)).census is Some,
    ensures
        ({
            let s = c.deltas(lookback, episode_id, Some(given)).consumers;
            let now = summary_of(c.censuses.last()).consumers;
            &&& forall|k: int|
                0 <= k < s.len() ==> tells_both_ends(#[trigger] s[k], given.consumers, now)
            &&& forall|k: int|
                0 <= k < given.consumers.len() ==> has_row(s, #[trigger] given.consumers[k])
            &&& forall|k: int| 0 <= k < now.len() ==> has_row(s, #[trigger] now[k])
        }),
{
    lemma_consumer_rows(given, summary_of(c.censuses.last()), c.numbers.sizes@);
}

/// Whether a sample is the one to compare against: the latest taken by an instant,
/// or the earliest there is where none was.
pub open spec fn is_sample_at(s: Seq<Sample>, at: Timestamp, i: int) -> bool {
    &&& 0 <= i < s.len()
    &&& forall|j: int|
        0 <= j < s.len() && (#[trigger] s[j]).sampled_at.nanos <= at.nanos ==> s[j].sampled_at.nanos
            <= s[i].sampled_at.nanos
    &&& s[i].sampled_at.nanos <= at.nanos || forall|j: int|
        0 <= j < s.len() ==> s[i].sampled_at.nanos <= (#[trigger] s[j]).sampled_at.nanos
}

proof fn lemma_sample_anchor(s: Seq<Sample>, at: Timestamp, i: int)
    requires
        samples_ascend(s),
        is_sample_at(s, at, i),
    ensures
        anchor(sample_times(s), at) == Some(i),
{
    let times = sample_times(s);
    law_the_anchor(times, at);
    let k = anchor(times, at)->0;
    assert(times[k] == s[k].sampled_at);
    if k < i {
        assert(s[k].sampled_at.nanos < s[i].sampled_at.nanos);
        assert(times[i].nanos > at.nanos);
        assert(times[i] == s[i].sampled_at);
    } else if i < k {
        assert(s[i].sampled_at.nanos < s[k].sampled_at.nanos);
    }
}

/// Whether censuses are the newest three that had been taken by an instant, or all
/// there were.
pub open spec fn are_newest_by(all: Seq<Census>, at: Timestamp, seen: Seq<Census>) -> bool {
    exists|start: int, end: int|
        0 <= start <= end <= all.len() && {
            &&& seen == #[trigger] all.subrange(start, end)
            &&& end - start == 3 || (start == 0 && end < 3)
            &&& forall|j: int| 0 <= j < end ==> (#[trigger] all[j]).taken_at.nanos <= at.nanos
            &&& forall|j: int|
                end <= j < all.len() ==> (#[trigger] all[j]).taken_at.nanos > at.nanos
        }
}

proof fn lemma_newest_by(all: Seq<Census>, at: Timestamp)
    requires
        censuses_ascend(all),
    ensures
        are_newest_by(all, at, censuses_before(all, at, 3)),
{
    let times = census_times(all);
    lemma_last_upto(times, at);
    let end = super::deltas::last_upto(times, at) + 1;
    assert forall|j: int| end <= j < all.len() implies (#[trigger] all[j]).taken_at.nanos
        > at.nanos by {
        assert(times[j] == all[j].taken_at);
    }
    assert forall|j: int| 0 <= j < end implies (#[trigger] all[j]).taken_at.nanos <= at.nanos by {
        assert(times[end - 1] == all[end - 1].taken_at);
        if j < end - 1 {
            assert(all[j].taken_at.nanos < all[end - 1].taken_at.nanos);
        }
    }
    assert(censuses_before(all, at, 3) == all.subrange(
        if end < 3 {
            0
        } else {
            end - 3
        },
        end,
    ));
}

/// The sample compared against is the latest taken by the instant asked for, or the
/// earliest where none was. The verdict of then is the one that could have been
/// given at that sample: on the samples up to it, and on the newest censuses that
/// had been taken by it. The verdict of now is on everything.
pub proof fn law_the_verdict_of_then(
    c: Comparison,
    lookback: Seq<char>,
    episode_id: Option<u128>,
    given: Option<SummaryView>,
    i: int,
)
    requires
        samples_ascend(c.samples),
        censuses_ascend(c.censuses),
        is_sample_at(c.samples, c.then_at, i),
    ensures
        ({
            let r = c.deltas(lookback, episode_id, given);
            let at = c.samples[i].sampled_at;
            &&& r.anchor_at == Some(at)
            &&& r.verdict matches Some(v) && {
                &&& exists|seen: Seq<Census>| #[trigger]
                    are_newest_by(c.censuses, at, seen) && v.then_level == evaluation(
                        at,
                        c.samples.take(i + 1),
                        seen,
                        c.config,
                        c.numbers.was,
                    ).level && v.then_source == evaluation(
                        at,
                        c.samples.take(i + 1),
                        seen,
                        c.config,
                        c.numbers.was,
                    ).source
                &&& exists|seen: Seq<Census>| #[trigger]
                    are_newest_by(c.censuses, c.now, seen) && v.now_level == evaluation(
                        c.now,
                        c.samples,
                        seen,
                        c.config,
                        c.numbers.now,
                    ).level && v.now_source == evaluation(
                        c.now,
                        c.samples,
                        seen,
                        c.config,
                        c.numbers.now,
                    ).source
                &&& v.then_level == v.now_level ==> v.detail == "pressure unchanged at "@
                    + v.now_level.name_text()
                &&& v.then_level != v.now_level ==> v.detail == "pressure "@
                    + v.then_level.name_text() + " → "@ + v.now_level.name_text()
            }
        }),
{
    lemma_sample_anchor(c.samples, c.then_at, i);
    let at = c.samples[i].sampled_at;
    lemma_newest_by(c.censuses, at);
    lemma_newest_by(c.censuses, c.now);
}

/// A comparison says what it is: of when, how far back was asked, in whole seconds,
/// and how far back it could look. There is no anchor exactly where there is no
/// sample.
pub proof fn law_a_comparison_says_how_far_it_looked(
    c: Comparison,
    lookback: Seq<char>,
    episode_id: Option<u128>,
    given: Option<SummaryView>,
)
    ensures
        ({
            let r = c.deltas(lookback, episode_id, given);
            let asked = (c.now.nanos - c.then_at.nanos) / 1_000_000_000;
            &&& r.evaluated_at == c.now
            &&& r.lookback == lookback
            &&& r.episode_id == episode_id
            &&& c.now.nanos <= c.then_at.nanos ==> r.requested_lookback_secs == 0
            &&& c.now.nanos > c.then_at.nanos && asked <= u64::MAX ==> r.requested_lookback_secs
                == asked
            &&& r.anchor_at is None <==> c.samples.len() == 0
            &&& r.actual_lookback_secs is None <==> r.anchor_at is None
            &&& r.anchor_at matches Some(t) ==> {
                let could = (c.now.nanos - t.nanos) / 1_000_000_000;
                &&& c.now.nanos <= t.nanos ==> r.actual_lookback_secs == Some(0u64)
                &&& c.now.nanos > t.nanos && could <= u64::MAX ==> r.actual_lookback_secs == Some(
                    could as u64,
                )
            }
        }),
{
    law_the_anchor(sample_times(c.samples), c.then_at);
}

/// Each dimension is compared from its latest observation by the instant asked for,
/// or its earliest, to its newest, with the values of both. It is compared exactly
/// where those are two. A gap between them is told where there is one, the largest.
pub proof fn law_a_dimension_is_compared_with_its_past(
    c: Comparison,
    lookback: Seq<char>,
    episode_id: Option<u128>,
    given: Option<SummaryView>,
    k: int,
)
    requires
        0 <= k < c.deltas(lookback, episode_id, given).dimensions.len(),
    ensures
        ({
            let x = c.deltas(lookback, episode_id, given).dimensions[k];
            let d = x.dimension;
            let f = c.numbers.figures@[d.place()];
            let points = points_for(d, c.samples, c.censuses, c.config, f.values@);
            let ceiling = ceiling_over(points, c.config.ceiling_of(d), f.calibrated_secs);
            &&& x.key == d.key_text()
            &&& x.label == d.label_text()
            &&& x.unit == d.measured_in()
            &&& x.delta == f.delta
            &&& x.now == points.last().value
            &&& x.now_at == points.last().at
            &&& exists|i: int|
                0 <= i < points.len() - 1 && {
                    &&& x.was == (#[trigger] points[i]).value
                    &&& x.then_at == points[i].at
                    &&& points[i].at.nanos <= c.then_at.nanos || i == 0
                    &&& forall|j: int|
                        i < j < points.len() ==> (#[trigger] points[j]).at.nanos > c.then_at.nanos
                    &&& x.observation_gap_secs is None <==> forall|j: int|
                        i < j < points.len() ==> #[trigger] interval(points, j) <= ceiling
                    &&& x.observation_gap_secs matches Some(g) ==> g > ceiling && forall|j: int|
                        i < j < points.len() ==> #[trigger] interval(points, j) <= g
                }
        }),
{
    lemma_dimensions(c, 14);
    let x = c.dimensions(14)[k];
    let d = x.dimension;
    assert(c.dimension(d) == Some(x));
    let f = c.numbers.figures@[d.place()];
    let points = points_for(d, c.samples, c.censuses, c.config, f.values@);
    let times = point_times(points);
    let ceiling = ceiling_over(points, c.config.ceiling_of(d), f.calibrated_secs);
    law_the_anchor(times, c.then_at);
    let i = anchor(times, c.then_at)->0;
    assert(times[i] == points[i].at);
    assert forall|j: int| i < j < points.len() implies (#[trigger] points[j]).at.nanos
        > c.then_at.nanos by {
        assert(times[j] == points[j].at);
    }
    law_gaps_are_reported(points, ceiling, i, points.len() - 1);
    assert(x.was == points[i].value);
}

proof fn lemma_dimension_listed(c: Comparison, k: int, d: Dimension)
    requires
        0 <= k <= 14,
        d.place() < k,
        c.dimension(d) is Some,
    ensures
        c.dimensions(k).contains(c.dimension(d)->0),
    decreases k,
{
    let x = c.dimension(d)->0;
    let all = c.dimensions(k);
    let front = c.dimensions(k - 1);
    assert(ALL_DIMENSIONS@[k - 1].place() == k - 1);
    if d.place() < k - 1 {
        lemma_dimension_listed(c, k - 1, d);
        let i = choose|i: int| 0 <= i < front.len() && front[i] == x;
        assert(all[i] == x);
    } else {
        assert(ALL_DIMENSIONS@[k - 1] == d);
        assert(all[front.len() as int] == x);
    }
}

/// Whether a dimension is compared.
pub open spec fn is_compared(s: Seq<DimensionDeltaView>, d: Dimension) -> bool {
    exists|k: int| 0 <= k < s.len() && (#[trigger] s[k]).dimension == d
}

/// No dimension that could be compared is left out: one with two observations, the
/// newest of them later than the instant asked for, is compared.
pub proof fn law_no_comparison_is_left_out(
    c: Comparison,
    lookback: Seq<char>,
    episode_id: Option<u128>,
    given: Option<SummaryView>,
    d: Dimension,
)
    requires
        ({
            let points = points_for(
                d,
                c.samples,
                c.censuses,
                c.config,
                c.numbers.figures@[d.place()].values@,
            );
            points.len() > 1 && points.last().at.nanos > c.then_at.nanos
        }),
    ensures
        is_compared(c.deltas(lookback, episode_id, given).dimensions, d),
{
    let points = points_for(
        d,
        c.samples,
        c.censuses,
        c.config,
        c.numbers.figures@[d.place()].values@,
    );
    let times = point_times(points);
    law_the_anchor(times, c.then_at);
    let i = anchor(times, c.then_at)->0;
    assert(times[i] == points[i].at);
    assert(i < points.len() - 1);
    lemma_dimension_listed(c, 14, d);
    let x = c.dimension(d)->0;
    let all = c.dimensions(14);
    let k = choose|k: int| 0 <= k < all.len() && all[k] == x;
    assert(all[k].dimension == d);
}

proof fn lemma_swap_points(samples: Seq<Sample>, censuses: Seq<Census>, life: u64, values: Seq<Real>)
    ensures
        ({
            let points = valued(observed(Dimension::Swap, samples, censuses, life), values);
            &&& points.len() == samples.len()
            &&& observed(Dimension::Swap, samples, censuses, life).len() == samples.len()
            &&& forall|i: int|
                0 <= i < samples.len() ==> (#[trigger] points[i]) == (Point {
                    at: samples[i].sampled_at,
                    value: real_of(samples[i].swap_used_bytes as nat),
                })
        }),
    decreases samples.len(),
{
    if samples.len() > 0 {
        let front = samples.drop_last();
        let s = samples.last();
        lemma_swap_points(front, censuses, life, values);
        law_a_sample_adds_its_swap(front, s, censuses, life);
        assert(front.push(s) =~= samples);
        let obs = observed(Dimension::Swap, samples, censuses, life);
        assert(obs.drop_last() =~= observed(Dimension::Swap, front, censuses, life));
    }
}

/// Swap is compared in bytes: from what was in use at the sample of then to what is
/// in use at the newest, wherever that sample is not the newest.
pub proof fn law_swap_then_and_now(
    c: Comparison,
    lookback: Seq<char>,
    episode_id: Option<u128>,
    given: Option<SummaryView>,
    i: int,
)
    requires
        samples_ascend(c.samples),
        is_sample_at(c.samples, c.then_at, i),
        i < c.samples.len() - 1,
    ensures
        ({
            let s = c.deltas(lookback, episode_id, given).dimensions;
            exists|k: int|
                0 <= k < s.len() && (#[trigger] s[k]).dimension == Dimension::Swap && s[k].was
                    == real_of(c.samples[i].swap_used_bytes as nat) && s[k].now == real_of(
                    c.samples.last().swap_used_bytes as nat,
                ) && s[k].then_at == c.samples[i].sampled_at && s[k].now_at
                    == c.samples.last().sampled_at
        }),
{
    let d = Dimension::Swap;
    let values = c.numbers.figures@[d.place()].values@;
    let points = points_for(d, c.samples, c.censuses, c.config, values);
    lemma_swap_points(c.samples, c.censuses, c.config.corporate_min_life_secs, values);
    lemma_sample_anchor(c.samples, c.then_at, i);
    assert(point_times(points) =~= sample_times(c.samples));
    let last = points.len() - 1;
    assert(points[last].value == real_of(c.samples[last].swap_used_bytes as nat));
    assert(points[i].value == real_of(c.samples[i].swap_used_bytes as nat));
    assert(c.samples[last] == c.samples.last());
    assert(points[last].at == c.samples[last].sampled_at);
    assert(points[i].at == c.samples[i].sampled_at);
    assert(anchor(point_times(points), c.then_at) == Some(i));
    lemma_dimension_listed(c, 14, d);
    let x = c.dimension(d)->0;
    assert(x.was == points[i].value && x.now == points[last].value);
    let all = c.deltas(lookback, episode_id, given).dimensions;
    let k = choose|k: int| 0 <= k < all.len() && all[k] == x;
    assert(all[k].dimension == d);
}

proof fn lemma_joined_mentions(parts: Seq<Seq<char>>, sep: Seq<char>, i: int)
    requires
        0 <= i < parts.len(),
    ensures
        mentions(joined(parts, sep), parts[i]),
    decreases parts.len(),
{
    let none = Seq::<char>::empty();
    let all = joined(parts, sep);
    if parts.len() == 1 {
        assert(all =~= none + parts[i] + none);
    } else if i == parts.len() - 1 {
        let front = joined(parts.drop_last(), sep);
        assert(all =~= front + sep + parts[i] + none);
    } else {
        let less = parts.drop_last();
        let front = joined(less, sep);
        lemma_joined_mentions(less, sep, i);
        let (a, b) = choose|a: Seq<char>, b: Seq<char>| front == #[trigger] (a + less[i] + b);
        assert(all =~= a + parts[i] + (b + sep + parts.last()));
    }
}

proof fn lemma_mentions_inside(text: Seq<char>, part: Seq<char>, head: Seq<char>, tail: Seq<char>)
    requires
        mentions(text, part),
    ensures
        mentions(head + text + tail, part),
{
    let (a, b) = choose|a: Seq<char>, b: Seq<char>| text == #[trigger] (a + part + b);
    assert(head + text + tail =~= (head + a) + part + (b + tail));
}

/// Every clause is in the sentence, and the sentence begins by how far back it
/// looked: since the episode, or by the span, with what was asked for where the
/// history is shorter by more than a sample interval.
pub proof fn law_the_sentence_says_each_clause(
    c: Comparison,
    lookback: Seq<char>,
    episode_id: Option<u128>,
    given: Option<SummaryView>,
    i: int,
)
    requires
        c.samples.len() > 0,
        ({
            let r = c.deltas(lookback, episode_id, given);
            0 <= i < clauses_of(
                r.verdict,
                r.dimensions,
                r.consumers,
                r.observation_gap_secs,
                c.swap_size(),
                c.memory_size(),
                c.config,
            ).len()
        }),
    ensures
        ({
            let r = c.deltas(lookback, episode_id, given);
            let clauses = clauses_of(
                r.verdict,
                r.dimensions,
                r.consumers,
                r.observation_gap_secs,
                c.swap_size(),
                c.memory_size(),
                c.config,
            );
            let actual = r.actual_lookback_secs->0;
            let short = actual + c.config.sample_interval_secs < r.requested_lookback_secs;
            &&& mentions(r.summary, clauses[i])
            &&& lookback == "episode"@ ==> mentions(
                r.summary,
                "since the episode opened "@ + span_words(actual) + " ago"@,
            )
            &&& lookback != "episode"@ ==> mentions(
                r.summary,
                "vs "@ + span_words(actual) + " ago"@,
            )
            &&& short ==> mentions(
                r.summary,
                " (asked for "@ + span_words(r.requested_lookback_secs) + ")"@,
            )
        }),
{
    let r = c.deltas(lookback, episode_id, given);
    law_the_anchor(sample_times(c.samples), c.then_at);
    let clauses = clauses_of(
        r.verdict,
        r.dimensions,
        r.consumers,
        r.observation_gap_secs,
        c.swap_size(),
        c.memory_size(),
        c.config,
    );
    let none = Seq::<char>::empty();
    let actual = r.actual_lookback_secs->0;
    let short = actual + c.config.sample_interval_secs < r.requested_lookback_secs;
    let asked = " (asked for "@ + span_words(r.requested_lookback_secs) + ")"@;
    let first = if lookback == "episode"@ {
        "since the episode opened "@ + span_words(actual) + " ago"@
    } else {
        "vs "@ + span_words(actual) + " ago"@
    };
    let head = super::deltas::head_text(
        lookback,
        r.requested_lookback_secs,
        actual,
        c.config,
    );
    let body = joined(clauses, "; "@);
    assert(r.summary =~= (head + ": "@) + body + "."@);
    lemma_joined_mentions(clauses, "; "@, i);
    lemma_mentions_inside(body, clauses[i], head + ": "@, "."@);
    let rest = ": "@ + body + "."@;
    if short {
        assert(head =~= first + asked);
        assert(r.summary =~= none + first + (asked + rest));
        assert(r.summary =~= first + asked + rest);
    } else {
        assert(r.summary =~= none + first + rest);
    }
}

proof fn lemma_movers_told(s: Seq<ConsumerDeltaView>, least: int, limit: nat, k: int)
    requires
        0 <= k < s.len(),
        size_of_change(s[k]) >= least,
    ensures
        movers(s, least, limit).contains(s[k]) || movers(s, least, limit).len() == limit,
    decreases s.len(),
{
    let front = movers(s.drop_last(), least, limit);
    let all = movers(s, least, limit);
    lemma_movers_bound(s.drop_last(), least, limit);
    if k == s.len() - 1 {
        if front.len() < limit {
            assert(all[front.len() as int] == s[k]);
        }
    } else {
        lemma_movers_told(s.drop_last(), least, limit, k);
        if front.contains(s[k]) {
            let i = choose|i: int| 0 <= i < front.len() && front[i] == s[k];
            assert(all[i] == s[k]);
        }
    }
}

proof fn lemma_movers_bound(s: Seq<ConsumerDeltaView>, least: int, limit: nat)
    ensures
        movers(s, least, limit).len() <= limit,
        forall|i: int|
            0 <= i < movers(s, least, limit).len() ==> s.contains(
                #[trigger] movers(s, least, limit)[i],
            ) && size_of_change(movers(s, least, limit)[i]) >= least,
    decreases s.len(),
{
    if s.len() > 0 {
        let less = s.drop_last();
        let front = movers(less, least, limit);
        let all = movers(s, least, limit);
        lemma_movers_bound(less, least, limit);
        assert forall|i: int| 0 <= i < all.len() implies s.contains(#[trigger] all[i])
            && size_of_change(all[i]) >= least by {
            if i < front.len() {
                assert(all[i] == front[i]);
                let k = choose|k: int| 0 <= k < less.len() && less[k] == front[i];
                assert(s[k] == all[i]);
            } else {
                assert(s[s.len() - 1] == all[i]);
            }
        }
    }
}

/// The clauses begin with the consumers that moved enough, as many as the limit
/// allows: one that moved enough is told unless the limit is reached by others that
/// did, and one that did not is not. After them comes the level, from what to
/// what, or what it is where there was none to compare with.
pub proof fn law_the_clauses_tell_who_moved(
    verdict: Option<VerdictDeltaView>,
    dimensions: Seq<DimensionDeltaView>,
    consumers: Seq<ConsumerDeltaView>,
    gap: Option<u64>,
    swap_size: Seq<char>,
    memory_size: Seq<char>,
    config: PressureConfig,
    k: int,
)
    requires
        0 <= k < consumers.len(),
    ensures
        ({
            let clauses = clauses_of(
                verdict,
                dimensions,
                consumers,
                gap,
                swap_size,
                memory_size,
                config,
            );
            let told = movers(
                consumers,
                config.deltas_min_consumer_bytes as int,
                config.who_limit as nat,
            );
            let change = consumers[k].delta_bytes as int;
            let enough = change >= config.deltas_min_consumer_bytes || -change
                >= config.deltas_min_consumer_bytes;
            &&& told.len() <= config.who_limit
            &&& told.len() <= clauses.len()
            &&& forall|i: int|
                0 <= i < told.len() ==> clauses[i] == (#[trigger] told[i]).detail
                    && consumers.contains(told[i])
            &&& enough ==> told.contains(consumers[k]) || told.len() == config.who_limit
            &&& !enough ==> !told.contains(consumers[k])
            &&& verdict matches Some(v) ==> clauses.contains(
                if v.then_level == Level::Checking {
                    "no trustworthy verdict at the anchor; pressure now "@
                        + v.now_level.name_text()
                } else {
                    v.detail
                },
            )
        }),
{
    let least = config.deltas_min_consumer_bytes as int;
    let limit = config.who_limit as nat;
    let told = movers(consumers, least, limit);
    let clauses = clauses_of(
        verdict,
        dimensions,
        consumers,
        gap,
        swap_size,
        memory_size,
        config,
    );
    lemma_movers_bound(consumers, least, limit);
    if size_of_change(consumers[k]) >= least {
        lemma_movers_told(consumers, least, limit, k);
    } else if told.contains(consumers[k]) {
        let i = choose|i: int| 0 <= i < told.len() && told[i] == consumers[k];
        assert(size_of_change(told[i]) >= least);
    }
    assert forall|i: int| 0 <= i < told.len() implies clauses[i] == (#[trigger] told[i]).detail
        && consumers.contains(told[i]) by {
        assert(details_of(told)[i] == told[i].detail);
    }
    if let Some(v) = verdict {
        let at = clauses.len() - if gap is Some {
            2int
        } else {
            1int
        };
        assert(clauses[at] == if v.then_level == Level::Checking {
            "no trustworthy verdict at the anchor; pressure now "@ + v.now_level.name_text()
        } else {
            v.detail
        });
    }
}

/// Whether some clause says a thing.
pub open spec fn says(clauses: Seq<Seq<char>>, text: Seq<char>) -> bool {
    exists|i: int| 0 <= i < clauses.len() && mentions(#[trigger] clauses[i], text)
}

proof fn lemma_delta_about(s: Seq<DimensionDeltaView>, d: Dimension, k: int)
    requires
        0 <= k < s.len(),
        s[k].dimension == d,
        forall|j: int| 0 <= j < k ==> (#[trigger] s[j]).dimension != d,
    ensures
        delta_about(s, d) == Some(s[k]),
    decreases s.len(),
{
    if k > 0 {
        assert(s[0].dimension != d);
        let rest = s.drop_first();
        assert forall|j: int| 0 <= j < k - 1 implies (#[trigger] rest[j]).dimension != d by {
            assert(s[j + 1].dimension != d);
        }
        lemma_delta_about(rest, d, k - 1);
    }
}

/// Swap and available memory have a clause where they moved enough: swap grew or
/// shrank, memory rose or fell, by their sizes.
pub proof fn law_swap_and_memory_are_told(
    verdict: Option<VerdictDeltaView>,
    dimensions: Seq<DimensionDeltaView>,
    consumers: Seq<ConsumerDeltaView>,
    gap: Option<u64>,
    swap_size: Seq<char>,
    memory_size: Seq<char>,
    config: PressureConfig,
    k: int,
)
    requires
        0 <= k < dimensions.len(),
        forall|j: int|
            0 <= j < k ==> (#[trigger] dimensions[j]).dimension != dimensions[k].dimension,
        !dimensions[k].delta.nan(),
        real_of(config.deltas_min_consumer_bytes as nat).at_most(dimensions[k].delta.size()),
    ensures
        ({
            let clauses = clauses_of(
                verdict,
                dimensions,
                consumers,
                gap,
                swap_size,
                memory_size,
                config,
            );
            let x = dimensions[k];
            let up = (Real { bits: 0 }).below(x.delta);
            &&& x.dimension == Dimension::Swap && up ==> says(clauses, "grew"@ + " "@ + swap_size)
            &&& x.dimension == Dimension::Swap && !up ==> says(
                clauses,
                "shrank"@ + " "@ + swap_size,
            )
            &&& x.dimension == Dimension::Memory && up ==> says(
                clauses,
                "rose"@ + " "@ + memory_size,
            )
            &&& x.dimension == Dimension::Memory && !up ==> says(
                clauses,
                "fell"@ + " "@ + memory_size,
            )
        }),
{
    let x = dimensions[k];
    let least = config.deltas_min_consumer_bytes as int;
    let moved = movers(consumers, least, config.who_limit as nat);
    let freed = freed_any(moved);
    let worse = verdict matches Some(v) && v.now_level.height() >= v.then_level.height();
    let start = details_of(moved);
    let swap = super::deltas::memory_clause(
        start,
        Dimension::Swap,
        "grew"@,
        "shrank"@,
        swap_size,
        dimensions,
        freed,
        worse,
        least,
    );
    let memory = super::deltas::memory_clause(
        swap,
        Dimension::Memory,
        "rose"@,
        "fell"@,
        memory_size,
        dimensions,
        freed,
        worse,
        least,
    );
    let clauses = clauses_of(
        verdict,
        dimensions,
        consumers,
        gap,
        swap_size,
        memory_size,
        config,
    );
    lemma_delta_about(dimensions, x.dimension, k);
    let up = super::who::zero().below(x.delta);
    let none = Seq::<char>::empty();
    let still = if freed && worse && ((x.dimension == Dimension::Swap) == up) {
        "still "@
    } else {
        ""@
    };
    let head = super::deltas::noun_text(x.dimension) + " "@ + still;
    if x.dimension == Dimension::Swap {
        let at = start.len() as int;
        assert(swap.len() == at + 1);
        assert(memory[at] == swap[at]);
        assert(clauses[at] == swap[at]);
        let verb = if up {
            "grew"@
        } else {
            "shrank"@
        };
        assert(clauses[at] =~= head + (verb + " "@ + swap_size) + none);
    }
    if x.dimension == Dimension::Memory {
        let at = swap.len() as int;
        assert(memory.len() == at + 1);
        assert(clauses[at] == memory[at]);
        let verb = if up {
            "rose"@
        } else {
            "fell"@
        };
        assert(clauses[at] =~= head + (verb + " "@ + memory_size) + none);
    }
}

/// How far a consumer moved, either way.
pub open spec fn distance(x: ConsumerDeltaView) -> int {
    if x.delta_bytes < 0 {
        -x.delta_bytes
    } else {
        x.delta_bytes as int
    }
}

/// The consumers that moved furthest come first, whichever way they moved, and those
/// that moved equally far by their names.
pub proof fn law_the_biggest_movers_come_first(
    c: Comparison,
    lookback: Seq<char>,
    episode_id: Option<u128>,
    given: Option<SummaryView>,
    i: int,
    j: int,
)
    requires
        0 <= i < j < c.deltas(lookback, episode_id, given).consumers.len(),
    ensures
        ({
            let s = c.deltas(lookback, episode_id, given).consumers;
            &&& distance(s[i]) >= distance(s[j])
            &&& distance(s[i]) == distance(s[j]) ==> !sorts_before(s[j].name, s[i].name)
        }),
{
    let (then, now) = c.summaries(given)->0;
    law_movers_come_first(then, now);
    let rows = ranked_rows(then, now);
    assert(rows[i].moved() >= rows[j].moved());
}

/// A consumer is told by what it did: one that fell by what it freed, one that grew
/// by what it took, one that did neither by what it holds; and its counts are told
/// exactly where they differ.
pub proof fn law_a_consumer_is_told_by_what_it_did(
    c: Comparison,
    lookback: Seq<char>,
    episode_id: Option<u128>,
    given: Option<SummaryView>,
    k: int,
)
    requires
        0 <= k < c.deltas(lookback, episode_id, given).consumers.len(),
        k < c.numbers.sizes@.len(),
    ensures
        ({
            let x = c.deltas(lookback, episode_id, given).consumers[k];
            let size = c.numbers.sizes@[k]@;
            let counts = if x.then_count == x.now_count {
                Seq::empty()
            } else {
                " (×"@ + decimal(x.then_count as nat) + " → ×"@ + decimal(x.now_count as nat) + ")"@
            };
            &&& x.now_bytes < x.then_bytes ==> x.detail == "freed "@ + size + " from "@ + x.name
                + counts
            &&& x.now_bytes > x.then_bytes ==> x.detail == x.name + " grew "@ + size + counts
            &&& x.now_bytes == x.then_bytes ==> x.detail == x.name + " unchanged at "@ + size
                + counts
        }),
{
}

/// The hole that is told of a comparison is the widest that any of its dimensions
/// has, and a dimension's is the distance between two neighbours among the points
/// that are compared.
pub proof fn law_the_hole_of_a_comparison(
    c: Comparison,
    lookback: Seq<char>,
    episode_id: Option<u128>,
    given: Option<SummaryView>,
)
    ensures
        ({
            let r = c.deltas(lookback, episode_id, given);
            &&& r.observation_gap_secs is None <==> forall|i: int|
                0 <= i < r.dimensions.len() ==> (
                #[trigger] r.dimensions[i]).observation_gap_secs is None
            &&& r.observation_gap_secs matches Some(g) ==> {
                &&& forall|i: int|
                    0 <= i < r.dimensions.len() ==> ((
                    #[trigger] r.dimensions[i]).observation_gap_secs matches Some(x) ==> x <= g)
                &&& exists|i: int|
                    0 <= i < r.dimensions.len() && (
                    #[trigger] r.dimensions[i]).observation_gap_secs == Some(g)
            }
            &&& forall|k: int|
                0 <= k < r.dimensions.len() ==> has_its_gap(c, #[trigger] r.dimensions[k])
        }),
{
    let r = c.deltas(lookback, episode_id, given);
    law_the_widest_hole_is_told(r.dimensions);
    lemma_dimensions(c, 14);
    assert forall|k: int| 0 <= k < r.dimensions.len() implies has_its_gap(
        c,
        #[trigger] r.dimensions[k],
    ) by {
        let x = r.dimensions[k];
        let d = x.dimension;
        let f = c.numbers.figures@[d.place()];
        let points = points_for(d, c.samples, c.censuses, c.config, f.values@);
        let ceiling = ceiling_over(points, c.config.ceiling_of(d), f.calibrated_secs);
        assert(c.dimension(d) == Some(x));
        let times = point_times(points);
        law_the_anchor(times, c.then_at);
        let i = anchor(times, c.then_at)->0;
        law_a_reported_gap_is_there(points, ceiling, i, points.len() - 1);
        if let Some(g) = x.observation_gap_secs {
            let j = choose|j: int| i < j <= points.len() - 1 && #[trigger] interval(points, j) == g;
            assert(span_secs(points[j].at, points[j - 1].at) == g);
        }
    }
}

/// The gap of a compared dimension lies between two neighbours of its points.
pub open spec fn has_its_gap(c: Comparison, x: DimensionDeltaView) -> bool {
    let f = c.numbers.figures@[x.dimension.place()];
    let points = points_for(x.dimension, c.samples, c.censuses, c.config, f.values@);
    x.observation_gap_secs matches Some(g) ==> exists|j: int|
        0 < j < points.len() && span_secs((#[trigger] points[j]).at, points[j - 1].at) == g
}

/// A compared dimension is told from what to what, the kernel's levels by their
/// names. Sizes are told with the sign of the change, other numbers with the change.
pub proof fn law_a_change_is_told(
    c: Comparison,
    lookback: Seq<char>,
    episode_id: Option<u128>,
    given: Option<SummaryView>,
    k: int,
)
    requires
        0 <= k < c.deltas(lookback, episode_id, given).dimensions.len(),
    ensures
        ({
            let x = c.deltas(lookback, episode_id, given).dimensions[k];
            let d = x.dimension;
            let w = c.numbers.figures@[d.place()].words;
            let bytes = d == Dimension::Memory || d == Dimension::Swap || d == Dimension::Disk || d
                == Dimension::Compressor;
            let arrow = " → "@;
            &&& bytes ==> mentions(x.detail, w.was@ + arrow + w.now@) && mentions(
                x.detail,
                (if (Real { bits: 0 }).at_most(x.delta) {
                    "(+"@
                } else {
                    "(−"@
                }) + w.size@,
            )
            &&& d == Dimension::Thermal ==> mentions(
                x.detail,
                thermal_text(w.then_level) + arrow + thermal_text(w.now_level),
            )
            &&& d == Dimension::KernelPressure ==> mentions(
                x.detail,
                kernel_text(w.then_level) + arrow + kernel_text(w.now_level),
            )
            &&& d == Dimension::Uptime ==> mentions(x.detail, w.was@ + arrow + w.now@)
            &&& d == Dimension::Thrash || d == Dimension::Agents || d == Dimension::Orphans || d
                == Dimension::Jetsam ==> mentions(x.detail, w.was@ + arrow + w.now@) && mentions(
                x.detail,
                w.change@,
            )
            &&& d == Dimension::Cpu || d == Dimension::Corporate || d == Dimension::KernelFree
                ==> mentions(x.detail, w.was@ + "% → "@ + w.now@ + "%"@) && mentions(
                x.detail,
                w.change@,
            )
        }),
{
    lemma_dimensions(c, 14);
    let x = c.deltas(lookback, episode_id, given).dimensions[k];
    let d = x.dimension;
    let f = c.numbers.figures@[d.place()];
    assert(c.dimension(d) == Some(x));
    lemma_change_words(d, x.delta, f.words);
}

proof fn lemma_change_words(d: Dimension, delta: Real, w: super::deltas::DeltaWords)
    ensures
        ({
            let text = dimension_text(d, delta, w);
            let bytes = d == Dimension::Memory || d == Dimension::Swap || d == Dimension::Disk || d
                == Dimension::Compressor;
            let arrow = " → "@;
            &&& bytes ==> mentions(text, w.was@ + arrow + w.now@) && mentions(
                text,
                (if (Real { bits: 0 }).at_most(delta) {
                    "(+"@
                } else {
                    "(−"@
                }) + w.size@,
            )
            &&& d == Dimension::Thermal ==> mentions(
                text,
                thermal_text(w.then_level) + arrow + thermal_text(w.now_level),
            )
            &&& d == Dimension::KernelPressure ==> mentions(
                text,
                kernel_text(w.then_level) + arrow + kernel_text(w.now_level),
            )
            &&& d == Dimension::Uptime ==> mentions(text, w.was@ + arrow + w.now@)
            &&& d == Dimension::Thrash || d == Dimension::Agents || d == Dimension::Orphans || d
                == Dimension::Jetsam ==> mentions(text, w.was@ + arrow + w.now@) && mentions(
                text,
                w.change@,
            )
            &&& d == Dimension::Cpu || d == Dimension::Corporate || d == Dimension::KernelFree
                ==> mentions(text, w.was@ + "% → "@ + w.now@ + "%"@) && mentions(text, w.change@)
        }),
{
    let head = super::deltas::noun_text(d) + " "@;
    let arrow = " → "@;
    match d {
        Dimension::Memory | Dimension::Swap | Dimension::Disk | Dimension::Compressor => {
            lemma_size_words(head, w.was@, w.now@, w.size@, zero().at_most(delta));
        },
        Dimension::Thermal => {
            lemma_pair_words(
                head,
                thermal_text(w.then_level),
                arrow,
                thermal_text(w.now_level),
                Seq::empty(),
            );
            assert(dimension_text(d, delta, w) + Seq::<char>::empty() =~= dimension_text(
                d,
                delta,
                w,
            ));
        },
        Dimension::KernelPressure => {
            lemma_pair_words(
                head,
                kernel_text(w.then_level),
                arrow,
                kernel_text(w.now_level),
                Seq::empty(),
            );
            assert(dimension_text(d, delta, w) + Seq::<char>::empty() =~= dimension_text(
                d,
                delta,
                w,
            ));
        },
        Dimension::Uptime => {
            lemma_pair_words(head, w.was@, arrow, w.now@, " days"@);
        },
        Dimension::Thrash => {
            lemma_count_words(head, w.was@, arrow, w.now@, " swap ops/sec ("@, w.change@, ")"@);
        },
        Dimension::Agents | Dimension::Orphans | Dimension::Jetsam => {
            lemma_count_words(head, w.was@, arrow, w.now@, " ("@, w.change@, ")"@);
        },
        Dimension::Cpu => {
            lemma_percent_splits();
            lemma_share_words(head, w.was@, w.now@, "% busy ("@, " busy ("@, w.change@, " pts)"@);
        },
        Dimension::Corporate => {
            lemma_percent_splits();
            lemma_share_words(
                head,
                w.was@,
                w.now@,
                "% of one core ("@,
                " of one core ("@,
                w.change@,
                ")"@,
            );
        },
        Dimension::KernelFree => {
            lemma_percent_splits();
            lemma_share_words(head, w.was@, w.now@, "% ("@, " ("@, w.change@, " pts)"@);
        },
    }
}

proof fn lemma_percent_splits()
    ensures
        "% busy ("@ == "%"@ + " busy ("@,
        "% of one core ("@ == "%"@ + " of one core ("@,
        "% ("@ == "%"@ + " ("@,
{
    reveal_strlit("%");
    reveal_strlit("% busy (");
    reveal_strlit(" busy (");
    reveal_strlit("% of one core (");
    reveal_strlit(" of one core (");
    reveal_strlit("% (");
    reveal_strlit(" (");
    assert("% busy ("@ =~= "%"@ + " busy ("@);
    assert("% of one core ("@ =~= "%"@ + " of one core ("@);
    assert("% ("@ =~= "%"@ + " ("@);
}

proof fn lemma_pair_words(
    head: Seq<char>,
    was: Seq<char>,
    arrow: Seq<char>,
    now: Seq<char>,
    tail: Seq<char>,
)
    ensures
        mentions(head + was + arrow + now + tail, was + arrow + now),
{
    assert(head + was + arrow + now + tail =~= head + (was + arrow + now) + tail);
}

proof fn lemma_count_words(
    head: Seq<char>,
    was: Seq<char>,
    arrow: Seq<char>,
    now: Seq<char>,
    middle: Seq<char>,
    change: Seq<char>,
    tail: Seq<char>,
)
    ensures
        mentions(head + was + arrow + now + middle + change + tail, was + arrow + now),
        mentions(head + was + arrow + now + middle + change + tail, change),
{
    let text = head + was + arrow + now + middle + change + tail;
    assert(text =~= head + (was + arrow + now) + (middle + change + tail));
    assert(text =~= (head + was + arrow + now + middle) + change + tail);
}

proof fn lemma_share_words(
    head: Seq<char>,
    was: Seq<char>,
    now: Seq<char>,
    middle: Seq<char>,
    rest: Seq<char>,
    change: Seq<char>,
    tail: Seq<char>,
)
    requires
        middle == "%"@ + rest,
    ensures
        mentions(
            head + was + "% → "@ + now + middle + change + tail,
            was + "% → "@ + now + "%"@,
        ),
        mentions(head + was + "% → "@ + now + middle + change + tail, change),
{
    let text = head + was + "% → "@ + now + middle + change + tail;
    assert(text =~= head + (was + "% → "@ + now + "%"@) + (rest + change + tail));
    assert(text =~= (head + was + "% → "@ + now + middle) + change + tail);
}

proof fn lemma_size_words(
    head: Seq<char>,
    was: Seq<char>,
    now: Seq<char>,
    size: Seq<char>,
    more: bool,
)
    ensures
        ({
            let sign = if more {
                "+"@
            } else {
                "−"@
            };
            let text = head + was + " → "@ + now + " ("@ + (sign + size) + ")"@;
            &&& mentions(text, was + " → "@ + now)
            &&& mentions(
                text,
                (if more {
                    "(+"@
                } else {
                    "(−"@
                }) + size,
            )
        }),
{
    reveal_strlit(" (");
    reveal_strlit("(+");
    reveal_strlit("(−");
    reveal_strlit("+");
    reveal_strlit("−");
    reveal_strlit(" ");
    let sign = if more {
        "+"@
    } else {
        "−"@
    };
    let open = if more {
        "(+"@
    } else {
        "(−"@
    };
    let text = head + was + " → "@ + now + " ("@ + (sign + size) + ")"@;
    assert(" ("@ + sign =~= " "@ + open);
    assert(text =~= head + (was + " → "@ + now) + (" ("@ + sign + size + ")"@));
    assert(text =~= (head + was + " → "@ + now) + (" ("@ + sign) + (size + ")"@));
    assert(text =~= (head + was + " → "@ + now + " "@) + (open + size) + ")"@);
}

/// How many of the first `k` consumers moved by at least so much.
pub open spec fn enough_before(s: Seq<ConsumerDeltaView>, least: int, k: int) -> nat
    decreases k,
{
    if k <= 0 {
        0
    } else {
        enough_before(s, least, k - 1) + if distance(s[k - 1]) >= least {
            1nat
        } else {
            0nat
        }
    }
}

/// The limit is filled from the front: whoever moved enough is told in turn, after
/// those before that did, until as many are told as the limit allows.
pub proof fn law_nobody_is_passed_over(s: Seq<ConsumerDeltaView>, least: int, limit: nat, k: int)
    requires
        0 <= k < s.len(),
        distance(s[k]) >= least,
    ensures
        ({
            let told = movers(s, least, limit);
            let before = enough_before(s, least, k) as int;
            &&& before < limit ==> told.len() > before && told[before] == s[k]
            &&& before >= limit ==> told.len() == limit
        }),
{
    lemma_enough_before(s, least, limit, k);
}

proof fn lemma_enough_before(s: Seq<ConsumerDeltaView>, least: int, limit: nat, k: int)
    requires
        0 <= k < s.len(),
        distance(s[k]) >= least,
    ensures
        ({
            let told = movers(s, least, limit);
            let before = enough_before(s, least, k) as int;
            &&& before < limit ==> told.len() > before && told[before] == s[k]
            &&& before >= limit ==> told.len() == limit
        }),
    decreases s.len(),
{
    let front = s.drop_last();
    lemma_movers_len(front, least, limit);
    lemma_enough_alike(s, front, least, k);
    if k < front.len() {
        lemma_enough_before(front, least, limit, k);
    }
}

proof fn lemma_enough_alike(
    s: Seq<ConsumerDeltaView>,
    t: Seq<ConsumerDeltaView>,
    least: int,
    k: int,
)
    requires
        k <= t.len(),
        t == s.drop_last(),
        s.len() > 0,
    ensures
        enough_before(s, least, k) == enough_before(t, least, k),
    decreases k,
{
    if k > 0 {
        lemma_enough_alike(s, t, least, k - 1);
    }
}

proof fn lemma_movers_len(s: Seq<ConsumerDeltaView>, least: int, limit: nat)
    ensures
        ({
            let all = enough_before(s, least, s.len() as int);
            movers(s, least, limit).len() == if all < limit {
                all
            } else {
                limit
            }
        }),
    decreases s.len(),
{
    if s.len() > 0 {
        let front = s.drop_last();
        lemma_movers_len(front, least, limit);
        lemma_enough_alike(s, front, least, front.len() as int);
    }
}

/// The first comparison of a dimension is at `k`.
pub open spec fn is_first_about(s: Seq<DimensionDeltaView>, d: Dimension, k: int) -> bool {
    &&& 0 <= k < s.len()
    &&& s[k].dimension == d
    &&& forall|j: int| 0 <= j < k ==> (#[trigger] s[j]).dimension != d
}

/// Whether swap or memory moved enough to be told.
pub open spec fn moved_enough(
    dimensions: Seq<DimensionDeltaView>,
    d: Dimension,
    config: PressureConfig,
) -> bool {
    exists|k: int| #[trigger]
        is_first_about(dimensions, d, k) && !dimensions[k].delta.nan() && real_of(
            config.deltas_min_consumer_bytes as nat,
        ).at_most(dimensions[k].delta.size())
}

proof fn lemma_delta_found(s: Seq<DimensionDeltaView>, d: Dimension)
    ensures
        delta_about(s, d) matches Some(x) ==> exists|k: int| #[trigger]
            is_first_about(s, d, k) && s[k] == x,
    decreases s.len(),
{
    if s.len() > 0 {
        if s[0].dimension == d {
            assert(is_first_about(s, d, 0));
        } else {
            let rest = s.drop_first();
            lemma_delta_found(rest, d);
            if let Some(x) = delta_about(rest, d) {
                let k = choose|k: int| #[trigger] is_first_about(rest, d, k) && rest[k] == x;
                assert(s[k + 1] == x);
                assert forall|j: int| 0 <= j < k + 1 implies (#[trigger] s[j]).dimension != d by {
                    if j > 0 {
                        assert(rest[j - 1] == s[j]);
                    }
                }
                assert(is_first_about(s, d, k + 1));
            }
        }
    }
}

proof fn lemma_moved_enough(
    dimensions: Seq<DimensionDeltaView>,
    d: Dimension,
    config: PressureConfig,
)
    ensures
        moved_enough(dimensions, d, config) <==> (delta_about(dimensions, d) matches Some(x)
            && reaches(x.delta, config.deltas_min_consumer_bytes as int)),
{
    lemma_delta_found(dimensions, d);
    if moved_enough(dimensions, d, config) {
        let k = choose|k: int| #[trigger]
            is_first_about(dimensions, d, k) && !dimensions[k].delta.nan() && real_of(
                config.deltas_min_consumer_bytes as nat,
            ).at_most(dimensions[k].delta.size());
        lemma_delta_about(dimensions, d, k);
    }
}

/// "Still" is said of swap that grew or memory that fell, and only where somebody
/// who is told freed something and the machine got no better.
pub proof fn law_when_still_is_said(
    verdict: Option<VerdictDeltaView>,
    dimensions: Seq<DimensionDeltaView>,
    consumers: Seq<ConsumerDeltaView>,
    gap: Option<u64>,
    swap_size: Seq<char>,
    memory_size: Seq<char>,
    config: PressureConfig,
    k: int,
)
    requires
        0 <= k < dimensions.len(),
        dimensions[k].dimension == Dimension::Swap,
        forall|j: int| 0 <= j < k ==> (#[trigger] dimensions[j]).dimension != Dimension::Swap,
        !dimensions[k].delta.nan(),
        real_of(config.deltas_min_consumer_bytes as nat).at_most(dimensions[k].delta.size()),
    ensures
        ({
            let clauses = clauses_of(
                verdict,
                dimensions,
                consumers,
                gap,
                swap_size,
                memory_size,
                config,
            );
            let told = movers(
                consumers,
                config.deltas_min_consumer_bytes as int,
                config.who_limit as nat,
            );
            let grew = (Real { bits: 0 }).below(dimensions[k].delta);
            let freed = exists|i: int| 0 <= i < told.len() && (#[trigger] told[i]).delta_bytes < 0;
            let no_better = verdict matches Some(v) && v.now_level.height()
                >= v.then_level.height();
            clauses[told.len() as int] == "swap"@ + " "@ + (if grew && freed && no_better {
                "still "@
            } else {
                ""@
            }) + (if grew {
                "grew"@
            } else {
                "shrank"@
            }) + " "@ + swap_size
        }),
{
    lemma_delta_about(dimensions, Dimension::Swap, k);
    let told = movers(
        consumers,
        config.deltas_min_consumer_bytes as int,
        config.who_limit as nat,
    );
    assert(details_of(told).len() == told.len());
}

/// One where something holds, and none otherwise.
pub open spec fn one_if(b: bool) -> int {
    if b {
        1
    } else {
        0
    }
}

proof fn lemma_memory_clause(
    clauses: Seq<Seq<char>>,
    d: Dimension,
    up: Seq<char>,
    down: Seq<char>,
    size: Seq<char>,
    dimensions: Seq<DimensionDeltaView>,
    freed: bool,
    worse: bool,
    config: PressureConfig,
)
    ensures
        super::deltas::memory_clause(
            clauses,
            d,
            up,
            down,
            size,
            dimensions,
            freed,
            worse,
            config.deltas_min_consumer_bytes as int,
        ).len() == clauses.len() + one_if(moved_enough(dimensions, d, config)),
{
    lemma_moved_enough(dimensions, d, config);
}

/// There is a clause for each consumer that is told, for swap and for memory where
/// they moved enough, for the level where there is one to tell, and for a hole; and
/// one that says that nothing moved exactly where none of the others would be said.
pub proof fn law_there_is_a_clause_for_each(
    verdict: Option<VerdictDeltaView>,
    dimensions: Seq<DimensionDeltaView>,
    consumers: Seq<ConsumerDeltaView>,
    gap: Option<u64>,
    swap_size: Seq<char>,
    memory_size: Seq<char>,
    config: PressureConfig,
)
    ensures
        ({
            let clauses = clauses_of(
                verdict,
                dimensions,
                consumers,
                gap,
                swap_size,
                memory_size,
                config,
            );
            let told = movers(
                consumers,
                config.deltas_min_consumer_bytes as int,
                config.who_limit as nat,
            ).len();
            let n = told + one_if(moved_enough(dimensions, Dimension::Swap, config)) + one_if(
                moved_enough(dimensions, Dimension::Memory, config),
            ) + one_if(verdict is Some);
            &&& n > 0 ==> clauses.len() == n + one_if(gap is Some)
            &&& n == 0 ==> clauses.len() == 1 + one_if(gap is Some) && clauses[0]
                == "nothing moved"@
        }),
{
    let least = config.deltas_min_consumer_bytes as int;
    let moved = movers(consumers, least, config.who_limit as nat);
    let freed = freed_any(moved);
    let worse = verdict matches Some(v) && v.now_level.height() >= v.then_level.height();
    let start = details_of(moved);
    assert(start.len() == moved.len());
    let swap = super::deltas::memory_clause(
        start,
        Dimension::Swap,
        "grew"@,
        "shrank"@,
        swap_size,
        dimensions,
        freed,
        worse,
        least,
    );
    let memory = super::deltas::memory_clause(
        swap,
        Dimension::Memory,
        "rose"@,
        "fell"@,
        memory_size,
        dimensions,
        freed,
        worse,
        least,
    );
    lemma_memory_clause(
        start,
        Dimension::Swap,
        "grew"@,
        "shrank"@,
        swap_size,
        dimensions,
        freed,
        worse,
        config,
    );
    lemma_memory_clause(
        swap,
        Dimension::Memory,
        "rose"@,
        "fell"@,
        memory_size,
        dimensions,
        freed,
        worse,
        config,
    );
    lemma_last_clauses(memory, verdict, gap);
    assert(clauses_of(verdict, dimensions, consumers, gap, swap_size, memory_size, config)
        == ending(memory, verdict, gap));
}

/// The last clauses of a sentence, after some others.
spec fn ending(
    clauses: Seq<Seq<char>>,
    verdict: Option<VerdictDeltaView>,
    gap: Option<u64>,
) -> Seq<Seq<char>> {
    let judged = super::deltas::verdict_clause(clauses, verdict);
    let said = if judged.len() == 0 {
        judged.push("nothing moved"@)
    } else {
        judged
    };
    match gap {
        Some(g) => said.push(
            "not observed for "@ + span_words(g) + " in between — this arithmetic spans a hole"@,
        ),
        None => said,
    }
}

proof fn lemma_last_clauses(
    clauses: Seq<Seq<char>>,
    verdict: Option<VerdictDeltaView>,
    gap: Option<u64>,
)
    ensures
        ({
            let n = clauses.len() + one_if(verdict is Some);
            let all = ending(clauses, verdict, gap);
            &&& n > 0 ==> all.len() == n + one_if(gap is Some)
            &&& n == 0 ==> all.len() == 1 + one_if(gap is Some) && all[0] == "nothing moved"@
        }),
{
}

/// A sentence begins with how far back it looked, and mentions what was asked for
/// only where the history is shorter by more than a sample interval.
pub proof fn law_how_a_sentence_begins(
    c: Comparison,
    lookback: Seq<char>,
    episode_id: Option<u128>,
    given: Option<SummaryView>,
)
    requires
        c.samples.len() > 0,
    ensures
        ({
            let r = c.deltas(lookback, episode_id, given);
            let actual = r.actual_lookback_secs->0;
            let short = actual + c.config.sample_interval_secs < r.requested_lookback_secs;
            let first = (if lookback == "episode"@ {
                "since the episode opened "@
            } else {
                "vs "@
            }) + span_words(actual) + " ago"@ + (if short {
                " (asked for "@ + span_words(r.requested_lookback_secs) + ")"@
            } else {
                Seq::empty()
            }) + ": "@;
            r.summary.len() >= first.len() && r.summary.take(first.len() as int) == first
        }),
{
    law_the_anchor(sample_times(c.samples), c.then_at);
    let r = c.deltas(lookback, episode_id, given);
    let actual = r.actual_lookback_secs->0;
    let head = super::deltas::head_text(lookback, r.requested_lookback_secs, actual, c.config);
    let short = actual + c.config.sample_interval_secs < r.requested_lookback_secs;
    let start = (if lookback == "episode"@ {
        "since the episode opened "@
    } else {
        "vs "@
    }) + span_words(actual) + " ago"@;
    let asked = if short {
        " (asked for "@ + span_words(r.requested_lookback_secs) + ")"@
    } else {
        Seq::<char>::empty()
    };
    assert(head =~= start + asked);
    let first = start + asked + ": "@;
    assert(r.summary.take(first.len() as int) =~= first);
}

/// Available memory is told like swap: "still" where it fell although somebody who
/// is told freed something and the machine got no better.
pub proof fn law_when_memory_still_fell(
    verdict: Option<VerdictDeltaView>,
    dimensions: Seq<DimensionDeltaView>,
    consumers: Seq<ConsumerDeltaView>,
    gap: Option<u64>,
    swap_size: Seq<char>,
    memory_size: Seq<char>,
    config: PressureConfig,
    k: int,
)
    requires
        is_first_about(dimensions, Dimension::Memory, k),
        !dimensions[k].delta.nan(),
        real_of(config.deltas_min_consumer_bytes as nat).at_most(dimensions[k].delta.size()),
        forall|j: int|
            0 <= j < dimensions.len() ==> (#[trigger] dimensions[j]).dimension != Dimension::Swap,
    ensures
        ({
            let clauses = clauses_of(
                verdict,
                dimensions,
                consumers,
                gap,
                swap_size,
                memory_size,
                config,
            );
            let told = movers(
                consumers,
                config.deltas_min_consumer_bytes as int,
                config.who_limit as nat,
            );
            let rose = (Real { bits: 0 }).below(dimensions[k].delta);
            let freed = exists|i: int| 0 <= i < told.len() && (#[trigger] told[i]).delta_bytes < 0;
            let no_better = verdict matches Some(v) && v.now_level.height()
                >= v.then_level.height();
            clauses[told.len() as int] == "available memory"@ + " "@ + (if !rose && freed
                && no_better {
                "still "@
            } else {
                ""@
            }) + (if rose {
                "rose"@
            } else {
                "fell"@
            }) + " "@ + memory_size
        }),
{
    lemma_delta_about(dimensions, Dimension::Memory, k);
    lemma_delta_found(dimensions, Dimension::Swap);
    if delta_about(dimensions, Dimension::Swap) is Some {
        let x = delta_about(dimensions, Dimension::Swap)->0;
        let j = choose|j: int| #[trigger]
            is_first_about(dimensions, Dimension::Swap, j) && dimensions[j] == x;
        assert(dimensions[j].dimension != Dimension::Swap);
    }
    let told = movers(
        consumers,
        config.deltas_min_consumer_bytes as int,
        config.who_limit as nat,
    );
    assert(details_of(told).len() == told.len());
}

} // verus!
