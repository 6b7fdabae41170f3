//! One evaluation, complete.
use vstd::prelude::*;

use super::config::{Dimension, PressureConfig, ALL_DIMENSIONS};
use super::episode::{
    lemma_open_episode, lemma_outcome, open_episode, opens, reconcile_episodes,
    reconcile_with_ids, scene_of, AlertEpisode, EpisodeView, Notification, Reconciled, Scene,
};
use super::evaluate::{evaluate, evaluation, newest, Numbers};
use super::headroom::{headroom_of, FreeSlots, Headroom, MachineFacts};
use super::level::Level;
use super::summary::summary_of;
use super::verdict::{attached, Pressure};
use crate::census::Census;
use crate::outside::is_random_id;
use crate::sample::Sample;
use crate::text::views;
use crate::time::Timestamp;

verus! {

broadcast use crate::text::lemma_views_push;

/// The verdict, the decision, and the episode lifecycle advanced against them.
#[derive(Clone, Debug, PartialEq, Eq)]
pub struct Assessment {
    /// The verdict to publish, decorated with the episode record.
    pub pressure: Pressure,
    pub headroom: Headroom,
    /// The episodes that changed: exactly these are written.
    pub episodes: Vec<AlertEpisode>,
    /// What to say, after muting.
    pub notifications: Vec<Notification>,
}

/// The open ones among some episodes.
pub open spec fn open_ones(s: Seq<EpisodeView>) -> Seq<EpisodeView>
    decreases s.len(),
{
    if s.len() == 0 {
        Seq::empty()
    } else {
        let front = open_ones(s.drop_last());
        if s.last().open() {
            front.push(s.last())
        } else {
            front
        }
    }
}

/// The record with one episode written into it: in the place of the first with
/// its identifier, or at the end.
pub open spec fn put(record: Seq<EpisodeView>, e: EpisodeView) -> Seq<EpisodeView>
    decreases record.len(),
{
    if record.len() == 0 {
        seq![e]
    } else if record[0].id == e.id {
        record.update(0, e)
    } else {
        seq![record[0]] + put(record.drop_first(), e)
    }
}

/// The record with some episodes written into it.
pub open spec fn merged(record: Seq<EpisodeView>, changed: Seq<EpisodeView>) -> Seq<EpisodeView>
    decreases changed.len(),
{
    if changed.len() == 0 {
        record
    } else {
        put(merged(record, changed.drop_last()), changed.last())
    }
}

pub open spec fn machine_of(samples: Seq<Sample>) -> Option<MachineFacts> {
    if samples.len() == 0 {
        None
    } else {
        Some(
            MachineFacts {
                cores: samples.last().ncpu,
                mem_total_bytes: samples.last().mem_total_bytes,
            },
        )
    }
}

proof fn lemma_put_at(record: Seq<EpisodeView>, e: EpisodeView, at: int)
    requires
        0 <= at <= record.len(),
        forall|j: int| 0 <= j < at ==> (#[trigger] record[j]).id != e.id,
        at < record.len() ==> record[at].id == e.id,
    ensures
        put(record, e) == if at < record.len() {
            record.update(at, e)
        } else {
            record.push(e)
        },
    decreases record.len(),
{
    if record.len() == 0 {
        assert(seq![e] =~= record.push(e));
    } else if at > 0 {
        assert(record[0].id != e.id);
        let rest = record.drop_first();
        assert forall|j: int| 0 <= j < at - 1 implies (#[trigger] rest[j]).id != e.id by {
            assert(record[j + 1].id != e.id);
        }
        if at < record.len() {
            assert(rest[at - 1] == record[at]);
        }
        lemma_put_at(rest, e, at - 1);
        if at < record.len() {
            assert(seq![record[0]] + rest.update(at - 1, e) =~= record.update(at, e));
        } else {
            assert(seq![record[0]] + rest.push(e) =~= record.push(e));
        }
    }
}

fn put_episode(record: &mut Vec<AlertEpisode>, e: &AlertEpisode)
    ensures
        views(final(record)@) == put(views(old(record)@), e@),
{
    let ghost before = record@;
    let ghost all = views(before);
    let n: usize = record.len();
    let mut at: usize = 0;
    while at < n && record[at].id != e.id
        invariant
            at <= n,
            n == record.len(),
            record@ == before,
            all == views(before),
            forall|j: int| 0 <= j < at ==> (#[trigger] all[j]).id != e.id,
        decreases n - at,
    {
        assert(all[at as int].id == record@[at as int].id);
        at = at + 1;
    }
    proof {
        if at < n {
            assert(all[at as int].id == before[at as int].id);
        }
        lemma_put_at(all, e@, at as int);
    }
    let copy = e.copied();
    if at < n {
        record.set(at, copy);
        assert(views(record@) =~= all.update(at as int, e@));
    } else {
        record.push(copy);
    }
}

fn open_of(recent: &[AlertEpisode]) -> (r: Vec<AlertEpisode>)
    ensures
        views(r@) == open_ones(views(recent@)),
{
    let ghost all = views(recent@);
    let mut out: Vec<AlertEpisode> = Vec::new();
    let mut i: usize = 0;
    assert(views(out@) =~= Seq::empty());
    while i < recent.len()
        invariant
            i <= recent.len(),
            all == views(recent@),
            views(out@) == open_ones(all.take(i as int)),
        decreases recent.len() - i,
    {
        assert(all.take(i + 1).drop_last() =~= all.take(i as int));
        assert(all.take(i + 1).last() == recent[i as int]@);
        if recent[i].is_open() {
            out.push(recent[i].copied());
        }
        i = i + 1;
    }
    assert(all.take(i as int) =~= all);
    out
}

fn copies(recent: &[AlertEpisode]) -> (r: Vec<AlertEpisode>)
    ensures
        views(r@) == views(recent@),
{
    let ghost all = views(recent@);
    let mut out: Vec<AlertEpisode> = Vec::new();
    let mut i: usize = 0;
    while i < recent.len()
        invariant
            i <= recent.len(),
            all == views(recent@),
            views(out@) == all.take(i as int),
        decreases recent.len() - i,
    {
        out.push(recent[i].copied());
        i = i + 1;
        assert(views(out@) =~= all.take(i as int));
    }
    assert(views(out@) =~= all);
    out
}

/// Decorate the verdict with the record as it stands after this tick, and reduce
/// it to a decision.
fn finish(
    pressure: Pressure,
    reconciled: Reconciled,
    recent: &[AlertEpisode],
    now: Timestamp,
    samples: &[Sample],
    slots: FreeSlots,
    config: &PressureConfig,
) -> (r: Assessment)
    ensures
        views(r.episodes@) == views(reconciled.episodes@),
        views(r.notifications@) == views(reconciled.notifications@),
        r.pressure@ == attached(
            pressure@,
            merged(views(recent@), views(reconciled.episodes@)),
            now,
        ),
        r.headroom@ == headroom_of(r.pressure@, machine_of(samples@), slots, *config),
{
    let ghost changed = views(reconciled.episodes@);
    let mut record = copies(recent);
    let mut i: usize = 0;
    assert(changed.take(0) =~= Seq::empty());
    while i < reconciled.episodes.len()
        invariant
            i <= reconciled.episodes.len(),
            changed == views(reconciled.episodes@),
            views(record@) == merged(views(recent@), changed.take(i as int)),
        decreases reconciled.episodes.len() - i,
    {
        assert(changed.take(i + 1).drop_last() =~= changed.take(i as int));
        assert(changed.take(i + 1).last() == reconciled.episodes[i as int]@);
        put_episode(&mut record, &reconciled.episodes[i]);
        i = i + 1;
    }
    assert(changed.take(i as int) =~= changed);
    let mut decorated = pressure;
    decorated.attach_episodes(record.as_slice(), now);
    let machine: Option<MachineFacts> = if samples.len() == 0 {
        None
    } else {
        let s = &samples[samples.len() - 1];
        Some(MachineFacts { cores: s.ncpu, mem_total_bytes: s.mem_total_bytes })
    };
    let headroom = crate::pressure::headroom::derive(&decorated, machine, slots, config);
    Assessment {
        pressure: decorated,
        headroom,
        episodes: reconciled.episodes,
        notifications: reconciled.notifications,
    }
}

/// What an assessment holds, under the identifiers that new episodes got.
pub open spec fn assesses(
    r: Assessment,
    now: Timestamp,
    samples: Seq<Sample>,
    censuses: Seq<Census>,
    recent: Seq<EpisodeView>,
    config: PressureConfig,
    n: Numbers,
    slots: FreeSlots,
    ids: Seq<u128>,
) -> bool {
    let verdict = evaluation(now, samples, censuses, config, n);
    let scene = scene_of(
        open_ones(recent),
        verdict,
        newest(censuses),
        now,
        n.disk.newest_quotient(),
        config,
        ids,
    );
    &&& views(r.episodes@) == scene.episodes()
    &&& views(r.notifications@) == scene.notices()
    &&& r.pressure@ == attached(verdict, merged(recent, scene.episodes()), now)
    &&& r.headroom@ == headroom_of(r.pressure@, machine_of(samples), slots, config)
}

/// `assess` under given identifiers, one per dimension.
pub fn assess_with_ids(
    now: Timestamp,
    samples: &[Sample],
    censuses: &[Census],
    recent_episodes: &[AlertEpisode],
    config: &PressureConfig,
    n: &Numbers,
    slots: FreeSlots,
    ids: &[u128; 14],
) -> (r: Assessment)
    ensures
        assesses(
            r,
            now,
            samples@,
            censuses@,
            views(recent_episodes@),
            *config,
            *n,
            slots,
            ids@,
        ),
{
    let pressure = evaluate(now, samples, censuses, config, n);
    let open = open_of(recent_episodes);
    let census: Option<&Census> = if censuses.len() == 0 {
        None
    } else {
        Some(&censuses[censuses.len() - 1])
    };
    let reconciled = reconcile_with_ids(
        open.as_slice(),
        &pressure,
        census,
        now,
        n.disk.last_quotient(),
        config,
        ids,
    );
    finish(pressure, reconciled, recent_episodes, now, samples, slots, config)
}

/// Evaluate, reconcile the episodes, decorate, decide: in the only order that is
/// right, for the decoration must see the episodes as they are after this tick.
///
/// `recent_episodes` is every open episode and everything active in the last day,
/// in any order. `slots` is the room the two resources have.
pub fn assess(
    now: Timestamp,
    samples: &[Sample],
    censuses: &[Census],
    recent_episodes: &[AlertEpisode],
    config: &PressureConfig,
    n: &Numbers,
    slots: FreeSlots,
) -> (r: Assessment)
    ensures
        exists|ids: Seq<u128>|
            {
                &&& ids.len() == 14
                &&& forall|d: Dimension| #[trigger]
                    opens(
                        open_ones(views(recent_episodes@)),
                        evaluation(now, samples@, censuses@, *config, *n),
                        *config,
                        d,
                    ) ==> is_random_id(ids[d.place()])
                &&& #[trigger] assesses(
                    r,
                    now,
                    samples@,
                    censuses@,
                    views(recent_episodes@),
                    *config,
                    *n,
                    slots,
                    ids,
                )
            },
{
    let pressure = evaluate(now, samples, censuses, config, n);
    let open = open_of(recent_episodes);
    let census: Option<&Census> = if censuses.len() == 0 {
        None
    } else {
        Some(&censuses[censuses.len() - 1])
    };
    let reconciled = reconcile_episodes(
        open.as_slice(),
        &pressure,
        census,
        now,
        n.disk.last_quotient(),
        config,
    );
    let ghost verdict = pressure@;
    let ghost episodes = views(reconciled.episodes@);
    let ghost notices = views(reconciled.notifications@);
    let r = finish(pressure, reconciled, recent_episodes, now, samples, slots, config);
    proof {
        let first = choose|ids: Seq<u128>|
            {
                let scene = #[trigger] scene_of(
                    open_ones(views(recent_episodes@)),
                    verdict,
                    newest(censuses@),
                    now,
                    n.disk.newest_quotient(),
                    *config,
                    ids,
                );
                &&& ids.len() == 14
                &&& forall|d: Dimension| #[trigger]
                    opens(open_ones(views(recent_episodes@)), verdict, *config, d) ==> is_random_id(
                        ids[d.place()],
                    )
                &&& episodes == scene.episodes()
                &&& notices == scene.notices()
            };
        assert(assesses(
            r,
            now,
            samples@,
            censuses@,
            views(recent_episodes@),
            *config,
            *n,
            slots,
            first,
        ));
    }
    r
}

/// No two episodes share an identifier.
pub open spec fn distinct_ids(s: Seq<EpisodeView>) -> bool {
    forall|i: int, j: int| 0 <= i < j < s.len() ==> (#[trigger] s[i]).id != (#[trigger] s[j]).id
}

/// At most one episode of each dimension is open.
pub open spec fn one_open_each(s: Seq<EpisodeView>) -> bool {
    forall|i: int, j: int|
        0 <= i < j < s.len() && (#[trigger] s[i]).open() && (#[trigger] s[j]).open()
            ==> s[i].dimension != s[j].dimension
}

/// New identifiers are new: they are not in the record, and they differ.
pub open spec fn fresh_ids(scene: Scene, recent: Seq<EpisodeView>) -> bool {
    &&& forall|i: int, d: Dimension|
        0 <= i < recent.len() && #[trigger] opens(scene.open, scene.pressure, scene.config, d)
            ==> (#[trigger] recent[i]).id != scene.ids[d.place()]
    &&& forall|d: Dimension, x: Dimension|
        d != x && #[trigger] opens(scene.open, scene.pressure, scene.config, d)
            && #[trigger] opens(scene.open, scene.pressure, scene.config, x)
            ==> scene.ids[d.place()] != scene.ids[x.place()]
}

proof fn lemma_open_ones(s: Seq<EpisodeView>)
    ensures
        forall|i: int|
            0 <= i < s.len() && (#[trigger] s[i]).open() ==> open_ones(s).contains(s[i]),
        forall|i: int|
            0 <= i < open_ones(s).len() ==> (#[trigger] open_ones(s)[i]).open() && s.contains(
                open_ones(s)[i],
            ),
    decreases s.len(),
{
    if s.len() > 0 {
        let front = s.drop_last();
        lemma_open_ones(front);
        let all = open_ones(s);
        let before = open_ones(front);
        assert forall|i: int| 0 <= i < s.len() && (#[trigger] s[i]).open() implies all.contains(
            s[i],
        ) by {
            if i < front.len() {
                assert(front[i] == s[i]);
                assert(before.contains(s[i]));
                let k = choose|k: int| 0 <= k < before.len() && before[k] == s[i];
                assert(all[k] == s[i]);
            } else {
                assert(all[all.len() - 1] == s[i]);
            }
        }
        assert forall|i: int| 0 <= i < all.len() implies (#[trigger] all[i]).open() && s.contains(
            all[i],
        ) by {
            if i < before.len() {
                assert(all[i] == before[i]);
                assert(front.contains(before[i]));
                let k = choose|k: int| 0 <= k < front.len() && front[k] == before[i];
                assert(s[k] == all[i]);
            } else {
                assert(s[s.len() - 1] == all[i]);
            }
        }
    }
}

proof fn lemma_put(record: Seq<EpisodeView>, e: EpisodeView)
    ensures
        (forall|j: int| 0 <= j < record.len() ==> (#[trigger] record[j]).id != e.id) ==> put(
            record,
            e,
        ) == record.push(e),
        forall|at: int|
            0 <= at < record.len() && (#[trigger] record[at]).id == e.id && distinct_ids(record)
                ==> put(record, e) == record.update(at, e),
{
    if forall|j: int| 0 <= j < record.len() ==> (#[trigger] record[j]).id != e.id {
        lemma_put_at(record, e, record.len() as int);
    }
    assert forall|at: int|
        0 <= at < record.len() && (#[trigger] record[at]).id == e.id && distinct_ids(
            record,
        ) implies put(record, e) == record.update(at, e) by {
        assert forall|j: int| 0 <= j < at implies (#[trigger] record[j]).id != e.id by {
            assert(record[j].id != record[at].id);
        }
        lemma_put_at(record, e, at);
    }
}

/// The record as it is after the changes of the first `k` dimensions.
spec fn record_after(scene: Scene, recent: Seq<EpisodeView>, k: int) -> Seq<EpisodeView> {
    merged(recent, scene.all_written(scene.changes(k)))
}

proof fn lemma_record_step(scene: Scene, recent: Seq<EpisodeView>, k: int)
    requires
        0 < k <= 14,
    ensures
        match scene.outcome(ALL_DIMENSIONS@[k - 1]) {
            Some((e, true)) => {
                let c = scene.changes(k).last();
                &&& c.episode == e
                &&& record_after(scene, recent, k) == put(
                    record_after(scene, recent, k - 1),
                    scene.written(c),
                )
            },
            _ => record_after(scene, recent, k) == record_after(scene, recent, k - 1),
        },
{
    let d = ALL_DIMENSIONS@[k - 1];
    match scene.outcome(d) {
        Some((e, true)) => {
            let s = scene.changes(k);
            assert(s.drop_last() =~= scene.changes(k - 1));
            let w = scene.all_written(s);
            assert(w.drop_last() =~= scene.all_written(scene.changes(k - 1)));
            assert(w.last() == scene.written(s.last()));
        },
        _ => {},
    }
}

/// What holds of the record while the changes are written into it, dimension by
/// dimension.
spec fn orderly(scene: Scene, recent: Seq<EpisodeView>, k: int) -> bool {
    let record = record_after(scene, recent, k);
    &&& distinct_ids(record)
    &&& one_open_each(record)
    &&& record.len() >= recent.len()
    &&& forall|i: int|
        0 <= i < recent.len() ==> {
            &&& (#[trigger] record[i]).id == recent[i].id
            &&& record[i].dimension == recent[i].dimension
            &&& recent[i].dimension.place() >= k ==> record[i] == recent[i]
        }
    &&& forall|i: int|
        recent.len() <= i < record.len() ==> {
            let d = (#[trigger] record[i]).dimension;
            &&& d.place() < k
            &&& opens(scene.open, scene.pressure, scene.config, d)
            &&& record[i].id == scene.ids[d.place()]
        }
}

proof fn lemma_orderly(scene: Scene, recent: Seq<EpisodeView>, k: int)
    requires
        0 <= k <= 14,
        scene.open == open_ones(recent),
        distinct_ids(recent),
        one_open_each(recent),
        fresh_ids(scene, recent),
    ensures
        orderly(scene, recent, k),
    decreases k,
{
    if k == 0 {
        assert(scene.all_written(scene.changes(0)) =~= Seq::empty());
        assert(record_after(scene, recent, 0) == recent);
    } else {
        lemma_orderly(scene, recent, k - 1);
        lemma_record_step(scene, recent, k);
        let d = ALL_DIMENSIONS@[k - 1];
        assert(d.place() == k - 1);
        let before = record_after(scene, recent, k - 1);
        let after = record_after(scene, recent, k);
        lemma_open_ones(recent);
        lemma_open_episode(scene.open, d);
        lemma_outcome(scene, d);
        match scene.outcome(d) {
            Some((x, true)) => {
                let c = scene.changes(k).last();
                let e = scene.written(c);
                assert(e.id == x.id && e.dimension == d);
                lemma_put(before, e);
                match open_episode(scene.open, d) {
                    Some(b) => {
                        let m = choose|m: int| 0 <= m < scene.open.len() && scene.open[m] == b;
                        assert(recent.contains(open_ones(recent)[m]));
                        let at = choose|at: int| 0 <= at < recent.len() && recent[at] == b;
                        assert(before[at] == recent[at]);
                        assert(before[at].id == e.id);
                        assert(after == before.update(at, e));
                        assert forall|i: int, j: int|
                            0 <= i < j < after.len() && (#[trigger] after[i]).open() && (
                            #[trigger] after[j]).open() implies after[i].dimension
                            != after[j].dimension by {
                            // The place that changed was open in the same dimension.
                            assert(before[at].open());
                            if i != at {
                                assert(after[i] == before[i]);
                            }
                            if j != at {
                                assert(after[j] == before[j]);
                            }
                            assert(before[i].dimension == after[i].dimension);
                            assert(before[j].dimension == after[j].dimension);
                        }
                        assert forall|i: int, j: int| 0 <= i < j < after.len() implies (
                        #[trigger] after[i]).id != (#[trigger] after[j]).id by {
                            assert(before[i].id == after[i].id);
                            assert(before[j].id == after[j].id);
                        }
                    },
                    None => {
                        assert(opens(scene.open, scene.pressure, scene.config, d));
                        assert(e.id == scene.ids[d.place()]);
                        assert forall|j: int| 0 <= j < before.len() implies (
                        #[trigger] before[j]).id != e.id by {
                            if j < recent.len() {
                                assert(before[j].id == recent[j].id);
                            } else {
                                let y = before[j].dimension;
                                assert(opens(scene.open, scene.pressure, scene.config, y));
                                assert(y != d);
                            }
                        }
                        assert(after == before.push(e));
                        assert forall|i: int, j: int|
                            0 <= i < j < after.len() && (#[trigger] after[i]).open() && (
                            #[trigger] after[j]).open() implies after[i].dimension
                            != after[j].dimension by {
                            assert(after[i] == before[i]);
                            if j < before.len() {
                                assert(after[j] == before[j]);
                            } else if i < recent.len() {
                                if before[i].dimension == d {
                                    assert(before[i] == recent[i]);
                                    assert(scene.open.contains(recent[i]));
                                    let m = choose|m: int|
                                        0 <= m < scene.open.len() && scene.open[m] == recent[i];
                                    assert(scene.open[m].open());
                                }
                            } else {
                                assert(before[i].dimension.place() < k - 1);
                            }
                        }
                        assert forall|i: int, j: int| 0 <= i < j < after.len() implies (
                        #[trigger] after[i]).id != (#[trigger] after[j]).id by {
                            assert(after[i] == before[i]);
                            if j < before.len() {
                                assert(after[j] == before[j]);
                            }
                        }
                    },
                }
            },
            _ => {},
        }
    }
}

/// A dimension never has two open episodes: where the record has at most one of
/// each, it still has after the changes are written into it, and no two episodes
/// come to share an identifier.
pub proof fn law_one_open_episode_per_dimension(scene: Scene, recent: Seq<EpisodeView>)
    requires
        scene.open == open_ones(recent),
        distinct_ids(recent),
        one_open_each(recent),
        fresh_ids(scene, recent),
    ensures
        distinct_ids(merged(recent, scene.episodes())),
        one_open_each(merged(recent, scene.episodes())),
{
    lemma_orderly(scene, recent, 14);
}

/// A verdict that is not trusted changes nothing: no episode is written, nothing
/// is said, and the answer is to wait.
pub proof fn law_checking_only_waits(
    r: Assessment,
    now: Timestamp,
    samples: Seq<Sample>,
    censuses: Seq<Census>,
    recent: Seq<EpisodeView>,
    config: PressureConfig,
    n: Numbers,
    slots: FreeSlots,
    ids: Seq<u128>,
)
    requires
        assesses(r, now, samples, censuses, recent, config, n, slots, ids),
        evaluation(now, samples, censuses, config, n).level == Level::Checking,
    ensures
        r.episodes@.len() == 0,
        r.notifications@.len() == 0,
        r.pressure.level == Level::Checking,
        r.headroom.should_wait,
        r.headroom.recommended_parallelism == 0,
{
    assert(views(r.episodes@).len() == r.episodes@.len());
    assert(views(r.notifications@).len() == r.notifications@.len());
    assert(r.headroom@.should_wait == r.headroom.should_wait);
}

/// The decoration touches the face of the verdict and nothing it rests on: the
/// level, the source and the worklist are those of the evaluation.
pub proof fn law_the_record_does_not_change_the_verdict(
    r: Assessment,
    now: Timestamp,
    samples: Seq<Sample>,
    censuses: Seq<Census>,
    recent: Seq<EpisodeView>,
    config: PressureConfig,
    n: Numbers,
    slots: FreeSlots,
    ids: Seq<u128>,
)
    requires
        assesses(r, now, samples, censuses, recent, config, n, slots, ids),
    ensures
        ({
            let p = evaluation(now, samples, censuses, config, n);
            &&& r.pressure@.level == p.level
            &&& r.pressure@.source == p.source
            &&& r.pressure@.findings == p.findings
            &&& r.pressure@.dimensions.len() == p.dimensions.len()
        }),
{
}

/// The open ones of a record are those that have not ended, in their order.
pub proof fn law_the_open_have_not_ended(s: Seq<EpisodeView>)
    ensures
        open_ones(s) == s.filter(|e: EpisodeView| e.ended_at is None),
    decreases s.len(),
{
    reveal(Seq::filter);
    if s.len() > 0 {
        law_the_open_have_not_ended(s.drop_last());
    }
}

/// An episode is written in the place of the first with its identifier, or at the
/// end where there is none, and moves no other.
pub proof fn law_writing_replaces_or_adds(record: Seq<EpisodeView>, e: EpisodeView, at: int)
    requires
        0 <= at <= record.len(),
        forall|j: int| 0 <= j < at ==> (#[trigger] record[j]).id != e.id,
        at < record.len() ==> record[at].id == e.id,
    ensures
        merged(record, Seq::empty()) == record,
        merged(record, seq![e]) == if at < record.len() {
            record.update(at, e)
        } else {
            record.push(e)
        },
        forall|changed: Seq<EpisodeView>, x: EpisodeView|
            #[trigger] merged(record, changed.push(x)) == merged(
                merged(record, changed),
                seq![x],
            ),
{
    lemma_put_at(record, e, at);
    assert(seq![e].drop_last() =~= Seq::empty());
    assert forall|changed: Seq<EpisodeView>, x: EpisodeView| #[trigger]
        merged(record, changed.push(x)) == merged(merged(record, changed), seq![x]) by {
        assert(changed.push(x).drop_last() =~= changed);
        assert(seq![x].drop_last() =~= Seq::empty());
        let before = merged(record, changed);
        assert(merged(before, Seq::empty()) == before);
    }
}

/// What an assessment reconciles: the episodes that have not ended, with the
/// evaluation, the newest census and the newest projection of the volume.
pub open spec fn is_scene(
    scene: Scene,
    now: Timestamp,
    samples: Seq<Sample>,
    censuses: Seq<Census>,
    recent: Seq<EpisodeView>,
    config: PressureConfig,
    n: Numbers,
    ids: Seq<u128>,
) -> bool {
    &&& scene.open == recent.filter(|e: EpisodeView| e.ended_at is None)
    &&& scene.pressure == evaluation(now, samples, censuses, config, n)
    &&& censuses.len() == 0 ==> scene.summary is None
    &&& censuses.len() > 0 ==> scene.summary == Some(summary_of(censuses.last()))
    &&& scene.now == now
    &&& n.disk.descents@.len() > 0 ==> scene.quotient == n.disk.descents@.last().quotient
    &&& scene.config == config
    &&& scene.ids == ids
}

/// An assessment is one reconciliation of what was read: it writes and says what
/// that one writes and says, shows the evaluation with the record as it is then,
/// and finds room by what is shown, on the machine of the newest sample.
pub proof fn law_an_assessment_is_one_reconciliation(
    r: Assessment,
    now: Timestamp,
    samples: Seq<Sample>,
    censuses: Seq<Census>,
    recent: Seq<EpisodeView>,
    config: PressureConfig,
    n: Numbers,
    slots: FreeSlots,
    ids: Seq<u128>,
)
    requires
        assesses(r, now, samples, censuses, recent, config, n, slots, ids),
    ensures
        exists|scene: Scene| #[trigger]
            is_scene(scene, now, samples, censuses, recent, config, n, ids) && views(r.episodes@)
                == scene.episodes() && views(r.notifications@) == scene.notices() && r.pressure@
                == attached(
                scene.pressure,
                merged(recent, views(r.episodes@)),
                now,
            ),
        samples.len() > 0 ==> r.headroom@ == headroom_of(
            r.pressure@,
            Some(
                MachineFacts {
                    cores: samples.last().ncpu,
                    mem_total_bytes: samples.last().mem_total_bytes,
                },
            ),
            slots,
            config,
        ),
        samples.len() == 0 ==> r.headroom@ == headroom_of(r.pressure@, None, slots, config),
{
    law_the_open_have_not_ended(recent);
    let scene = scene_of(
        open_ones(recent),
        evaluation(now, samples, censuses, config, n),
        newest(censuses),
        now,
        n.disk.newest_quotient(),
        config,
        ids,
    );
    assert(is_scene(scene, now, samples, censuses, recent, config, n, ids));
}

} // verus!
