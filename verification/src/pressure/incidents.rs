//! What an evaluation makes of the incidents that go on, and what it tells.
use vstd::prelude::*;

use super::band::Band;
use super::config::Dimension;
use super::episode::{
    active_in, activity_of, alert_text, alert_who, change_of, comes_from, crossed, finding_about,
    lemma_change_is_listed, lemma_changes, lemma_open_episode, lemma_outcome, lemma_spoken,
    lemma_written, material, notice_of, open_episode, open_in, span_text, EpisodeState, EpisodeView,
    NoticeView, NotificationKind, RecentActivity, Scene,
};
use super::level::Level;
use super::verdict::{reading_at, reading_of, FindingView, ReadingView};
use super::who::zero;
use super::wording::epsilon;
use crate::number::{real_of, Real};
use crate::text::{decimal, mentions};
use crate::time::{rewound, span_secs, Timestamp};

verus! {

/// `e` is the first open episode of its dimension.
pub open spec fn goes_on(scene: Scene, e: EpisodeView) -> bool {
    exists|i: int| #[trigger] goes_on_at(scene, e, i)
}

pub open spec fn goes_on_at(scene: Scene, e: EpisodeView, i: int) -> bool {
    &&& 0 <= i < scene.open.len()
    &&& scene.open[i] == e
    &&& e.ended_at is None
    &&& forall|j: int|
        0 <= j < i ==> (#[trigger] scene.open[j]).dimension != e.dimension
            || scene.open[j].ended_at is Some
}

/// No episode of a dimension is open.
pub open spec fn is_over(scene: Scene, d: Dimension) -> bool {
    forall|i: int|
        0 <= i < scene.open.len() && (#[trigger] scene.open[i]).dimension == d
            ==> scene.open[i].ended_at is Some
}

/// `r` is the first row of its dimension.
pub open spec fn is_read(scene: Scene, r: ReadingView) -> bool {
    exists|i: int| #[trigger] is_read_at(scene, r, i)
}

pub open spec fn is_read_at(scene: Scene, r: ReadingView, i: int) -> bool {
    &&& 0 <= i < scene.pressure.dimensions.len()
    &&& scene.pressure.dimensions[i] == r
    &&& forall|j: int|
        0 <= j < i ==> (#[trigger] scene.pressure.dimensions[j]).dimension != r.dimension
}

/// Nothing mutes a dimension: only swap is ever muted, and thrashing that is not
/// red does not mute it.
pub open spec fn may_speak(scene: Scene, d: Dimension) -> bool {
    d != Dimension::Swap || exists|r: ReadingView|
        #[trigger] is_read(scene, r) && r.dimension == Dimension::Thrash && r.band != Band::Red
}

/// Nothing is written of a dimension.
pub open spec fn stays_as_it_is(scene: Scene, d: Dimension) -> bool {
    forall|i: int|
        0 <= i < scene.episodes().len() ==> (#[trigger] scene.episodes()[i]).dimension != d
}

/// Nothing is said of a dimension.
pub open spec fn is_silent(scene: Scene, d: Dimension) -> bool {
    forall|i: int|
        0 <= i < scene.notices().len() ==> (#[trigger] scene.notices()[i]).dimension != d
}

spec fn becomes(scene: Scene, d: Dimension) -> EpisodeView {
    match scene.outcome(d) {
        Some((x, _)) => x,
        None => arbitrary(),
    }
}

proof fn lemma_goes_on(scene: Scene, e: EpisodeView)
    requires
        goes_on(scene, e),
    ensures
        open_episode(scene.open, e.dimension) == Some(e),
{
    let i = choose|i: int| #[trigger] goes_on_at(scene, e, i);
    lemma_first_open(scene.open, e.dimension, i);
}

proof fn lemma_first_open(s: Seq<EpisodeView>, d: Dimension, i: int)
    requires
        0 <= i < s.len(),
        s[i].dimension == d,
        s[i].ended_at is None,
        forall|j: int|
            0 <= j < i ==> (#[trigger] s[j]).dimension != d || s[j].ended_at is Some,
    ensures
        open_episode(s, d) == Some(s[i]),
    decreases i,
{
    if i > 0 {
        let rest = s.drop_first();
        assert(s[0].dimension != d || s[0].ended_at is Some);
        assert forall|j: int| 0 <= j < i - 1 implies (#[trigger] rest[j]).dimension != d
            || rest[j].ended_at is Some by {
            assert(rest[j] == s[j + 1]);
        }
        lemma_first_open(rest, d, i - 1);
    }
}

proof fn lemma_is_read(scene: Scene, r: ReadingView)
    requires
        is_read(scene, r),
    ensures
        reading_of(scene.pressure.dimensions, r.dimension) == Some(r),
{
    let i = choose|i: int| #[trigger] is_read_at(scene, r, i);
    lemma_first_read(scene.pressure.dimensions, r.dimension, i);
}

proof fn lemma_first_read(s: Seq<ReadingView>, d: Dimension, i: int)
    requires
        0 <= i < s.len(),
        s[i].dimension == d,
        forall|j: int| 0 <= j < i ==> (#[trigger] s[j]).dimension != d,
    ensures
        reading_at(s, d) == i,
    decreases i,
{
    if i > 0 {
        let rest = s.drop_first();
        assert(s[0].dimension != d);
        assert forall|j: int| 0 <= j < i - 1 implies (#[trigger] rest[j]).dimension != d by {
            assert(rest[j] == s[j + 1]);
        }
        lemma_first_read(rest, d, i - 1);
    }
}

proof fn lemma_may_speak(scene: Scene, d: Dimension)
    requires
        may_speak(scene, d),
    ensures
        !scene.muted(d),
{
    if d == Dimension::Swap {
        let r = choose|r: ReadingView|
            #[trigger] is_read(scene, r) && r.dimension == Dimension::Thrash && r.band != Band::Red;
        lemma_is_read(scene, r);
    }
}

proof fn lemma_change(scene: Scene, d: Dimension, x: EpisodeView)
    requires
        scene.pressure.level != Level::Checking,
        scene.outcome(d) == Some((x, true)),
    ensures
        ({
            let n = notice_of(
                x,
                open_episode(scene.open, d),
                scene.pressure,
                scene.now,
                scene.config,
            );
            &&& n is Some && !scene.muted(d) ==> scene.notices().contains(n->0)
                && scene.episodes().contains(
                if n->0.kind == NotificationKind::Recovered {
                    x
                } else {
                    EpisodeView { last_notified_at: Some(scene.now), ..x }
                },
            )
            &&& n is None || scene.muted(d) ==> is_silent(scene, d) && scene.episodes().contains(x)
        }),
{
    let all = scene.changes(14);
    lemma_outcome(scene, d);
    lemma_changes(scene, 14);
    lemma_change_is_listed(scene, 14, d);
    lemma_spoken(scene, all);
    lemma_written(scene, all);
    let c = change_of(scene, d)->0;
    let j = choose|j: int| 0 <= j < all.len() && all[j] == c;
    assert(scene.episodes()[j] == scene.written(all[j]));
    if c.notice is None || scene.muted(d) {
        assert forall|i: int| 0 <= i < scene.notices().len() implies (
        #[trigger] scene.notices()[i]).dimension != d by {
            let n = scene.notices()[i];
            assert(comes_from(scene, all, n));
            let k = choose|k: int|
                0 <= k < all.len() && scene.spoken(#[trigger] all[k]) && all[k].notice == Some(n);
            if n.dimension == d {
                assert(all[k].episode.dimension == d);
                assert(scene.outcome(d) == Some((all[k].episode, true)));
            }
        }
    }
}

proof fn lemma_no_change(scene: Scene, d: Dimension)
    requires
        !(scene.outcome(d) matches Some((_, changed)) && changed),
    ensures
        stays_as_it_is(scene, d),
        is_silent(scene, d),
{
    let all = scene.changes(14);
    lemma_changes(scene, 14);
    lemma_spoken(scene, all);
    lemma_written(scene, all);
    if scene.pressure.level != Level::Checking {
        assert forall|i: int| 0 <= i < scene.episodes().len() implies (
        #[trigger] scene.episodes()[i]).dimension != d by {
            assert(scene.episodes()[i] == scene.written(all[i]));
        }
        assert forall|i: int| 0 <= i < scene.notices().len() implies (
        #[trigger] scene.notices()[i]).dimension != d by {
            let n = scene.notices()[i];
            assert(comes_from(scene, all, n));
            let k = choose|k: int|
                0 <= k < all.len() && scene.spoken(#[trigger] all[k]) && all[k].notice == Some(n);
            assert(scene.outcome(all[k].episode.dimension) == Some((all[k].episode, true)));
        }
    }
}

/// A new incident of a reading: it has the dimension's own identifier, began when
/// the red run did, and has this moment for its peak.
pub open spec fn is_new(scene: Scene, r: ReadingView, x: EpisodeView) -> bool {
    &&& x.dimension == r.dimension
    &&& x.id == scene.ids[r.dimension.place()]
    &&& x.state == EpisodeState::Firing
    &&& x.ended_at is None
    &&& x.recovering_since is None
    &&& x.suppressed == 0
    &&& x.started_at.nanos == scene.now.nanos - r.held_secs * 1_000_000_000
    &&& x.peak.band == Band::Red
    &&& x.peak.level == scene.pressure.level
    &&& x.peak.severity == r.severity
    &&& x.peak.at == scene.now
    &&& x.census_at_peak == scene.summary
    &&& r.dimension != Dimension::Disk ==> x.projection_bracket_secs is None
}

/// A notice about an episode: the machine's level now, the episode's worst, and
/// what was swallowed.
pub open spec fn is_notice(
    scene: Scene,
    n: NoticeView,
    kind: NotificationKind,
    x: EpisodeView,
) -> bool {
    &&& n.kind == kind
    &&& n.episode_id == x.id
    &&& n.dimension == x.dimension
    &&& n.level == scene.pressure.level
    &&& n.peak_level == x.peak.level
    &&& n.at == scene.now
    &&& n.suppressed == x.suppressed
}

/// A dimension whose episode is spoken of: the episode is written, told of by a
/// notice of this kind, and its repeat clock starts now.
pub open spec fn is_told(scene: Scene, x: EpisodeView, kind: NotificationKind) -> bool {
    &&& scene.episodes().contains(x)
    &&& x.last_notified_at == Some(scene.now)
    &&& exists|n: NoticeView| #[trigger]
        scene.notices().contains(n) && is_notice(scene, n, kind, x)
}

/// A red that is not advisory and has been seen for the up delay opens an incident
/// of a dimension that has none, and the opening is told.
pub proof fn law_a_lasting_red_is_told(scene: Scene, r: ReadingView)
    requires
        scene.pressure.level != Level::Checking,
        is_read(scene, r),
        is_over(scene, r.dimension),
        r.band == Band::Red,
        !r.advisory,
        r.held_secs >= scene.config.episode_up_secs,
        scene.now.nanos - r.held_secs * 1_000_000_000 >= i128::MIN,
    ensures
        exists|x: EpisodeView| #[trigger]
            scene.episodes().contains(x) && is_new(scene, r, x),
        may_speak(scene, r.dimension) ==> exists|x: EpisodeView|
            is_new(scene, r, x) && #[trigger] is_told(scene, x, NotificationKind::Opened),
{
    let d = r.dimension;
    lemma_is_read(scene, r);
    lemma_open_episode(scene.open, d);
    assert(open_episode(scene.open, d) is None);
    let x = becomes(scene, d);
    lemma_change(scene, d, x);
    assert(is_new(scene, r, x));
    let told = EpisodeView { last_notified_at: Some(scene.now), ..x };
    assert(is_new(scene, r, told));
    let n = notice_of(x, None, scene.pressure, scene.now, scene.config)->0;
    if may_speak(scene, d) {
        lemma_may_speak(scene, d);
        assert(is_notice(scene, n, NotificationKind::Opened, told));
        assert(is_told(scene, told, NotificationKind::Opened));
    }
}

/// Anything less opens nothing: what is not red, what is advisory, and a red that
/// has not been seen for the up delay.
pub proof fn law_a_passing_red_is_not_told(scene: Scene, r: ReadingView)
    requires
        is_read(scene, r),
        is_over(scene, r.dimension),
        r.band != Band::Red || r.advisory || r.held_secs < scene.config.episode_up_secs,
    ensures
        stays_as_it_is(scene, r.dimension),
        is_silent(scene, r.dimension),
{
    lemma_is_read(scene, r);
    lemma_open_episode(scene.open, r.dimension);
    assert(open_episode(scene.open, r.dimension) is None);
    lemma_no_change(scene, r.dimension);
}

/// A firing incident whose dimension drops below red recovers from this moment on,
/// with nothing else changed and nothing said.
pub proof fn law_below_red_it_recovers(scene: Scene, e: EpisodeView, r: ReadingView)
    requires
        scene.pressure.level != Level::Checking,
        goes_on(scene, e),
        is_read(scene, r),
        r.dimension == e.dimension,
        e.state == EpisodeState::Firing,
        r.band != Band::Red,
    ensures
        scene.episodes().contains(
            EpisodeView {
                state: EpisodeState::Recovering,
                recovering_since: Some(scene.now),
                ..e
            },
        ),
        is_silent(scene, e.dimension),
{
    lemma_goes_on(scene, e);
    lemma_is_read(scene, r);
    lemma_change(scene, e.dimension, becomes(scene, e.dimension));
}

/// A recovery is waited out: until the dimension has stayed below red for the down
/// delay the incident is not touched.
pub proof fn law_a_recovery_is_waited_out(scene: Scene, e: EpisodeView, r: ReadingView)
    requires
        goes_on(scene, e),
        is_read(scene, r),
        r.dimension == e.dimension,
        e.state == EpisodeState::Recovering,
        e.recovering_since matches Some(since) && scene.now.nanos - since.nanos
            < scene.config.episode_down_secs * 1_000_000_000,
        r.band != Band::Red,
    ensures
        stays_as_it_is(scene, e.dimension),
        is_silent(scene, e.dimension),
{
    lemma_goes_on(scene, e);
    lemma_is_read(scene, r);
    lemma_no_change(scene, e.dimension);
}

/// Once it has, the incident is closed as of the moment it dropped below red, and
/// the recovery is told.
pub proof fn law_a_recovery_is_told(scene: Scene, e: EpisodeView, r: ReadingView)
    requires
        scene.pressure.level != Level::Checking,
        goes_on(scene, e),
        is_read(scene, r),
        r.dimension == e.dimension,
        e.state == EpisodeState::Recovering,
        e.recovering_since matches Some(since) && scene.now.nanos - since.nanos
            >= scene.config.episode_down_secs * 1_000_000_000,
        r.band != Band::Red,
    ensures
        scene.episodes().contains(
            EpisodeView { state: EpisodeState::Closed, ended_at: e.recovering_since, ..e },
        ),
        may_speak(scene, e.dimension) ==> exists|n: NoticeView| #[trigger]
            scene.notices().contains(n) && is_notice(scene, n, NotificationKind::Recovered, e)
                && mentions(n.message, e.dimension.label_text()) && mentions(n.message, r.detail)
                && mentions(
                n.message,
                span_text(span_secs(e.recovering_since->0, e.started_at)),
            ),
{
    lemma_goes_on(scene, e);
    lemma_is_read(scene, r);
    let x = becomes(scene, e.dimension);
    lemma_change(scene, e.dimension, x);
    let n = notice_of(x, Some(e), scene.pressure, scene.now, scene.config)->0;
    let label = e.dimension.label_text();
    let span = span_text(span_secs(e.recovering_since->0, e.started_at));
    let after = " recovered after "@;
    let now = " (now "@;
    assert(n.message =~= Seq::<char>::empty() + label + (after + span + now + r.detail + ")"@));
    assert(n.message =~= (label + after) + span + (now + r.detail + ")"@));
    assert(n.message =~= (label + after + span + now) + r.detail + ")"@);
    if may_speak(scene, e.dimension) {
        lemma_may_speak(scene, e.dimension);
    }
}

/// A red that comes back is the same incident, firing again.
pub open spec fn is_still(x: EpisodeView, e: EpisodeView) -> bool {
    &&& x.id == e.id
    &&& x.dimension == e.dimension
    &&& x.started_at == e.started_at
    &&& x.ended_at is None
    &&& x.state == EpisodeState::Firing
}

/// The last notice is old enough for a reminder.
pub open spec fn is_old(scene: Scene, e: EpisodeView) -> bool {
    e.last_notified_at matches Some(t) ==> scene.now.nanos - t.nanos
        >= scene.config.episode_repeat_secs * 1_000_000_000
}

/// A red that comes back within the waiting time is told only if the machine is
/// worse or the last notice is old; otherwise it is counted. (A volume that fills
/// has news of its own.)
pub proof fn law_red_again_is_counted(scene: Scene, e: EpisodeView, r: ReadingView)
    requires
        scene.pressure.level != Level::Checking,
        goes_on(scene, e),
        is_read(scene, r),
        r.dimension == e.dimension,
        e.dimension != Dimension::Disk,
        e.state == EpisodeState::Recovering,
        scene.pressure.level.height() <= e.peak.level.height(),
        !is_old(scene, e),
        r.band == Band::Red,
        e.suppressed < u32::MAX,
    ensures
        is_silent(scene, e.dimension),
        exists|x: EpisodeView| #[trigger]
            scene.episodes().contains(x) && is_still(x, e) && x.recovering_since is None
                && x.suppressed == e.suppressed + 1 && x.last_notified_at == e.last_notified_at,
{
    lemma_goes_on(scene, e);
    lemma_is_read(scene, r);
    let x = becomes(scene, e.dimension);
    lemma_change(scene, e.dimension, x);
}

/// A machine worse than the incident has seen it is told at once, and is its new
/// peak.
pub proof fn law_a_worse_machine_is_told(scene: Scene, e: EpisodeView, r: ReadingView)
    requires
        scene.pressure.level != Level::Checking,
        goes_on(scene, e),
        is_read(scene, r),
        r.dimension == e.dimension,
        e.state != EpisodeState::Closed,
        scene.pressure.level.height() > e.peak.level.height(),
        r.band == Band::Red,
        may_speak(scene, e.dimension),
    ensures
        exists|x: EpisodeView|
            is_still(x, e) && x.suppressed == e.suppressed && x.peak.level == scene.pressure.level
                && x.peak.severity == r.severity && x.peak.at == scene.now && x.census_at_peak
                == scene.summary && #[trigger] is_told(scene, x, NotificationKind::Reescalated),
{
    lemma_goes_on(scene, e);
    lemma_is_read(scene, r);
    lemma_may_speak(scene, e.dimension);
    let x = becomes(scene, e.dimension);
    lemma_change(scene, e.dimension, x);
    let n = notice_of(x, Some(e), scene.pressure, scene.now, scene.config)->0;
    let told = EpisodeView { last_notified_at: Some(scene.now), ..x };
    assert(is_notice(scene, n, NotificationKind::Reescalated, told));
    assert(is_told(scene, told, NotificationKind::Reescalated));
}

/// A red that goes on is told again once the last notice is old.
pub proof fn law_a_lasting_incident_is_told_again(scene: Scene, e: EpisodeView, r: ReadingView)
    requires
        scene.pressure.level != Level::Checking,
        goes_on(scene, e),
        is_read(scene, r),
        r.dimension == e.dimension,
        e.dimension != Dimension::Disk,
        e.state != EpisodeState::Closed,
        scene.pressure.level.height() <= e.peak.level.height(),
        is_old(scene, e),
        r.band == Band::Red,
        may_speak(scene, e.dimension),
    ensures
        exists|x: EpisodeView|
            is_still(x, e) && x.suppressed == e.suppressed && x.peak.level == e.peak.level
                && #[trigger] is_told(scene, x, NotificationKind::Repeat),
{
    lemma_goes_on(scene, e);
    lemma_is_read(scene, r);
    lemma_may_speak(scene, e.dimension);
    let x = becomes(scene, e.dimension);
    lemma_change(scene, e.dimension, x);
    let n = notice_of(x, Some(e), scene.pressure, scene.now, scene.config)->0;
    let told = EpisodeView { last_notified_at: Some(scene.now), ..x };
    assert(is_notice(scene, n, NotificationKind::Repeat, told));
    assert(is_told(scene, told, NotificationKind::Repeat));
}

/// And before that it is not: nothing is said, and what is written has neither its
/// repeat clock nor its count moved.
pub proof fn law_nothing_is_told_twice(scene: Scene, e: EpisodeView, r: ReadingView, i: int)
    requires
        scene.pressure.level != Level::Checking,
        goes_on(scene, e),
        is_read(scene, r),
        r.dimension == e.dimension,
        e.dimension != Dimension::Disk,
        e.state == EpisodeState::Firing,
        scene.pressure.level.height() <= e.peak.level.height(),
        !is_old(scene, e),
        r.band == Band::Red,
    ensures
        is_silent(scene, e.dimension),
        0 <= i < scene.episodes().len() && scene.episodes()[i].dimension == e.dimension ==> {
            let x = scene.episodes()[i];
            is_still(x, e) && x.suppressed == e.suppressed && x.last_notified_at
                == e.last_notified_at && x.projection_bracket_secs == e.projection_bracket_secs
        },
{
    lemma_goes_on(scene, e);
    lemma_is_read(scene, r);
    let out = scene.outcome(e.dimension)->0;
    if out.1 {
        lemma_change(scene, e.dimension, out.0);
        lemma_listed(scene, i);
    } else {
        lemma_no_change(scene, e.dimension);
    }
}

proof fn lemma_listed(scene: Scene, i: int)
    ensures
        0 <= i < scene.episodes().len() ==> {
            let w = scene.episodes()[i];
            &&& scene.outcome(w.dimension) matches Some((x, changed)) && changed && w
                == (EpisodeView { last_notified_at: w.last_notified_at, ..x })
            &&& w.last_notified_at == becomes(scene, w.dimension).last_notified_at
                || (!is_silent(scene, w.dimension) && w.last_notified_at == Some(scene.now))
        },
{
    let all = scene.changes(14);
    lemma_changes(scene, 14);
    lemma_written(scene, all);
    lemma_spoken(scene, all);
    if 0 <= i < scene.episodes().len() {
        let w = scene.episodes()[i];
        assert(w == scene.written(all[i]));
        if scene.spoken(all[i]) {
            let n = all[i].notice->0;
            assert(scene.notices().contains(n));
            let k = choose|k: int| 0 <= k < scene.notices().len() && scene.notices()[k] == n;
            assert(scene.notices()[k].dimension == w.dimension);
        }
    }
}

/// The peak of a red incident is its worst moment: a deeper red is written down as
/// the new one, with who was there, at the worst level seen; and without a deeper
/// red or a worse machine the peak stays.
pub proof fn law_the_peak_is_the_worst_moment(scene: Scene, e: EpisodeView, r: ReadingView, i: int)
    requires
        scene.pressure.level != Level::Checking,
        goes_on(scene, e),
        is_read(scene, r),
        r.dimension == e.dimension,
        e.state != EpisodeState::Closed,
        r.band == Band::Red,
    ensures
        e.peak.severity.below(r.severity) ==> exists|x: EpisodeView| #[trigger]
            scene.episodes().contains(x) && is_still(x, e) && x.peak.severity == r.severity
                && x.peak.at == scene.now && x.peak.band == Band::Red && x.census_at_peak
                == scene.summary && x.peak.level == (if scene.pressure.level.height()
                > e.peak.level.height() {
                scene.pressure.level
            } else {
                e.peak.level
            }),
        !e.peak.severity.below(r.severity) && scene.pressure.level.height()
            <= e.peak.level.height() ==> (0 <= i < scene.episodes().len()
            && scene.episodes()[i].dimension == e.dimension ==> scene.episodes()[i].peak == e.peak
            && scene.episodes()[i].census_at_peak == e.census_at_peak),
{
    lemma_goes_on(scene, e);
    lemma_is_read(scene, r);
    lemma_listed(scene, i);
    let out = scene.outcome(e.dimension)->0;
    if e.peak.severity.below(r.severity) {
        let x = out.0;
        assert(!x.same(e));
        lemma_change(scene, e.dimension, x);
        let told = EpisodeView { last_notified_at: Some(scene.now), ..x };
        assert(scene.episodes().contains(x) || scene.episodes().contains(told));
    }
}

/// A volume fills: something is free, less and less of it.
pub open spec fn fills(r: ReadingView) -> bool {
    &&& r.dimension == Dimension::Disk
    &&& r.trend_per_sec matches Some(s) && s.below(zero()) && epsilon().below(s.size())
    &&& r.value.finite()
    &&& zero().below(r.value)
}

/// The least announced time that a projection has come down to.
pub open spec fn is_least(lines: Seq<u64>, projection: Real, b: u64) -> bool {
    &&& lines.contains(b)
    &&& projection.at_most(real_of(b as nat))
    &&& forall|k: int|
        0 <= k < lines.len() && projection.at_most(real_of((#[trigger] lines[k]) as nat)) ==> b
            <= lines[k]
}

proof fn lemma_crossed(lines: Seq<u64>, projection: Real)
    ensures
        crossed(lines, projection) matches Some(b) ==> is_least(lines, projection, b),
        crossed(lines, projection) is None ==> forall|k: int|
            0 <= k < lines.len() ==> !projection.at_most(real_of((#[trigger] lines[k]) as nat)),
    decreases lines.len(),
{
    if lines.len() > 0 {
        let front = lines.drop_last();
        lemma_crossed(front, projection);
        assert(lines =~= front.push(lines.last()));
        assert forall|k: int| 0 <= k < lines.len() - 1 implies front[k] == lines[k] by {}
        match crossed(front, projection) {
            Some(b) => {
                let k = choose|k: int| 0 <= k < front.len() && front[k] == b;
                assert(lines[k] == b);
            },
            None => {},
        }
        assert(lines[lines.len() - 1] == lines.last());
    }
}

/// A volume that comes down to a sooner announced time than any before is told at
/// once, and the incident remembers the soonest.
pub proof fn law_a_sooner_end_is_told(scene: Scene, e: EpisodeView, r: ReadingView, b: u64)
    requires
        scene.pressure.level != Level::Checking,
        goes_on(scene, e),
        is_read(scene, r),
        r.dimension == e.dimension,
        e.state != EpisodeState::Closed,
        r.band == Band::Red,
        fills(r),
        is_least(scene.config.disk_projection_notify_secs@, scene.quotient, b),
        e.projection_bracket_secs matches Some(c) ==> b < c,
    ensures
        exists|x: EpisodeView|
            is_still(x, e) && x.projection_bracket_secs == Some(b) && x.suppressed == e.suppressed
                && #[trigger] is_told(scene, x, NotificationKind::Reescalated),
{
    let lines = scene.config.disk_projection_notify_secs@;
    lemma_goes_on(scene, e);
    lemma_is_read(scene, r);
    lemma_least_is_crossed(lines, scene.quotient, b);
    assert(may_speak(scene, e.dimension));
    lemma_may_speak(scene, e.dimension);
    let x = becomes(scene, e.dimension);
    lemma_change(scene, e.dimension, x);
    let n = notice_of(x, Some(e), scene.pressure, scene.now, scene.config)->0;
    let told = EpisodeView { last_notified_at: Some(scene.now), ..x };
    assert(is_notice(scene, n, NotificationKind::Reescalated, told));
    assert(is_told(scene, told, NotificationKind::Reescalated));
}

/// Without a sooner announced time a firing volume is told of like anything else:
/// for a worse machine, or once the last notice is old.
pub proof fn law_the_same_end_is_not_told(scene: Scene, e: EpisodeView, r: ReadingView)
    requires
        scene.pressure.level != Level::Checking,
        goes_on(scene, e),
        is_read(scene, r),
        r.dimension == e.dimension,
        e.dimension == Dimension::Disk,
        e.state == EpisodeState::Firing,
        r.band == Band::Red,
        scene.pressure.level.height() <= e.peak.level.height(),
        !is_old(scene, e),
        fills(r) ==> forall|b: u64|
            #[trigger] is_least(scene.config.disk_projection_notify_secs@, scene.quotient, b) ==> (
            e.projection_bracket_secs matches Some(c) && c <= b),
    ensures
        is_silent(scene, e.dimension),
{
    lemma_goes_on(scene, e);
    lemma_is_read(scene, r);
    lemma_crossed(scene.config.disk_projection_notify_secs@, scene.quotient);
    let out = scene.outcome(e.dimension)->0;
    if out.1 {
        lemma_change(scene, e.dimension, out.0);
    } else {
        lemma_no_change(scene, e.dimension);
    }
}

/// Swap is not spoken of while thrashing fires: thrashing that goes on and is red,
/// or that is red for long enough to begin.
pub proof fn law_swap_is_silent_while_thrashing(scene: Scene, r: ReadingView)
    requires
        is_read(scene, r),
        r.dimension == Dimension::Thrash,
        r.band == Band::Red,
        (exists|e: EpisodeView|
            #[trigger] goes_on(scene, e) && e.dimension == Dimension::Thrash && e.state
                != EpisodeState::Closed) || (is_over(scene, Dimension::Thrash) && !r.advisory
            && r.held_secs >= scene.config.episode_up_secs),
    ensures
        is_silent(scene, Dimension::Swap),
{
    lemma_is_read(scene, r);
    lemma_open_episode(scene.open, Dimension::Thrash);
    if exists|e: EpisodeView|
        #[trigger] goes_on(scene, e) && e.dimension == Dimension::Thrash && e.state
            != EpisodeState::Closed {
        let e = choose|e: EpisodeView|
            #[trigger] goes_on(scene, e) && e.dimension == Dimension::Thrash && e.state
                != EpisodeState::Closed;
        lemma_goes_on(scene, e);
    } else {
        assert(open_episode(scene.open, Dimension::Thrash) is None);
    }
    assert(scene.muted(Dimension::Swap));
    if scene.pressure.level != Level::Checking {
        match scene.outcome(Dimension::Swap) {
            Some((x, true)) => {
                lemma_change(scene, Dimension::Swap, x);
            },
            _ => {
                lemma_no_change(scene, Dimension::Swap);
            },
        }
    }
}

/// `f` is the first finding of its dimension.
pub open spec fn is_found(scene: Scene, f: FindingView) -> bool {
    exists|i: int| #[trigger] is_found_at(scene, f, i)
}

pub open spec fn is_found_at(scene: Scene, f: FindingView, i: int) -> bool {
    &&& 0 <= i < scene.pressure.findings.len()
    &&& scene.pressure.findings[i] == f
    &&& forall|j: int|
        0 <= j < i ==> (#[trigger] scene.pressure.findings[j]).dimension != f.dimension
}

/// There is no finding of a dimension.
pub open spec fn is_not_found(scene: Scene, d: Dimension) -> bool {
    forall|i: int|
        0 <= i < scene.pressure.findings.len() ==> (
        #[trigger] scene.pressure.findings[i]).dimension != d
}

proof fn lemma_first_found(s: Seq<FindingView>, d: Dimension, i: int)
    requires
        0 <= i <= s.len(),
        i < s.len() ==> s[i].dimension == d,
        forall|j: int| 0 <= j < i ==> (#[trigger] s[j]).dimension != d,
    ensures
        finding_about(s, d) == (if i < s.len() {
            Some(s[i])
        } else {
            None
        }),
    decreases i,
{
    if i > 0 {
        let rest = s.drop_first();
        assert(s[0].dimension != d);
        assert forall|j: int| 0 <= j < i - 1 implies (#[trigger] rest[j]).dimension != d by {
            assert(rest[j] == s[j + 1]);
        }
        lemma_first_found(rest, d, i - 1);
    }
}

proof fn lemma_found(scene: Scene, d: Dimension)
    ensures
        forall|f: FindingView|
            #[trigger] is_found(scene, f) && f.dimension == d ==> finding_about(
                scene.pressure.findings,
                d,
            ) == Some(f),
        is_not_found(scene, d) ==> finding_about(scene.pressure.findings, d) is None,
{
    let all = scene.pressure.findings;
    assert forall|f: FindingView| #[trigger]
        is_found(scene, f) && f.dimension == d implies finding_about(all, d) == Some(f) by {
        let i = choose|i: int| #[trigger] is_found_at(scene, f, i);
        lemma_first_found(all, d, i);
    }
    if is_not_found(scene, d) {
        lemma_first_found(all, d, all.len() as int);
    }
}

proof fn lemma_notice(scene: Scene, i: int)
    requires
        0 <= i < scene.notices().len(),
    ensures
        ({
            let n = scene.notices()[i];
            &&& scene.outcome(n.dimension) is Some
            &&& notice_of(
                becomes(scene, n.dimension),
                open_episode(scene.open, n.dimension),
                scene.pressure,
                scene.now,
                scene.config,
            ) == Some(n)
        }),
{
    let all = scene.changes(14);
    let n = scene.notices()[i];
    lemma_changes(scene, 14);
    lemma_spoken(scene, all);
    assert(comes_from(scene, all, n));
    let k = choose|k: int|
        0 <= k < all.len() && scene.spoken(#[trigger] all[k]) && all[k].notice == Some(n);
    assert(scene.outcome(all[k].episode.dimension) == Some((all[k].episode, true)));
}

/// An alert has the words of the finding about its dimension, with who is behind
/// it, and those of the reading where there is no finding; and it says how long the
/// incident has lasted.
pub proof fn law_an_alert_says_what_was_found(scene: Scene, r: ReadingView, i: int)
    requires
        0 <= i < scene.notices().len(),
        scene.notices()[i].kind != NotificationKind::Recovered,
        scene.notices()[i].dimension == r.dimension,
        is_read(scene, r),
    ensures
        forall|f: FindingView|
            #[trigger] is_found(scene, f) && f.dimension == r.dimension ==> mentions(
                scene.notices()[i].message,
                f.message,
            ) && (f.who_line matches Some(who) ==> mentions(scene.notices()[i].message, who)),
        is_not_found(scene, r.dimension) ==> mentions(scene.notices()[i].message, r.label)
            && mentions(scene.notices()[i].message, r.detail),
        forall|e: EpisodeView|
            #[trigger] goes_on(scene, e) && e.dimension == r.dimension ==> mentions(
                scene.notices()[i].message,
                span_text(span_secs(scene.now, e.started_at)),
            ),
{
    let n = scene.notices()[i];
    let x = becomes(scene, r.dimension);
    lemma_notice(scene, i);
    lemma_is_read(scene, r);
    lemma_found(scene, r.dimension);
    let text = alert_text(r, scene.pressure);
    let span = span_text(span_secs(scene.now, x.started_at));
    let red = " Red for "@;
    let tail = match alert_who(r.dimension, scene.pressure) {
        Some(who) => "; "@ + who,
        None => Seq::<char>::empty(),
    };
    assert(n.message =~= Seq::<char>::empty() + text + (red + span + tail + "."@));
    assert(n.message =~= (text + red) + span + (tail + "."@));
    if let Some(who) = alert_who(r.dimension, scene.pressure) {
        assert(n.message =~= (text + red + span + "; "@) + who + "."@);
    }
    if is_not_found(scene, r.dimension) {
        assert(n.message =~= Seq::<char>::empty() + r.label + (": "@ + r.detail + red + span + tail
            + "."@));
        assert(n.message =~= (r.label + ": "@) + r.detail + (red + span + tail + "."@));
    }
    assert forall|e: EpisodeView| #[trigger]
        goes_on(scene, e) && e.dimension == r.dimension implies mentions(
        n.message,
        span_text(span_secs(scene.now, e.started_at)),
    ) by {
        lemma_goes_on(scene, e);
    }
}

/// A new peak has the words of the finding about its dimension, and who is behind
/// it.
pub proof fn law_a_peak_says_what_was_found(scene: Scene, r: ReadingView, f: FindingView, i: int)
    requires
        is_read(scene, r),
        r.band == Band::Red,
        is_found(scene, f),
        f.dimension == r.dimension,
        0 <= i < scene.episodes().len(),
        scene.episodes()[i].dimension == r.dimension,
        is_over(scene, r.dimension) || exists|e: EpisodeView|
            #[trigger] goes_on(scene, e) && e.dimension == r.dimension && e.peak.severity.below(
                r.severity,
            ),
    ensures
        scene.episodes()[i].peak.message == f.message,
        scene.episodes()[i].peak.who_line == f.who_line,
{
    lemma_is_read(scene, r);
    lemma_found(scene, r.dimension);
    lemma_listed(scene, i);
    lemma_open_episode(scene.open, r.dimension);
    if is_over(scene, r.dimension) {
        assert(open_episode(scene.open, r.dimension) is None);
    } else {
        let e = choose|e: EpisodeView|
            #[trigger] goes_on(scene, e) && e.dimension == r.dimension && e.peak.severity.below(
                r.severity,
            );
        lemma_goes_on(scene, e);
    }
}

/// A span is told at its own scale and rounded down: in seconds under a minute, in
/// minutes under an hour, in hours and minutes under a day, and then in days and
/// hours.
pub proof fn law_a_span_is_told_at_its_scale(secs: u64)
    ensures
        secs < 60 ==> span_text(secs) == decimal(secs as nat) + "s"@,
        60 <= secs < 3600 ==> exists|m: nat|
            m * 60 <= secs < m * 60 + 60 && span_text(secs) == #[trigger] decimal(m) + "m"@,
        3600 <= secs < 86_400 ==> exists|h: nat, m: nat|
            m < 60 && h * 3600 + m * 60 <= secs < h * 3600 + m * 60 + 60 && span_text(secs)
                == #[trigger] decimal(h) + "h"@ + #[trigger] decimal(m) + "m"@,
        86_400 <= secs ==> exists|d: nat, h: nat|
            h < 24 && d * 86_400 + h * 3600 <= secs < d * 86_400 + h * 3600 + 3600
                && span_text(secs) == #[trigger] decimal(d) + "d"@ + #[trigger] decimal(h) + "h"@,
{
    if 60 <= secs < 3600 {
        let m = (secs / 60) as nat;
        assert(span_text(secs) == decimal(m) + "m"@);
    } else if 3600 <= secs < 86_400 {
        let h = (secs / 3600) as nat;
        let m = ((secs % 3600) / 60) as nat;
        assert(span_text(secs) == decimal(h) + "h"@ + decimal(m) + "m"@);
    } else if 86_400 <= secs {
        let d = (secs / 86_400) as nat;
        let h = ((secs % 86_400) / 3600) as nat;
        assert(span_text(secs) == decimal(d) + "d"@ + decimal(h) + "h"@);
    }
}

/// The long memory counts: each episode that is open, and each that had begun and
/// had not ended an hour, or a day, before now.
pub proof fn law_the_long_memory_counts(s: Seq<EpisodeView>, e: EpisodeView, now: Timestamp)
    requires
        s.len() < usize::MAX,
        now.nanos - 86_400 * 1_000_000_000 >= i128::MIN,
    ensures
        activity_of(Seq::empty(), now) == (RecentActivity { open: 0, last_hour: 0, last_day: 0 }),
        ({
            let before = activity_of(s, now);
            let after = activity_of(s.push(e), now);
            let lived = |secs: int|
                e.started_at.nanos <= now.nanos && (e.ended_at matches Some(t) ==> now.nanos
                    - t.nanos <= secs * 1_000_000_000);
            &&& after.open == before.open + if e.ended_at is None {
                1int
            } else {
                0
            }
            &&& after.last_hour == before.last_hour + if lived(3600) {
                1int
            } else {
                0
            }
            &&& after.last_day == before.last_day + if lived(86_400) {
                1int
            } else {
                0
            }
        }),
{
    assert(s.push(e).drop_last() =~= s);
    lemma_counts(s, now);
    lemma_counts(s.push(e), now);
}

proof fn lemma_counts(s: Seq<EpisodeView>, now: Timestamp)
    ensures
        open_in(s) <= s.len(),
        active_in(s, rewound(now, 3600), now) <= s.len(),
        active_in(s, rewound(now, 86_400), now) <= s.len(),
    decreases s.len(),
{
    if s.len() > 0 {
        lemma_counts(s.drop_last(), now);
    }
}

/// The level at which a person is told.
pub open spec fn is_loud(l: Level) -> bool {
    l == Level::Wailing || l == Level::Shrieking
}

/// The level at which nobody is.
pub open spec fn is_calm(l: Level) -> bool {
    l == Level::Checking || l == Level::Quiet || l == Level::Stirring
}

/// A change of level is announced by itself when it gets loud or louder, and when
/// loud gets calm.
pub proof fn law_what_change_is_announced(previous: Level, current: Level)
    ensures
        material(None, current) <==> is_loud(current),
        material(Some(previous), current) <==> (is_loud(current) && !is_loud(previous)) || (current
            == Level::Shrieking && previous == Level::Wailing) || (is_loud(previous) && is_calm(
            current,
        )),
{
}

/// A person is told while it is loud, and beyond the machine at the loudest. That
/// it is over is told of what was loud, once it is calm.
pub proof fn law_who_is_told(n: NoticeView)
    ensures
        n.kind != NotificationKind::Recovered ==> (n.interrupts() <==> is_loud(n.level)) && (
        n.escapes() <==> n.level == Level::Shrieking),
        n.kind == NotificationKind::Recovered ==> (n.interrupts() <==> is_loud(n.peak_level)
            && is_calm(n.level)) && (n.escapes() <==> n.peak_level == Level::Shrieking && is_calm(
            n.level,
        )),
{
}

/// A volume's incident begins with the soonest announced time that it has come down
/// to, so that the opening is not told twice.
pub proof fn law_an_incident_begins_with_its_end(scene: Scene, r: ReadingView, b: u64, i: int)
    requires
        is_read(scene, r),
        is_over(scene, r.dimension),
        fills(r),
        is_least(scene.config.disk_projection_notify_secs@, scene.quotient, b),
        0 <= i < scene.episodes().len(),
        scene.episodes()[i].dimension == r.dimension,
    ensures
        scene.episodes()[i].projection_bracket_secs == Some(b),
{
    let lines = scene.config.disk_projection_notify_secs@;
    lemma_is_read(scene, r);
    lemma_open_episode(scene.open, r.dimension);
    assert(open_episode(scene.open, r.dimension) is None);
    lemma_least_is_crossed(lines, scene.quotient, b);
    lemma_listed(scene, i);
}

proof fn lemma_least_is_crossed(lines: Seq<u64>, projection: Real, b: u64)
    requires
        is_least(lines, projection, b),
    ensures
        crossed(lines, projection) == Some(b),
{
    lemma_crossed(lines, projection);
    let k = choose|k: int| 0 <= k < lines.len() && lines[k] == b;
    match crossed(lines, projection) {
        Some(c) => {
            let m = choose|m: int| 0 <= m < lines.len() && lines[m] == c;
            assert(b <= lines[m] && c <= lines[k]);
        },
        None => {
            assert(!projection.at_most(real_of(lines[k] as nat)));
        },
    }
}

/// A firing incident with nothing new is not written again.
pub proof fn law_old_news_is_not_written(scene: Scene, e: EpisodeView, r: ReadingView)
    requires
        goes_on(scene, e),
        is_read(scene, r),
        r.dimension == e.dimension,
        e.dimension != Dimension::Disk,
        e.state == EpisodeState::Firing,
        r.band == Band::Red,
        scene.pressure.level.height() <= e.peak.level.height(),
        !e.peak.severity.below(r.severity),
        !is_old(scene, e),
        !e.peak.severity.nan(),
        e.census_at_peak matches Some(s) ==> !s.monitor_percent_of_one_core.nan(),
    ensures
        stays_as_it_is(scene, e.dimension),
        is_silent(scene, e.dimension),
{
    lemma_goes_on(scene, e);
    lemma_is_read(scene, r);
    assert(e.same(e));
    let x = becomes(scene, e.dimension);
    assert(x =~= e);
    lemma_no_change(scene, e.dimension);
}

} // verus!
