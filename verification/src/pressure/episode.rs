//! Alerts as episodes with a lifecycle, not point events.
use vstd::prelude::*;

use super::band::Band;
use super::config::{Dimension, PressureConfig, ALL_DIMENSIONS};
use super::disk::{projected_full_secs, time_to_full};
use super::level::Level;
use super::summary::{summarise, summary_of, CensusSummary, SummaryView};
use super::verdict::{
    reading_at, reading_of, DimensionReading, Finding, FindingView, Pressure, PressureView,
    ReadingView,
};
use crate::census::Census;
use crate::number::{real_of, Real};
use crate::outside::{fresh_id, is_random_id};
use crate::text::{copy_maybe, decimal, decimal_text, maybe, owned, push_decimal, same_text, views};
use crate::time::{has_passed, rewound, span_secs, Timestamp};

verus! {

broadcast use crate::text::lemma_views_push;

/// Where an episode is in its lifecycle.
#[derive(Clone, Copy, Debug, PartialEq, Eq, Structural)]
pub enum EpisodeState {
    /// The dimension is red.
    Firing,
    /// The dimension has dropped below red, and the incident is not over until
    /// it has stayed there.
    Recovering,
    /// Over.
    Closed,
}

/// The worst moment of an episode.
#[derive(Clone, Debug, PartialEq, Eq)]
pub struct EpisodePeak {
    pub band: Band,
    pub level: Level,
    pub severity: Real,
    pub at: Timestamp,
    pub message: String,
    /// Who was behind it at that moment.
    pub who_line: Option<String>,
}

#[verifier::ext_equal]
pub struct PeakView {
    pub band: Band,
    pub level: Level,
    pub severity: Real,
    pub at: Timestamp,
    pub message: Seq<char>,
    pub who_line: Option<Seq<char>>,
}

impl View for EpisodePeak {
    type V = PeakView;

    open spec fn view(&self) -> PeakView {
        PeakView {
            band: self.band,
            level: self.level,
            severity: self.severity,
            at: self.at,
            message: self.message@,
            who_line: maybe(self.who_line),
        }
    }
}

/// One continuous incident on one dimension.
#[derive(Clone, Debug, PartialEq, Eq)]
pub struct AlertEpisode {
    pub id: u128,
    pub dimension: Dimension,
    /// When the red run began, not when it had lasted long enough to say so.
    pub started_at: Timestamp,
    /// When the dimension dropped below red for good. `None` while the episode
    /// is open.
    pub ended_at: Option<Timestamp>,
    pub peak: EpisodePeak,
    /// Who was running when the peak was recorded.
    pub census_at_peak: Option<CensusSummary>,
    /// How many times it turned red again without a word.
    pub suppressed: u32,
    pub state: EpisodeState,
    /// When a notice last went out.
    pub last_notified_at: Option<Timestamp>,
    /// When the dimension dropped below red, while recovering and once closed.
    pub recovering_since: Option<Timestamp>,
    /// The smallest announced time to full that a disk episode has crossed.
    pub projection_bracket_secs: Option<u64>,
}

#[verifier::ext_equal]
pub struct EpisodeView {
    pub id: u128,
    pub dimension: Dimension,
    pub started_at: Timestamp,
    pub ended_at: Option<Timestamp>,
    pub peak: PeakView,
    pub census_at_peak: Option<SummaryView>,
    pub suppressed: u32,
    pub state: EpisodeState,
    pub last_notified_at: Option<Timestamp>,
    pub recovering_since: Option<Timestamp>,
    pub projection_bracket_secs: Option<u64>,
}

impl View for AlertEpisode {
    type V = EpisodeView;

    open spec fn view(&self) -> EpisodeView {
        EpisodeView {
            id: self.id,
            dimension: self.dimension,
            started_at: self.started_at,
            ended_at: self.ended_at,
            peak: self.peak@,
            census_at_peak: match self.census_at_peak {
                Some(c) => Some(c@),
                None => None,
            },
            suppressed: self.suppressed,
            state: self.state,
            last_notified_at: self.last_notified_at,
            recovering_since: self.recovering_since,
            projection_bracket_secs: self.projection_bracket_secs,
        }
    }
}

impl EpisodeView {
    pub open spec fn open(self) -> bool {
        self.ended_at is None
    }

    /// Live at some instant from `from` to `to`.
    pub open spec fn active(self, from: Timestamp, to: Timestamp) -> bool {
        &&& self.started_at.nanos <= to.nanos
        &&& self.ended_at matches Some(end) ==> end.nanos >= from.nanos
    }
}

impl AlertEpisode {
    pub fn is_open(&self) -> (r: bool)
        ensures
            r == self@.open(),
    {
        self.ended_at.is_none()
    }

    /// Whether the episode was live at any instant in `[from, to]`.
    pub fn active_within(&self, from: Timestamp, to: Timestamp) -> (r: bool)
        ensures
            r == self@.active(from, to),
    {
        let reaches = match self.ended_at {
            Some(end) => end.nanos >= from.nanos,
            None => true,
        };
        self.started_at.nanos <= to.nanos && reaches
    }
}

/// The long memory in three numbers: what is live, and what was active in the
/// last hour and the last day.
#[derive(Clone, Copy, Debug, PartialEq, Eq, Structural)]
pub struct RecentActivity {
    /// Firing or recovering right now.
    pub open: usize,
    /// Active at any point in the last hour.
    pub last_hour: usize,
    /// Active at any point in the last day.
    pub last_day: usize,
}

impl Default for RecentActivity {
    fn default() -> (r: Self)
        ensures
            r == (RecentActivity { open: 0, last_hour: 0, last_day: 0 }),
    {
        RecentActivity { open: 0, last_hour: 0, last_day: 0 }
    }
}

/// How many episodes are open.
pub open spec fn open_in(s: Seq<EpisodeView>) -> nat
    decreases s.len(),
{
    if s.len() == 0 {
        0
    } else {
        open_in(s.drop_last()) + if s.last().open() {
            1nat
        } else {
            0nat
        }
    }
}

/// How many episodes were live at some instant from `from` to `to`.
pub open spec fn active_in(s: Seq<EpisodeView>, from: Timestamp, to: Timestamp) -> nat
    decreases s.len(),
{
    if s.len() == 0 {
        0
    } else {
        active_in(s.drop_last(), from, to) + if s.last().active(from, to) {
            1nat
        } else {
            0nat
        }
    }
}

pub open spec fn activity_of(s: Seq<EpisodeView>, now: Timestamp) -> RecentActivity {
    RecentActivity {
        open: open_in(s) as usize,
        last_hour: active_in(s, rewound(now, 3600), now) as usize,
        last_day: active_in(s, rewound(now, 86_400), now) as usize,
    }
}

impl RecentActivity {
    /// Count activity, not onsets: an episode that opened five hours ago and is
    /// still firing was part of the last hour.
    pub fn summarise(episodes: &[AlertEpisode], now: Timestamp) -> (r: Self)
        ensures
            r == activity_of(views(episodes@), now),
    {
        let ghost all = views(episodes@);
        let hour = now.before(3600);
        let day = now.before(86_400);
        let mut open: usize = 0;
        let mut last_hour: usize = 0;
        let mut last_day: usize = 0;
        let mut i: usize = 0;
        while i < episodes.len()
            invariant
                i <= episodes.len(),
                all == views(episodes@),
                open == open_in(all.take(i as int)),
                last_hour == active_in(all.take(i as int), hour, now),
                last_day == active_in(all.take(i as int), day, now),
                open <= i,
                last_hour <= i,
                last_day <= i,
            decreases episodes.len() - i,
        {
            assert(all.take(i + 1).drop_last() =~= all.take(i as int));
            let e = &episodes[i];
            assert(all[i as int] == e@);
            if e.is_open() {
                open = open + 1;
            }
            if e.active_within(hour, now) {
                last_hour = last_hour + 1;
            }
            if e.active_within(day, now) {
                last_day = last_day + 1;
            }
            i = i + 1;
        }
        assert(all.take(i as int) =~= all);
        RecentActivity { open, last_hour, last_day }
    }
}

/// The windows nest: what was active in the last hour was active in the last day,
/// and what is open and has begun is active in both.
pub proof fn law_activity_nests(s: Seq<EpisodeView>, now: Timestamp)
    ensures
        active_in(s, rewound(now, 3600), now) <= active_in(s, rewound(now, 86_400), now),
        (forall|i: int| 0 <= i < s.len() ==> (#[trigger] s[i]).started_at.nanos <= now.nanos)
            ==> open_in(s) <= active_in(s, rewound(now, 3600), now),
    decreases s.len(),
{
    if s.len() > 0 {
        let front = s.drop_last();
        law_activity_nests(front, now);
        if forall|i: int| 0 <= i < s.len() ==> (#[trigger] s[i]).started_at.nanos <= now.nanos {
            assert forall|i: int| 0 <= i < front.len() implies (
            #[trigger] front[i]).started_at.nanos <= now.nanos by {
                assert(s[i].started_at.nanos <= now.nanos);
            }
            assert(s[s.len() - 1].started_at.nanos <= now.nanos);
        }
    }
}

impl PeakView {
    /// Equal as values: a severity that is not a number equals nothing.
    pub open spec fn same(self, other: PeakView) -> bool {
        &&& self.band == other.band
        &&& self.level == other.level
        &&& self.severity.same(other.severity)
        &&& self.at == other.at
        &&& self.message == other.message
        &&& self.who_line == other.who_line
    }
}

impl EpisodePeak {
    /// An equal peak.
    pub fn copied(&self) -> (r: EpisodePeak)
        ensures
            r@ == self@,
    {
        EpisodePeak {
            band: self.band,
            level: self.level,
            severity: self.severity,
            at: self.at,
            message: self.message.clone(),
            who_line: copy_maybe(&self.who_line),
        }
    }

    fn is_same(&self, other: &EpisodePeak) -> (r: bool)
        ensures
            r == self@.same(other@),
    {
        self.band == other.band && self.level == other.level && self.severity.is_same(
            other.severity,
        ) && self.at == other.at && same_text(self.message.as_str(), other.message.as_str())
            && same_maybe(&self.who_line, &other.who_line)
    }
}

fn same_maybe(a: &Option<String>, b: &Option<String>) -> (r: bool)
    ensures
        r == (maybe(*a) == maybe(*b)),
{
    match (a, b) {
        (Some(x), Some(y)) => same_text(x.as_str(), y.as_str()),
        (None, None) => true,
        _ => false,
    }
}

pub open spec fn same_summary(a: Option<SummaryView>, b: Option<SummaryView>) -> bool {
    match (a, b) {
        (Some(x), Some(y)) => x.same(y),
        (None, None) => true,
        _ => false,
    }
}

fn is_same_summary(a: &Option<CensusSummary>, b: &Option<CensusSummary>) -> (r: bool)
    ensures
        r == same_summary(
            match *a {
                Some(x) => Some(x@),
                None => None,
            },
            match *b {
                Some(x) => Some(x@),
                None => None,
            },
        ),
{
    match (a, b) {
        (Some(x), Some(y)) => x.is_same(y),
        (None, None) => true,
        _ => false,
    }
}

impl EpisodeView {
    /// Equal as values.
    pub open spec fn same(self, other: EpisodeView) -> bool {
        &&& self.id == other.id
        &&& self.dimension == other.dimension
        &&& self.started_at == other.started_at
        &&& self.ended_at == other.ended_at
        &&& self.peak.same(other.peak)
        &&& same_summary(self.census_at_peak, other.census_at_peak)
        &&& self.suppressed == other.suppressed
        &&& self.state == other.state
        &&& self.last_notified_at == other.last_notified_at
        &&& self.recovering_since == other.recovering_since
        &&& self.projection_bracket_secs == other.projection_bracket_secs
    }
}

fn same_instant(a: Option<Timestamp>, b: Option<Timestamp>) -> (r: bool)
    ensures
        r == (a == b),
{
    match (a, b) {
        (Some(x), Some(y)) => x == y,
        (None, None) => true,
        _ => false,
    }
}

fn same_secs(a: Option<u64>, b: Option<u64>) -> (r: bool)
    ensures
        r == (a == b),
{
    match (a, b) {
        (Some(x), Some(y)) => x == y,
        (None, None) => true,
        _ => false,
    }
}

impl AlertEpisode {
    /// An equal episode.
    pub fn copied(&self) -> (r: AlertEpisode)
        ensures
            r@ == self@,
    {
        AlertEpisode {
            id: self.id,
            dimension: self.dimension,
            started_at: self.started_at,
            ended_at: self.ended_at,
            peak: self.peak.copied(),
            census_at_peak: match &self.census_at_peak {
                Some(c) => Some(c.copied()),
                None => None,
            },
            suppressed: self.suppressed,
            state: self.state,
            last_notified_at: self.last_notified_at,
            recovering_since: self.recovering_since,
            projection_bracket_secs: self.projection_bracket_secs,
        }
    }

    fn is_same(&self, other: &AlertEpisode) -> (r: bool)
        ensures
            r == self@.same(other@),
    {
        self.id == other.id && self.dimension == other.dimension && self.started_at
            == other.started_at && same_instant(self.ended_at, other.ended_at)
            && self.peak.is_same(&other.peak) && is_same_summary(
            &self.census_at_peak,
            &other.census_at_peak,
        ) && self.suppressed == other.suppressed && self.state == other.state && same_instant(
            self.last_notified_at,
            other.last_notified_at,
        ) && same_instant(self.recovering_since, other.recovering_since) && same_secs(
            self.projection_bracket_secs,
            other.projection_bracket_secs,
        )
    }
}

/// What kind of news a notification carries.
#[derive(Clone, Copy, Debug, PartialEq, Eq, Structural)]
pub enum NotificationKind {
    /// A new episode.
    Opened,
    /// The machine got worse than the episode had been, or a volume will be full
    /// sooner than announced.
    Reescalated,
    /// Still firing; a reminder.
    Repeat,
    /// The episode closed. Once per episode.
    Recovered,
}

/// Something to say. An episode is something to record: every one is written,
/// and most evaluations say nothing.
#[derive(Clone, Debug, PartialEq, Eq)]
pub struct Notification {
    pub kind: NotificationKind,
    pub episode_id: u128,
    pub dimension: Dimension,
    /// The level now, which routes delivery.
    pub level: Level,
    /// The episode's peak level, which routes the recovery notice.
    pub peak_level: Level,
    pub message: String,
    pub at: Timestamp,
    pub suppressed: u32,
}

#[verifier::ext_equal]
pub struct NoticeView {
    pub kind: NotificationKind,
    pub episode_id: u128,
    pub dimension: Dimension,
    pub level: Level,
    pub peak_level: Level,
    pub message: Seq<char>,
    pub at: Timestamp,
    pub suppressed: u32,
}

impl View for Notification {
    type V = NoticeView;

    open spec fn view(&self) -> NoticeView {
        NoticeView {
            kind: self.kind,
            episode_id: self.episode_id,
            dimension: self.dimension,
            level: self.level,
            peak_level: self.peak_level,
            message: self.message@,
            at: self.at,
            suppressed: self.suppressed,
        }
    }
}

impl NoticeView {
    /// A recovery is good news only for someone who was told, and only once the
    /// machine is calm again; everything else goes by the level now.
    pub open spec fn interrupts(self) -> bool {
        if self.kind == NotificationKind::Recovered {
            self.peak_level.height() >= Level::Wailing.height() && self.level.height()
                <= Level::Stirring.height()
        } else {
            self.level.height() >= Level::Wailing.height()
        }
    }

    pub open spec fn escapes(self) -> bool {
        if self.kind == NotificationKind::Recovered {
            self.peak_level.height() >= Level::Shrieking.height() && self.interrupts()
        } else {
            self.level.height() >= Level::Shrieking.height()
        }
    }
}

impl Notification {
    /// Whether this should interrupt a person.
    pub fn warrants_notification(&self) -> (r: bool)
        ensures
            r == self@.interrupts(),
    {
        match self.kind {
            NotificationKind::Recovered => {
                self.peak_level.warrants_notification() && self.level.rank()
                    <= Level::Stirring.rank()
            },
            _ => self.level.warrants_notification(),
        }
    }

    /// Whether this should leave the machine.
    pub fn warrants_escalation(&self) -> (r: bool)
        ensures
            r == self@.escapes(),
    {
        match self.kind {
            NotificationKind::Recovered => {
                self.peak_level.warrants_escalation() && self.warrants_notification()
            },
            _ => self.level.warrants_escalation(),
        }
    }
}

/// The result of one reconciliation: the episodes that changed, and what to say.
#[derive(Clone, Debug, PartialEq, Eq)]
pub struct Reconciled {
    pub episodes: Vec<AlertEpisode>,
    pub notifications: Vec<Notification>,
}

/// The dimensions whose firing mutes another one's notices, never its episode.
///
/// Thrashing and a full swap are one event told twice.
pub fn inhibitors(d: Dimension) -> (r: &'static [Dimension])
    ensures
        r@ == (if d == Dimension::Swap {
            seq![Dimension::Thrash]
        } else {
            Seq::empty()
        }),
{
    match d {
        Dimension::Swap => {
            let r: &'static [Dimension] = &[Dimension::Thrash];
            assert(r@ =~= seq![Dimension::Thrash]);
            r
        },
        _ => {
            let r: &'static [Dimension] = &[];
            assert(r@ =~= Seq::empty());
            r
        },
    }
}

/// The first finding about a dimension.
pub open spec fn finding_about(s: Seq<FindingView>, d: Dimension) -> Option<FindingView>
    decreases s.len(),
{
    if s.len() == 0 {
        None
    } else if s[0].dimension == d {
        Some(s[0])
    } else {
        finding_about(s.drop_first(), d)
    }
}

fn finding_for<'a>(d: Dimension, p: &'a Pressure) -> (r: Option<&'a Finding>)
    ensures
        match r {
            Some(f) => finding_about(p@.findings, d) == Some(f@),
            None => finding_about(p@.findings, d) is None,
        },
{
    let ghost all = p@.findings;
    let mut i: usize = 0;
    assert(all.skip(0) =~= all);
    while i < p.findings.len()
        invariant
            i <= p.findings.len(),
            all == views(p.findings@),
            finding_about(all, d) == finding_about(all.skip(i as int), d),
        decreases p.findings.len() - i,
    {
        assert(all.skip(i as int)[0] == p.findings[i as int]@);
        assert(all.skip(i as int).drop_first() =~= all.skip(i + 1));
        if p.findings[i].dimension == d {
            return Some(&p.findings[i]);
        }
        i = i + 1;
    }
    None
}

/// What an alert says of a reading: the finding's words where there is one, so
/// that an alert and the worklist never describe one thing in two ways.
pub open spec fn alert_text(r: ReadingView, p: PressureView) -> Seq<char> {
    match finding_about(p.findings, r.dimension) {
        Some(f) => f.message,
        None => r.label + ": "@ + r.detail,
    }
}

fn message_for(r: &DimensionReading, p: &Pressure) -> (m: String)
    ensures
        m@ == alert_text(r@, p@),
{
    match finding_for(r.dimension, p) {
        Some(f) => f.message.clone(),
        None => {
            let mut out = r.label.clone();
            out.append(": ");
            out.append(r.detail.as_str());
            out
        },
    }
}

/// Who is behind a reading, as its finding tells.
pub open spec fn alert_who(d: Dimension, p: PressureView) -> Option<Seq<char>> {
    match finding_about(p.findings, d) {
        Some(f) => f.who_line,
        None => None,
    }
}

pub open spec fn peak_of(r: ReadingView, p: PressureView, now: Timestamp) -> PeakView {
    PeakView {
        band: r.band,
        level: p.level,
        severity: r.severity,
        at: now,
        message: alert_text(r, p),
        who_line: alert_who(r.dimension, p),
    }
}

fn peak_now(r: &DimensionReading, p: &Pressure, now: Timestamp) -> (x: EpisodePeak)
    ensures
        x@ == peak_of(r@, p@, now),
{
    let who_line = match finding_for(r.dimension, p) {
        Some(f) => copy_maybe(&f.who_line),
        None => None,
    };
    EpisodePeak {
        band: r.band,
        level: p.level,
        severity: r.severity,
        at: now,
        message: message_for(r, p),
        who_line,
    }
}

/// The smallest announced time that the projection has come down to.
pub open spec fn crossed(lines: Seq<u64>, projection: Real) -> Option<u64>
    decreases lines.len(),
{
    if lines.len() == 0 {
        None
    } else {
        let front = crossed(lines.drop_last(), projection);
        let b = lines.last();
        if projection.at_most(real_of(b as nat)) {
            match front {
                Some(x) if x <= b => front,
                _ => Some(b),
            }
        } else {
            front
        }
    }
}

fn least_crossed(lines: &Vec<u64>, projection: Real) -> (r: Option<u64>)
    ensures
        r == crossed(lines@, projection),
{
    let mut least: Option<u64> = None;
    let mut i: usize = 0;
    while i < lines.len()
        invariant
            i <= lines.len(),
            least == crossed(lines@.take(i as int), projection),
        decreases lines.len() - i,
    {
        assert(lines@.take(i + 1).drop_last() =~= lines@.take(i as int));
        let b: u64 = lines[i];
        if projection.is_at_most(Real::from_u64(b)) {
            let keep = match least {
                Some(x) => x <= b,
                None => false,
            };
            if !keep {
                least = Some(b);
            }
        }
        i = i + 1;
    }
    assert(lines@.take(i as int) =~= lines@);
    least
}

/// The time until the data volume is full, by a reading of it. `quotient` is what
/// is free over what goes per second.
pub open spec fn projection_of(r: ReadingView, quotient: Real) -> Option<Real> {
    time_to_full(r.value, r.trend_per_sec, quotient)
}

/// The bracket after a projection: a smaller line than any before, or as it was.
/// Only disk counts down to anything.
pub open spec fn bracket_after(
    e: EpisodeView,
    projection: Option<Real>,
    lines: Seq<u64>,
) -> Option<u64> {
    let before = e.projection_bracket_secs;
    match projection {
        Some(p) if e.dimension == Dimension::Disk => match (crossed(lines, p), before) {
            (Some(b), None) => Some(b),
            (Some(b), Some(prev)) => if b < prev {
                Some(b)
            } else {
                before
            },
            _ => before,
        },
        _ => before,
    }
}

/// The bracket moved.
pub open spec fn sooner(e: EpisodeView, projection: Option<Real>, lines: Seq<u64>) -> bool {
    bracket_after(e, projection, lines) != e.projection_bracket_secs
}

fn record_projection(
    next: &mut AlertEpisode,
    projection: Option<Real>,
    config: &PressureConfig,
) -> (r: bool)
    ensures
        r == sooner(old(next)@, projection, config.disk_projection_notify_secs@),
        final(next)@ == (EpisodeView {
            projection_bracket_secs: bracket_after(
                old(next)@,
                projection,
                config.disk_projection_notify_secs@,
            ),
            ..old(next)@
        }),
{
    if next.dimension != Dimension::Disk {
        return false;
    }
    let line = match projection {
        Some(p) => least_crossed(&config.disk_projection_notify_secs, p),
        None => None,
    };
    match line {
        Some(b) => {
            let smaller = match next.projection_bracket_secs {
                Some(prev) => b < prev,
                None => true,
            };
            if smaller {
                next.projection_bracket_secs = Some(b);
            }
            smaller
        },
        None => false,
    }
}

/// The machine is worse than the episode has seen it.
pub open spec fn worsened(e: EpisodeView, p: PressureView) -> bool {
    p.level.height() > e.peak.level.height()
}

/// The peak that a moment makes of an earlier one: this moment, at the worst
/// level either has seen.
pub open spec fn peak_moved(
    before: PeakView,
    r: ReadingView,
    p: PressureView,
    now: Timestamp,
) -> PeakView {
    PeakView {
        level: if p.level.height() > before.level.height() {
            p.level
        } else {
            before.level
        },
        ..peak_of(r, p, now)
    }
}

/// The episode with the current reading folded into its peak. The level of the
/// peak never falls, and the census behind the peak moves with it, and only with
/// it.
pub open spec fn peak_folded(
    e: EpisodeView,
    r: ReadingView,
    p: PressureView,
    summary: Option<SummaryView>,
    now: Timestamp,
) -> EpisodeView {
    if worsened(e, p) || e.peak.severity.below(r.severity) {
        EpisodeView { peak: peak_moved(e.peak, r, p, now), census_at_peak: summary, ..e }
    } else {
        e
    }
}

pub open spec fn summary_view(c: Option<&CensusSummary>) -> Option<SummaryView> {
    match c {
        Some(x) => Some(x@),
        None => None,
    }
}

fn copy_summary(c: Option<&CensusSummary>) -> (r: Option<CensusSummary>)
    ensures
        (match r {
            Some(x) => Some(x@),
            None => None,
        }) == summary_view(c),
{
    match c {
        Some(x) => Some(x.copied()),
        None => None,
    }
}

/// Fold the current reading into an episode's peak. What comes back is whether the
/// machine is worse than the episode had seen it.
pub fn record_peak(
    next: &mut AlertEpisode,
    r: &DimensionReading,
    pressure: &Pressure,
    summary: Option<&CensusSummary>,
    now: Timestamp,
) -> (escalated: bool)
    ensures
        escalated == worsened(old(next)@, pressure@),
        final(next)@ == peak_folded(old(next)@, r@, pressure@, summary_view(summary), now),
{
    let escalated = pressure.level.rank() > next.peak.level.rank();
    if escalated || next.peak.severity.is_below(r.severity) {
        let mut peak = peak_now(r, pressure, now);
        if !escalated {
            // The all-clear is owed where the crisis was announced.
            peak.level = next.peak.level;
        }
        next.peak = peak;
        next.census_at_peak = copy_summary(summary);
    }
    escalated
}

/// Whether a reading that has no episode opens one: red, not advisory, and seen
/// to be red for long enough.
pub open spec fn is_due(r: ReadingView, config: PressureConfig) -> bool {
    r.band == Band::Red && !r.advisory && r.held_secs >= config.episode_up_secs
}

/// The episode a reading opens.
pub open spec fn opened(
    id: u128,
    r: ReadingView,
    p: PressureView,
    summary: Option<SummaryView>,
    now: Timestamp,
    quotient: Real,
    config: PressureConfig,
) -> EpisodeView {
    let fresh = EpisodeView {
        id,
        dimension: r.dimension,
        started_at: rewound(now, r.held_secs),
        ended_at: None,
        peak: peak_of(r, p, now),
        census_at_peak: summary,
        suppressed: 0,
        state: EpisodeState::Firing,
        last_notified_at: None,
        recovering_since: None,
        projection_bracket_secs: None,
    };
    EpisodeView {
        projection_bracket_secs: bracket_after(
            fresh,
            projection_of(r, quotient),
            config.disk_projection_notify_secs@,
        ),
        ..fresh
    }
}

fn due(r: &DimensionReading, config: &PressureConfig) -> (b: bool)
    ensures
        b == is_due(r@, *config),
{
    r.band == Band::Red && !r.advisory && r.held_secs >= config.episode_up_secs
}

/// A new episode under a given identifier, if the reading has been red, under
/// continuous observation, for the up delay.
pub fn open_if_due(
    id: u128,
    r: &DimensionReading,
    pressure: &Pressure,
    summary: Option<&CensusSummary>,
    now: Timestamp,
    quotient: Real,
    config: &PressureConfig,
) -> (e: Option<AlertEpisode>)
    ensures
        e is Some <==> is_due(r@, *config),
        e matches Some(x) ==> x@ == opened(
            id,
            r@,
            pressure@,
            summary_view(summary),
            now,
            quotient,
            *config,
        ),
{
    if !due(r, config) {
        return None;
    }
    let mut episode = AlertEpisode {
        id,
        dimension: r.dimension,
        started_at: now.before(r.held_secs),
        ended_at: None,
        peak: peak_now(r, pressure, now),
        census_at_peak: copy_summary(summary),
        suppressed: 0,
        state: EpisodeState::Firing,
        last_notified_at: None,
        recovering_since: None,
        projection_bracket_secs: None,
    };
    // The opening notice carries the projection already: the next news is the
    // next line crossed.
    let _ = record_projection(
        &mut episode,
        projected_full_secs(r.value, r.trend_per_sec, quotient),
        config,
    );
    Some(episode)
}

/// The repeat clock has run out.
pub open spec fn repeat_due(e: EpisodeView, now: Timestamp, config: PressureConfig) -> bool {
    e.last_notified_at matches Some(t) ==> has_passed(now, t, config.episode_repeat_secs)
}

/// Another sample of an open episode: what it becomes, and whether that is worth
/// writing down. `None` leaves it alone.
pub open spec fn stepped(
    e: EpisodeView,
    r: ReadingView,
    p: PressureView,
    summary: Option<SummaryView>,
    now: Timestamp,
    quotient: Real,
    config: PressureConfig,
) -> Option<(EpisodeView, bool)> {
    let red = r.band == Band::Red;
    let projection = projection_of(r, quotient);
    let lines = config.disk_projection_notify_secs@;
    match e.state {
        EpisodeState::Firing => if red {
            let peaked = peak_folded(e, r, p, summary, now);
            let next = EpisodeView {
                projection_bracket_secs: bracket_after(peaked, projection, lines),
                ..peaked
            };
            Some(
                (
                    next,
                    worsened(e, p) || sooner(e, projection, lines) || repeat_due(e, now, config)
                        || !next.same(e),
                ),
            )
        } else {
            Some(
                (
                    EpisodeView {
                        state: EpisodeState::Recovering,
                        recovering_since: Some(now),
                        ..e
                    },
                    true,
                ),
            )
        },
        EpisodeState::Recovering => if red {
            let again = EpisodeView { state: EpisodeState::Firing, recovering_since: None, ..e };
            let peaked = peak_folded(again, r, p, summary, now);
            Some(
                (
                    EpisodeView {
                        projection_bracket_secs: bracket_after(peaked, projection, lines),
                        suppressed: if worsened(e, p) || sooner(e, projection, lines) || repeat_due(
                            e,
                            now,
                            config,
                        ) || e.suppressed == u32::MAX {
                            e.suppressed
                        } else {
                            (e.suppressed + 1) as u32
                        },
                        ..peaked
                    },
                    true,
                ),
            )
        } else {
            let since = match e.recovering_since {
                Some(t) => t,
                None => now,
            };
            if has_passed(now, since, config.episode_down_secs) {
                Some((EpisodeView { state: EpisodeState::Closed, ended_at: Some(since), ..e }, true))
            } else {
                None
            }
        },
        EpisodeState::Closed => None,
    }
}

/// Advance one open episode against its dimension's current reading.
pub fn step(
    e: &AlertEpisode,
    r: &DimensionReading,
    pressure: &Pressure,
    summary: Option<&CensusSummary>,
    now: Timestamp,
    quotient: Real,
    config: &PressureConfig,
) -> (x: Option<(AlertEpisode, bool)>)
    ensures
        (match x {
            Some((next, changed)) => Some((next@, changed)),
            None => None,
        }) == stepped(e@, r@, pressure@, summary_view(summary), now, quotient, *config),
{
    let mut next = e.copied();
    let red = r.band == Band::Red;
    let projection = projected_full_secs(r.value, r.trend_per_sec, quotient);
    let repeat = is_repeat_due(e, now, config);
    match e.state {
        EpisodeState::Firing => {
            if red {
                let escalated = record_peak(&mut next, r, pressure, summary, now);
                let crossed = record_projection(&mut next, projection, config);
                let changed = escalated || crossed || repeat || !next.is_same(e);
                Some((next, changed))
            } else {
                next.state = EpisodeState::Recovering;
                next.recovering_since = Some(now);
                Some((next, true))
            }
        },
        EpisodeState::Recovering => {
            if red {
                // The same incident: the episode reopens.
                next.state = EpisodeState::Firing;
                next.recovering_since = None;
                let escalated = record_peak(&mut next, r, pressure, summary, now);
                let crossed = record_projection(&mut next, projection, config);
                if !escalated && !crossed && !repeat {
                    next.suppressed = next.suppressed.saturating_add(1);
                }
                Some((next, true))
            } else {
                let since = match e.recovering_since {
                    Some(t) => t,
                    None => now,
                };
                if now.is_past(since, config.episode_down_secs) {
                    next.state = EpisodeState::Closed;
                    // It ended when the dimension dropped below red, not when the
                    // waiting was over.
                    next.ended_at = Some(since);
                    Some((next, true))
                } else {
                    None
                }
            }
        },
        EpisodeState::Closed => None,
    }
}

/// A span at a human scale: `45s`, `12m`, `1h2m`, `3d4h`.
pub open spec fn span_text(secs: u64) -> Seq<char> {
    if secs < 60 {
        decimal(secs as nat) + "s"@
    } else if secs < 3600 {
        decimal((secs / 60) as nat) + "m"@
    } else if secs < 86_400 {
        decimal((secs / 3600) as nat) + "h"@ + decimal(((secs % 3600) / 60) as nat) + "m"@
    } else {
        decimal((secs / 86_400) as nat) + "d"@ + decimal(((secs % 86_400) / 3600) as nat) + "h"@
    }
}

fn fmt_secs(secs: u64) -> (r: String)
    ensures
        r@ == span_text(secs),
{
    if secs < 60 {
        let mut out = decimal_text(secs);
        out.append("s");
        out
    } else if secs < 3600 {
        let mut out = decimal_text(secs / 60);
        out.append("m");
        out
    } else if secs < 86_400 {
        let mut out = decimal_text(secs / 3600);
        out.append("h");
        push_decimal(&mut out, (secs % 3600) / 60);
        out.append("m");
        out
    } else {
        let mut out = decimal_text(secs / 86_400);
        out.append("d");
        push_decimal(&mut out, (secs % 86_400) / 3600);
        out.append("h");
        out
    }
}

/// What kind of news a change is, if it is news. `before` is the episode as it
/// was, none for a new one. A reminder goes out once it is due, and a deeper red
/// by itself is the same news.
pub open spec fn news(
    after: EpisodeView,
    before: Option<EpisodeView>,
    now: Timestamp,
    config: PressureConfig,
) -> Option<NotificationKind> {
    match (before, after.state) {
        (None, EpisodeState::Firing) => Some(NotificationKind::Opened),
        (Some(_), EpisodeState::Closed) => Some(NotificationKind::Recovered),
        (Some(b), EpisodeState::Firing) => if after.peak.level.height() > b.peak.level.height() {
            Some(NotificationKind::Reescalated)
        } else if after.projection_bracket_secs != b.projection_bracket_secs
            && after.projection_bracket_secs is Some {
            Some(NotificationKind::Reescalated)
        } else if b.suppressed != after.suppressed {
            // Counted, not spoken.
            None
        } else if repeat_due(b, now, config) {
            Some(NotificationKind::Repeat)
        } else {
            None
        },
        _ => None,
    }
}

/// The words of a notice.
pub open spec fn notice_text(
    kind: NotificationKind,
    after: EpisodeView,
    p: PressureView,
    now: Timestamp,
) -> Seq<char> {
    let reading = reading_of(p.dimensions, after.dimension);
    if kind == NotificationKind::Recovered {
        let ended = match after.ended_at {
            Some(t) => t,
            None => now,
        };
        after.dimension.label_text() + " recovered after "@ + span_text(
            span_secs(ended, after.started_at),
        ) + (match reading {
            Some(r) => " (now "@ + r.detail + ")"@,
            None => Seq::empty(),
        })
    } else {
        (match reading {
            Some(r) => alert_text(r, p),
            None => after.peak.message,
        }) + " Red for "@ + span_text(span_secs(now, after.started_at)) + (match reading {
            Some(r) => match alert_who(r.dimension, p) {
                Some(who) => "; "@ + who,
                None => Seq::empty(),
            },
            None => Seq::empty(),
        }) + "."@
    }
}

/// The notice a change is worth, if any.
pub open spec fn notice_of(
    after: EpisodeView,
    before: Option<EpisodeView>,
    p: PressureView,
    now: Timestamp,
    config: PressureConfig,
) -> Option<NoticeView> {
    match news(after, before, now, config) {
        None => None,
        Some(kind) => Some(
            NoticeView {
                kind,
                episode_id: after.id,
                dimension: after.dimension,
                level: p.level,
                peak_level: after.peak.level,
                message: notice_text(kind, after, p, now),
                at: now,
                suppressed: after.suppressed,
            },
        ),
    }
}

pub open spec fn episode_view(e: Option<&AlertEpisode>) -> Option<EpisodeView> {
    match e {
        Some(x) => Some(x@),
        None => None,
    }
}

pub open spec fn notice_view(n: Option<Notification>) -> Option<NoticeView> {
    match n {
        Some(x) => Some(x@),
        None => None,
    }
}

fn is_repeat_due(e: &AlertEpisode, now: Timestamp, config: &PressureConfig) -> (r: bool)
    ensures
        r == repeat_due(e@, now, *config),
{
    match e.last_notified_at {
        Some(t) => now.is_past(t, config.episode_repeat_secs),
        None => true,
    }
}

fn kind_of_news(
    after: &AlertEpisode,
    before: Option<&AlertEpisode>,
    now: Timestamp,
    config: &PressureConfig,
) -> (r: Option<NotificationKind>)
    ensures
        r == news(after@, episode_view(before), now, *config),
{
    match (before, after.state) {
        (None, EpisodeState::Firing) => Some(NotificationKind::Opened),
        (Some(_), EpisodeState::Closed) => Some(NotificationKind::Recovered),
        (Some(b), EpisodeState::Firing) => {
            if after.peak.level.rank() > b.peak.level.rank() {
                Some(NotificationKind::Reescalated)
            } else if !same_secs(after.projection_bracket_secs, b.projection_bracket_secs)
                && after.projection_bracket_secs.is_some() {
                Some(NotificationKind::Reescalated)
            } else if b.suppressed != after.suppressed {
                None
            } else if is_repeat_due(b, now, config) {
                Some(NotificationKind::Repeat)
            } else {
                None
            }
        },
        _ => None,
    }
}

/// What, if anything, a change is worth saying.
pub fn pending_notification(
    after: &AlertEpisode,
    before: Option<&AlertEpisode>,
    pressure: &Pressure,
    now: Timestamp,
    config: &PressureConfig,
) -> (r: Option<Notification>)
    ensures
        notice_view(r) == notice_of(after@, episode_view(before), pressure@, now, *config),
{
    let kind = match kind_of_news(after, before, now, config) {
        Some(k) => k,
        None => return None,
    };
    let reading = pressure.reading(after.dimension);
    let message = match kind {
        NotificationKind::Recovered => {
            let ended = match after.ended_at {
                Some(t) => t,
                None => now,
            };
            let mut out = after.dimension.label().to_owned();
            out.append(" recovered after ");
            out.append(fmt_secs(ended.secs_since(after.started_at)).as_str());
            let detail = match reading {
                Some(r) => crate::pressure::wording::three(" (now ", r.detail.as_str(), ")"),
                None => String::new(),
            };
            out.append(detail.as_str());
            out
        },
        _ => {
            let mut out = match reading {
                Some(r) => message_for(r, pressure),
                None => after.peak.message.clone(),
            };
            out.append(" Red for ");
            out.append(fmt_secs(now.secs_since(after.started_at)).as_str());
            let mut who = String::new();
            match reading {
                Some(r) => match finding_for(r.dimension, pressure) {
                    Some(f) => match &f.who_line {
                        Some(line) => {
                            who = "; ".to_owned();
                            who.append(line.as_str());
                        },
                        None => {},
                    },
                    None => {},
                },
                None => {},
            }
            out.append(who.as_str());
            out.append(".");
            out
        },
    };
    Some(
        Notification {
            kind,
            episode_id: after.id,
            dimension: after.dimension,
            level: pressure.level,
            peak_level: after.peak.level,
            message,
            at: now,
            suppressed: after.suppressed,
        },
    )
}

/// An episode that changed, and what the change is worth saying.
struct Change {
    episode: AlertEpisode,
    notice: Option<Notification>,
}

/// An episode that changed, and what the change is worth saying.
#[verifier::ext_equal]
pub struct ChangeView {
    pub episode: EpisodeView,
    pub notice: Option<NoticeView>,
}

impl View for Change {
    type V = ChangeView;

    closed spec fn view(&self) -> ChangeView {
        ChangeView { episode: self.episode@, notice: notice_view(self.notice) }
    }
}

/// The open episode of a dimension: the first there is.
pub open spec fn open_episode(s: Seq<EpisodeView>, d: Dimension) -> Option<EpisodeView>
    decreases s.len(),
{
    if s.len() == 0 {
        None
    } else if s[0].dimension == d && s[0].open() {
        Some(s[0])
    } else {
        open_episode(s.drop_first(), d)
    }
}

fn existing_episode<'a>(s: &'a [AlertEpisode], d: Dimension) -> (r: Option<&'a AlertEpisode>)
    ensures
        episode_view(r) == open_episode(views(s@), d),
{
    let ghost all = views(s@);
    let mut i: usize = 0;
    assert(all.skip(0) =~= all);
    while i < s.len()
        invariant
            i <= s.len(),
            all == views(s@),
            open_episode(all, d) == open_episode(all.skip(i as int), d),
        decreases s.len() - i,
    {
        assert(all.skip(i as int)[0] == s[i as int]@);
        assert(all.skip(i as int).drop_first() =~= all.skip(i + 1));
        if s[i].dimension == d && s[i].is_open() {
            return Some(&s[i]);
        }
        i = i + 1;
    }
    None
}

/// Everything one reconciliation looks at.
#[verifier::ext_equal]
pub struct Scene {
    pub open: Seq<EpisodeView>,
    pub pressure: PressureView,
    pub summary: Option<SummaryView>,
    pub now: Timestamp,
    pub quotient: Real,
    pub config: PressureConfig,
    /// The identifier a new episode gets, by dimension.
    pub ids: Seq<u128>,
}

impl Scene {
    /// What becomes of a dimension: its episode after this evaluation and
    /// whether it changed. A dimension that was not observed is left alone: not
    /// measured is not below red.
    pub open spec fn outcome(self, d: Dimension) -> Option<(EpisodeView, bool)> {
        match (open_episode(self.open, d), reading_of(self.pressure.dimensions, d)) {
            (Some(e), Some(r)) => stepped(
                e,
                r,
                self.pressure,
                self.summary,
                self.now,
                self.quotient,
                self.config,
            ),
            (None, Some(r)) => if is_due(r, self.config) {
                Some(
                    (
                        opened(
                            self.ids[d.place()],
                            r,
                            self.pressure,
                            self.summary,
                            self.now,
                            self.quotient,
                            self.config,
                        ),
                        true,
                    ),
                )
            } else {
                None
            },
            _ => None,
        }
    }

    /// Whether a dimension's episode fires after this evaluation.
    pub open spec fn fires(self, d: Dimension) -> bool {
        match self.outcome(d) {
            Some((e, _)) => e.state == EpisodeState::Firing,
            None => open_episode(self.open, d) matches Some(e) && e.state == EpisodeState::Firing,
        }
    }

    /// The changes among the first `k` dimensions.
    pub open spec fn changes(self, k: int) -> Seq<ChangeView>
        decreases k,
    {
        if k <= 0 {
            Seq::empty()
        } else {
            let front = self.changes(k - 1);
            let d = ALL_DIMENSIONS@[k - 1];
            match self.outcome(d) {
                Some((e, true)) => front.push(
                    ChangeView {
                        episode: e,
                        notice: notice_of(
                            e,
                            open_episode(self.open, d),
                            self.pressure,
                            self.now,
                            self.config,
                        ),
                    },
                ),
                _ => front,
            }
        }
    }

    /// A dimension's notices are muted while what causes it is firing.
    pub open spec fn muted(self, d: Dimension) -> bool {
        d == Dimension::Swap && self.fires(Dimension::Thrash)
    }

    /// Whether a change is spoken.
    pub open spec fn spoken(self, c: ChangeView) -> bool {
        c.notice matches Some(n) && !self.muted(n.dimension)
    }

    /// The episode as it is written: a notice that goes out resets the repeat
    /// clock, a muted one does not.
    pub open spec fn written(self, c: ChangeView) -> EpisodeView {
        if self.spoken(c) && c.notice->0.kind != NotificationKind::Recovered {
            EpisodeView { last_notified_at: Some(self.now), ..c.episode }
        } else {
            c.episode
        }
    }

    pub open spec fn all_written(self, s: Seq<ChangeView>) -> Seq<EpisodeView>
        decreases s.len(),
    {
        if s.len() == 0 {
            Seq::empty()
        } else {
            self.all_written(s.drop_last()).push(self.written(s.last()))
        }
    }

    pub open spec fn all_spoken(self, s: Seq<ChangeView>) -> Seq<NoticeView>
        decreases s.len(),
    {
        if s.len() == 0 {
            Seq::empty()
        } else if self.spoken(s.last()) {
            self.all_spoken(s.drop_last()).push(s.last().notice->0)
        } else {
            self.all_spoken(s.drop_last())
        }
    }

    /// The episodes to write. Nothing moves while the verdict is not trusted.
    pub open spec fn episodes(self) -> Seq<EpisodeView> {
        if self.pressure.level == Level::Checking {
            Seq::empty()
        } else {
            self.all_written(self.changes(14))
        }
    }

    /// What to say.
    pub open spec fn notices(self) -> Seq<NoticeView> {
        if self.pressure.level == Level::Checking {
            Seq::empty()
        } else {
            self.all_spoken(self.changes(14))
        }
    }
}

/// What a reconciliation looks at.
pub open spec fn scene_of(
    open: Seq<EpisodeView>,
    pressure: PressureView,
    census: Option<Census>,
    now: Timestamp,
    quotient: Real,
    config: PressureConfig,
    ids: Seq<u128>,
) -> Scene {
    Scene {
        open,
        pressure,
        summary: match census {
            Some(c) => Some(summary_of(c)),
            None => None,
        },
        now,
        quotient,
        config,
        ids,
    }
}

/// Advance every dimension's episode by one evaluation, under given identifiers:
/// `ids` holds one per dimension, for the episode it may open.
///
/// `open` holds every open episode, in any order. `census` is the newest one.
/// `quotient` is what is free on the data volume over what goes per second. What comes back are
/// the episodes that changed, and the notices that are not muted.
pub fn reconcile_with_ids(
    open: &[AlertEpisode],
    pressure: &Pressure,
    census: Option<&Census>,
    now: Timestamp,
    quotient: Real,
    config: &PressureConfig,
    ids: &[u128; 14],
) -> (r: Reconciled)
    ensures
        views(r.episodes@) == scene_of(
            views(open@),
            pressure@,
            owned(census),
            now,
            quotient,
            *config,
            ids@,
        ).episodes(),
        views(r.notifications@) == scene_of(
            views(open@),
            pressure@,
            owned(census),
            now,
            quotient,
            *config,
            ids@,
        ).notices(),
{
    let ghost scene = scene_of(
        views(open@),
        pressure@,
        owned(census),
        now,
        quotient,
        *config,
        ids@,
    );
    let mut episodes: Vec<AlertEpisode> = Vec::new();
    let mut notifications: Vec<Notification> = Vec::new();
    assert(views(episodes@) =~= Seq::empty());
    assert(views(notifications@) =~= Seq::empty());
    if pressure.level == Level::Checking {
        return Reconciled { episodes, notifications };
    }
    let summary: Option<CensusSummary> = match census {
        Some(c) => Some(summarise(c)),
        None => None,
    };
    let summary_ref: Option<&CensusSummary> = match &summary {
        Some(s) => Some(s),
        None => None,
    };
    assert(summary_view(summary_ref) == scene.summary);
    let mut changes: Vec<Change> = Vec::new();
    let mut thrashing = false;
    let mut k: usize = 0;
    assert(views(changes@) =~= Seq::empty());
    while k < 14
        invariant
            k <= 14,
            scene == scene_of(
                views(open@),
                pressure@,
                owned(census),
                now,
                quotient,
                *config,
                ids@,
            ),
            summary_view(summary_ref) == scene.summary,
            views(changes@) == scene.changes(k as int),
            changes.len() <= k,
            thrashing == (k > Dimension::Thrash.place() && scene.fires(Dimension::Thrash)),
        decreases 14 - k,
    {
        let d = ALL_DIMENSIONS[k];
        let existing = existing_episode(open, d);
        let reading = pressure.reading(d);
        let outcome: Option<(AlertEpisode, bool)> = match (existing, reading) {
            (Some(e), Some(r)) => step(e, r, pressure, summary_ref, now, quotient, config),
            (None, Some(r)) => match open_if_due(
                ids[k],
                r,
                pressure,
                summary_ref,
                now,
                quotient,
                config,
            ) {
                Some(e) => Some((e, true)),
                None => None,
            },
            _ => None,
        };
        assert((match outcome {
            Some((e, changed)) => Some((e@, changed)),
            None => None,
        }) == scene.outcome(d));
        let fires = match &outcome {
            Some((e, _)) => e.state == EpisodeState::Firing,
            None => match existing {
                Some(e) => e.state == EpisodeState::Firing,
                None => false,
            },
        };
        if d == Dimension::Thrash {
            thrashing = fires;
        }
        match outcome {
            Some((episode, changed)) => {
                if changed {
                    let notice = pending_notification(&episode, existing, pressure, now, config);
                    let c = Change { episode, notice };
                    assert(c@ =~= (ChangeView {
                        episode: c.episode@,
                        notice: notice_of(
                            c.episode@,
                            open_episode(scene.open, d),
                            scene.pressure,
                            now,
                            *config,
                        ),
                    }));
                    changes.push(c);
                }
            },
            None => {},
        }
        k = k + 1;
    }
    let ghost all = views(changes@);
    let n: usize = changes.len();
    let mut i: usize = 0;
    assert(all.skip(0) =~= all);
    assert(all.take(0) =~= Seq::empty());
    while i < n
        invariant
            i <= n,
            n == all.len(),
            changes.len() == n - i,
            views(changes@) == all.skip(i as int),
            thrashing == scene.fires(Dimension::Thrash),
            scene.now == now,
            views(episodes@) == scene.all_written(all.take(i as int)),
            views(notifications@) == scene.all_spoken(all.take(i as int)),
        decreases n - i,
    {
        let ghost held = changes@;
        let change = changes.remove(0);
        proof {
            assert(views(held)[0] == held[0]@);
            assert(all.skip(i as int)[0] == all[i as int]);
            assert(views(changes@) =~= all.skip(i + 1)) by {
                assert forall|j: int| 0 <= j < changes@.len() implies views(changes@)[j]
                    == all.skip(i + 1)[j] by {
                    assert(changes@[j] == held[j + 1]);
                    assert(views(held)[j + 1] == all.skip(i as int)[j + 1]);
                }
            }
            assert(all.take(i + 1).drop_last() =~= all.take(i as int));
            assert(all.take(i + 1).last() == change@);
        }
        let mut episode = change.episode;
        match change.notice {
            Some(notice) => {
                let muted = is_muted(notice.dimension, thrashing);
                if !muted {
                    if notice.kind != NotificationKind::Recovered {
                        episode.last_notified_at = Some(now);
                    }
                    notifications.push(notice);
                }
            },
            None => {},
        }
        episodes.push(episode);
        i = i + 1;
    }
    assert(all.take(n as int) =~= all);
    Reconciled { episodes, notifications }
}

/// Whether one of a dimension's inhibitors is firing, given whether thrash is.
fn is_muted(d: Dimension, thrashing: bool) -> (r: bool)
    ensures
        r == (d == Dimension::Swap && thrashing),
{
    let causes = inhibitors(d);
    let mut i: usize = 0;
    while i < causes.len()
        invariant
            i <= causes.len(),
            causes@ == (if d == Dimension::Swap {
                seq![Dimension::Thrash]
            } else {
                Seq::empty()
            }),
            i > 0 ==> !thrashing,
        decreases causes.len() - i,
    {
        if causes[i] == Dimension::Thrash && thrashing {
            return true;
        }
        i = i + 1;
    }
    false
}

/// Whether a dimension opens an episode in this evaluation.
pub open spec fn opens(
    open: Seq<EpisodeView>,
    pressure: PressureView,
    config: PressureConfig,
    d: Dimension,
) -> bool {
    &&& open_episode(open, d) is None
    &&& reading_of(pressure.dimensions, d) matches Some(r) && is_due(r, config)
}

/// Advance every dimension's episode by one evaluation. A new episode gets a
/// random identifier.
///
/// Nothing is kept between calls: `open`, read back from the store, is all there
/// is to know.
pub fn reconcile_episodes(
    open: &[AlertEpisode],
    pressure: &Pressure,
    census: Option<&Census>,
    now: Timestamp,
    quotient: Real,
    config: &PressureConfig,
) -> (r: Reconciled)
    ensures
        exists|ids: Seq<u128>|
            {
                let scene = #[trigger] scene_of(
                    views(open@),
                    pressure@,
                    owned(census),
                    now,
                    quotient,
                    *config,
                    ids,
                );
                &&& ids.len() == 14
                &&& forall|d: Dimension| #[trigger]
                    opens(views(open@), pressure@, *config, d) ==> is_random_id(ids[d.place()])
                &&& views(r.episodes@) == scene.episodes()
                &&& views(r.notifications@) == scene.notices()
            },
{
    let mut ids: [u128; 14] = [0; 14];
    let mut k: usize = 0;
    while k < 14
        invariant
            k <= 14,
            forall|d: Dimension|
                d.place() < k && #[trigger] opens(views(open@), pressure@, *config, d) ==> is_random_id(
                    ids@[d.place()],
                ),
        decreases 14 - k,
    {
        let d = ALL_DIMENSIONS[k];
        let new = match (existing_episode(open, d), pressure.reading(d)) {
            (None, Some(r)) => due(r, config),
            _ => false,
        };
        let ghost before = ids@;
        if new {
            ids[k] = fresh_id();
        }
        proof {
            assert forall|x: Dimension|
                x.place() < k + 1 && #[trigger] opens(views(open@), pressure@, *config, x) implies is_random_id(
                ids@[x.place()],
            ) by {
                if x.place() < k {
                    assert(ids@[x.place()] == before[x.place()]);
                } else {
                    assert(x == d);
                }
            }
        }
        k = k + 1;
    }
    let r = reconcile_with_ids(open, pressure, census, now, quotient, config, &ids);
    proof {
        let scene = scene_of(
            views(open@),
            pressure@,
            owned(census),
            now,
            quotient,
            *config,
            ids@,
        );
        assert forall|d: Dimension| #[trigger]
            opens(views(open@), pressure@, *config, d) implies is_random_id(ids@[d.place()]) by {
            assert(d.place() < 14);
        }
    }
    r
}

/// Whether a change of level is itself worth announcing.
pub open spec fn material(previous: Option<Level>, current: Level) -> bool {
    match previous {
        None => current.height() >= Level::Wailing.height(),
        Some(prev) => {
            ||| current.height() > prev.height() && current.height() >= Level::Wailing.height()
            ||| prev.height() >= Level::Wailing.height() && current.height()
                <= Level::Stirring.height()
        },
    }
}

/// Whether a level change is worth announcing by itself: into notification
/// territory, or all the way out of it.
pub fn level_changed_materially(previous: Option<Level>, current: Level) -> (r: bool)
    ensures
        r == material(previous, current),
{
    match previous {
        None => current.warrants_notification(),
        Some(prev) => {
            (current.rank() > prev.rank() && current.warrants_notification())
                || (prev.warrants_notification() && current.rank() <= Level::Stirring.rank())
        },
    }
}

pub proof fn lemma_open_episode(s: Seq<EpisodeView>, d: Dimension)
    ensures
        open_episode(s, d) matches Some(e) ==> e.dimension == d && e.open() && s.contains(e),
        open_episode(s, d) is None ==> forall|i: int|
            0 <= i < s.len() ==> !((#[trigger] s[i]).dimension == d && s[i].open()),
    decreases s.len(),
{
    if s.len() > 0 {
        let rest = s.drop_first();
        lemma_open_episode(rest, d);
        if s[0].dimension == d && s[0].open() {
            assert(s.contains(s[0]));
        } else {
            match open_episode(rest, d) {
                Some(e) => {
                    let i = choose|i: int| 0 <= i < rest.len() && rest[i] == e;
                    assert(s[i + 1] == e);
                },
                None => {
                    assert forall|i: int| 0 <= i < s.len() implies !((
                    #[trigger] s[i]).dimension == d && s[i].open()) by {
                        if i > 0 {
                            assert(rest[i - 1] == s[i]);
                        }
                    }
                },
            }
        }
    }
}

pub proof fn lemma_reading_of(s: Seq<ReadingView>, d: Dimension)
    ensures
        0 <= reading_at(s, d) <= s.len(),
        reading_of(s, d) matches Some(r) ==> r.dimension == d,
    decreases s.len(),
{
    if s.len() > 0 && s[0].dimension != d {
        let rest = s.drop_first();
        lemma_reading_of(rest, d);
        if reading_at(rest, d) < rest.len() {
            assert(s[reading_at(s, d)] == rest[reading_at(rest, d)]);
        }
    }
}

/// A step keeps the incident: its identity, what it is about, when it began and
/// when it was last told. Notices are only ever counted up, one at a time, the
/// countdown only ever shortens, the peak moves only to a worse machine or a
/// deeper red, and the level of the peak never falls.
pub proof fn law_a_step_keeps_the_incident(
    e: EpisodeView,
    r: ReadingView,
    p: PressureView,
    summary: Option<SummaryView>,
    now: Timestamp,
    quotient: Real,
    config: PressureConfig,
)
    ensures
        stepped(e, r, p, summary, now, quotient, config) matches Some((x, _)) ==> {
            &&& x.id == e.id
            &&& x.dimension == e.dimension
            &&& x.started_at == e.started_at
            &&& x.last_notified_at == e.last_notified_at
            &&& e.suppressed <= x.suppressed <= e.suppressed + 1
            &&& e.projection_bracket_secs matches Some(b) ==> x.projection_bracket_secs matches Some(
                c,
            ) && c <= b
            &&& x.peak == e.peak || x.peak.level.height() > e.peak.level.height()
                || e.peak.severity.below(x.peak.severity)
            &&& x.peak.level.height() >= e.peak.level.height()
        },
{
}

/// The level of a peak never falls, so that a crisis is over where it was
/// announced. A reading touches the peak and the census behind it and nothing
/// else, and those two together: a worse machine or a deeper red moves both to
/// this moment.
pub proof fn law_a_peak_never_falls(
    e: EpisodeView,
    r: ReadingView,
    p: PressureView,
    summary: Option<SummaryView>,
    now: Timestamp,
)
    ensures
        ({
            let x = peak_folded(e, r, p, summary, now);
            &&& x.peak.level.height() >= e.peak.level.height()
            &&& x.peak.level.height() >= p.level.height()
            &&& x.peak.level.height() > e.peak.level.height() <==> worsened(e, p)
            &&& x == (EpisodeView { peak: x.peak, census_at_peak: x.census_at_peak, ..e })
            &&& if worsened(e, p) || e.peak.severity.below(r.severity) {
                x.peak == peak_moved(e.peak, r, p, now) && x.census_at_peak == summary
            } else {
                x == e
            }
        }),
{
}

/// The census behind the peak moves with the peak and only with it: both are as
/// they were, or both are of this moment, at the worst level seen so far.
pub proof fn law_the_census_goes_with_the_peak(
    e: EpisodeView,
    r: ReadingView,
    p: PressureView,
    summary: Option<SummaryView>,
    now: Timestamp,
    quotient: Real,
    config: PressureConfig,
)
    ensures
        stepped(e, r, p, summary, now, quotient, config) matches Some((x, _)) ==> {
            ||| x.peak == e.peak && x.census_at_peak == e.census_at_peak
            ||| x.peak == peak_moved(e.peak, r, p, now) && x.census_at_peak == summary
        },
{
}

/// A closed episode is never stepped, and one closes only out of recovery, once
/// the down window has passed: it ended when it dropped below red, not when the
/// waiting was over.
pub proof fn law_an_episode_ends_when_red_ended(
    e: EpisodeView,
    r: ReadingView,
    p: PressureView,
    summary: Option<SummaryView>,
    now: Timestamp,
    quotient: Real,
    config: PressureConfig,
)
    ensures
        e.state == EpisodeState::Closed ==> stepped(e, r, p, summary, now, quotient, config) is None,
        stepped(e, r, p, summary, now, quotient, config) matches Some((x, _)) ==> x.state
            == EpisodeState::Closed ==> {
            &&& e.state == EpisodeState::Recovering
            &&& r.band != Band::Red
            &&& e.recovering_since matches Some(t) ==> x.ended_at == Some(t) && has_passed(
                now,
                t,
                config.episode_down_secs,
            )
        },
{
}

/// A dip below red that comes back within the windows is one incident: the same
/// episode, firing again, with one swallowed notice more.
pub proof fn law_a_flap_is_one_incident(
    e: EpisodeView,
    dip: ReadingView,
    calm: PressureView,
    then: Timestamp,
    back: ReadingView,
    p: PressureView,
    summary: Option<SummaryView>,
    now: Timestamp,
    quotient: Real,
    config: PressureConfig,
)
    requires
        e.state == EpisodeState::Firing,
        dip.band != Band::Red,
        back.band == Band::Red,
        !worsened(e, p),
        !sooner(e, projection_of(back, quotient), config.disk_projection_notify_secs@),
        !repeat_due(e, now, config),
        e.suppressed < u32::MAX,
    ensures
        ({
            let dipped = match stepped(e, dip, calm, summary, then, quotient, config) {
                Some((x, _)) => x,
                None => e,
            };
            let again = stepped(dipped, back, p, summary, now, quotient, config);
            &&& dipped.state == EpisodeState::Recovering
            &&& dipped.recovering_since == Some(then)
            &&& again matches Some((x, changed)) && {
                &&& changed
                &&& x.state == EpisodeState::Firing
                &&& x.recovering_since is None
                &&& x.id == e.id
                &&& x.started_at == e.started_at
                &&& x.suppressed == e.suppressed + 1
                &&& notice_of(x, Some(dipped), p, now, config) is None
            }
        }),
{
}

/// A firing episode with nothing new is left as it is: nothing is written and
/// nothing is said until the repeat interval has passed.
pub proof fn law_old_news_is_no_news(
    e: EpisodeView,
    r: ReadingView,
    p: PressureView,
    summary: Option<SummaryView>,
    now: Timestamp,
    quotient: Real,
    config: PressureConfig,
)
    requires
        e.state == EpisodeState::Firing,
        r.band == Band::Red,
        !worsened(e, p),
        !e.peak.severity.below(r.severity),
        !sooner(e, projection_of(r, quotient), config.disk_projection_notify_secs@),
        !repeat_due(e, now, config),
        e.same(e),
    ensures
        stepped(e, r, p, summary, now, quotient, config) == Some((e, false)),
{
    let next = EpisodeView {
        projection_bracket_secs: bracket_after(
            e,
            projection_of(r, quotient),
            config.disk_projection_notify_secs@,
        ),
        ..e
    };
    assert(next =~= e);
}

/// A still-firing episode is told again once the repeat interval has passed,
/// whatever its severity has done meanwhile.
pub proof fn law_a_firing_episode_reminds(
    e: EpisodeView,
    r: ReadingView,
    p: PressureView,
    summary: Option<SummaryView>,
    now: Timestamp,
    quotient: Real,
    config: PressureConfig,
)
    requires
        e.state == EpisodeState::Firing,
        r.band == Band::Red,
        repeat_due(e, now, config),
    ensures
        stepped(e, r, p, summary, now, quotient, config) matches Some((x, changed)) && changed && (
        notice_of(x, Some(e), p, now, config) matches Some(n) && n.kind == if worsened(e, p)
            || sooner(e, projection_of(r, quotient), config.disk_projection_notify_secs@) {
            NotificationKind::Reescalated
        } else {
            NotificationKind::Repeat
        }),
{
}

/// Inside the repeat interval a firing episode is spoken of only for a worse
/// machine or a sooner end: a deeper red is written down and not told.
pub proof fn law_a_deeper_red_is_the_same_news(
    e: EpisodeView,
    r: ReadingView,
    p: PressureView,
    summary: Option<SummaryView>,
    now: Timestamp,
    quotient: Real,
    config: PressureConfig,
)
    requires
        e.state == EpisodeState::Firing,
        r.band == Band::Red,
        !worsened(e, p),
        !sooner(e, projection_of(r, quotient), config.disk_projection_notify_secs@),
        !repeat_due(e, now, config),
    ensures
        stepped(e, r, p, summary, now, quotient, config) matches Some((x, _)) ==> notice_of(
            x,
            Some(e),
            p,
            now,
            config,
        ) is None,
{
}

/// Only a red that is not advisory and has been seen for the up delay opens an
/// episode, and the episode began when the red run did.
pub proof fn law_only_a_lasting_red_opens(scene: Scene, d: Dimension)
    requires
        open_episode(scene.open, d) is None,
    ensures
        scene.outcome(d) matches Some((e, _)) ==> {
            &&& reading_of(scene.pressure.dimensions, d) matches Some(r) && {
                &&& r.band == Band::Red
                &&& !r.advisory
                &&& r.held_secs >= scene.config.episode_up_secs
                &&& e.started_at == rewound(scene.now, r.held_secs)
            }
            &&& e.id == scene.ids[d.place()]
            &&& e.dimension == d
            &&& e.state == EpisodeState::Firing
            &&& e.ended_at is None
            &&& e.suppressed == 0
        },
{
    lemma_reading_of(scene.pressure.dimensions, d);
}

/// A dimension that was not observed is left alone: not measured is not below
/// red. Its episode is not written, and nothing is said of it.
pub proof fn law_the_unobserved_is_left_alone(scene: Scene, d: Dimension)
    requires
        reading_of(scene.pressure.dimensions, d) is None,
    ensures
        scene.outcome(d) is None,
        forall|i: int|
            0 <= i < scene.episodes().len() ==> (#[trigger] scene.episodes()[i]).dimension != d,
        forall|i: int|
            0 <= i < scene.notices().len() ==> (#[trigger] scene.notices()[i]).dimension != d,
{
    lemma_changes(scene, 14);
    lemma_written(scene, scene.changes(14));
    lemma_notices(scene);
    if scene.pressure.level != Level::Checking {
        assert forall|i: int| 0 <= i < scene.episodes().len() implies (
        #[trigger] scene.episodes()[i]).dimension != d by {
            let c = scene.changes(14)[i];
            assert(scene.episodes()[i] == scene.written(c));
        }
    }
}

/// Nothing opens, moves or is said while the verdict is not trusted.
pub proof fn law_nothing_moves_while_checking(scene: Scene)
    requires
        scene.pressure.level == Level::Checking,
    ensures
        scene.episodes().len() == 0,
        scene.notices().len() == 0,
{
}

pub proof fn lemma_outcome(scene: Scene, d: Dimension)
    ensures
        scene.outcome(d) matches Some((e, _)) ==> {
            &&& e.dimension == d
            &&& reading_of(scene.pressure.dimensions, d) is Some
            &&& open_episode(scene.open, d) matches Some(b) ==> e.id == b.id
        },
{
    lemma_open_episode(scene.open, d);
    lemma_reading_of(scene.pressure.dimensions, d);
}

/// The changes are of distinct dimensions, in the declared order, each one the
/// outcome of its own.
pub proof fn lemma_changes(scene: Scene, k: int)
    requires
        0 <= k <= 14,
    ensures
        forall|i: int|
            0 <= i < scene.changes(k).len() ==> {
                let c = #[trigger] scene.changes(k)[i];
                let d = c.episode.dimension;
                &&& d.place() < k
                &&& scene.outcome(d) == Some((c.episode, true))
                &&& reading_of(scene.pressure.dimensions, d) is Some
                &&& c.notice == notice_of(
                    c.episode,
                    open_episode(scene.open, d),
                    scene.pressure,
                    scene.now,
                    scene.config,
                )
            },
        forall|i: int, j: int|
            0 <= i < j < scene.changes(k).len() ==> (
            #[trigger] scene.changes(k)[i]).episode.dimension.place() < (
            #[trigger] scene.changes(k)[j]).episode.dimension.place(),
    decreases k,
{
    if k > 0 {
        lemma_changes(scene, k - 1);
        let d = ALL_DIMENSIONS@[k - 1];
        assert(d.place() == k - 1);
        lemma_outcome(scene, d);
        let front = scene.changes(k - 1);
        let all = scene.changes(k);
        assert forall|i: int| 0 <= i < all.len() implies {
            let c = #[trigger] all[i];
            let x = c.episode.dimension;
            &&& x.place() < k
            &&& scene.outcome(x) == Some((c.episode, true))
            &&& reading_of(scene.pressure.dimensions, x) is Some
            &&& c.notice == notice_of(
                c.episode,
                open_episode(scene.open, x),
                scene.pressure,
                scene.now,
                scene.config,
            )
        } by {
            if i < front.len() {
                assert(all[i] == front[i]);
            }
        }
        assert forall|i: int, j: int| 0 <= i < j < all.len() implies (
        #[trigger] all[i]).episode.dimension.place() < (
        #[trigger] all[j]).episode.dimension.place() by {
            assert(all[i] == front[i]);
            if j < front.len() {
                assert(all[j] == front[j]);
            }
        }
    }
}

pub proof fn lemma_written(scene: Scene, s: Seq<ChangeView>)
    ensures
        scene.all_written(s).len() == s.len(),
        forall|i: int|
            0 <= i < s.len() ==> (#[trigger] scene.all_written(s)[i]) == scene.written(s[i]),
    decreases s.len(),
{
    if s.len() > 0 {
        lemma_written(scene, s.drop_last());
    }
}

pub open spec fn comes_from(scene: Scene, s: Seq<ChangeView>, n: NoticeView) -> bool {
    exists|j: int|
        0 <= j < s.len() && scene.spoken(#[trigger] s[j]) && s[j].notice == Some(n)
}

pub proof fn lemma_spoken(scene: Scene, s: Seq<ChangeView>)
    ensures
        forall|i: int|
            0 <= i < scene.all_spoken(s).len() ==> comes_from(
                scene,
                s,
                #[trigger] scene.all_spoken(s)[i],
            ),
        forall|j: int|
            0 <= j < s.len() && scene.spoken(#[trigger] s[j]) ==> scene.all_spoken(s).contains(
                s[j].notice->0,
            ),
    decreases s.len(),
{
    if s.len() > 0 {
        let front = s.drop_last();
        lemma_spoken(scene, front);
        let said = scene.all_spoken(s);
        let before = scene.all_spoken(front);
        assert forall|i: int| 0 <= i < said.len() implies comes_from(
            scene,
            s,
            #[trigger] said[i],
        ) by {
            if i < before.len() {
                assert(said[i] == before[i]);
                let j = choose|j: int|
                    0 <= j < front.len() && scene.spoken(#[trigger] front[j]) && front[j].notice
                        == Some(before[i]);
                assert(s[j] == front[j]);
            } else {
                assert(s[s.len() - 1] == s.last());
            }
        }
        assert forall|j: int| 0 <= j < s.len() && scene.spoken(#[trigger] s[j]) implies said.contains(
            s[j].notice->0,
        ) by {
            if j < front.len() {
                assert(front[j] == s[j]);
                assert(before.contains(s[j].notice->0));
                let i = choose|i: int| 0 <= i < before.len() && before[i] == s[j].notice->0;
                assert(said[i] == before[i]);
            } else {
                assert(said[said.len() - 1] == s[j].notice->0);
            }
        }
    }
}

/// Whether a notice is of one of the episodes.
pub open spec fn is_of(n: NoticeView, episodes: Seq<EpisodeView>) -> bool {
    exists|i: int|
        0 <= i < episodes.len() && (#[trigger] episodes[i]).id == n.episode_id
            && episodes[i].dimension == n.dimension && episodes[i].peak.level == n.peak_level
            && episodes[i].suppressed == n.suppressed
}

proof fn lemma_notices(scene: Scene)
    ensures
        forall|i: int|
            0 <= i < scene.notices().len() ==> {
                let n = #[trigger] scene.notices()[i];
                &&& reading_of(scene.pressure.dimensions, n.dimension) is Some
                &&& is_of(n, scene.episodes())
            },
{
    let all = scene.changes(14);
    lemma_changes(scene, 14);
    lemma_written(scene, all);
    lemma_spoken(scene, all);
    assert forall|i: int| 0 <= i < scene.notices().len() implies {
        let n = #[trigger] scene.notices()[i];
        &&& reading_of(scene.pressure.dimensions, n.dimension) is Some
        &&& is_of(n, scene.episodes())
    } by {
        let n = scene.notices()[i];
        assert(comes_from(scene, all, n));
        let j = choose|j: int|
            0 <= j < all.len() && scene.spoken(#[trigger] all[j]) && all[j].notice == Some(n);
        assert(scene.episodes()[j] == scene.written(all[j]));
    }
}

/// What holds of an episode between evaluations: it is closed exactly when it has
/// ended, it has a recovery instant while it recovers and none while it fires, and
/// a closed one ended at that instant.
pub open spec fn orderly(e: EpisodeView) -> bool {
    &&& e.state == EpisodeState::Closed <==> e.ended_at is Some
    &&& e.state == EpisodeState::Firing ==> e.recovering_since is None
    &&& e.state == EpisodeState::Recovering ==> e.recovering_since is Some
    &&& e.state == EpisodeState::Closed ==> e.ended_at == e.recovering_since
}

/// From orderly open episodes an evaluation makes orderly episodes, and every
/// notice is of one of those that it writes.
pub proof fn law_the_lifecycle_is_orderly(scene: Scene)
    requires
        forall|i: int|
            0 <= i < scene.open.len() && (#[trigger] scene.open[i]).open() ==> orderly(
                scene.open[i],
            ),
    ensures
        forall|i: int|
            0 <= i < scene.episodes().len() ==> orderly(#[trigger] scene.episodes()[i]),
        forall|i: int|
            0 <= i < scene.notices().len() ==> is_of(
                #[trigger] scene.notices()[i],
                scene.episodes(),
            ),
{
    let all = scene.changes(14);
    lemma_changes(scene, 14);
    lemma_written(scene, all);
    lemma_notices(scene);
    assert forall|i: int| 0 <= i < scene.episodes().len() implies orderly(
        #[trigger] scene.episodes()[i],
    ) by {
        let e = all[i].episode;
        assert(scene.episodes()[i] == scene.written(all[i]));
        assert(scene.outcome(e.dimension) == Some((e, true)));
        lemma_open_episode(scene.open, e.dimension);
        if let Some(b) = open_episode(scene.open, e.dimension) {
            let k = choose|k: int| 0 <= k < scene.open.len() && scene.open[k] == b;
            assert(orderly(scene.open[k]));
        }
    }
}

/// Episodes are per dimension: one evaluation changes at most one of each, in the
/// declared order.
pub proof fn law_episodes_are_per_dimension(scene: Scene)
    ensures
        forall|i: int, j: int|
            0 <= i < j < scene.episodes().len() ==> (
            #[trigger] scene.episodes()[i]).dimension.place() < (
            #[trigger] scene.episodes()[j]).dimension.place(),
{
    lemma_changes(scene, 14);
    lemma_written(scene, scene.changes(14));
}

/// Muting takes a notice away and never an episode: everything that changed is
/// written, a muted dimension is not spoken of, and its repeat clock stays where
/// it was. Only swap is ever muted, and only while thrashing fires.
pub proof fn law_muting_only_silences(scene: Scene)
    requires
        scene.pressure.level != Level::Checking,
    ensures
        scene.episodes().len() == scene.changes(14).len(),
        forall|i: int|
            0 <= i < scene.notices().len() ==> !scene.muted(
                (#[trigger] scene.notices()[i]).dimension,
            ),
        forall|i: int|
            0 <= i < scene.episodes().len() && scene.muted(
                (#[trigger] scene.episodes()[i]).dimension,
            ) ==> scene.episodes()[i] == scene.changes(14)[i].episode,
        forall|d: Dimension| #[trigger] scene.muted(d) ==> d == Dimension::Swap && scene.fires(
            Dimension::Thrash,
        ),
{
    let all = scene.changes(14);
    lemma_changes(scene, 14);
    lemma_written(scene, all);
    lemma_spoken(scene, all);
    assert forall|i: int| 0 <= i < scene.notices().len() implies !scene.muted(
        (#[trigger] scene.notices()[i]).dimension,
    ) by {
        assert(comes_from(scene, all, scene.notices()[i]));
        let j = choose|j: int|
            0 <= j < all.len() && scene.spoken(#[trigger] all[j]) && all[j].notice == Some(
                scene.notices()[i],
            );
        assert(scene.spoken(all[j]));
    }
    assert forall|i: int|
        0 <= i < scene.episodes().len() && scene.muted(
            (#[trigger] scene.episodes()[i]).dimension,
        ) implies scene.episodes()[i] == all[i].episode by {
        assert(scene.episodes()[i] == scene.written(all[i]));
        if scene.spoken(all[i]) {
            assert(all[i].notice->0.dimension == all[i].episode.dimension);
        }
    }
}

/// What changes of a dimension in this evaluation.
pub open spec fn change_of(scene: Scene, d: Dimension) -> Option<ChangeView> {
    match scene.outcome(d) {
        Some((e, true)) => Some(
            ChangeView {
                episode: e,
                notice: notice_of(
                    e,
                    open_episode(scene.open, d),
                    scene.pressure,
                    scene.now,
                    scene.config,
                ),
            },
        ),
        _ => None,
    }
}

pub proof fn lemma_change_is_listed(scene: Scene, k: int, d: Dimension)
    requires
        0 <= k <= 14,
        d.place() < k,
    ensures
        change_of(scene, d) matches Some(c) ==> scene.changes(k).contains(c),
    decreases k,
{
    if let Some(c) = change_of(scene, d) {
        let all = scene.changes(k);
        let front = scene.changes(k - 1);
        let x = ALL_DIMENSIONS@[k - 1];
        assert(x.place() == k - 1);
        if d.place() < k - 1 {
            lemma_change_is_listed(scene, k - 1, d);
            let i = choose|i: int| 0 <= i < front.len() && front[i] == c;
            assert(all[i] == c);
        } else {
            assert(x == d);
            assert(all[front.len() as int] == c);
        }
    }
}

/// A firing episode that is due is told in this evaluation, unless what causes it
/// is firing, and the telling starts its repeat clock anew.
pub proof fn law_what_is_due_is_told(scene: Scene, d: Dimension)
    requires
        scene.pressure.level != Level::Checking,
        !scene.muted(d),
        open_episode(scene.open, d) matches Some(e) && e.state == EpisodeState::Firing
            && repeat_due(e, scene.now, scene.config),
        reading_of(scene.pressure.dimensions, d) matches Some(r) && r.band == Band::Red,
    ensures
        exists|i: int|
            0 <= i < scene.notices().len() && (#[trigger] scene.notices()[i]).dimension == d
                && scene.notices()[i].episode_id == open_episode(scene.open, d)->0.id,
        exists|i: int|
            0 <= i < scene.episodes().len() && (#[trigger] scene.episodes()[i]).dimension == d
                && scene.episodes()[i].last_notified_at == Some(scene.now),
{
    let e = open_episode(scene.open, d)->0;
    let r = reading_of(scene.pressure.dimensions, d)->0;
    let all = scene.changes(14);
    lemma_open_episode(scene.open, d);
    law_a_firing_episode_reminds(
        e,
        r,
        scene.pressure,
        scene.summary,
        scene.now,
        scene.quotient,
        scene.config,
    );
    lemma_outcome(scene, d);
    lemma_change_is_listed(scene, 14, d);
    let c = change_of(scene, d)->0;
    let j = choose|j: int| 0 <= j < all.len() && all[j] == c;
    lemma_spoken(scene, all);
    lemma_written(scene, all);
    assert(scene.spoken(all[j]));
    assert(scene.notices().contains(c.notice->0));
    let i = choose|i: int| 0 <= i < scene.notices().len() && scene.notices()[i] == c.notice->0;
    assert(scene.notices()[i].dimension == d);
    assert(scene.episodes()[j] == scene.written(all[j]));
}

/// No time is lost to a mute: an opening or a reminder that was muted is due in
/// every later evaluation, so that the dimension speaks as soon as what causes it
/// stops firing.
pub proof fn law_a_mute_loses_no_time(scene: Scene, i: int, later: Timestamp)
    requires
        scene.pressure.level != Level::Checking,
        0 <= i < scene.changes(14).len(),
        scene.changes(14)[i].notice matches Some(n) && scene.muted(n.dimension) && (n.kind
            == NotificationKind::Opened || n.kind == NotificationKind::Repeat),
        later.nanos >= scene.now.nanos,
    ensures
        scene.episodes()[i] == scene.changes(14)[i].episode,
        scene.episodes()[i].state == EpisodeState::Firing,
        repeat_due(scene.episodes()[i], later, scene.config),
{
    let c = scene.changes(14)[i];
    let d = c.episode.dimension;
    lemma_changes(scene, 14);
    lemma_written(scene, scene.changes(14));
    lemma_open_episode(scene.open, d);
    assert(scene.episodes()[i] == scene.written(c));
    assert(scene.outcome(d) == Some((c.episode, true)));
}

/// A recovery is told exactly when an episode closes, an opening exactly when a
/// new one fires.
pub proof fn law_notices_follow_the_state(
    after: EpisodeView,
    before: Option<EpisodeView>,
    p: PressureView,
    now: Timestamp,
    config: PressureConfig,
)
    ensures
        notice_of(after, before, p, now, config) matches Some(n) && n.kind == NotificationKind::Recovered
            <==> before is Some && after.state == EpisodeState::Closed,
        notice_of(after, before, p, now, config) matches Some(n) && n.kind == NotificationKind::Opened
            <==> before is None && after.state == EpisodeState::Firing,
        after.state == EpisodeState::Recovering ==> notice_of(after, before, p, now, config) is None,
        notice_of(after, before, p, now, config) matches Some(n) ==> n.episode_id == after.id
            && n.dimension == after.dimension,
{
}

} // verus!
