//! The verdict, as every surface receives it.
use vstd::prelude::*;

use super::band::Band;
use super::config::{Dimension, Source, Unit};
use super::episode::{activity_of, AlertEpisode, EpisodeState, EpisodeView, RecentActivity};
use super::level::{decide, verdict_of, Contribution, Level, Verdict};
use super::who::{Consumer, ConsumerView};
use crate::number::Real;
use crate::text::{ends_in, lemma_strip_undoes_append, maybe, strip, stripped, views};
use crate::time::Timestamp;

verus! {

/// A recommended action.
#[derive(Clone, Copy, Debug, PartialEq, Eq, PartialOrd, Ord, Structural)]
pub enum Action {
    ReapStaleSessions,
    ReapOrphans,
    RelaunchApps,
    /// Only a reboot resets a saturated compressor pool.
    Reboot,
    /// What takes the space is a disk-usage tool's question.
    OpenDiskTool,
    /// Nothing to do but know.
    Nothing,
}

impl Action {
    pub open spec fn place(self) -> nat {
        match self {
            Action::ReapStaleSessions => 0,
            Action::ReapOrphans => 1,
            Action::RelaunchApps => 2,
            Action::OpenDiskTool => 3,
            Action::Reboot => 4,
            Action::Nothing => 5,
        }
    }

    pub open spec fn label_text(self) -> Seq<char> {
        match self {
            Action::ReapStaleSessions => "Reap stale agent sessions"@,
            Action::ReapOrphans => "Reap orphaned helper processes"@,
            Action::RelaunchApps => "Quit and relaunch the biggest apps"@,
            Action::Reboot => "Reboot"@,
            Action::OpenDiskTool => "Open a disk-usage tool to see what is using the space"@,
            Action::Nothing => "No action"@,
        }
    }

    /// Lower ranks come first in the worklist: the order is by measured impact.
    pub fn rank(self) -> (r: u8)
        ensures
            r == self.place(),
    {
        match self {
            Action::ReapStaleSessions => 0,
            Action::ReapOrphans => 1,
            Action::RelaunchApps => 2,
            Action::OpenDiskTool => 3,
            Action::Reboot => 4,
            Action::Nothing => 5,
        }
    }

    pub fn label(self) -> (r: &'static str)
        ensures
            r@ == self.label_text(),
    {
        match self {
            Action::ReapStaleSessions => "Reap stale agent sessions",
            Action::ReapOrphans => "Reap orphaned helper processes",
            Action::RelaunchApps => "Quit and relaunch the biggest apps",
            Action::Reboot => "Reboot",
            Action::OpenDiskTool => "Open a disk-usage tool to see what is using the space",
            Action::Nothing => "No action",
        }
    }
}

/// One dimension, as a surface receives it.
#[derive(Clone, Debug, PartialEq, Eq)]
pub struct DimensionReading {
    pub dimension: Dimension,
    pub key: String,
    pub label: String,
    pub band: Band,
    pub value: Real,
    pub unit: Unit,
    /// 0 at the yellow line, 1 at red, more beyond. Comparable across
    /// dimensions.
    pub severity: Real,
    /// How long this band has held, counting back only as far as the
    /// observations are continuous.
    pub held_secs: u64,
    /// The gap that cut `held_secs` short, when one did.
    pub observation_gap_secs: Option<u64>,
    /// Change per second, when there is a trend.
    pub trend_per_sec: Option<Real>,
    pub detail: String,
    /// Advisory dimensions inform but never drive the level.
    pub advisory: bool,
    /// A calmer band that is not confirmed yet.
    pub pending: Option<Band>,
    /// The dimension was red and its episode is not over yet.
    pub recovering: bool,
}

#[verifier::ext_equal]
pub struct ReadingView {
    pub dimension: Dimension,
    pub key: Seq<char>,
    pub label: Seq<char>,
    pub band: Band,
    pub value: Real,
    pub unit: Unit,
    pub severity: Real,
    pub held_secs: u64,
    pub observation_gap_secs: Option<u64>,
    pub trend_per_sec: Option<Real>,
    pub detail: Seq<char>,
    pub advisory: bool,
    pub pending: Option<Band>,
    pub recovering: bool,
}

impl View for DimensionReading {
    type V = ReadingView;

    open spec fn view(&self) -> ReadingView {
        ReadingView {
            dimension: self.dimension,
            key: self.key@,
            label: self.label@,
            band: self.band,
            value: self.value,
            unit: self.unit,
            severity: self.severity,
            held_secs: self.held_secs,
            observation_gap_secs: self.observation_gap_secs,
            trend_per_sec: self.trend_per_sec,
            detail: self.detail@,
            advisory: self.advisory,
            pending: self.pending,
            recovering: self.recovering,
        }
    }
}

impl ReadingView {
    /// What the reading says in the verdict.
    pub open spec fn contribution(self) -> Contribution {
        Contribution {
            dimension: self.dimension,
            band: self.band,
            held_secs: self.held_secs,
            severity: self.severity,
        }
    }
}

impl DimensionReading {
    /// What the reading says in the verdict.
    pub fn contribution(&self) -> (r: Contribution)
        ensures
            r == self@.contribution(),
    {
        Contribution {
            dimension: self.dimension,
            band: self.band,
            held_secs: self.held_secs,
            severity: self.severity,
        }
    }
}

/// Something worth telling the user, with what to do about it.
#[derive(Clone, Debug, PartialEq, Eq)]
pub struct Finding {
    pub dimension: Dimension,
    pub band: Band,
    pub message: String,
    pub action: Action,
    pub action_label: String,
    /// The top consumers behind this finding, biggest first.
    pub who: Vec<Consumer>,
    /// `who` as one line. `None` exactly when `who` is empty.
    pub who_line: Option<String>,
}

#[verifier::ext_equal]
pub struct FindingView {
    pub dimension: Dimension,
    pub band: Band,
    pub message: Seq<char>,
    pub action: Action,
    pub action_label: Seq<char>,
    pub who: Seq<ConsumerView>,
    pub who_line: Option<Seq<char>>,
}

impl View for Finding {
    type V = FindingView;

    open spec fn view(&self) -> FindingView {
        FindingView {
            dimension: self.dimension,
            band: self.band,
            message: self.message@,
            action: self.action,
            action_label: self.action_label@,
            who: views(self.who@),
            who_line: maybe(self.who_line),
        }
    }
}

/// The whole verdict.
#[derive(Clone, Debug, PartialEq, Eq)]
pub struct Pressure {
    pub evaluated_at: Timestamp,
    pub level: Level,
    pub level_name: String,
    pub source: Option<Source>,
    /// What the menu bar renders, as it stands.
    pub glyph: String,
    pub accessibility_label: String,
    pub dimensions: Vec<DimensionReading>,
    /// Ranked by measured impact, worst band first within a rank.
    pub findings: Vec<Finding>,
    pub sample_count: usize,
    pub census_count: usize,
    /// Some dimension is recovering.
    pub recovering: bool,
    pub activity: RecentActivity,
}

#[verifier::ext_equal]
pub struct PressureView {
    pub evaluated_at: Timestamp,
    pub level: Level,
    pub level_name: Seq<char>,
    pub source: Option<Source>,
    pub glyph: Seq<char>,
    pub accessibility_label: Seq<char>,
    pub dimensions: Seq<ReadingView>,
    pub findings: Seq<FindingView>,
    pub sample_count: usize,
    pub census_count: usize,
    pub recovering: bool,
    pub activity: RecentActivity,
}

impl View for Pressure {
    type V = PressureView;

    open spec fn view(&self) -> PressureView {
        PressureView {
            evaluated_at: self.evaluated_at,
            level: self.level,
            level_name: self.level_name@,
            source: self.source,
            glyph: self.glyph@,
            accessibility_label: self.accessibility_label@,
            dimensions: views(self.dimensions@),
            findings: views(self.findings@),
            sample_count: self.sample_count,
            census_count: self.census_count,
            recovering: self.recovering,
            activity: self.activity,
        }
    }
}

/// What a recovering machine wears on an otherwise calm face.
pub const RECOVERING_GLYPH: &'static str = "🩹";

/// The place of the first reading of a dimension, or the number of readings.
pub open spec fn reading_at(s: Seq<ReadingView>, d: Dimension) -> int
    decreases s.len(),
{
    if s.len() == 0 {
        0
    } else if s[0].dimension == d {
        0
    } else {
        1 + reading_at(s.drop_first(), d)
    }
}

/// The first reading of a dimension.
pub open spec fn reading_of(s: Seq<ReadingView>, d: Dimension) -> Option<ReadingView> {
    let i = reading_at(s, d);
    if i < s.len() {
        Some(s[i])
    } else {
        None
    }
}

proof fn lemma_reading_at(s: Seq<ReadingView>, d: Dimension, i: int)
    requires
        0 <= i <= s.len(),
        forall|j: int| 0 <= j < i ==> (#[trigger] s[j]).dimension != d,
        i < s.len() ==> s[i].dimension == d,
    ensures
        reading_at(s, d) == i,
    decreases s.len(),
{
    if i > 0 {
        assert(s[0].dimension != d);
        let rest = s.drop_first();
        assert forall|j: int| 0 <= j < i - 1 implies (#[trigger] rest[j]).dimension != d by {
            assert(s[j + 1].dimension != d);
        }
        if i < s.len() {
            assert(rest[i - 1] == s[i]);
        }
        lemma_reading_at(rest, d, i - 1);
    }
}

/// The dimensions with an episode that is recovering.
pub open spec fn is_recovering(episodes: Seq<EpisodeView>, d: Dimension) -> bool {
    exists|i: int|
        0 <= i < episodes.len() && (#[trigger] episodes[i]).state == EpisodeState::Recovering
            && episodes[i].dimension == d
}

pub open spec fn any_recovering(episodes: Seq<EpisodeView>) -> bool {
    exists|i: int|
        0 <= i < episodes.len() && (#[trigger] episodes[i]).state == EpisodeState::Recovering
}

/// Only a calm face is decorated: from restless upward something is red now, and
/// at checking nothing is known.
pub open spec fn is_calm(level: Level) -> bool {
    level == Level::Quiet || level == Level::Stirring
}

/// A text with its decoration, if any, replaced by the one it should have.
pub open spec fn decorated(s: Seq<char>, suffix: Seq<char>, wear: bool) -> Seq<char> {
    if wear {
        stripped(s, suffix) + suffix
    } else {
        stripped(s, suffix)
    }
}

/// The verdict with the episode record folded in.
pub open spec fn attached(
    p: PressureView,
    episodes: Seq<EpisodeView>,
    now: Timestamp,
) -> PressureView {
    let wear = any_recovering(episodes) && is_calm(p.level);
    PressureView {
        dimensions: p.dimensions.map_values(
            |r: ReadingView| ReadingView { recovering: is_recovering(episodes, r.dimension), ..r },
        ),
        recovering: any_recovering(episodes),
        activity: activity_of(episodes, now),
        glyph: decorated(p.glyph, RECOVERING_GLYPH@, wear),
        accessibility_label: decorated(p.accessibility_label, ", recovering"@, wear),
        ..p
    }
}

/// The actions of some findings, each once, in the order they first come up.
pub open spec fn distinct_actions(s: Seq<FindingView>) -> Seq<Action>
    decreases s.len(),
{
    if s.len() == 0 {
        Seq::empty()
    } else {
        let front = distinct_actions(s.drop_last());
        let a = s.last().action;
        if a == Action::Nothing || front.contains(a) {
            front
        } else {
            front.push(a)
        }
    }
}

/// The verdict about nothing.
pub open spec fn unlooked(at: Timestamp) -> PressureView {
    let verdict = verdict_of(Seq::empty(), 0, Real { bits: 0 }, false);
    PressureView {
        evaluated_at: at,
        level: verdict.level,
        level_name: verdict.level.name_text(),
        source: verdict.source,
        glyph: verdict.glyph_text(),
        accessibility_label: verdict.spoken_text(),
        dimensions: Seq::empty(),
        findings: Seq::empty(),
        sample_count: 0,
        census_count: 0,
        recovering: false,
        activity: RecentActivity { open: 0, last_hour: 0, last_day: 0 },
    }
}

impl Pressure {
    /// The verdict for "nobody has looked yet", so that no client invents one.
    pub fn checking(at: Timestamp) -> (r: Self)
        ensures
            r@ == unlooked(at),
    {
        let nothing: Vec<Contribution> = Vec::new();
        assert(nothing@ =~= Seq::empty());
        let verdict = decide(nothing.as_slice(), 0, Real { bits: 0 }, false);
        let r = Pressure {
            evaluated_at: at,
            level: verdict.level,
            level_name: verdict.level.name().to_owned(),
            source: verdict.source,
            glyph: verdict.glyph(),
            accessibility_label: verdict.accessibility_label(),
            dimensions: Vec::new(),
            findings: Vec::new(),
            sample_count: 0,
            census_count: 0,
            recovering: false,
            activity: RecentActivity { open: 0, last_hour: 0, last_day: 0 },
        };
        assert(r@ =~= unlooked(at));
        r
    }

    /// Fold the episode record into it: mark the recovering dimensions,
    /// decorate a calm face, and summarise recent activity.
    ///
    /// `episodes` is the record after reconciliation.
    pub fn attach_episodes(&mut self, episodes: &[AlertEpisode], now: Timestamp)
        ensures
            final(self)@ == attached(old(self)@, views(episodes@), now),
    {
        let ghost all = views(episodes@);
        let ghost before = *self;
        let n: usize = self.dimensions.len();
        let mut i: usize = 0;
        while i < n
            invariant
                i <= n,
                n == before.dimensions.len(),
                self.dimensions.len() == n,
                all == views(episodes@),
                forall|j: int|
                    0 <= j < i ==> (#[trigger] self.dimensions@[j])@ == (ReadingView {
                        recovering: is_recovering(all, before.dimensions@[j].dimension),
                        ..before.dimensions@[j]@
                    }),
                forall|j: int| i <= j < n ==> #[trigger] self.dimensions@[j] == before.dimensions@[j],
                self.evaluated_at == before.evaluated_at,
                self.level == before.level,
                self.level_name == before.level_name,
                self.source == before.source,
                self.glyph == before.glyph,
                self.accessibility_label == before.accessibility_label,
                self.findings == before.findings,
                self.sample_count == before.sample_count,
                self.census_count == before.census_count,
            decreases n - i,
        {
            let d = self.dimensions[i].dimension;
            let flag = recovering_in(episodes, d);
            self.dimensions[i].recovering = flag;
            i = i + 1;
        }
        let mut any = false;
        let mut k: usize = 0;
        while k < episodes.len()
            invariant
                k <= episodes.len(),
                any == exists|j: int|
                    0 <= j < k && (#[trigger] episodes@[j]).state == EpisodeState::Recovering,
            decreases episodes.len() - k,
        {
            if episodes[k].state == EpisodeState::Recovering {
                any = true;
            }
            k = k + 1;
        }
        proof {
            if any {
                let j = choose|j: int|
                    0 <= j < episodes@.len() && (#[trigger] episodes@[j]).state
                        == EpisodeState::Recovering;
                assert(all[j].state == EpisodeState::Recovering);
            }
            if any_recovering(all) {
                let j = choose|j: int|
                    0 <= j < all.len() && (#[trigger] all[j]).state == EpisodeState::Recovering;
                assert(episodes@[j].state == EpisodeState::Recovering);
            }
        }
        self.recovering = any;
        self.activity = RecentActivity::summarise(episodes, now);
        // Any decoration there is comes off first, so that it never doubles.
        let mut glyph = strip(&self.glyph, RECOVERING_GLYPH);
        let mut label = strip(&self.accessibility_label, ", recovering");
        let calm = match self.level {
            Level::Quiet => true,
            Level::Stirring => true,
            _ => false,
        };
        if any && calm {
            glyph.append(RECOVERING_GLYPH);
            label.append(", recovering");
        }
        self.glyph = glyph;
        self.accessibility_label = label;
        proof {
            assert(self@ =~= attached(before@, all, now)) by {
                assert(views(self.dimensions@) =~= attached(before@, all, now).dimensions);
            }
        }
    }

    /// The reading of a dimension, if it was observed.
    pub fn reading(&self, d: Dimension) -> (r: Option<&DimensionReading>)
        ensures
            match r {
                Some(x) => reading_of(self@.dimensions, d) == Some(x@),
                None => reading_of(self@.dimensions, d) is None,
            },
    {
        let mut i: usize = 0;
        while i < self.dimensions.len()
            invariant
                i <= self.dimensions.len(),
                forall|j: int| 0 <= j < i ==> (#[trigger] self.dimensions@[j]).dimension != d,
            decreases self.dimensions.len() - i,
        {
            if self.dimensions[i].dimension == d {
                proof {
                    let all = self@.dimensions;
                    assert forall|j: int| 0 <= j < i implies (#[trigger] all[j]).dimension != d by {
                        assert(self.dimensions@[j].dimension != d);
                    }
                    lemma_reading_at(all, d, i as int);
                }
                return Some(&self.dimensions[i]);
            }
            i = i + 1;
        }
        proof {
            let all = self@.dimensions;
            assert forall|j: int| 0 <= j < i implies (#[trigger] all[j]).dimension != d by {
                assert(self.dimensions@[j].dimension != d);
            }
            lemma_reading_at(all, d, i as int);
        }
        None
    }

    /// Distinct recommended actions, best first, without `Nothing`.
    pub fn actions(&self) -> (r: Vec<Action>)
        ensures
            r@ == distinct_actions(self@.findings),
    {
        let ghost all = self@.findings;
        let mut out: Vec<Action> = Vec::new();
        let mut i: usize = 0;
        while i < self.findings.len()
            invariant
                i <= self.findings.len(),
                all == views(self.findings@),
                out@ == distinct_actions(all.take(i as int)),
            decreases self.findings.len() - i,
        {
            assert(all.take(i + 1).drop_last() =~= all.take(i as int));
            let a = self.findings[i].action;
            assert(all[i as int].action == a);
            if a != Action::Nothing && !has_action(&out, a) {
                out.push(a);
            }
            i = i + 1;
        }
        assert(all.take(i as int) =~= all);
        out
    }
}

fn has_action(s: &Vec<Action>, a: Action) -> (r: bool)
    ensures
        r == s@.contains(a),
{
    let mut i: usize = 0;
    while i < s.len()
        invariant
            i <= s.len(),
            forall|j: int| 0 <= j < i ==> #[trigger] s@[j] != a,
        decreases s.len() - i,
    {
        if s[i] == a {
            return true;
        }
        i = i + 1;
    }
    false
}

fn recovering_in(episodes: &[AlertEpisode], d: Dimension) -> (r: bool)
    ensures
        r == is_recovering(views(episodes@), d),
{
    let ghost all = views(episodes@);
    let mut i: usize = 0;
    while i < episodes.len()
        invariant
            i <= episodes.len(),
            all == views(episodes@),
            forall|j: int|
                0 <= j < i ==> !((#[trigger] all[j]).state == EpisodeState::Recovering
                    && all[j].dimension == d),
        decreases episodes.len() - i,
    {
        let e = &episodes[i];
        assert(all[i as int] == e@);
        if e.state == EpisodeState::Recovering && e.dimension == d {
            return true;
        }
        i = i + 1;
    }
    false
}

/// Folding the same record in twice is folding it in once, for a face that wears
/// at most one decoration.
pub proof fn law_attaching_is_idempotent(p: PressureView, episodes: Seq<EpisodeView>, now: Timestamp)
    requires
        !ends_in(stripped(p.glyph, RECOVERING_GLYPH@), RECOVERING_GLYPH@),
        !ends_in(stripped(p.accessibility_label, ", recovering"@), ", recovering"@),
    ensures
        attached(attached(p, episodes, now), episodes, now) == attached(p, episodes, now),
{
    let once = attached(p, episodes, now);
    let twice = attached(once, episodes, now);
    lemma_strip_undoes_append(stripped(p.glyph, RECOVERING_GLYPH@), RECOVERING_GLYPH@);
    lemma_strip_undoes_append(stripped(p.accessibility_label, ", recovering"@), ", recovering"@);
    assert(twice.dimensions =~= once.dimensions);
    assert(twice =~= once);
}

/// A face and words without the decoration of a recovery.
pub open spec fn undecorated(p: PressureView) -> bool {
    &&& !ends_in(p.glyph, RECOVERING_GLYPH@)
    &&& !ends_in(p.accessibility_label, ", recovering"@)
}

/// What ends in a suffix has its characters, counted from the end.
proof fn lemma_ends_alike(s: Seq<char>, suffix: Seq<char>, k: int)
    requires
        ends_in(s, suffix),
        0 <= k < suffix.len(),
    ensures
        s[s.len() - 1 - k] == suffix[suffix.len() - 1 - k],
{
    assert(s.skip(s.len() - suffix.len())[suffix.len() - 1 - k] == s[s.len() - 1 - k]);
}

/// No verdict looks or sounds like a recovery by itself.
pub proof fn law_no_verdict_wears_the_decoration(v: Verdict)
    ensures
        !ends_in(v.glyph_text(), RECOVERING_GLYPH@),
        !ends_in(v.spoken_text(), ", recovering"@),
{
    reveal_strlit("🩹");
    reveal_strlit(", recovering");
    reveal_strlit("Banshee: ");
    reveal_strlit(", ");
    let face = v.glyph_text();
    let words = v.spoken_text();
    if ends_in(face, RECOVERING_GLYPH@) {
        lemma_ends_alike(face, RECOVERING_GLYPH@, 0);
    }
    if ends_in(words, ", recovering"@) {
        lemma_ends_alike(words, ", recovering"@, 0);
        lemma_ends_alike(words, ", recovering"@, 3);
        lemma_ends_alike(words, ", recovering"@, 4);
    }
    match v.shown_source() {
        Some(s) => {
            reveal_strlit("🔥");
            reveal_strlit("🧠");
            reveal_strlit("💽");
            reveal_strlit("🕸️");
            reveal_strlit("🏢");
            reveal_strlit("🌡️");
            reveal_strlit("CPU");
            reveal_strlit("memory");
            reveal_strlit("disk");
            reveal_strlit("agent sprawl");
            reveal_strlit("managed agents");
            reveal_strlit("thermal");
            assert(face.last() == s.glyph_text().last());
            assert(words.last() == s.label_text().last());
        },
        None => {
            reveal_strlit("🫧");
            reveal_strlit("😴");
            reveal_strlit("🫥");
            reveal_strlit("😧");
            reveal_strlit("😱");
            reveal_strlit("💀");
            reveal_strlit("Checking");
            reveal_strlit("Quiet");
            reveal_strlit("Stirring");
            reveal_strlit("Restless");
            reveal_strlit("Wailing");
            reveal_strlit("Shrieking");
            let name = v.level.name_text();
            assert(words[words.len() - 1] == name[name.len() - 1]);
            assert(words[words.len() - 4] == name[name.len() - 4]);
            assert(words[words.len() - 5] == name[name.len() - 5]);
        },
    }
}

/// Whatever record is folded in, at most one decoration is worn.
pub proof fn law_attaching_wears_one_decoration(
    p: PressureView,
    episodes: Seq<EpisodeView>,
    now: Timestamp,
)
    requires
        undecorated(p),
    ensures
        ({
            let x = attached(p, episodes, now);
            &&& stripped(x.glyph, RECOVERING_GLYPH@) == p.glyph
            &&& stripped(x.accessibility_label, ", recovering"@) == p.accessibility_label
        }),
{
    lemma_strip_undoes_append(p.glyph, RECOVERING_GLYPH@);
    lemma_strip_undoes_append(p.accessibility_label, ", recovering"@);
}

/// Folding the record in never moves the level, the source, a band or a value: it
/// decorates.
pub proof fn law_attaching_only_decorates(
    p: PressureView,
    episodes: Seq<EpisodeView>,
    now: Timestamp,
    i: int,
)
    requires
        0 <= i < p.dimensions.len(),
    ensures
        attached(p, episodes, now).level == p.level,
        attached(p, episodes, now).source == p.source,
        attached(p, episodes, now).findings == p.findings,
        attached(p, episodes, now).dimensions.len() == p.dimensions.len(),
        attached(p, episodes, now).dimensions[i].contribution() == p.dimensions[i].contribution(),
        attached(p, episodes, now).dimensions[i].value == p.dimensions[i].value,
        attached(p, episodes, now).dimensions[i].detail == p.dimensions[i].detail,
{
}

/// A face that is not calm is never decorated.
pub proof fn law_only_a_calm_face_is_decorated(
    p: PressureView,
    episodes: Seq<EpisodeView>,
    now: Timestamp,
)
    requires
        !is_calm(p.level),
    ensures
        attached(p, episodes, now).glyph == stripped(p.glyph, RECOVERING_GLYPH@),
        attached(p, episodes, now).accessibility_label == stripped(
            p.accessibility_label,
            ", recovering"@,
        ),
{
}

/// What has not been looked at is `Checking`, and no record changes that face.
pub proof fn law_the_placeholder_is_checking(at: Timestamp)
    ensures
        unlooked(at).level == Level::Checking,
        unlooked(at).source is None,
        unlooked(at).glyph == Level::Checking.glyph_text(),
{
}

/// No action is recommended twice, and doing nothing never is.
pub proof fn law_actions_are_distinct(s: Seq<FindingView>)
    ensures
        distinct_actions(s).no_duplicates(),
        !distinct_actions(s).contains(Action::Nothing),
        forall|i: int|
            0 <= i < s.len() && (#[trigger] s[i]).action != Action::Nothing ==> distinct_actions(
                s,
            ).contains(s[i].action),
    decreases s.len(),
{
    if s.len() > 0 {
        let front = s.drop_last();
        law_actions_are_distinct(front);
        let r = distinct_actions(s);
        let before = distinct_actions(front);
        assert forall|i: int| 0 <= i < s.len() && (#[trigger] s[i]).action != Action::Nothing implies r.contains(
            s[i].action,
        ) by {
            if i < front.len() {
                assert(front[i] == s[i]);
                assert(before.contains(s[i].action));
                let k = choose|k: int| 0 <= k < before.len() && before[k] == s[i].action;
                assert(r[k] == before[k]);
            } else if !before.contains(s[i].action) {
                assert(r[before.len() as int] == s[i].action);
            }
        }
    }
}

/// No two actions share a wording.
pub proof fn law_action_labels_are_distinct(a: Action, b: Action)
    ensures
        a.label_text().len() > 0,
        a.label_text() == b.label_text() <==> a == b,
{
    reveal_strlit("Reap stale agent sessions");
    reveal_strlit("Reap orphaned helper processes");
    reveal_strlit("Quit and relaunch the biggest apps");
    reveal_strlit("Reboot");
    reveal_strlit("Open a disk-usage tool to see what is using the space");
    reveal_strlit("No action");
    assert(a.label_text() == b.label_text() ==> a.label_text().len() == b.label_text().len());
}

/// A row recovers exactly where an episode of its dimension does, the machine where
/// any does, and the record is counted as of now.
pub proof fn law_the_record_is_folded_in(
    p: PressureView,
    episodes: Seq<EpisodeView>,
    now: Timestamp,
    i: int,
)
    requires
        0 <= i < p.dimensions.len(),
    ensures
        ({
            let x = attached(p, episodes, now);
            &&& x.dimensions[i].recovering <==> exists|k: int|
                0 <= k < episodes.len() && (#[trigger] episodes[k]).state
                    == EpisodeState::Recovering && episodes[k].dimension
                    == p.dimensions[i].dimension
            &&& x.dimensions[i] == (ReadingView {
                recovering: x.dimensions[i].recovering,
                ..p.dimensions[i]
            })
            &&& x.recovering <==> exists|k: int|
                0 <= k < episodes.len() && (#[trigger] episodes[k]).state
                    == EpisodeState::Recovering
            &&& x.activity == activity_of(episodes, now)
            &&& x == (PressureView {
                dimensions: x.dimensions,
                recovering: x.recovering,
                activity: x.activity,
                glyph: x.glyph,
                accessibility_label: x.accessibility_label,
                ..p
            })
        }),
{
}

/// A face that wears no decoration gets one exactly where some episode recovers on
/// a machine that is quiet or stirring; otherwise it stays as it is.
pub proof fn law_who_wears_the_decoration(
    p: PressureView,
    episodes: Seq<EpisodeView>,
    now: Timestamp,
)
    requires
        undecorated(p),
    ensures
        ({
            let x = attached(p, episodes, now);
            let wears = (p.level == Level::Quiet || p.level == Level::Stirring) && exists|k: int|
                0 <= k < episodes.len() && (#[trigger] episodes[k]).state
                    == EpisodeState::Recovering;
            &&& x.glyph == if wears {
                p.glyph + "🩹"@
            } else {
                p.glyph
            }
            &&& x.accessibility_label == if wears {
                p.accessibility_label + ", recovering"@
            } else {
                p.accessibility_label
            }
        }),
{
}

proof fn lemma_reading_fits(s: Seq<ReadingView>, d: Dimension)
    ensures
        0 <= reading_at(s, d) <= s.len(),
    decreases s.len(),
{
    if s.len() > 0 && s[0].dimension != d {
        lemma_reading_fits(s.drop_first(), d);
    }
}

/// The first row of a dimension is found, and none where there is no row of it.
pub proof fn law_the_first_row_is_found(s: Seq<ReadingView>, d: Dimension)
    ensures
        reading_of(s, d) is None <==> forall|i: int|
            0 <= i < s.len() ==> (#[trigger] s[i]).dimension != d,
        reading_of(s, d) matches Some(r) ==> exists|i: int|
            0 <= i < s.len() && (#[trigger] s[i]) == r && r.dimension == d && forall|j: int|
                0 <= j < i ==> (#[trigger] s[j]).dimension != d,
    decreases s.len(),
{
    if s.len() > 0 {
        if s[0].dimension == d {
            assert(s[0] == reading_of(s, d)->0);
        } else {
            let rest = s.drop_first();
            law_the_first_row_is_found(rest, d);
            lemma_reading_fits(rest, d);
            assert(forall|i: int| 0 <= i < rest.len() ==> #[trigger] rest[i] == s[i + 1]);
            match reading_of(rest, d) {
                Some(r) => {
                    let i = choose|i: int|
                        0 <= i < rest.len() && (#[trigger] rest[i]) == r && r.dimension == d
                            && forall|j: int| 0 <= j < i ==> (#[trigger] rest[j]).dimension != d;
                    assert forall|j: int| 0 <= j < i + 1 implies (#[trigger] s[j]).dimension
                        != d by {
                        if j > 0 {
                            assert(rest[j - 1] == s[j]);
                        }
                    }
                    assert(s[i + 1] == r);
                    assert(reading_of(s, d) == Some(r)) by {
                        assert(reading_at(rest, d) < rest.len());
                        assert(s[reading_at(s, d)] == rest[reading_at(rest, d)]);
                    }
                },
                None => {
                    assert forall|i: int| 0 <= i < s.len() implies (#[trigger] s[i]).dimension
                        != d by {
                        if i > 0 {
                            assert(rest[i - 1] == s[i]);
                        }
                    }
                },
            }
        }
    }
}

/// What is proposed is proposed by some finding, in the order in which the findings
/// first propose it.
pub proof fn law_actions_are_those_found(s: Seq<FindingView>, f: FindingView)
    ensures
        distinct_actions(Seq::empty()).len() == 0,
        forall|i: int|
            0 <= i < distinct_actions(s).len() ==> exists|k: int|
                0 <= k < s.len() && (#[trigger] s[k]).action == #[trigger] distinct_actions(s)[i],
        distinct_actions(s.push(f)) == if f.action == Action::Nothing || (exists|k: int|
            0 <= k < s.len() && (#[trigger] s[k]).action == f.action) {
            distinct_actions(s)
        } else {
            distinct_actions(s).push(f.action)
        },
{
    assert(s.push(f).drop_last() =~= s);
    lemma_proposed(s);
    law_actions_are_distinct(s);
    if f.action != Action::Nothing && distinct_actions(s).contains(f.action) {
        let i = choose|i: int|
            0 <= i < distinct_actions(s).len() && distinct_actions(s)[i] == f.action;
        assert(exists|k: int|
            0 <= k < s.len() && (#[trigger] s[k]).action == distinct_actions(s)[i]);
    }
}

proof fn lemma_proposed(s: Seq<FindingView>)
    ensures
        forall|i: int|
            0 <= i < distinct_actions(s).len() ==> exists|k: int|
                0 <= k < s.len() && (#[trigger] s[k]).action == #[trigger] distinct_actions(s)[i],
    decreases s.len(),
{
    if s.len() > 0 {
        let front = s.drop_last();
        lemma_proposed(front);
        let all = distinct_actions(s);
        let before = distinct_actions(front);
        assert forall|i: int| 0 <= i < all.len() implies exists|k: int|
            0 <= k < s.len() && (#[trigger] s[k]).action == #[trigger] all[i] by {
            if i < before.len() {
                assert(all[i] == before[i]);
                let k = choose|k: int| 0 <= k < front.len() && (#[trigger] front[k]).action
                    == before[i];
                assert(s[k].action == all[i]);
            } else {
                assert(s[s.len() - 1].action == all[i]);
            }
        }
    }
}

} // verus!
