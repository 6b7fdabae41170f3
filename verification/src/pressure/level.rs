//! Six levels, one glyph, and which source is to blame.
use vstd::prelude::*;

use super::band::Band;
use super::config::{Dimension, Source};
use crate::number::{Real, Standing};

verus! {

/// The whole-machine verdict, calmest first.
#[derive(Clone, Copy, Debug, PartialEq, Eq, PartialOrd, Ord, Structural)]
pub enum Level {
    /// Not enough data. Not a calm level: nothing is known.
    Checking,
    /// All green.
    Quiet,
    /// One yellow.
    Stirring,
    /// Two yellows, or a red that is still fresh.
    Restless,
    /// One sustained red.
    Wailing,
    /// Two sustained reds, one catastrophic one, or a process killed for memory.
    Shrieking,
}

impl Level {
    pub open spec fn height(self) -> nat {
        match self {
            Level::Checking => 0,
            Level::Quiet => 1,
            Level::Stirring => 2,
            Level::Restless => 3,
            Level::Wailing => 4,
            Level::Shrieking => 5,
        }
    }

    pub open spec fn glyph_text(self) -> Seq<char> {
        match self {
            Level::Checking => "🫧"@,
            Level::Quiet => "😴"@,
            Level::Stirring => "🫥"@,
            Level::Restless => "😧"@,
            Level::Wailing => "😱"@,
            Level::Shrieking => "💀"@,
        }
    }

    pub open spec fn name_text(self) -> Seq<char> {
        match self {
            Level::Checking => "Checking"@,
            Level::Quiet => "Quiet"@,
            Level::Stirring => "Stirring"@,
            Level::Restless => "Restless"@,
            Level::Wailing => "Wailing"@,
            Level::Shrieking => "Shrieking"@,
        }
    }

    /// The level as a number, calmest first.
    pub fn rank(self) -> (r: u8)
        ensures
            r == self.height(),
    {
        match self {
            Level::Checking => 0,
            Level::Quiet => 1,
            Level::Stirring => 2,
            Level::Restless => 3,
            Level::Wailing => 4,
            Level::Shrieking => 5,
        }
    }

    pub fn glyph(self) -> (r: &'static str)
        ensures
            r@ == self.glyph_text(),
    {
        match self {
            Level::Checking => "🫧",
            Level::Quiet => "😴",
            Level::Stirring => "🫥",
            Level::Restless => "😧",
            Level::Wailing => "😱",
            Level::Shrieking => "💀",
        }
    }

    pub fn name(self) -> (r: &'static str)
        ensures
            r@ == self.name_text(),
    {
        match self {
            Level::Checking => "Checking",
            Level::Quiet => "Quiet",
            Level::Stirring => "Stirring",
            Level::Restless => "Restless",
            Level::Wailing => "Wailing",
            Level::Shrieking => "Shrieking",
        }
    }

    /// Whether the glyph carries a source suffix: from restless upward.
    pub fn shows_source(self) -> (r: bool)
        ensures
            r == (self.height() >= Level::Restless.height()),
    {
        self.rank() >= Level::Restless.rank()
    }

    /// Whether this is worth interrupting a person.
    pub fn warrants_notification(self) -> (r: bool)
        ensures
            r == (self.height() >= Level::Wailing.height()),
    {
        self.rank() >= Level::Wailing.rank()
    }

    /// Whether this is worth telling someone who is not at the machine.
    pub fn warrants_escalation(self) -> (r: bool)
        ensures
            r == (self.height() >= Level::Shrieking.height()),
    {
        self.rank() >= Level::Shrieking.rank()
    }
}

/// One dimension's say in the verdict.
#[derive(Clone, Copy, Debug, PartialEq, Eq, Structural)]
pub struct Contribution {
    pub dimension: Dimension,
    pub band: Band,
    pub held_secs: u64,
    /// How far past its own threshold, normalised so that dimensions compare.
    pub severity: Real,
}

impl Contribution {
    pub open spec fn sustained(self, grace_secs: u64) -> bool {
        self.band == Band::Red && self.held_secs >= grace_secs
    }

    /// Whether the dimension takes part in the verdict at all.
    pub open spec fn scores(self) -> bool {
        !self.dimension.advisory()
    }

    /// Worst band first, then furthest past its own line, then declared first.
    pub open spec fn outranks(self, other: Contribution) -> bool {
        if self.band != other.band {
            self.band.height() > other.band.height()
        } else {
            match self.severity.standing(other.severity) {
                Standing::Above => true,
                Standing::Below => false,
                Standing::Same => self.dimension.place() < other.dimension.place(),
            }
        }
    }

    pub fn is_sustained_red(&self, grace_secs: u64) -> (r: bool)
        ensures
            r == self.sustained(grace_secs),
    {
        self.band == Band::Red && self.held_secs >= grace_secs
    }

    /// Whether this one is worse than `other`.
    pub fn is_worse(&self, other: &Contribution) -> (r: bool)
        ensures
            r == self.outranks(*other),
    {
        if self.band != other.band {
            self.band.rank() > other.band.rank()
        } else {
            match self.severity.stands(other.severity) {
                Standing::Above => true,
                Standing::Below => false,
                Standing::Same => index_of(self.dimension) < index_of(other.dimension),
            }
        }
    }
}

/// The verdict.
#[derive(Clone, Copy, Debug, PartialEq, Eq, Structural)]
pub struct Verdict {
    pub level: Level,
    /// Who is to blame. `None` at `Quiet`, `Checking` and `Stirring`: nothing is
    /// worth naming yet.
    pub source: Option<Source>,
}

impl Verdict {
    /// The source as far as it is shown.
    pub open spec fn shown_source(self) -> Option<Source> {
        if self.level.height() >= Level::Restless.height() {
            self.source
        } else {
            None
        }
    }

    pub open spec fn glyph_text(self) -> Seq<char> {
        match self.shown_source() {
            Some(s) => self.level.glyph_text() + s.glyph_text(),
            None => self.level.glyph_text(),
        }
    }

    pub open spec fn spoken_text(self) -> Seq<char> {
        match self.shown_source() {
            Some(s) => "Banshee: "@ + self.level.name_text() + ", "@ + s.label_text(),
            None => "Banshee: "@ + self.level.name_text(),
        }
    }

    fn source_shown(&self) -> (r: Option<Source>)
        ensures
            r == self.shown_source(),
    {
        if self.level.shows_source() {
            self.source
        } else {
            None
        }
    }

    /// What the menu bar renders: the level, and from restless upward the
    /// source behind it.
    pub fn glyph(&self) -> (r: String)
        ensures
            r@ == self.glyph_text(),
    {
        let mut out = self.level.glyph().to_owned();
        match self.source_shown() {
            Some(s) => out.append(s.glyph()),
            None => {},
        }
        out
    }

    /// The same in words.
    pub fn accessibility_label(&self) -> (r: String)
        ensures
            r@ == self.spoken_text(),
    {
        let mut out = "Banshee: ".to_owned();
        out.append(self.level.name());
        match self.source_shown() {
            Some(s) => {
                out.append(", ");
                out.append(s.label());
            },
            None => {},
        }
        out
    }
}

/// How many members of `s` satisfy `p`.
pub open spec fn tally(s: Seq<Contribution>, p: spec_fn(Contribution) -> bool) -> nat
    decreases s.len(),
{
    if s.len() == 0 {
        0
    } else {
        tally(s.drop_last(), p) + if p(s.last()) {
            1nat
        } else {
            0nat
        }
    }
}

/// Negative infinity.
pub open spec fn bottom() -> Real {
    Real { bits: 0xFFF0_0000_0000_0000 }
}

/// The greatest severity among the sustained reds that score.
pub open spec fn worst_severity(s: Seq<Contribution>, grace_secs: u64) -> Real
    decreases s.len(),
{
    if s.len() == 0 {
        bottom()
    } else {
        let front = worst_severity(s.drop_last(), grace_secs);
        if s.last().scores() && s.last().sustained(grace_secs) {
            front.larger(s.last().severity)
        } else {
            front
        }
    }
}

/// The contribution that outranks the others among those that score and are out
/// of band. Of two that do not outrank each other the later one stands.
pub open spec fn worst_of(s: Seq<Contribution>) -> Option<Contribution>
    decreases s.len(),
{
    if s.len() == 0 {
        None
    } else {
        let front = worst_of(s.drop_last());
        let c = s.last();
        if !c.scores() || c.band == Band::Green {
            front
        } else {
            match front {
                Some(w) if w.outranks(c) => front,
                _ => Some(c),
            }
        }
    }
}

pub open spec fn dominant(s: Seq<Contribution>) -> Option<Source> {
    match worst_of(s) {
        Some(c) => Some(c.dimension.blames()),
        None => None,
    }
}

pub open spec fn is_scoring() -> spec_fn(Contribution) -> bool {
    |c: Contribution| c.scores()
}

pub open spec fn is_yellow() -> spec_fn(Contribution) -> bool {
    |c: Contribution| c.scores() && c.band == Band::Yellow
}

pub open spec fn is_red() -> spec_fn(Contribution) -> bool {
    |c: Contribution| c.scores() && c.band == Band::Red
}

pub open spec fn is_kill() -> spec_fn(Contribution) -> bool {
    |c: Contribution| c.scores() && c.band == Band::Red && c.dimension == Dimension::Jetsam
}

pub open spec fn is_lasting_red(grace_secs: u64) -> spec_fn(Contribution) -> bool {
    |c: Contribution| c.scores() && c.sustained(grace_secs)
}

/// The level of contributions some of which score.
pub open spec fn level_of(
    s: Seq<Contribution>,
    grace_secs: u64,
    catastrophic_severity: Real,
) -> Level {
    let lasting = tally(s, is_lasting_red(grace_secs));
    let yellows = tally(s, is_yellow());
    if tally(s, is_kill()) > 0 || lasting >= 2 {
        Level::Shrieking
    } else if lasting == 1 {
        if catastrophic_severity.at_most(worst_severity(s, grace_secs)) {
            Level::Shrieking
        } else {
            Level::Wailing
        }
    } else if tally(s, is_red()) > 0 || yellows >= 2 {
        Level::Restless
    } else if yellows == 1 {
        Level::Stirring
    } else {
        Level::Quiet
    }
}

/// What the contributions amount to. A source is named once it is worth naming.
pub open spec fn verdict_of(
    s: Seq<Contribution>,
    grace_secs: u64,
    catastrophic_severity: Real,
    have_data: bool,
) -> Verdict {
    if !have_data || tally(s, is_scoring()) == 0 {
        Verdict { level: Level::Checking, source: None }
    } else {
        let level = level_of(s, grace_secs, catastrophic_severity);
        Verdict {
            level,
            source: if level.height() >= Level::Restless.height() {
                dominant(s)
            } else {
                None
            },
        }
    }
}

/// Weigh the contributions.
///
/// Nothing to weigh is `Checking`, never `Quiet`. Advisory dimensions do not
/// count. A process killed for memory rings the top bell at once: unlike every
/// other red it cannot be a blip.
pub fn decide(
    contributions: &[Contribution],
    grace_secs: u64,
    catastrophic_severity: Real,
    have_data: bool,
) -> (r: Verdict)
    ensures
        r == verdict_of(contributions@, grace_secs, catastrophic_severity, have_data),
{
    if !have_data {
        return Verdict { level: Level::Checking, source: None };
    }
    let n: usize = contributions.len();
    let mut scoring: usize = 0;
    let mut yellows: usize = 0;
    let mut reds: usize = 0;
    let mut kills: usize = 0;
    let mut sustained: usize = 0;
    let mut worst_sustained: Real = Real { bits: 0xFFF0_0000_0000_0000 };
    let mut i: usize = 0;
    while i < n
        invariant
            i <= n,
            n == contributions.len(),
            scoring == tally(contributions@.take(i as int), is_scoring()),
            yellows == tally(contributions@.take(i as int), is_yellow()),
            reds == tally(contributions@.take(i as int), is_red()),
            kills == tally(contributions@.take(i as int), is_kill()),
            sustained == tally(contributions@.take(i as int), is_lasting_red(grace_secs)),
            worst_sustained == worst_severity(contributions@.take(i as int), grace_secs),
            scoring <= i,
            yellows <= i,
            reds <= i,
            kills <= i,
            sustained <= i,
        decreases n - i,
    {
        assert(contributions@.take(i + 1).drop_last() =~= contributions@.take(i as int));
        let c = contributions[i];
        if !c.dimension.is_advisory() {
            scoring = scoring + 1;
            if c.band == Band::Yellow {
                yellows = yellows + 1;
            }
            if c.band == Band::Red {
                reds = reds + 1;
                if c.dimension == Dimension::Jetsam {
                    kills = kills + 1;
                }
            }
            if c.is_sustained_red(grace_secs) {
                sustained = sustained + 1;
                worst_sustained = worst_sustained.max(c.severity);
            }
        }
        i = i + 1;
    }
    assert(contributions@.take(n as int) =~= contributions@);
    if scoring == 0 {
        return Verdict { level: Level::Checking, source: None };
    }
    let level = if kills > 0 {
        Level::Shrieking
    } else if sustained >= 2 {
        Level::Shrieking
    } else if sustained == 1 {
        if catastrophic_severity.is_at_most(worst_sustained) {
            Level::Shrieking
        } else {
            Level::Wailing
        }
    } else if reds > 0 || yellows >= 2 {
        Level::Restless
    } else if yellows == 1 {
        Level::Stirring
    } else {
        Level::Quiet
    };
    let source = if level.shows_source() {
        dominant_source(contributions)
    } else {
        None
    };
    Verdict { level, source }
}

/// The source of the worst contribution that is out of band.
fn dominant_source(contributions: &[Contribution]) -> (r: Option<Source>)
    ensures
        r == dominant(contributions@),
{
    let n: usize = contributions.len();
    let mut worst: Option<Contribution> = None;
    let mut i: usize = 0;
    while i < n
        invariant
            i <= n,
            n == contributions.len(),
            worst == worst_of(contributions@.take(i as int)),
        decreases n - i,
    {
        assert(contributions@.take(i + 1).drop_last() =~= contributions@.take(i as int));
        let c = contributions[i];
        if !c.dimension.is_advisory() && c.band != Band::Green {
            let keep = match worst {
                Some(w) => w.is_worse(&c),
                None => false,
            };
            if !keep {
                worst = Some(c);
            }
        }
        i = i + 1;
    }
    assert(contributions@.take(n as int) =~= contributions@);
    match worst {
        Some(c) => Some(c.dimension.source()),
        None => None,
    }
}

/// The place of a dimension in the declared order.
fn index_of(d: Dimension) -> (r: usize)
    ensures
        r == d.place(),
{
    d.index()
}

proof fn lemma_tally_positive(
    s: Seq<Contribution>,
    p: spec_fn(Contribution) -> bool,
    i: int,
)
    requires
        0 <= i < s.len(),
        p(s[i]),
    ensures
        tally(s, p) > 0,
    decreases s.len(),
{
    if i < s.len() - 1 {
        lemma_tally_positive(s.drop_last(), p, i);
    }
}

proof fn lemma_tally_zero(s: Seq<Contribution>, p: spec_fn(Contribution) -> bool)
    requires
        forall|i: int| 0 <= i < s.len() ==> !p(#[trigger] s[i]),
    ensures
        tally(s, p) == 0,
    decreases s.len(),
{
    if s.len() > 0 {
        lemma_tally_zero(s.drop_last(), p);
    }
}

/// Without data the verdict is `Checking`, with nobody to blame.
pub proof fn law_no_data_is_checking(s: Seq<Contribution>, grace_secs: u64, catastrophic: Real)
    ensures
        verdict_of(s, grace_secs, catastrophic, false) == (Verdict {
            level: Level::Checking,
            source: None,
        }),
        (forall|i: int| 0 <= i < s.len() ==> !(#[trigger] s[i]).scores()) ==> verdict_of(
            s,
            grace_secs,
            catastrophic,
            true,
        ) == (Verdict { level: Level::Checking, source: None }),
{
    if forall|i: int| 0 <= i < s.len() ==> !(#[trigger] s[i]).scores() {
        lemma_tally_zero(s, is_scoring());
    }
}

/// The contributions that take part, in their order.
pub open spec fn scoring(s: Seq<Contribution>) -> Seq<Contribution>
    decreases s.len(),
{
    if s.len() == 0 {
        s
    } else if s.last().scores() {
        scoring(s.drop_last()).push(s.last())
    } else {
        scoring(s.drop_last())
    }
}

proof fn lemma_only_scoring_counts(s: Seq<Contribution>, grace_secs: u64)
    ensures
        tally(scoring(s), is_scoring()) == tally(s, is_scoring()),
        tally(scoring(s), is_yellow()) == tally(s, is_yellow()),
        tally(scoring(s), is_red()) == tally(s, is_red()),
        tally(scoring(s), is_kill()) == tally(s, is_kill()),
        tally(scoring(s), is_lasting_red(grace_secs)) == tally(s, is_lasting_red(grace_secs)),
        worst_severity(scoring(s), grace_secs) == worst_severity(s, grace_secs),
        worst_of(scoring(s)) == worst_of(s),
    decreases s.len(),
{
    if s.len() > 0 {
        let front = s.drop_last();
        lemma_only_scoring_counts(front, grace_secs);
        if s.last().scores() {
            assert(scoring(s).drop_last() =~= scoring(front));
        }
    }
}

/// Advisory dimensions change nothing, wherever they stand: the same contributions
/// that take part, in the same order, give the same level and the same source.
pub proof fn law_advisory_dimensions_never_drive(
    s: Seq<Contribution>,
    t: Seq<Contribution>,
    grace_secs: u64,
    catastrophic: Real,
    have_data: bool,
)
    requires
        scoring(s) == scoring(t),
    ensures
        verdict_of(s, grace_secs, catastrophic, have_data) == verdict_of(
            t,
            grace_secs,
            catastrophic,
            have_data,
        ),
{
    lemma_only_scoring_counts(s, grace_secs);
    lemma_only_scoring_counts(t, grace_secs);
}

/// A process killed for memory is the top bell, however fresh and however mild.
pub proof fn law_a_kill_shrieks(
    s: Seq<Contribution>,
    i: int,
    grace_secs: u64,
    catastrophic: Real,
)
    requires
        0 <= i < s.len(),
        s[i].dimension == Dimension::Jetsam,
        s[i].band == Band::Red,
    ensures
        verdict_of(s, grace_secs, catastrophic, true).level == Level::Shrieking,
{
    lemma_tally_positive(s, is_scoring(), i);
    lemma_tally_positive(s, is_kill(), i);
}

/// Calm is claimed only when every dimension that scores is green, and then
/// nobody is blamed.
pub proof fn law_quiet_is_all_green(s: Seq<Contribution>, grace_secs: u64, catastrophic: Real)
    requires
        tally(s, is_scoring()) > 0,
    ensures
        verdict_of(s, grace_secs, catastrophic, true).level == Level::Quiet <==> (forall|i: int|
            0 <= i < s.len() && (#[trigger] s[i]).scores() ==> s[i].band == Band::Green),
        verdict_of(s, grace_secs, catastrophic, true).level == Level::Quiet ==> verdict_of(
            s,
            grace_secs,
            catastrophic,
            true,
        ).source is None,
{
    if forall|i: int| 0 <= i < s.len() && (#[trigger] s[i]).scores() ==> s[i].band == Band::Green {
        lemma_tally_zero(s, is_yellow());
        lemma_tally_zero(s, is_red());
        lemma_tally_zero(s, is_kill());
        lemma_tally_zero(s, is_lasting_red(grace_secs));
        lemma_no_worst(s);
    } else {
        let i = choose|i: int|
            0 <= i < s.len() && (#[trigger] s[i]).scores() && s[i].band != Band::Green;
        if s[i].band == Band::Yellow {
            lemma_tally_positive(s, is_yellow(), i);
        } else {
            lemma_tally_positive(s, is_red(), i);
        }
    }
}

proof fn lemma_no_worst(s: Seq<Contribution>)
    requires
        forall|i: int| 0 <= i < s.len() && (#[trigger] s[i]).scores() ==> s[i].band == Band::Green,
    ensures
        worst_of(s) is None,
    decreases s.len(),
{
    if s.len() > 0 {
        lemma_no_worst(s.drop_last());
    }
}

/// Nothing that interrupts a person comes from a red that has not lasted, save a
/// kill.
pub proof fn law_fresh_reds_do_not_interrupt(
    s: Seq<Contribution>,
    grace_secs: u64,
    catastrophic: Real,
    have_data: bool,
)
    requires
        forall|i: int|
            0 <= i < s.len() && (#[trigger] s[i]).band == Band::Red ==> s[i].held_secs < grace_secs
                && s[i].dimension != Dimension::Jetsam,
    ensures
        verdict_of(s, grace_secs, catastrophic, have_data).level.height()
            < Level::Wailing.height(),
{
    lemma_tally_zero(s, is_kill());
    lemma_tally_zero(s, is_lasting_red(grace_secs));
}

/// Distinct dimensions, and severities that can be compared.
pub open spec fn comparable(s: Seq<Contribution>) -> bool {
    &&& forall|i: int, j: int|
        0 <= i < s.len() && 0 <= j < s.len() && (#[trigger] s[i]).dimension == (
        #[trigger] s[j]).dimension ==> i == j
    &&& forall|i: int| 0 <= i < s.len() ==> !(#[trigger] s[i]).severity.nan()
}

/// The one that is blamed is out of band, takes part, and outranks every other
/// that does.
pub proof fn law_the_worst_outranks_the_rest(s: Seq<Contribution>)
    requires
        comparable(s),
    ensures
        worst_of(s) is Some <==> exists|i: int|
            0 <= i < s.len() && (#[trigger] s[i]).scores() && s[i].band != Band::Green,
        worst_of(s) matches Some(w) ==> {
            &&& s.contains(w)
            &&& w.scores()
            &&& w.band != Band::Green
            &&& forall|i: int|
                0 <= i < s.len() && (#[trigger] s[i]).scores() && s[i].band != Band::Green ==> s[i]
                    == w || w.outranks(s[i])
        },
    decreases s.len(),
{
    if s.len() > 0 {
        let front = s.drop_last();
        let c = s.last();
        assert(forall|i: int| 0 <= i < front.len() ==> front[i] == s[i]);
        assert(comparable(front)) by {
            assert forall|i: int, j: int|
                0 <= i < front.len() && 0 <= j < front.len() && (#[trigger] front[i]).dimension == (
                #[trigger] front[j]).dimension implies i == j by {
                assert(s[i].dimension == s[j].dimension);
            }
            assert forall|i: int| 0 <= i < front.len() implies !(
            #[trigger] front[i]).severity.nan() by {
                assert(!s[i].severity.nan());
            }
        }
        law_the_worst_outranks_the_rest(front);
        let last = s.len() - 1;
        assert(s[last] == c);
        assert(!c.severity.nan());
        if worst_of(front) is Some {
            let w = worst_of(front)->0;
            let at = choose|at: int| 0 <= at < front.len() && front[at] == w;
            assert(s[at] == w);
            assert(s.contains(w));
            assert(s[at].dimension != s[last].dimension);
            assert(!w.severity.nan());
            assert(w.outranks(c) || c.outranks(w));
        }
        if worst_of(s) is Some {
            let w = worst_of(s)->0;
            assert forall|i: int|
                0 <= i < s.len() && (#[trigger] s[i]).scores() && s[i].band != Band::Green implies s[i]
                == w || w.outranks(s[i]) by {
                if i < last {
                    assert(front[i] == s[i]);
                    assert(!s[i].severity.nan());
                    let v = worst_of(front)->0;
                    assert(front[i] == v || v.outranks(front[i]));
                    if w == c {
                        assert(s[i].dimension != s[last].dimension);
                        assert(c.outranks(v));
                    }
                }
            }
        }
        if exists|i: int| 0 <= i < s.len() && (#[trigger] s[i]).scores() && s[i].band != Band::Green {
            let i = choose|i: int|
                0 <= i < s.len() && (#[trigger] s[i]).scores() && s[i].band != Band::Green;
            if i < last {
                assert(front[i] == s[i]);
            }
        }
        if worst_of(front) is Some {
            let i = choose|i: int|
                0 <= i < front.len() && (#[trigger] front[i]).scores() && front[i].band
                    != Band::Green;
            assert(s[i] == front[i]);
        }
    }
}

/// Who is blamed does not depend on the order in which the dimensions are
/// weighed.
pub proof fn law_blame_ignores_order(s: Seq<Contribution>, t: Seq<Contribution>)
    requires
        comparable(s),
        comparable(t),
        forall|c: Contribution| s.contains(c) <==> t.contains(c),
    ensures
        worst_of(s) == worst_of(t),
        dominant(s) == dominant(t),
{
    law_the_worst_outranks_the_rest(s);
    law_the_worst_outranks_the_rest(t);
    if worst_of(s) is Some {
        let w = worst_of(s)->0;
        assert(t.contains(w));
        let i = choose|i: int| 0 <= i < t.len() && t[i] == w;
        assert(t[i].scores());
        let v = worst_of(t)->0;
        assert(s.contains(v));
        let j = choose|j: int| 0 <= j < s.len() && s[j] == v;
        assert(s[j] == w || w.outranks(s[j]));
        assert(t[i] == v || v.outranks(t[i]));
    } else if worst_of(t) is Some {
        let v = worst_of(t)->0;
        assert(s.contains(v));
        let j = choose|j: int| 0 <= j < s.len() && s[j] == v;
        assert(s[j].scores());
    }
}

/// A source is named from `Restless` upward and nowhere below, and from there
/// upward it always is.
pub proof fn law_a_source_is_named_when_worth_naming(
    s: Seq<Contribution>,
    grace_secs: u64,
    catastrophic: Real,
    have_data: bool,
)
    ensures
        ({
            let v = verdict_of(s, grace_secs, catastrophic, have_data);
            v.source is Some <==> v.level.height() >= Level::Restless.height()
        }),
{
    if forall|i: int| 0 <= i < s.len() && (#[trigger] s[i]).scores() ==> s[i].band == Band::Green {
        lemma_tally_zero(s, is_yellow());
        lemma_tally_zero(s, is_red());
        lemma_tally_zero(s, is_kill());
        lemma_tally_zero(s, is_lasting_red(grace_secs));
    } else {
        let i = choose|i: int|
            0 <= i < s.len() && (#[trigger] s[i]).scores() && s[i].band != Band::Green;
        lemma_some_worst(s, i);
    }
}

proof fn lemma_some_worst(s: Seq<Contribution>, i: int)
    requires
        0 <= i < s.len(),
        s[i].scores(),
        s[i].band != Band::Green,
    ensures
        worst_of(s) is Some,
    decreases s.len(),
{
    if i < s.len() - 1 {
        lemma_some_worst(s.drop_last(), i);
    }
}

proof fn lemma_tally_without(s: Seq<Contribution>, at: int, p: spec_fn(Contribution) -> bool)
    requires
        0 <= at < s.len(),
    ensures
        tally(s, p) == tally(s.remove(at), p) + (if p(s[at]) {
            1nat
        } else {
            0nat
        }),
    decreases s.len(),
{
    if at < s.len() - 1 {
        lemma_tally_without(s.drop_last(), at, p);
        assert(s.remove(at).drop_last() =~= s.drop_last().remove(at));
        assert(s.remove(at).last() == s.last());
    } else {
        assert(s.remove(at) =~= s.drop_last());
    }
}

proof fn lemma_tally_ignores_order(
    s: Seq<Contribution>,
    t: Seq<Contribution>,
    p: spec_fn(Contribution) -> bool,
)
    requires
        s.to_multiset() == t.to_multiset(),
    ensures
        tally(s, p) == tally(t, p),
    decreases s.len(),
{
    broadcast use vstd::seq_lib::group_to_multiset_ensures;

    assert(s.len() == s.to_multiset().len() && t.len() == t.to_multiset().len());
    if s.len() > 0 {
        let x = s.last();
        assert(s.contains(x));
        assert(t.to_multiset().contains(x));
        let at = choose|at: int| 0 <= at < t.len() && t[at] == x;
        assert(s =~= s.drop_last().push(x));
        assert(s.drop_last().to_multiset() =~= s.to_multiset().remove(x));
        assert(t.remove(at).to_multiset() =~= t.to_multiset().remove(x));
        lemma_tally_ignores_order(s.drop_last(), t.remove(at), p);
        lemma_tally_without(t, at, p);
    }
}

proof fn lemma_worst_severity_reached(s: Seq<Contribution>, grace_secs: u64)
    ensures
        worst_severity(s, grace_secs) == bottom() || exists|i: int|
            0 <= i < s.len() && is_lasting_red(grace_secs)(#[trigger] s[i]) && s[i].severity
                == worst_severity(s, grace_secs),
        forall|i: int|
            0 <= i < s.len() && is_lasting_red(grace_secs)(#[trigger] s[i])
                && !s[i].severity.nan() ==> s[i].severity.at_most(worst_severity(s, grace_secs)),
    decreases s.len(),
{
    lemma_worst_severity(s, grace_secs);
    if s.len() > 0 {
        let front = s.drop_last();
        let w = worst_severity(s, grace_secs);
        lemma_worst_severity(front, grace_secs);
        lemma_worst_severity_reached(front, grace_secs);
        if w != bottom() {
            if w == worst_severity(front, grace_secs) {
                let i = choose|i: int|
                    0 <= i < front.len() && is_lasting_red(grace_secs)(#[trigger] front[i])
                        && front[i].severity == w;
                assert(s[i] == front[i]);
            } else {
                assert(s[s.len() - 1].severity == w);
            }
        }
        assert forall|i: int|
            0 <= i < s.len() && is_lasting_red(grace_secs)(#[trigger] s[i])
                && !s[i].severity.nan() implies s[i].severity.at_most(w) by {
            if i < front.len() {
                assert(front[i] == s[i]);
            }
        }
    }
}

proof fn lemma_worst_severity_ignores_order(
    s: Seq<Contribution>,
    t: Seq<Contribution>,
    grace_secs: u64,
)
    requires
        s.to_multiset() == t.to_multiset(),
    ensures
        worst_severity(s, grace_secs).at_most(worst_severity(t, grace_secs)),
{
    broadcast use vstd::seq_lib::group_to_multiset_ensures;

    lemma_worst_severity(s, grace_secs);
    lemma_worst_severity(t, grace_secs);
    lemma_worst_severity_reached(s, grace_secs);
    lemma_worst_severity_reached(t, grace_secs);
    let w = worst_severity(s, grace_secs);
    if w != bottom() {
        let i = choose|i: int|
            0 <= i < s.len() && is_lasting_red(grace_secs)(#[trigger] s[i]) && s[i].severity == w;
        assert(s.contains(s[i]));
        assert(t.to_multiset().contains(s[i]));
        let j = choose|j: int| 0 <= j < t.len() && t[j] == s[i];
        assert(is_lasting_red(grace_secs)(t[j]));
    }
}

/// The level does not depend on the order in which the dimensions are weighed,
/// and where they can be told apart neither does who is blamed.
pub proof fn law_the_verdict_ignores_order(
    s: Seq<Contribution>,
    t: Seq<Contribution>,
    grace_secs: u64,
    catastrophic: Real,
    have_data: bool,
)
    requires
        s.to_multiset() == t.to_multiset(),
    ensures
        verdict_of(s, grace_secs, catastrophic, have_data).level == verdict_of(
            t,
            grace_secs,
            catastrophic,
            have_data,
        ).level,
        comparable(s) && comparable(t) ==> verdict_of(s, grace_secs, catastrophic, have_data)
            == verdict_of(t, grace_secs, catastrophic, have_data),
{
    broadcast use vstd::seq_lib::group_to_multiset_ensures;

    lemma_tally_ignores_order(s, t, is_scoring());
    lemma_tally_ignores_order(s, t, is_yellow());
    lemma_tally_ignores_order(s, t, is_red());
    lemma_tally_ignores_order(s, t, is_kill());
    lemma_tally_ignores_order(s, t, is_lasting_red(grace_secs));
    lemma_worst_severity_ignores_order(s, t, grace_secs);
    lemma_worst_severity_ignores_order(t, s, grace_secs);
    if comparable(s) && comparable(t) {
        assert forall|c: Contribution| s.contains(c) <==> t.contains(c) by {
            assert(s.contains(c) <==> s.to_multiset().count(c) > 0);
            assert(t.contains(c) <==> t.to_multiset().count(c) > 0);
        }
        law_blame_ignores_order(s, t);
    }
}

/// No two levels share a face.
pub proof fn law_faces_are_distinct(a: Level, b: Level)
    ensures
        a.glyph_text().len() > 0,
        a.glyph_text() == b.glyph_text() <==> a == b,
{
    reveal_strlit("🫧");
    reveal_strlit("😴");
    reveal_strlit("🫥");
    reveal_strlit("😧");
    reveal_strlit("😱");
    reveal_strlit("💀");
    if a.glyph_text() == b.glyph_text() {
        assert(a.glyph_text()[0] == b.glyph_text()[0]);
    }
}

proof fn lemma_tally_update(
    s: Seq<Contribution>,
    i: int,
    c: Contribution,
    p: spec_fn(Contribution) -> bool,
)
    requires
        0 <= i < s.len(),
    ensures
        tally(s.update(i, c), p) + (if p(s[i]) {
            1int
        } else {
            0int
        }) == tally(s, p) + (if p(c) {
            1int
        } else {
            0int
        }),
    decreases s.len(),
{
    let t = s.update(i, c);
    if i == s.len() - 1 {
        assert(t.drop_last() =~= s.drop_last());
    } else {
        lemma_tally_update(s.drop_last(), i, c, p);
        assert(t.drop_last() =~= s.drop_last().update(i, c));
        assert(t.last() == s.last());
    }
}

proof fn lemma_worst_severity(s: Seq<Contribution>, grace_secs: u64)
    ensures
        !worst_severity(s, grace_secs).nan(),
        bottom().at_most(worst_severity(s, grace_secs)),
    decreases s.len(),
{
    if s.len() > 0 {
        lemma_worst_severity(s.drop_last(), grace_secs);
    }
}

proof fn lemma_worst_severity_update(
    s: Seq<Contribution>,
    i: int,
    c: Contribution,
    grace_secs: u64,
)
    requires
        0 <= i < s.len(),
        s[i].worsens_to(c),
    ensures
        worst_severity(s, grace_secs).at_most(worst_severity(s.update(i, c), grace_secs)),
    decreases s.len(),
{
    let t = s.update(i, c);
    lemma_worst_severity(s, grace_secs);
    lemma_worst_severity(t, grace_secs);
    lemma_worst_severity(s.drop_last(), grace_secs);
    if i == s.len() - 1 {
        assert(t.drop_last() =~= s.drop_last());
    } else {
        lemma_worst_severity_update(s.drop_last(), i, c, grace_secs);
        lemma_worst_severity(s.drop_last().update(i, c), grace_secs);
        assert(t.drop_last() =~= s.drop_last().update(i, c));
        assert(t.last() == s.last());
    }
}

impl Contribution {
    /// Another contribution of the same dimension is at least as bad in every
    /// respect.
    pub open spec fn worsens_to(self, worse: Contribution) -> bool {
        &&& worse.dimension == self.dimension
        &&& worse.band.height() >= self.band.height()
        &&& worse.held_secs >= self.held_secs
        &&& self.severity.at_most(worse.severity) || self.severity == worse.severity
    }
}

/// A dimension that gets worse never makes the machine look calmer.
pub proof fn law_worse_never_looks_calmer(
    s: Seq<Contribution>,
    i: int,
    worse: Contribution,
    grace_secs: u64,
    catastrophic: Real,
    have_data: bool,
)
    requires
        0 <= i < s.len(),
        s[i].worsens_to(worse),
    ensures
        verdict_of(s, grace_secs, catastrophic, have_data).level.height() <= verdict_of(
            s.update(i, worse),
            grace_secs,
            catastrophic,
            have_data,
        ).level.height(),
{
    lemma_tally_update(s, i, worse, is_scoring());
    lemma_tally_update(s, i, worse, is_yellow());
    lemma_tally_update(s, i, worse, is_red());
    lemma_tally_update(s, i, worse, is_kill());
    lemma_tally_update(s, i, worse, is_lasting_red(grace_secs));
    lemma_worst_severity_update(s, i, worse, grace_secs);
}

/// Whether a contribution takes part and has been red for the grace.
pub open spec fn lasts(c: Contribution, grace_secs: u64) -> bool {
    !c.dimension.advisory() && c.band == Band::Red && c.held_secs >= grace_secs
}

/// Whether a contribution takes part and is in a band.
pub open spec fn counts_as(c: Contribution, band: Band) -> bool {
    !c.dimension.advisory() && c.band == band
}

pub proof fn lemma_tally_of_one(s: Seq<Contribution>, p: spec_fn(Contribution) -> bool)
    requires
        tally(s, p) > 0,
    ensures
        exists|i: int| 0 <= i < s.len() && p(#[trigger] s[i]),
    decreases s.len(),
{
    let front = s.drop_last();
    if p(s.last()) {
        assert(p(s[s.len() - 1]));
    } else {
        lemma_tally_of_one(front, p);
        let i = choose|i: int| 0 <= i < front.len() && p(#[trigger] front[i]);
        assert(p(s[i]));
    }
}

proof fn lemma_tally_of_two(s: Seq<Contribution>, p: spec_fn(Contribution) -> bool)
    requires
        tally(s, p) > 1,
    ensures
        exists|i: int, j: int| 0 <= i < j < s.len() && p(#[trigger] s[i]) && p(#[trigger] s[j]),
    decreases s.len(),
{
    let front = s.drop_last();
    if p(s.last()) {
        lemma_tally_of_one(front, p);
        let i = choose|i: int| 0 <= i < front.len() && p(#[trigger] front[i]);
        assert(p(s[i]) && p(s[s.len() - 1]));
    } else {
        lemma_tally_of_two(front, p);
        let (i, j) = choose|i: int, j: int|
            0 <= i < j < front.len() && p(#[trigger] front[i]) && p(#[trigger] front[j]);
        assert(p(s[i]) && p(s[j]));
    }
}

proof fn lemma_two_tally(
    s: Seq<Contribution>,
    p: spec_fn(Contribution) -> bool,
    i: int,
    j: int,
)
    requires
        0 <= i < j < s.len(),
        p(s[i]),
        p(s[j]),
    ensures
        tally(s, p) > 1,
    decreases s.len(),
{
    if j < s.len() - 1 {
        lemma_two_tally(s.drop_last(), p, i, j);
    } else {
        lemma_tally_positive(s.drop_last(), p, i);
    }
}

/// What raises the level. A red that lasts makes a machine wail; two of them, or
/// one as bad as a catastrophe, make it shriek. A red that is fresh, or two
/// yellows, make it restless. One yellow makes it stir.
pub proof fn law_what_raises_the_level(
    s: Seq<Contribution>,
    grace_secs: u64,
    catastrophic: Real,
    i: int,
    j: int,
)
    requires
        0 <= i < s.len(),
        0 <= j < s.len(),
    ensures
        ({
            let level = verdict_of(s, grace_secs, catastrophic, true).level;
            &&& lasts(s[i], grace_secs) ==> level == Level::Wailing || level == Level::Shrieking
            &&& i != j && lasts(s[i], grace_secs) && lasts(s[j], grace_secs) ==> level
                == Level::Shrieking
            &&& lasts(s[i], grace_secs) && catastrophic.at_most(s[i].severity) ==> level
                == Level::Shrieking
            &&& counts_as(s[i], Band::Red) ==> level.height() >= Level::Restless.height()
            &&& i != j && counts_as(s[i], Band::Yellow) && counts_as(s[j], Band::Yellow)
                ==> level.height() >= Level::Restless.height()
            &&& counts_as(s[i], Band::Yellow) ==> level.height() >= Level::Stirring.height()
            &&& counts_as(s[i], Band::Green) ==> level.height() >= Level::Quiet.height()
        }),
{
    let (a, b) = if i < j {
        (i, j)
    } else {
        (j, i)
    };
    if s[i].scores() {
        lemma_tally_positive(s, is_scoring(), i);
    }
    if lasts(s[i], grace_secs) {
        lemma_tally_positive(s, is_lasting_red(grace_secs), i);
        lemma_worst_severity(s, grace_secs);
        lemma_worst_severity_reached(s, grace_secs);
        assert(is_lasting_red(grace_secs)(s[i]));
        if i != j && lasts(s[j], grace_secs) {
            lemma_two_tally(s, is_lasting_red(grace_secs), a, b);
        }
    }
    if counts_as(s[i], Band::Red) {
        lemma_tally_positive(s, is_red(), i);
    }
    if counts_as(s[i], Band::Yellow) {
        lemma_tally_positive(s, is_yellow(), i);
        if i != j && counts_as(s[j], Band::Yellow) {
            lemma_two_tally(s, is_yellow(), a, b);
        }
    }
}

/// Nothing else raises the level. A machine that wails has a red that lasts or a
/// kill; one that shrieks has a kill, two reds that last, or one as bad as a
/// catastrophe; one that is restless has a red or two yellows; one that stirs has a
/// yellow. Whatever was weighed, it is not `Checking`.
pub proof fn law_the_level_has_its_reason(
    s: Seq<Contribution>,
    grace_secs: u64,
    catastrophic: Real,
)
    requires
        exists|i: int| 0 <= i < s.len() && !(#[trigger] s[i]).dimension.advisory(),
    ensures
        ({
            let level = verdict_of(s, grace_secs, catastrophic, true).level;
            let kill = exists|i: int|
                0 <= i < s.len() && counts_as(#[trigger] s[i], Band::Red) && s[i].dimension
                    == Dimension::Jetsam;
            let lasting = exists|i: int| 0 <= i < s.len() && lasts(#[trigger] s[i], grace_secs);
            let two_lasting = exists|i: int, j: int|
                0 <= i < j < s.len() && lasts(#[trigger] s[i], grace_secs) && lasts(
                    #[trigger] s[j],
                    grace_secs,
                );
            let worst = exists|i: int|
                0 <= i < s.len() && lasts(#[trigger] s[i], grace_secs) && catastrophic.at_most(
                    s[i].severity,
                );
            let red = exists|i: int| 0 <= i < s.len() && counts_as(#[trigger] s[i], Band::Red);
            let yellow = exists|i: int|
                0 <= i < s.len() && counts_as(#[trigger] s[i], Band::Yellow);
            let two_yellow = exists|i: int, j: int|
                0 <= i < j < s.len() && counts_as(#[trigger] s[i], Band::Yellow) && counts_as(
                    #[trigger] s[j],
                    Band::Yellow,
                );
            &&& level != Level::Checking
            &&& level.height() >= Level::Wailing.height() ==> kill || lasting
            &&& level == Level::Shrieking ==> kill || two_lasting || worst
                || catastrophic.at_most(bottom())
            &&& level.height() >= Level::Restless.height() ==> red || two_yellow
            &&& level.height() >= Level::Stirring.height() ==> red || yellow
        }),
{
    let k = choose|k: int| 0 <= k < s.len() && !(#[trigger] s[k]).dimension.advisory();
    lemma_tally_positive(s, is_scoring(), k);
    let lasting = is_lasting_red(grace_secs);
    if tally(s, is_kill()) > 0 {
        lemma_tally_of_one(s, is_kill());
        let i = choose|i: int| 0 <= i < s.len() && is_kill()(#[trigger] s[i]);
        assert(counts_as(s[i], Band::Red));
    }
    if tally(s, lasting) > 0 {
        lemma_tally_of_one(s, lasting);
        let i = choose|i: int| 0 <= i < s.len() && lasting(#[trigger] s[i]);
        assert(lasts(s[i], grace_secs));
        assert(counts_as(s[i], Band::Red));
    }
    if tally(s, lasting) > 1 {
        lemma_tally_of_two(s, lasting);
        let (i, j) = choose|i: int, j: int|
            0 <= i < j < s.len() && lasting(#[trigger] s[i]) && lasting(#[trigger] s[j]);
        assert(lasts(s[i], grace_secs) && lasts(s[j], grace_secs));
    }
    if tally(s, lasting) == 1 && catastrophic.at_most(worst_severity(s, grace_secs)) {
        lemma_worst_severity_reached(s, grace_secs);
        if worst_severity(s, grace_secs) != bottom() {
            let i = choose|i: int|
                0 <= i < s.len() && is_lasting_red(grace_secs)(#[trigger] s[i]) && s[i].severity
                    == worst_severity(s, grace_secs);
            assert(lasts(s[i], grace_secs));
        }
    }
    if tally(s, is_red()) > 0 {
        lemma_tally_of_one(s, is_red());
        let i = choose|i: int| 0 <= i < s.len() && is_red()(#[trigger] s[i]);
        assert(counts_as(s[i], Band::Red));
    }
    if tally(s, is_yellow()) > 0 {
        lemma_tally_of_one(s, is_yellow());
        let i = choose|i: int| 0 <= i < s.len() && is_yellow()(#[trigger] s[i]);
        assert(counts_as(s[i], Band::Yellow));
    }
    if tally(s, is_yellow()) > 1 {
        lemma_tally_of_two(s, is_yellow());
        let (i, j) = choose|i: int, j: int|
            0 <= i < j < s.len() && is_yellow()(#[trigger] s[i]) && is_yellow()(#[trigger] s[j]);
        assert(counts_as(s[i], Band::Yellow) && counts_as(s[j], Band::Yellow));
    }
}

/// Whether none of the contributions that take part is worse than `w`: by its band
/// first, then by how far past its line it is, then by the declared order.
pub open spec fn none_is_worse(s: Seq<Contribution>, w: Contribution) -> bool {
    forall|j: int|
        0 <= j < s.len() && !(#[trigger] s[j]).dimension.advisory() ==> {
            ||| w.band.height() > s[j].band.height()
            ||| w.band == s[j].band && s[j].severity.below(w.severity)
            ||| w.band == s[j].band && s[j].severity.same(w.severity) && w.dimension.place()
                <= s[j].dimension.place()
        }
}

proof fn lemma_none_is_worse(s: Seq<Contribution>)
    requires
        comparable(s),
        worst_of(s) is Some,
    ensures
        none_is_worse(s, worst_of(s)->0),
{
    law_the_worst_outranks_the_rest(s);
    let w = worst_of(s)->0;
    let i = choose|i: int| 0 <= i < s.len() && s[i] == w;
    assert(!s[i].severity.nan());
    assert forall|j: int| 0 <= j < s.len() && !(#[trigger] s[j]).dimension.advisory() implies {
        ||| w.band.height() > s[j].band.height()
        ||| w.band == s[j].band && s[j].severity.below(w.severity)
        ||| w.band == s[j].band && s[j].severity.same(w.severity) && w.dimension.place()
            <= s[j].dimension.place()
    } by {
        assert(!s[j].severity.nan());
        if s[j].band != Band::Green {
            assert(s[j].scores());
            assert(s[j] == w || w.outranks(s[j]));
        }
    }
}

/// Who is blamed: from `Restless` upward the source of a dimension that takes part
/// and is out of band, and that no other that takes part is worse than.
pub proof fn law_the_blamed_is_the_worst(
    s: Seq<Contribution>,
    grace_secs: u64,
    catastrophic: Real,
)
    requires
        comparable(s),
        verdict_of(s, grace_secs, catastrophic, true).level.height() >= Level::Restless.height(),
    ensures
        exists|w: Contribution| #[trigger]
            none_is_worse(s, w) && s.contains(w) && !w.dimension.advisory() && w.band
                != Band::Green && verdict_of(s, grace_secs, catastrophic, true).source == Some(
                w.dimension.blames(),
            ),
{
    law_a_source_is_named_when_worth_naming(s, grace_secs, catastrophic, true);
    law_the_worst_outranks_the_rest(s);
    lemma_none_is_worse(s);
    assert(none_is_worse(s, worst_of(s)->0));
}

/// From restless upward a face shows who is blamed beside the level, and says so;
/// below it shows and says the level alone.
pub proof fn law_a_face_shows_who_is_blamed(v: Verdict, s: Source)
    requires
        v.source == Some(s),
    ensures
        ({
            let shows = v.level == Level::Restless || v.level == Level::Wailing || v.level
                == Level::Shrieking;
            &&& v.shown_source() == if shows {
                Some(s)
            } else {
                None
            }
            &&& v.glyph_text() == if shows {
                v.level.glyph_text() + s.glyph_text()
            } else {
                v.level.glyph_text()
            }
            &&& v.spoken_text() == if shows {
                "Banshee: "@ + v.level.name_text() + ", "@ + s.label_text()
            } else {
                "Banshee: "@ + v.level.name_text()
            }
        }),
        (Verdict { source: None, ..v }).glyph_text() == v.level.glyph_text(),
        (Verdict { source: None, ..v }).spoken_text() == "Banshee: "@ + v.level.name_text(),
{
}

} // verus!
