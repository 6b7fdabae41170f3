//! A census reduced to who was running, and two of them side by side.
use vstd::prelude::*;

use super::lineup::lemma_summary_in_any_order;
use super::who::{
    accounts_for, ascending, grouped, has_group, law_groups_account_for_every_session,
    resident_of, sessions_by_program, sessions_of, GroupView,
};
use crate::census::{AgentSession, AppGroup, Census};
use crate::number::Real;
use crate::sorting::{
    in_order, law_sorting, lemma_sorted_map, lemma_sorted_members, order, sort, sorted_by,
    weak_order, Ranked,
};
use crate::sys::capped;
use crate::text::{
    decimal, is_before, lemma_sorts_before_irreflexive, lemma_sorts_before_total,
    lemma_sorts_before_transitive, push_decimal, same_text, sorts_before, views,
};
use crate::time::Timestamp;

verus! {

broadcast use crate::text::lemma_views_push;

/// Which kind of thing a summarised consumer is.
#[derive(Clone, Copy, Debug, PartialEq, Eq, PartialOrd, Ord, Structural)]
pub enum ConsumerKind {
    /// A configured group of processes.
    AppGroup,
    /// Interactive agent sessions of one program.
    Sessions,
    /// One of the totals the census keeps.
    Rollup,
}

/// One named consumer and its size at one instant.
#[derive(Clone, Debug, PartialEq, Eq)]
pub struct ConsumerSize {
    pub name: String,
    pub kind: ConsumerKind,
    pub count: u32,
    pub rss_bytes: u64,
}

#[verifier::ext_equal]
pub struct SizeView {
    pub name: Seq<char>,
    pub kind: ConsumerKind,
    pub count: u32,
    pub rss_bytes: u64,
}

impl View for ConsumerSize {
    type V = SizeView;

    open spec fn view(&self) -> SizeView {
        SizeView {
            name: self.name@,
            kind: self.kind,
            count: self.count,
            rss_bytes: self.rss_bytes,
        }
    }
}

impl Ranked for ConsumerSize {
    /// Biggest first, ties by name.
    open spec fn goes_first(a: SizeView, b: SizeView) -> bool {
        a.rss_bytes > b.rss_bytes || (a.rss_bytes == b.rss_bytes && sorts_before(a.name, b.name))
    }

    fn is_first(&self, other: &ConsumerSize) -> (r: bool) {
        self.rss_bytes > other.rss_bytes || (self.rss_bytes == other.rss_bytes && is_before(
            self.name.as_str(),
            other.name.as_str(),
        ))
    }
}

/// A census reduced to what is compared: every sized consumer, biggest first,
/// and two numbers more.
#[derive(Clone, Debug, PartialEq, Eq)]
pub struct CensusSummary {
    pub taken_at: Timestamp,
    pub total_procs: u32,
    pub consumers: Vec<ConsumerSize>,
    pub orphan_count: u32,
    pub monitor_percent_of_one_core: Real,
}

#[verifier::ext_equal]
pub struct SummaryView {
    pub taken_at: Timestamp,
    pub total_procs: u32,
    pub consumers: Seq<SizeView>,
    pub orphan_count: u32,
    pub monitor_percent_of_one_core: Real,
}

impl View for CensusSummary {
    type V = SummaryView;

    open spec fn view(&self) -> SummaryView {
        SummaryView {
            taken_at: self.taken_at,
            total_procs: self.total_procs,
            consumers: views(self.consumers@),
            orphan_count: self.orphan_count,
            monitor_percent_of_one_core: self.monitor_percent_of_one_core,
        }
    }
}

impl SummaryView {
    /// Equal as values: a rate that is not a number equals nothing.
    pub open spec fn same(self, other: SummaryView) -> bool {
        &&& self.taken_at == other.taken_at
        &&& self.total_procs == other.total_procs
        &&& self.consumers == other.consumers
        &&& self.orphan_count == other.orphan_count
        &&& self.monitor_percent_of_one_core.same(other.monitor_percent_of_one_core)
    }
}

impl ConsumerSize {
    fn copied(&self) -> (r: ConsumerSize)
        ensures
            r@ == self@,
    {
        ConsumerSize {
            name: self.name.clone(),
            kind: self.kind,
            count: self.count,
            rss_bytes: self.rss_bytes,
        }
    }
}

impl CensusSummary {
    /// An equal summary.
    pub fn copied(&self) -> (r: CensusSummary)
        ensures
            r@ == self@,
    {
        let mut consumers: Vec<ConsumerSize> = Vec::new();
        let mut i: usize = 0;
        while i < self.consumers.len()
            invariant
                i <= self.consumers.len(),
                views(consumers@) == views(self.consumers@).take(i as int),
            decreases self.consumers.len() - i,
        {
            consumers.push(self.consumers[i].copied());
            i = i + 1;
            assert(views(consumers@) =~= views(self.consumers@).take(i as int));
        }
        assert(views(consumers@) =~= views(self.consumers@));
        CensusSummary {
            taken_at: self.taken_at,
            total_procs: self.total_procs,
            consumers,
            orphan_count: self.orphan_count,
            monitor_percent_of_one_core: self.monitor_percent_of_one_core,
        }
    }

    /// Whether two summaries are equal as values.
    pub fn is_same(&self, other: &CensusSummary) -> (r: bool)
        ensures
            r == self@.same(other@),
    {
        let n: usize = self.consumers.len();
        if self.taken_at != other.taken_at || self.total_procs != other.total_procs
            || self.orphan_count != other.orphan_count
            || !self.monitor_percent_of_one_core.is_same(other.monitor_percent_of_one_core) || n
            != other.consumers.len() {
            assert(views(self.consumers@).len() == n);
            return false;
        }
        let ghost mine = views(self.consumers@);
        let ghost theirs = views(other.consumers@);
        let mut i: usize = 0;
        while i < n
            invariant
                i <= n,
                n == self.consumers.len(),
                n == other.consumers.len(),
                mine == views(self.consumers@),
                theirs == views(other.consumers@),
                forall|j: int| 0 <= j < i ==> #[trigger] mine[j] == theirs[j],
            decreases n - i,
        {
            let a = &self.consumers[i];
            let b = &other.consumers[i];
            assert(mine[i as int] == a@ && theirs[i as int] == b@);
            if a.kind != b.kind || a.count != b.count || a.rss_bytes != b.rss_bytes || !same_text(
                a.name.as_str(),
                b.name.as_str(),
            ) {
                return false;
            }
            i = i + 1;
        }
        assert(mine =~= theirs);
        true
    }
}

/// `s` with `x` added, if it has any size.
pub open spec fn with_size(s: Seq<SizeView>, x: SizeView) -> Seq<SizeView> {
    if x.count > 0 && x.rss_bytes > 0 {
        s.push(x)
    } else {
        s
    }
}

pub open spec fn app_sizes(c: Seq<crate::census::AppGroup>) -> Seq<SizeView>
    decreases c.len(),
{
    if c.len() == 0 {
        Seq::empty()
    } else {
        with_size(
            app_sizes(c.drop_last()),
            SizeView {
                name: c.last().name@,
                kind: ConsumerKind::AppGroup,
                count: c.last().proc_count,
                rss_bytes: c.last().rss_bytes,
            },
        )
    }
}

pub open spec fn session_sizes(base: Seq<SizeView>, g: Seq<GroupView>) -> Seq<SizeView>
    decreases g.len(),
{
    if g.len() == 0 {
        base
    } else {
        with_size(
            session_sizes(base, g.drop_last()),
            SizeView {
                name: g.last().program,
                kind: ConsumerKind::Sessions,
                count: g.last().count,
                rss_bytes: g.last().rss_bytes,
            },
        )
    }
}

pub open spec fn total_size(name: Seq<char>, count: u32, rss_bytes: u64) -> SizeView {
    SizeView { name, kind: ConsumerKind::Rollup, count, rss_bytes }
}

/// Everything in a census that has a size, under the names a finding uses.
pub open spec fn sizes_in(c: Census) -> Seq<SizeView> {
    let sessions = session_sizes(app_sizes(c.app_groups@), grouped(c.agent_sessions@, false));
    let helpers = with_size(
        sessions,
        total_size("IDE agent helpers"@, c.ide_helpers.count, c.ide_helpers.rss_bytes),
    );
    let orphans = with_size(
        helpers,
        total_size("orphaned helpers"@, c.orphans.orphan_count, c.orphans.orphan_rss_bytes),
    );
    with_size(
        orphans,
        total_size("managed agents"@, c.monitor_total.proc_count, c.monitor_total.rss_bytes),
    )
}

/// A census, summarised.
pub open spec fn summary_of(c: Census) -> SummaryView {
    SummaryView {
        taken_at: c.taken_at,
        total_procs: c.total_procs,
        consumers: sorted_by(sizes_in(c), order::<ConsumerSize>()),
        orphan_count: c.orphans.orphan_count,
        monitor_percent_of_one_core: c.monitor_total.percent_of_one_core,
    }
}

fn add_size(out: &mut Vec<ConsumerSize>, name: &str, kind: ConsumerKind, count: u32, rss_bytes: u64)
    ensures
        views(final(out)@) == with_size(
            views(old(out)@),
            (SizeView { name: name@, kind, count, rss_bytes }),
        ),
{
    if count > 0 && rss_bytes > 0 {
        out.push(ConsumerSize { name: name.to_owned(), kind, count, rss_bytes });
    }
}

/// Reduce a census to its summary. The grouping is the one the who-line uses, so
/// that a name means the same thing in both.
pub fn summarise(census: &Census) -> (r: CensusSummary)
    ensures
        r@ == summary_of(*census),
{
    let mut out: Vec<ConsumerSize> = Vec::new();
    let apps = &census.app_groups;
    let mut i: usize = 0;
    assert(views(out@) =~= Seq::empty());
    while i < apps.len()
        invariant
            i <= apps.len(),
            views(out@) == app_sizes(apps@.take(i as int)),
        decreases apps.len() - i,
    {
        assert(apps@.take(i + 1).drop_last() =~= apps@.take(i as int));
        let a = &apps[i];
        add_size(&mut out, a.name.as_str(), ConsumerKind::AppGroup, a.proc_count, a.rss_bytes);
        i = i + 1;
    }
    assert(apps@.take(i as int) =~= apps@);
    let groups = sessions_by_program(census, false);
    let ghost base = views(out@);
    let ghost all = views(groups@);
    let mut k: usize = 0;
    while k < groups.len()
        invariant
            k <= groups.len(),
            all == views(groups@),
            views(out@) == session_sizes(base, all.take(k as int)),
        decreases groups.len() - k,
    {
        assert(all.take(k + 1).drop_last() =~= all.take(k as int));
        let g = &groups[k];
        add_size(&mut out, g.program.as_str(), ConsumerKind::Sessions, g.count, g.rss_bytes);
        k = k + 1;
    }
    assert(all.take(k as int) =~= all);
    add_size(
        &mut out,
        "IDE agent helpers",
        ConsumerKind::Rollup,
        census.ide_helpers.count,
        census.ide_helpers.rss_bytes,
    );
    add_size(
        &mut out,
        "orphaned helpers",
        ConsumerKind::Rollup,
        census.orphans.orphan_count,
        census.orphans.orphan_rss_bytes,
    );
    add_size(
        &mut out,
        "managed agents",
        ConsumerKind::Rollup,
        census.monitor_total.proc_count,
        census.monitor_total.rss_bytes,
    );
    CensusSummary {
        taken_at: census.taken_at,
        total_procs: census.total_procs,
        consumers: sort(out),
        orphan_count: census.orphans.orphan_count,
        monitor_percent_of_one_core: census.monitor_total.percent_of_one_core,
    }
}

impl ConsumerKind {
    pub open spec fn place(self) -> nat {
        match self {
            ConsumerKind::AppGroup => 0,
            ConsumerKind::Sessions => 1,
            ConsumerKind::Rollup => 2,
        }
    }

    fn rank(self) -> (r: u8)
        ensures
            r == self.place(),
    {
        match self {
            ConsumerKind::AppGroup => 0,
            ConsumerKind::Sessions => 1,
            ConsumerKind::Rollup => 2,
        }
    }
}

/// A consumer at both ends. Absent is zero.
#[derive(Clone, Debug, PartialEq, Eq)]
pub struct ConsumerRow {
    pub kind: ConsumerKind,
    pub name: String,
    pub then_count: u32,
    pub then_bytes: u64,
    pub now_count: u32,
    pub now_bytes: u64,
}

#[verifier::ext_equal]
pub struct RowView {
    pub kind: ConsumerKind,
    pub name: Seq<char>,
    pub then_count: u32,
    pub then_bytes: u64,
    pub now_count: u32,
    pub now_bytes: u64,
}

impl View for ConsumerRow {
    type V = RowView;

    open spec fn view(&self) -> RowView {
        RowView {
            kind: self.kind,
            name: self.name@,
            then_count: self.then_count,
            then_bytes: self.then_bytes,
            now_count: self.now_count,
            now_bytes: self.now_bytes,
        }
    }
}

/// `n`, kept away from the ends of 64 signed bits.
pub open spec fn bounded(n: int) -> i64 {
    if n > i64::MAX {
        i64::MAX
    } else if n <= i64::MIN {
        -i64::MAX as i64
    } else {
        n as i64
    }
}

fn signed_move(then_b: u64, now_b: u64) -> (r: i64)
    ensures
        r == moved_by(then_b, now_b),
        r > i64::MIN,
{
    let d: i128 = now_b as i128 - then_b as i128;
    if d > i64::MAX as i128 {
        i64::MAX
    } else if d <= i64::MIN as i128 {
        -i64::MAX
    } else {
        d as i64
    }
}

impl RowView {
    /// How far the consumer moved.
    pub open spec fn delta(self) -> i64 {
        moved_by(self.then_bytes, self.now_bytes)
    }

    /// The same without the sign.
    pub open spec fn moved(self) -> int {
        if self.delta() < 0 {
            -self.delta()
        } else {
            self.delta() as int
        }
    }
}

impl ConsumerRow {
    /// `now_bytes − then_bytes`.
    pub fn delta_bytes(&self) -> (r: i64)
        ensures
            r == self@.delta(),
            r > i64::MIN,
    {
        signed_move(self.then_bytes, self.now_bytes)
    }

    fn size_of_move(&self) -> (r: u64)
        ensures
            r == self@.moved(),
    {
        let d: i64 = self.delta_bytes();
        if d < 0 {
            (-d) as u64
        } else {
            d as u64
        }
    }
}

impl Ranked for ConsumerRow {
    /// Largest change first, then by name: the biggest thing running is rarely
    /// the thing that moved.
    open spec fn goes_first(a: RowView, b: RowView) -> bool {
        a.moved() > b.moved() || (a.moved() == b.moved() && sorts_before(a.name, b.name))
    }

    fn is_first(&self, other: &ConsumerRow) -> (r: bool) {
        self.size_of_move() > other.size_of_move() || (self.size_of_move() == other.size_of_move()
            && is_before(self.name.as_str(), other.name.as_str()))
    }
}

/// Whether a row stands before a consumer: by kind, then by name.
pub open spec fn row_before(r: RowView, c: SizeView) -> bool {
    r.kind.place() < c.kind.place() || (r.kind == c.kind && sorts_before(r.name, c.name))
}

pub open spec fn row_is(r: RowView, c: SizeView) -> bool {
    r.kind == c.kind && r.name == c.name
}

/// A row with a consumer's size at one end.
pub open spec fn filled(r: RowView, c: SizeView, newer: bool) -> RowView {
    if newer {
        RowView { now_count: c.count, now_bytes: c.rss_bytes, ..r }
    } else {
        RowView { then_count: c.count, then_bytes: c.rss_bytes, ..r }
    }
}

pub open spec fn blank(c: SizeView) -> RowView {
    RowView {
        kind: c.kind,
        name: c.name,
        then_count: 0,
        then_bytes: 0,
        now_count: 0,
        now_bytes: 0,
    }
}

/// The rows with a consumer entered: in its own row, or in a new one at its
/// place.
pub open spec fn entered(rows: Seq<RowView>, c: SizeView, newer: bool) -> Seq<RowView>
    decreases rows.len(),
{
    if rows.len() == 0 || row_before(rows.last(), c) {
        rows.push(filled(blank(c), c, newer))
    } else if row_is(rows.last(), c) {
        rows.drop_last().push(filled(rows.last(), c, newer))
    } else {
        entered(rows.drop_last(), c, newer).push(rows.last())
    }
}

pub open spec fn all_entered(base: Seq<RowView>, s: Seq<SizeView>, newer: bool) -> Seq<RowView>
    decreases s.len(),
{
    if s.len() == 0 {
        base
    } else {
        entered(all_entered(base, s.drop_last(), newer), s.last(), newer)
    }
}

/// Two summaries side by side, one row per consumer in either.
pub open spec fn side_by_side(then: Seq<SizeView>, now: Seq<SizeView>) -> Seq<RowView> {
    all_entered(all_entered(Seq::empty(), then, false), now, true)
}

/// The same, largest change first.
pub open spec fn ranked_rows(then: SummaryView, now: SummaryView) -> Seq<RowView> {
    sorted_by(side_by_side(then.consumers, now.consumers), order::<ConsumerRow>())
}

proof fn lemma_entered_new(rows: Seq<RowView>, c: SizeView, newer: bool, at: int)
    requires
        0 <= at <= rows.len(),
        at > 0 ==> row_before(rows[at - 1], c),
        forall|j: int|
            at <= j < rows.len() ==> !row_is(#[trigger] rows[j], c) && !row_before(rows[j], c),
    ensures
        entered(rows, c, newer) == rows.insert(at, filled(blank(c), c, newer)),
    decreases rows.len(),
{
    let x = filled(blank(c), c, newer);
    if rows.len() == at {
        assert(rows.push(x) =~= rows.insert(at, x));
    } else {
        lemma_entered_new(rows.drop_last(), c, newer, at);
        assert(rows.drop_last().insert(at, x).push(rows.last()) =~= rows.insert(at, x));
    }
}

proof fn lemma_entered_known(rows: Seq<RowView>, c: SizeView, newer: bool, at: int)
    requires
        0 <= at < rows.len(),
        row_is(rows[at], c),
        !row_before(rows[at], c),
        forall|j: int|
            at < j < rows.len() ==> !row_is(#[trigger] rows[j], c) && !row_before(rows[j], c),
    ensures
        entered(rows, c, newer) == rows.update(at, filled(rows[at], c, newer)),
    decreases rows.len(),
{
    let x = filled(rows[at], c, newer);
    if rows.len() == at + 1 {
        assert(rows.drop_last().push(x) =~= rows.update(at, x));
    } else {
        lemma_entered_known(rows.drop_last(), c, newer, at);
        assert(rows.drop_last().update(at, x).push(rows.last()) =~= rows.update(at, x));
    }
}

fn stands_before(r: &ConsumerRow, c: &ConsumerSize) -> (b: bool)
    ensures
        b == row_before(r@, c@),
{
    r.kind.rank() < c.kind.rank() || (r.kind == c.kind && is_before(
        r.name.as_str(),
        c.name.as_str(),
    ))
}

fn is_row_of(r: &ConsumerRow, c: &ConsumerSize) -> (b: bool)
    ensures
        b == row_is(r@, c@),
{
    r.kind == c.kind && same_text(r.name.as_str(), c.name.as_str())
}

fn enter(rows: &mut Vec<ConsumerRow>, c: &ConsumerSize, newer: bool)
    ensures
        views(final(rows)@) == entered(views(old(rows)@), c@, newer),
{
    let ghost before = rows@;
    let ghost all = views(before);
    let mut at: usize = rows.len();
    while at > 0 && !stands_before(&rows[at - 1], c) && !is_row_of(&rows[at - 1], c)
        invariant
            at <= rows.len(),
            rows@ == before,
            all == views(before),
            forall|j: int|
                at <= j < all.len() ==> !row_is(#[trigger] all[j], c@) && !row_before(all[j], c@),
        decreases at,
    {
        assert(all[at - 1] == before[at - 1]@);
        at = at - 1;
    }
    if at > 0 {
        assert(all[at - 1] == before[at - 1]@);
    }
    if at > 0 && is_row_of(&rows[at - 1], c) {
        let k: usize = at - 1;
        proof {
            crate::text::lemma_sorts_before_irreflexive(c@.name);
            lemma_entered_known(all, c@, newer, k as int);
        }
        let r = &rows[k];
        let next = ConsumerRow {
            kind: r.kind,
            name: r.name.clone(),
            then_count: if newer {
                r.then_count
            } else {
                c.count
            },
            then_bytes: if newer {
                r.then_bytes
            } else {
                c.rss_bytes
            },
            now_count: if newer {
                c.count
            } else {
                r.now_count
            },
            now_bytes: if newer {
                c.rss_bytes
            } else {
                r.now_bytes
            },
        };
        assert(next@ =~= filled(all[k as int], c@, newer));
        rows.set(k, next);
        assert(views(rows@) =~= all.update(k as int, next@));
    } else {
        proof {
            lemma_entered_new(all, c@, newer, at as int);
        }
        let next = ConsumerRow {
            kind: c.kind,
            name: c.name.clone(),
            then_count: if newer {
                0
            } else {
                c.count
            },
            then_bytes: if newer {
                0
            } else {
                c.rss_bytes
            },
            now_count: if newer {
                c.count
            } else {
                0
            },
            now_bytes: if newer {
                c.rss_bytes
            } else {
                0
            },
        };
        assert(next@ =~= filled(blank(c@), c@, newer));
        rows.insert(at, next);
        assert(views(rows@) =~= all.insert(at as int, next@));
    }
}

/// Join two summaries by kind and name, largest change first.
pub fn consumer_rows(then: &CensusSummary, now: &CensusSummary) -> (r: Vec<ConsumerRow>)
    ensures
        views(r@) == ranked_rows(then@, now@),
{
    let ghost old_ones = views(then.consumers@);
    let ghost new_ones = views(now.consumers@);
    let mut rows: Vec<ConsumerRow> = Vec::new();
    let mut i: usize = 0;
    assert(views(rows@) =~= Seq::empty());
    assert(old_ones.take(0) =~= Seq::empty());
    while i < then.consumers.len()
        invariant
            i <= then.consumers.len(),
            old_ones == views(then.consumers@),
            views(rows@) == all_entered(Seq::empty(), old_ones.take(i as int), false),
        decreases then.consumers.len() - i,
    {
        assert(old_ones.take(i + 1).drop_last() =~= old_ones.take(i as int));
        assert(old_ones.take(i + 1).last() == then.consumers[i as int]@);
        enter(&mut rows, &then.consumers[i], false);
        i = i + 1;
    }
    assert(old_ones.take(i as int) =~= old_ones);
    let ghost base = views(rows@);
    let mut k: usize = 0;
    assert(new_ones.take(0) =~= Seq::empty());
    while k < now.consumers.len()
        invariant
            k <= now.consumers.len(),
            new_ones == views(now.consumers@),
            views(rows@) == all_entered(base, new_ones.take(k as int), true),
        decreases now.consumers.len() - k,
    {
        assert(new_ones.take(k + 1).drop_last() =~= new_ones.take(k as int));
        assert(new_ones.take(k + 1).last() == now.consumers[k as int]@);
        enter(&mut rows, &now.consumers[k], true);
        k = k + 1;
    }
    assert(new_ones.take(k as int) =~= new_ones);
    sort(rows)
}

/// One consumer at both ends, in words.
#[derive(Clone, Debug, PartialEq, Eq)]
pub struct ConsumerDelta {
    pub name: String,
    pub kind: ConsumerKind,
    pub then_count: u32,
    pub now_count: u32,
    pub then_bytes: u64,
    pub now_bytes: u64,
    pub delta_bytes: i64,
    /// `freed 4.0 GB from Chrome (×128 → ×34)`
    pub detail: String,
}

#[verifier::ext_equal]
pub struct ConsumerDeltaView {
    pub name: Seq<char>,
    pub kind: ConsumerKind,
    pub then_count: u32,
    pub now_count: u32,
    pub then_bytes: u64,
    pub now_bytes: u64,
    pub delta_bytes: i64,
    pub detail: Seq<char>,
}

impl View for ConsumerDelta {
    type V = ConsumerDeltaView;

    open spec fn view(&self) -> ConsumerDeltaView {
        ConsumerDeltaView {
            name: self.name@,
            kind: self.kind,
            then_count: self.then_count,
            now_count: self.now_count,
            then_bytes: self.then_bytes,
            now_bytes: self.now_bytes,
            delta_bytes: self.delta_bytes,
            detail: self.detail@,
        }
    }
}

/// How far a size moved: the difference, as far as 64 signed bits hold it.
pub open spec fn moved_by(then_b: u64, now_b: u64) -> i64 {
    bounded(now_b - then_b)
}

/// What a consumer did, in words around the size of its move, or around its size
/// where it did not move. What fell leads with the fall, what grew with the name.
pub open spec fn consumer_text(
    name: Seq<char>,
    then_count: u32,
    now_count: u32,
    then_b: u64,
    now_b: u64,
    size: Seq<char>,
) -> Seq<char> {
    let counts = if then_count != now_count {
        " (×"@ + decimal(then_count as nat) + " → ×"@ + decimal(now_count as nat) + ")"@
    } else {
        Seq::empty()
    };
    if moved_by(then_b, now_b) < 0 {
        "freed "@ + size + " from "@ + name + counts
    } else if moved_by(then_b, now_b) > 0 {
        name + " grew "@ + size + counts
    } else {
        name + " unchanged at "@ + size + counts
    }
}

/// `freed 4.0 GB from Chrome (×128 → ×34)`, `Xcode grew 0.6 GB (×8 → ×10)`,
/// `Slack unchanged at 2.1 GB`. `size` is the size of the move in digits, or of
/// the consumer where it did not move.
pub fn consumer_words(
    name: &str,
    then_count: u32,
    now_count: u32,
    then_b: u64,
    now_b: u64,
    size: &str,
) -> (text: String)
    ensures
        text@ == consumer_text(name@, then_count, now_count, then_b, now_b, size@),
{
    let mut counts = String::new();
    if then_count != now_count {
        counts = " (×".to_owned();
        push_decimal(&mut counts, then_count as u64);
        counts.append(" → ×");
        push_decimal(&mut counts, now_count as u64);
        counts.append(")");
    }
    let delta: i64 = signed_move(then_b, now_b);
    let mut out;
    if delta < 0 {
        out = "freed ".to_owned();
        out.append(size);
        out.append(" from ");
        out.append(name);
    } else if delta > 0 {
        out = name.to_owned();
        out.append(" grew ");
        out.append(size);
    } else {
        out = name.to_owned();
        out.append(" unchanged at ");
        out.append(size);
    }
    out.append(counts.as_str());
    out
}

/// The `i`th text, or none.
pub open spec fn size_at(sizes: Seq<String>, i: int) -> Seq<char> {
    if 0 <= i < sizes.len() {
        sizes[i]@
    } else {
        Seq::empty()
    }
}

pub open spec fn consumer_delta(r: RowView, size: Seq<char>) -> ConsumerDeltaView {
    ConsumerDeltaView {
        name: r.name,
        kind: r.kind,
        then_count: r.then_count,
        now_count: r.now_count,
        then_bytes: r.then_bytes,
        now_bytes: r.now_bytes,
        delta_bytes: r.delta(),
        detail: consumer_text(
            r.name,
            r.then_count,
            r.now_count,
            r.then_bytes,
            r.now_bytes,
            size,
        ),
    }
}

/// The rows in words.
pub open spec fn deltas_of_rows(rows: Seq<RowView>, sizes: Seq<String>) -> Seq<ConsumerDeltaView> {
    Seq::new(rows.len(), |i: int| consumer_delta(rows[i], size_at(sizes, i)))
}

/// What changed between two summaries, largest change first. `sizes` holds, for
/// each of the `consumer_rows`, the size that is told of it.
pub fn consumer_deltas(then: &CensusSummary, now: &CensusSummary, sizes: &Vec<String>) -> (r: Vec<
    ConsumerDelta,
>)
    ensures
        views(r@) == deltas_of_rows(ranked_rows(then@, now@), sizes@),
{
    let rows = consumer_rows(then, now);
    let ghost all = views(rows@);
    let mut out: Vec<ConsumerDelta> = Vec::new();
    let mut i: usize = 0;
    while i < rows.len()
        invariant
            i <= rows.len(),
            all == views(rows@),
            views(out@) == deltas_of_rows(all, sizes@).take(i as int),
        decreases rows.len() - i,
    {
        let r = &rows[i];
        assert(all[i as int] == r@);
        let nothing = String::new();
        let size = if i < sizes.len() {
            sizes[i].as_str()
        } else {
            nothing.as_str()
        };
        let d = ConsumerDelta {
            name: r.name.clone(),
            kind: r.kind,
            then_count: r.then_count,
            now_count: r.now_count,
            then_bytes: r.then_bytes,
            now_bytes: r.now_bytes,
            delta_bytes: r.delta_bytes(),
            detail: consumer_words(
                r.name.as_str(),
                r.then_count,
                r.now_count,
                r.then_bytes,
                r.now_bytes,
                size,
            ),
        };
        assert(d@ =~= consumer_delta(r@, size_at(sizes@, i as int)));
        out.push(d);
        i = i + 1;
        assert(views(out@) =~= deltas_of_rows(all, sizes@).take(i as int));
    }
    assert(views(out@) =~= deltas_of_rows(all, sizes@));
    out
}

/// A row stands behind a consumer.
spec fn row_after(r: RowView, c: SizeView) -> bool {
    !row_before(r, c) && !row_is(r, c)
}

/// The rows are by kind, then by name, with no two alike.
pub open spec fn rows_in_order(rows: Seq<RowView>) -> bool {
    forall|i: int, j: int|
        0 <= i < j < rows.len() ==> row_precedes(#[trigger] rows[i], #[trigger] rows[j])
}

pub open spec fn row_precedes(a: RowView, b: RowView) -> bool {
    a.kind.place() < b.kind.place() || (a.kind == b.kind && sorts_before(a.name, b.name))
}

proof fn lemma_precedes_before(a: RowView, b: RowView, c: SizeView)
    ensures
        row_precedes(a, b) && row_before(b, c) ==> row_before(a, c),
        row_precedes(a, b) && row_is(b, c) ==> row_before(a, c),
        row_precedes(a, b) && row_after(a, c) ==> row_after(b, c),
        row_precedes(a, b) && row_is(a, c) ==> row_after(b, c),
        row_before(a, c) ==> !row_is(a, c),
        row_before(a, c) && row_after(b, c) ==> row_precedes(a, b),
        row_before(a, c) && row_is(b, c) ==> row_precedes(a, b),
        row_is(a, c) && row_after(b, c) ==> row_precedes(a, b),
{
    lemma_sorts_before_irreflexive(c.name);
    lemma_sorts_before_total(a.name, c.name);
    lemma_sorts_before_total(b.name, c.name);
    lemma_sorts_before_total(a.name, b.name);
    if sorts_before(a.name, b.name) && sorts_before(b.name, c.name) {
        lemma_sorts_before_transitive(a.name, b.name, c.name);
    }
    if sorts_before(c.name, a.name) && sorts_before(a.name, b.name) {
        lemma_sorts_before_transitive(c.name, a.name, b.name);
    }
    if sorts_before(a.name, c.name) && sorts_before(c.name, b.name) {
        lemma_sorts_before_transitive(a.name, c.name, b.name);
    }
    if sorts_before(b.name, c.name) && sorts_before(c.name, b.name) {
        lemma_sorts_before_transitive(b.name, c.name, b.name);
        lemma_sorts_before_irreflexive(b.name);
    }
    if sorts_before(a.name, c.name) && sorts_before(c.name, a.name) {
        lemma_sorts_before_transitive(a.name, c.name, a.name);
        lemma_sorts_before_irreflexive(a.name);
    }
}

/// Where a consumer is entered, and how.
spec fn enters_at(rows: Seq<RowView>, c: SizeView, newer: bool, at: int) -> bool {
    &&& 0 <= at <= rows.len()
    &&& forall|j: int| 0 <= j < at ==> row_before(#[trigger] rows[j], c)
    &&& if at < rows.len() && row_is(rows[at], c) {
        &&& forall|j: int| at < j < rows.len() ==> row_after(#[trigger] rows[j], c)
        &&& entered(rows, c, newer) == rows.update(at, filled(rows[at], c, newer))
    } else {
        &&& forall|j: int| at <= j < rows.len() ==> row_after(#[trigger] rows[j], c)
        &&& entered(rows, c, newer) == rows.insert(at, filled(blank(c), c, newer))
    }
}

proof fn lemma_enters(rows: Seq<RowView>, c: SizeView, newer: bool) -> (at: int)
    requires
        rows_in_order(rows),
    ensures
        enters_at(rows, c, newer, at),
    decreases rows.len(),
{
    let n = rows.len() as int;
    if n == 0 || row_before(rows.last(), c) {
        assert forall|j: int| 0 <= j < n implies row_before(#[trigger] rows[j], c) by {
            if j < n - 1 {
                assert(row_precedes(rows[j], rows[n - 1]));
                lemma_precedes_before(rows[j], rows[n - 1], c);
            }
        }
        lemma_entered_new(rows, c, newer, n);
        n
    } else if row_is(rows.last(), c) {
        assert forall|j: int| 0 <= j < n - 1 implies row_before(#[trigger] rows[j], c) by {
            assert(row_precedes(rows[j], rows[n - 1]));
            lemma_precedes_before(rows[j], rows[n - 1], c);
        }
        lemma_entered_known(rows, c, newer, n - 1);
        n - 1
    } else {
        let front = rows.drop_last();
        assert forall|i: int, j: int| 0 <= i < j < front.len() implies row_precedes(
            #[trigger] front[i],
            #[trigger] front[j],
        ) by {
            assert(row_precedes(rows[i], rows[j]));
        }
        let at = lemma_enters(front, c, newer);
        assert forall|j: int| at < j < n implies row_after(#[trigger] rows[j], c) by {
            if j < n - 1 {
                assert(front[j] == rows[j]);
            }
        }
        assert forall|j: int| 0 <= j < at implies row_before(#[trigger] rows[j], c) by {
            assert(front[j] == rows[j]);
        }
        if at < front.len() && row_is(front[at], c) {
            assert(rows[at] == front[at]);
            lemma_precedes_before(rows[at], rows[n - 1], c);
            lemma_sorts_before_irreflexive(c.name);
            lemma_entered_known(rows, c, newer, at);
        } else {
            if at < front.len() {
                assert(front[at] == rows[at]);
            }
            assert forall|j: int| at <= j < n implies row_after(#[trigger] rows[j], c) by {
                if j < n - 1 {
                    assert(front[j] == rows[j]);
                }
            }
            lemma_entered_new(rows, c, newer, at);
        }
        at
    }
}

/// The last consumer of a kind and a name.
pub open spec fn last_of(s: Seq<SizeView>, kind: ConsumerKind, name: Seq<char>) -> Option<SizeView>
    decreases s.len(),
{
    if s.len() == 0 {
        None
    } else if s.last().kind == kind && s.last().name == name {
        Some(s.last())
    } else {
        last_of(s.drop_last(), kind, name)
    }
}

pub open spec fn count_of(c: Option<SizeView>) -> u32 {
    match c {
        Some(x) => x.count,
        None => 0,
    }
}

pub open spec fn bytes_of(c: Option<SizeView>) -> u64 {
    match c {
        Some(x) => x.rss_bytes,
        None => 0,
    }
}

/// A row tells what two lists say of its consumer, zero where one is silent, and
/// at least one of them is not.
pub open spec fn tells(r: RowView, then: Seq<SizeView>, now: Seq<SizeView>) -> bool {
    let a = last_of(then, r.kind, r.name);
    let b = last_of(now, r.kind, r.name);
    &&& r.then_count == count_of(a) && r.then_bytes == bytes_of(a)
    &&& r.now_count == count_of(b) && r.now_bytes == bytes_of(b)
    &&& a is Some || b is Some
}

/// Some row is about a consumer.
pub open spec fn listed(rows: Seq<RowView>, c: SizeView) -> bool {
    exists|i: int| 0 <= i < rows.len() && row_is(#[trigger] rows[i], c)
}

/// The rows put two lists side by side.
pub open spec fn matches_up(rows: Seq<RowView>, then: Seq<SizeView>, now: Seq<SizeView>) -> bool {
    &&& rows_in_order(rows)
    &&& forall|i: int| 0 <= i < rows.len() ==> tells(#[trigger] rows[i], then, now)
    &&& forall|i: int| 0 <= i < then.len() ==> listed(rows, #[trigger] then[i])
    &&& forall|i: int| 0 <= i < now.len() ==> listed(rows, #[trigger] now[i])
}

proof fn lemma_last_of(s: Seq<SizeView>, kind: ConsumerKind, name: Seq<char>)
    ensures
        last_of(s, kind, name) matches Some(c) ==> c.kind == kind && c.name == name && s.contains(c),
        last_of(s, kind, name) is None ==> forall|i: int|
            0 <= i < s.len() ==> !((#[trigger] s[i]).kind == kind && s[i].name == name),
    decreases s.len(),
{
    if s.len() > 0 {
        let front = s.drop_last();
        lemma_last_of(front, kind, name);
        if s.last().kind == kind && s.last().name == name {
            assert(s[s.len() - 1] == s.last());
        } else {
            match last_of(front, kind, name) {
                Some(c) => {
                    let k = choose|k: int| 0 <= k < front.len() && front[k] == c;
                    assert(s[k] == c);
                },
                None => {
                    assert forall|i: int| 0 <= i < s.len() implies !((
                    #[trigger] s[i]).kind == kind && s[i].name == name) by {
                        if i < front.len() {
                            assert(front[i] == s[i]);
                        }
                    }
                },
            }
        }
    }
}

proof fn lemma_entered_in_order(rows: Seq<RowView>, c: SizeView, newer: bool)
    requires
        rows_in_order(rows),
    ensures
        rows_in_order(entered(rows, c, newer)),
{
    let at = lemma_enters(rows, c, newer);
    let out = entered(rows, c, newer);
    let known = at < rows.len() && row_is(rows[at], c);
    assert forall|i: int, j: int| 0 <= i < j < out.len() implies row_precedes(
        #[trigger] out[i],
        #[trigger] out[j],
    ) by {
        if known {
            assert(out[i].kind == rows[i].kind && out[i].name == rows[i].name);
            assert(out[j].kind == rows[j].kind && out[j].name == rows[j].name);
            assert(row_precedes(rows[i], rows[j]));
        } else if j < at {
            assert(row_precedes(rows[i], rows[j]));
        } else if i > at {
            assert(row_precedes(rows[i - 1], rows[j - 1]));
        } else if i == at {
            lemma_precedes_before(out[i], rows[j - 1], c);
        } else if j == at {
            lemma_precedes_before(rows[i], out[j], c);
        } else {
            assert(row_precedes(rows[i], rows[j - 1]));
        }
    }
}

proof fn lemma_entered_lists(rows: Seq<RowView>, c: SizeView, newer: bool)
    requires
        rows_in_order(rows),
    ensures
        listed(entered(rows, c, newer), c),
        forall|x: SizeView| listed(rows, x) ==> #[trigger] listed(entered(rows, c, newer), x),
{
    let at = lemma_enters(rows, c, newer);
    let out = entered(rows, c, newer);
    let known = at < rows.len() && row_is(rows[at], c);
    assert(listed(out, c)) by {
        assert(row_is(out[at], c));
    }
    assert forall|x: SizeView| listed(rows, x) implies #[trigger] listed(out, x) by {
        let m = choose|m: int| 0 <= m < rows.len() && row_is(#[trigger] rows[m], x);
        if known || m < at {
            assert(row_is(out[m], x));
        } else {
            assert(out[m + 1] == rows[m]);
            assert(row_is(out[m + 1], x));
        }
    }
}

proof fn lemma_entered_tells(
    rows: Seq<RowView>,
    then: Seq<SizeView>,
    now: Seq<SizeView>,
    c: SizeView,
    newer: bool,
    i: int,
)
    requires
        matches_up(rows, then, now),
        0 <= i < entered(rows, c, newer).len(),
    ensures
        newer ==> tells(entered(rows, c, true)[i], then, now.push(c)),
        !newer ==> tells(entered(rows, c, false)[i], then.push(c), now),
{
    let at = lemma_enters(rows, c, newer);
    let out = entered(rows, c, newer);
    assert(then.push(c).drop_last() =~= then);
    assert(now.push(c).drop_last() =~= now);
    let known = at < rows.len() && row_is(rows[at], c);
    if known {
        assert(tells(rows[i], then, now));
        if i != at {
            assert(out[i] == rows[i]);
            if i < at {
                lemma_precedes_before(rows[i], rows[i], c);
            }
            assert(!row_is(rows[i], c));
        }
    } else if i == at {
        assert forall|k: int| 0 <= k < then.len() implies !(#[trigger] then[k].kind == c.kind
            && then[k].name == c.name) by {
            assert(listed(rows, then[k]));
            let m = choose|m: int| 0 <= m < rows.len() && row_is(#[trigger] rows[m], then[k]);
            if m < at {
                lemma_precedes_before(rows[m], rows[m], c);
            }
        }
        assert forall|k: int| 0 <= k < now.len() implies !(#[trigger] now[k].kind == c.kind
            && now[k].name == c.name) by {
            assert(listed(rows, now[k]));
            let m = choose|m: int| 0 <= m < rows.len() && row_is(#[trigger] rows[m], now[k]);
            if m < at {
                lemma_precedes_before(rows[m], rows[m], c);
            }
        }
        lemma_last_of(then, c.kind, c.name);
        lemma_last_of(now, c.kind, c.name);
    } else {
        let k = if i < at {
            i
        } else {
            i - 1
        };
        assert(out[i] == rows[k]);
        assert(tells(rows[k], then, now));
        if k < at {
            lemma_precedes_before(rows[k], rows[k], c);
        }
        assert(!row_is(rows[k], c));
    }
}

proof fn lemma_entered_matches(
    rows: Seq<RowView>,
    then: Seq<SizeView>,
    now: Seq<SizeView>,
    c: SizeView,
    newer: bool,
)
    requires
        matches_up(rows, then, now),
    ensures
        newer ==> matches_up(entered(rows, c, true), then, now.push(c)),
        !newer ==> matches_up(entered(rows, c, false), then.push(c), now),
{
    let out = entered(rows, c, newer);
    let a = if newer {
        then
    } else {
        then.push(c)
    };
    let b = if newer {
        now.push(c)
    } else {
        now
    };
    lemma_entered_in_order(rows, c, newer);
    lemma_entered_lists(rows, c, newer);
    assert forall|i: int| 0 <= i < out.len() implies tells(#[trigger] out[i], a, b) by {
        lemma_entered_tells(rows, then, now, c, newer, i);
    }
    assert forall|i: int| 0 <= i < a.len() implies listed(out, #[trigger] a[i]) by {
        if i < then.len() {
            assert(a[i] == then[i]);
            assert(listed(rows, then[i]));
        }
    }
    assert forall|i: int| 0 <= i < b.len() implies listed(out, #[trigger] b[i]) by {
        if i < now.len() {
            assert(b[i] == now[i]);
            assert(listed(rows, now[i]));
        }
    }
}

proof fn lemma_all_entered(
    base: Seq<RowView>,
    then: Seq<SizeView>,
    now: Seq<SizeView>,
    s: Seq<SizeView>,
    newer: bool,
)
    requires
        matches_up(base, then, now),
    ensures
        newer ==> matches_up(all_entered(base, s, true), then, now + s),
        !newer ==> matches_up(all_entered(base, s, false), then + s, now),
    decreases s.len(),
{
    if s.len() == 0 {
        assert(now + s =~= now);
        assert(then + s =~= then);
    } else {
        let front = s.drop_last();
        lemma_all_entered(base, then, now, front, newer);
        let rows = all_entered(base, front, newer);
        if newer {
            lemma_entered_matches(rows, then, now + front, s.last(), newer);
            assert((now + front).push(s.last()) =~= now + s);
        } else {
            lemma_entered_matches(rows, then + front, now, s.last(), newer);
            assert((then + front).push(s.last()) =~= then + s);
        }
    }
}

/// Two summaries side by side: every consumer in either has exactly one row,
/// every row is about a consumer in one of them, and it tells the size at each
/// end, zero where the consumer was absent.
pub proof fn law_every_consumer_has_one_row(then: Seq<SizeView>, now: Seq<SizeView>)
    ensures
        matches_up(side_by_side(then, now), then, now),
{
    let none = Seq::<SizeView>::empty();
    assert(matches_up(Seq::empty(), none, none));
    lemma_all_entered(Seq::empty(), none, none, then, false);
    assert(none + then =~= then);
    let half = all_entered(Seq::empty(), then, false);
    lemma_all_entered(half, then, none, now, true);
    assert(none + now =~= now);
}

/// The order of consumers by size never contradicts itself.
pub proof fn lemma_size_order()
    ensures
        weak_order(order::<ConsumerSize>(), |c: SizeView| true),
{
    let first = order::<ConsumerSize>();
    assert forall|a: SizeView, b: SizeView| #[trigger] first(a, b) implies !first(b, a) by {
        if sorts_before(a.name, b.name) && sorts_before(b.name, a.name) {
            lemma_sorts_before_transitive(a.name, b.name, a.name);
        }
        lemma_sorts_before_irreflexive(a.name);
    }
    assert forall|a: SizeView, b: SizeView, c: SizeView|
        !(#[trigger] first(a, b)) && !(#[trigger] first(b, c)) implies !first(a, c) by {
        lemma_names_weakly_ordered(a.name, b.name, c.name);
    }
}

proof fn lemma_names_weakly_ordered(a: Seq<char>, b: Seq<char>, c: Seq<char>)
    ensures
        !sorts_before(a, b) && !sorts_before(b, c) ==> !sorts_before(a, c),
{
    lemma_sorts_before_total(a, b);
    lemma_sorts_before_total(b, c);
    lemma_sorts_before_irreflexive(a);
    if sorts_before(b, a) && sorts_before(a, c) {
        lemma_sorts_before_transitive(b, a, c);
    }
}

proof fn lemma_row_order()
    ensures
        weak_order(order::<ConsumerRow>(), |r: RowView| true),
{
    let first = order::<ConsumerRow>();
    assert forall|a: RowView, b: RowView| #[trigger] first(a, b) implies !first(b, a) by {
        if sorts_before(a.name, b.name) && sorts_before(b.name, a.name) {
            lemma_sorts_before_transitive(a.name, b.name, a.name);
        }
        lemma_sorts_before_irreflexive(a.name);
    }
    assert forall|a: RowView, b: RowView, c: RowView|
        !(#[trigger] first(a, b)) && !(#[trigger] first(b, c)) implies !first(a, c) by {
        lemma_names_weakly_ordered(a.name, b.name, c.name);
    }
}

/// The rows are by how far each consumer moved, not by how big it is: none stands
/// before one that moved further, and those that moved equally far are by name.
/// Ranking loses no row and adds none.
pub proof fn law_movers_come_first(then: SummaryView, now: SummaryView)
    ensures
        ranked_rows(then, now).to_multiset() == side_by_side(
            then.consumers,
            now.consumers,
        ).to_multiset(),
        forall|i: int, j: int|
            #![trigger ranked_rows(then, now)[i], ranked_rows(then, now)[j]]
            0 <= i < j < ranked_rows(then, now).len() ==> {
                let a = ranked_rows(then, now)[i];
                let b = ranked_rows(then, now)[j];
                &&& a.moved() >= b.moved()
                &&& a.moved() == b.moved() ==> !sorts_before(b.name, a.name)
            },
{
    lemma_row_order();
    law_sorting(
        side_by_side(then.consumers, now.consumers),
        order::<ConsumerRow>(),
        |r: RowView| true,
    );
    let rows = ranked_rows(then, now);
    assert forall|i: int, j: int|
        #![trigger rows[i], rows[j]]
        0 <= i < j < rows.len() implies rows[i].moved() >= rows[j].moved() && (rows[i].moved()
        == rows[j].moved() ==> !sorts_before(rows[j].name, rows[i].name)) by {
        assert(!order::<ConsumerRow>()(rows[j], rows[i]));
    }
}

spec fn all_sized(s: Seq<SizeView>) -> bool {
    forall|i: int| 0 <= i < s.len() ==> (#[trigger] s[i]).count > 0 && s[i].rss_bytes > 0
}

proof fn lemma_app_sizes(c: Seq<AppGroup>)
    ensures
        all_sized(app_sizes(c)),
    decreases c.len(),
{
    if c.len() > 0 {
        lemma_app_sizes(c.drop_last());
    }
}

proof fn lemma_session_sizes(base: Seq<SizeView>, g: Seq<GroupView>)
    requires
        all_sized(base),
    ensures
        all_sized(session_sizes(base, g)),
    decreases g.len(),
{
    if g.len() > 0 {
        lemma_session_sizes(base, g.drop_last());
    }
}

/// A summary names what costs something, biggest first, and loses none of it.
pub proof fn law_a_summary_is_ranked(c: Census)
    ensures
        in_order(summary_of(c).consumers, order::<ConsumerSize>()),
        summary_of(c).consumers.to_multiset() == sizes_in(c).to_multiset(),
        forall|i: int|
            0 <= i < summary_of(c).consumers.len() ==> (
            #[trigger] summary_of(c).consumers[i]).count > 0 && summary_of(c).consumers[i].rss_bytes
                > 0,
{
    lemma_size_order();
    law_sorting(sizes_in(c), order::<ConsumerSize>(), |x: SizeView| true);
    lemma_app_sizes(c.app_groups@);
    lemma_session_sizes(app_sizes(c.app_groups@), grouped(c.agent_sessions@, false));
    lemma_sorted_members(sizes_in(c), order::<ConsumerSize>());
    assert(all_sized(sizes_in(c)));
    assert forall|i: int| 0 <= i < summary_of(c).consumers.len() implies (
    #[trigger] summary_of(c).consumers[i]).count > 0 && summary_of(c).consumers[i].rss_bytes > 0 by {
        let x = summary_of(c).consumers[i];
        assert(sizes_in(c).contains(x));
        let k = choose|k: int| 0 <= k < sizes_in(c).len() && sizes_in(c)[k] == x;
        assert(sizes_in(c)[k].count > 0);
    }
}

/// An app group as a consumer.
pub open spec fn app_entry(a: AppGroup) -> SizeView {
    SizeView {
        name: a.name@,
        kind: ConsumerKind::AppGroup,
        count: a.proc_count,
        rss_bytes: a.rss_bytes,
    }
}

/// Whether a consumer is one of some app groups.
pub open spec fn is_app(c: Seq<AppGroup>, x: SizeView) -> bool {
    exists|k: int| 0 <= k < c.len() && app_entry(#[trigger] c[k]) == x
}

/// Whether a consumer is a program with all its sessions: how many there are, and
/// what they hold together.
pub open spec fn is_program(s: Seq<AgentSession>, x: SizeView) -> bool {
    &&& x.kind == ConsumerKind::Sessions
    &&& sessions_of(s, false, x.name) > 0
    &&& x.count == (if sessions_of(s, false, x.name) > u32::MAX {
        u32::MAX as nat
    } else {
        sessions_of(s, false, x.name)
    })
    &&& x.rss_bytes == capped(resident_of(s, false, x.name))
}

/// Whether a consumer is one of the totals of a census.
pub open spec fn is_total(c: Census, x: SizeView) -> bool {
    ||| x == total_size("IDE agent helpers"@, c.ide_helpers.count, c.ide_helpers.rss_bytes)
    ||| x == total_size(
        "orphaned helpers"@,
        c.orphans.orphan_count,
        c.orphans.orphan_rss_bytes,
    )
    ||| x == total_size(
        "managed agents"@,
        c.monitor_total.proc_count,
        c.monitor_total.rss_bytes,
    )
}

/// App groups that are told apart by their names.
pub open spec fn apps_named_apart(c: Seq<AppGroup>) -> bool {
    forall|i: int, j: int|
        0 <= i < j < c.len() ==> (#[trigger] c[i]).name@ != (#[trigger] c[j]).name@
}

/// No two consumers are of one kind and one name.
pub open spec fn each_once(s: Seq<SizeView>) -> bool {
    forall|i: int, j: int|
        0 <= i < j < s.len() ==> (#[trigger] s[i]).kind != (#[trigger] s[j]).kind || s[i].name
            != s[j].name
}

spec fn session_entry(g: GroupView) -> SizeView {
    SizeView {
        name: g.program,
        kind: ConsumerKind::Sessions,
        count: g.count,
        rss_bytes: g.rss_bytes,
    }
}

spec fn is_group(g: Seq<GroupView>, x: SizeView) -> bool {
    exists|k: int| 0 <= k < g.len() && session_entry(#[trigger] g[k]) == x
}

spec fn costs_something(x: SizeView) -> bool {
    x.count > 0 && x.rss_bytes > 0
}

/// Whether none of the consumers is of `x`'s kind and name.
spec fn is_new(s: Seq<SizeView>, x: SizeView) -> bool {
    forall|i: int| 0 <= i < s.len() ==> (#[trigger] s[i]).kind != x.kind || s[i].name != x.name
}

proof fn lemma_with_size(s: Seq<SizeView>, x: SizeView)
    ensures
        forall|y: SizeView| #[trigger]
            with_size(s, x).contains(y) <==> s.contains(y) || (y == x && costs_something(x)),
        each_once(s) && is_new(s, x) ==> each_once(with_size(s, x)),
{
    let t = with_size(s, x);
    assert forall|y: SizeView| #[trigger] t.contains(y) <==> s.contains(y) || (y == x
        && costs_something(x)) by {
        if s.contains(y) {
            let k = choose|k: int| 0 <= k < s.len() && s[k] == y;
            assert(t[k] == y);
        }
        if y == x && costs_something(x) {
            assert(t[s.len() as int] == y);
        }
    }
}

proof fn lemma_apps_in(c: Seq<AppGroup>)
    ensures
        forall|x: SizeView| #[trigger]
            app_sizes(c).contains(x) <==> costs_something(x) && is_app(c, x),
        apps_named_apart(c) ==> each_once(app_sizes(c)),
    decreases c.len(),
{
    if c.len() > 0 {
        let front = c.drop_last();
        let y = app_entry(c.last());
        lemma_apps_in(front);
        lemma_with_size(app_sizes(front), y);
        assert(c[c.len() - 1] == c.last());
        assert forall|x: SizeView| is_app(c, x) <==> #[trigger] is_app(front, x) || x == y by {
            if is_app(front, x) {
                let k = choose|k: int| 0 <= k < front.len() && app_entry(#[trigger] front[k]) == x;
                assert(app_entry(c[k]) == x);
            }
            if is_app(c, x) && x != y {
                let k = choose|k: int| 0 <= k < c.len() && app_entry(#[trigger] c[k]) == x;
                assert(app_entry(front[k]) == x);
            }
        }
        assert forall|x: SizeView| #[trigger]
            app_sizes(c).contains(x) <==> costs_something(x) && is_app(c, x) by {
            assert(is_app(c, x) <==> is_app(front, x) || x == y);
        }
        if apps_named_apart(c) {
            assert(apps_named_apart(front)) by {
                assert forall|i: int, j: int| 0 <= i < j < front.len() implies (
                #[trigger] front[i]).name@ != (#[trigger] front[j]).name@ by {
                    assert(c[i].name@ != c[j].name@);
                }
            }
            let s = app_sizes(front);
            assert forall|i: int| 0 <= i < s.len() implies (#[trigger] s[i]).name != y.name by {
                assert(s.contains(s[i]));
                let k = choose|k: int| 0 <= k < front.len() && app_entry(#[trigger] front[k]) == s[i];
                assert(c[k].name@ != c[c.len() - 1].name@);
            }
        }
    }
}

proof fn lemma_groups_in(base: Seq<SizeView>, g: Seq<GroupView>)
    requires
        ascending(g),
        forall|x: SizeView| #[trigger] base.contains(x) ==> x.kind == ConsumerKind::AppGroup,
    ensures
        forall|x: SizeView| #[trigger]
            session_sizes(base, g).contains(x) <==> base.contains(x) || (costs_something(x)
                && is_group(g, x)),
        each_once(base) ==> each_once(session_sizes(base, g)),
    decreases g.len(),
{
    if g.len() > 0 {
        let front = g.drop_last();
        let y = session_entry(g.last());
        assert(ascending(front)) by {
            assert forall|i: int, j: int| 0 <= i < j < front.len() implies sorts_before(
                (#[trigger] front[i]).program,
                (#[trigger] front[j]).program,
            ) by {
                assert(sorts_before(g[i].program, g[j].program));
            }
        }
        lemma_groups_in(base, front);
        let s = session_sizes(base, front);
        lemma_with_size(s, y);
        assert(g[g.len() - 1] == g.last());
        assert forall|x: SizeView| is_group(g, x) <==> #[trigger] is_group(front, x) || x == y by {
            if is_group(front, x) {
                let k = choose|k: int|
                    0 <= k < front.len() && session_entry(#[trigger] front[k]) == x;
                assert(session_entry(g[k]) == x);
            }
            if is_group(g, x) && x != y {
                let k = choose|k: int| 0 <= k < g.len() && session_entry(#[trigger] g[k]) == x;
                assert(session_entry(front[k]) == x);
            }
        }
        assert forall|x: SizeView| #[trigger]
            session_sizes(base, g).contains(x) <==> base.contains(x) || (costs_something(x)
                && is_group(g, x)) by {
            assert(is_group(g, x) <==> is_group(front, x) || x == y);
        }
        assert forall|i: int| 0 <= i < s.len() implies (#[trigger] s[i]).kind != y.kind || s[i].name
            != y.name by {
            assert(s.contains(s[i]));
            if !base.contains(s[i]) {
                let k = choose|k: int|
                    0 <= k < front.len() && session_entry(#[trigger] front[k]) == s[i];
                assert(sorts_before(g[k].program, g[g.len() - 1].program));
                lemma_sorts_before_irreflexive(y.name);
            }
        }
    }
}

proof fn lemma_programs_in(s: Seq<AgentSession>, x: SizeView)
    ensures
        is_group(grouped(s, false), x) <==> is_program(s, x),
{
    let g = grouped(s, false);
    law_groups_account_for_every_session(s, false);
    if is_group(g, x) {
        let k = choose|k: int| 0 <= k < g.len() && session_entry(#[trigger] g[k]) == x;
        assert(accounts_for(g[k], s, false));
    }
    if is_program(s, x) {
        assert(has_group(g, x.name));
        let k = choose|k: int| 0 <= k < g.len() && (#[trigger] g[k]).program == x.name;
        assert(accounts_for(g[k], s, false));
        assert(session_entry(g[k]) == x);
    }
}

proof fn lemma_sizes_in(c: Census)
    ensures
        forall|x: SizeView| #[trigger]
            sizes_in(c).contains(x) <==> costs_something(x) && (is_app(c.app_groups@, x)
                || is_program(c.agent_sessions@, x) || is_total(c, x)),
        apps_named_apart(c.app_groups@) ==> each_once(sizes_in(c)),
{
    let apps = app_sizes(c.app_groups@);
    let g = grouped(c.agent_sessions@, false);
    lemma_apps_in(c.app_groups@);
    law_groups_account_for_every_session(c.agent_sessions@, false);
    lemma_groups_in(apps, g);
    let sessions = session_sizes(apps, g);
    let ide = total_size("IDE agent helpers"@, c.ide_helpers.count, c.ide_helpers.rss_bytes);
    let orphaned = total_size(
        "orphaned helpers"@,
        c.orphans.orphan_count,
        c.orphans.orphan_rss_bytes,
    );
    let managed = total_size(
        "managed agents"@,
        c.monitor_total.proc_count,
        c.monitor_total.rss_bytes,
    );
    let helpers = with_size(sessions, ide);
    let orphans = with_size(helpers, orphaned);
    lemma_with_size(sessions, ide);
    lemma_with_size(helpers, orphaned);
    lemma_with_size(orphans, managed);
    assert forall|x: SizeView| #[trigger]
        sizes_in(c).contains(x) <==> costs_something(x) && (is_app(c.app_groups@, x) || is_program(
            c.agent_sessions@,
            x,
        ) || is_total(c, x)) by {
        lemma_programs_in(c.agent_sessions@, x);
        assert(sessions.contains(x) <==> apps.contains(x) || (costs_something(x) && is_group(g, x)));
        assert(helpers.contains(x) <==> sessions.contains(x) || (x == ide && costs_something(x)));
        assert(orphans.contains(x) <==> helpers.contains(x) || (x == orphaned && costs_something(
            x,
        )));
    }
    reveal_strlit("IDE agent helpers");
    reveal_strlit("orphaned helpers");
    reveal_strlit("managed agents");
    assert(ide.name.len() == 17 && orphaned.name.len() == 16 && managed.name.len() == 14);
    assert(is_new(sessions, ide)) by {
        assert forall|i: int| 0 <= i < sessions.len() implies (#[trigger] sessions[i]).kind
            != ide.kind by {
            assert(sessions.contains(sessions[i]));
        }
    }
    assert(is_new(helpers, orphaned)) by {
        assert forall|i: int| 0 <= i < helpers.len() implies (#[trigger] helpers[i]).kind
            != orphaned.kind || helpers[i].name != orphaned.name by {
            assert(helpers.contains(helpers[i]));
            assert(sessions.contains(helpers[i]) || helpers[i] == ide);
        }
    }
    assert(is_new(orphans, managed)) by {
        assert forall|i: int| 0 <= i < orphans.len() implies (#[trigger] orphans[i]).kind
            != managed.kind || orphans[i].name != managed.name by {
            assert(orphans.contains(orphans[i]));
            assert(helpers.contains(orphans[i]) || orphans[i] == orphaned);
            assert(sessions.contains(orphans[i]) || orphans[i] == ide || orphans[i] == orphaned);
        }
    }
}

/// A summary holds every app group, every program with its sessions and every
/// total that costs something, and nothing else. Where the app groups have names
/// of their own, each is there once.
pub proof fn law_a_summary_holds_each_once(c: Census)
    ensures
        forall|x: SizeView| #[trigger]
            summary_of(c).consumers.contains(x) <==> x.count > 0 && x.rss_bytes > 0 && (is_app(
                c.app_groups@,
                x,
            ) || is_program(c.agent_sessions@, x) || is_total(c, x)),
        apps_named_apart(c.app_groups@) ==> each_once(summary_of(c).consumers),
{
    broadcast use vstd::seq_lib::group_to_multiset_ensures;

    let s = sizes_in(c);
    let t = summary_of(c).consumers;
    lemma_sizes_in(c);
    law_a_summary_is_ranked(c);
    assert forall|x: SizeView| #[trigger] t.contains(x) <==> s.contains(x) by {
        assert(s.to_multiset().contains(x) <==> s.contains(x));
        assert(t.to_multiset().contains(x) <==> t.contains(x));
    }
    if apps_named_apart(c.app_groups@) {
        assert(s.no_duplicates());
        s.lemma_multiset_has_no_duplicates();
        t.lemma_multiset_has_no_duplicates_conv();
        assert forall|i: int, j: int| 0 <= i < j < t.len() implies (#[trigger] t[i]).kind
            != (#[trigger] t[j]).kind || t[i].name != t[j].name by {
            assert(t.contains(t[i]) && t.contains(t[j]));
            assert(s.contains(t[i]) && s.contains(t[j]));
            let k = choose|k: int| 0 <= k < s.len() && s[k] == t[i];
            let l = choose|l: int| 0 <= l < s.len() && s[l] == t[j];
            if k < l {
                assert(s[k].kind != s[l].kind || s[k].name != s[l].name);
            } else if l < k {
                assert(s[l].kind != s[k].kind || s[l].name != s[k].name);
            }
        }
    }
}

/// Two censuses that found the same, with the app groups and the sessions in any
/// order.
pub open spec fn listed_anew(a: Census, b: Census) -> bool {
    &&& a.taken_at == b.taken_at
    &&& a.total_procs == b.total_procs
    &&& a.app_groups@.to_multiset() == b.app_groups@.to_multiset()
    &&& a.agent_sessions@.to_multiset() == b.agent_sessions@.to_multiset()
    &&& a.ide_helpers == b.ide_helpers
    &&& a.orphans.orphan_count == b.orphans.orphan_count
    &&& a.orphans.orphan_rss_bytes == b.orphans.orphan_rss_bytes
    &&& a.monitor_total == b.monitor_total
}

/// Two sized app groups of one name and one size have one count. Those named apart
/// always do.
pub open spec fn apps_told_apart(c: Seq<AppGroup>) -> bool {
    forall|i: int, j: int|
        0 <= i < j < c.len() && (#[trigger] c[i]).name@ == (#[trigger] c[j]).name@
            && c[i].rss_bytes == c[j].rss_bytes && c[i].rss_bytes > 0 && c[i].proc_count > 0
            && c[j].proc_count > 0 ==> c[i].proc_count == c[j].proc_count
}

/// Two censuses that differ only in order summarise identically. Two app groups
/// that share a name and a size and differ in their count keep the order they
/// came in, and are left out here.
pub proof fn law_a_summary_ignores_census_order(a: Census, b: Census)
    requires
        listed_anew(a, b),
        apps_told_apart(a.app_groups@),
    ensures
        summary_of(a) == summary_of(b),
{
    let s = app_sizes(a.app_groups@);
    lemma_apps_in(a.app_groups@);
    assert forall|i: int, j: int|
        0 <= i < s.len() && 0 <= j < s.len() && (#[trigger] s[i]).name == (#[trigger] s[j]).name
            && s[i].rss_bytes == s[j].rss_bytes implies s[i] == s[j] by {
        let c = a.app_groups@;
        assert(s.contains(s[i]) && s.contains(s[j]));
        let k = choose|k: int| 0 <= k < c.len() && app_entry(#[trigger] c[k]) == s[i];
        let l = choose|l: int| 0 <= l < c.len() && app_entry(#[trigger] c[l]) == s[j];
        if k < l {
            assert(c[k].name@ == c[l].name@);
        } else if l < k {
            assert(c[l].name@ == c[k].name@);
        }
    }
    lemma_summary_in_any_order(a, b);
}

/// A consumer's row with its two ends exchanged.
pub open spec fn flipped(r: RowView) -> RowView {
    RowView {
        kind: r.kind,
        name: r.name,
        then_count: r.now_count,
        then_bytes: r.now_bytes,
        now_count: r.then_count,
        now_bytes: r.then_bytes,
    }
}

pub open spec fn all_flipped(s: Seq<RowView>) -> Seq<RowView> {
    s.map_values(|r: RowView| flipped(r))
}

/// No row precedes itself, and none precedes one that precedes it.
proof fn lemma_precedes_strictly(a: RowView, b: RowView)
    ensures
        !row_precedes(a, a),
        row_precedes(a, b) ==> !row_precedes(b, a),
{
    lemma_sorts_before_irreflexive(a.name);
    if sorts_before(a.name, b.name) && sorts_before(b.name, a.name) {
        lemma_sorts_before_transitive(a.name, b.name, a.name);
    }
}

proof fn lemma_front_rows(s: Seq<RowView>, r: RowView)
    requires
        rows_in_order(s),
        s.len() > 0,
    ensures
        rows_in_order(s.drop_last()),
        s.drop_last().contains(r) <==> s.contains(r) && r != s.last(),
{
    let front = s.drop_last();
    assert forall|i: int, j: int| 0 <= i < j < front.len() implies row_precedes(
        #[trigger] front[i],
        #[trigger] front[j],
    ) by {
        assert(row_precedes(s[i], s[j]));
    }
    if front.contains(r) {
        let k = choose|k: int| 0 <= k < front.len() && front[k] == r;
        assert(s[k] == r);
        assert(row_precedes(s[k], s[s.len() - 1]));
        lemma_precedes_strictly(r, r);
    }
    if s.contains(r) && r != s.last() {
        let k = choose|k: int| 0 <= k < s.len() && s[k] == r;
        assert(front[k] == r);
    }
}

/// Rows in order are told by which there are.
proof fn lemma_same_rows(a: Seq<RowView>, b: Seq<RowView>)
    requires
        rows_in_order(a),
        rows_in_order(b),
        forall|r: RowView| #[trigger] a.contains(r) <==> b.contains(r),
    ensures
        a == b,
    decreases a.len(),
{
    if a.len() > 0 && b.len() > 0 {
        let x = a.last();
        let y = b.last();
        assert(a[a.len() - 1] == x && a.contains(x));
        assert(b[b.len() - 1] == y && b.contains(y));
        if x != y {
            assert(b.contains(x) && a.contains(y));
            let i = choose|i: int| 0 <= i < b.len() && b[i] == x;
            let j = choose|j: int| 0 <= j < a.len() && a[j] == y;
            assert(row_precedes(b[i], b[b.len() - 1]));
            assert(row_precedes(a[j], a[a.len() - 1]));
            lemma_precedes_strictly(x, y);
        }
        lemma_front_rows(a, x);
        lemma_front_rows(b, x);
        assert forall|r: RowView| #[trigger] a.drop_last().contains(r) <==> b.drop_last().contains(
            r,
        ) by {
            lemma_front_rows(a, r);
            lemma_front_rows(b, r);
            assert(a.contains(r) <==> b.contains(r));
        }
        lemma_same_rows(a.drop_last(), b.drop_last());
        assert(a =~= a.drop_last().push(x));
        assert(b =~= b.drop_last().push(y));
    } else if a.len() > 0 {
        assert(a.contains(a[0]));
        assert(b.contains(a[0]));
    } else if b.len() > 0 {
        assert(b.contains(b[0]));
        assert(a.contains(b[0]));
    } else {
        assert(a =~= b);
    }
}

proof fn lemma_flipped_is_listed(
    rows: Seq<RowView>,
    back: Seq<RowView>,
    then: Seq<SizeView>,
    now: Seq<SizeView>,
    r: RowView,
)
    requires
        matches_up(rows, then, now),
        matches_up(back, now, then),
        rows.contains(r),
    ensures
        back.contains(flipped(r)),
{
    let i = choose|i: int| 0 <= i < rows.len() && rows[i] == r;
    assert(tells(rows[i], then, now));
    lemma_last_of(then, r.kind, r.name);
    lemma_last_of(now, r.kind, r.name);
    let c = match last_of(then, r.kind, r.name) {
        Some(c) => c,
        None => last_of(now, r.kind, r.name)->0,
    };
    assert(listed(back, c)) by {
        if then.contains(c) {
            let k = choose|k: int| 0 <= k < then.len() && then[k] == c;
            assert(listed(back, then[k]));
        } else {
            assert(now.contains(c));
            let k = choose|k: int| 0 <= k < now.len() && now[k] == c;
            assert(listed(back, now[k]));
        }
    }
    let m = choose|m: int| 0 <= m < back.len() && row_is(#[trigger] back[m], c);
    assert(tells(back[m], now, then));
    assert(back[m] =~= flipped(r));
}

/// Looking back from the other end tells the same of the same consumers in the
/// same order, with the two ends exchanged and every change of the other sign.
pub proof fn law_looking_back_is_the_reverse(
    then: SummaryView,
    now: SummaryView,
    sizes: Seq<String>,
    others: Seq<String>,
)
    ensures
        ranked_rows(now, then) == all_flipped(ranked_rows(then, now)),
        ({
            let forth = deltas_of_rows(ranked_rows(then, now), sizes);
            let back = deltas_of_rows(ranked_rows(now, then), others);
            &&& back.len() == forth.len()
            &&& forall|i: int|
                #![trigger back[i], forth[i]]
                0 <= i < forth.len() ==> {
                    &&& back[i].kind == forth[i].kind
                    &&& back[i].name == forth[i].name
                    &&& back[i].then_count == forth[i].now_count
                    &&& back[i].now_count == forth[i].then_count
                    &&& back[i].then_bytes == forth[i].now_bytes
                    &&& back[i].now_bytes == forth[i].then_bytes
                    &&& back[i].delta_bytes == -forth[i].delta_bytes
                }
        }),
{
    let a = then.consumers;
    let b = now.consumers;
    let rows = side_by_side(a, b);
    let back = side_by_side(b, a);
    let flip = |r: RowView| flipped(r);
    law_every_consumer_has_one_row(a, b);
    law_every_consumer_has_one_row(b, a);
    assert(rows_in_order(all_flipped(rows))) by {
        assert forall|i: int, j: int| 0 <= i < j < rows.len() implies row_precedes(
            #[trigger] all_flipped(rows)[i],
            #[trigger] all_flipped(rows)[j],
        ) by {
            assert(row_precedes(rows[i], rows[j]));
        }
    }
    assert forall|r: RowView| #[trigger] back.contains(r) <==> all_flipped(rows).contains(r) by {
        if back.contains(r) {
            lemma_flipped_is_listed(back, rows, b, a, r);
            let k = choose|k: int| 0 <= k < rows.len() && rows[k] == flipped(r);
            assert(all_flipped(rows)[k] =~= r);
        }
        if all_flipped(rows).contains(r) {
            let k = choose|k: int| 0 <= k < rows.len() && all_flipped(rows)[k] == r;
            assert(rows.contains(rows[k]));
            lemma_flipped_is_listed(rows, back, a, b, rows[k]);
        }
    }
    lemma_same_rows(back, all_flipped(rows));
    let first = order::<ConsumerRow>();
    assert forall|x: RowView, y: RowView| #[trigger] first(flip(x), flip(y)) == first(x, y) by {
        assert(flipped(x).moved() == x.moved());
        assert(flipped(y).moved() == y.moved());
    }
    lemma_sorted_map(rows, flip, first);
}

/// A summary bears the numbers of its census, and its totals as they stand there:
/// each that has processes and a size is a consumer of its own.
pub proof fn law_a_summary_bears_its_census(c: Census)
    ensures
        ({
            let s = summary_of(c);
            &&& s.taken_at == c.taken_at
            &&& s.total_procs == c.total_procs
            &&& s.orphan_count == c.orphans.orphan_count
            &&& s.monitor_percent_of_one_core == c.monitor_total.percent_of_one_core
            &&& c.ide_helpers.count > 0 && c.ide_helpers.rss_bytes > 0 ==> s.consumers.contains(
                SizeView {
                    name: "IDE agent helpers"@,
                    kind: ConsumerKind::Rollup,
                    count: c.ide_helpers.count,
                    rss_bytes: c.ide_helpers.rss_bytes,
                },
            )
            &&& c.orphans.orphan_count > 0 && c.orphans.orphan_rss_bytes > 0
                ==> s.consumers.contains(
                SizeView {
                    name: "orphaned helpers"@,
                    kind: ConsumerKind::Rollup,
                    count: c.orphans.orphan_count,
                    rss_bytes: c.orphans.orphan_rss_bytes,
                },
            )
            &&& c.monitor_total.proc_count > 0 && c.monitor_total.rss_bytes > 0
                ==> s.consumers.contains(
                SizeView {
                    name: "managed agents"@,
                    kind: ConsumerKind::Rollup,
                    count: c.monitor_total.proc_count,
                    rss_bytes: c.monitor_total.rss_bytes,
                },
            )
        }),
{
    law_a_summary_holds_each_once(c);
    let a = total_size("IDE agent helpers"@, c.ide_helpers.count, c.ide_helpers.rss_bytes);
    let b = total_size("orphaned helpers"@, c.orphans.orphan_count, c.orphans.orphan_rss_bytes);
    let m = total_size("managed agents"@, c.monitor_total.proc_count, c.monitor_total.rss_bytes);
    assert(is_total(c, a) && is_total(c, b) && is_total(c, m));
    assert(summary_of(c).consumers.contains(a) <==> a.count > 0 && a.rss_bytes > 0);
    assert(summary_of(c).consumers.contains(b) <==> b.count > 0 && b.rss_bytes > 0);
    assert(summary_of(c).consumers.contains(m) <==> m.count > 0 && m.rss_bytes > 0);
}

/// A summary begins with the biggest, and equal sizes are by name.
pub proof fn law_a_summary_begins_with_the_biggest(c: Census, i: int, j: int)
    requires
        0 <= i < j < summary_of(c).consumers.len(),
    ensures
        ({
            let s = summary_of(c).consumers;
            &&& s[i].rss_bytes >= s[j].rss_bytes
            &&& s[i].rss_bytes == s[j].rss_bytes ==> !sorts_before(s[j].name, s[i].name)
        }),
{
    law_a_summary_is_ranked(c);
    let s = summary_of(c).consumers;
    assert(!order::<ConsumerSize>()(s[j], s[i]));
}

} // verus!
