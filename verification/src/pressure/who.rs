//! Which processes are behind a finding.
//!
//! Naming the culprit is the action. The census already knows every name; this
//! ranks what it recorded and measures nothing of its own.
//!
//! - CPU is attributed by the recent rate, or where there is none yet by the
//!   cumulative rule: seconds used over the longest lifetime of the group, never
//!   a sum of percentages, which have different denominators.
//! - Memory is attributed by resident size: what a relaunch gives back.
//! - Stale sessions and orphans are attributed by what reaping them frees.
use vstd::prelude::*;

use super::config::{Dimension, PressureConfig};
use crate::census::{AgentSession, AppGroup, Census, CpuConsumer, MonitorAgent, OrphanProgram};
use crate::number::{real_of, Real, Standing};
use crate::sorting::{
    in_order, law_sorting, lemma_sorted_members, order, sort, sorted_by, weak_order, Ranked,
};
use crate::sys::capped;
use crate::text::{
    decimal, is_before, join, joined, lemma_sorts_before_irreflexive, lemma_sorts_before_total,
    lemma_sorts_before_transitive, push_decimal, same_text, sorts_before, views,
};

verus! {

broadcast use crate::text::lemma_views_push;

/// One named consumer behind a finding: a group of processes and what it costs.
#[derive(Clone, Debug, PartialEq, Eq)]
pub struct Consumer {
    pub name: String,
    /// Processes in the group.
    pub count: u32,
    /// The cost, worded: `7.7 GB`, `29% of one core`.
    pub detail: String,
}

#[verifier::ext_equal]
pub struct ConsumerView {
    pub name: Seq<char>,
    pub count: u32,
    pub detail: Seq<char>,
}

impl View for Consumer {
    type V = ConsumerView;

    open spec fn view(&self) -> ConsumerView {
        ConsumerView { name: self.name@, count: self.count, detail: self.detail@ }
    }
}

impl ConsumerView {
    /// `Chrome ×115 at 7.7 GB`
    pub open spec fn text(self) -> Seq<char> {
        self.name + " ×"@ + decimal(self.count as nat) + " at "@ + self.detail
    }
}

impl Consumer {
    /// The wording of one consumer inside the line: `Chrome ×115 at 7.7 GB`.
    pub fn to_text(&self) -> (r: String)
        ensures
            r@ == self@.text(),
    {
        let mut out = self.name.clone();
        out.append(" ×");
        push_decimal(&mut out, self.count as u64);
        out.append(" at ");
        out.append(self.detail.as_str());
        out
    }

    /// An equal consumer.
    pub fn copied(&self) -> (r: Consumer)
        ensures
            r@ == self@,
    {
        Consumer { name: self.name.clone(), count: self.count, detail: self.detail.clone() }
    }
}

/// The consumers in words, in order.
pub open spec fn texts(s: Seq<ConsumerView>) -> Seq<Seq<char>> {
    s.map_values(|c: ConsumerView| c.text())
}

/// `who: Chrome ×115 at 7.7 GB, Xcode ×8 at 2.1 GB`, or nothing when there is
/// nobody to name.
pub open spec fn line_of(s: Seq<ConsumerView>) -> Option<Seq<char>> {
    if s.len() == 0 {
        None
    } else {
        Some("who: "@ + joined(texts(s), ", "@))
    }
}

/// The consumers as one line. `None` when there is nobody to name, so that a
/// surface can leave the line out.
pub fn who_line(consumers: &[Consumer]) -> (r: Option<String>)
    ensures
        r is None <==> consumers@.len() == 0,
        r matches Some(line) ==> Some(line@) == line_of(views(consumers@)),
{
    if consumers.len() == 0 {
        return None;
    }
    let mut names: Vec<String> = Vec::new();
    let mut i: usize = 0;
    while i < consumers.len()
        invariant
            i <= consumers.len(),
            names.len() == i,
            forall|j: int| 0 <= j < i ==> (#[trigger] names@[j])@ == consumers@[j]@.text(),
        decreases consumers.len() - i,
    {
        names.push(consumers[i].to_text());
        i = i + 1;
    }
    assert(views(names@) =~= texts(views(consumers@)));
    let mut out = "who: ".to_owned();
    out.append(join(&names, ", ").as_str());
    Some(out)
}

/// What a suspect's measure counts.
#[derive(Clone, Copy, Debug, PartialEq, Eq, Structural)]
pub enum Cost {
    Bytes,
    PercentOfOneCore,
}

/// A candidate with its measure, so that ranking never depends on rounded
/// wording.
#[derive(Clone, Debug, PartialEq, Eq)]
pub struct Suspect {
    pub name: String,
    pub count: u32,
    pub measure: Real,
    pub cost: Cost,
}

#[verifier::ext_equal]
pub struct SuspectView {
    pub name: Seq<char>,
    pub count: u32,
    pub measure: Real,
    pub cost: Cost,
}

impl View for Suspect {
    type V = SuspectView;

    open spec fn view(&self) -> SuspectView {
        SuspectView { name: self.name@, count: self.count, measure: self.measure, cost: self.cost }
    }
}

/// The bit pattern of zero.
pub open spec fn zero() -> Real {
    Real { bits: 0 }
}

impl SuspectView {
    /// A group that costs nothing is no suspect.
    pub open spec fn costs(self) -> bool {
        self.count > 0 && zero().below(self.measure)
    }

    /// The cost in words, around the rendered measure.
    pub open spec fn detail(self, measure_text: Seq<char>) -> Seq<char> {
        match self.cost {
            Cost::Bytes => measure_text,
            Cost::PercentOfOneCore => measure_text + "% of one core"@,
        }
    }
}

impl Ranked for Suspect {
    /// Biggest measure first; equal measures by name, so that the line is the
    /// same for censuses that differ only in order.
    open spec fn goes_first(a: SuspectView, b: SuspectView) -> bool {
        match a.measure.standing(b.measure) {
            Standing::Above => true,
            Standing::Below => false,
            Standing::Same => sorts_before(a.name, b.name),
        }
    }

    fn is_first(&self, other: &Suspect) -> (r: bool) {
        match self.measure.stands(other.measure) {
            Standing::Above => true,
            Standing::Below => false,
            Standing::Same => is_before(self.name.as_str(), other.name.as_str()),
        }
    }
}

/// `s` with `x` added, if it costs anything.
pub open spec fn suspected(s: Seq<SuspectView>, x: SuspectView) -> Seq<SuspectView> {
    if x.costs() {
        s.push(x)
    } else {
        s
    }
}

fn suspect(out: &mut Vec<Suspect>, name: &str, count: u32, measure: Real, cost: Cost)
    ensures
        views(final(out)@) == suspected(
            views(old(out)@),
            (SuspectView { name: name@, count, measure, cost }),
        ),
{
    let none = Real { bits: 0 };
    if count > 0 && none.is_below(measure) {
        out.push(Suspect { name: name.to_owned(), count, measure, cost });
    }
}

/// The sessions of one program together.
#[derive(Clone, Debug)]
pub struct ProgramGroup {
    pub program: String,
    pub count: u32,
    pub rss_bytes: u64,
    /// The longest lifetime among them.
    pub life_secs: u64,
    /// The CPU seconds of each, in the order of the census.
    pub cpu_secs: Vec<Real>,
}

#[verifier::ext_equal]
pub struct GroupView {
    pub program: Seq<char>,
    pub count: u32,
    pub rss_bytes: u64,
    pub life_secs: u64,
    pub cpu_secs: Seq<Real>,
}

impl View for ProgramGroup {
    type V = GroupView;

    open spec fn view(&self) -> GroupView {
        GroupView {
            program: self.program@,
            count: self.count,
            rss_bytes: self.rss_bytes,
            life_secs: self.life_secs,
            cpu_secs: self.cpu_secs@,
        }
    }
}

pub open spec fn group_of(s: AgentSession) -> GroupView {
    GroupView {
        program: s.program@,
        count: 1,
        rss_bytes: s.rss_bytes,
        life_secs: s.age_secs,
        cpu_secs: seq![s.cpu_secs],
    }
}

/// A group with one more session in it.
pub open spec fn joined_by(g: GroupView, s: AgentSession) -> GroupView {
    GroupView {
        program: g.program,
        count: if g.count == u32::MAX {
            u32::MAX
        } else {
            (g.count + 1) as u32
        },
        rss_bytes: capped(g.rss_bytes + s.rss_bytes),
        life_secs: if s.age_secs > g.life_secs {
            s.age_secs
        } else {
            g.life_secs
        },
        cpu_secs: g.cpu_secs.push(s.cpu_secs),
    }
}

/// The groups with one more session in them: in its program's group, or in a new
/// one at the place of its name.
pub open spec fn credited(groups: Seq<GroupView>, s: AgentSession) -> Seq<GroupView>
    decreases groups.len(),
{
    if groups.len() == 0 || sorts_before(groups.last().program, s.program@) {
        groups.push(group_of(s))
    } else if groups.last().program == s.program@ {
        groups.drop_last().push(joined_by(groups.last(), s))
    } else {
        credited(groups.drop_last(), s).push(groups.last())
    }
}

/// The sessions by program, in the order of the names.
pub open spec fn grouped(s: Seq<AgentSession>, stale_only: bool) -> Seq<GroupView>
    decreases s.len(),
{
    if s.len() == 0 {
        Seq::empty()
    } else {
        let front = grouped(s.drop_last(), stale_only);
        if s.last().is_stale || !stale_only {
            credited(front, s.last())
        } else {
            front
        }
    }
}

proof fn lemma_credited_new(groups: Seq<GroupView>, s: AgentSession, at: int)
    requires
        0 <= at <= groups.len(),
        at > 0 ==> sorts_before(groups[at - 1].program, s.program@),
        forall|j: int|
            at <= j < groups.len() ==> (#[trigger] groups[j]).program != s.program@
                && !sorts_before(groups[j].program, s.program@),
    ensures
        credited(groups, s) == groups.insert(at, group_of(s)),
    decreases groups.len(),
{
    if groups.len() == at {
        assert(groups.push(group_of(s)) =~= groups.insert(at, group_of(s)));
    } else {
        lemma_credited_new(groups.drop_last(), s, at);
        assert(groups.drop_last().insert(at, group_of(s)).push(groups.last()) =~= groups.insert(
            at,
            group_of(s),
        ));
    }
}

proof fn lemma_credited_known(groups: Seq<GroupView>, s: AgentSession, at: int)
    requires
        0 <= at < groups.len(),
        groups[at].program == s.program@,
        forall|j: int|
            at < j < groups.len() ==> (#[trigger] groups[j]).program != s.program@
                && !sorts_before(groups[j].program, s.program@),
    ensures
        credited(groups, s) == groups.update(at, joined_by(groups[at], s)),
    decreases groups.len(),
{
    if groups.len() == at + 1 {
        lemma_sorts_before_irreflexive(s.program@);
        assert(groups.drop_last().push(joined_by(groups.last(), s)) =~= groups.update(
            at,
            joined_by(groups[at], s),
        ));
    } else {
        lemma_credited_known(groups.drop_last(), s, at);
        assert(groups.drop_last().update(at, joined_by(groups[at], s)).push(groups.last())
            =~= groups.update(at, joined_by(groups[at], s)));
    }
}

fn credit(groups: &mut Vec<ProgramGroup>, s: &AgentSession)
    ensures
        views(final(groups)@) == credited(views(old(groups)@), *s),
{
    let ghost before = groups@;
    let mut at: usize = groups.len();
    while at > 0 && !is_before(groups[at - 1].program.as_str(), s.program.as_str()) && !same_text(
        groups[at - 1].program.as_str(),
        s.program.as_str(),
    )
        invariant
            at <= groups.len(),
            groups@ == before,
            forall|j: int|
                at <= j < before.len() ==> (#[trigger] before[j]).program@ != s.program@
                    && !sorts_before(before[j].program@, s.program@),
        decreases at,
    {
        at = at - 1;
    }
    proof {
        let v = views(before);
        assert forall|j: int| at <= j < v.len() implies (#[trigger] v[j]).program != s.program@
            && !sorts_before(v[j].program, s.program@) by {
            assert(before[j].program@ != s.program@);
        }
        if at > 0 {
            assert(v[at - 1] == before[at - 1]@);
        }
    }
    if at > 0 && same_text(groups[at - 1].program.as_str(), s.program.as_str()) {
        let k: usize = at - 1;
        proof {
            lemma_credited_known(views(before), *s, k as int);
        }
        let mut cpu_secs: Vec<Real> = Vec::new();
        let mut i: usize = 0;
        while i < groups[k].cpu_secs.len()
            invariant
                k < groups.len(),
                groups@ == before,
                i <= before[k as int].cpu_secs.len(),
                cpu_secs@ == before[k as int].cpu_secs@.take(i as int),
            decreases before[k as int].cpu_secs.len() - i,
        {
            cpu_secs.push(groups[k].cpu_secs[i]);
            i = i + 1;
            assert(cpu_secs@ =~= before[k as int].cpu_secs@.take(i as int));
        }
        assert(cpu_secs@ =~= before[k as int].cpu_secs@);
        cpu_secs.push(s.cpu_secs);
        let g = &groups[k];
        let next = ProgramGroup {
            program: g.program.clone(),
            count: g.count.saturating_add(1),
            rss_bytes: g.rss_bytes.saturating_add(s.rss_bytes),
            life_secs: if s.age_secs > g.life_secs {
                s.age_secs
            } else {
                g.life_secs
            },
            cpu_secs,
        };
        assert(next@ =~= joined_by(before[k as int]@, *s));
        groups.set(k, next);
        assert(views(groups@) =~= views(before).update(k as int, next@));
    } else {
        proof {
            lemma_credited_new(views(before), *s, at as int);
        }
        let mut cpu_secs: Vec<Real> = Vec::new();
        cpu_secs.push(s.cpu_secs);
        let next = ProgramGroup {
            program: s.program.clone(),
            count: 1,
            rss_bytes: s.rss_bytes,
            life_secs: s.age_secs,
            cpu_secs,
        };
        assert(next@ =~= group_of(*s));
        groups.insert(at, next);
        assert(views(groups@) =~= views(before).insert(at as int, next@));
    }
}

/// The agent sessions grouped by program, in the order of the names: all of them,
/// or the stale ones.
pub fn sessions_by_program(census: &Census, stale_only: bool) -> (r: Vec<ProgramGroup>)
    ensures
        views(r@) == grouped(census.agent_sessions@, stale_only),
{
    let sessions = &census.agent_sessions;
    let mut groups: Vec<ProgramGroup> = Vec::new();
    let mut i: usize = 0;
    assert(views(groups@) =~= Seq::empty());
    while i < sessions.len()
        invariant
            i <= sessions.len(),
            views(groups@) == grouped(sessions@.take(i as int), stale_only),
        decreases sessions.len() - i,
    {
        assert(sessions@.take(i + 1).drop_last() =~= sessions@.take(i as int));
        if sessions[i].is_stale || !stale_only {
            credit(&mut groups, &sessions[i]);
        }
        i = i + 1;
    }
    assert(sessions@.take(i as int) =~= sessions@);
    groups
}

/// App groups by resident size.
pub open spec fn app_suspects(s: Seq<AppGroup>) -> Seq<SuspectView>
    decreases s.len(),
{
    if s.len() == 0 {
        Seq::empty()
    } else {
        suspected(
            app_suspects(s.drop_last()),
            SuspectView {
                name: s.last().name@,
                count: s.last().proc_count,
                measure: real_of(s.last().rss_bytes as nat),
                cost: Cost::Bytes,
            },
        )
    }
}

/// Session groups by resident size, added to `base`.
pub open spec fn session_suspects(base: Seq<SuspectView>, g: Seq<GroupView>) -> Seq<SuspectView>
    decreases g.len(),
{
    if g.len() == 0 {
        base
    } else {
        suspected(
            session_suspects(base, g.drop_last()),
            SuspectView {
                name: g.last().program,
                count: g.last().count,
                measure: real_of(g.last().rss_bytes as nat),
                cost: Cost::Bytes,
            },
        )
    }
}

/// A total the census keeps, as a suspect.
pub open spec fn total_suspect(name: Seq<char>, count: u32, rss_bytes: u64) -> SuspectView {
    SuspectView { name, count, measure: real_of(rss_bytes as nat), cost: Cost::Bytes }
}

/// Everything the census sized.
pub open spec fn sized(c: Census) -> Seq<SuspectView> {
    let sessions = session_suspects(app_suspects(c.app_groups@), grouped(c.agent_sessions@, false));
    let helpers = suspected(
        sessions,
        total_suspect("IDE agent helpers"@, c.ide_helpers.count, c.ide_helpers.rss_bytes),
    );
    let orphans = suspected(
        helpers,
        total_suspect("orphaned helpers"@, c.orphans.orphan_count, c.orphans.orphan_rss_bytes),
    );
    suspected(
        orphans,
        total_suspect("managed agents"@, c.monitor_total.proc_count, c.monitor_total.rss_bytes),
    )
}

/// CPU consumers by their recent rate.
pub open spec fn recent(s: Seq<CpuConsumer>) -> Seq<SuspectView>
    decreases s.len(),
{
    if s.len() == 0 {
        Seq::empty()
    } else {
        suspected(
            recent(s.drop_last()),
            SuspectView {
                name: s.last().name@,
                count: s.last().proc_count,
                measure: s.last().percent_of_one_core,
                cost: Cost::PercentOfOneCore,
            },
        )
    }
}

/// Session groups by the rate over their lifetime, groups too young for one left
/// out. `rates` goes along with the groups.
pub open spec fn lifetime(g: Seq<GroupView>, rates: Seq<Real>, min_life_secs: u64) -> Seq<SuspectView>
    decreases g.len(),
{
    if g.len() == 0 {
        Seq::empty()
    } else {
        let front = lifetime(g.drop_last(), rates, min_life_secs);
        let last = g.last();
        if last.life_secs >= min_life_secs && last.life_secs > 0 && g.len() <= rates.len() {
            suspected(
                front,
                SuspectView {
                    name: last.program,
                    count: last.count,
                    measure: rates[g.len() - 1],
                    cost: Cost::PercentOfOneCore,
                },
            )
        } else {
            front
        }
    }
}

/// CPU by the cumulative rule: the sessions, and the managed agents as one.
pub open spec fn cumulative(c: Census, rates: Seq<Real>, min_life_secs: u64) -> Seq<SuspectView> {
    let sessions = lifetime(grouped(c.agent_sessions@, false), rates, min_life_secs);
    if c.monitor_total.longest_life_secs >= min_life_secs {
        suspected(
            sessions,
            SuspectView {
                name: "managed agents"@,
                count: c.monitor_total.proc_count,
                measure: c.monitor_total.percent_of_one_core,
                cost: Cost::PercentOfOneCore,
            },
        )
    } else {
        sessions
    }
}

/// Orphans by program, in the order of the census.
pub open spec fn orphaned(s: Seq<OrphanProgram>) -> Seq<SuspectView>
    decreases s.len(),
{
    if s.len() == 0 {
        Seq::empty()
    } else {
        suspected(
            orphaned(s.drop_last()),
            SuspectView {
                name: s.last().program@,
                count: s.last().count,
                measure: real_of(s.last().rss_bytes as nat),
                cost: Cost::Bytes,
            },
        )
    }
}

/// Managed-agent groups by their own rate, young ones left out.
pub open spec fn managed(s: Seq<MonitorAgent>, min_life_secs: u64) -> Seq<SuspectView>
    decreases s.len(),
{
    if s.len() == 0 {
        Seq::empty()
    } else {
        let front = managed(s.drop_last(), min_life_secs);
        if s.last().longest_life_secs >= min_life_secs {
            suspected(
                front,
                SuspectView {
                    name: s.last().name@,
                    count: s.last().proc_count,
                    measure: s.last().percent_of_one_core,
                    cost: Cost::PercentOfOneCore,
                },
            )
        } else {
            front
        }
    }
}

/// Suspects in order.
pub open spec fn by_cost(s: Seq<SuspectView>) -> Seq<SuspectView> {
    sorted_by(s, order::<Suspect>())
}

/// Everybody behind a dimension, worst first.
pub open spec fn lineup(
    d: Dimension,
    c: Census,
    rates: Seq<Real>,
    min_life_secs: u64,
) -> Seq<SuspectView> {
    match d {
        Dimension::Memory
        | Dimension::Swap
        | Dimension::KernelPressure
        | Dimension::Thrash
        | Dimension::KernelFree
        | Dimension::Compressor
        | Dimension::Jetsam => by_cost(sized(c)),
        Dimension::Cpu | Dimension::Thermal => if c.cpu_consumers@.len() > 0 {
            by_cost(recent(c.cpu_consumers@))
        } else {
            by_cost(cumulative(c, rates, min_life_secs))
        },
        Dimension::Agents => by_cost(
            session_suspects(Seq::empty(), grouped(c.agent_sessions@, true)),
        ),
        Dimension::Orphans => orphaned(c.orphans.orphans_by_program@),
        Dimension::Corporate => by_cost(managed(c.monitor_agents@, min_life_secs)),
        Dimension::Disk | Dimension::Uptime => Seq::empty(),
    }
}

/// The first `n` of a sequence, or all there are.
pub open spec fn at_most<V>(s: Seq<V>, n: nat) -> Seq<V> {
    if n < s.len() {
        s.take(n as int)
    } else {
        s
    }
}

/// Those behind a dimension who are named.
pub open spec fn suspects_of(
    d: Dimension,
    c: Census,
    rates: Seq<Real>,
    config: PressureConfig,
) -> Seq<SuspectView> {
    at_most(lineup(d, c, rates, config.corporate_min_life_secs), config.who_limit as nat)
}

/// The `i`th text, or none.
pub open spec fn text_at(texts: Seq<String>, i: int) -> Seq<char> {
    if 0 <= i < texts.len() {
        texts[i]@
    } else {
        Seq::empty()
    }
}

/// Suspects with their costs in words: the consumers behind a finding.
pub open spec fn worded(s: Seq<SuspectView>, measures: Seq<String>) -> Seq<ConsumerView> {
    Seq::new(
        s.len(),
        |i: int|
            ConsumerView {
                name: s[i].name,
                count: s[i].count,
                detail: s[i].detail(text_at(measures, i)),
            },
    )
}

fn push_sessions(out: &mut Vec<Suspect>, groups: &Vec<ProgramGroup>)
    ensures
        views(final(out)@) == session_suspects(views(old(out)@), views(groups@)),
{
    let ghost base = views(out@);
    let mut i: usize = 0;
    while i < groups.len()
        invariant
            i <= groups.len(),
            views(out@) == session_suspects(base, views(groups@).take(i as int)),
        decreases groups.len() - i,
    {
        assert(views(groups@).take(i + 1).drop_last() =~= views(groups@).take(i as int));
        let g = &groups[i];
        suspect(out, g.program.as_str(), g.count, Real::from_u64(g.rss_bytes), Cost::Bytes);
        i = i + 1;
    }
    assert(views(groups@).take(i as int) =~= views(groups@));
}

/// Memory-shaped dimensions: everything the census sized, by resident size.
fn by_resident_size(census: &Census) -> (r: Vec<Suspect>)
    ensures
        views(r@) == by_cost(sized(*census)),
{
    let mut out: Vec<Suspect> = Vec::new();
    let apps = &census.app_groups;
    let mut i: usize = 0;
    assert(views(out@) =~= Seq::empty());
    while i < apps.len()
        invariant
            i <= apps.len(),
            views(out@) == app_suspects(apps@.take(i as int)),
        decreases apps.len() - i,
    {
        assert(apps@.take(i + 1).drop_last() =~= apps@.take(i as int));
        let a = &apps[i];
        suspect(&mut out, a.name.as_str(), a.proc_count, Real::from_u64(a.rss_bytes), Cost::Bytes);
        i = i + 1;
    }
    assert(apps@.take(i as int) =~= apps@);
    push_sessions(&mut out, &sessions_by_program(census, false));
    suspect(
        &mut out,
        "IDE agent helpers",
        census.ide_helpers.count,
        Real::from_u64(census.ide_helpers.rss_bytes),
        Cost::Bytes,
    );
    suspect(
        &mut out,
        "orphaned helpers",
        census.orphans.orphan_count,
        Real::from_u64(census.orphans.orphan_rss_bytes),
        Cost::Bytes,
    );
    suspect(
        &mut out,
        "managed agents",
        census.monitor_total.proc_count,
        Real::from_u64(census.monitor_total.rss_bytes),
        Cost::Bytes,
    );
    sort(out)
}

/// CPU by recent rate: what is hot now. `None` when the census could not measure
/// one yet, which is not the same as nobody.
fn by_recent_cpu_rate(census: &Census) -> (r: Option<Vec<Suspect>>)
    ensures
        r is None <==> census.cpu_consumers@.len() == 0,
        r matches Some(s) ==> views(s@) == by_cost(recent(census.cpu_consumers@)),
{
    let all = &census.cpu_consumers;
    if all.len() == 0 {
        return None;
    }
    let mut out: Vec<Suspect> = Vec::new();
    let mut i: usize = 0;
    assert(views(out@) =~= Seq::empty());
    while i < all.len()
        invariant
            i <= all.len(),
            views(out@) == recent(all@.take(i as int)),
        decreases all.len() - i,
    {
        assert(all@.take(i + 1).drop_last() =~= all@.take(i as int));
        let c = &all[i];
        suspect(
            &mut out,
            c.name.as_str(),
            c.proc_count,
            c.percent_of_one_core,
            Cost::PercentOfOneCore,
        );
        i = i + 1;
    }
    assert(all@.take(i as int) =~= all@);
    Some(sort(out))
}

/// CPU by the cumulative rule.
fn by_cumulative_cpu(census: &Census, rates: &Vec<Real>, min_life_secs: u64) -> (r: Vec<Suspect>)
    ensures
        views(r@) == by_cost(cumulative(*census, rates@, min_life_secs)),
{
    let groups = sessions_by_program(census, false);
    let ghost all = views(groups@);
    let mut out: Vec<Suspect> = Vec::new();
    let mut i: usize = 0;
    assert(views(out@) =~= Seq::empty());
    while i < groups.len()
        invariant
            i <= groups.len(),
            all == views(groups@),
            views(out@) == lifetime(all.take(i as int), rates@, min_life_secs),
        decreases groups.len() - i,
    {
        assert(all.take(i + 1).drop_last() =~= all.take(i as int));
        let g = &groups[i];
        // A ratio over a lifetime of seconds is a startup burst, not a rate.
        if g.life_secs >= min_life_secs && g.life_secs > 0 && i < rates.len() {
            suspect(&mut out, g.program.as_str(), g.count, rates[i], Cost::PercentOfOneCore);
        }
        i = i + 1;
    }
    assert(all.take(i as int) =~= all);
    if census.monitor_total.longest_life_secs >= min_life_secs {
        suspect(
            &mut out,
            "managed agents",
            census.monitor_total.proc_count,
            census.monitor_total.percent_of_one_core,
            Cost::PercentOfOneCore,
        );
    }
    sort(out)
}

/// Stale sessions by program, sized by what reaping them frees.
fn stale_sessions_by_program(census: &Census) -> (r: Vec<Suspect>)
    ensures
        views(r@) == by_cost(
            session_suspects(Seq::empty(), grouped(census.agent_sessions@, true)),
        ),
{
    let mut out: Vec<Suspect> = Vec::new();
    assert(views(out@) =~= Seq::empty());
    push_sessions(&mut out, &sessions_by_program(census, true));
    sort(out)
}

/// Orphans by program, in the order of the census: the count is what the
/// dimension bands on, and the census has the largest first.
fn orphans_by_program(census: &Census) -> (r: Vec<Suspect>)
    ensures
        views(r@) == orphaned(census.orphans.orphans_by_program@),
{
    let all = &census.orphans.orphans_by_program;
    let mut out: Vec<Suspect> = Vec::new();
    let mut i: usize = 0;
    assert(views(out@) =~= Seq::empty());
    while i < all.len()
        invariant
            i <= all.len(),
            views(out@) == orphaned(all@.take(i as int)),
        decreases all.len() - i,
    {
        assert(all@.take(i + 1).drop_last() =~= all@.take(i as int));
        let p = &all[i];
        suspect(&mut out, p.program.as_str(), p.count, Real::from_u64(p.rss_bytes), Cost::Bytes);
        i = i + 1;
    }
    assert(all@.take(i as int) =~= all@);
    out
}

/// Managed-agent groups by their own rate. Ranked, never summed.
fn managed_agents_by_rate(census: &Census, min_life_secs: u64) -> (r: Vec<Suspect>)
    ensures
        views(r@) == by_cost(managed(census.monitor_agents@, min_life_secs)),
{
    let all = &census.monitor_agents;
    let mut out: Vec<Suspect> = Vec::new();
    let mut i: usize = 0;
    assert(views(out@) =~= Seq::empty());
    while i < all.len()
        invariant
            i <= all.len(),
            views(out@) == managed(all@.take(i as int), min_life_secs),
        decreases all.len() - i,
    {
        assert(all@.take(i + 1).drop_last() =~= all@.take(i as int));
        let a = &all[i];
        if a.longest_life_secs >= min_life_secs {
            suspect(
                &mut out,
                a.name.as_str(),
                a.proc_count,
                a.percent_of_one_core,
                Cost::PercentOfOneCore,
            );
        }
        i = i + 1;
    }
    assert(all@.take(i as int) =~= all@);
    sort(out)
}

/// Those behind a dimension, worst first, at most `who_limit` of them. `rates`
/// holds the lifetime rate of each group of `sessions_by_program`.
pub fn suspects(
    d: Dimension,
    census: &Census,
    rates: &Vec<Real>,
    config: &PressureConfig,
) -> (r: Vec<Suspect>)
    ensures
        views(r@) == suspects_of(d, *census, rates@, *config),
{
    let min_life_secs: u64 = config.corporate_min_life_secs;
    let mut out: Vec<Suspect> = match d {
        Dimension::Memory
        | Dimension::Swap
        | Dimension::KernelPressure
        | Dimension::Thrash
        | Dimension::KernelFree
        | Dimension::Compressor
        | Dimension::Jetsam => by_resident_size(census),
        // Heat is the work: whoever uses the CPU makes it hot.
        Dimension::Cpu | Dimension::Thermal => match by_recent_cpu_rate(census) {
            Some(s) => s,
            None => by_cumulative_cpu(census, rates, min_life_secs),
        },
        Dimension::Agents => stale_sessions_by_program(census),
        Dimension::Orphans => orphans_by_program(census),
        Dimension::Corporate => managed_agents_by_rate(census, min_life_secs),
        Dimension::Disk | Dimension::Uptime => Vec::new(),
    };
    let ghost all = out@;
    assert(views(all) =~= lineup(d, *census, rates@, min_life_secs));
    if config.who_limit < out.len() {
        out.truncate(config.who_limit);
        assert(views(out@) =~= views(all).take(config.who_limit as int));
    }
    out
}

/// The names behind a dimension, worst first. `rates` holds the lifetime rate of
/// each group of `sessions_by_program`, and `measures` the measure of each of the
/// `suspects` in words.
///
/// Empty for dimensions that have no process behind them.
pub fn attribute(
    d: Dimension,
    census: &Census,
    rates: &Vec<Real>,
    measures: &Vec<String>,
    config: &PressureConfig,
) -> (r: Vec<Consumer>)
    ensures
        views(r@) == worded(suspects_of(d, *census, rates@, *config), measures@),
{
    let named = suspects(d, census, rates, config);
    let ghost all = views(named@);
    let mut out: Vec<Consumer> = Vec::new();
    let mut i: usize = 0;
    while i < named.len()
        invariant
            i <= named.len(),
            all == views(named@),
            views(out@) == worded(all, measures@).take(i as int),
        decreases named.len() - i,
    {
        let s = &named[i];
        let mut detail = if i < measures.len() {
            measures[i].clone()
        } else {
            String::new()
        };
        match s.cost {
            Cost::Bytes => {},
            Cost::PercentOfOneCore => detail.append("% of one core"),
        }
        let c = Consumer { name: s.name.clone(), count: s.count, detail };
        assert(all[i as int] == s@);
        out.push(c);
        i = i + 1;
        assert(views(out@) =~= worded(all, measures@).take(i as int));
    }
    assert(views(out@) =~= worded(all, measures@));
    out
}

/// Whoever costs something can be ranked.
pub open spec fn costly() -> spec_fn(SuspectView) -> bool {
    |s: SuspectView| s.costs()
}

/// Everybody on a list costs something.
pub open spec fn all_costly(s: Seq<SuspectView>) -> bool {
    forall|i: int| 0 <= i < s.len() ==> (#[trigger] s[i]).costs()
}

/// Among those who cost something the order never contradicts itself.
pub proof fn lemma_suspect_order()
    ensures
        weak_order(order::<Suspect>(), costly()),
{
    let first = order::<Suspect>();
    assert forall|a: SuspectView, b: SuspectView|
        a.costs() && b.costs() && #[trigger] first(a, b) implies !first(b, a) by {
        if a.measure.standing(b.measure) == Standing::Same {
            if sorts_before(b.name, a.name) {
                lemma_sorts_before_transitive(a.name, b.name, a.name);
                lemma_sorts_before_irreflexive(a.name);
            }
        }
    }
    assert forall|a: SuspectView, b: SuspectView, c: SuspectView|
        a.costs() && b.costs() && c.costs() && !(#[trigger] first(a, b)) && !(#[trigger] first(
            b,
            c,
        )) implies !first(a, c) by {
        if a.measure.standing(b.measure) == Standing::Same && b.measure.standing(c.measure)
            == Standing::Same {
            lemma_sorts_before_total(a.name, b.name);
            lemma_sorts_before_total(b.name, c.name);
            lemma_sorts_before_total(a.name, c.name);
            if sorts_before(a.name, c.name) {
                if b.name == a.name {
                } else if c.name == b.name {
                } else {
                    lemma_sorts_before_transitive(c.name, b.name, a.name);
                    lemma_sorts_before_transitive(a.name, c.name, a.name);
                    lemma_sorts_before_irreflexive(a.name);
                }
            }
        }
    }
}

proof fn lemma_apps_costly(s: Seq<AppGroup>)
    ensures
        all_costly(app_suspects(s)),
    decreases s.len(),
{
    if s.len() > 0 {
        lemma_apps_costly(s.drop_last());
    }
}

proof fn lemma_sessions_costly(base: Seq<SuspectView>, g: Seq<GroupView>)
    requires
        all_costly(base),
    ensures
        all_costly(session_suspects(base, g)),
    decreases g.len(),
{
    if g.len() > 0 {
        lemma_sessions_costly(base, g.drop_last());
    }
}

proof fn lemma_recent_costly(s: Seq<CpuConsumer>)
    ensures
        all_costly(recent(s)),
    decreases s.len(),
{
    if s.len() > 0 {
        lemma_recent_costly(s.drop_last());
    }
}

proof fn lemma_lifetime_costly(g: Seq<GroupView>, rates: Seq<Real>, min_life_secs: u64)
    ensures
        all_costly(lifetime(g, rates, min_life_secs)),
    decreases g.len(),
{
    if g.len() > 0 {
        lemma_lifetime_costly(g.drop_last(), rates, min_life_secs);
    }
}

proof fn lemma_orphaned_costly(s: Seq<OrphanProgram>)
    ensures
        all_costly(orphaned(s)),
    decreases s.len(),
{
    if s.len() > 0 {
        lemma_orphaned_costly(s.drop_last());
    }
}

proof fn lemma_managed_costly(s: Seq<MonitorAgent>, min_life_secs: u64)
    ensures
        all_costly(managed(s, min_life_secs)),
    decreases s.len(),
{
    if s.len() > 0 {
        lemma_managed_costly(s.drop_last(), min_life_secs);
    }
}

/// Nobody who costs nothing is a candidate.
pub proof fn lemma_candidates_costly(c: Census, rates: Seq<Real>, min_life_secs: u64)
    ensures
        all_costly(sized(c)),
        all_costly(recent(c.cpu_consumers@)),
        all_costly(cumulative(c, rates, min_life_secs)),
        all_costly(session_suspects(Seq::empty(), grouped(c.agent_sessions@, true))),
        all_costly(managed(c.monitor_agents@, min_life_secs)),
{
    lemma_apps_costly(c.app_groups@);
    lemma_sessions_costly(app_suspects(c.app_groups@), grouped(c.agent_sessions@, false));
    lemma_sessions_costly(Seq::empty(), grouped(c.agent_sessions@, true));
    lemma_recent_costly(c.cpu_consumers@);
    lemma_lifetime_costly(grouped(c.agent_sessions@, false), rates, min_life_secs);
    lemma_managed_costly(c.monitor_agents@, min_life_secs);
}

proof fn lemma_by_cost(s: Seq<SuspectView>)
    requires
        all_costly(s),
    ensures
        in_order(by_cost(s), order::<Suspect>()),
        by_cost(s).to_multiset() == s.to_multiset(),
        all_costly(by_cost(s)),
{
    lemma_suspect_order();
    assert forall|i: int| 0 <= i < s.len() implies costly()(#[trigger] s[i]) by {
        assert(s[i].costs());
    }
    law_sorting(s, order::<Suspect>(), costly());
    lemma_sorted_members(s, order::<Suspect>());
    assert forall|i: int| 0 <= i < by_cost(s).len() implies (#[trigger] by_cost(s)[i]).costs() by {
        assert(s.contains(by_cost(s)[i]));
    }
}

/// Nobody is named who costs nothing, and but for orphans, who keep the order of
/// the census, nobody is named after somebody cheaper.
pub proof fn law_the_lineup_is_ranked(
    d: Dimension,
    c: Census,
    rates: Seq<Real>,
    min_life_secs: u64,
)
    ensures
        all_costly(lineup(d, c, rates, min_life_secs)),
        d != Dimension::Orphans ==> in_order(
            lineup(d, c, rates, min_life_secs),
            order::<Suspect>(),
        ),
{
    lemma_candidates_costly(c, rates, min_life_secs);
    lemma_orphaned_costly(c.orphans.orphans_by_program@);
    lemma_by_cost(sized(c));
    lemma_by_cost(recent(c.cpu_consumers@));
    lemma_by_cost(cumulative(c, rates, min_life_secs));
    lemma_by_cost(session_suspects(Seq::empty(), grouped(c.agent_sessions@, true)));
    lemma_by_cost(managed(c.monitor_agents@, min_life_secs));
}

/// No more are named than the limit.
pub proof fn law_the_line_is_short(
    d: Dimension,
    c: Census,
    rates: Seq<Real>,
    config: PressureConfig,
    measures: Seq<String>,
)
    ensures
        worded(suspects_of(d, c, rates, config), measures).len() <= config.who_limit,
{
}

/// Disk and uptime have no process behind them.
pub proof fn law_nobody_is_behind_disk_or_uptime(
    c: Census,
    rates: Seq<Real>,
    config: PressureConfig,
)
    ensures
        suspects_of(Dimension::Disk, c, rates, config).len() == 0,
        suspects_of(Dimension::Uptime, c, rates, config).len() == 0,
{
}

/// How many of the sessions that count are of a program.
pub open spec fn sessions_of(s: Seq<AgentSession>, stale_only: bool, program: Seq<char>) -> nat
    decreases s.len(),
{
    if s.len() == 0 {
        0
    } else {
        sessions_of(s.drop_last(), stale_only, program) + if (s.last().is_stale || !stale_only)
            && s.last().program@ == program {
            1nat
        } else {
            0nat
        }
    }
}

/// The resident bytes of the sessions that count of a program.
pub open spec fn resident_of(s: Seq<AgentSession>, stale_only: bool, program: Seq<char>) -> int
    decreases s.len(),
{
    if s.len() == 0 {
        0
    } else {
        resident_of(s.drop_last(), stale_only, program) + if (s.last().is_stale || !stale_only)
            && s.last().program@ == program {
            s.last().rss_bytes as int
        } else {
            0
        }
    }
}

/// The longest lifetime among the sessions that count of a program.
pub open spec fn longest_of(s: Seq<AgentSession>, stale_only: bool, program: Seq<char>) -> u64
    decreases s.len(),
{
    if s.len() == 0 {
        0
    } else {
        let front = longest_of(s.drop_last(), stale_only, program);
        if (s.last().is_stale || !stale_only) && s.last().program@ == program && s.last().age_secs
            > front {
            s.last().age_secs
        } else {
            front
        }
    }
}

/// The groups ascend by name, so that each program has one.
pub open spec fn ascending(g: Seq<GroupView>) -> bool {
    forall|i: int, j: int|
        0 <= i < j < g.len() ==> sorts_before((#[trigger] g[i]).program, (#[trigger] g[j]).program)
}

/// What a group holds, next to what it should hold.
pub open spec fn accounts_for(g: GroupView, s: Seq<AgentSession>, stale_only: bool) -> bool {
    &&& sessions_of(s, stale_only, g.program) > 0
    &&& g.count == (if sessions_of(s, stale_only, g.program) > u32::MAX {
        u32::MAX as nat
    } else {
        sessions_of(s, stale_only, g.program)
    })
    &&& g.rss_bytes == capped(resident_of(s, stale_only, g.program))
    &&& g.life_secs == longest_of(s, stale_only, g.program)
}

/// Whether a program has a group.
pub open spec fn has_group(g: Seq<GroupView>, program: Seq<char>) -> bool {
    exists|i: int| 0 <= i < g.len() && (#[trigger] g[i]).program == program
}

pub proof fn lemma_resident_is_positive(s: Seq<AgentSession>, stale_only: bool, program: Seq<char>)
    ensures
        resident_of(s, stale_only, program) >= 0,
        sessions_of(s, stale_only, program) == 0 ==> resident_of(s, stale_only, program) == 0
            && longest_of(s, stale_only, program) == 0,
    decreases s.len(),
{
    if s.len() > 0 {
        lemma_resident_is_positive(s.drop_last(), stale_only, program);
    }
}

/// The effect of one more session on groups that ascend.
proof fn lemma_credited(groups: Seq<GroupView>, s: AgentSession)
    requires
        ascending(groups),
    ensures
        ascending(credited(groups, s)),
        forall|i: int|
            0 <= i < credited(groups, s).len() ==> {
                let g = #[trigger] credited(groups, s)[i];
                ||| groups.contains(g) && g.program != s.program@
                ||| g == group_of(s) && !has_group(groups, s.program@)
                ||| exists|k: int|
                    0 <= k < groups.len() && (#[trigger] groups[k]).program == s.program@ && g
                        == joined_by(groups[k], s)
            },
        forall|p: Seq<char>| #[trigger]
            has_group(credited(groups, s), p) <==> has_group(groups, p) || p == s.program@,
    decreases groups.len(),
{
    let r = credited(groups, s);
    if groups.len() == 0 || sorts_before(groups.last().program, s.program@) {
        assert forall|i: int| 0 <= i < groups.len() implies sorts_before(
            (#[trigger] groups[i]).program,
            s.program@,
        ) by {
            if i < groups.len() - 1 {
                assert(sorts_before(groups[i].program, groups[groups.len() - 1].program));
                lemma_sorts_before_transitive(
                    groups[i].program,
                    groups.last().program,
                    s.program@,
                );
            }
        }
        assert(!has_group(groups, s.program@)) by {
            if has_group(groups, s.program@) {
                let k = choose|k: int|
                    0 <= k < groups.len() && (#[trigger] groups[k]).program == s.program@;
                lemma_sorts_before_irreflexive(s.program@);
            }
        }
        assert forall|i: int| 0 <= i < r.len() implies ({
            let g = #[trigger] r[i];
            ||| groups.contains(g) && g.program != s.program@
            ||| g == group_of(s) && !has_group(groups, s.program@)
            ||| exists|k: int|
                0 <= k < groups.len() && (#[trigger] groups[k]).program == s.program@ && g
                    == joined_by(groups[k], s)
        }) by {
            if i < groups.len() {
                assert(groups[i] == r[i]);
                assert(groups.contains(r[i]));
                lemma_sorts_before_irreflexive(s.program@);
            }
        }
        assert forall|p: Seq<char>| #[trigger] has_group(r, p) <==> has_group(groups, p) || p
            == s.program@ by {
            if has_group(groups, p) {
                let k = choose|k: int| 0 <= k < groups.len() && (#[trigger] groups[k]).program == p;
                assert(r[k] == groups[k]);
            }
            if p == s.program@ {
                assert(r[groups.len() as int].program == p);
            }
            if has_group(r, p) {
                let k = choose|k: int| 0 <= k < r.len() && (#[trigger] r[k]).program == p;
                if k < groups.len() {
                    assert(groups[k] == r[k]);
                }
            }
        }
    } else if groups.last().program == s.program@ {
        let last = groups.len() - 1;
        assert forall|i: int, j: int| 0 <= i < j < r.len() implies sorts_before(
            (#[trigger] r[i]).program,
            (#[trigger] r[j]).program,
        ) by {
            assert(sorts_before(groups[i].program, groups[j].program));
        }
        assert forall|i: int| 0 <= i < r.len() implies ({
            let g = #[trigger] r[i];
            ||| groups.contains(g) && g.program != s.program@
            ||| g == group_of(s) && !has_group(groups, s.program@)
            ||| exists|k: int|
                0 <= k < groups.len() && (#[trigger] groups[k]).program == s.program@ && g
                    == joined_by(groups[k], s)
        }) by {
            if i < last {
                assert(groups[i] == r[i]);
                assert(groups.contains(r[i]));
                assert(sorts_before(groups[i].program, groups[last].program));
                lemma_sorts_before_irreflexive(s.program@);
            } else {
                assert(groups[last].program == s.program@ && r[i] == joined_by(groups[last], s));
            }
        }
        assert forall|p: Seq<char>| #[trigger] has_group(r, p) <==> has_group(groups, p) || p
            == s.program@ by {
            if has_group(groups, p) {
                let k = choose|k: int| 0 <= k < groups.len() && (#[trigger] groups[k]).program == p;
                assert(r[k].program == groups[k].program);
            }
            if p == s.program@ {
                assert(r[last].program == p);
            }
            if has_group(r, p) {
                let k = choose|k: int| 0 <= k < r.len() && (#[trigger] r[k]).program == p;
                assert(groups[k].program == r[k].program);
            }
        }
    } else {
        let front = groups.drop_last();
        let top = groups.last();
        assert(ascending(front)) by {
            assert forall|i: int, j: int| 0 <= i < j < front.len() implies sorts_before(
                (#[trigger] front[i]).program,
                (#[trigger] front[j]).program,
            ) by {
                assert(sorts_before(groups[i].program, groups[j].program));
            }
        }
        lemma_credited(front, s);
        let c = credited(front, s);
        lemma_sorts_before_total(top.program, s.program@);
        assert forall|i: int| 0 <= i < c.len() implies sorts_before(
            (#[trigger] c[i]).program,
            top.program,
        ) by {
            let g = c[i];
            if front.contains(g) {
                let k = choose|k: int| 0 <= k < front.len() && front[k] == g;
                assert(sorts_before(groups[k].program, groups[groups.len() - 1].program));
            }
        }
        assert forall|i: int, j: int| 0 <= i < j < r.len() implies sorts_before(
            (#[trigger] r[i]).program,
            (#[trigger] r[j]).program,
        ) by {
            if j < c.len() {
                assert(sorts_before(c[i].program, c[j].program));
            } else {
                assert(sorts_before(c[i].program, top.program));
            }
        }
        assert(has_group(front, s.program@) <==> has_group(groups, s.program@)) by {
            if has_group(front, s.program@) {
                let k = choose|k: int|
                    0 <= k < front.len() && (#[trigger] front[k]).program == s.program@;
                assert(groups[k] == front[k]);
            }
            if has_group(groups, s.program@) {
                let k = choose|k: int|
                    0 <= k < groups.len() && (#[trigger] groups[k]).program == s.program@;
                assert(front[k] == groups[k]);
            }
        }
        assert forall|i: int| 0 <= i < r.len() implies ({
            let g = #[trigger] r[i];
            ||| groups.contains(g) && g.program != s.program@
            ||| g == group_of(s) && !has_group(groups, s.program@)
            ||| exists|k: int|
                0 <= k < groups.len() && (#[trigger] groups[k]).program == s.program@ && g
                    == joined_by(groups[k], s)
        }) by {
            if i < c.len() {
                let g = c[i];
                assert(r[i] == g);
                if front.contains(g) && g.program != s.program@ {
                    let k = choose|k: int| 0 <= k < front.len() && front[k] == g;
                    assert(groups[k] == g);
                } else if g == group_of(s) && !has_group(front, s.program@) {
                } else {
                    let k = choose|k: int|
                        0 <= k < front.len() && (#[trigger] front[k]).program == s.program@ && g
                            == joined_by(front[k], s);
                    assert(groups[k].program == s.program@ && g == joined_by(groups[k], s));
                }
            } else {
                assert(groups[groups.len() - 1] == r[i]);
            }
        }
        assert forall|p: Seq<char>| #[trigger] has_group(r, p) <==> has_group(groups, p) || p
            == s.program@ by {
            assert(has_group(c, p) <==> has_group(front, p) || p == s.program@);
            if has_group(groups, p) {
                let k = choose|k: int| 0 <= k < groups.len() && (#[trigger] groups[k]).program == p;
                if k < front.len() {
                    assert(front[k].program == p);
                    let m = choose|m: int| 0 <= m < c.len() && (#[trigger] c[m]).program == p;
                    assert(r[m] == c[m]);
                } else {
                    assert(r[c.len() as int].program == p);
                }
            }
            if p == s.program@ {
                let m = choose|m: int| 0 <= m < c.len() && (#[trigger] c[m]).program == p;
                assert(r[m] == c[m]);
            }
            if has_group(r, p) {
                let k = choose|k: int| 0 <= k < r.len() && (#[trigger] r[k]).program == p;
                if k < c.len() {
                    assert(c[k].program == p);
                    if has_group(front, p) {
                        let m = choose|m: int|
                            0 <= m < front.len() && (#[trigger] front[m]).program == p;
                        assert(groups[m] == front[m]);
                    }
                } else {
                    assert(groups[groups.len() - 1].program == p);
                }
            }
        }
    }
}

/// Grouping loses nobody: the groups ascend by name, there is one for each
/// program with a session that counts, and each holds that program's sessions.
pub proof fn law_groups_account_for_every_session(s: Seq<AgentSession>, stale_only: bool)
    ensures
        ascending(grouped(s, stale_only)),
        forall|i: int|
            0 <= i < grouped(s, stale_only).len() ==> accounts_for(
                #[trigger] grouped(s, stale_only)[i],
                s,
                stale_only,
            ),
        forall|p: Seq<char>| #[trigger]
            has_group(grouped(s, stale_only), p) <==> sessions_of(s, stale_only, p) > 0,
    decreases s.len(),
{
    if s.len() > 0 {
        let front = s.drop_last();
        let x = s.last();
        law_groups_account_for_every_session(front, stale_only);
        let before = grouped(front, stale_only);
        let after = grouped(s, stale_only);
        if x.is_stale || !stale_only {
            lemma_credited(before, x);
            assert forall|i: int| 0 <= i < after.len() implies accounts_for(
                #[trigger] after[i],
                s,
                stale_only,
            ) by {
                let g = credited(before, x)[i];
                assert(after[i] == g);
                lemma_resident_is_positive(front, stale_only, x.program@);
                lemma_resident_is_positive(front, stale_only, g.program);
                if before.contains(g) && g.program != x.program@ {
                    let k = choose|k: int| 0 <= k < before.len() && before[k] == g;
                    assert(accounts_for(before[k], front, stale_only));
                } else if g == group_of(x) && !has_group(before, x.program@) {
                    assert(sessions_of(front, stale_only, x.program@) == 0);
                } else {
                    let k = choose|k: int|
                        0 <= k < before.len() && (#[trigger] before[k]).program == x.program@ && g
                            == joined_by(before[k], x);
                    assert(accounts_for(before[k], front, stale_only));
                }
            }
            assert forall|p: Seq<char>| #[trigger] has_group(after, p) <==> sessions_of(
                s,
                stale_only,
                p,
            ) > 0 by {
                assert(has_group(credited(before, x), p) <==> has_group(before, p) || p
                    == x.program@);
            }
        } else {
            assert forall|i: int| 0 <= i < after.len() implies accounts_for(
                #[trigger] after[i],
                s,
                stale_only,
            ) by {
                assert(accounts_for(before[i], front, stale_only));
            }
            assert forall|p: Seq<char>| #[trigger] has_group(after, p) <==> sessions_of(
                s,
                stale_only,
                p,
            ) > 0 by {
                assert(has_group(before, p) <==> sessions_of(front, stale_only, p) > 0);
            }
        }
    } else {
        assert forall|p: Seq<char>| #[trigger]
            has_group(grouped(s, stale_only), p) <==> sessions_of(s, stale_only, p) > 0 by {
        }
    }
}

/// Whether a session counts for a program.
pub open spec fn counts_for(stale_only: bool, program: Seq<char>) -> spec_fn(AgentSession) -> bool {
    |x: AgentSession| x.program@ == program && (x.is_stale || !stale_only)
}

/// The CPU seconds of a program's sessions, in the order of the census.
pub open spec fn times_of(s: Seq<AgentSession>, stale_only: bool, program: Seq<char>) -> Seq<Real> {
    s.filter(counts_for(stale_only, program)).map_values(|x: AgentSession| x.cpu_secs)
}

proof fn lemma_times(s: Seq<AgentSession>, stale_only: bool, program: Seq<char>)
    ensures
        times_of(s, stale_only, program).len() == sessions_of(s, stale_only, program),
        s.len() > 0 ==> times_of(s, stale_only, program) == if s.last().program@ == program && (
        s.last().is_stale || !stale_only) {
            times_of(s.drop_last(), stale_only, program).push(s.last().cpu_secs)
        } else {
            times_of(s.drop_last(), stale_only, program)
        },
    decreases s.len(),
{
    reveal(Seq::filter);
    if s.len() > 0 {
        let front = s.drop_last();
        lemma_times(front, stale_only, program);
        assert(times_of(s, stale_only, program) =~= if s.last().program@ == program && (
        s.last().is_stale || !stale_only) {
            times_of(front, stale_only, program).push(s.last().cpu_secs)
        } else {
            times_of(front, stale_only, program)
        });
    }
}

/// A group keeps the CPU seconds of each of its sessions, in the order of the
/// census.
pub proof fn law_groups_keep_every_time(s: Seq<AgentSession>, stale_only: bool)
    ensures
        forall|i: int|
            0 <= i < grouped(s, stale_only).len() ==> (
            #[trigger] grouped(s, stale_only)[i]).cpu_secs == times_of(
                s,
                stale_only,
                grouped(s, stale_only)[i].program,
            ),
    decreases s.len(),
{
    if s.len() > 0 {
        let front = s.drop_last();
        let x = s.last();
        law_groups_keep_every_time(front, stale_only);
        law_groups_account_for_every_session(front, stale_only);
        let before = grouped(front, stale_only);
        let after = grouped(s, stale_only);
        if x.is_stale || !stale_only {
            lemma_credited(before, x);
        }
        assert forall|i: int| 0 <= i < after.len() implies (#[trigger] after[i]).cpu_secs
            == times_of(s, stale_only, after[i].program) by {
            let g = after[i];
            lemma_times(s, stale_only, g.program);
            lemma_times(front, stale_only, g.program);
            if x.is_stale || !stale_only {
                if before.contains(g) && g.program != x.program@ {
                    let k = choose|k: int| 0 <= k < before.len() && before[k] == g;
                    assert(before[k].cpu_secs == times_of(front, stale_only, before[k].program));
                } else if g == group_of(x) && !has_group(before, x.program@) {
                    assert(sessions_of(front, stale_only, x.program@) == 0);
                    assert(times_of(front, stale_only, x.program@) =~= Seq::empty());
                    assert(g.cpu_secs =~= times_of(front, stale_only, x.program@).push(
                        x.cpu_secs,
                    ));
                } else {
                    let k = choose|k: int|
                        0 <= k < before.len() && (#[trigger] before[k]).program == x.program@ && g
                            == joined_by(before[k], x);
                    assert(before[k].cpu_secs == times_of(front, stale_only, before[k].program));
                }
            } else {
                assert(before[i].cpu_secs == times_of(front, stale_only, before[i].program));
            }
        }
    }
}

} // verus!
