//! Who is named, and what a summary keeps, does not depend on the order of a census.
use vstd::multiset::Multiset;
use vstd::prelude::*;

use super::config::Dimension;
use super::summary::{
    app_sizes, lemma_size_order, listed_anew, session_sizes, sizes_in, summary_of, total_size,
    with_size, ConsumerKind, ConsumerSize, SizeView,
};
use super::who::{
    accounts_for, all_costly, app_suspects, by_cost, costly, grouped, has_group,
    law_groups_account_for_every_session, lemma_candidates_costly, lemma_suspect_order, lifetime,
    lineup, longest_of, managed, recent, resident_of, session_suspects, sessions_of, sized,
    suspected, total_suspect, Cost, GroupView, Suspect, SuspectView,
};
use crate::census::{AgentSession, AppGroup, Census, CpuConsumer, MonitorAgent};
use crate::number::{real_of, Real};
use crate::sorting::{law_arrival_does_not_matter, lemma_sorted_append, order, ties_are_equal};
use crate::text::{lemma_same_names, lemma_sorts_before_total, names_ascend, sorts_before};

verus! {

/// What is made of some entries, those left out that nothing is made of.
spec fn picked<T, V>(s: Seq<T>, f: spec_fn(T) -> Option<V>) -> Seq<V>
    decreases s.len(),
{
    if s.len() == 0 {
        Seq::empty()
    } else {
        match f(s.last()) {
            Some(x) => picked(s.drop_last(), f).push(x),
            None => picked(s.drop_last(), f),
        }
    }
}

/// A suspect, if it costs anything.
spec fn costing(x: SuspectView) -> Option<SuspectView> {
    if x.costs() {
        Some(x)
    } else {
        None
    }
}

spec fn app_suspect() -> spec_fn(AppGroup) -> Option<SuspectView> {
    |a: AppGroup|
        costing(
            SuspectView {
                name: a.name@,
                count: a.proc_count,
                measure: real_of(a.rss_bytes as nat),
                cost: Cost::Bytes,
            },
        )
}

spec fn recent_suspect() -> spec_fn(CpuConsumer) -> Option<SuspectView> {
    |a: CpuConsumer|
        costing(
            SuspectView {
                name: a.name@,
                count: a.proc_count,
                measure: a.percent_of_one_core,
                cost: Cost::PercentOfOneCore,
            },
        )
}

spec fn managed_suspect(min_life_secs: u64) -> spec_fn(MonitorAgent) -> Option<SuspectView> {
    |a: MonitorAgent|
        if a.longest_life_secs >= min_life_secs {
            costing(
                SuspectView {
                    name: a.name@,
                    count: a.proc_count,
                    measure: a.percent_of_one_core,
                    cost: Cost::PercentOfOneCore,
                },
            )
        } else {
            None
        }
}

spec fn app_size() -> spec_fn(AppGroup) -> Option<SizeView> {
    |a: AppGroup|
        if a.proc_count > 0 && a.rss_bytes > 0 {
            Some(
                SizeView {
                    name: a.name@,
                    kind: ConsumerKind::AppGroup,
                    count: a.proc_count,
                    rss_bytes: a.rss_bytes,
                },
            )
        } else {
            None
        }
}

proof fn lemma_apps(s: Seq<AppGroup>)
    ensures
        app_suspects(s) == picked(s, app_suspect()),
        app_sizes(s) == picked(s, app_size()),
    decreases s.len(),
{
    if s.len() > 0 {
        lemma_apps(s.drop_last());
    }
}

proof fn lemma_recent(s: Seq<CpuConsumer>)
    ensures
        recent(s) == picked(s, recent_suspect()),
    decreases s.len(),
{
    if s.len() > 0 {
        lemma_recent(s.drop_last());
    }
}

proof fn lemma_managed(s: Seq<MonitorAgent>, min_life_secs: u64)
    ensures
        managed(s, min_life_secs) == picked(s, managed_suspect(min_life_secs)),
    decreases s.len(),
{
    if s.len() > 0 {
        lemma_managed(s.drop_last(), min_life_secs);
    }
}

/// A multiset with what one entry adds to it.
spec fn with_one<T, V>(m: Multiset<V>, x: T, f: spec_fn(T) -> Option<V>) -> Multiset<V> {
    match f(x) {
        Some(y) => m.insert(y),
        None => m,
    }
}

proof fn lemma_picked_last<T, V>(s: Seq<T>, f: spec_fn(T) -> Option<V>)
    requires
        s.len() > 0,
    ensures
        picked(s, f).to_multiset() == with_one(
            picked(s.drop_last(), f).to_multiset(),
            s.last(),
            f,
        ),
{
    broadcast use vstd::seq_lib::group_to_multiset_ensures;

}

proof fn lemma_picked_without<T, V>(s: Seq<T>, at: int, f: spec_fn(T) -> Option<V>)
    requires
        0 <= at < s.len(),
    ensures
        picked(s, f).to_multiset() == with_one(picked(s.remove(at), f).to_multiset(), s[at], f),
    decreases s.len(),
{
    lemma_picked_last(s, f);
    if at < s.len() - 1 {
        lemma_picked_without(s.drop_last(), at, f);
        assert(s.remove(at).drop_last() =~= s.drop_last().remove(at));
        lemma_picked_last(s.remove(at), f);
        assert(picked(s, f).to_multiset() =~= with_one(
            picked(s.remove(at), f).to_multiset(),
            s[at],
            f,
        ));
    } else {
        assert(s.remove(at) =~= s.drop_last());
    }
}

proof fn lemma_picked_in_any_order<T, V>(a: Seq<T>, b: Seq<T>, f: spec_fn(T) -> Option<V>)
    requires
        a.to_multiset() == b.to_multiset(),
    ensures
        picked(a, f).to_multiset() == picked(b, f).to_multiset(),
    decreases a.len(),
{
    broadcast use vstd::seq_lib::group_to_multiset_ensures;

    assert(a.len() == a.to_multiset().len() && b.len() == b.to_multiset().len());
    if a.len() > 0 {
        let x = a.last();
        assert(a.contains(x));
        assert(b.to_multiset().contains(x));
        let at = choose|at: int| 0 <= at < b.len() && b[at] == x;
        assert(a =~= a.drop_last().push(x));
        assert(a.drop_last().to_multiset() =~= a.to_multiset().remove(x));
        assert(b.remove(at).to_multiset() =~= b.to_multiset().remove(x));
        lemma_picked_in_any_order(a.drop_last(), b.remove(at), f);
        lemma_picked_last(a, f);
        lemma_picked_without(b, at, f);
    } else {
        assert(a =~= b);
    }
}

proof fn lemma_counts_without(
    s: Seq<AgentSession>,
    at: int,
    stale_only: bool,
    program: Seq<char>,
)
    requires
        0 <= at < s.len(),
    ensures
        ({
            let rest = s.remove(at);
            let counts = (s[at].is_stale || !stale_only) && s[at].program@ == program;
            &&& sessions_of(s, stale_only, program) == sessions_of(rest, stale_only, program) + (
            if counts {
                1nat
            } else {
                0nat
            })
            &&& resident_of(s, stale_only, program) == resident_of(rest, stale_only, program) + (
            if counts {
                s[at].rss_bytes as int
            } else {
                0
            })
            &&& longest_of(s, stale_only, program) == if counts && s[at].age_secs > longest_of(
                rest,
                stale_only,
                program,
            ) {
                s[at].age_secs
            } else {
                longest_of(rest, stale_only, program)
            }
        }),
    decreases s.len(),
{
    if at < s.len() - 1 {
        lemma_counts_without(s.drop_last(), at, stale_only, program);
        assert(s.remove(at).drop_last() =~= s.drop_last().remove(at));
        assert(s.remove(at).last() == s.last());
        assert(s.drop_last()[at] == s[at]);
    } else {
        assert(s.remove(at) =~= s.drop_last());
    }
}

proof fn lemma_counts_in_any_order(
    a: Seq<AgentSession>,
    b: Seq<AgentSession>,
    stale_only: bool,
    program: Seq<char>,
)
    requires
        a.to_multiset() == b.to_multiset(),
    ensures
        sessions_of(a, stale_only, program) == sessions_of(b, stale_only, program),
        resident_of(a, stale_only, program) == resident_of(b, stale_only, program),
        longest_of(a, stale_only, program) == longest_of(b, stale_only, program),
    decreases a.len(),
{
    broadcast use vstd::seq_lib::group_to_multiset_ensures;

    assert(a.len() == a.to_multiset().len() && b.len() == b.to_multiset().len());
    if a.len() > 0 {
        let x = a.last();
        assert(a.contains(x));
        assert(b.to_multiset().contains(x));
        let at = choose|at: int| 0 <= at < b.len() && b[at] == x;
        assert(a =~= a.drop_last().push(x));
        assert(a.drop_last().to_multiset() =~= a.to_multiset().remove(x));
        assert(b.remove(at).to_multiset() =~= b.to_multiset().remove(x));
        lemma_counts_in_any_order(a.drop_last(), b.remove(at), stale_only, program);
        lemma_counts_without(b, at, stale_only, program);
    } else {
        assert(a =~= b);
    }
}

/// Two lists of groups tell the same of the same programs.
spec fn alike(g: Seq<GroupView>, h: Seq<GroupView>) -> bool {
    &&& g.len() == h.len()
    &&& forall|i: int|
        #![trigger g[i], h[i]]
        0 <= i < g.len() ==> {
            &&& g[i].program == h[i].program
            &&& g[i].count == h[i].count
            &&& g[i].rss_bytes == h[i].rss_bytes
            &&& g[i].life_secs == h[i].life_secs
        }
}

/// The programs that have groups.
spec fn programs(g: Seq<GroupView>) -> Seq<Seq<char>> {
    g.map_values(|x: GroupView| x.program)
}

proof fn lemma_programs(g: Seq<GroupView>, p: Seq<char>)
    ensures
        programs(g).contains(p) <==> has_group(g, p),
{
    if programs(g).contains(p) {
        let k = choose|k: int| 0 <= k < g.len() && programs(g)[k] == p;
        assert(g[k].program == p);
    }
    if has_group(g, p) {
        let k = choose|k: int| 0 <= k < g.len() && (#[trigger] g[k]).program == p;
        assert(programs(g)[k] == p);
    }
}

proof fn lemma_groups_in_any_order(a: Seq<AgentSession>, b: Seq<AgentSession>, stale_only: bool)
    requires
        a.to_multiset() == b.to_multiset(),
    ensures
        alike(grouped(a, stale_only), grouped(b, stale_only)),
{
    let g = grouped(a, stale_only);
    let h = grouped(b, stale_only);
    law_groups_account_for_every_session(a, stale_only);
    law_groups_account_for_every_session(b, stale_only);
    assert forall|p: Seq<char>| #[trigger] programs(g).contains(p) <==> programs(h).contains(p) by {
        lemma_programs(g, p);
        lemma_programs(h, p);
        lemma_counts_in_any_order(a, b, stale_only, p);
        assert(has_group(g, p) <==> sessions_of(a, stale_only, p) > 0);
        assert(has_group(h, p) <==> sessions_of(b, stale_only, p) > 0);
    }
    assert(names_ascend(programs(g)) && names_ascend(programs(h))) by {
        assert forall|i: int, j: int| 0 <= i < j < g.len() implies sorts_before(
            #[trigger] programs(g)[i],
            #[trigger] programs(g)[j],
        ) by {
            assert(sorts_before(g[i].program, g[j].program));
        }
        assert forall|i: int, j: int| 0 <= i < j < h.len() implies sorts_before(
            #[trigger] programs(h)[i],
            #[trigger] programs(h)[j],
        ) by {
            assert(sorts_before(h[i].program, h[j].program));
        }
    }
    lemma_same_names(programs(g), programs(h));
    assert(g.len() == programs(g).len() && h.len() == programs(h).len());
    assert forall|i: int|
        #![trigger g[i], h[i]]
        0 <= i < g.len() implies g[i].program == h[i].program && g[i].count == h[i].count
        && g[i].rss_bytes == h[i].rss_bytes && g[i].life_secs == h[i].life_secs by {
        assert(programs(g)[i] == programs(h)[i]);
        lemma_counts_in_any_order(a, b, stale_only, g[i].program);
        assert(accounts_for(g[i], a, stale_only));
        assert(accounts_for(h[i], b, stale_only));
    }
}

proof fn lemma_alike_front(g: Seq<GroupView>, h: Seq<GroupView>)
    requires
        alike(g, h),
        g.len() > 0,
    ensures
        alike(g.drop_last(), h.drop_last()),
        g.last().program == h.last().program,
        g.last().count == h.last().count,
        g.last().rss_bytes == h.last().rss_bytes,
        g.last().life_secs == h.last().life_secs,
{
    assert(g[g.len() - 1] == g.last() && h[h.len() - 1] == h.last());
    assert forall|i: int|
        #![trigger g.drop_last()[i], h.drop_last()[i]]
        0 <= i < g.drop_last().len() implies g.drop_last()[i].program == h.drop_last()[i].program
        && g.drop_last()[i].count == h.drop_last()[i].count && g.drop_last()[i].rss_bytes
        == h.drop_last()[i].rss_bytes && g.drop_last()[i].life_secs
        == h.drop_last()[i].life_secs by {
        assert(g.drop_last()[i] == g[i] && h.drop_last()[i] == h[i]);
    }
}

proof fn lemma_sessions_after(base: Seq<SuspectView>, g: Seq<GroupView>, h: Seq<GroupView>)
    requires
        alike(g, h),
    ensures
        session_suspects(base, g) == base + session_suspects(Seq::empty(), h),
    decreases g.len(),
{
    if g.len() > 0 {
        lemma_alike_front(g, h);
        lemma_sessions_after(base, g.drop_last(), h.drop_last());
        assert(session_suspects(base, g) =~= base + session_suspects(Seq::empty(), h));
    } else {
        assert(base + Seq::<SuspectView>::empty() =~= base);
    }
}

proof fn lemma_sizes_after(base: Seq<SizeView>, g: Seq<GroupView>, h: Seq<GroupView>)
    requires
        alike(g, h),
    ensures
        session_sizes(base, g) == base + session_sizes(Seq::empty(), h),
    decreases g.len(),
{
    if g.len() > 0 {
        lemma_alike_front(g, h);
        lemma_sizes_after(base, g.drop_last(), h.drop_last());
        assert(session_sizes(base, g) =~= base + session_sizes(Seq::empty(), h));
    } else {
        assert(base + Seq::<SizeView>::empty() =~= base);
    }
}

proof fn lemma_lifetime_alike(
    g: Seq<GroupView>,
    h: Seq<GroupView>,
    rates: Seq<Real>,
    min_life_secs: u64,
)
    requires
        alike(g, h),
    ensures
        lifetime(g, rates, min_life_secs) == lifetime(h, rates, min_life_secs),
    decreases g.len(),
{
    if g.len() > 0 {
        lemma_alike_front(g, h);
        lemma_lifetime_alike(g.drop_last(), h.drop_last(), rates, min_life_secs);
    }
}

/// Two censuses found the same, and list it in another order.
pub open spec fn reordered(a: Census, b: Census) -> bool {
    &&& listed_anew(a, b)
    &&& a.cpu_consumers@.to_multiset() == b.cpu_consumers@.to_multiset()
    &&& a.monitor_agents@.to_multiset() == b.monitor_agents@.to_multiset()
}

/// The candidates for a dimension that come one by one from a list of the census.
pub open spec fn listed_ones(d: Dimension, c: Census, min_life_secs: u64) -> Seq<SuspectView> {
    match d {
        Dimension::Cpu | Dimension::Thermal => recent(c.cpu_consumers@),
        Dimension::Corporate => managed(c.monitor_agents@, min_life_secs),
        Dimension::Agents | Dimension::Orphans | Dimension::Disk | Dimension::Uptime => Seq::empty(),
        _ => app_suspects(c.app_groups@),
    }
}

/// Entries of one name and one measure are the same entry.
pub open spec fn told_apart(s: Seq<SuspectView>) -> bool {
    forall|i: int, j: int|
        0 <= i < s.len() && 0 <= j < s.len() && (#[trigger] s[i]).name == (#[trigger] s[j]).name
            && s[i].measure == s[j].measure ==> s[i] == s[j]
}

/// Consumers of one name and one size are the same consumer.
pub open spec fn sizes_told_apart(s: Seq<SizeView>) -> bool {
    forall|i: int, j: int|
        0 <= i < s.len() && 0 <= j < s.len() && (#[trigger] s[i]).name == (#[trigger] s[j]).name
            && s[i].rss_bytes == s[j].rss_bytes ==> s[i] == s[j]
}

proof fn lemma_ranked_alike(s: Seq<SuspectView>, t: Seq<SuspectView>)
    requires
        s.to_multiset() == t.to_multiset(),
        all_costly(s),
        told_apart(s),
    ensures
        by_cost(s) == by_cost(t),
{
    lemma_suspect_order();
    assert forall|i: int| 0 <= i < s.len() implies costly()(#[trigger] s[i]) by {
        assert(s[i].costs());
    }
    let first = order::<Suspect>();
    assert forall|i: int, j: int|
        0 <= i < s.len() && 0 <= j < s.len() && !first(#[trigger] s[i], #[trigger] s[j]) && !first(
            s[j],
            s[i],
        ) implies s[i] == s[j] by {
        assert(s[i].costs() && s[j].costs());
        lemma_sorts_before_total(s[i].name, s[j].name);
        assert(s[i].measure.bits == s[j].measure.bits);
    }
    assert(ties_are_equal(s, first));
    law_arrival_does_not_matter(s, t, first, costly());
}

/// What follows the app groups among the sized.
spec fn sized_rest(c: Census, h: Seq<GroupView>) -> Seq<SuspectView> {
    let sessions = session_suspects(Seq::empty(), h);
    let helpers = suspected(
        sessions,
        total_suspect("IDE agent helpers"@, c.ide_helpers.count, c.ide_helpers.rss_bytes),
    );
    let orphans = suspected(
        helpers,
        total_suspect("orphaned helpers"@, c.orphans.orphan_count, c.orphans.orphan_rss_bytes),
    );
    suspected(
        orphans,
        total_suspect("managed agents"@, c.monitor_total.proc_count, c.monitor_total.rss_bytes),
    )
}

proof fn lemma_sized(c: Census, h: Seq<GroupView>)
    requires
        alike(grouped(c.agent_sessions@, false), h),
    ensures
        sized(c) == app_suspects(c.app_groups@) + sized_rest(c, h),
{
    lemma_sessions_after(app_suspects(c.app_groups@), grouped(c.agent_sessions@, false), h);
    assert(sized(c) =~= app_suspects(c.app_groups@) + sized_rest(c, h));
}

/// What follows the app groups in a summary.
spec fn sizes_rest(c: Census, h: Seq<GroupView>) -> Seq<SizeView> {
    let sessions = session_sizes(Seq::empty(), h);
    let helpers = with_size(
        sessions,
        total_size("IDE agent helpers"@, c.ide_helpers.count, c.ide_helpers.rss_bytes),
    );
    let orphans = with_size(
        helpers,
        total_size("orphaned helpers"@, c.orphans.orphan_count, c.orphans.orphan_rss_bytes),
    );
    with_size(
        orphans,
        total_size("managed agents"@, c.monitor_total.proc_count, c.monitor_total.rss_bytes),
    )
}

proof fn lemma_sizes(c: Census, h: Seq<GroupView>)
    requires
        alike(grouped(c.agent_sessions@, false), h),
    ensures
        sizes_in(c) == app_sizes(c.app_groups@) + sizes_rest(c, h),
{
    lemma_sizes_after(app_sizes(c.app_groups@), grouped(c.agent_sessions@, false), h);
    assert(sizes_in(c) =~= app_sizes(c.app_groups@) + sizes_rest(c, h));
}

proof fn lemma_alike_itself(g: Seq<GroupView>)
    ensures
        alike(g, g),
{
}

/// Whoever is behind a dimension is ranked the same for censuses that differ only
/// in order. Orphans keep the order of the census. Two entries of one list that
/// share a name and a measure and differ otherwise keep the order they came in,
/// and are left out here.
pub proof fn law_the_lineup_ignores_census_order(
    d: Dimension,
    a: Census,
    b: Census,
    rates: Seq<Real>,
    min_life_secs: u64,
)
    requires
        d != Dimension::Orphans,
        reordered(a, b),
        told_apart(listed_ones(d, a, min_life_secs)),
    ensures
        lineup(d, a, rates, min_life_secs) == lineup(d, b, rates, min_life_secs),
{
    broadcast use vstd::seq_lib::group_to_multiset_ensures;

    let g = grouped(a.agent_sessions@, false);
    let h = grouped(b.agent_sessions@, false);
    lemma_groups_in_any_order(a.agent_sessions@, b.agent_sessions@, false);
    lemma_groups_in_any_order(a.agent_sessions@, b.agent_sessions@, true);
    lemma_candidates_costly(a, rates, min_life_secs);
    match d {
        Dimension::Cpu | Dimension::Thermal => {
            lemma_recent(a.cpu_consumers@);
            lemma_recent(b.cpu_consumers@);
            lemma_picked_in_any_order(a.cpu_consumers@, b.cpu_consumers@, recent_suspect());
            lemma_ranked_alike(recent(a.cpu_consumers@), recent(b.cpu_consumers@));
            lemma_lifetime_alike(g, h, rates, min_life_secs);
            assert(a.cpu_consumers@.len() == a.cpu_consumers@.to_multiset().len());
            assert(b.cpu_consumers@.len() == b.cpu_consumers@.to_multiset().len());
        },
        Dimension::Agents => {
            let x = grouped(a.agent_sessions@, true);
            let y = grouped(b.agent_sessions@, true);
            lemma_sessions_after(Seq::empty(), x, y);
            let rest = session_suspects(Seq::empty(), y);
            assert(Seq::<SuspectView>::empty() + rest =~= rest);
        },
        Dimension::Corporate => {
            lemma_managed(a.monitor_agents@, min_life_secs);
            lemma_managed(b.monitor_agents@, min_life_secs);
            lemma_picked_in_any_order(
                a.monitor_agents@,
                b.monitor_agents@,
                managed_suspect(min_life_secs),
            );
            lemma_ranked_alike(
                managed(a.monitor_agents@, min_life_secs),
                managed(b.monitor_agents@, min_life_secs),
            );
        },
        Dimension::Orphans | Dimension::Disk | Dimension::Uptime => {},
        _ => {
            let x = app_suspects(a.app_groups@);
            let y = app_suspects(b.app_groups@);
            lemma_apps(a.app_groups@);
            lemma_apps(b.app_groups@);
            lemma_picked_in_any_order(a.app_groups@, b.app_groups@, app_suspect());
            lemma_alike_itself(h);
            lemma_sized(a, h);
            lemma_sized(b, h);
            assert forall|i: int| 0 <= i < x.len() implies (#[trigger] x[i]).costs() by {
                assert(sized(a)[i] == x[i]);
            }
            lemma_ranked_alike(x, y);
            lemma_sorted_append(x, y, sized_rest(a, h), order::<Suspect>());
        },
    }
}

/// Two censuses that found the same have the same summary, where entries that
/// share a name and a size are the same.
pub proof fn lemma_summary_in_any_order(a: Census, b: Census)
    requires
        listed_anew(a, b),
        sizes_told_apart(app_sizes(a.app_groups@)),
    ensures
        summary_of(a) == summary_of(b),
{
    let x = app_sizes(a.app_groups@);
    let y = app_sizes(b.app_groups@);
    let h = grouped(b.agent_sessions@, false);
    lemma_groups_in_any_order(a.agent_sessions@, b.agent_sessions@, false);
    lemma_alike_itself(h);
    lemma_sizes(a, h);
    lemma_sizes(b, h);
    lemma_apps(a.app_groups@);
    lemma_apps(b.app_groups@);
    lemma_picked_in_any_order(a.app_groups@, b.app_groups@, app_size());
    lemma_size_order();
    let first = order::<ConsumerSize>();
    assert forall|i: int, j: int|
        0 <= i < x.len() && 0 <= j < x.len() && !first(#[trigger] x[i], #[trigger] x[j]) && !first(
            x[j],
            x[i],
        ) implies x[i] == x[j] by {
        lemma_sorts_before_total(x[i].name, x[j].name);
    }
    assert(ties_are_equal(x, first));
    law_arrival_does_not_matter(x, y, first, |c: SizeView| true);
    lemma_sorted_append(x, y, sizes_rest(a, h), first);
}

} // verus!
