//! Who is named behind a dimension: everybody who should be, and nobody else.
use vstd::prelude::*;

use super::config::{Dimension, PressureConfig};
use super::who::{
    accounts_for, all_costly, app_suspects, by_cost, costly, cumulative, grouped, has_group,
    law_groups_account_for_every_session, law_the_lineup_is_ranked, lemma_candidates_costly,
    lemma_resident_is_positive, lemma_suspect_order, lifetime, line_of, lineup, longest_of, managed,
    orphaned, recent, resident_of, session_suspects, sessions_of, sized, suspected, suspects_of,
    texts, total_suspect, worded, ConsumerView, Cost, GroupView, Suspect, SuspectView,
};
use crate::census::{AgentSession, AppGroup, Census, CpuConsumer, MonitorAgent, OrphanProgram};
use crate::number::{real_of, Real};
use crate::sorting::{law_sorting, order};
use crate::text::{decimal, joined, sorts_before};

verus! {

/// Whether a suspect costs something: some processes, and a measure above zero.
pub open spec fn weighs(x: SuspectView) -> bool {
    x.count > 0 && (Real { bits: 0 }).below(x.measure)
}

/// Whether a suspect is one of some app groups, by its resident size.
pub open spec fn is_app_group(s: Seq<AppGroup>, x: SuspectView) -> bool {
    exists|k: int|
        0 <= k < s.len() && (#[trigger] s[k]).name@ == x.name && s[k].proc_count == x.count
            && real_of(s[k].rss_bytes as nat) == x.measure && x.cost == Cost::Bytes
}

/// Whether a suspect is a program with its sessions, all of them or the stale ones:
/// how many there are, and what they hold together.
pub open spec fn is_session_group(s: Seq<AgentSession>, stale_only: bool, x: SuspectView) -> bool {
    let sessions = sessions_of(s, stale_only, x.name);
    let bytes = resident_of(s, stale_only, x.name);
    &&& sessions > 0
    &&& x.count == (if sessions > u32::MAX {
        u32::MAX as nat
    } else {
        sessions
    })
    &&& x.measure == real_of(
        if bytes > u64::MAX {
            u64::MAX as nat
        } else {
            bytes as nat
        },
    )
    &&& x.cost == Cost::Bytes
}

/// Whether a suspect is one of the totals of a census, by its resident size.
pub open spec fn is_census_total(c: Census, x: SuspectView) -> bool {
    &&& x.cost == Cost::Bytes
    &&& {
        ||| x.name == "IDE agent helpers"@ && x.count == c.ide_helpers.count && x.measure
            == real_of(c.ide_helpers.rss_bytes as nat)
        ||| x.name == "orphaned helpers"@ && x.count == c.orphans.orphan_count && x.measure
            == real_of(c.orphans.orphan_rss_bytes as nat)
        ||| x.name == "managed agents"@ && x.count == c.monitor_total.proc_count && x.measure
            == real_of(c.monitor_total.rss_bytes as nat)
    }
}

/// The dimensions that are about memory.
pub open spec fn memory_shaped(d: Dimension) -> bool {
    match d {
        Dimension::Memory => true,
        Dimension::Swap => true,
        Dimension::KernelPressure => true,
        Dimension::Thrash => true,
        Dimension::KernelFree => true,
        Dimension::Compressor => true,
        Dimension::Jetsam => true,
        _ => false,
    }
}

proof fn lemma_suspected(s: Seq<SuspectView>, x: SuspectView, y: SuspectView)
    ensures
        suspected(s, x).contains(y) <==> s.contains(y) || (y == x && weighs(x)),
{
    let t = suspected(s, x);
    if s.contains(y) {
        let k = choose|k: int| 0 <= k < s.len() && s[k] == y;
        assert(t[k] == y);
    }
    if weighs(x) {
        assert(t[s.len() as int] == x);
    }
    if t.contains(y) {
        let k = choose|k: int| 0 <= k < t.len() && t[k] == y;
        if k < s.len() {
            assert(s[k] == y);
        }
    }
}

proof fn lemma_app_groups(s: Seq<AppGroup>, x: SuspectView)
    ensures
        app_suspects(s).contains(x) <==> weighs(x) && is_app_group(s, x),
    decreases s.len(),
{
    if s.len() > 0 {
        let front = s.drop_last();
        let a = s.last();
        let y = SuspectView {
            name: a.name@,
            count: a.proc_count,
            measure: real_of(a.rss_bytes as nat),
            cost: Cost::Bytes,
        };
        lemma_app_groups(front, x);
        lemma_suspected(app_suspects(front), y, x);
        assert(s[s.len() - 1] == a);
        if is_app_group(front, x) {
            let k = choose|k: int|
                0 <= k < front.len() && (#[trigger] front[k]).name@ == x.name && front[k].proc_count
                    == x.count && real_of(front[k].rss_bytes as nat) == x.measure && x.cost
                    == Cost::Bytes;
            assert(s[k] == front[k]);
        }
        if is_app_group(s, x) && x != y {
            let k = choose|k: int|
                0 <= k < s.len() && (#[trigger] s[k]).name@ == x.name && s[k].proc_count == x.count
                    && real_of(s[k].rss_bytes as nat) == x.measure && x.cost == Cost::Bytes;
            assert(k < s.len() - 1);
            assert(front[k] == s[k]);
        }
    }
}

spec fn stands_for(g: GroupView, x: SuspectView) -> bool {
    x == (SuspectView {
        name: g.program,
        count: g.count,
        measure: real_of(g.rss_bytes as nat),
        cost: Cost::Bytes,
    })
}

spec fn some_group(g: Seq<GroupView>, x: SuspectView) -> bool {
    exists|k: int| 0 <= k < g.len() && stands_for(#[trigger] g[k], x)
}

proof fn lemma_session_groups(base: Seq<SuspectView>, g: Seq<GroupView>, x: SuspectView)
    ensures
        session_suspects(base, g).contains(x) <==> base.contains(x) || (weighs(x) && some_group(
            g,
            x,
        )),
    decreases g.len(),
{
    if g.len() > 0 {
        let front = g.drop_last();
        let l = g.last();
        let y = SuspectView {
            name: l.program,
            count: l.count,
            measure: real_of(l.rss_bytes as nat),
            cost: Cost::Bytes,
        };
        lemma_session_groups(base, front, x);
        lemma_suspected(session_suspects(base, front), y, x);
        assert(g[g.len() - 1] == l);
        if some_group(front, x) {
            let k = choose|k: int| 0 <= k < front.len() && stands_for(#[trigger] front[k], x);
            assert(g[k] == front[k]);
        }
        if some_group(g, x) && x != y {
            let k = choose|k: int| 0 <= k < g.len() && stands_for(#[trigger] g[k], x);
            assert(front[k] == g[k]);
        }
    }
}

proof fn lemma_programs(s: Seq<AgentSession>, stale_only: bool, x: SuspectView)
    ensures
        some_group(grouped(s, stale_only), x) <==> is_session_group(s, stale_only, x),
{
    let g = grouped(s, stale_only);
    law_groups_account_for_every_session(s, stale_only);
    lemma_resident_is_positive(s, stale_only, x.name);
    if some_group(g, x) {
        let k = choose|k: int| 0 <= k < g.len() && stands_for(#[trigger] g[k], x);
        assert(accounts_for(g[k], s, stale_only));
    }
    if is_session_group(s, stale_only, x) {
        assert(has_group(g, x.name));
        let k = choose|k: int| 0 <= k < g.len() && (#[trigger] g[k]).program == x.name;
        assert(accounts_for(g[k], s, stale_only));
        assert(stands_for(g[k], x));
    }
}

proof fn lemma_ranked_members(s: Seq<SuspectView>, x: SuspectView)
    requires
        all_costly(s),
    ensures
        by_cost(s).contains(x) <==> s.contains(x),
        by_cost(s).len() == s.len(),
{
    broadcast use vstd::seq_lib::group_to_multiset_ensures;

    lemma_suspect_order();
    assert forall|i: int| 0 <= i < s.len() implies costly()(#[trigger] s[i]) by {
        assert(s[i].costs());
    }
    law_sorting(s, order::<Suspect>(), costly());
    assert(by_cost(s).to_multiset() == s.to_multiset());
    assert(by_cost(s).to_multiset().count(x) > 0 <==> by_cost(s).contains(x));
    assert(s.to_multiset().count(x) > 0 <==> s.contains(x));
    crate::sorting::lemma_sorted_len(s, order::<Suspect>());
}

proof fn lemma_sized(c: Census, x: SuspectView)
    ensures
        sized(c).contains(x) <==> weighs(x) && (is_app_group(c.app_groups@, x) || is_session_group(
            c.agent_sessions@,
            false,
            x,
        ) || is_census_total(c, x)),
{
    let apps = app_suspects(c.app_groups@);
    let g = grouped(c.agent_sessions@, false);
    let sessions = session_suspects(apps, g);
    let a = total_suspect("IDE agent helpers"@, c.ide_helpers.count, c.ide_helpers.rss_bytes);
    let b = total_suspect("orphaned helpers"@, c.orphans.orphan_count, c.orphans.orphan_rss_bytes);
    let m = total_suspect(
        "managed agents"@,
        c.monitor_total.proc_count,
        c.monitor_total.rss_bytes,
    );
    lemma_app_groups(c.app_groups@, x);
    lemma_session_groups(apps, g, x);
    lemma_programs(c.agent_sessions@, false, x);
    lemma_suspected(sessions, a, x);
    lemma_suspected(suspected(sessions, a), b, x);
    lemma_suspected(suspected(suspected(sessions, a), b), m, x);
}

/// Behind a dimension that is about memory stands everything the census sized that
/// costs something, and nothing else: each app group, each program with all its
/// sessions together, and the three totals.
pub proof fn law_memory_is_everybodys(
    d: Dimension,
    c: Census,
    rates: Seq<Real>,
    min_life_secs: u64,
    x: SuspectView,
)
    requires
        memory_shaped(d),
    ensures
        lineup(d, c, rates, min_life_secs).contains(x) <==> weighs(x) && (is_app_group(
            c.app_groups@,
            x,
        ) || is_session_group(c.agent_sessions@, false, x) || is_census_total(c, x)),
{
    lemma_candidates_costly(c, rates, min_life_secs);
    lemma_sized(c, x);
    lemma_ranked_members(sized(c), x);
}

/// Behind stale sessions stands each program that has some, with those alone.
pub proof fn law_stale_sessions_are_by_program(
    c: Census,
    rates: Seq<Real>,
    min_life_secs: u64,
    x: SuspectView,
)
    ensures
        lineup(Dimension::Agents, c, rates, min_life_secs).contains(x) <==> weighs(x)
            && is_session_group(c.agent_sessions@, true, x),
{
    let g = grouped(c.agent_sessions@, true);
    lemma_candidates_costly(c, rates, min_life_secs);
    lemma_session_groups(Seq::empty(), g, x);
    lemma_programs(c.agent_sessions@, true, x);
    lemma_ranked_members(session_suspects(Seq::empty(), g), x);
}

/// Whether a suspect is one of those the census measured on the CPU.
pub open spec fn is_cpu_consumer(s: Seq<CpuConsumer>, x: SuspectView) -> bool {
    exists|k: int|
        0 <= k < s.len() && (#[trigger] s[k]).name@ == x.name && s[k].proc_count == x.count
            && s[k].percent_of_one_core == x.measure && x.cost == Cost::PercentOfOneCore
}

proof fn lemma_cpu_consumers(s: Seq<CpuConsumer>, x: SuspectView)
    ensures
        recent(s).contains(x) <==> weighs(x) && is_cpu_consumer(s, x),
    decreases s.len(),
{
    if s.len() > 0 {
        let front = s.drop_last();
        let a = s.last();
        let y = SuspectView {
            name: a.name@,
            count: a.proc_count,
            measure: a.percent_of_one_core,
            cost: Cost::PercentOfOneCore,
        };
        lemma_cpu_consumers(front, x);
        lemma_suspected(recent(front), y, x);
        assert(s[s.len() - 1] == a);
        if is_cpu_consumer(front, x) {
            let k = choose|k: int|
                0 <= k < front.len() && (#[trigger] front[k]).name@ == x.name && front[k].proc_count
                    == x.count && front[k].percent_of_one_core == x.measure && x.cost
                    == Cost::PercentOfOneCore;
            assert(s[k] == front[k]);
        }
        if is_cpu_consumer(s, x) && x != y {
            let k = choose|k: int|
                0 <= k < s.len() && (#[trigger] s[k]).name@ == x.name && s[k].proc_count == x.count
                    && s[k].percent_of_one_core == x.measure && x.cost == Cost::PercentOfOneCore;
            assert(k < s.len() - 1);
            assert(front[k] == s[k]);
        }
    }
}

/// Whether a suspect is a managed-agent group that has lived long enough.
pub open spec fn is_managed_group(s: Seq<MonitorAgent>, min_life_secs: u64, x: SuspectView) -> bool {
    exists|k: int|
        0 <= k < s.len() && (#[trigger] s[k]).name@ == x.name && s[k].proc_count == x.count
            && s[k].percent_of_one_core == x.measure && x.cost == Cost::PercentOfOneCore
            && s[k].longest_life_secs >= min_life_secs
}

proof fn lemma_managed_groups(s: Seq<MonitorAgent>, min_life_secs: u64, x: SuspectView)
    ensures
        managed(s, min_life_secs).contains(x) <==> weighs(x) && is_managed_group(
            s,
            min_life_secs,
            x,
        ),
    decreases s.len(),
{
    if s.len() > 0 {
        let front = s.drop_last();
        let a = s.last();
        let y = SuspectView {
            name: a.name@,
            count: a.proc_count,
            measure: a.percent_of_one_core,
            cost: Cost::PercentOfOneCore,
        };
        lemma_managed_groups(front, min_life_secs, x);
        lemma_suspected(managed(front, min_life_secs), y, x);
        assert(s[s.len() - 1] == a);
        if is_managed_group(front, min_life_secs, x) {
            let k = choose|k: int|
                0 <= k < front.len() && (#[trigger] front[k]).name@ == x.name && front[k].proc_count
                    == x.count && front[k].percent_of_one_core == x.measure && x.cost
                    == Cost::PercentOfOneCore && front[k].longest_life_secs >= min_life_secs;
            assert(s[k] == front[k]);
        }
        if is_managed_group(s, min_life_secs, x) {
            let k = choose|k: int|
                0 <= k < s.len() && (#[trigger] s[k]).name@ == x.name && s[k].proc_count == x.count
                    && s[k].percent_of_one_core == x.measure && x.cost == Cost::PercentOfOneCore
                    && s[k].longest_life_secs >= min_life_secs;
            if k < s.len() - 1 {
                assert(front[k] == s[k]);
            }
        }
    }
}

/// Whether a suspect is a program of sessions, by a lifetime rate: one that has
/// lived long enough, and some time at all.
pub open spec fn is_lifetime_group(
    c: Census,
    rates: Seq<Real>,
    min_life_secs: u64,
    x: SuspectView,
) -> bool {
    let sessions = sessions_of(c.agent_sessions@, false, x.name);
    &&& sessions > 0
    &&& x.count == (if sessions > u32::MAX {
        u32::MAX as nat
    } else {
        sessions
    })
    &&& longest_of(c.agent_sessions@, false, x.name) >= min_life_secs
    &&& longest_of(c.agent_sessions@, false, x.name) > 0
    &&& rates.contains(x.measure)
    &&& x.cost == Cost::PercentOfOneCore
}

proof fn lemma_lifetime_groups(
    g: Seq<GroupView>,
    rates: Seq<Real>,
    min_life_secs: u64,
    x: SuspectView,
)
    ensures
        lifetime(g, rates, min_life_secs).contains(x) <==> weighs(x) && exists|k: int|
            0 <= k < g.len() && k < rates.len() && (#[trigger] g[k]).program == x.name && g[k].count
                == x.count && g[k].life_secs >= min_life_secs && g[k].life_secs > 0 && x.measure
                == rates[k] && x.cost == Cost::PercentOfOneCore,
    decreases g.len(),
{
    if g.len() > 0 {
        let front = g.drop_last();
        let l = g.last();
        lemma_lifetime_groups(front, rates, min_life_secs, x);
        assert(g[g.len() - 1] == l);
        if g.len() <= rates.len() {
            let y = SuspectView {
                name: l.program,
                count: l.count,
                measure: rates[g.len() - 1],
                cost: Cost::PercentOfOneCore,
            };
            lemma_suspected(lifetime(front, rates, min_life_secs), y, x);
        }
        if exists|k: int|
            0 <= k < front.len() && k < rates.len() && (#[trigger] front[k]).program == x.name
                && front[k].count == x.count && front[k].life_secs >= min_life_secs
                && front[k].life_secs > 0 && x.measure == rates[k] && x.cost
                == Cost::PercentOfOneCore {
            let k = choose|k: int|
                0 <= k < front.len() && k < rates.len() && (#[trigger] front[k]).program == x.name
                    && front[k].count == x.count && front[k].life_secs >= min_life_secs
                    && front[k].life_secs > 0 && x.measure == rates[k] && x.cost
                    == Cost::PercentOfOneCore;
            assert(g[k] == front[k]);
        }
        if exists|k: int|
            0 <= k < g.len() && k < rates.len() && (#[trigger] g[k]).program == x.name && g[k].count
                == x.count && g[k].life_secs >= min_life_secs && g[k].life_secs > 0 && x.measure
                == rates[k] && x.cost == Cost::PercentOfOneCore {
            let k = choose|k: int|
                0 <= k < g.len() && k < rates.len() && (#[trigger] g[k]).program == x.name
                    && g[k].count == x.count && g[k].life_secs >= min_life_secs && g[k].life_secs
                    > 0 && x.measure == rates[k] && x.cost == Cost::PercentOfOneCore;
            if k < g.len() - 1 {
                assert(front[k] == g[k]);
            }
        }
    }
}

/// Behind a busy or a hot CPU stands whoever the census measured on it. Only where
/// it measured nobody the lifetime rates count: each program whose sessions have
/// lived long enough, with a rate that is given for it, and the managed agents as
/// one if they have.
pub proof fn law_the_cpu_is_whoever_uses_it(
    d: Dimension,
    c: Census,
    rates: Seq<Real>,
    min_life_secs: u64,
    x: SuspectView,
)
    requires
        d == Dimension::Cpu || d == Dimension::Thermal,
    ensures
        c.cpu_consumers@.len() > 0 ==> (lineup(d, c, rates, min_life_secs).contains(x) <==> weighs(
            x,
        ) && is_cpu_consumer(c.cpu_consumers@, x)),
        c.cpu_consumers@.len() == 0 && lineup(d, c, rates, min_life_secs).contains(x) ==> weighs(x)
            && (is_lifetime_group(c, rates, min_life_secs, x) || (x.name == "managed agents"@
            && x.count == c.monitor_total.proc_count && x.measure
            == c.monitor_total.percent_of_one_core && x.cost == Cost::PercentOfOneCore
            && c.monitor_total.longest_life_secs >= min_life_secs)),
        c.cpu_consumers@.len() == 0 && weighs(x) && x.name == "managed agents"@ && x.count
            == c.monitor_total.proc_count && x.measure == c.monitor_total.percent_of_one_core
            && x.cost == Cost::PercentOfOneCore && c.monitor_total.longest_life_secs
            >= min_life_secs ==> lineup(d, c, rates, min_life_secs).contains(x),
{
    lemma_candidates_costly(c, rates, min_life_secs);
    if c.cpu_consumers@.len() > 0 {
        lemma_cpu_consumers(c.cpu_consumers@, x);
        lemma_ranked_members(recent(c.cpu_consumers@), x);
    } else {
        let g = grouped(c.agent_sessions@, false);
        let m = SuspectView {
            name: "managed agents"@,
            count: c.monitor_total.proc_count,
            measure: c.monitor_total.percent_of_one_core,
            cost: Cost::PercentOfOneCore,
        };
        lemma_ranked_members(cumulative(c, rates, min_life_secs), x);
        lemma_lifetime_groups(g, rates, min_life_secs, x);
        lemma_suspected(lifetime(g, rates, min_life_secs), m, x);
        law_groups_account_for_every_session(c.agent_sessions@, false);
        if lifetime(g, rates, min_life_secs).contains(x) {
            let k = choose|k: int|
                0 <= k < g.len() && k < rates.len() && (#[trigger] g[k]).program == x.name
                    && g[k].count == x.count && g[k].life_secs >= min_life_secs && g[k].life_secs
                    > 0 && x.measure == rates[k] && x.cost == Cost::PercentOfOneCore;
            assert(accounts_for(g[k], c.agent_sessions@, false));
            assert(rates[k] == x.measure);
        }
    }
}

/// Where the census measured nobody on the CPU, every program whose sessions have
/// lived long enough is there, with the rate at its place among the programs in the
/// order of their names, if that rate is above zero.
pub proof fn law_every_old_program_is_there(
    d: Dimension,
    c: Census,
    rates: Seq<Real>,
    min_life_secs: u64,
    k: int,
)
    requires
        d == Dimension::Cpu || d == Dimension::Thermal,
        c.cpu_consumers@.len() == 0,
        0 <= k < grouped(c.agent_sessions@, false).len(),
        k < rates.len(),
        (Real { bits: 0 }).below(rates[k]),
    ensures
        ({
            let program = grouped(c.agent_sessions@, false)[k].program;
            longest_of(c.agent_sessions@, false, program) >= min_life_secs && longest_of(
                c.agent_sessions@,
                false,
                program,
            ) > 0 ==> exists|x: SuspectView| #[trigger]
                lineup(d, c, rates, min_life_secs).contains(x) && x.name == program && x.measure
                    == rates[k]
        }),
{
    let g = grouped(c.agent_sessions@, false);
    law_groups_account_for_every_session(c.agent_sessions@, false);
    assert(accounts_for(g[k], c.agent_sessions@, false));
    let x = SuspectView {
        name: g[k].program,
        count: g[k].count,
        measure: rates[k],
        cost: Cost::PercentOfOneCore,
    };
    if g[k].life_secs >= min_life_secs && g[k].life_secs > 0 {
        lemma_candidates_costly(c, rates, min_life_secs);
        lemma_ranked_members(cumulative(c, rates, min_life_secs), x);
        lemma_lifetime_groups(g, rates, min_life_secs, x);
        let m = SuspectView {
            name: "managed agents"@,
            count: c.monitor_total.proc_count,
            measure: c.monitor_total.percent_of_one_core,
            cost: Cost::PercentOfOneCore,
        };
        lemma_suspected(lifetime(g, rates, min_life_secs), m, x);
        assert(lineup(d, c, rates, min_life_secs).contains(x));
    }
}

/// Behind the managed agents stands each of their groups that has lived long
/// enough, by its own rate.
pub proof fn law_managed_agents_are_by_group(
    c: Census,
    rates: Seq<Real>,
    min_life_secs: u64,
    x: SuspectView,
)
    ensures
        lineup(Dimension::Corporate, c, rates, min_life_secs).contains(x) <==> weighs(x)
            && is_managed_group(c.monitor_agents@, min_life_secs, x),
{
    lemma_candidates_costly(c, rates, min_life_secs);
    lemma_managed_groups(c.monitor_agents@, min_life_secs, x);
    lemma_ranked_members(managed(c.monitor_agents@, min_life_secs), x);
}

/// Behind orphans stand their programs, in the order of the census: one more at the
/// end of the census is one more at the end, if it costs something.
pub proof fn law_orphans_keep_their_order(
    a: Census,
    b: Census,
    p: OrphanProgram,
    rates: Seq<Real>,
    min_life_secs: u64,
)
    requires
        b.orphans.orphans_by_program@ == a.orphans.orphans_by_program@.push(p),
    ensures
        ({
            let x = SuspectView {
                name: p.program@,
                count: p.count,
                measure: real_of(p.rss_bytes as nat),
                cost: Cost::Bytes,
            };
            let before = lineup(Dimension::Orphans, a, rates, min_life_secs);
            lineup(Dimension::Orphans, b, rates, min_life_secs) == if weighs(x) {
                before.push(x)
            } else {
                before
            }
        }),
        a.orphans.orphans_by_program@.len() == 0 ==> lineup(
            Dimension::Orphans,
            a,
            rates,
            min_life_secs,
        ).len() == 0,
{
    assert(b.orphans.orphans_by_program@.drop_last() =~= a.orphans.orphans_by_program@);
}

/// Biggest first: nobody stands after somebody who costs less, and those who cost
/// the same are by name. Only orphans keep the order of the census.
pub proof fn law_the_biggest_come_first(
    d: Dimension,
    c: Census,
    rates: Seq<Real>,
    min_life_secs: u64,
    i: int,
    j: int,
)
    requires
        d != Dimension::Orphans,
        0 <= i < j < lineup(d, c, rates, min_life_secs).len(),
    ensures
        ({
            let a = lineup(d, c, rates, min_life_secs)[i];
            let b = lineup(d, c, rates, min_life_secs)[j];
            &&& weighs(a) && weighs(b)
            &&& b.measure.at_most(a.measure)
            &&& b.measure.same(a.measure) ==> !sorts_before(b.name, a.name)
        }),
{
    law_the_lineup_is_ranked(d, c, rates, min_life_secs);
    let all = lineup(d, c, rates, min_life_secs);
    assert(all[i].costs() && all[j].costs());
    assert(!order::<Suspect>()(all[j], all[i]));
}

/// The first of the lineup are named, as many as the limit allows, each with its
/// count and with the words for its own measure.
pub proof fn law_the_first_are_named(
    d: Dimension,
    c: Census,
    rates: Seq<Real>,
    measures: Seq<String>,
    config: PressureConfig,
)
    ensures
        ({
            let all = lineup(d, c, rates, config.corporate_min_life_secs);
            let who = worded(suspects_of(d, c, rates, config), measures);
            &&& who.len() == if all.len() > config.who_limit {
                config.who_limit as int
            } else {
                all.len() as int
            }
            &&& forall|i: int|
                0 <= i < who.len() ==> {
                    &&& (#[trigger] who[i]).name == all[i].name
                    &&& who[i].count == all[i].count
                    &&& i < measures.len() && all[i].cost == Cost::Bytes ==> who[i].detail
                        == measures[i]@
                    &&& i < measures.len() && all[i].cost == Cost::PercentOfOneCore
                        ==> who[i].detail == measures[i]@ + "% of one core"@
                }
        }),
{
}

proof fn lemma_app_count(s: Seq<AppGroup>)
    ensures
        app_suspects(s).len() <= s.len(),
    decreases s.len(),
{
    if s.len() > 0 {
        lemma_app_count(s.drop_last());
    }
}

proof fn lemma_session_count(base: Seq<SuspectView>, g: Seq<GroupView>)
    ensures
        session_suspects(base, g).len() <= base.len() + g.len(),
    decreases g.len(),
{
    if g.len() > 0 {
        lemma_session_count(base, g.drop_last());
    }
}

/// Nobody is listed twice: no more stand behind a dimension that is about memory
/// than there are app groups, programs with sessions, and totals.
pub proof fn law_nobody_is_listed_twice(
    d: Dimension,
    c: Census,
    rates: Seq<Real>,
    min_life_secs: u64,
)
    requires
        memory_shaped(d),
    ensures
        lineup(d, c, rates, min_life_secs).len() <= c.app_groups@.len() + grouped(
            c.agent_sessions@,
            false,
        ).len() + 3,
        forall|i: int, j: int|
            0 <= i < j < grouped(c.agent_sessions@, false).len() ==> (#[trigger] grouped(
                c.agent_sessions@,
                false,
            )[i]).program != (#[trigger] grouped(c.agent_sessions@, false)[j]).program,
{
    let g = grouped(c.agent_sessions@, false);
    lemma_candidates_costly(c, rates, min_life_secs);
    lemma_app_count(c.app_groups@);
    lemma_session_count(app_suspects(c.app_groups@), g);
    crate::sorting::lemma_sorted_len(sized(c), order::<Suspect>());
    law_groups_account_for_every_session(c.agent_sessions@, false);
    assert forall|i: int, j: int| 0 <= i < j < g.len() implies (#[trigger] g[i]).program != (
    #[trigger] g[j]).program by {
        assert(sorts_before(g[i].program, g[j].program));
        crate::text::lemma_sorts_before_irreflexive(g[i].program);
    }
}

/// A suspect keeps its name and its count when it is named, and its cost is told in
/// the digits given for it: a size as it is, a rate as a share of one core.
pub proof fn law_a_suspect_is_told_by_its_cost(s: Seq<SuspectView>, measures: Seq<String>, i: int)
    requires
        0 <= i < s.len(),
        i < measures.len(),
    ensures
        worded(s, measures).len() == s.len(),
        worded(s, measures)[i].name == s[i].name,
        worded(s, measures)[i].count == s[i].count,
        worded(s, measures)[i].detail == if s[i].cost == Cost::Bytes {
            measures[i]@
        } else {
            measures[i]@ + "% of one core"@
        },
{
}

/// A line names each in turn, with how many there are and what they cost, and there
/// is none where there is nobody to name.
pub proof fn law_a_line_names_each_in_turn(s: Seq<ConsumerView>, x: ConsumerView)
    ensures
        ({
            let named = x.name + " ×"@ + decimal(x.count as nat) + " at "@ + x.detail;
            &&& line_of(Seq::empty()) is None
            &&& line_of(seq![x]) == Some("who: "@ + named)
            &&& line_of(s) matches Some(line) ==> line_of(s.push(x)) == Some(
                line + ", "@ + named,
            )
            &&& line_of(s) is None ==> s.len() == 0
        }),
{
    let named = x.name + " ×"@ + decimal(x.count as nat) + " at "@ + x.detail;
    assert(x.text() =~= named);
    assert(texts(seq![x]) =~= seq![named]);
    let more = texts(s.push(x));
    assert(more.drop_last() =~= texts(s));
    if s.len() > 0 {
        assert(joined(more, ", "@) == joined(texts(s), ", "@) + ", "@ + named);
        assert(line_of(s.push(x))->0 =~= line_of(s)->0 + ", "@ + named);
    }
}

} // verus!
