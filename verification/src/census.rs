//! Who is running: the process census.
use vstd::prelude::*;

use crate::number::Real;
use crate::time::Timestamp;

verus! {

/// One interactive agent session.
#[derive(Clone, Debug, PartialEq, Eq)]
pub struct AgentSession {
    pub pid: u32,
    pub program: String,
    pub rss_bytes: u64,
    pub age_secs: u64,
    pub age_days: u64,
    pub cpu_secs: Real,
    pub tty: String,
    pub is_stale: bool,
    pub cwd: Option<String>,
}

/// A kind of helper process, as a total.
#[derive(Clone, Copy, Debug, PartialEq, Eq, Structural)]
pub struct HelperRollup {
    pub count: u32,
    pub rss_bytes: u64,
}

/// Orphans of one program.
#[derive(Clone, Debug, PartialEq, Eq)]
pub struct OrphanProgram {
    pub program: String,
    pub count: u32,
    pub rss_bytes: u64,
}

/// Helper processes, and those among them whose parent session is gone.
#[derive(Clone, Debug, PartialEq, Eq)]
pub struct OrphanCensus {
    pub total_count: u32,
    pub total_rss_bytes: u64,
    pub orphan_count: u32,
    pub orphan_rss_bytes: u64,
    /// Largest count first.
    pub orphans_by_program: Vec<OrphanProgram>,
}

/// A configured group of processes.
#[derive(Clone, Debug, PartialEq, Eq)]
pub struct AppGroup {
    pub name: String,
    pub proc_count: u32,
    pub rss_bytes: u64,
}

/// One group of centrally managed agents.
#[derive(Clone, Debug, PartialEq, Eq)]
pub struct MonitorAgent {
    pub name: String,
    pub proc_count: u32,
    pub percent_of_one_core: Real,
    pub longest_life_secs: u64,
}

/// The managed agents together, each process counted once.
#[derive(Clone, Copy, Debug, PartialEq, Eq, Structural)]
pub struct MonitorTotal {
    pub proc_count: u32,
    pub rss_bytes: u64,
    pub cpu_secs_total: Real,
    pub percent_of_one_core: Real,
    pub longest_life_secs: u64,
}

/// CPU spent between the last two censuses.
#[derive(Clone, Debug, PartialEq, Eq)]
pub struct CpuConsumer {
    pub name: String,
    pub proc_count: u32,
    pub percent_of_one_core: Real,
}

/// One census.
#[derive(Clone, Debug, PartialEq, Eq)]
pub struct Census {
    pub id: u128,
    pub taken_at: Timestamp,
    pub total_procs: u32,
    pub agent_sessions: Vec<AgentSession>,
    pub ide_helpers: HelperRollup,
    pub orphans: OrphanCensus,
    pub tmux_sessions: Vec<String>,
    pub app_groups: Vec<AppGroup>,
    pub monitor_agents: Vec<MonitorAgent>,
    pub monitor_total: MonitorTotal,
    pub tmux_available: bool,
    /// Empty when there was no earlier census to compare with.
    pub cpu_consumers: Vec<CpuConsumer>,
    /// Processes killed under sustained memory pressure since the last census.
    pub pressure_kills: Option<u64>,
}

/// How many of the sessions are stale.
pub open spec fn stale_in(sessions: Seq<AgentSession>) -> nat
    decreases sessions.len(),
{
    if sessions.len() == 0 {
        0
    } else {
        stale_in(sessions.drop_last()) + if sessions.last().is_stale {
            1nat
        } else {
            0nat
        }
    }
}

impl Census {
    pub fn stale_sessions(&self) -> (r: usize)
        ensures
            r == stale_in(self.agent_sessions@),
    {
        let n: usize = self.agent_sessions.len();
        let mut count: usize = 0;
        let mut i: usize = 0;
        while i < n
            invariant
                i <= n,
                n == self.agent_sessions.len(),
                count <= i,
                count == stale_in(self.agent_sessions@.take(i as int)),
            decreases n - i,
        {
            assert(self.agent_sessions@.take(i + 1).drop_last() =~= self.agent_sessions@.take(
                i as int,
            ));
            if self.agent_sessions[i].is_stale {
                count = count + 1;
            }
            i = i + 1;
        }
        assert(self.agent_sessions@.take(n as int) =~= self.agent_sessions@);
        count
    }
}

} // verus!
