use vstd::prelude::*;

use crate::fairness::{share_of, ticket_share};
use crate::health::{estimate, health_of, MIN_PERIOD_NS};
use crate::history::lateness_in_range;
use crate::record::{Ratio, TaskInfo, NS_PER_MS};
use crate::rolling::{next_state, update_result, RollingStats, TaskState};

verus! {

/// Everything derived for one task in one polling iteration.
#[derive(Debug, Clone, Copy, PartialEq, Eq, Structural)]
pub struct TaskSnapshot {
    pub pid: u32,
    pub info: TaskInfo,
    pub runtime_delta_ns: u64,
    pub rolling_runtime_ns: u64,
    pub switch_delta: u64,
    pub estimated_period_ns: u64,
    pub deadline_ns: u64,
    pub lateness_ns: i128,
    pub utilization: Ratio,
    pub ticket_share: Ratio,
}

impl TaskSnapshot {
    /// Runtime in this window in milliseconds, as `runtime_delta_ns / 10^6`.
    pub fn runtime_delta_ms(&self) -> (r: Ratio)
        ensures
            r.num == self.runtime_delta_ns && r.den == NS_PER_MS,
    {
        Ratio { num: self.runtime_delta_ns, den: NS_PER_MS }
    }

    /// Whether the task ran past its heuristic deadline in this window.
    pub fn deadline_missed(&self) -> (r: bool)
        ensures
            r == (self.lateness_ns > 0),
    {
        self.lateness_ns > 0
    }
}

/// The engine's state after the first `n` entries have been sampled.
pub open spec fn states_after(
    start: Map<u32, TaskState>,
    alpha: nat,
    entries: Seq<(u32, TaskInfo)>,
    n: nat,
) -> Map<u32, TaskState>
    decreases n,
{
    if n == 0 || n > entries.len() {
        start
    } else {
        let prev = states_after(start, alpha, entries, (n - 1) as nat);
        let e = entries[n - 1];
        prev.insert(e.0, next_state(prev, alpha, e.0, e.1.runtime_ns, e.1.switches))
    }
}

/// The snapshot of entry `e`, sampled against engine state `states`.
pub open spec fn snapshot_of(
    states: Map<u32, TaskState>,
    alpha: nat,
    e: (u32, TaskInfo),
    total_tickets: u64,
    window_ns: u64,
) -> TaskSnapshot {
    let u = update_result(states, alpha, e.0, e.1.runtime_ns, e.1.switches);
    let h = health_of(u.2, u.0, window_ns);
    TaskSnapshot {
        pid: e.0,
        info: e.1,
        runtime_delta_ns: u.0,
        rolling_runtime_ns: u.1,
        switch_delta: u.2,
        estimated_period_ns: h.estimated_period_ns,
        deadline_ns: h.deadline_ns,
        lateness_ns: h.lateness_ns,
        utilization: h.utilization,
        ticket_share: share_of(e.1.tickets, total_tickets),
    }
}

/// What holds of every snapshot that `enrich_entries` builds: the period
/// and deadline are at least `MIN_PERIOD_NS`, the deadline is the period,
/// both fractions have a positive denominator, and the lateness is a
/// difference of two `u64` values.
pub open spec fn snapshot_valid(s: TaskSnapshot) -> bool {
    &&& s.estimated_period_ns >= MIN_PERIOD_NS
    &&& s.deadline_ns == s.estimated_period_ns
    &&& s.utilization.wf()
    &&& s.ticket_share.wf()
    &&& lateness_in_range(s)
}

/// Sampling an iteration leaves the engine's state of every task that the
/// iteration does not hold as it was: a task that left the table keeps its
/// last state, and is absent from the iteration's snapshots.
pub proof fn lemma_absent_task_state_kept(
    start: Map<u32, TaskState>,
    alpha: nat,
    entries: Seq<(u32, TaskInfo)>,
    pid: u32,
)
    requires
        forall|i: int| 0 <= i < entries.len() ==> (#[trigger] entries[i]).0 != pid,
    ensures
        states_after(start, alpha, entries, entries.len()).contains_key(pid) == start.contains_key(pid),
        start.contains_key(pid) ==> states_after(start, alpha, entries, entries.len())[pid] == start[pid],
{
    lemma_absent_kept_upto(start, alpha, entries, pid, entries.len());
}

proof fn lemma_absent_kept_upto(
    start: Map<u32, TaskState>,
    alpha: nat,
    entries: Seq<(u32, TaskInfo)>,
    pid: u32,
    n: nat,
)
    requires
        n <= entries.len(),
        forall|i: int| 0 <= i < entries.len() ==> (#[trigger] entries[i]).0 != pid,
    ensures
        states_after(start, alpha, entries, n).contains_key(pid) == start.contains_key(pid),
        start.contains_key(pid) ==> states_after(start, alpha, entries, n)[pid] == start[pid],
    decreases n,
{
    if n > 0 {
        lemma_absent_kept_upto(start, alpha, entries, pid, (n - 1) as nat);
        assert(entries[n - 1].0 != pid);
    }
}

/// Builds one snapshot per table entry, in the entries' order, feeding each
/// entry to the engine in turn. An empty table gives no snapshot.
pub fn enrich_entries(
    entries: &[(u32, TaskInfo)],
    total_tickets: u64,
    rolling: &mut RollingStats,
    window_ns: u64,
) -> (r: Vec<TaskSnapshot>)
    requires
        old(rolling).wf(),
    ensures
        final(rolling).wf(),
        final(rolling).alpha() == old(rolling).alpha(),
        final(rolling)@ == states_after(old(rolling)@, old(rolling).alpha(), entries@, entries@.len()),
        r@.len() == entries@.len(),
        forall|i: int| 0 <= i < r@.len() ==> #[trigger] snapshot_valid(r@[i]),
        forall|i: int|
            0 <= i < entries@.len() ==> r@[i] == #[trigger] snapshot_of(
                states_after(old(rolling)@, old(rolling).alpha(), entries@, i as nat),
                old(rolling).alpha(),
                entries@[i],
                total_tickets,
                window_ns,
            ),
{
    let ghost start = rolling@;
    let ghost alpha = rolling.alpha();
    let mut out: Vec<TaskSnapshot> = Vec::new();
    let mut i: usize = 0;
    while i < entries.len()
        invariant
            i <= entries@.len(),
            rolling.wf(),
            rolling.alpha() == alpha,
            rolling@ == states_after(start, alpha, entries@, i as nat),
            out@.len() == i,
            forall|k: int| 0 <= k < out@.len() ==> #[trigger] snapshot_valid(out@[k]),
            forall|k: int|
                0 <= k < i ==> out@[k] == #[trigger] snapshot_of(
                    states_after(start, alpha, entries@, k as nat),
                    alpha,
                    entries@[k],
                    total_tickets,
                    window_ns,
                ),
        decreases entries@.len() - i,
    {
        let (pid, info) = entries[i];
        let (delta_ns, rolling_ns, switch_delta) = rolling.update(pid, info.runtime_ns, info.switches);
        let h = estimate(switch_delta, delta_ns, window_ns);
        let snap = TaskSnapshot {
            pid,
            info,
            runtime_delta_ns: delta_ns,
            rolling_runtime_ns: rolling_ns,
            switch_delta,
            estimated_period_ns: h.estimated_period_ns,
            deadline_ns: h.deadline_ns,
            lateness_ns: h.lateness_ns,
            utilization: h.utilization,
            ticket_share: ticket_share(info.tickets, total_tickets),
        };
        out.push(snap);
        i = i + 1;
    }
    out
}

} // verus!
