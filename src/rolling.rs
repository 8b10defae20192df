use std::collections::HashMap;
use vstd::prelude::*;

verus! {

broadcast use vstd::std_specs::hash::group_hash_axioms;

/// The smoothing factor is given in parts per million: `ALPHA_SCALE` is one.
pub const ALPHA_SCALE: u64 = 1_000_000;

/// What the engine remembers of one task between two samples.
#[derive(Debug, Clone, Copy, PartialEq, Eq, Structural)]
pub struct TaskState {
    pub prev_runtime_ns: u64,
    pub prev_switches: u64,
    pub smoothed_runtime_ns: u64,
}

/// `a - b`, or zero where the counter appears to have gone backwards.
pub open spec fn clamped_delta(a: u64, b: u64) -> u64 {
    if a >= b {
        (a - b) as u64
    } else {
        0
    }
}

/// Exponential moving average with weight `alpha / ALPHA_SCALE` on the new
/// value, rounded down to the nanosecond.
pub open spec fn ewma(alpha: nat, delta: nat, prev: nat) -> nat {
    ((alpha * delta + (ALPHA_SCALE - alpha) * prev) / (ALPHA_SCALE as int)) as nat
}

/// The state a task has after a sample, given the state before it.
pub open spec fn next_state(
    states: Map<u32, TaskState>,
    alpha: nat,
    pid: u32,
    runtime_ns: u64,
    switches: u64,
) -> TaskState {
    TaskState {
        prev_runtime_ns: runtime_ns,
        prev_switches: switches,
        smoothed_runtime_ns: update_result(states, alpha, pid, runtime_ns, switches).1,
    }
}

/// `(runtime_delta_ns, smoothed_runtime_ns, switch_delta)` of a sample: all
/// zero on the first sample of a task, the clamped deltas and the moving
/// average after that.
pub open spec fn update_result(
    states: Map<u32, TaskState>,
    alpha: nat,
    pid: u32,
    runtime_ns: u64,
    switches: u64,
) -> (u64, u64, u64) {
    if states.contains_key(pid) {
        let s = states[pid];
        let d = clamped_delta(runtime_ns, s.prev_runtime_ns);
        (
            d,
            ewma(alpha, d as nat, s.smoothed_runtime_ns as nat) as u64,
            clamped_delta(switches, s.prev_switches),
        )
    } else {
        (0, 0, 0)
    }
}

/// Per-task deltas and smoothed runtimes over successive samples.
pub struct RollingStats {
    alpha_ppm: u64,
    states: HashMap<u32, TaskState>,
}

impl View for RollingStats {
    type V = Map<u32, TaskState>;

    closed spec fn view(&self) -> Map<u32, TaskState> {
        self.states@
    }
}

proof fn lemma_ewma_bounded(alpha: nat, delta: nat, prev: nat)
    requires
        alpha <= ALPHA_SCALE,
    ensures
        ewma(alpha, delta, prev) <= if delta >= prev { delta } else { prev },
{
    let m: nat = if delta >= prev { delta } else { prev };
    let s = ALPHA_SCALE as int;
    assert(alpha * delta <= alpha * m) by (nonlinear_arith)
        requires delta <= m;
    assert((s - alpha) * prev <= (s - alpha) * m) by (nonlinear_arith)
        requires prev <= m, alpha <= s;
    assert(alpha * m + (s - alpha) * m == s * m) by (nonlinear_arith);
    assert((alpha * delta + (s - alpha) * prev) / s <= (s * m) / s) by (nonlinear_arith)
        requires alpha * delta + (s - alpha) * prev <= s * m, s > 0, alpha * delta + (s - alpha) * prev >= 0;
    assert((s * m) / s == m) by (nonlinear_arith)
        requires s > 0;
}

impl RollingStats {
    /// The smoothing factor in parts per million, within `0..=ALPHA_SCALE`.
    pub closed spec fn alpha(&self) -> nat {
        self.alpha_ppm as nat
    }

    pub closed spec fn wf(&self) -> bool {
        self.alpha_ppm <= ALPHA_SCALE
    }

    /// An engine that has seen no task, with the smoothing factor clamped
    /// into `0..=ALPHA_SCALE`.
    pub fn new(alpha_ppm: u64) -> (r: Self)
        ensures
            r.wf(),
            r@ == Map::<u32, TaskState>::empty(),
            r.alpha() == if alpha_ppm > ALPHA_SCALE { ALPHA_SCALE as nat } else { alpha_ppm as nat },
    {
        let a = if alpha_ppm > ALPHA_SCALE { ALPHA_SCALE } else { alpha_ppm };
        RollingStats { alpha_ppm: a, states: HashMap::new() }
    }

    /// Takes one sample of task `pid` and returns
    /// `(runtime_delta_ns, smoothed_runtime_ns, switch_delta)`. Only the
    /// state of `pid` changes.
    pub fn update(&mut self, pid: u32, runtime_ns: u64, switches: u64) -> (r: (u64, u64, u64))
        requires
            old(self).wf(),
        ensures
            final(self).wf(),
            final(self).alpha() == old(self).alpha(),
            r == update_result(old(self)@, old(self).alpha(), pid, runtime_ns, switches),
            final(self)@ == old(self)@.insert(
                pid,
                next_state(old(self)@, old(self).alpha(), pid, runtime_ns, switches),
            ),
    {
        let prev = self.states.get(&pid);
        let r: (u64, u64, u64) = match prev {
            Some(s) => {
                let d: u64 = if runtime_ns >= s.prev_runtime_ns {
                    runtime_ns - s.prev_runtime_ns
                } else {
                    0
                };
                let sd: u64 = if switches >= s.prev_switches {
                    switches - s.prev_switches
                } else {
                    0
                };
                let a = self.alpha_ppm as u128;
                proof {
                    lemma_ewma_bounded(self.alpha_ppm as nat, d as nat, s.smoothed_runtime_ns as nat);
                    assert(a * (d as u128) <= 1_000_000 * 0xffff_ffff_ffff_ffff) by (nonlinear_arith)
                        requires a <= 1_000_000, d <= 0xffff_ffff_ffff_ffffu128;
                    assert(((ALPHA_SCALE as u128) - a) * (s.smoothed_runtime_ns as u128)
                        <= 1_000_000 * 0xffff_ffff_ffff_ffff) by (nonlinear_arith)
                        requires a <= 1_000_000, s.smoothed_runtime_ns <= 0xffff_ffff_ffff_ffffu128;
                }
                let num = a * (d as u128) + ((ALPHA_SCALE as u128) - a) * (s.smoothed_runtime_ns as u128);
                let smoothed = (num / (ALPHA_SCALE as u128)) as u64;
                (d, smoothed, sd)
            },
            None => (0, 0, 0),
        };
        self.states.insert(
            pid,
            TaskState { prev_runtime_ns: runtime_ns, prev_switches: switches, smoothed_runtime_ns: r.1 },
        );
        r
    }
}

/// The first sample of a task gives a zero runtime delta, a zero switch
/// delta, and a smoothed runtime seeded with that first delta, zero.
pub proof fn lemma_first_sample_is_zero(
    states: Map<u32, TaskState>,
    alpha: nat,
    pid: u32,
    runtime_ns: u64,
    switches: u64,
)
    requires
        !states.contains_key(pid),
    ensures
        update_result(states, alpha, pid, runtime_ns, switches) == (0u64, 0u64, 0u64),
        next_state(states, alpha, pid, runtime_ns, switches).smoothed_runtime_ns == 0,
{
}

/// After the first sample, the runtime delta is the counter's increase
/// since the previous sample, or zero when the counter went down: never
/// negative and never wrapped, so never more than the counter itself.
pub proof fn lemma_delta_is_clamped(
    states: Map<u32, TaskState>,
    alpha: nat,
    pid: u32,
    runtime_ns: u64,
    switches: u64,
)
    requires
        states.contains_key(pid),
    ensures
        update_result(states, alpha, pid, runtime_ns, switches).0 == if runtime_ns
            >= states[pid].prev_runtime_ns {
            runtime_ns - states[pid].prev_runtime_ns
        } else {
            0
        },
        update_result(states, alpha, pid, runtime_ns, switches).0 <= runtime_ns,
        update_result(states, alpha, pid, runtime_ns, switches).2 <= switches,
{
}

} // verus!
