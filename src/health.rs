use vstd::prelude::*;

use crate::record::Ratio;

verus! {

/// Shortest sampling window that the estimate accepts: one millisecond.
pub const MIN_WINDOW_NS: u64 = 1_000_000;

/// Shortest estimated period: a tenth of a millisecond.
pub const MIN_PERIOD_NS: u64 = 100_000;

/// EDF-flavoured health of one task over one sampling window. The deadline
/// is taken to be one estimated period: a heuristic budget, not a real-time
/// guarantee.
#[derive(Debug, Clone, Copy, PartialEq, Eq, Structural)]
pub struct Health {
    pub estimated_period_ns: u64,
    pub deadline_ns: u64,
    pub lateness_ns: i128,
    pub utilization: Ratio,
}

/// The window, raised to `MIN_WINDOW_NS`.
pub open spec fn floored_window(window_ns: u64) -> u64 {
    if window_ns < MIN_WINDOW_NS {
        MIN_WINDOW_NS
    } else {
        window_ns
    }
}

/// The window divided by the number of switches in it (or the whole window
/// when there were none), raised to `MIN_PERIOD_NS`.
pub open spec fn period_of(switch_delta: u64, window_ns: u64) -> u64 {
    let w = floored_window(window_ns);
    let p = if switch_delta > 0 {
        (w / switch_delta) as u64
    } else {
        w
    };
    if p < MIN_PERIOD_NS {
        MIN_PERIOD_NS
    } else {
        p
    }
}

pub open spec fn health_of(switch_delta: u64, runtime_delta_ns: u64, window_ns: u64) -> Health {
    let p = period_of(switch_delta, window_ns);
    Health {
        estimated_period_ns: p,
        deadline_ns: p,
        lateness_ns: (runtime_delta_ns - p) as i128,
        utilization: Ratio { num: runtime_delta_ns, den: p },
    }
}

/// Estimates period, deadline, lateness and utilization of a task that
/// switched `switch_delta` times and ran `runtime_delta_ns` in a window of
/// `window_ns`. The period is never under `MIN_PERIOD_NS`, so the
/// utilization always has a positive denominator; it is not capped at one.
pub fn estimate(switch_delta: u64, runtime_delta_ns: u64, window_ns: u64) -> (r: Health)
    ensures
        r == health_of(switch_delta, runtime_delta_ns, window_ns),
        r.estimated_period_ns >= MIN_PERIOD_NS,
        r.deadline_ns >= MIN_PERIOD_NS,
        r.utilization.wf(),
        r.lateness_ns == runtime_delta_ns - r.deadline_ns,
{
    let w = if window_ns < MIN_WINDOW_NS {
        MIN_WINDOW_NS
    } else {
        window_ns
    };
    let p = if switch_delta > 0 {
        w / switch_delta
    } else {
        w
    };
    let p = if p < MIN_PERIOD_NS {
        MIN_PERIOD_NS
    } else {
        p
    };
    Health {
        estimated_period_ns: p,
        deadline_ns: p,
        lateness_ns: runtime_delta_ns as i128 - p as i128,
        utilization: Ratio { num: runtime_delta_ns, den: p },
    }
}

impl Health {
    /// A task misses its heuristic deadline when its lateness is positive.
    pub fn deadline_missed(&self) -> (r: bool)
        ensures
            r == (self.lateness_ns > 0),
    {
        self.lateness_ns > 0
    }
}

} // verus!
