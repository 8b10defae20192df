use vstd::prelude::*;

verus! {

/// Nanoseconds in one second.
pub const NS_PER_SEC: u64 = 1_000_000_000;

/// Shortest dashboard refresh period, in milliseconds.
pub const MIN_REFRESH_MS: u64 = 100;

/// The subcommand chosen on the command line, with its timing argument.
#[derive(Debug, Clone, Copy, PartialEq, Eq, Structural)]
pub enum Command {
    /// Print and export samples, `interval_s` seconds apart.
    Dump { interval_s: u64 },
    /// Run the live dashboard, refreshing every `refresh_ms` milliseconds.
    Tui { refresh_ms: u64 },
}

/// How a polling loop runs: which loop, how long it sleeps between samples,
/// and the window length handed to the health estimate.
#[derive(Debug, Clone, Copy, PartialEq, Eq, Structural)]
pub struct RunPlan {
    pub dashboard: bool,
    pub sleep_ms: u64,
    pub window_ns: u64,
}

/// `a * b`, or `u64::MAX` where the product does not fit.
pub open spec fn saturating_product(a: u64, b: u64) -> u64 {
    if a * b > u64::MAX {
        u64::MAX
    } else {
        (a * b) as u64
    }
}

fn saturating_mul(a: u64, b: u64) -> (r: u64)
    requires
        b > 0,
    ensures
        r == saturating_product(a, b),
{
    if a > u64::MAX / b {
        proof {
            assert(a * b > u64::MAX) by (nonlinear_arith)
                requires a > u64::MAX / b, b > 0;
        }
        u64::MAX
    } else {
        proof {
            assert(a * b <= u64::MAX) by (nonlinear_arith)
                requires a <= u64::MAX / b, b > 0;
        }
        a * b
    }
}

pub open spec fn plan_of(command: Command) -> RunPlan {
    match command {
        Command::Dump { interval_s } => RunPlan {
            dashboard: false,
            sleep_ms: saturating_product(interval_s, 1000),
            window_ns: if interval_s == 0 {
                1_000_000
            } else {
                saturating_product(interval_s, NS_PER_SEC)
            },
        },
        Command::Tui { refresh_ms } => {
            let r = if refresh_ms < MIN_REFRESH_MS {
                MIN_REFRESH_MS
            } else {
                refresh_ms
            };
            RunPlan { dashboard: true, sleep_ms: r, window_ns: saturating_product(r, 1_000_000) }
        },
    }
}

/// Decides how the chosen subcommand polls: a dump sleeps its interval and
/// takes that interval as the window (one millisecond when it does not
/// sleep); the dashboard refreshes no faster than every `MIN_REFRESH_MS`
/// and takes its refresh period as the window.
pub fn entry(command: Command) -> (r: RunPlan)
    ensures
        r == plan_of(command),
{
    match command {
        Command::Dump { interval_s } => RunPlan {
            dashboard: false,
            sleep_ms: saturating_mul(interval_s, 1000),
            window_ns: if interval_s == 0 {
                1_000_000
            } else {
                saturating_mul(interval_s, NS_PER_SEC)
            },
        },
        Command::Tui { refresh_ms } => {
            let r = if refresh_ms < MIN_REFRESH_MS {
                MIN_REFRESH_MS
            } else {
                refresh_ms
            };
            RunPlan { dashboard: true, sleep_ms: r, window_ns: saturating_mul(r, 1_000_000) }
        },
    }
}

} // verus!
