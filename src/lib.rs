//! Scheduling diagnostics over a kernel table of per-task counters: runtime
//! deltas and moving averages, lottery ticket shares and simulated draws,
//! EDF-style period, lateness and utilization estimates, and the reading
//! protocol for the table itself. Times are integer nanoseconds; shares and
//! utilizations are exact fractions.
pub mod fairness;
pub mod health;
pub mod history;
pub mod plan;
pub mod ranking;
pub mod record;
pub mod rolling;
pub mod snapshot;
pub mod table;
