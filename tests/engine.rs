use rust_runner::health::{estimate, MIN_PERIOD_NS};
use rust_runner::record::{Ratio, TaskInfo};
use rust_runner::rolling::RollingStats;
use rust_runner::snapshot::enrich_entries;

fn info(runtime_ns: u64, switches: u64, tickets: u32) -> TaskInfo {
    TaskInfo { runtime_ns, switches, nice: 0, tickets, last_switch_in_ts: 0 }
}

fn as_f64(r: Ratio) -> f64 {
    r.num as f64 / r.den as f64
}

#[test]
fn first_sample_has_zero_delta_and_zero_smoothing() {
    let mut rolling = RollingStats::new(500_000);
    assert_eq!(rolling.update(7, 9_000_000, 40), (0, 0, 0));
}

#[test]
fn later_samples_give_clamped_deltas() {
    let mut rolling = RollingStats::new(500_000);
    rolling.update(7, 1_000_000, 10);
    let (delta, smoothed, switches) = rolling.update(7, 3_000_000, 13);
    assert_eq!(delta, 2_000_000);
    assert_eq!(switches, 3);
    // half of 2 ms plus half of the seed 0
    assert_eq!(smoothed, 1_000_000);
    let (delta, smoothed, switches) = rolling.update(7, 500, 2);
    assert_eq!(delta, 0);
    assert_eq!(switches, 0);
    assert_eq!(smoothed, 500_000);
}

#[test]
fn alpha_is_clamped_to_one() {
    let mut rolling = RollingStats::new(5_000_000);
    rolling.update(1, 0, 0);
    let (_, smoothed, _) = rolling.update(1, 4_000_000, 1);
    assert_eq!(smoothed, 4_000_000);
    let (_, smoothed, _) = rolling.update(1, 5_000_000, 2);
    assert_eq!(smoothed, 1_000_000);
}

#[test]
fn alpha_zero_keeps_the_seed() {
    let mut rolling = RollingStats::new(0);
    rolling.update(1, 0, 0);
    let (delta, smoothed, _) = rolling.update(1, 4_000_000, 1);
    assert_eq!(delta, 4_000_000);
    assert_eq!(smoothed, 0);
}

#[test]
fn tasks_do_not_share_state() {
    let mut rolling = RollingStats::new(1_000_000);
    rolling.update(1, 100, 1);
    assert_eq!(rolling.update(2, 5_000, 5), (0, 0, 0));
    assert_eq!(rolling.update(1, 300, 4), (200, 200, 3));
}

#[test]
fn scenario_one_health() {
    let h = estimate(2, 500_000, 1_000_000_000);
    assert_eq!(h.estimated_period_ns, 500_000_000);
    assert_eq!(h.deadline_ns, 500_000_000);
    assert_eq!(h.lateness_ns, 500_000 - 500_000_000);
    assert!(!h.deadline_missed());
    assert_eq!(h.utilization, Ratio { num: 500_000, den: 500_000_000 });
    assert!((as_f64(h.utilization) - 0.001).abs() < 1e-12);
}

#[test]
fn no_switches_means_one_period_per_window() {
    let h = estimate(0, 3_000_000, 2_000_000);
    assert_eq!(h.estimated_period_ns, 2_000_000);
    assert_eq!(h.lateness_ns, 1_000_000);
    assert!(h.deadline_missed());
    assert_eq!(h.utilization, Ratio { num: 3_000_000, den: 2_000_000 });
}

#[test]
fn window_and_period_have_floors() {
    let h = estimate(0, 0, 0);
    assert_eq!(h.estimated_period_ns, 1_000_000);
    let h = estimate(1_000_000, 0, 5_000_000);
    assert_eq!(h.estimated_period_ns, MIN_PERIOD_NS);
    assert_eq!(h.utilization.den, MIN_PERIOD_NS);
    assert_eq!(h.lateness_ns, -(MIN_PERIOD_NS as i128));
}

#[test]
fn utilization_is_not_capped() {
    let h = estimate(10, 900_000_000, 1_000_000_000);
    assert_eq!(h.estimated_period_ns, 100_000_000);
    assert!(as_f64(h.utilization) > 1.0);
    assert!(as_f64(h.utilization).is_finite());
}

#[test]
fn scenario_one_end_to_end() {
    let mut rolling = RollingStats::new(500_000);
    let first = vec![(10u32, info(500_000, 3, 100))];
    let snaps = enrich_entries(&first, 100, &mut rolling, 1_000_000_000);
    assert_eq!(snaps.len(), 1);
    assert_eq!(snaps[0].runtime_delta_ns, 0);
    let second = vec![(10u32, info(1_000_000, 5, 100))];
    let snaps = enrich_entries(&second, 100, &mut rolling, 1_000_000_000);
    let s = snaps[0];
    assert_eq!(s.pid, 10);
    assert_eq!(s.runtime_delta_ns, 500_000);
    assert!((as_f64(s.runtime_delta_ms()) - 0.5).abs() < 1e-12);
    assert_eq!(s.switch_delta, 2);
    assert_eq!(s.estimated_period_ns, 500_000_000);
    assert_eq!(s.deadline_ns, 500_000_000);
    assert!(s.lateness_ns < 0);
    assert!(!s.deadline_missed());
    assert!((as_f64(s.utilization) - 0.001).abs() < 1e-12);
    assert_eq!(s.ticket_share, Ratio { num: 100, den: 100 });
    assert_eq!(s.rolling_runtime_ns, 250_000);
}

#[test]
fn scenario_two_empty_table() {
    let mut rolling = RollingStats::new(500_000);
    let snaps = enrich_entries(&[], 0, &mut rolling, 1_000_000_000);
    assert!(snaps.is_empty());
}

#[test]
fn scenario_four_vanished_task_is_omitted() {
    let mut rolling = RollingStats::new(1_000_000);
    let n = vec![(1u32, info(100, 1, 10)), (2u32, info(200, 1, 10))];
    let snaps = enrich_entries(&n, 20, &mut rolling, 1_000_000);
    assert_eq!(snaps.len(), 2);
    let n1 = vec![(2u32, info(700, 2, 10))];
    let snaps = enrich_entries(&n1, 10, &mut rolling, 1_000_000);
    assert_eq!(snaps.len(), 1);
    assert_eq!(snaps[0].pid, 2);
    assert_eq!(snaps[0].runtime_delta_ns, 500);
    // the engine still remembers task 1
    let n2 = vec![(1u32, info(1_100, 2, 10))];
    let snaps = enrich_entries(&n2, 10, &mut rolling, 1_000_000);
    assert_eq!(snaps[0].runtime_delta_ns, 1_000);
}

#[test]
fn runtime_ms_is_exact() {
    let i = info(1_500_000, 0, 0);
    assert!((as_f64(i.runtime_ms()) - 1.5).abs() < 1e-12);
    assert_eq!(TaskInfo::default(), info(0, 0, 0));
}
