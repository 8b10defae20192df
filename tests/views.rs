use rust_runner::plan::{entry, Command, RunPlan};
use rust_runner::history::{make_history_sample, HistorySample, HistoryWindow};
use rust_runner::ranking::{deadline_alerts, rank, top_n, RankBy};
use rust_runner::record::{Ratio, TaskInfo};
use rust_runner::table::{
    classify_open_error, lookup_outcome, next_key_outcome, sort_by_pid, AccessError, Lookup, NextKey, ScanStep,
    TableScan, ENOENT,
};
use rust_runner::snapshot::TaskSnapshot;

fn snap(pid: u32, tickets: u64, total: u64, lateness_ns: i128) -> TaskSnapshot {
    TaskSnapshot {
        pid,
        info: TaskInfo { runtime_ns: 0, switches: 0, nice: 0, tickets: tickets as u32, last_switch_in_ts: 0 },
        runtime_delta_ns: 1_000,
        rolling_runtime_ns: 0,
        switch_delta: 0,
        estimated_period_ns: 1_000_000,
        deadline_ns: 1_000_000,
        lateness_ns,
        utilization: Ratio { num: 1_000, den: 1_000_000 },
        ticket_share: Ratio { num: tickets, den: total },
    }
}

fn info(runtime_ns: u64) -> TaskInfo {
    TaskInfo { runtime_ns, switches: 0, nice: 0, tickets: 0, last_switch_in_ts: 0 }
}

#[test]
fn ranking_by_share_is_stable() {
    let s = vec![snap(1, 10, 100, 0), snap(2, 50, 100, 0), snap(3, 10, 100, 0), snap(4, 30, 100, 0)];
    assert_eq!(rank(&s, RankBy::TicketShare), vec![1, 3, 0, 2]);
}

#[test]
fn ranking_compares_fractions_exactly() {
    let s = vec![snap(1, 1, 3, 0), snap(2, 2, 6, 0), snap(3, 1, 2, 0)];
    assert_eq!(rank(&s, RankBy::TicketShare), vec![2, 0, 1]);
}

#[test]
fn ranking_by_lateness() {
    let s = vec![snap(1, 0, 1, -5), snap(2, 0, 1, 7), snap(3, 0, 1, 7), snap(4, 0, 1, 0)];
    assert_eq!(rank(&s, RankBy::Lateness), vec![1, 2, 3, 0]);
}

#[test]
fn top_n_shows_at_least_one() {
    let s = vec![snap(1, 10, 100, 0), snap(2, 50, 100, 0), snap(3, 40, 100, 0)];
    let order = rank(&s, RankBy::TicketShare);
    let top = top_n(&s, &order, 2);
    assert_eq!(top.iter().map(|x| x.pid).collect::<Vec<_>>(), vec![2, 3]);
    assert_eq!(top_n(&s, &order, 0).len(), 1);
    assert_eq!(top_n(&s, &order, 10).len(), 3);
    assert!(top_n(&[], &[], 5).is_empty());
}

#[test]
fn alerts_filter_and_order() {
    let s = vec![snap(1, 0, 1, 10), snap(2, 0, 1, 50), snap(3, 0, 1, 5), snap(4, 0, 1, 50)];
    assert_eq!(deadline_alerts(&s, 5), vec![1, 3, 0]);
    assert!(deadline_alerts(&s, 50).is_empty());
}

#[test]
fn history_sample_sums() {
    let s = vec![snap(1, 10, 100, -20), snap(2, 60, 100, 30), snap(3, 30, 100, 10)];
    let h = make_history_sample(&s);
    assert_eq!(h.total_lateness_ns, 20);
    assert_eq!(h.max_lateness_ns, 30);
    assert_eq!(h.total_tasks, 3);
    assert_eq!(h.overdue_tasks, 2);
    assert_eq!(h.total_runtime_ns, 3_000);
    assert_eq!(h.total_utilization_ppm, 3_000);
    assert_eq!(h.top_pid, Some(2));
    assert_eq!(h.top_share, Ratio { num: 60, den: 100 });
}

#[test]
fn history_sample_of_nothing() {
    let h = make_history_sample(&[]);
    assert_eq!(h.top_pid, None);
    assert_eq!(h.total_tasks, 0);
    assert_eq!(h.max_lateness_ns, 0);
    let late = vec![snap(1, 1, 2, -4), snap(2, 1, 2, -9)];
    let h = make_history_sample(&late);
    assert_eq!(h.max_lateness_ns, 0);
    assert_eq!(h.top_pid, Some(2));
}

#[test]
fn history_window_keeps_the_newest() {
    let mut w = HistoryWindow::new(2);
    assert!(w.latest().is_none());
    let mk = |n: usize| -> HistorySample {
        let mut h = make_history_sample(&[]);
        h.total_tasks = n;
        h
    };
    w.push(mk(1));
    w.push(mk(2));
    w.push(mk(3));
    assert_eq!(w.iter().iter().map(|h| h.total_tasks).collect::<Vec<_>>(), vec![2, 3]);
    assert_eq!(w.latest().map(|h| h.total_tasks), Some(3));
    let mut one = HistoryWindow::new(0);
    one.push(mk(4));
    one.push(mk(5));
    assert_eq!(one.iter().len(), 1);
}

#[test]
fn scan_drops_vanished_keys_and_sorts() {
    let mut scan = TableScan::new();
    assert_eq!(scan.cursor(), None);
    assert_eq!(scan.on_next_key(NextKey::Key(30)), ScanStep::LookUp(30));
    assert_eq!(scan.cursor(), Some(30));
    assert_eq!(scan.on_lookup(30, Lookup::Found(info(3))), Ok(()));
    assert_eq!(scan.on_next_key(NextKey::Key(5)), ScanStep::LookUp(5));
    assert_eq!(scan.on_lookup(5, Lookup::Vanished), Ok(()));
    assert_eq!(scan.on_next_key(NextKey::Key(10)), ScanStep::LookUp(10));
    assert_eq!(scan.on_lookup(10, Lookup::Found(info(1))), Ok(()));
    assert_eq!(scan.on_next_key(NextKey::End), ScanStep::Done);
    let out = scan.finish();
    assert_eq!(out, vec![(10, info(1)), (30, info(3))]);
}

#[test]
fn scan_failures_are_fatal() {
    let mut scan = TableScan::new();
    assert_eq!(scan.on_next_key(NextKey::Failed(5)), ScanStep::Fatal(AccessError::Io(5)));
    assert_eq!(scan.on_lookup(1, Lookup::Failed(9)), Err(AccessError::Io(9)));
    assert!(scan.finish().is_empty());
}

#[test]
fn errno_outcomes() {
    assert_eq!(next_key_outcome(0, 0, 4), NextKey::Key(4));
    assert_eq!(next_key_outcome(-1, ENOENT, 4), NextKey::End);
    assert_eq!(next_key_outcome(-1, 22, 4), NextKey::Failed(22));
    assert_eq!(lookup_outcome(0, 0, info(8)), Lookup::Found(info(8)));
    assert_eq!(lookup_outcome(-1, ENOENT, info(8)), Lookup::Vanished);
    assert_eq!(lookup_outcome(-1, 5, info(8)), Lookup::Failed(5));
    assert_eq!(classify_open_error(2), AccessError::NotFound);
    assert_eq!(classify_open_error(13), AccessError::PermissionDenied);
    assert_eq!(classify_open_error(1), AccessError::PermissionDenied);
    assert_eq!(classify_open_error(22), AccessError::Io(22));
    let _ = AccessError::InvalidPath;
}

#[test]
fn sort_by_pid_orders_entries() {
    let e = vec![(3u32, info(1)), (1u32, info(2)), (2u32, info(3)), (1u32, info(4))];
    assert_eq!(sort_by_pid(&e), vec![(1, info(2)), (1, info(4)), (2, info(3)), (3, info(1))]);
}

#[test]
fn plans_for_each_command() {
    assert_eq!(
        entry(Command::Dump { interval_s: 1 }),
        RunPlan { dashboard: false, sleep_ms: 1_000, window_ns: 1_000_000_000 }
    );
    assert_eq!(entry(Command::Dump { interval_s: 0 }), RunPlan { dashboard: false, sleep_ms: 0, window_ns: 1_000_000 });
    assert_eq!(entry(Command::Tui { refresh_ms: 20 }), RunPlan { dashboard: true, sleep_ms: 100, window_ns: 100_000_000 });
    assert_eq!(entry(Command::Dump { interval_s: u64::MAX }).window_ns, u64::MAX);
}
