use rand::rngs::StdRng;
use rand::SeedableRng;
use rust_runner::fairness::{
    pick_winner, population_tickets, simulate_lottery_draws, tally_draws, ticket_share, total_tickets,
};
use rust_runner::record::{Ratio, TaskInfo};
use rust_runner::rolling::RollingStats;
use rust_runner::snapshot::{enrich_entries, TaskSnapshot};

fn population(tickets: &[(u32, u32)]) -> Vec<TaskSnapshot> {
    let entries: Vec<(u32, TaskInfo)> = tickets
        .iter()
        .map(|&(pid, t)| (pid, TaskInfo { runtime_ns: 0, switches: 0, nice: 0, tickets: t, last_switch_in_ts: 0 }))
        .collect();
    let total = total_tickets(&entries);
    let mut rolling = RollingStats::new(500_000);
    enrich_entries(&entries, total, &mut rolling, 1_000_000_000)
}

#[test]
fn share_is_zero_without_tickets() {
    assert_eq!(ticket_share(5, 0), Ratio { num: 0, den: 1 });
    assert_eq!(ticket_share(30, 100), Ratio { num: 30, den: 100 });
}

#[test]
fn shares_sum_to_one() {
    let pop = population(&[(1, 30), (2, 70), (3, 0)]);
    let sum: f64 = pop.iter().map(|s| s.ticket_share.num as f64 / s.ticket_share.den as f64).sum();
    assert!((sum - 1.0).abs() < 1e-9);
    let none = population(&[(1, 0), (2, 0)]);
    assert!(none.iter().all(|s| s.ticket_share.num == 0));
}

#[test]
fn totals_add_tickets() {
    let pop = population(&[(1, 30), (2, 70), (3, u32::MAX)]);
    assert_eq!(population_tickets(&pop), 100 + u32::MAX as u64);
}

#[test]
fn roulette_scans_in_population_order() {
    let pop = population(&[(1, 30), (2, 0), (3, 70)]);
    assert_eq!(pick_winner(&pop, 0), Some(0));
    assert_eq!(pick_winner(&pop, 29), Some(0));
    assert_eq!(pick_winner(&pop, 30), Some(2));
    assert_eq!(pick_winner(&pop, 99), Some(2));
    assert_eq!(pick_winner(&pop, 100), None);
}

#[test]
fn tally_orders_by_wins_then_id() {
    let pop = population(&[(9, 10), (4, 10), (5, 10)]);
    let r = tally_draws(&pop, &[0, 15, 25, 12, 29, 3]);
    assert_eq!(r, vec![(4, 2), (5, 2), (9, 2)]);
    let r = tally_draws(&pop, &[25, 26, 0]);
    assert_eq!(r, vec![(5, 2), (9, 1)]);
}

#[test]
fn tally_merges_repeated_ids() {
    let pop = population(&[(1, 10), (2, 10), (1, 10)]);
    let r = tally_draws(&pop, &[0, 25, 15]);
    assert_eq!(r, vec![(1, 2), (2, 1)]);
}

#[test]
fn no_draws_or_no_tickets_give_nothing() {
    let mut rng = StdRng::seed_from_u64(1);
    let pop = population(&[(1, 30), (2, 70)]);
    assert!(simulate_lottery_draws(&mut rng, &pop, 0).is_empty());
    let zero = population(&[(1, 0), (2, 0)]);
    assert!(simulate_lottery_draws(&mut rng, &zero, 50).is_empty());
    assert!(simulate_lottery_draws(&mut rng, &[], 50).is_empty());
}

#[test]
fn scenario_three_weighted_draws() {
    let mut rng = StdRng::seed_from_u64(42);
    let pop = population(&[(1, 30), (2, 70)]);
    let r = simulate_lottery_draws(&mut rng, &pop, 1000);
    let total: u32 = r.iter().map(|&(_, c)| c).sum();
    assert_eq!(total, 1000);
    let b = r.iter().find(|&&(pid, _)| pid == 2).map(|&(_, c)| c).unwrap_or(0);
    assert!(b > 600 && b < 800, "B won {b}");
    assert_eq!(r[0].0, 2);
}

#[test]
fn same_seed_gives_same_tally() {
    let pop = population(&[(1, 5), (2, 5), (3, 5), (4, 1)]);
    let mut a = StdRng::seed_from_u64(7);
    let mut b = StdRng::seed_from_u64(7);
    let ra = simulate_lottery_draws(&mut a, &pop, 200);
    let rb = simulate_lottery_draws(&mut b, &pop, 200);
    assert_eq!(format!("{ra:?}"), format!("{rb:?}"));
}

#[test]
fn zero_ticket_tasks_never_win() {
    let mut rng = StdRng::seed_from_u64(3);
    let pop = population(&[(1, 0), (2, 1), (3, 0)]);
    let r = simulate_lottery_draws(&mut rng, &pop, 50);
    assert_eq!(r, vec![(2, 50)]);
}
