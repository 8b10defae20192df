use rand::rngs::StdRng;
use rand::Rng;
use vstd::prelude::*;

use crate::record::{Ratio, TaskInfo};
use crate::snapshot::TaskSnapshot;

verus! {

/// A task's share of all tickets: `tickets / total_tickets`, or zero when
/// there are no tickets at all.
pub open spec fn share_of(tickets: u32, total_tickets: u64) -> Ratio {
    if total_tickets == 0 {
        Ratio { num: 0, den: 1 }
    } else {
        Ratio { num: tickets as u64, den: total_tickets }
    }
}

pub fn ticket_share(tickets: u32, total_tickets: u64) -> (r: Ratio)
    ensures
        r == share_of(tickets, total_tickets),
        r.wf(),
{
    if total_tickets == 0 {
        Ratio::zero()
    } else {
        Ratio { num: tickets as u64, den: total_tickets }
    }
}

/// The sum of the tickets of table entries.
pub open spec fn sum_tickets(entries: Seq<(u32, TaskInfo)>) -> nat
    decreases entries.len(),
{
    if entries.len() == 0 {
        0
    } else {
        sum_tickets(entries.drop_last()) + entries.last().1.tickets as nat
    }
}

proof fn lemma_sum_tickets_bound(entries: Seq<(u32, TaskInfo)>)
    ensures
        sum_tickets(entries) <= entries.len() * 0xffff_ffff,
    decreases entries.len(),
{
    if entries.len() > 0 {
        lemma_sum_tickets_bound(entries.drop_last());
    }
}

/// The total of the tickets of all entries; a table has at most one entry
/// per `u32` key, hence the bound on its length.
pub fn total_tickets(entries: &[(u32, TaskInfo)]) -> (r: u64)
    requires
        entries@.len() <= 0xffff_ffff,
    ensures
        r == sum_tickets(entries@),
{
    let mut total: u64 = 0;
    let mut i: usize = 0;
    while i < entries.len()
        invariant
            i <= entries@.len() <= 0xffff_ffff,
            total == sum_tickets(entries@.take(i as int)),
        decreases entries@.len() - i,
    {
        proof {
            assert(entries@.take(i as int + 1).drop_last() == entries@.take(i as int));
            lemma_sum_tickets_bound(entries@.take(i as int));
            assert(i * 0xffff_ffff <= 0xffff_fffe * 0xffff_ffff) by (nonlinear_arith)
                requires i <= 0xffff_fffe;
        }
        total = total + entries[i].1.tickets as u64;
        i = i + 1;
    }
    assert(entries@.take(i as int) == entries@);
    total
}

/// The sum of the numerators of every entry's share of `total`.
pub open spec fn sum_share_nums(entries: Seq<(u32, TaskInfo)>, total: u64) -> nat
    decreases entries.len(),
{
    if entries.len() == 0 {
        0
    } else {
        sum_share_nums(entries.drop_last(), total) + share_of(entries.last().1.tickets, total).num as nat
    }
}

/// Ticket shares taken against the total of the same entries add up to
/// exactly one: every share has that total as its denominator, and the
/// numerators add up to it. With no tickets at all every share is zero.
pub proof fn lemma_shares_sum_to_one(entries: Seq<(u32, TaskInfo)>)
    requires
        sum_tickets(entries) <= u64::MAX,
    ensures
        sum_tickets(entries) > 0 ==> sum_share_nums(entries, sum_tickets(entries) as u64)
            == sum_tickets(entries),
        sum_tickets(entries) > 0 ==> forall|i: int|
            0 <= i < entries.len() ==> #[trigger] share_of(entries[i].1.tickets, sum_tickets(entries) as u64).den
                == sum_tickets(entries),
        sum_tickets(entries) == 0 ==> forall|i: int|
            0 <= i < entries.len() ==> #[trigger] share_of(entries[i].1.tickets, 0).num == 0,
{
    let t = sum_tickets(entries) as u64;
    if t > 0 {
        lemma_share_nums_are_tickets(entries, t);
    }
}

proof fn lemma_share_nums_are_tickets(entries: Seq<(u32, TaskInfo)>, total: u64)
    requires
        total > 0,
    ensures
        sum_share_nums(entries, total) == sum_tickets(entries),
    decreases entries.len(),
{
    if entries.len() > 0 {
        lemma_share_nums_are_tickets(entries.drop_last(), total);
    }
}

/// The roulette wheel, scanned from position `i` with `target` left: the
/// first task whose ticket range holds the target wins; tasks without
/// tickets have an empty range and never win.
pub open spec fn winner_from(pop: Seq<TaskSnapshot>, target: int, i: nat) -> Option<int>
    decreases pop.len() - i,
{
    if i >= pop.len() {
        None
    } else if target < pop[i as int].info.tickets {
        Some(i as int)
    } else {
        winner_from(pop, target - pop[i as int].info.tickets, i + 1)
    }
}

/// The position in `pop` of the task that a draw of `target` selects.
pub open spec fn winner(pop: Seq<TaskSnapshot>, target: int) -> Option<int> {
    winner_from(pop, target, 0)
}

/// Picks the task whose ticket range holds `target`, scanning the
/// population in its own order.
pub fn pick_winner(population: &[TaskSnapshot], target: u64) -> (r: Option<usize>)
    ensures
        match r {
            Some(i) => i < population@.len() && winner(population@, target as int) == Some(i as int),
            None => winner(population@, target as int) is None,
        },
{
    let mut left: u64 = target;
    let mut i: usize = 0;
    while i < population.len()
        invariant
            i <= population@.len(),
            winner(population@, target as int) == winner_from(population@, left as int, i as nat),
        decreases population@.len() - i,
    {
        let share = population[i].info.tickets as u64;
        if left < share {
            return Some(i);
        }
        left = left - share;
        i = i + 1;
    }
    None
}

/// Whether a draw of `target` is won by a task with id `pid`.
pub open spec fn won_by(pop: Seq<TaskSnapshot>, target: int, pid: u32) -> bool {
    match winner(pop, target) {
        Some(i) => 0 <= i < pop.len() && pop[i].pid == pid,
        None => false,
    }
}

/// How many of the draws `targets` the task with id `pid` wins.
pub open spec fn wins_of(pop: Seq<TaskSnapshot>, targets: Seq<u64>, pid: u32) -> nat
    decreases targets.len(),
{
    if targets.len() == 0 {
        0
    } else {
        wins_of(pop, targets.drop_last(), pid) + if won_by(pop, targets.last() as int, pid) {
            1nat
        } else {
            0nat
        }
    }
}

/// Order of the tally: more wins first, then the smaller task id.
pub open spec fn ranks_before(a: (u32, u32), b: (u32, u32)) -> bool {
    a.1 > b.1 || (a.1 == b.1 && a.0 < b.0)
}

/// `r` is the tally of the draws `targets`: one `(pid, wins)` pair for each
/// task id that won at least once, with its exact number of wins, ordered
/// by `ranks_before`.
pub open spec fn is_tally(pop: Seq<TaskSnapshot>, targets: Seq<u64>, r: Seq<(u32, u32)>) -> bool {
    &&& forall|k: int|
        0 <= k < r.len() ==> #[trigger] r[k].1 > 0 && r[k].1 == wins_of(pop, targets, r[k].0)
    &&& forall|pid: u32|
        #[trigger] wins_of(pop, targets, pid) > 0 ==> exists|k: int|
            0 <= k < r.len() && r[k].0 == pid
    &&& forall|j: int, k: int| 0 <= j < k < r.len() ==> ranks_before(#[trigger] r[j], #[trigger] r[k])
}

proof fn lemma_wins_bounded(pop: Seq<TaskSnapshot>, targets: Seq<u64>, pid: u32)
    ensures
        wins_of(pop, targets, pid) <= targets.len(),
    decreases targets.len(),
{
    if targets.len() > 0 {
        lemma_wins_bounded(pop, targets.drop_last(), pid);
    }
}

fn ranks_before_exec(a: (u32, u32), b: (u32, u32)) -> (r: bool)
    ensures
        r == ranks_before(a, b),
{
    a.1 > b.1 || (a.1 == b.1 && a.0 < b.0)
}

/// Inserts `item` into `sorted` at the place that `ranks_before` gives it.
fn insert_ranked(sorted: &mut Vec<(u32, u32)>, item: (u32, u32))
    requires
        forall|x: int, y: int|
            0 <= x < y < old(sorted)@.len() ==> ranks_before(#[trigger] old(sorted)@[x], #[trigger] old(sorted)@[y]),
        forall|k: int| 0 <= k < old(sorted)@.len() ==> (#[trigger] old(sorted)@[k]).0 != item.0,
    ensures
        forall|x: int, y: int|
            0 <= x < y < final(sorted)@.len() ==> ranks_before(#[trigger] final(sorted)@[x], #[trigger] final(sorted)@[y]),
        final(sorted)@.contains(item),
        forall|k: int|
            0 <= k < final(sorted)@.len() && #[trigger] final(sorted)@[k] != item ==> old(sorted)@.contains(final(sorted)@[k]),
        forall|b: int| 0 <= b < old(sorted)@.len() ==> final(sorted)@.contains(#[trigger] old(sorted)@[b]),
{
    let ghost prev = sorted@;
    let mut pos: usize = 0;
    while pos < sorted.len() && ranks_before_exec(sorted[pos], item)
        invariant
            sorted@ == prev,
            pos <= sorted@.len(),
            forall|k: int| 0 <= k < pos ==> ranks_before(#[trigger] sorted@[k], item),
        decreases sorted@.len() - pos,
    {
        pos = pos + 1;
    }
    sorted.insert(pos, item);
    let ghost p = pos as int;
    assert(sorted@ == prev.insert(p, item));
    assert(p < prev.len() ==> ranks_before(item, prev[p]));
    assert forall|x: int, y: int| 0 <= x < y < sorted@.len() implies ranks_before(#[trigger] sorted@[x], #[trigger] sorted@[y]) by {
        if y < p {
            assert(ranks_before(prev[x], prev[y]));
        } else if y == p {
            assert(ranks_before(prev[x], item));
        } else if x < p {
            assert(ranks_before(prev[x], prev[y - 1]));
        } else if x == p {
            if y - 1 > p {
                assert(ranks_before(prev[p], prev[y - 1]));
            }
        } else {
            assert(ranks_before(prev[x - 1], prev[y - 1]));
        }
    }
    assert(sorted@[p] == item);
    assert forall|k: int| 0 <= k < sorted@.len() && #[trigger] sorted@[k] != item implies prev.contains(sorted@[k]) by {
        if k < p {
            assert(prev[k] == sorted@[k]);
        } else {
            assert(prev[k - 1] == sorted@[k]);
        }
    }
    assert forall|b: int| 0 <= b < prev.len() implies sorted@.contains(#[trigger] prev[b]) by {
        if b < p {
            assert(sorted@[b] == prev[b]);
        } else {
            assert(sorted@[b + 1] == prev[b]);
        }
    }
}

/// The entries of `counts`, ordered by `ranks_before`.
fn sort_tally(counts: &Vec<(u32, u32)>) -> (sorted: Vec<(u32, u32)>)
    requires
        forall|a: int, b: int|
            0 <= a < b < counts@.len() ==> #[trigger] counts@[a].0 != #[trigger] counts@[b].0,
    ensures
        forall|k: int| 0 <= k < sorted@.len() ==> counts@.contains(#[trigger] sorted@[k]),
        forall|a: int| 0 <= a < counts@.len() ==> sorted@.contains(#[trigger] counts@[a]),
        forall|x: int, y: int|
            0 <= x < y < sorted@.len() ==> ranks_before(#[trigger] sorted@[x], #[trigger] sorted@[y]),
{
    let mut sorted: Vec<(u32, u32)> = Vec::new();
    let mut m: usize = 0;
    while m < counts.len()
        invariant
            m <= counts@.len(),
            forall|a: int, b: int|
                0 <= a < b < counts@.len() ==> #[trigger] counts@[a].0 != #[trigger] counts@[b].0,
            forall|k: int| 0 <= k < sorted@.len() ==> counts@.take(m as int).contains(#[trigger] sorted@[k]),
            forall|a: int| 0 <= a < m ==> sorted@.contains(#[trigger] counts@[a]),
            forall|x: int, y: int|
                0 <= x < y < sorted@.len() ==> ranks_before(#[trigger] sorted@[x], #[trigger] sorted@[y]),
        decreases counts@.len() - m,
    {
        let item = counts[m];
        let ghost prev = sorted@;
        let ghost seen = counts@.take(m as int);
        let ghost seen2 = counts@.take(m as int + 1);
        assert forall|k: int| 0 <= k < sorted@.len() implies (#[trigger] sorted@[k]).0 != item.0 by {
            let a = choose|a: int| 0 <= a < seen.len() && seen[a] == sorted@[k];
            assert(counts@[a].0 != counts@[m as int].0);
        }
        insert_ranked(&mut sorted, item);
        assert forall|k: int| 0 <= k < sorted@.len() implies seen2.contains(#[trigger] sorted@[k]) by {
            if sorted@[k] != item {
                let b = choose|b: int| 0 <= b < prev.len() && prev[b] == sorted@[k];
                assert(seen.contains(prev[b]));
                let a = choose|a: int| 0 <= a < seen.len() && seen[a] == prev[b];
                assert(seen2[a] == sorted@[k]);
            } else {
                assert(seen2[m as int] == sorted@[k]);
            }
        }
        assert forall|a: int| 0 <= a < m + 1 implies sorted@.contains(#[trigger] counts@[a]) by {
            if a < m {
                assert(prev.contains(counts@[a]));
                let b = choose|b: int| 0 <= b < prev.len() && prev[b] == counts@[a];
                assert(sorted@.contains(prev[b]));
            }
        }
        m = m + 1;
    }
    assert(counts@.take(m as int) == counts@);
    sorted
}

/// Counts the wins of each task over the draws `targets` and orders the
/// result by wins, most first, then by task id. Tasks that never win do not
/// appear.
pub fn tally_draws(population: &[TaskSnapshot], targets: &[u64]) -> (r: Vec<(u32, u32)>)
    requires
        targets@.len() <= u32::MAX,
    ensures
        is_tally(population@, targets@, r@),
{
    let ghost pop = population@;
    let mut counts: Vec<(u32, u32)> = Vec::new();
    let mut j: usize = 0;
    while j < targets.len()
        invariant
            pop == population@,
            j <= targets@.len() <= u32::MAX,
            forall|k: int|
                0 <= k < counts@.len() ==> #[trigger] counts@[k].1 > 0 && counts@[k].1 == wins_of(
                    pop,
                    targets@.take(j as int),
                    counts@[k].0,
                ),
            forall|pid: u32|
                #[trigger] wins_of(pop, targets@.take(j as int), pid) > 0 ==> exists|k: int|
                    0 <= k < counts@.len() && counts@[k].0 == pid,
            forall|a: int, b: int|
                0 <= a < b < counts@.len() ==> #[trigger] counts@[a].0 != #[trigger] counts@[b].0,
        decreases targets@.len() - j,
    {
        let ghost before = targets@.take(j as int);
        let ghost after = targets@.take(j as int + 1);
        assert(after.drop_last() == before);
        assert(after.last() == targets@[j as int]);
        let w = pick_winner(population, targets[j]);
        match w {
            Some(i) => {
                let pid = population[i].pid;
                assert(won_by(pop, targets@[j as int] as int, pid));
                assert(forall|q: u32| q != pid ==> !won_by(pop, targets@[j as int] as int, q));
                let mut k: usize = 0;
                while k < counts.len() && counts[k].0 != pid
                    invariant
                        k <= counts@.len(),
                        forall|m: int| 0 <= m < k ==> (#[trigger] counts@[m]).0 != pid,
                    decreases counts@.len() - k,
                {
                    k = k + 1;
                }
                let ghost old_counts = counts@;
                if k < counts.len() {
                    proof {
                        lemma_wins_bounded(pop, before, pid);
                    }
                    let c = counts[k].1;
                    counts.set(k, (pid, c + 1));
                    assert forall|pid2: u32| #[trigger] wins_of(pop, after, pid2) > 0 implies exists|m: int|
                        0 <= m < counts@.len() && counts@[m].0 == pid2 by {
                        if pid2 == pid {
                            assert(counts@[k as int].0 == pid2);
                        } else {
                            assert(wins_of(pop, before, pid2) > 0);
                            let m = choose|m: int| 0 <= m < old_counts.len() && old_counts[m].0 == pid2;
                            assert(counts@[m].0 == pid2);
                        }
                    }
                } else {
                    counts.push((pid, 1));
                    assert(wins_of(pop, before, pid) == 0);
                    assert forall|pid2: u32| #[trigger] wins_of(pop, after, pid2) > 0 implies exists|m: int|
                        0 <= m < counts@.len() && counts@[m].0 == pid2 by {
                        if pid2 == pid {
                            assert(counts@[old_counts.len() as int].0 == pid2);
                        } else {
                            assert(wins_of(pop, before, pid2) > 0);
                            let m = choose|m: int| 0 <= m < old_counts.len() && old_counts[m].0 == pid2;
                            assert(counts@[m].0 == pid2);
                        }
                    }
                }
            },
            None => {
                assert(forall|q: u32| !won_by(pop, targets@[j as int] as int, q));
                assert forall|pid2: u32| #[trigger] wins_of(pop, after, pid2) > 0 implies exists|m: int|
                    0 <= m < counts@.len() && counts@[m].0 == pid2 by {
                    assert(wins_of(pop, before, pid2) > 0);
                }
            },
        }
        j = j + 1;
    }
    assert(targets@.take(j as int) == targets@);
    let sorted = sort_tally(&counts);
    assert forall|k: int| 0 <= k < sorted@.len() implies #[trigger] sorted@[k].1 > 0 && sorted@[k].1 == wins_of(pop, targets@, sorted@[k].0) by {
        assert(counts@.contains(sorted@[k]));
        let a = choose|a: int| 0 <= a < counts@.len() && counts@[a] == sorted@[k];
        assert(counts@[a].1 > 0);
    }
    assert forall|pid: u32| #[trigger] wins_of(pop, targets@, pid) > 0 implies exists|k: int| 0 <= k < sorted@.len() && sorted@[k].0 == pid by {
        let a = choose|a: int| 0 <= a < counts@.len() && counts@[a].0 == pid;
        assert(sorted@.contains(counts@[a]));
        let k = choose|k: int| 0 <= k < sorted@.len() && sorted@[k] == counts@[a];
    }
    sorted
}

/// The sum of the tickets of a population of snapshots.
pub open spec fn pop_tickets(pop: Seq<TaskSnapshot>) -> nat
    decreases pop.len(),
{
    if pop.len() == 0 {
        0
    } else {
        pop_tickets(pop.drop_last()) + pop.last().info.tickets as nat
    }
}

proof fn lemma_pop_tickets_bound(pop: Seq<TaskSnapshot>)
    ensures
        pop_tickets(pop) <= pop.len() * 0xffff_ffff,
    decreases pop.len(),
{
    if pop.len() > 0 {
        lemma_pop_tickets_bound(pop.drop_last());
    }
}

/// The total of the tickets of a population of snapshots.
pub fn population_tickets(population: &[TaskSnapshot]) -> (r: u64)
    requires
        population@.len() <= 0xffff_ffff,
    ensures
        r == pop_tickets(population@),
{
    let mut total: u64 = 0;
    let mut i: usize = 0;
    while i < population.len()
        invariant
            i <= population@.len() <= 0xffff_ffff,
            total == pop_tickets(population@.take(i as int)),
        decreases population@.len() - i,
    {
        proof {
            assert(population@.take(i as int + 1).drop_last() == population@.take(i as int));
            lemma_pop_tickets_bound(population@.take(i as int));
            assert(i * 0xffff_ffff <= 0xffff_fffe * 0xffff_ffff) by (nonlinear_arith)
                requires i <= 0xffff_fffe;
        }
        total = total + population[i].info.tickets as u64;
        i = i + 1;
    }
    assert(population@.take(i as int) == population@);
    total
}

/// rand's `StdRng`, which the draws carry through without looking inside.
#[verifier::external_type_specification]
#[verifier::external_body]
pub struct ExStdRng(StdRng);

/// Relies on rand's `Rng::gen_range`: the value drawn from `0..bound` lies
/// in that range (it panics on an empty range, which `requires` rules out).
#[verifier::external_body]
fn draw_below(rng: &mut StdRng, bound: u64) -> (r: u64)
    requires
        bound > 0,
    ensures
        r < bound,
{
    rng.gen_range(0..bound)
}

/// Simulates `draws` lottery draws over `population`, each a uniform value
/// below the population's ticket total fed to the roulette wheel, and
/// returns the tally. With no draws or no tickets nothing is drawn and the
/// tally is empty.
pub fn simulate_lottery_draws(rng: &mut StdRng, population: &[TaskSnapshot], draws: u32) -> (r: Vec<(
    u32,
    u32,
)>)
    requires
        population@.len() <= 0xffff_ffff,
    ensures
        draws == 0 || pop_tickets(population@) == 0 ==> r@.len() == 0,
        draws > 0 && pop_tickets(population@) > 0 ==> sum_counts(r@) == draws,
        draws > 0 && pop_tickets(population@) > 0 ==> exists|targets: Seq<u64>|
            #[trigger] is_tally(population@, targets, r@) && targets.len() == draws && forall|k: int|
                0 <= k < targets.len() ==> #[trigger] targets[k] < pop_tickets(population@),
{
    let total = population_tickets(population);
    if draws == 0 || total == 0 {
        return Vec::new();
    }
    let mut targets: Vec<u64> = Vec::new();
    let mut n: u32 = 0;
    while n < draws
        invariant
            n <= draws,
            total > 0,
            targets@.len() == n,
            forall|k: int| 0 <= k < targets@.len() ==> #[trigger] targets@[k] < total,
        decreases draws - n,
    {
        let t = draw_below(rng, total);
        targets.push(t);
        n = n + 1;
    }
    let r = tally_draws(population, &targets);
    proof {
        lemma_tally_counts_every_draw(population@, targets@, r@);
    }
    assert(is_tally(population@, targets@, r@));
    r
}

proof fn lemma_tally_agrees_at(
    pop: Seq<TaskSnapshot>,
    targets: Seq<u64>,
    r1: Seq<(u32, u32)>,
    r2: Seq<(u32, u32)>,
    k: int,
)
    requires
        is_tally(pop, targets, r1),
        is_tally(pop, targets, r2),
        0 <= k < r1.len(),
        k <= r2.len(),
        forall|j: int| 0 <= j < k ==> r1[j] == r2[j],
    ensures
        k < r2.len() && r1[k] == r2[k],
{
    let a = r1[k];
    assert(a.1 > 0 && a.1 == wins_of(pop, targets, a.0));
    let j = choose|j: int| 0 <= j < r2.len() && r2[j].0 == a.0;
    assert(r2[j].1 > 0 && r2[j].1 == wins_of(pop, targets, r2[j].0));
    assert(r2[j] == a);
    if j < k {
        assert(r1[j] == a);
        assert(ranks_before(r1[j], r1[k]));
    }
    if j > k {
        let b = r2[k];
        assert(ranks_before(b, a));
        assert(b.1 > 0 && b.1 == wins_of(pop, targets, b.0));
        let i = choose|i: int| 0 <= i < r1.len() && r1[i].0 == b.0;
        assert(r1[i].1 > 0 && r1[i].1 == wins_of(pop, targets, r1[i].0));
        assert(r1[i] == b);
        if i < k {
            assert(r2[i] == b);
            assert(ranks_before(r2[i], r2[k]));
        } else if i > k {
            assert(ranks_before(a, b));
        }
    }
}

proof fn lemma_tally_prefix(
    pop: Seq<TaskSnapshot>,
    targets: Seq<u64>,
    r1: Seq<(u32, u32)>,
    r2: Seq<(u32, u32)>,
    n: int,
)
    requires
        is_tally(pop, targets, r1),
        is_tally(pop, targets, r2),
        0 <= n <= r1.len(),
    ensures
        n <= r2.len(),
        forall|j: int| 0 <= j < n ==> r1[j] == r2[j],
    decreases n,
{
    if n > 0 {
        lemma_tally_prefix(pop, targets, r1, r2, n - 1);
        lemma_tally_agrees_at(pop, targets, r1, r2, n - 1);
    }
}

/// The tally of a sequence of draws is unique: two results that both are
/// its tally are the same, element for element. With the same seed, and so
/// the same draws, the same population gives the same output.
pub proof fn lemma_tally_is_unique(
    pop: Seq<TaskSnapshot>,
    targets: Seq<u64>,
    r1: Seq<(u32, u32)>,
    r2: Seq<(u32, u32)>,
)
    requires
        is_tally(pop, targets, r1),
        is_tally(pop, targets, r2),
    ensures
        r1 == r2,
{
    lemma_tally_prefix(pop, targets, r1, r2, r1.len() as int);
    lemma_tally_prefix(pop, targets, r2, r1, r2.len() as int);
    assert(r1.len() == r2.len());
    assert forall|j: int| 0 <= j < r1.len() implies r1[j] == r2[j] by {}
    assert(r1 =~= r2);
}

/// The sum of the win counts of a tally.
pub open spec fn sum_counts(r: Seq<(u32, u32)>) -> nat
    decreases r.len(),
{
    if r.len() == 0 {
        0
    } else {
        sum_counts(r.drop_last()) + r.last().1 as nat
    }
}

/// The tickets of `pop` from position `i` on.
spec fn tickets_from(pop: Seq<TaskSnapshot>, i: nat) -> nat
    decreases pop.len() - i,
{
    if i >= pop.len() {
        0
    } else {
        pop[i as int].info.tickets as nat + tickets_from(pop, i + 1)
    }
}

proof fn lemma_tickets_from_drop_last(pop: Seq<TaskSnapshot>, i: nat)
    requires
        pop.len() > 0,
        i < pop.len(),
    ensures
        tickets_from(pop, i) == tickets_from(pop.drop_last(), i) + pop.last().info.tickets as nat,
    decreases pop.len() - i,
{
    let d = pop.drop_last();
    if i + 1 < pop.len() {
        lemma_tickets_from_drop_last(pop, i + 1);
        assert(d[i as int] == pop[i as int]);
        assert(tickets_from(d, i) == d[i as int].info.tickets as nat + tickets_from(d, i + 1));
    } else {
        assert(tickets_from(d, i) == 0);
        assert(tickets_from(pop, i + 1) == 0);
        assert(pop.last() == pop[i as int]);
    }
}

proof fn lemma_winner_from_in_range(pop: Seq<TaskSnapshot>, target: int, i: nat)
    ensures
        winner_from(pop, target, i) matches Some(w) ==> i <= w < pop.len(),
    decreases pop.len() - i,
{
    if i < pop.len() && target >= pop[i as int].info.tickets {
        lemma_winner_from_in_range(pop, target - pop[i as int].info.tickets, i + 1);
    }
}

proof fn lemma_pop_tickets_from_front(pop: Seq<TaskSnapshot>)
    ensures
        pop_tickets(pop) == tickets_from(pop, 0),
    decreases pop.len(),
{
    if pop.len() > 0 {
        lemma_pop_tickets_from_front(pop.drop_last());
        lemma_tickets_from_drop_last(pop, 0);
    }
}

proof fn lemma_winner_from_exists(pop: Seq<TaskSnapshot>, target: int, i: nat)
    requires
        0 <= target < tickets_from(pop, i),
    ensures
        winner_from(pop, target, i) is Some,
    decreases pop.len() - i,
{
    if i < pop.len() && target >= pop[i as int].info.tickets {
        lemma_winner_from_exists(pop, target - pop[i as int].info.tickets, i + 1);
    }
}

/// How many of the draws select some task.
spec fn count_won(pop: Seq<TaskSnapshot>, targets: Seq<u64>) -> nat
    decreases targets.len(),
{
    if targets.len() == 0 {
        0
    } else {
        count_won(pop, targets.drop_last()) + if winner(pop, targets.last() as int) is Some {
            1nat
        } else {
            0nat
        }
    }
}

proof fn lemma_all_draws_won(pop: Seq<TaskSnapshot>, targets: Seq<u64>)
    requires
        forall|k: int| 0 <= k < targets.len() ==> #[trigger] targets[k] < pop_tickets(pop),
    ensures
        count_won(pop, targets) == targets.len(),
    decreases targets.len(),
{
    if targets.len() > 0 {
        let t = targets.drop_last();
        assert forall|k: int| 0 <= k < t.len() implies #[trigger] t[k] < pop_tickets(pop) by {
            assert(t[k] == targets[k]);
        }
        lemma_all_draws_won(pop, t);
        lemma_pop_tickets_from_front(pop);
        assert(targets.last() == targets[targets.len() - 1]);
        lemma_winner_from_exists(pop, targets.last() as int, 0);
    }
}

/// The wins over `targets` of the task ids listed in `r`, added up.
spec fn sum_wins(pop: Seq<TaskSnapshot>, targets: Seq<u64>, r: Seq<(u32, u32)>) -> nat
    decreases r.len(),
{
    if r.len() == 0 {
        0
    } else {
        sum_wins(pop, targets, r.drop_last()) + wins_of(pop, targets, r.last().0)
    }
}

/// How many task ids listed in `r` win the draw `t`.
spec fn hits(pop: Seq<TaskSnapshot>, t: int, r: Seq<(u32, u32)>) -> nat
    decreases r.len(),
{
    if r.len() == 0 {
        0
    } else {
        hits(pop, t, r.drop_last()) + if won_by(pop, t, r.last().0) {
            1nat
        } else {
            0nat
        }
    }
}

spec fn ids_distinct(r: Seq<(u32, u32)>) -> bool {
    forall|a: int, b: int| 0 <= a < b < r.len() ==> #[trigger] r[a].0 != #[trigger] r[b].0
}

spec fn lists_id(r: Seq<(u32, u32)>, pid: u32) -> bool {
    exists|k: int| 0 <= k < r.len() && r[k].0 == pid
}

proof fn lemma_sum_wins_step(pop: Seq<TaskSnapshot>, targets: Seq<u64>, t: u64, r: Seq<(u32, u32)>)
    ensures
        sum_wins(pop, targets.push(t), r) == sum_wins(pop, targets, r) + hits(pop, t as int, r),
    decreases r.len(),
{
    if r.len() > 0 {
        lemma_sum_wins_step(pop, targets, t, r.drop_last());
        assert(targets.push(t).drop_last() == targets);
    }
}

proof fn lemma_hits(pop: Seq<TaskSnapshot>, t: int, r: Seq<(u32, u32)>)
    requires
        ids_distinct(r),
    ensures
        winner(pop, t) matches Some(i) && 0 <= i < pop.len() && lists_id(r, pop[i].pid) ==> hits(pop, t, r) == 1,
        !(winner(pop, t) matches Some(i) && 0 <= i < pop.len() && lists_id(r, pop[i].pid)) ==> hits(pop, t, r) == 0,
    decreases r.len(),
{
    if r.len() > 0 {
        let d = r.drop_last();
        assert forall|a: int, b: int| 0 <= a < b < d.len() implies #[trigger] d[a].0 != #[trigger] d[b].0 by {
            assert(d[a] == r[a] && d[b] == r[b]);
        }
        lemma_hits(pop, t, d);
        if let Some(i) = winner(pop, t) {
            if 0 <= i < pop.len() {
                let w = pop[i].pid;
                if r.last().0 == w {
                    if lists_id(d, w) {
                        let k = choose|k: int| 0 <= k < d.len() && d[k].0 == w;
                        assert(r[k].0 == r[r.len() - 1].0);
                    }
                    assert(r[r.len() - 1].0 == w);
                } else {
                    if lists_id(r, w) {
                        let k = choose|k: int| 0 <= k < r.len() && r[k].0 == w;
                        assert(k != r.len() - 1);
                        assert(d[k].0 == w);
                    }
                    if lists_id(d, w) {
                        let k = choose|k: int| 0 <= k < d.len() && d[k].0 == w;
                        assert(r[k].0 == w);
                    }
                }
            }
        }
    }
}

proof fn lemma_sum_wins_prefix(pop: Seq<TaskSnapshot>, targets: Seq<u64>, r: Seq<(u32, u32)>, n: int)
    requires
        0 <= n <= targets.len(),
        ids_distinct(r),
        forall|pid: u32| #[trigger] wins_of(pop, targets, pid) > 0 ==> lists_id(r, pid),
    ensures
        sum_wins(pop, targets.take(n), r) == count_won(pop, targets.take(n)),
    decreases n,
{
    if n == 0 {
        lemma_sum_wins_zero(pop, targets.take(0), r);
    } else {
        lemma_sum_wins_prefix(pop, targets, r, n - 1);
        let before = targets.take(n - 1);
        let t = targets[n - 1];
        assert(targets.take(n) == before.push(t));
        assert(targets.take(n).drop_last() == before);
        lemma_sum_wins_step(pop, before, t, r);
        lemma_hits(pop, t as int, r);
        lemma_winner_from_in_range(pop, t as int, 0);
        assert(targets.take(n).last() == t);
        if let Some(i) = winner(pop, t as int) {
            if 0 <= i < pop.len() {
                let w = pop[i].pid;
                assert(won_by(pop, t as int, w));
                lemma_wins_monotone(pop, targets, n);
                assert(wins_of(pop, targets.take(n), w) > 0);
                assert(wins_of(pop, targets, w) > 0);
            }
        }
    }
}

proof fn lemma_wins_monotone(pop: Seq<TaskSnapshot>, targets: Seq<u64>, n: int)
    requires
        0 <= n <= targets.len(),
    ensures
        forall|pid: u32| wins_of(pop, targets.take(n), pid) <= #[trigger] wins_of(pop, targets, pid),
    decreases targets.len() - n,
{
    if n < targets.len() {
        lemma_wins_monotone(pop, targets, n + 1);
        assert(targets.take(n + 1).drop_last() == targets.take(n));
    } else {
        assert(targets.take(n) == targets);
    }
}

proof fn lemma_sum_wins_zero(pop: Seq<TaskSnapshot>, targets: Seq<u64>, r: Seq<(u32, u32)>)
    requires
        targets.len() == 0,
    ensures
        sum_wins(pop, targets, r) == 0,
    decreases r.len(),
{
    if r.len() > 0 {
        lemma_sum_wins_zero(pop, targets, r.drop_last());
    }
}

proof fn lemma_sum_counts_is_sum_wins(pop: Seq<TaskSnapshot>, targets: Seq<u64>, r: Seq<(u32, u32)>)
    requires
        forall|k: int| 0 <= k < r.len() ==> (#[trigger] r[k]).1 == wins_of(pop, targets, r[k].0),
    ensures
        sum_counts(r) == sum_wins(pop, targets, r),
    decreases r.len(),
{
    if r.len() > 0 {
        let d = r.drop_last();
        assert forall|k: int| 0 <= k < d.len() implies (#[trigger] d[k]).1 == wins_of(pop, targets, d[k].0) by {
            assert(d[k] == r[k]);
        }
        lemma_sum_counts_is_sum_wins(pop, targets, d);
        assert(r.last() == r[r.len() - 1]);
    }
}

/// Every draw below the population's ticket total selects a task, so the
/// win counts of its tally add up to the number of draws.
pub proof fn lemma_tally_counts_every_draw(pop: Seq<TaskSnapshot>, targets: Seq<u64>, r: Seq<(u32, u32)>)
    requires
        is_tally(pop, targets, r),
        forall|k: int| 0 <= k < targets.len() ==> #[trigger] targets[k] < pop_tickets(pop),
    ensures
        sum_counts(r) == targets.len(),
{
    assert forall|a: int, b: int| 0 <= a < b < r.len() implies #[trigger] r[a].0 != #[trigger] r[b].0 by {
        assert(ranks_before(r[a], r[b]));
        assert(r[a].1 == wins_of(pop, targets, r[a].0));
        assert(r[b].1 == wins_of(pop, targets, r[b].0));
    }
    assert forall|pid: u32| #[trigger] wins_of(pop, targets, pid) > 0 implies lists_id(r, pid) by {}
    lemma_sum_wins_prefix(pop, targets, r, targets.len() as int);
    assert(targets.take(targets.len() as int) == targets);
    lemma_all_draws_won(pop, targets);
    lemma_sum_counts_is_sum_wins(pop, targets, r);
}

} // verus!
