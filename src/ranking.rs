use vstd::prelude::*;

use crate::snapshot::TaskSnapshot;

verus! {

/// The key that a ranking orders snapshots by, largest first.
#[derive(Debug, Clone, Copy, PartialEq, Eq, Structural)]
pub enum RankBy {
    TicketShare,
    Lateness,
}

/// Whether snapshot `a` has a strictly larger key than `b`. Shares are
/// compared as exact fractions.
pub open spec fn ahead(by: RankBy, a: TaskSnapshot, b: TaskSnapshot) -> bool {
    match by {
        RankBy::TicketShare => a.ticket_share.num as int * b.ticket_share.den as int
            > b.ticket_share.num as int * a.ticket_share.den as int,
        RankBy::Lateness => a.lateness_ns > b.lateness_ns,
    }
}

/// Stable descending order: position `i` of `s` comes before position `j`
/// when its key is larger, or when the keys are equal and `i` is earlier.
pub open spec fn precedes(by: RankBy, s: Seq<TaskSnapshot>, i: int, j: int) -> bool {
    ahead(by, s[i], s[j]) || (!ahead(by, s[j], s[i]) && i < j)
}

/// Every ticket share in `s` has a positive denominator.
pub open spec fn shares_wf(s: Seq<TaskSnapshot>) -> bool {
    forall|i: int| 0 <= i < s.len() ==> (#[trigger] s[i]).ticket_share.wf()
}

/// `order` lists every position of `s` once, in `precedes` order.
pub open spec fn is_ranking(by: RankBy, s: Seq<TaskSnapshot>, order: Seq<usize>) -> bool {
    &&& order.len() == s.len()
    &&& forall|k: int| 0 <= k < order.len() ==> #[trigger] order[k] < s.len()
    &&& forall|i: int| 0 <= i < s.len() ==> #[trigger] order.contains(i as usize)
    &&& forall|x: int, y: int|
        0 <= x < y < order.len() ==> precedes(by, s, #[trigger] order[x] as int, #[trigger] order[y] as int)
}

proof fn lemma_ahead_negative_trans(by: RankBy, a: TaskSnapshot, b: TaskSnapshot, c: TaskSnapshot)
    requires
        a.ticket_share.wf(),
        b.ticket_share.wf(),
        c.ticket_share.wf(),
        !ahead(by, a, b),
        !ahead(by, b, c),
    ensures
        !ahead(by, a, c),
{
    if by == RankBy::TicketShare {
        let an = a.ticket_share.num as int;
        let ad = a.ticket_share.den as int;
        let bn = b.ticket_share.num as int;
        let bd = b.ticket_share.den as int;
        let cn = c.ticket_share.num as int;
        let cd = c.ticket_share.den as int;
        assert(an * bd * cd <= bn * ad * cd) by (nonlinear_arith)
            requires an * bd <= bn * ad, cd > 0;
        assert(bn * cd * ad <= cn * bd * ad) by (nonlinear_arith)
            requires bn * cd <= cn * bd, ad > 0;
        assert(an * cd <= cn * ad) by (nonlinear_arith)
            requires an * bd * cd <= bn * ad * cd, bn * cd * ad <= cn * bd * ad, bd > 0;
    }
}

/// Between well-formed shares, "not larger" is transitive.
pub proof fn lemma_ahead_negative_trans_share(a: TaskSnapshot, b: TaskSnapshot, c: TaskSnapshot)
    requires
        a.ticket_share.wf(),
        b.ticket_share.wf(),
        c.ticket_share.wf(),
        !ahead(RankBy::TicketShare, a, b),
        !ahead(RankBy::TicketShare, b, c),
    ensures
        !ahead(RankBy::TicketShare, a, c),
{
    lemma_ahead_negative_trans(RankBy::TicketShare, a, b, c);
}

proof fn lemma_precedes_trans(by: RankBy, s: Seq<TaskSnapshot>, i: int, j: int, k: int)
    requires
        shares_wf(s),
        0 <= i < s.len(),
        0 <= j < s.len(),
        0 <= k < s.len(),
        precedes(by, s, i, j),
        precedes(by, s, j, k),
    ensures
        precedes(by, s, i, k),
{
    if ahead(by, s[k], s[i]) {
        if !ahead(by, s[k], s[j]) && !ahead(by, s[j], s[i]) {
            lemma_ahead_negative_trans(by, s[k], s[j], s[i]);
        }
    } else if !ahead(by, s[i], s[k]) {
        if ahead(by, s[i], s[j]) {
            if !ahead(by, s[k], s[j]) {
                lemma_ahead_negative_trans(by, s[i], s[k], s[j]);
            }
        } else if ahead(by, s[j], s[k]) {
            lemma_ahead_negative_trans(by, s[j], s[i], s[k]);
        }
    }
}

fn ahead_exec(by: RankBy, a: &TaskSnapshot, b: &TaskSnapshot) -> (r: bool)
    ensures
        r == ahead(by, *a, *b),
{
    match by {
        RankBy::TicketShare => {
            proof {
                crate::record::lemma_u64_product_fits(a.ticket_share.num, b.ticket_share.den);
                crate::record::lemma_u64_product_fits(b.ticket_share.num, a.ticket_share.den);
            }
            (a.ticket_share.num as u128) * (b.ticket_share.den as u128) > (b.ticket_share.num as u128)
                * (a.ticket_share.den as u128)
        },
        RankBy::Lateness => a.lateness_ns > b.lateness_ns,
    }
}

/// The positions of `snapshots` ordered by descending key; snapshots with
/// equal keys keep their relative order.
pub fn rank(snapshots: &[TaskSnapshot], by: RankBy) -> (order: Vec<usize>)
    requires
        shares_wf(snapshots@),
    ensures
        is_ranking(by, snapshots@, order@),
{
    let ghost s = snapshots@;
    let mut order: Vec<usize> = Vec::new();
    let mut m: usize = 0;
    while m < snapshots.len()
        invariant
            s == snapshots@,
            shares_wf(s),
            m <= s.len(),
            order@.len() == m,
            forall|k: int| 0 <= k < order@.len() ==> #[trigger] order@[k] < m,
            forall|i: int| 0 <= i < m ==> #[trigger] order@.contains(i as usize),
            forall|x: int, y: int|
                0 <= x < y < order@.len() ==> precedes(by, s, #[trigger] order@[x] as int, #[trigger] order@[y] as int),
        decreases s.len() - m,
    {
        let ghost prev = order@;
        let mut pos: usize = 0;
        while pos < order.len() && !ahead_exec(by, &snapshots[m], &snapshots[order[pos]])
            invariant
                order@ == prev,
                prev.len() == m,
                m < s.len(),
                s == snapshots@,
                forall|k: int| 0 <= k < prev.len() ==> #[trigger] prev[k] < m,
                pos <= prev.len(),
                forall|k: int| 0 <= k < pos ==> precedes(by, s, #[trigger] prev[k] as int, m as int),
            decreases prev.len() - pos,
        {
            pos = pos + 1;
        }
        order.insert(pos, m);
        let ghost p = pos as int;
        assert(order@ == prev.insert(p, m));
        assert forall|x: int, y: int| 0 <= x < y < order@.len() implies precedes(
            by,
            s,
            #[trigger] order@[x] as int,
            #[trigger] order@[y] as int,
        ) by {
            if y < p {
                assert(precedes(by, s, prev[x] as int, prev[y] as int));
            } else if y == p {
                assert(precedes(by, s, prev[x] as int, m as int));
            } else if x < p {
                assert(precedes(by, s, prev[x] as int, prev[y - 1] as int));
            } else if x == p {
                assert(precedes(by, s, m as int, prev[p] as int));
                if y - 1 > p {
                    assert(precedes(by, s, prev[p] as int, prev[y - 1] as int));
                    lemma_precedes_trans(by, s, m as int, prev[p] as int, prev[y - 1] as int);
                }
            } else {
                assert(precedes(by, s, prev[x - 1] as int, prev[y - 1] as int));
            }
        }
        assert forall|i: int| 0 <= i < m + 1 implies #[trigger] order@.contains(i as usize) by {
            if i < m {
                assert(prev.contains(i as usize));
                let b = choose|b: int| 0 <= b < prev.len() && prev[b] == i as usize;
                if b < p {
                    assert(order@[b] == i as usize);
                } else {
                    assert(order@[b + 1] == i as usize);
                }
            } else {
                assert(order@[p] == i as usize);
            }
        }
        m = m + 1;
    }
    order
}

/// How many entries a summary of the `top_n` best shows: at least one,
/// and no more than there are.
pub open spec fn top_limit(len: nat, top_n: nat) -> nat {
    let n = if top_n == 0 { 1 } else { top_n };
    if len < n {
        len
    } else {
        n
    }
}

/// The first `top_limit(order.len(), count)` snapshots in the order `order`.
pub fn top_n(snapshots: &[TaskSnapshot], order: &[usize], count: usize) -> (r: Vec<TaskSnapshot>)
    requires
        forall|k: int| 0 <= k < order@.len() ==> #[trigger] order@[k] < snapshots@.len(),
    ensures
        r@.len() == top_limit(order@.len(), count as nat),
        forall|k: int| 0 <= k < r@.len() ==> #[trigger] r@[k] == snapshots@[order@[k] as int],
{
    let n = if count == 0 {
        1
    } else {
        count
    };
    let limit = if order.len() < n {
        order.len()
    } else {
        n
    };
    let mut r: Vec<TaskSnapshot> = Vec::new();
    let mut k: usize = 0;
    while k < limit
        invariant
            limit <= order@.len(),
            k <= limit,
            r@.len() == k,
            forall|q: int| 0 <= q < order@.len() ==> #[trigger] order@[q] < snapshots@.len(),
            forall|q: int| 0 <= q < k ==> #[trigger] r@[q] == snapshots@[order@[q] as int],
        decreases limit - k,
    {
        r.push(snapshots[order[k]]);
        k = k + 1;
    }
    r
}

/// The positions of the snapshots whose lateness exceeds `threshold_ns`,
/// latest first; equally late snapshots keep their relative order.
pub fn deadline_alerts(snapshots: &[TaskSnapshot], threshold_ns: i128) -> (r: Vec<usize>)
    requires
        shares_wf(snapshots@),
    ensures
        forall|k: int| 0 <= k < r@.len() ==> #[trigger] r@[k] < snapshots@.len()
            && snapshots@[r@[k] as int].lateness_ns > threshold_ns,
        forall|i: int|
            0 <= i < snapshots@.len() && #[trigger] snapshots@[i].lateness_ns > threshold_ns
                ==> r@.contains(i as usize),
        forall|x: int, y: int|
            0 <= x < y < r@.len() ==> precedes(RankBy::Lateness, snapshots@, #[trigger] r@[x] as int, #[trigger] r@[y] as int),
{
    let order = rank(snapshots, RankBy::Lateness);
    let ghost o = order@;
    let mut r: Vec<usize> = Vec::new();
    let ghost mut from: Seq<int> = Seq::empty();
    let mut k: usize = 0;
    while k < order.len()
        invariant
            o == order@,
            is_ranking(RankBy::Lateness, snapshots@, o),
            k <= o.len(),
            from.len() == r@.len(),
            forall|q: int| 0 <= q < r@.len() ==> 0 <= #[trigger] from[q] < k && r@[q] == o[from[q]],
            forall|x: int, y: int| 0 <= x < y < r@.len() ==> #[trigger] from[x] < #[trigger] from[y],
            forall|q: int| 0 <= q < r@.len() ==> #[trigger] r@[q] < snapshots@.len()
                && snapshots@[r@[q] as int].lateness_ns > threshold_ns,
            forall|q: int|
                0 <= q < k && #[trigger] snapshots@[o[q] as int].lateness_ns > threshold_ns ==> r@.contains(o[q]),
        decreases o.len() - k,
    {
        let idx = order[k];
        let ghost prev = r@;
        assert(idx < snapshots@.len());
        if snapshots[idx].lateness_ns > threshold_ns {
            r.push(idx);
            proof {
                from = from.push(k as int);
                assert(r@[r@.len() - 1] == o[k as int]);
                assert forall|q: int| 0 <= q < k && #[trigger] snapshots@[o[q] as int].lateness_ns > threshold_ns implies r@.contains(o[q]) by {
                    assert(prev.contains(o[q]));
                    let b = choose|b: int| 0 <= b < prev.len() && prev[b] == o[q];
                    assert(r@[b] == o[q]);
                }
            }
        }
        k = k + 1;
    }
    assert forall|x: int, y: int| 0 <= x < y < r@.len() implies precedes(
        RankBy::Lateness,
        snapshots@,
        #[trigger] r@[x] as int,
        #[trigger] r@[y] as int,
    ) by {
        assert(from[x] < from[y]);
        assert(precedes(RankBy::Lateness, snapshots@, o[from[x]] as int, o[from[y]] as int));
    }
    assert forall|i: int|
        0 <= i < snapshots@.len() && #[trigger] snapshots@[i].lateness_ns > threshold_ns implies r@.contains(i as usize) by {
        assert(o.contains(i as usize));
        let q = choose|q: int| 0 <= q < o.len() && o[q] == i as usize;
        assert(snapshots@[o[q] as int].lateness_ns > threshold_ns);
    }
    r
}

} // verus!
