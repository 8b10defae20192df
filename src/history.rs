use vstd::prelude::*;

use crate::ranking::{ahead, RankBy};
use crate::record::Ratio;
use crate::snapshot::TaskSnapshot;

verus! {

/// Parts per million in one.
pub const PPM: u64 = 1_000_000;

/// One point of the dashboard's history: sums over the snapshots of one
/// iteration, from which averages are taken by dividing by `total_tasks`.
#[derive(Debug, Clone, Copy, PartialEq, Eq, Structural)]
pub struct HistorySample {
    pub total_lateness_ns: i128,
    pub max_lateness_ns: i128,
    pub total_tasks: usize,
    pub overdue_tasks: usize,
    pub total_runtime_ns: u128,
    pub total_utilization_ppm: u128,
    pub top_pid: Option<u32>,
    pub top_share: Ratio,
}

/// A utilization in parts per million, rounded down.
pub open spec fn utilization_ppm(u: Ratio) -> nat {
    ((u.num as nat * PPM as nat) / (u.den as nat)) as nat
}

pub open spec fn sum_lateness(s: Seq<TaskSnapshot>) -> int
    decreases s.len(),
{
    if s.len() == 0 {
        0
    } else {
        sum_lateness(s.drop_last()) + s.last().lateness_ns
    }
}

/// The largest lateness, or zero when none is positive.
pub open spec fn max_lateness(s: Seq<TaskSnapshot>) -> int
    decreases s.len(),
{
    if s.len() == 0 {
        0
    } else {
        let m = max_lateness(s.drop_last());
        if s.last().lateness_ns > m {
            s.last().lateness_ns as int
        } else {
            m
        }
    }
}

pub open spec fn count_overdue(s: Seq<TaskSnapshot>) -> nat
    decreases s.len(),
{
    if s.len() == 0 {
        0
    } else {
        count_overdue(s.drop_last()) + if s.last().lateness_ns > 0 {
            1nat
        } else {
            0nat
        }
    }
}

pub open spec fn sum_runtime(s: Seq<TaskSnapshot>) -> nat
    decreases s.len(),
{
    if s.len() == 0 {
        0
    } else {
        sum_runtime(s.drop_last()) + s.last().runtime_delta_ns as nat
    }
}

pub open spec fn sum_utilization_ppm(s: Seq<TaskSnapshot>) -> nat
    decreases s.len(),
{
    if s.len() == 0 {
        0
    } else {
        sum_utilization_ppm(s.drop_last()) + utilization_ppm(s.last().utilization)
    }
}

/// Position `t` holds the largest ticket share of `s`, and is the last
/// position that does.
pub open spec fn is_top(s: Seq<TaskSnapshot>, t: int) -> bool {
    &&& 0 <= t < s.len()
    &&& forall|j: int| 0 <= j < s.len() ==> !#[trigger] ahead(RankBy::TicketShare, s[j], s[t])
    &&& forall|j: int| t < j < s.len() ==> #[trigger] ahead(RankBy::TicketShare, s[t], s[j])
}

/// Lateness stays within the range of a difference of two `u64` values,
/// as it does in every snapshot that `enrich_entries` builds.
pub open spec fn lateness_in_range(x: TaskSnapshot) -> bool {
    -0x1_0000_0000_0000_0000 <= x.lateness_ns <= 0x1_0000_0000_0000_0000
}

proof fn lemma_sums_bounded(s: Seq<TaskSnapshot>)
    requires
        forall|i: int| 0 <= i < s.len() ==> (#[trigger] s[i]).utilization.wf(),
        forall|i: int| 0 <= i < s.len() ==> lateness_in_range(#[trigger] s[i]),
    ensures
        -s.len() * 0x1_0000_0000_0000_0000 <= sum_lateness(s) <= s.len() * 0x1_0000_0000_0000_0000,
        -0x1_0000_0000_0000_0000 <= max_lateness(s) <= 0x1_0000_0000_0000_0000,
        count_overdue(s) <= s.len(),
        sum_runtime(s) <= s.len() * 0x1_0000_0000_0000_0000,
        sum_utilization_ppm(s) <= s.len() * 0x1_0000_0000_0000_0000 * PPM,
    decreases s.len(),
{
    if s.len() > 0 {
        let l = s.last();
        assert(s.drop_last().len() == s.len() - 1);
        assert forall|i: int| 0 <= i < s.drop_last().len() implies (#[trigger] s.drop_last()[i]).utilization.wf() by {
            assert(s.drop_last()[i] == s[i]);
        }
        assert forall|i: int| 0 <= i < s.drop_last().len() implies lateness_in_range(#[trigger] s.drop_last()[i]) by {
            assert(s.drop_last()[i] == s[i]);
        }
        lemma_sums_bounded(s.drop_last());
        assert(lateness_in_range(l));
        assert((s.len() - 1) * 0x1_0000_0000_0000_0000 + 0x1_0000_0000_0000_0000
            == s.len() * 0x1_0000_0000_0000_0000) by (nonlinear_arith);
        assert(l.utilization.wf());
        assert(utilization_ppm(l.utilization) <= l.utilization.num * PPM) by (nonlinear_arith)
            requires l.utilization.den >= 1, l.utilization.num >= 0,
                utilization_ppm(l.utilization) == (l.utilization.num as nat * PPM as nat) / (l.utilization.den as nat);
        assert(l.utilization.num * PPM <= 0x1_0000_0000_0000_0000 * PPM) by (nonlinear_arith)
            requires l.utilization.num < 0x1_0000_0000_0000_0000;
        assert((s.len() - 1) * 0x1_0000_0000_0000_0000 * PPM + 0x1_0000_0000_0000_0000 * PPM
            == s.len() * 0x1_0000_0000_0000_0000 * PPM) by (nonlinear_arith);
    }
}

/// Sums, maximum, count of overdue tasks and the task with the largest
/// share, over the snapshots of one iteration. With no snapshot every field
/// is zero and there is no top task.
pub fn make_history_sample(snapshots: &[TaskSnapshot]) -> (r: HistorySample)
    requires
        snapshots@.len() <= u32::MAX,
        forall|i: int| 0 <= i < snapshots@.len() ==> (#[trigger] snapshots@[i]).utilization.wf(),
        forall|i: int| 0 <= i < snapshots@.len() ==> (#[trigger] snapshots@[i]).ticket_share.wf(),
        forall|i: int| 0 <= i < snapshots@.len() ==> lateness_in_range(#[trigger] snapshots@[i]),
    ensures
        r.total_lateness_ns == sum_lateness(snapshots@),
        r.max_lateness_ns == max_lateness(snapshots@),
        r.total_tasks == snapshots@.len(),
        r.overdue_tasks == count_overdue(snapshots@),
        r.total_runtime_ns == sum_runtime(snapshots@),
        r.total_utilization_ppm == sum_utilization_ppm(snapshots@),
        snapshots@.len() == 0 ==> r.top_pid is None && r.top_share == Ratio::zero_spec(),
        snapshots@.len() > 0 ==> exists|t: int|
            is_top(snapshots@, t) && r.top_pid == Some(snapshots@[t].pid) && r.top_share
                == #[trigger] snapshots@[t].ticket_share,
{
    let ghost s = snapshots@;
    let mut lateness: i128 = 0;
    let mut max_late: i128 = 0;
    let mut overdue: usize = 0;
    let mut runtime: u128 = 0;
    let mut util: u128 = 0;
    let mut top: usize = 0;
    let mut i: usize = 0;
    while i < snapshots.len()
        invariant
            s == snapshots@,
            s.len() <= u32::MAX,
            forall|q: int| 0 <= q < s.len() ==> (#[trigger] s[q]).utilization.wf(),
            forall|q: int| 0 <= q < s.len() ==> (#[trigger] s[q]).ticket_share.wf(),
            forall|q: int| 0 <= q < s.len() ==> lateness_in_range(#[trigger] s[q]),
            i <= s.len(),
            lateness == sum_lateness(s.take(i as int)),
            max_late == max_lateness(s.take(i as int)),
            overdue == count_overdue(s.take(i as int)),
            runtime == sum_runtime(s.take(i as int)),
            util == sum_utilization_ppm(s.take(i as int)),
            i > 0 ==> is_top(s.take(i as int), top as int),
        decreases s.len() - i,
    {
        let e = snapshots[i];
        proof {
            let t = s.take(i as int + 1);
            assert(t.drop_last() == s.take(i as int));
            assert(t.last() == e);
            assert forall|q: int| 0 <= q < t.len() implies (#[trigger] t[q]).utilization.wf() by {
                assert(t[q] == s[q]);
            }
            assert forall|q: int| 0 <= q < t.len() implies lateness_in_range(#[trigger] t[q]) by {
                assert(t[q] == s[q]);
            }
            lemma_sums_bounded(t);
            assert(t.len() * 0x1_0000_0000_0000_0000 <= 0x1_0000_0000 * 0x1_0000_0000_0000_0000) by (nonlinear_arith)
                requires t.len() <= 0x1_0000_0000;
            assert(t.len() * 0x1_0000_0000_0000_0000 * PPM <= 0x1_0000_0000 * 0x1_0000_0000_0000_0000 * PPM) by (nonlinear_arith)
                requires t.len() <= 0x1_0000_0000;
            crate::record::lemma_u64_product_fits(e.utilization.num, PPM);
        }
        lateness = lateness + e.lateness_ns;
        if e.lateness_ns > max_late {
            max_late = e.lateness_ns;
        }
        if e.lateness_ns > 0 {
            overdue = overdue + 1;
        }
        runtime = runtime + e.runtime_delta_ns as u128;
        util = util + (e.utilization.num as u128) * (PPM as u128) / (e.utilization.den as u128);
        if i > 0 && snapshots[top].ticket_share.gt(&e.ticket_share) {
            proof {
                let t = s.take(i as int + 1);
                assert forall|j: int| 0 <= j < t.len() implies !#[trigger] ahead(RankBy::TicketShare, t[j], t[top as int]) by {
                    if j < i {
                        assert(t[j] == s.take(i as int)[j]);
                    } else {
                        assert(t[j] == e);
                    }
                }
                assert forall|j: int| top < j < t.len() implies #[trigger] ahead(RankBy::TicketShare, t[top as int], t[j]) by {
                    if j < i {
                        assert(t[j] == s.take(i as int)[j]);
                    } else {
                        assert(t[j] == e);
                    }
                }
            }
        } else {
            proof {
                let t = s.take(i as int + 1);
                if i > 0 {
                    let old_top = top as int;
                    assert forall|j: int| 0 <= j < t.len() implies !#[trigger] ahead(RankBy::TicketShare, t[j], t[i as int]) by {
                        if j < i {
                            assert(t[j] == s.take(i as int)[j]);
                            assert(!ahead(RankBy::TicketShare, t[j], t[old_top]));
                            crate::ranking::lemma_ahead_negative_trans_share(t[j], t[old_top], t[i as int]);
                        }
                    }
                }
            }
            top = i;
        }
        i = i + 1;
    }
    proof {
        assert(s.take(i as int) == s);
    }
    if snapshots.len() == 0 {
        HistorySample {
            total_lateness_ns: 0,
            max_lateness_ns: 0,
            total_tasks: 0,
            overdue_tasks: 0,
            total_runtime_ns: 0,
            total_utilization_ppm: 0,
            top_pid: None,
            top_share: Ratio::zero(),
        }
    } else {
        HistorySample {
            total_lateness_ns: lateness,
            max_lateness_ns: max_late,
            total_tasks: snapshots.len(),
            overdue_tasks: overdue,
            total_runtime_ns: runtime,
            total_utilization_ppm: util,
            top_pid: Some(snapshots[top].pid),
            top_share: snapshots[top].ticket_share,
        }
    }
}

/// The last `capacity` samples, oldest first.
pub struct HistoryWindow {
    capacity: usize,
    samples: Vec<HistorySample>,
}

impl View for HistoryWindow {
    type V = Seq<HistorySample>;

    closed spec fn view(&self) -> Seq<HistorySample> {
        self.samples@
    }
}

impl HistoryWindow {
    pub closed spec fn cap(&self) -> nat {
        self.capacity as nat
    }

    pub closed spec fn wf(&self) -> bool {
        1 <= self.capacity && self.samples@.len() <= self.capacity
    }

    /// An empty window that keeps at most `capacity` samples, and at least one.
    pub fn new(capacity: usize) -> (r: Self)
        ensures
            r.wf(),
            r@ == Seq::<HistorySample>::empty(),
            r.cap() == if capacity == 0 { 1 } else { capacity as nat },
    {
        let c = if capacity == 0 {
            1
        } else {
            capacity
        };
        HistoryWindow { capacity: c, samples: Vec::new() }
    }

    /// Appends a sample, dropping the oldest one when the window is full.
    pub fn push(&mut self, sample: HistorySample)
        requires
            old(self).wf(),
        ensures
            final(self).wf(),
            final(self).cap() == old(self).cap(),
            final(self)@ == if old(self)@.len() == old(self).cap() {
                old(self)@.drop_first().push(sample)
            } else {
                old(self)@.push(sample)
            },
    {
        if self.samples.len() == self.capacity {
            self.samples.remove(0);
        }
        self.samples.push(sample);
    }

    /// The samples, oldest first.
    pub fn iter(&self) -> (r: &[HistorySample])
        ensures
            r@ == self@,
    {
        self.samples.as_slice()
    }

    /// The newest sample, if any.
    pub fn latest(&self) -> (r: Option<HistorySample>)
        ensures
            r == if self@.len() == 0 { None } else { Some(self@.last()) },
    {
        if self.samples.len() == 0 {
            None
        } else {
            Some(self.samples[self.samples.len() - 1])
        }
    }
}

} // verus!
