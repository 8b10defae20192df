use vstd::prelude::*;

verus! {

/// Nanoseconds in one millisecond.
pub const NS_PER_MS: u64 = 1_000_000;

/// One value of the kernel task table, copied out of it field by field.
#[derive(Debug, Clone, Copy, PartialEq, Eq, Structural)]
pub struct TaskInfo {
    pub runtime_ns: u64,
    pub switches: u64,
    pub nice: i32,
    pub tickets: u32,
    pub last_switch_in_ts: u64,
}

impl Default for TaskInfo {
    fn default() -> (r: Self)
        ensures
            r.runtime_ns == 0 && r.switches == 0 && r.nice == 0 && r.tickets == 0
                && r.last_switch_in_ts == 0,
    {
        TaskInfo { runtime_ns: 0, switches: 0, nice: 0, tickets: 0, last_switch_in_ts: 0 }
    }
}

/// An exact non-negative fraction `num / den`.
#[derive(Debug, Clone, Copy, PartialEq, Eq, Structural)]
pub struct Ratio {
    pub num: u64,
    pub den: u64,
}

/// The product of two `u64` values fits in a `u128`.
pub proof fn lemma_u64_product_fits(a: u64, b: u64)
    ensures
        (a as int) * (b as int) <= u128::MAX,
        (a as int) * (b as int) >= 0,
{
    assert((a as int) * (b as int) <= 0xffff_ffff_ffff_ffff * 0xffff_ffff_ffff_ffff) by (nonlinear_arith)
        requires a <= 0xffff_ffff_ffff_ffffu64, b <= 0xffff_ffff_ffff_ffffu64, a >= 0, b >= 0;
    assert((a as int) * (b as int) >= 0) by (nonlinear_arith)
        requires a >= 0, b >= 0;
}

impl Ratio {
    /// A ratio is well formed when its denominator is positive.
    pub open spec fn wf(self) -> bool {
        self.den > 0
    }

    pub open spec fn zero_spec() -> Ratio {
        Ratio { num: 0, den: 1 }
    }

    /// The fraction zero, as `0 / 1`.
    pub fn zero() -> (r: Ratio)
        ensures
            r == Ratio::zero_spec(),
    {
        Ratio { num: 0, den: 1 }
    }

    /// Whether `self` is strictly greater than `other`, compared exactly.
    pub fn gt(&self, other: &Ratio) -> (r: bool)
        ensures
            r == (self.num as int * other.den as int > other.num as int * self.den as int),
    {
        proof {
            lemma_u64_product_fits(self.num, other.den);
            lemma_u64_product_fits(other.num, self.den);
        }
        (self.num as u128) * (other.den as u128) > (other.num as u128) * (self.den as u128)
    }
}

impl TaskInfo {
    /// Accumulated runtime in milliseconds, as the exact fraction `runtime_ns / 10^6`.
    pub fn runtime_ms(&self) -> (r: Ratio)
        ensures
            r.num == self.runtime_ns && r.den == NS_PER_MS,
    {
        Ratio { num: self.runtime_ns, den: NS_PER_MS }
    }
}

} // verus!
