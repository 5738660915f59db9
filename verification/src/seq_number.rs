//! 31-bit wrap-around packet sequence numbers.
//!
//! Sequence numbers live on a circle of `2^31` points; the only meaningful
//! comparison between two of them is the signed half-window distance. Plain
//! integer comparison is deliberately not offered.

use crate::modular_num::{
    dist, lemma_dist_antisymmetric, lemma_dist_wrap_add, lemma_dist_zero, lemma_step_of_dist,
    lemma_wrap_neg, lemma_wrap_small, lemma_wrap_wrap, wrap,
};
use vstd::arithmetic::div_mod::lemma_mod_bound;
use vstd::prelude::*;

verus! {

/// Number of distinct sequence numbers: they wrap at `2^31`.
pub const SEQ_MODULUS: u32 = 0x8000_0000;

/// Half of the sequence-number circle; distances lie in
/// `[-SEQ_HALF, SEQ_HALF)`.
pub const SEQ_HALF: u32 = 0x4000_0000;

/// A 31-bit wrap-around packet sequence number.
#[derive(Copy, Clone, Debug, Eq, PartialEq, Structural, Hash)]
pub struct SeqNumber(pub u32);

impl SeqNumber {
    /// Well-formed: the stored value fits in 31 bits.
    pub open spec fn wf(self) -> bool {
        self.0 < SEQ_MODULUS
    }

    /// The sequence number `by` steps ahead of `self` (behind, for negative
    /// `by`), wrapping at `2^31`.
    pub open spec fn spec_step(self, by: int) -> SeqNumber {
        SeqNumber(wrap(SEQ_MODULUS as int, self.0 + by) as u32)
    }

    /// Signed distance from `other` to `self`: the unique `k` in
    /// `[-2^30, 2^30)` with `other.spec_step(k) == self`.
    pub open spec fn spec_dist(self, other: SeqNumber) -> int {
        dist(SEQ_MODULUS as int, self.0 as int, other.0 as int)
    }

    pub fn new(n: u32) -> (r: SeqNumber)
        requires
            n < SEQ_MODULUS,
        ensures
            r == SeqNumber(n),
            r.wf(),
    {
        SeqNumber(n)
    }

    /// Step `by` sequence numbers forward, wrapping at `2^31`.
    pub fn wrapping_add(self, by: u32) -> (r: SeqNumber)
        requires
            self.wf(),
        ensures
            r == self.spec_step(by as int),
            r.wf(),
    {
        let s: u64 = (self.0 as u64 + by as u64) % (SEQ_MODULUS as u64);
        SeqNumber(s as u32)
    }

    /// Step `by` sequence numbers forward or backward, wrapping at `2^31`.
    pub fn wrapping_offset(self, by: i32) -> (r: SeqNumber)
        requires
            self.wf(),
        ensures
            r == self.spec_step(by as int),
            r.wf(),
    {
        if by >= 0 {
            self.wrapping_add(by as u32)
        } else {
            let neg: u32 = ((-(by as i64)) as u64) as u32;
            let r: u32 = if self.0 >= neg {
                self.0 - neg
            } else {
                self.0 + (SEQ_MODULUS - neg)
            };
            proof {
                if self.0 >= neg {
                    lemma_wrap_small(SEQ_MODULUS as int, self.0 - neg);
                } else {
                    lemma_wrap_neg(SEQ_MODULUS as int, self.0 - neg);
                }
            }
            SeqNumber(r)
        }
    }

    /// Signed distance from `other` to `self`, in `[-2^30, 2^30)`.
    pub fn dist(self, other: SeqNumber) -> (r: i32)
        requires
            self.wf(),
            other.wf(),
        ensures
            r as int == self.spec_dist(other),
    {
        let d: u32 = if self.0 >= other.0 {
            self.0 - other.0
        } else {
            (SEQ_MODULUS - other.0) + self.0
        };
        proof {
            if self.0 >= other.0 {
                lemma_wrap_small(SEQ_MODULUS as int, self.0 - other.0);
            } else {
                lemma_wrap_neg(SEQ_MODULUS as int, self.0 - other.0);
            }
        }
        if d < SEQ_HALF {
            d as i32
        } else {
            ((d as i64) - (SEQ_MODULUS as i64)) as i32
        }
    }

    /// `self` comes strictly before `other` in the half-window ordering:
    /// the distance from `self` forward to `other` is positive.
    pub fn precedes(self, other: SeqNumber) -> (r: bool)
        requires
            self.wf(),
            other.wf(),
        ensures
            r == (self.spec_dist(other) < 0),
    {
        self.dist(other) < 0
    }
}

/// Stepping `k` ahead and measuring the distance back recovers `k`, for
/// every `k` in the half-window `[-2^30, 2^30)`.
pub proof fn lemma_seq_step_dist(a: SeqNumber, k: int)
    requires
        a.wf(),
        -(SEQ_HALF as int) <= k < SEQ_HALF as int,
    ensures
        a.spec_step(k).wf(),
        a.spec_step(k).spec_dist(a) == k,
{
    lemma_dist_wrap_add(SEQ_MODULUS as int, a.0 as int, k);
}

/// A step of zero goes nowhere.
pub proof fn lemma_seq_step_zero(a: SeqNumber)
    requires
        a.wf(),
    ensures
        a.spec_step(0) == a,
{
    lemma_wrap_small(SEQ_MODULUS as int, a.0 as int);
}

/// Two steps are one step by the sum.
pub proof fn lemma_seq_step_compose(a: SeqNumber, i: int, j: int)
    requires
        a.wf(),
        0 <= j < SEQ_MODULUS as int,
    ensures
        a.spec_step(i).spec_step(j) == a.spec_step(i + j),
{
    lemma_mod_bound(a.0 + i, SEQ_MODULUS as int);
    lemma_mod_bound(a.0 + i + j, SEQ_MODULUS as int);
    lemma_wrap_wrap(SEQ_MODULUS as int, a.0 + i, j);
}

/// A sequence number is its reference stepped by their distance.
pub proof fn lemma_seq_step_of_dist(a: SeqNumber, b: SeqNumber)
    requires
        a.wf(),
        b.wf(),
    ensures
        b.spec_step(a.spec_dist(b)) == a,
{
    lemma_step_of_dist(SEQ_MODULUS as int, a.0 as int, b.0 as int);
}

/// The half-window comparison is anti-symmetric: swapping the operands
/// negates the distance, except at the antipode `-2^30`, which is its own
/// opposite; and the distance is zero exactly between equal numbers.
pub proof fn lemma_seq_dist_antisymmetric(a: SeqNumber, b: SeqNumber)
    requires
        a.wf(),
        b.wf(),
        a.spec_dist(b) != -(SEQ_HALF as int),
    ensures
        b.spec_dist(a) == -a.spec_dist(b),
        a.spec_dist(b) == 0 <==> a == b,
{
    lemma_dist_antisymmetric(SEQ_MODULUS as int, a.0 as int, b.0 as int);
    lemma_dist_zero(SEQ_MODULUS as int, a.0 as int, b.0 as int);
}

} // verus!
