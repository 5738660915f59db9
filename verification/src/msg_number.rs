//! 29-bit wrap-around message numbers, with the same half-window arithmetic
//! as sequence numbers but on a circle of `2^29` points.

use crate::modular_num::{
    dist, lemma_dist_antisymmetric, lemma_dist_wrap_add, lemma_dist_zero, lemma_wrap_neg,
    lemma_wrap_small, wrap,
};
use vstd::prelude::*;

verus! {

/// Number of distinct message numbers: they wrap at `2^29`.
pub const MSG_MODULUS: u32 = 0x2000_0000;

/// Half of the message-number circle; distances lie in
/// `[-MSG_HALF, MSG_HALF)`.
pub const MSG_HALF: u32 = 0x1000_0000;

/// A 29-bit wrap-around message number.
#[derive(Copy, Clone, Debug, Eq, PartialEq, Structural, Hash)]
pub struct MsgNumber(pub u32);

impl MsgNumber {
    /// Well-formed: the stored value fits in 29 bits.
    pub open spec fn wf(self) -> bool {
        self.0 < MSG_MODULUS
    }

    /// The message number `by` steps ahead of `self` (behind, for negative
    /// `by`), wrapping at `2^29`.
    pub open spec fn spec_step(self, by: int) -> MsgNumber {
        MsgNumber(wrap(MSG_MODULUS as int, self.0 + by) as u32)
    }

    /// Signed distance from `other` to `self`: the unique `k` in
    /// `[-2^28, 2^28)` with `other.spec_step(k) == self`.
    pub open spec fn spec_dist(self, other: MsgNumber) -> int {
        dist(MSG_MODULUS as int, self.0 as int, other.0 as int)
    }

    pub fn new(n: u32) -> (r: MsgNumber)
        requires
            n < MSG_MODULUS,
        ensures
            r == MsgNumber(n),
            r.wf(),
    {
        MsgNumber(n)
    }

    /// Step `by` message numbers forward, wrapping at `2^29`.
    pub fn wrapping_add(self, by: u32) -> (r: MsgNumber)
        requires
            self.wf(),
        ensures
            r == self.spec_step(by as int),
            r.wf(),
    {
        let s: u64 = (self.0 as u64 + by as u64) % (MSG_MODULUS as u64);
        MsgNumber(s as u32)
    }

    /// Signed distance from `other` to `self`, in `[-2^28, 2^28)`.
    pub fn dist(self, other: MsgNumber) -> (r: i32)
        requires
            self.wf(),
            other.wf(),
        ensures
            r as int == self.spec_dist(other),
    {
        let d: u32 = if self.0 >= other.0 {
            self.0 - other.0
        } else {
            (MSG_MODULUS - other.0) + self.0
        };
        proof {
            if self.0 >= other.0 {
                lemma_wrap_small(MSG_MODULUS as int, self.0 - other.0);
            } else {
                lemma_wrap_neg(MSG_MODULUS as int, self.0 - other.0);
            }
        }
        if d < MSG_HALF {
            d as i32
        } else {
            ((d as i64) - (MSG_MODULUS as i64)) as i32
        }
    }

    /// `self` comes strictly before `other` in the half-window ordering.
    pub fn precedes(self, other: MsgNumber) -> (r: bool)
        requires
            self.wf(),
            other.wf(),
        ensures
            r == (self.spec_dist(other) < 0),
    {
        self.dist(other) < 0
    }
}

/// Stepping `k` ahead and measuring the distance back recovers `k`, for
/// every `k` in the half-window `[-2^28, 2^28)`.
pub proof fn lemma_msg_step_dist(a: MsgNumber, k: int)
    requires
        a.wf(),
        -(MSG_HALF as int) <= k < MSG_HALF as int,
    ensures
        a.spec_step(k).wf(),
        a.spec_step(k).spec_dist(a) == k,
{
    lemma_dist_wrap_add(MSG_MODULUS as int, a.0 as int, k);
}

/// Anti-symmetry of the half-window comparison for message numbers.
pub proof fn lemma_msg_dist_antisymmetric(a: MsgNumber, b: MsgNumber)
    requires
        a.wf(),
        b.wf(),
        a.spec_dist(b) != -(MSG_HALF as int),
    ensures
        b.spec_dist(a) == -a.spec_dist(b),
        a.spec_dist(b) == 0 <==> a == b,
{
    lemma_dist_antisymmetric(MSG_MODULUS as int, a.0 as int, b.0 as int);
    lemma_dist_zero(MSG_MODULUS as int, a.0 as int, b.0 as int);
}

} // verus!
