//! Arithmetic on a circle of `m` points: reduction into `[0, m)` and the
//! signed half-window distance. Sequence numbers (`m = 2^31`) and message
//! numbers (`m = 2^29`) are both built on these definitions.

use vstd::arithmetic::div_mod::{lemma_mod_add_multiples_vanish, lemma_small_mod};
use vstd::prelude::*;

verus! {

/// `v` reduced into `[0, m)`.
pub open spec fn wrap(m: int, v: int) -> int {
    v % m
}

/// Signed distance from `b` to `a` on a circle of `m` points: the unique
/// `k` in `[-m/2, m/2)` with `wrap(m, b + k) == a`.
pub open spec fn dist(m: int, a: int, b: int) -> int {
    let d = (a - b) % m;
    if d < m / 2 {
        d
    } else {
        d - m
    }
}

/// Reduction leaves a value already in `[0, m)` unchanged.
pub proof fn lemma_wrap_small(m: int, v: int)
    requires
        0 < m,
        0 <= v < m,
    ensures
        wrap(m, v) == v,
{
    lemma_small_mod(v as nat, m as nat);
}

/// Reduction of a value one turn below the range adds one turn.
pub proof fn lemma_wrap_neg(m: int, v: int)
    requires
        0 < m,
        -m <= v < 0,
    ensures
        wrap(m, v) == v + m,
{
    lemma_mod_add_multiples_vanish(v, m);
    lemma_wrap_small(m, v + m);
}

/// Reduction of a value one turn above the range removes one turn.
pub proof fn lemma_wrap_above(m: int, v: int)
    requires
        0 < m,
        m <= v < 2 * m,
    ensures
        wrap(m, v) == v - m,
{
    lemma_mod_add_multiples_vanish(v - m, m);
    lemma_wrap_small(m, v - m);
}

/// Reducing before adding changes nothing.
pub proof fn lemma_wrap_wrap(m: int, v: int, k: int)
    requires
        0 < m,
        0 <= k < m,
    ensures
        wrap(m, wrap(m, v) + k) == wrap(m, v + k),
{
    lemma_small_mod(k as nat, m as nat);
    vstd::arithmetic::div_mod::lemma_add_mod_noop(v, k, m);
}

/// A point is its reference stepped by their distance.
pub proof fn lemma_step_of_dist(m: int, a: int, b: int)
    requires
        2 <= m,
        m % 2 == 0,
        0 <= a < m,
        0 <= b < m,
    ensures
        wrap(m, b + dist(m, a, b)) == a,
{
    if a >= b {
        lemma_wrap_small(m, a - b);
        if a - b < m / 2 {
            lemma_wrap_small(m, a);
        } else {
            lemma_wrap_neg(m, a - m);
        }
    } else {
        lemma_wrap_neg(m, a - b);
        if a - b + m < m / 2 {
            lemma_wrap_above(m, a + m);
        } else {
            lemma_wrap_small(m, a);
        }
    }
}

/// Stepping `k` points ahead of `a` and asking for the distance back to `a`
/// recovers `k`, for every `k` in the half-window.
pub proof fn lemma_dist_wrap_add(m: int, a: int, k: int)
    requires
        2 <= m,
        m % 2 == 0,
        0 <= a < m,
        -m / 2 <= k < m / 2,
    ensures
        dist(m, wrap(m, a + k), a) == k,
{
    if 0 <= a + k < m {
        lemma_wrap_small(m, a + k);
        if k >= 0 {
            lemma_wrap_small(m, k);
        } else {
            lemma_wrap_neg(m, k);
        }
    } else if a + k < 0 {
        lemma_wrap_neg(m, a + k);
        lemma_wrap_small(m, k + m);
    } else {
        lemma_wrap_above(m, a + k);
        lemma_wrap_neg(m, k - m);
    }
}

/// The distance is zero exactly between equal points.
pub proof fn lemma_dist_zero(m: int, a: int, b: int)
    requires
        2 <= m,
        m % 2 == 0,
        0 <= a < m,
        0 <= b < m,
    ensures
        dist(m, a, b) == 0 <==> a == b,
{
    if a >= b {
        lemma_wrap_small(m, a - b);
    } else {
        lemma_wrap_neg(m, a - b);
    }
}

/// Swapping the endpoints negates the distance, everywhere but at the
/// antipode `-m/2`, which is its own opposite.
pub proof fn lemma_dist_antisymmetric(m: int, a: int, b: int)
    requires
        2 <= m,
        m % 2 == 0,
        0 <= a < m,
        0 <= b < m,
        dist(m, a, b) != -m / 2,
    ensures
        dist(m, b, a) == -dist(m, a, b),
{
    if a == b {
        lemma_wrap_small(m, 0);
    } else if a > b {
        lemma_wrap_small(m, a - b);
        lemma_wrap_neg(m, b - a);
    } else {
        lemma_wrap_neg(m, a - b);
        lemma_wrap_small(m, b - a);
    }
}

} // verus!
