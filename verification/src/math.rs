//! Exact integer square roots.
//!
//! The engine takes square roots of contribution amounts. Amounts are whole
//! units, and the root of an amount is defined as the floor of its real
//! square root: the unique `r` with `r * r <= a < (r + 1) * (r + 1)`. On a
//! perfect square the floor root is the real root, so squaring it gives the
//! amount back exactly.

use vstd::prelude::*;

verus! {

/// `r` is the floor of the square root of `a`.
pub open spec fn is_floor_sqrt(a: int, r: int) -> bool {
    0 <= r && r * r <= a && a < (r + 1) * (r + 1)
}

/// The floor of the square root of a non-negative integer.
pub open spec fn floor_sqrt(a: int) -> int {
    choose|r: int| is_floor_sqrt(a, r)
}

/// Every non-negative integer has a floor square root.
pub proof fn lemma_floor_sqrt_exists(a: int)
    requires
        0 <= a,
    ensures
        is_floor_sqrt(a, floor_sqrt(a)),
    decreases a,
{
    if a == 0 {
        assert(is_floor_sqrt(0, 0));
    } else {
        lemma_floor_sqrt_exists(a - 1);
        let r = floor_sqrt(a - 1);
        if (r + 1) * (r + 1) == a {
            assert(is_floor_sqrt(a, r + 1)) by (nonlinear_arith)
                requires
                    0 <= r,
                    a == (r + 1) * (r + 1),
            ;
        } else {
            assert(is_floor_sqrt(a, r));
        }
    }
}

/// The floor square root is unique.
pub proof fn lemma_floor_sqrt_unique(a: int, r1: int, r2: int)
    requires
        is_floor_sqrt(a, r1),
        is_floor_sqrt(a, r2),
    ensures
        r1 == r2,
{
    assert(r1 == r2) by (nonlinear_arith)
        requires
            0 <= r1 && r1 * r1 <= a && a < (r1 + 1) * (r1 + 1),
            0 <= r2 && r2 * r2 <= a && a < (r2 + 1) * (r2 + 1),
    ;
}

/// Any witness of `is_floor_sqrt` is the floor square root.
pub proof fn lemma_floor_sqrt_is(a: int, r: int)
    requires
        is_floor_sqrt(a, r),
    ensures
        floor_sqrt(a) == r,
{
    assert(is_floor_sqrt(a, floor_sqrt(a)));
    lemma_floor_sqrt_unique(a, floor_sqrt(a), r);
}

/// The floor square root never exceeds its argument.
pub proof fn lemma_floor_sqrt_le(a: int)
    requires
        0 <= a,
    ensures
        0 <= floor_sqrt(a) <= a,
{
    lemma_floor_sqrt_exists(a);
    let r = floor_sqrt(a);
    assert(r <= a) by (nonlinear_arith)
        requires
            0 <= r,
            r * r <= a,
    ;
}

/// Taking the square root of a perfect square gives the root back: the
/// round trip `square` then `floor_sqrt` is the identity.
pub proof fn lemma_floor_sqrt_of_square(r: int)
    requires
        0 <= r,
    ensures
        floor_sqrt(r * r) == r,
{
    assert(r * r < (r + 1) * (r + 1)) by (nonlinear_arith)
        requires
            0 <= r,
    ;
    lemma_floor_sqrt_is(r * r, r);
}

/// The floor square root of `a`, found by binary search.
pub fn isqrt(a: u64) -> (r: u64)
    ensures
        is_floor_sqrt(a as int, r as int),
        r as int == floor_sqrt(a as int),
{
    let mut lo: u64 = 0;
    let mut hi: u64 = 0x1_0000_0000;
    assert((0x1_0000_0000 as int) * (0x1_0000_0000 as int) > a as int);
    while lo + 1 < hi
        invariant
            lo < hi <= 0x1_0000_0000,
            (lo as int) * (lo as int) <= a as int,
            (a as int) < (hi as int) * (hi as int),
        decreases hi - lo,
    {
        let mid: u64 = lo + (hi - lo) / 2;
        assert((mid as int) * (mid as int) <= (0xffff_ffff as int) * (0xffff_ffff as int))
            by (nonlinear_arith)
            requires
                mid <= 0xffff_ffff,
        ;
        if mid * mid <= a {
            lo = mid;
        } else {
            hi = mid;
        }
    }
    proof {
        lemma_floor_sqrt_is(a as int, lo as int);
    }
    lo
}

} // verus!
