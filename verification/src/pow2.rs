//! Power-of-two sizing arithmetic for block capacities.

use vstd::prelude::*;

verus! {

/// True when `n` is a power of two.
pub open spec fn is_pow2(n: int) -> bool
    decreases n,
{
    if n <= 0 {
        false
    } else if n == 1 {
        true
    } else {
        n % 2 == 0 && is_pow2(n / 2)
    }
}

/// The least power of two that is at least `x` (and at least 1).
pub open spec fn pow2_ceil(x: int) -> int
    decreases x,
{
    if x <= 1 {
        1
    } else {
        2 * pow2_ceil((x + 1) / 2)
    }
}

pub proof fn lemma_pow2_ceil_bounds(x: int)
    requires
        x >= 1,
    ensures
        pow2_ceil(x) >= x,
        pow2_ceil(x) < 2 * x,
        is_pow2(pow2_ceil(x)),
    decreases x,
{
    if x > 1 {
        let h = (x + 1) / 2;
        lemma_pow2_ceil_bounds(h);
        let p = pow2_ceil(h);
        assert(2 * p >= x);
        if x % 2 == 0 {
            assert(h == x / 2);
            assert(p < x);
        } else {
            assert(p <= x);
            if p >= 2 {
                assert(p % 2 == 0);
                assert(p != x);
            }
        }
        assert(2 * p < 2 * x);
        assert(is_pow2(2 * p));
    }
}

/// A power of two in the half-open interval `[x, 2*x)` is exactly `pow2_ceil(x)`.
pub proof fn lemma_pow2_ceil_unique(x: int, p: int)
    requires
        x >= 1,
        is_pow2(p),
        p >= x,
        p < 2 * x,
    ensures
        p == pow2_ceil(x),
    decreases x,
{
    if x == 1 {
        assert(p == 1);
    } else {
        let h = (x + 1) / 2;
        assert(p >= 2);
        assert(p % 2 == 0);
        assert(is_pow2(p / 2));
        assert(p / 2 >= h);
        assert(p / 2 < 2 * h);
        lemma_pow2_ceil_unique(h, p / 2);
    }
}

/// Rounds up to the least power of two that is at least `x`.
#[allow(non_snake_case)]
pub fn ceilToPow2(x: usize) -> (r: usize)
    requires
        1 <= x,
        x <= usize::MAX / 2 + 1,
    ensures
        r == pow2_ceil(x as int),
{
    let mut p: usize = 1;
    while p < x
        invariant
            1 <= p,
            is_pow2(p as int),
            p < 2 * x,
            x <= usize::MAX / 2 + 1,
        decreases 2 * x - p,
    {
        proof {
            assert(2 * (p as int) <= usize::MAX) by {
                assert(p <= x - 1);
            };
        }
        p = p * 2;
    }
    proof {
        lemma_pow2_ceil_unique(x as int, p as int);
    }
    p
}

} // verus!
