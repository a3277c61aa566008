//! Table-size arithmetic: the structures use power-of-two capacities, and a
//! hash's index width is the base-2 logarithm of its table's size.
use vstd::prelude::*;

verus! {

use vstd::arithmetic::power2::{pow2, lemma_pow2_unfold, lemma_pow2_pos, lemma2_to64,
    lemma2_to64_rest, lemma_pow2_strictly_increases};

/// True of 1, 2, 4, 8, ...
pub open spec fn is_power_of_two(x: int) -> bool {
    exists|e: nat| x == pow2(e)
}

/// The base-2 logarithm, rounded down; on a power of two it is exact.
pub fn log2u(x: usize) -> (r: u32)
    requires
        1 <= x,
    ensures
        pow2(r as nat) <= x < pow2((r + 1) as nat),
        r < 64,
        is_power_of_two(x as int) ==> pow2(r as nat) == x,
{
    let mut y: usize = x;
    let mut l: u32 = 0;
    proof {
        lemma2_to64();
    }
    while y > 1
        invariant
            1 <= y <= x,
            x <= usize::MAX,
            l < 64,
            pow2(l as nat) * y <= x,
            x < pow2(l as nat) * (y + 1),
        decreases y,
    {
        proof {
            let p = pow2(l as nat) as int;
            let h: int = y as int / 2;
            lemma_pow2_pos(l as nat);
            lemma_pow2_unfold((l + 1) as nat);
            assert(2 * h <= y && y + 1 <= 2 * h + 2);
            assert(p * (2 * h) <= p * y) by (nonlinear_arith)
                requires
                    0 <= p,
                    2 * h <= y,
            ;
            assert(p * (2 * h) == (2 * p) * h) by (nonlinear_arith);
            assert(p * (y + 1) <= p * (2 * h + 2)) by (nonlinear_arith)
                requires
                    0 <= p,
                    y + 1 <= 2 * h + 2,
            ;
            assert(p * (2 * h + 2) == (2 * p) * (h + 1)) by (nonlinear_arith);
            assert(2 * p <= (2 * p) * h) by (nonlinear_arith)
                requires
                    1 <= h,
                    0 <= p,
            ;
            lemma2_to64_rest();
            if l + 1 >= 64 {
                if l + 1 > 64 {
                    lemma_pow2_strictly_increases(64, (l + 1) as nat);
                }
                assert(false);
            }
        }
        y = y / 2;
        l = l + 1;
    }
    proof {
        assert(y == 1);
        let p = pow2(l as nat) as int;
        assert(p * 1 == p && p * (1 + 1) == 2 * p) by (nonlinear_arith);
        assert(p <= x < 2 * p);
        lemma_pow2_unfold((l + 1) as nat);
        assert(pow2((l + 1) as nat) == 2 * p);
        if is_power_of_two(x as int) {
            let e = choose|e: nat| x as int == pow2(e);
            if e < l {
                lemma_pow2_strictly_increases(e, l as nat);
                assert(false);
            }
            if e > l {
                if e > l + 1 {
                    lemma_pow2_strictly_increases((l + 1) as nat, e);
                }
                assert(false);
            }
        }
    }
    l
}

/// The least power of two that is at least `x`.
pub fn next_pow2(x: usize) -> (r: usize)
    requires
        x <= usize::MAX / 2,
    ensures
        is_power_of_two(r as int),
        x <= r,
        r == 1 || r / 2 < x,
{
    let mut r: usize = 1;
    proof {
        lemma2_to64();
        assert(r as int == pow2(0));
    }
    while r < x
        invariant
            x <= usize::MAX / 2,
            1 <= r,
            is_power_of_two(r as int),
            r == 1 || r / 2 < x,
        decreases 2 * x - r,
    {
        proof {
            let e = choose|e: nat| r as int == pow2(e);
            lemma_pow2_unfold((e + 1) as nat);
            assert(2 * r as int == pow2((e + 1) as nat));
        }
        r = r * 2;
    }
    r
}

} // verus!
