//! Small helpers on integers.

use vstd::arithmetic::power2::{lemma2_to64, lemma_pow2_pos, lemma_pow2_unfold, pow2};
use vstd::layout::size_of;
use vstd::prelude::*;

verus! {

/// Width of `T` in bits.
pub fn num_bits<T>() -> (bits: usize)
    requires
        size_of::<T>() * 8 <= usize::MAX,
    ensures
        bits == size_of::<T>() * 8,
{
    core::mem::size_of::<T>() * 8
}

/// Position of the highest set bit of `x`, which is the base-two logarithm
/// of `x` rounded down.
pub fn log_2(x: i32) -> (r: u32)
    requires
        x > 0,
    ensures
        r < 31,
        pow2(r as nat) <= x < pow2((r + 1) as nat),
{
    let mut r: u32 = 0;
    let mut v: i32 = x;
    proof {
        lemma2_to64();
    }
    while v > 1
        invariant
            v >= 1,
            r <= 30,
            v * pow2(r as nat) <= x < (v + 1) * pow2(r as nat),
            v * pow2(r as nat) < 0x8000_0000,
        decreases v,
    {
        proof {
            let p = pow2(r as nat) as int;
            let h = (v / 2) as int;
            lemma2_to64();
            lemma_pow2_pos(r as nat);
            lemma_pow2_unfold((r + 1) as nat);
            assert(h * (2 * p) <= v * p && (v + 1) * p <= (h + 1) * (2 * p)) by (nonlinear_arith)
                requires
                    h == v / 2,
                    v >= 2,
                    p >= 1,
            ;
            assert(v * p >= 2 * p) by (nonlinear_arith)
                requires
                    v >= 2,
                    p >= 1,
            ;
        }
        v = v / 2;
        r = r + 1;
    }
    proof {
        lemma_pow2_unfold((r + 1) as nat);
    }
    r
}

} // verus!
