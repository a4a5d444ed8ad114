//! Left shifts of 128-bit integers as multiplications by a power of two.

use vstd::arithmetic::power2::{lemma2_to64, lemma_pow2_pos, lemma_pow2_unfold, pow2};
use vstd::prelude::*;

verus! {

/// Shifting `x` left by `shift` bits multiplies it by `2^shift`, as long as
/// the product still fits in 128 bits.
pub proof fn lemma_u128_shl_is_mul(x: u128, shift: u128)
    requires
        shift < 128,
        x * pow2(shift as nat) <= u128::MAX,
    ensures
        x << shift == x * pow2(shift as nat),
    decreases shift,
{
    if shift == 0 {
        lemma2_to64();
        assert(x << 0u128 == x) by (bit_vector);
    } else {
        let below: u128 = (shift - 1) as u128;
        let small = pow2(below as nat) as int;
        lemma_pow2_unfold(shift as nat);
        lemma_pow2_pos(below as nat);
        assert(x * (2 * small) == 2 * (x * small)) by (nonlinear_arith);
        assert(0 <= x * small) by (nonlinear_arith)
            requires
                0 <= x,
                0 <= small,
        ;
        lemma_u128_shl_is_mul(x, below);
        let half: u128 = x << below;
        assert(x << shift == (half << 1u128)) by (bit_vector)
            requires
                0 < shift < 128,
                below == shift - 1,
                half == x << below,
        ;
        assert((half << 1u128) == half * 2) by (bit_vector)
            requires
                half <= 0x7fff_ffff_ffff_ffff_ffff_ffff_ffff_ffffu128,
        ;
    }
}

} // verus!
