//! The cube root, one base-8 digit of the input at a time.
//!
//! The input is read three bits at a time from the top. After the bits above
//! position `shift` have been read, `root` is the cube root of those bits and
//! `rest` is what is left of the input once `root³` has been taken away at
//! that position. Reading three more bits doubles `root` and then adds at
//! most one.

use crate::model::{cube, is_cube_root};
use vstd::arithmetic::power2::{
    lemma2_to64, lemma_pow2_adds, lemma_pow2_pos, lemma_pow2_strictly_increases, pow2,
};
use vstd::prelude::*;

verus! {

/// The state between two digits: `root` is the cube root of `v / 2^shift`,
/// and `rest` is `v` less `root³ · 2^shift`.
pub open spec fn is_partial_root(v: int, shift: nat, root: int, rest: int) -> bool {
    &&& 0 <= root
    &&& cube(root) * pow2(shift) <= v < cube(root + 1) * pow2(shift)
    &&& rest == v - cube(root) * pow2(shift)
}

/// What the cube gains when `root` grows by one: `(root + 1)³ - root³`.
pub open spec fn cube_step(root: int) -> int {
    3 * root * (root + 1) + 1
}

/// `cube_step` is the difference of two neighbouring cubes.
pub proof fn lemma_cube_step(root: int)
    ensures
        cube(root + 1) == cube(root) + cube_step(root),
{
    assert((root + 1) * (root + 1) * (root + 1) == root * root * root + (3 * root * (root + 1)
        + 1)) by (nonlinear_arith);
}

/// Doubling a number multiplies its cube by eight.
pub proof fn lemma_cube_of_double(root: int)
    ensures
        cube(root + root) == 8 * cube(root),
{
    assert((root + root) * (root + root) * (root + root) == 8 * (root * root * root))
        by (nonlinear_arith);
}

/// A quotient reaches `t` exactly when the dividend reaches `t` times the divisor.
pub proof fn lemma_quotient_reaches(x: int, p: int, t: int)
    requires
        0 < p,
    ensures
        x / p >= t <==> x >= t * p,
{
    assert(x / p >= t <==> x >= t * p) by (nonlinear_arith)
        requires
            0 < p,
    ;
}

/// The number of base-8 digits of an integer of `bits` bits.
pub open spec fn digit_count(bits: nat) -> nat {
    (bits + 2) / 3
}

/// Before any digit is read the root is zero and the rest is the whole input.
pub proof fn lemma_no_digit(v: int, bits: nat)
    requires
        0 <= v < pow2(bits),
    ensures
        is_partial_root(v, 3 * digit_count(bits), 0, v),
{
    let shift = 3 * digit_count(bits);
    let p = pow2(shift) as int;
    if bits < shift {
        lemma_pow2_strictly_increases(bits, shift);
    }
    assert(cube(0) * p == 0) by (nonlinear_arith);
    assert(cube(1) * p == p) by (nonlinear_arith);
}

/// Reading the next digit: `root` doubles, and grows by one more exactly when
/// the rest, shifted down, reaches the step of the doubled root.
pub proof fn lemma_next_digit(v: int, shift: nat, root: int, rest: int)
    requires
        is_partial_root(v, shift + 3, root, rest),
    ensures
        ({
            let doubled = root + root;
            let step = cube_step(doubled);
            if rest / (pow2(shift) as int) >= step {
                &&& step * pow2(shift) <= rest
                &&& is_partial_root(v, shift, doubled + 1, rest - step * pow2(shift))
            } else {
                is_partial_root(v, shift, doubled, rest)
            }
        }),
{
    let p = pow2(shift) as int;
    let doubled = root + root;
    let step = cube_step(doubled);
    lemma_pow2_pos(shift);
    lemma_pow2_adds(shift, 3);
    lemma2_to64();
    assert(pow2(shift + 3) == p * 8);
    lemma_cube_of_double(root);
    lemma_cube_of_double(root + 1);
    lemma_cube_step(doubled);
    lemma_quotient_reaches(rest, p, step);
    let low = cube(root);
    let high = cube(root + 1);
    assert(cube(doubled) * p == low * (p * 8)) by (nonlinear_arith)
        requires
            cube(doubled) == 8 * low,
    ;
    assert(doubled + 2 == (root + 1) + (root + 1));
    assert(cube(doubled + 2) * p == high * (p * 8)) by (nonlinear_arith)
        requires
            cube(doubled + 2) == 8 * high,
    ;
    assert(cube(doubled + 1) * p == cube(doubled) * p + step * p) by (nonlinear_arith)
        requires
            cube(doubled + 1) == cube(doubled) + step,
    ;
}

/// Nothing overflows while the step of the doubled root is computed: every
/// intermediate value is at most `max`, the largest value that holds `v`.
pub proof fn lemma_step_fits(v: int, shift: nat, root: int, rest: int, max: int)
    requires
        is_partial_root(v, shift + 3, root, rest),
        v <= max,
        19 <= max,
    ensures
        0 <= root + root <= max,
        3 * (root + root) <= max,
        (root + root) + 1 <= max,
        3 * (root + root) * ((root + root) + 1) <= max,
        cube_step(root + root) <= max,
{
    let p = pow2(shift) as int;
    let doubled = root + root;
    lemma_pow2_pos(shift);
    lemma_pow2_adds(shift, 3);
    lemma2_to64();
    assert(pow2(shift + 3) == p * 8);
    let low = cube(root);
    assert(0 <= low) by (nonlinear_arith)
        requires
            0 <= root,
            low == root * root * root,
    ;
    assert(8 * low <= low * (p * 8)) by (nonlinear_arith)
        requires
            0 <= low,
            1 <= p,
    ;
    if root == 0 {
        assert(cube_step(0) == 1) by (nonlinear_arith);
    } else if root == 1 {
        assert(cube_step(2) == 19) by (nonlinear_arith);
    } else {
        assert(cube_step(doubled) <= 8 * low) by (nonlinear_arith)
            requires
                2 <= root,
                doubled == root + root,
                low == root * root * root,
                cube_step(doubled) == 3 * doubled * (doubled + 1) + 1,
        ;
    }
    assert(0 <= 3 * doubled <= 3 * doubled * (doubled + 1)) by (nonlinear_arith)
        requires
            0 <= doubled,
    ;
}

/// After the last digit the partial root is the cube root.
pub proof fn lemma_last_digit(v: int, root: int, rest: int)
    requires
        is_partial_root(v, 0, root, rest),
    ensures
        is_cube_root(v, root),
{
    lemma2_to64();
}

} // verus!
