//! The mathematical meaning of an integer cube root, and what follows from it.

use vstd::prelude::*;

verus! {

/// The third power of `r`.
pub open spec fn cube(r: int) -> int {
    r * r * r
}

/// `r` is the integer cube root of `v`: it is not negative and `r³ <= v < (r + 1)³`.
pub open spec fn is_cube_root(v: int, r: int) -> bool {
    0 <= r && cube(r) <= v < cube(r + 1)
}

/// The integer cube root of `v`: the largest integer whose cube is at most `v`.
pub open spec fn cube_root(v: int) -> int
    recommends
        0 <= v,
{
    choose|r: int| is_cube_root(v, r)
}

/// Cubing keeps the order of integers that are not negative.
pub proof fn lemma_cube_increases(a: int, b: int)
    requires
        0 <= a <= b,
    ensures
        0 <= cube(a) <= cube(b),
{
    assert(0 <= a * a <= b * b) by (nonlinear_arith)
        requires
            0 <= a <= b,
    ;
    assert(0 <= a * a * a <= b * b * b) by (nonlinear_arith)
        requires
            0 <= a <= b,
            0 <= a * a <= b * b,
    ;
}

/// The cubes of zero and one.
pub proof fn lemma_small_cubes()
    ensures
        cube(0) == 0,
        cube(1) == 1,
{
    assert(cube(0) == 0) by (nonlinear_arith);
    assert(cube(1) == 1) by (nonlinear_arith);
}

/// Larger inputs do not have smaller cube roots.
pub proof fn lemma_roots_ordered(a: int, b: int, root_a: int, root_b: int)
    requires
        a <= b,
        is_cube_root(a, root_a),
        is_cube_root(b, root_b),
    ensures
        root_a <= root_b,
{
    if root_b < root_a {
        lemma_cube_increases(root_b + 1, root_a);
    }
}

/// An input has at most one integer cube root.
pub proof fn lemma_root_unique(v: int, r1: int, r2: int)
    requires
        is_cube_root(v, r1),
        is_cube_root(v, r2),
    ensures
        r1 == r2,
{
    lemma_roots_ordered(v, v, r1, r2);
    lemma_roots_ordered(v, v, r2, r1);
}

/// A cube root is never larger than its input.
pub proof fn lemma_root_at_most_input(v: int, r: int)
    requires
        is_cube_root(v, r),
    ensures
        0 <= r <= v,
{
    assert(r <= r * r * r) by (nonlinear_arith)
        requires
            0 <= r,
    ;
}

/// Every input that is not negative has an integer cube root, and
/// `cube_root` names it.
pub proof fn lemma_cube_root_exists(v: int)
    requires
        0 <= v,
    ensures
        is_cube_root(v, cube_root(v)),
    decreases v,
{
    lemma_small_cubes();
    if v == 0 {
        assert(is_cube_root(v, 0));
    } else {
        lemma_cube_root_exists(v - 1);
        let below = cube_root(v - 1);
        if v < cube(below + 1) {
            assert(is_cube_root(v, below));
        } else {
            lemma_cube_increases(below + 1, below + 2);
            assert(cube(below + 1) < cube(below + 2)) by (nonlinear_arith)
                requires
                    0 <= below,
            ;
            assert(is_cube_root(v, below + 1));
        }
    }
}

/// The cube root of `v` is at most `v`, its cube is at most `v`, and the cube
/// of the next integer is beyond `v`. For the largest value of an integer
/// type this says that the root fits the type and that no larger root does.
pub proof fn lemma_cube_root_bounds(v: int)
    requires
        0 <= v,
    ensures
        0 <= cube_root(v) <= v,
        cube(cube_root(v)) <= v < cube(cube_root(v) + 1),
{
    lemma_cube_root_exists(v);
    lemma_root_at_most_input(v, cube_root(v));
}

/// Whatever meets the definition of the integer cube root of `v` is `cube_root(v)`.
pub proof fn lemma_cube_root_is(v: int, r: int)
    requires
        is_cube_root(v, r),
    ensures
        r == cube_root(v),
{
    lemma_root_unique(v, r, cube_root(v));
}

/// The cube root of zero is zero.
pub proof fn lemma_cube_root_of_zero()
    ensures
        cube_root(0) == 0,
{
    lemma_small_cubes();
    lemma_cube_root_is(0, 0);
}

/// Monotonicity: for `0 <= a <= b`, the cube root of `a` is at most that of `b`.
pub proof fn lemma_cube_root_monotonic(a: int, b: int)
    requires
        0 <= a <= b,
    ensures
        cube_root(a) <= cube_root(b),
{
    lemma_cube_root_exists(a);
    lemma_cube_root_exists(b);
    lemma_roots_ordered(a, b, cube_root(a), cube_root(b));
}

} // verus!
