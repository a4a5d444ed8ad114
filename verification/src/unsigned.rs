//! Cube roots of the unsigned integer types.
//!
//! Each type runs the same loop in its own width: three bits of the input
//! are read per round, from the top, and every intermediate value fits the
//! type.

use crate::digits::{
    is_partial_root, lemma_last_digit, lemma_next_digit, lemma_no_digit, lemma_step_fits,
};
use crate::model::{cube_root, is_cube_root, lemma_cube_root_is, lemma_small_cubes};
use crate::shift::lemma_u128_shl_is_mul;
use crate::IntegerCubeRoot;
use vstd::bits::{
    lemma_u128_shr_is_div, lemma_u16_shl_is_mul, lemma_u16_shr_is_div, lemma_u32_shl_is_mul,
    lemma_u32_shr_is_div, lemma_u64_shl_is_mul, lemma_u64_shr_is_div, lemma_u8_shl_is_mul,
    lemma_u8_shr_is_div, lemma_usize_shl_is_mul, lemma_usize_shr_is_div,
};
use vstd::layout::unsigned_int_max_values;
use vstd::prelude::*;

verus! {

impl IntegerCubeRoot for u8 {
    open spec fn as_int(&self) -> int {
        *self as int
    }

    fn integer_cbrt_checked(&self) -> (root: Option<u8>)
        ensures
            root matches Some(r) && is_cube_root(*self as int, r as int) && r as int
                == cube_root(*self as int),
    {
        let value: u8 = *self;
        if value == 0 {
            proof {
                lemma_small_cubes();
                lemma_cube_root_is(0, 0);
            }
            return Some(0);
        }
        let mut rest: u8 = value;
        let mut root: u8 = 0;
        let mut digits: u32 = (u8::BITS + 2) / 3;
        proof {
            unsigned_int_max_values();
            lemma_no_digit(value as int, u8::BITS as nat);
        }
        while digits > 0
            invariant
                3 * digits <= u8::BITS + 2,
                is_partial_root(value as int, (3 * digits) as nat, root as int, rest as int),
            decreases digits,
        {
            digits = digits - 1;
            let shift: u32 = 3 * digits;
            proof {
                lemma_step_fits(
                    value as int,
                    shift as nat,
                    root as int,
                    rest as int,
                    u8::MAX as int,
                );
                lemma_next_digit(value as int, shift as nat, root as int, rest as int);
                lemma_u8_shr_is_div(rest, shift as u8);
            }
            root = root + root;
            let step: u8 = 3 * root * (root + 1) + 1;
            if (rest >> shift) >= step {
                proof {
                    lemma_u8_shl_is_mul(step, shift as u8);
                }
                rest = rest - (step << shift);
                root = root + 1;
            }
        }
        proof {
            lemma_last_digit(value as int, root as int, rest as int);
            lemma_cube_root_is(value as int, root as int);
        }
        Some(root)
    }
}

impl IntegerCubeRoot for u16 {
    open spec fn as_int(&self) -> int {
        *self as int
    }

    fn integer_cbrt_checked(&self) -> (root: Option<u16>)
        ensures
            root matches Some(r) && is_cube_root(*self as int, r as int) && r as int
                == cube_root(*self as int),
    {
        let value: u16 = *self;
        if value == 0 {
            proof {
                lemma_small_cubes();
                lemma_cube_root_is(0, 0);
            }
            return Some(0);
        }
        let mut rest: u16 = value;
        let mut root: u16 = 0;
        let mut digits: u32 = (u16::BITS + 2) / 3;
        proof {
            unsigned_int_max_values();
            lemma_no_digit(value as int, u16::BITS as nat);
        }
        while digits > 0
            invariant
                3 * digits <= u16::BITS + 2,
                is_partial_root(value as int, (3 * digits) as nat, root as int, rest as int),
            decreases digits,
        {
            digits = digits - 1;
            let shift: u32 = 3 * digits;
            proof {
                lemma_step_fits(
                    value as int,
                    shift as nat,
                    root as int,
                    rest as int,
                    u16::MAX as int,
                );
                lemma_next_digit(value as int, shift as nat, root as int, rest as int);
                lemma_u16_shr_is_div(rest, shift as u16);
            }
            root = root + root;
            let step: u16 = 3 * root * (root + 1) + 1;
            if (rest >> shift) >= step {
                proof {
                    lemma_u16_shl_is_mul(step, shift as u16);
                }
                rest = rest - (step << shift);
                root = root + 1;
            }
        }
        proof {
            lemma_last_digit(value as int, root as int, rest as int);
            lemma_cube_root_is(value as int, root as int);
        }
        Some(root)
    }
}

impl IntegerCubeRoot for u32 {
    open spec fn as_int(&self) -> int {
        *self as int
    }

    fn integer_cbrt_checked(&self) -> (root: Option<u32>)
        ensures
            root matches Some(r) && is_cube_root(*self as int, r as int) && r as int
                == cube_root(*self as int),
    {
        let value: u32 = *self;
        if value == 0 {
            proof {
                lemma_small_cubes();
                lemma_cube_root_is(0, 0);
            }
            return Some(0);
        }
        let mut rest: u32 = value;
        let mut root: u32 = 0;
        let mut digits: u32 = (u32::BITS + 2) / 3;
        proof {
            unsigned_int_max_values();
            lemma_no_digit(value as int, u32::BITS as nat);
        }
        while digits > 0
            invariant
                3 * digits <= u32::BITS + 2,
                is_partial_root(value as int, (3 * digits) as nat, root as int, rest as int),
            decreases digits,
        {
            digits = digits - 1;
            let shift: u32 = 3 * digits;
            proof {
                lemma_step_fits(
                    value as int,
                    shift as nat,
                    root as int,
                    rest as int,
                    u32::MAX as int,
                );
                lemma_next_digit(value as int, shift as nat, root as int, rest as int);
                lemma_u32_shr_is_div(rest, shift as u32);
            }
            root = root + root;
            let step: u32 = 3 * root * (root + 1) + 1;
            if (rest >> shift) >= step {
                proof {
                    lemma_u32_shl_is_mul(step, shift as u32);
                }
                rest = rest - (step << shift);
                root = root + 1;
            }
        }
        proof {
            lemma_last_digit(value as int, root as int, rest as int);
            lemma_cube_root_is(value as int, root as int);
        }
        Some(root)
    }
}

impl IntegerCubeRoot for u64 {
    open spec fn as_int(&self) -> int {
        *self as int
    }

    fn integer_cbrt_checked(&self) -> (root: Option<u64>)
        ensures
            root matches Some(r) && is_cube_root(*self as int, r as int) && r as int
                == cube_root(*self as int),
    {
        let value: u64 = *self;
        if value == 0 {
            proof {
                lemma_small_cubes();
                lemma_cube_root_is(0, 0);
            }
            return Some(0);
        }
        let mut rest: u64 = value;
        let mut root: u64 = 0;
        let mut digits: u32 = (u64::BITS + 2) / 3;
        proof {
            unsigned_int_max_values();
            lemma_no_digit(value as int, u64::BITS as nat);
        }
        while digits > 0
            invariant
                3 * digits <= u64::BITS + 2,
                is_partial_root(value as int, (3 * digits) as nat, root as int, rest as int),
            decreases digits,
        {
            digits = digits - 1;
            let shift: u32 = 3 * digits;
            proof {
                lemma_step_fits(
                    value as int,
                    shift as nat,
                    root as int,
                    rest as int,
                    u64::MAX as int,
                );
                lemma_next_digit(value as int, shift as nat, root as int, rest as int);
                lemma_u64_shr_is_div(rest, shift as u64);
            }
            root = root + root;
            let step: u64 = 3 * root * (root + 1) + 1;
            if (rest >> shift) >= step {
                proof {
                    lemma_u64_shl_is_mul(step, shift as u64);
                }
                rest = rest - (step << shift);
                root = root + 1;
            }
        }
        proof {
            lemma_last_digit(value as int, root as int, rest as int);
            lemma_cube_root_is(value as int, root as int);
        }
        Some(root)
    }
}

impl IntegerCubeRoot for u128 {
    open spec fn as_int(&self) -> int {
        *self as int
    }

    fn integer_cbrt_checked(&self) -> (root: Option<u128>)
        ensures
            root matches Some(r) && is_cube_root(*self as int, r as int) && r as int
                == cube_root(*self as int),
    {
        let value: u128 = *self;
        if value == 0 {
            proof {
                lemma_small_cubes();
                lemma_cube_root_is(0, 0);
            }
            return Some(0);
        }
        let mut rest: u128 = value;
        let mut root: u128 = 0;
        let mut digits: u32 = (u128::BITS + 2) / 3;
        proof {
            unsigned_int_max_values();
            lemma_no_digit(value as int, u128::BITS as nat);
        }
        while digits > 0
            invariant
                3 * digits <= u128::BITS + 2,
                is_partial_root(value as int, (3 * digits) as nat, root as int, rest as int),
            decreases digits,
        {
            digits = digits - 1;
            let shift: u32 = 3 * digits;
            proof {
                lemma_step_fits(
                    value as int,
                    shift as nat,
                    root as int,
                    rest as int,
                    u128::MAX as int,
                );
                lemma_next_digit(value as int, shift as nat, root as int, rest as int);
                lemma_u128_shr_is_div(rest, shift as u128);
            }
            root = root + root;
            let step: u128 = 3 * root * (root + 1) + 1;
            if (rest >> shift) >= step {
                proof {
                    lemma_u128_shl_is_mul(step, shift as u128);
                }
                rest = rest - (step << shift);
                root = root + 1;
            }
        }
        proof {
            lemma_last_digit(value as int, root as int, rest as int);
            lemma_cube_root_is(value as int, root as int);
        }
        Some(root)
    }
}

impl IntegerCubeRoot for usize {
    open spec fn as_int(&self) -> int {
        *self as int
    }

    fn integer_cbrt_checked(&self) -> (root: Option<usize>)
        ensures
            root matches Some(r) && is_cube_root(*self as int, r as int) && r as int
                == cube_root(*self as int),
    {
        let value: usize = *self;
        if value == 0 {
            proof {
                lemma_small_cubes();
                lemma_cube_root_is(0, 0);
            }
            return Some(0);
        }
        let mut rest: usize = value;
        let mut root: usize = 0;
        let mut digits: u32 = (usize::BITS + 2) / 3;
        proof {
            unsigned_int_max_values();
            lemma_no_digit(value as int, usize::BITS as nat);
        }
        while digits > 0
            invariant
                3 * digits <= usize::BITS + 2,
                is_partial_root(value as int, (3 * digits) as nat, root as int, rest as int),
            decreases digits,
        {
            digits = digits - 1;
            let shift: u32 = 3 * digits;
            proof {
                lemma_step_fits(
                    value as int,
                    shift as nat,
                    root as int,
                    rest as int,
                    usize::MAX as int,
                );
                lemma_next_digit(value as int, shift as nat, root as int, rest as int);
                lemma_usize_shr_is_div(rest, shift as usize);
            }
            root = root + root;
            let step: usize = 3 * root * (root + 1) + 1;
            if (rest >> shift) >= step {
                proof {
                    lemma_usize_shl_is_mul(step, shift as usize);
                }
                rest = rest - (step << shift);
                root = root + 1;
            }
        }
        proof {
            lemma_last_digit(value as int, root as int, rest as int);
            lemma_cube_root_is(value as int, root as int);
        }
        Some(root)
    }
}

} // verus!
