//! Cube roots of the signed integer types.
//!
//! A negative value has no cube root here. A positive value has the cube
//! root of the unsigned integer with the same bits, and that root fits the
//! signed type because it is at most the value.

use crate::model::{
    cube_root, is_cube_root, lemma_cube_root_is, lemma_root_at_most_input, lemma_small_cubes,
};
use crate::IntegerCubeRoot;
use vstd::prelude::*;

verus! {

impl IntegerCubeRoot for i8 {
    open spec fn as_int(&self) -> int {
        *self as int
    }

    fn integer_cbrt_checked(&self) -> (root: Option<i8>)
        ensures
            *self < 0 <==> root is None,
            root matches Some(r) ==> is_cube_root(*self as int, r as int) && r as int
                == cube_root(*self as int),
    {
        let value: i8 = *self;
        if value < 0 {
            None
        } else if value == 0 {
            proof {
                lemma_small_cubes();
                lemma_cube_root_is(0, 0);
            }
            Some(0)
        } else {
            let root: u8 = (value as u8).integer_cbrt();
            proof {
                lemma_root_at_most_input(value as int, root as int);
            }
            Some(root as i8)
        }
    }
}

impl IntegerCubeRoot for i16 {
    open spec fn as_int(&self) -> int {
        *self as int
    }

    fn integer_cbrt_checked(&self) -> (root: Option<i16>)
        ensures
            *self < 0 <==> root is None,
            root matches Some(r) ==> is_cube_root(*self as int, r as int) && r as int
                == cube_root(*self as int),
    {
        let value: i16 = *self;
        if value < 0 {
            None
        } else if value == 0 {
            proof {
                lemma_small_cubes();
                lemma_cube_root_is(0, 0);
            }
            Some(0)
        } else {
            let root: u16 = (value as u16).integer_cbrt();
            proof {
                lemma_root_at_most_input(value as int, root as int);
            }
            Some(root as i16)
        }
    }
}

impl IntegerCubeRoot for i32 {
    open spec fn as_int(&self) -> int {
        *self as int
    }

    fn integer_cbrt_checked(&self) -> (root: Option<i32>)
        ensures
            *self < 0 <==> root is None,
            root matches Some(r) ==> is_cube_root(*self as int, r as int) && r as int
                == cube_root(*self as int),
    {
        let value: i32 = *self;
        if value < 0 {
            None
        } else if value == 0 {
            proof {
                lemma_small_cubes();
                lemma_cube_root_is(0, 0);
            }
            Some(0)
        } else {
            let root: u32 = (value as u32).integer_cbrt();
            proof {
                lemma_root_at_most_input(value as int, root as int);
            }
            Some(root as i32)
        }
    }
}

impl IntegerCubeRoot for i64 {
    open spec fn as_int(&self) -> int {
        *self as int
    }

    fn integer_cbrt_checked(&self) -> (root: Option<i64>)
        ensures
            *self < 0 <==> root is None,
            root matches Some(r) ==> is_cube_root(*self as int, r as int) && r as int
                == cube_root(*self as int),
    {
        let value: i64 = *self;
        if value < 0 {
            None
        } else if value == 0 {
            proof {
                lemma_small_cubes();
                lemma_cube_root_is(0, 0);
            }
            Some(0)
        } else {
            let root: u64 = (value as u64).integer_cbrt();
            proof {
                lemma_root_at_most_input(value as int, root as int);
            }
            Some(root as i64)
        }
    }
}

impl IntegerCubeRoot for i128 {
    open spec fn as_int(&self) -> int {
        *self as int
    }

    fn integer_cbrt_checked(&self) -> (root: Option<i128>)
        ensures
            *self < 0 <==> root is None,
            root matches Some(r) ==> is_cube_root(*self as int, r as int) && r as int
                == cube_root(*self as int),
    {
        let value: i128 = *self;
        if value < 0 {
            None
        } else if value == 0 {
            proof {
                lemma_small_cubes();
                lemma_cube_root_is(0, 0);
            }
            Some(0)
        } else {
            let root: u128 = (value as u128).integer_cbrt();
            proof {
                lemma_root_at_most_input(value as int, root as int);
            }
            Some(root as i128)
        }
    }
}

impl IntegerCubeRoot for isize {
    open spec fn as_int(&self) -> int {
        *self as int
    }

    fn integer_cbrt_checked(&self) -> (root: Option<isize>)
        ensures
            *self < 0 <==> root is None,
            root matches Some(r) ==> is_cube_root(*self as int, r as int) && r as int
                == cube_root(*self as int),
    {
        let value: isize = *self;
        if value < 0 {
            None
        } else if value == 0 {
            proof {
                lemma_small_cubes();
                lemma_cube_root_is(0, 0);
            }
            Some(0)
        } else {
            let root: usize = (value as usize).integer_cbrt();
            proof {
                lemma_root_at_most_input(value as int, root as int);
            }
            Some(root as isize)
        }
    }
}

} // verus!
