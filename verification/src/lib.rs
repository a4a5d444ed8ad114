//! Integer cube roots of the primitive integer types, computed in integer
//! arithmetic only and proved to be the floor of the real cube root.
//!
//! ```
//! use integer_cbrt::IntegerCubeRoot;
//!
//! assert_eq!(8u8.integer_cbrt(), 2);
//! ```

mod digits;
pub mod model;
mod shift;
mod signed;
mod unsigned;

use crate::model::{cube_root, is_cube_root};
use vstd::prelude::*;

verus! {

/// Integer cube roots, for every primitive integer type.
pub trait IntegerCubeRoot {
    /// The integer that this value stands for.
    spec fn as_int(&self) -> int;

    /// The integer cube root of a value that is not negative: the largest
    /// integer whose cube is at most the value.
    fn integer_cbrt(&self) -> (root: Self) where Self: Sized
        requires
            self.as_int() >= 0,
        ensures
            is_cube_root(self.as_int(), root.as_int()),
            root.as_int() == cube_root(self.as_int()),
    {
        self.integer_cbrt_checked().expect("cannot calculate cube root of negative number")
    }

    /// The integer cube root, or `None` exactly when the value is negative
    /// (which an unsigned value never is).
    fn integer_cbrt_checked(&self) -> (root: Option<Self>) where Self: Sized
        ensures
            self.as_int() < 0 <==> root is None,
            root matches Some(r) ==> is_cube_root(self.as_int(), r.as_int()) && r.as_int()
                == cube_root(self.as_int()),
    ;
}

} // verus!
