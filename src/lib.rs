//! Z-space: points with integer coordinates and half-open rectangular ranges
//! built from them.
use vstd::prelude::*;

pub mod coords;
pub mod point;
pub mod range;
pub mod text;

verus! {

/// Values that have a coordinate count.
pub trait ZDim {
    spec fn spec_ndim(&self) -> nat;

    /// The number of coordinates.
    fn ndim(&self) -> (r: usize)
        ensures
            r == self.spec_ndim(),
    ;
}

impl ZDim for Vec<i32> {
    open spec fn spec_ndim(&self) -> nat {
        self@.len()
    }

    fn ndim(&self) -> (r: usize) {
        self.len()
    }
}

} // verus!
