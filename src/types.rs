use vstd::prelude::*;

verus! {

/// A pair of coordinates.
#[derive(Debug, Clone, Copy)]
pub struct Vector<T> {
    pub x: T,
    pub y: T,
}

} // verus!
