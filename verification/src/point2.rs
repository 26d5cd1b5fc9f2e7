//! A 2-dimensional point with value semantics.

use vstd::prelude::*;

verus! {

/// A 2-dimensional point; `x` and `y` are the first and second coordinates.
/// Any value of the coordinate type is accepted; the point is immutable
/// once built.
#[derive(Clone, Copy)]
pub struct Point2<T> {
    pub x: T,
    pub y: T,
}

impl<T> Point2<T> {
    /// Create a 2-dimensional point from its two coordinates.
    pub fn new(x: T, y: T) -> (p: Self)
        ensures
            p.x == x,
            p.y == y,
    {
        Point2 { x, y }
    }
}

} // verus!
