//! Per-side values of a box (padding, border, margin, inset).

use vstd::prelude::*;

verus! {

/// A value for each of the four sides of a box.
#[derive(Debug, Clone, Copy, PartialEq, Eq, Default)]
pub struct Sides<T> {
    pub top: T,
    pub right: T,
    pub bottom: T,
    pub left: T,
}

impl<T: Copy + Default> Sides<T> {
    /// The same value on all four sides.
    pub fn all(v: T) -> (s: Self)
        ensures
            s.top == v,
            s.right == v,
            s.bottom == v,
            s.left == v,
    {
        Sides { top: v, right: v, bottom: v, left: v }
    }
}

} // verus!
