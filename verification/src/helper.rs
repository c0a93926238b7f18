use vstd::prelude::*;

verus! {

/// A colour as red, green and blue.
#[derive(Clone, Copy, Debug, PartialEq, Eq, Structural)]
pub struct Color(pub u8, pub u8, pub u8);

/// A point of the plane.
///
/// Each coordinate is an ordinal: an integer code of a real coordinate, chosen
/// by the caller so that codes order exactly as the coordinates they stand for.
/// The library stores, compares and clamps ordinals and never adds or scales
/// them.
#[derive(Clone, Copy, Debug, PartialEq, Eq, Structural)]
pub struct Vector2 {
    pub x: u32,
    pub y: u32,
}

impl Vector2 {
    pub fn new(x: u32, y: u32) -> (v: Vector2)
        ensures
            v.x == x,
            v.y == y,
    {
        Vector2 { x, y }
    }
}

/// `v` brought into the closed range from `lo` to `hi`.
pub open spec fn clamped(v: u32, lo: u32, hi: u32) -> u32 {
    if v < lo {
        lo
    } else if v > hi {
        hi
    } else {
        v
    }
}

/// Brings `v` into the closed range from `lo` to `hi`.
pub fn clamp(v: u32, lo: u32, hi: u32) -> (c: u32)
    requires
        lo <= hi,
    ensures
        c == clamped(v, lo, hi),
        lo <= c <= hi,
{
    if v < lo {
        lo
    } else if v > hi {
        hi
    } else {
        v
    }
}

} // verus!
