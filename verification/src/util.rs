//! Small shared values: cell positions and integer helpers.

use vstd::prelude::*;

verus! {

/// A cell of the arena, by column and row.
#[derive(Clone, Copy, Debug, PartialEq, Eq, Structural)]
pub struct Position {
    pub x: i32,
    pub y: i32,
}

/// Absolute value of an integer.
pub open spec fn abs(v: int) -> int {
    if v < 0 {
        -v
    } else {
        v
    }
}

/// Manhattan distance between the cells `(x, y)` and `(z, t)`.
pub open spec fn manhattan(x: int, y: int, z: int, t: int) -> int {
    abs(x - z) + abs(y - t)
}

/// The value `v` held inside `lo..=hi`.
pub open spec fn clamp(v: int, lo: int, hi: int) -> int {
    if v < lo {
        lo
    } else if v > hi {
        hi
    } else {
        v
    }
}

/// The smaller of two integers.
pub fn min(v1: i32, v2: i32) -> (r: i32)
    ensures
        r == if v1 < v2 { v1 } else { v2 },
{
    if v1 < v2 {
        v1
    } else {
        v2
    }
}

/// The larger of two integers.
pub fn max(v1: i32, v2: i32) -> (r: i32)
    ensures
        r == if v1 > v2 { v1 } else { v2 },
{
    if v1 > v2 {
        v1
    } else {
        v2
    }
}

/// Manhattan distance between `(x, y)` and `(z, t)`. The distance has to fit
/// the result type.
pub fn dist(x: i32, y: i32, z: i32, t: i32) -> (d: i32)
    requires
        manhattan(x as int, y as int, z as int, t as int) <= i32::MAX,
    ensures
        d == manhattan(x as int, y as int, z as int, t as int),
{
    let dx: i64 = x as i64 - z as i64;
    let dy: i64 = y as i64 - t as i64;
    let ax: i64 = if dx < 0 { -dx } else { dx };
    let ay: i64 = if dy < 0 { -dy } else { dy };
    (ax + ay) as i32
}

/// Whether a roll out of a hundred meets a chance of `percent` percent: the
/// roll lies below it.
pub open spec fn chance_met(roll: int, percent: int) -> bool {
    roll < percent
}

/// Whether the roll `roll` out of a hundred meets a chance of `percent`
/// percent.
pub fn passes(roll: i32, percent: i32) -> (b: bool)
    ensures
        b == chance_met(roll as int, percent as int),
{
    roll < percent
}

/// `v + delta`, held inside `lo..=hi`.
pub fn bounded_add(v: i32, delta: i32, lo: i32, hi: i32) -> (r: i32)
    requires
        lo <= hi,
    ensures
        r == clamp(v + delta, lo as int, hi as int),
{
    let sum: i64 = v as i64 + delta as i64;
    if sum < lo as i64 {
        lo
    } else if sum > hi as i64 {
        hi
    } else {
        sum as i32
    }
}

} // verus!
