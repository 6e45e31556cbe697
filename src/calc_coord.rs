//! The cell of a value, computed from the floor of its square root.
use vstd::prelude::*;

use crate::spiral::{floor_sqrt, lemma_floor_sqrt_unique, lemma_value_of_coordinate, spiral_coord, spiral_value};
use crate::Coord;

verus! {

/// The square root of `v`, rounded down, by bisection.
pub(crate) fn floor_sqrt_u32(v: u32) -> (r: u32)
    ensures
        r == floor_sqrt(v as nat),
        r <= 65535,
{
    let mut lo: u64 = 0;
    let mut hi: u64 = 65536;
    assert(v < hi * hi);
    while lo + 1 < hi
        invariant
            lo < hi <= 65536,
            lo * lo <= v,
            v < hi * hi,
        decreases hi - lo,
    {
        let mid = lo + (hi - lo) / 2;
        assert(mid * mid <= 65536 * 65536) by (nonlinear_arith)
            requires
                mid <= 65536,
        ;
        if mid * mid <= v as u64 {
            lo = mid;
        } else {
            hi = mid;
        }
    }
    proof {
        lemma_floor_sqrt_unique(lo as int, v as nat);
    }
    lo as u32
}

/// The cell that holds `value`.
pub fn calc_coord(value: u32) -> (r: Coord)
    ensures
        (r.x as int, r.y as int) == spiral_coord(value as nat),
        spiral_value(r.x as int, r.y as int) == value,
{
    let n = floor_sqrt_u32(value) as u64;
    proof {
        crate::spiral::lemma_floor_sqrt(value as nat);
    }
    assert(n * n <= 65535 * 65535) by (nonlinear_arith)
        requires
            n <= 65535,
    ;
    let diff = value as u64 - n * n;
    assert(diff <= 2 * n) by (nonlinear_arith)
        requires
            value < (n + 1) * (n + 1),
            diff == value - n * n,
    ;
    // half of n; the arms below are written with it, so that no division
    // meets a negative operand
    let h = (n / 2) as i64;
    let d = diff as i64;
    let x: i64;
    let y: i64;
    if n % 2 == 1 {
        // n == 2h + 1: up the right side, then left along the top
        if diff < n {
            x = h + 1;
            y = d - h;
        } else {
            x = 3 * h + 2 - d;
            y = h + 1;
        }
    } else {
        // n == 2h: down the left side, then right along the bottom
        if diff < n {
            x = -h;
            y = h - d;
        } else {
            x = d - 3 * h;
            y = -h;
        }
    }
    proof {
        lemma_value_of_coordinate(value as nat);
    }
    Coord { x: x as i32, y: y as i32 }
}

/// The cell that holds `value`, as a pair `(x, y)`.
pub fn calc_xy(value: u32) -> (r: (i32, i32))
    ensures
        (r.0 as int, r.1 as int) == spiral_coord(value as nat),
        spiral_value(r.0 as int, r.1 as int) == value,
{
    let c = calc_coord(value);
    (c.x, c.y)
}

} // verus!
