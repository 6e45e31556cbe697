//! The cell of a value, found from two anchor cells on the diagonals and a
//! walk along the arm of the spiral that joins them.
use vstd::prelude::*;

use crate::calc_coord::floor_sqrt_u32;
use crate::spiral::{
    lemma_coordinate_of_value, lemma_east_arm, lemma_floor_sqrt, lemma_north_arm,
    lemma_south_arm, lemma_square, lemma_west_arm, spiral_coord, spiral_value,
};
use crate::{value_of_coord, Coord};

verus! {

/// The cell that holds `value`; `(0, 0)` for a negative value.
///
/// With `g` the square root of `value / 4` and `r` its rounding, the
/// north-west corner `(-r, r)` holds `4r^2`. A south-east anchor is taken
/// too: `(r + 1, -r)` when the fractional part of `g` is below one half, else
/// `(r, 1 - r)`. Whichever anchor lies closer in value (north-west on a tie)
/// is walked from, along its arm, by the difference.
pub fn lookup(value: i32) -> (r: Coord)
    ensures
        value < 0 ==> r.x == 0 && r.y == 0,
        value >= 0 ==> (r.x as int, r.y as int) == spiral_coord(value as nat),
        value >= 0 ==> spiral_value(r.x as int, r.y as int) == value,
{
    if value < 0 {
        return Coord::new(0, 0);
    }
    // With s the floor of the square root of value, the rounding of
    // sqrt(value / 4) is (s + 1) / 2, and its fractional part is below one
    // half exactly when s is even.
    let s = floor_sqrt_u32(value as u32);
    let ghost v = value as int;
    proof {
        lemma_floor_sqrt(value as nat);
        if s > 46340 {
            assert(s * s > i32::MAX) by (nonlinear_arith)
                requires
                    s > 46340,
            ;
        }
    }
    let root: i32 = ((s + 1) / 2) as i32;
    let even = s % 2 == 0;
    let ghost rr = root * root;
    proof {
        lemma_square(root as int);
        lemma_square(root + 1);
        assert(rr <= 23170 * 23170) by (nonlinear_arith)
            requires
                0 <= root <= 23170,
                rr == root * root,
        ;
        if even {
            assert(s == 2 * root);
            assert(4 * rr <= v < 4 * rr + 4 * root + 1);
        } else {
            assert(s == 2 * root - 1);
            assert(4 * rr - 4 * root + 1 <= v < 4 * rr);
        }
    }
    let nw = Coord::new(-root, root);
    let se = if even {
        Coord::new(root + 1, -root)
    } else {
        Coord::new(root, -root + 1)
    };
    proof {
        if root >= 1 {
            lemma_west_arm(root as int, 0);
        }
        if even {
            lemma_east_arm(root + 1, 0);
        } else {
            lemma_east_arm(root as int, 0);
        }
    }
    let nw_val = value_of_coord(&nw) as i64;
    let se_val = value_of_coord(&se) as i64;
    assert(nw_val == 4 * rr);
    assert(even ==> se_val == 4 * rr + 4 * root + 1);
    assert(!even ==> se_val == 4 * rr - 4 * root + 1);

    let nw_diff = nw_val - value as i64;
    let se_diff = se_val - value as i64;
    let nw_dist: i64 = if nw_diff < 0 { -nw_diff } else { nw_diff };
    let se_dist: i64 = if se_diff < 0 { -se_diff } else { se_diff };
    let x: i64;
    let y: i64;
    if se_dist > nw_dist {
        if nw_diff >= 0 {
            // along the top arm, to the right of the corner
            x = nw.x as i64 + nw_diff;
            y = nw.y as i64;
            proof {
                if even {
                    if root >= 1 {
                        lemma_west_arm(root as int, 0);
                    }
                } else {
                    lemma_north_arm(root as int, 2 * root - nw_diff);
                }
            }
        } else {
            // down the left arm, below the corner
            x = nw.x as i64;
            y = nw.y as i64 + nw_diff;
            proof {
                lemma_west_arm(root as int, -nw_diff);
            }
        }
    } else {
        if se_diff >= 0 {
            // along the bottom arm, to the left of the anchor
            x = se.x as i64 - se_diff;
            y = se.y as i64;
            proof {
                if even {
                    lemma_south_arm(root as int, 2 * root + 1 - se_diff);
                } else {
                    lemma_east_arm(root as int, 0);
                }
            }
        } else {
            // up the right arm, above the anchor
            x = se.x as i64;
            y = se.y as i64 - se_diff;
            proof {
                lemma_east_arm(root as int, -se_diff);
            }
        }
    }
    proof {
        lemma_coordinate_of_value(x as int, y as int);
    }
    Coord::new(x as i32, y as i32)
}

} // verus!
