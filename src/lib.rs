//! The Ulam spiral: integers laid out in a square spiral around the origin.
//!
//! The crate maps a value to its cell on the spiral and back, and sorts every
//! cell into one of eight octants (plus the centre). The mathematical model of
//! these maps lives in [`spiral`]; the executable functions here are proved
//! against it.
use vstd::prelude::*;

pub mod calc_coord;
pub mod lookup;
pub mod prime;
pub mod spiral;
pub mod ulamspiral_img;

use crate::calc_coord::calc_coord;

use crate::spiral::{lemma_coordinate_of_value, lemma_small_ring, octant, spiral_coord, spiral_value};

verus! {

/// An octant of the plane, as seen from the origin.
/// Any two-word octant (like `NorthWest`) lies on a perfect diagonal
/// (for example x: -8, y: 8).
#[derive(PartialEq, Eq, Structural, Clone, Copy, Debug)]
pub enum Quad {
    North,
    NorthEast,
    East,
    SouthEast,
    South,
    SouthWest,
    West,
    NorthWest,
    Center,
}

/// A cell of the spiral, given by its value, its octant and whether the
/// value is prime.
#[derive(Clone, Copy, Debug)]
pub struct UlamPoint {
    pub value: u32,
    pub quad: Quad,
    pub is_prime: bool,
}

/// A cell of the plane.
#[derive(PartialEq, Eq, Structural, Clone, Copy, Debug)]
pub struct Coord {
    pub x: i32,
    pub y: i32,
}

impl Coord {
    pub fn new(x: i32, y: i32) -> (r: Coord)
        ensures
            r.x == x,
            r.y == y,
    {
        Coord { x, y }
    }
}

/// The octant of a cell: the dominant axis and its sign give the cardinal
/// octants, equal magnitudes give the diagonal ones.
pub fn quad_of_coord(c: &Coord) -> (r: Quad)
    ensures
        r == octant(c.x as int, c.y as int),
{
    let x = c.x as i64;
    let y = c.y as i64;
    let ax: i64 = if x < 0 { -x } else { x };
    let ay: i64 = if y < 0 { -y } else { y };
    if ax == 0 && ay == 0 {
        Quad::Center
    } else if ay > ax {
        if y > 0 { Quad::North } else { Quad::South }
    } else if ax > ay {
        if x > 0 { Quad::East } else { Quad::West }
    } else {
        match (x > 0, y > 0) {
            (true, true) => Quad::NorthEast,
            (false, true) => Quad::NorthWest,
            (false, false) => Quad::SouthWest,
            (true, false) => Quad::SouthEast,
        }
    }
}

/// The value of a cell. Its value must fit in `u32`.
pub fn value_of_coord(c: &Coord) -> (r: u32)
    requires
        spiral_value(c.x as int, c.y as int) <= u32::MAX,
    ensures
        r == spiral_value(c.x as int, c.y as int),
{
    let x = c.x as i64;
    let y = c.y as i64;
    proof {
        lemma_small_ring(x as int, y as int);
        lemma_coordinate_of_value(x as int, y as int);
    }
    assert(0 <= x * x <= 1073741824) by (nonlinear_arith)
        requires
            -32768 <= x <= 32768,
    ;
    assert(0 <= y * y <= 1073741824) by (nonlinear_arith)
        requires
            -32768 <= y <= 32768,
    ;
    let xx = x * x;
    let yy = y * y;
    let v: i64 = match quad_of_coord(c) {
        Quad::North => 4 * yy - y - x,
        Quad::East => 4 * xx - 3 * x + y,
        Quad::South => 4 * yy - 3 * y + x,
        Quad::West => 4 * xx - x - y,
        Quad::NorthWest => 4 * xx,
        Quad::NorthEast => 4 * xx - 2 * x,
        // x is negative here, so this is 4x^2 + 2|x|
        Quad::SouthWest => 4 * xx - 2 * x,
        Quad::SouthEast => 4 * xx + 4 * x,
        Quad::Center => 0,
    };
    v as u32
}

/// The value of the cell `(x, y)`. Its value must fit in `u32`.
pub fn get_value_from_xy(x: i32, y: i32) -> (r: u32)
    requires
        spiral_value(x as int, y as int) <= u32::MAX,
    ensures
        r == spiral_value(x as int, y as int),
{
    value_of_coord(&Coord { x, y })
}

/// The octant of the cell `(x, y)`.
pub fn quad_of_xy(x: i32, y: i32) -> (r: Quad)
    ensures
        r == octant(x as int, y as int),
{
    quad_of_coord(&Coord { x, y })
}

/// The cell that holds `v`, as a pair `(x, y)`.
pub fn get_xy_from_value(v: u32) -> (r: (i32, i32))
    ensures
        (r.0 as int, r.1 as int) == spiral_coord(v as nat),
        spiral_value(r.0 as int, r.1 as int) == v,
{
    let c = calc_coord(v);
    (c.x, c.y)
}

/// The octant of the cell that holds `v`.
pub fn quad_of_value(v: u32) -> (r: Quad)
    ensures
        r == octant(spiral_coord(v as nat).0, spiral_coord(v as nat).1),
{
    quad_of_coord(&calc_coord(v))
}

} // verus!
