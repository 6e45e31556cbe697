//! Pictures of the spiral: one pixel per cell, lit where the cell's value is
//! prime. The origin sits at the centre of the picture and y grows upward,
//! while rows are counted downward. Pixels are laid out row by row.
use vstd::arithmetic::div_mod::lemma_fundamental_div_mod_converse;
use vstd::prelude::*;

use crate::prime::{is_prime, is_prime_number};
use crate::spiral::{lemma_value_fits, spiral_value};
use crate::{value_of_coord, Coord};

verus! {

/// The cell shown at column `col` and row `row` of a `width` by `height`
/// picture.
pub open spec fn pixel_coord(width: int, height: int, col: int, row: int) -> (int, int) {
    (col + 1 + width / 2 - width, height / 2 - row)
}

/// The value of the cell shown at pixel `i`, counted row by row.
pub open spec fn pixel_value(width: int, height: int, i: int) -> int {
    let c = pixel_coord(width, height, i % width, i / width);
    spiral_value(c.0, c.1)
}

/// The grey level of pixel `i`: white where the value is prime, else black.
pub open spec fn prime_shade(width: int, height: int, i: int) -> u8 {
    if is_prime_number(pixel_value(width, height, i)) {
        255
    } else {
        0
    }
}

/// The colour of a prime by its remainder modulo six, as red, green, blue.
pub open spec fn prime_colour(p: int) -> (u8, u8, u8) {
    if p % 6 == 0 || p % 6 == 3 {
        (255, 0, 0)
    } else if p % 6 == 1 {
        (0, 255, 0)
    } else if p % 6 == 5 {
        (0, 0, 255)
    } else {
        (255, 255, 255)
    }
}

/// The colour of pixel `i`: the colour of its value where that is prime,
/// else black.
pub open spec fn pixel_colour(width: int, height: int, i: int) -> (u8, u8, u8) {
    let v = pixel_value(width, height, i);
    if is_prime_number(v) {
        prime_colour(v)
    } else {
        (0, 0, 0)
    }
}

/// Byte `j` of a picture with three bytes (red, green, blue) per pixel.
pub open spec fn colour_byte(width: int, height: int, j: int) -> u8 {
    let c = pixel_colour(width, height, j / 3);
    if j % 3 == 0 {
        c.0
    } else if j % 3 == 1 {
        c.1
    } else {
        c.2
    }
}

/// The value of the cell shown at column `col` and row `row`.
fn value_at(x_size: u32, y_size: u32, col: u32, row: u32) -> (r: u32)
    requires
        x_size <= 65535,
        y_size <= 65535,
        col < x_size,
        row < y_size,
    ensures
        r == spiral_value(
            pixel_coord(x_size as int, y_size as int, col as int, row as int).0,
            pixel_coord(x_size as int, y_size as int, col as int, row as int).1,
        ),
{
    let x = col as i64 + 1 + (x_size / 2) as i64 - x_size as i64;
    let y = (y_size / 2) as i64 - row as i64;
    proof {
        lemma_value_fits(x as int, y as int);
    }
    value_of_coord(&Coord { x: x as i32, y: y as i32 })
}

/// The colour of a prime `p`.
fn colour_of_prime(p: u32) -> (r: (u8, u8, u8))
    ensures
        r == prime_colour(p as int),
{
    match p % 6 {
        0 => (255, 0, 0),
        1 => (0, 255, 0),
        3 => (255, 0, 0),
        5 => (0, 0, 255),
        _ => (255, 255, 255),
    }
}

/// A grey picture of the spiral, `x_size` pixels wide and `y_size` high:
/// one byte per pixel, 255 where the value shown is prime and 0 elsewhere.
/// The side of the square that holds the picture, squared, must fit in `u32`.
pub fn prime_pixels(x_size: u32, y_size: u32) -> (r: Vec<u8>)
    requires
        x_size <= 65535,
        y_size <= 65535,
    ensures
        r@.len() == x_size * y_size,
        forall|i: int|
            0 <= i < r@.len() ==> #[trigger] r@[i] == prime_shade(x_size as int, y_size as int, i),
{
    let mut out: Vec<u8> = Vec::new();
    let mut row: u32 = 0;
    while row < y_size
        invariant
            x_size <= 65535,
            y_size <= 65535,
            row <= y_size,
            out@.len() == row * x_size,
            forall|i: int|
                0 <= i < out@.len() ==> #[trigger] out@[i] == prime_shade(
                    x_size as int,
                    y_size as int,
                    i,
                ),
        decreases y_size - row,
    {
        let mut col: u32 = 0;
        while col < x_size
            invariant
                x_size <= 65535,
                y_size <= 65535,
                row < y_size,
                col <= x_size,
                out@.len() == row * x_size + col,
                forall|i: int|
                    0 <= i < out@.len() ==> #[trigger] out@[i] == prime_shade(
                        x_size as int,
                        y_size as int,
                        i,
                    ),
            decreases x_size - col,
        {
            let v = value_at(x_size, y_size, col, row);
            let shade: u8 = if is_prime(v) {
                255
            } else {
                0
            };
            proof {
                lemma_fundamental_div_mod_converse(
                    row * x_size + col,
                    x_size as int,
                    row as int,
                    col as int,
                );
            }
            out.push(shade);
            col = col + 1;
        }
        assert((row + 1) * x_size == row * x_size + x_size) by (nonlinear_arith);
        row = row + 1;
    }
    out
}

/// A colour picture of the spiral, `x_size` pixels wide and `y_size` high:
/// three bytes (red, green, blue) per pixel, each prime coloured by its
/// remainder modulo six and every other pixel black.
/// The side of the square that holds the picture, squared, must fit in `u32`.
pub fn colour_pixels(x_size: u32, y_size: u32) -> (r: Vec<u8>)
    requires
        x_size <= 65535,
        y_size <= 65535,
    ensures
        r@.len() == 3 * (x_size * y_size),
        forall|j: int|
            0 <= j < r@.len() ==> #[trigger] r@[j] == colour_byte(x_size as int, y_size as int, j),
{
    let mut out: Vec<u8> = Vec::new();
    let mut row: u32 = 0;
    while row < y_size
        invariant
            x_size <= 65535,
            y_size <= 65535,
            row <= y_size,
            out@.len() == 3 * (row * x_size),
            forall|j: int|
                0 <= j < out@.len() ==> #[trigger] out@[j] == colour_byte(
                    x_size as int,
                    y_size as int,
                    j,
                ),
        decreases y_size - row,
    {
        let mut col: u32 = 0;
        while col < x_size
            invariant
                x_size <= 65535,
                y_size <= 65535,
                row < y_size,
                col <= x_size,
                out@.len() == 3 * (row * x_size + col),
                forall|j: int|
                    0 <= j < out@.len() ==> #[trigger] out@[j] == colour_byte(
                        x_size as int,
                        y_size as int,
                        j,
                    ),
            decreases x_size - col,
        {
            let v = value_at(x_size, y_size, col, row);
            let (red, green, blue): (u8, u8, u8) = if is_prime(v) {
                colour_of_prime(v)
            } else {
                (0, 0, 0)
            };
            let ghost p = row * x_size + col;
            proof {
                lemma_fundamental_div_mod_converse(p, x_size as int, row as int, col as int);
                assert((3 * p) / 3 == p && (3 * p) % 3 == 0);
                assert((3 * p + 1) / 3 == p && (3 * p + 1) % 3 == 1);
                assert((3 * p + 2) / 3 == p && (3 * p + 2) % 3 == 2);
            }
            out.push(red);
            out.push(green);
            out.push(blue);
            col = col + 1;
        }
        assert((row + 1) * x_size == row * x_size + x_size) by (nonlinear_arith);
        row = row + 1;
    }
    out
}

} // verus!
