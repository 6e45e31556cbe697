//! The mathematical model of the spiral: octants, the value of a cell, the
//! cell of a value, and the laws that tie them together.
use vstd::prelude::*;

use crate::Quad;

verus! {

pub open spec fn abs(a: int) -> int {
    if a < 0 { -a } else { a }
}

/// The octant of `(x, y)`. The origin is `Center`; otherwise the axis of
/// strictly larger magnitude gives a cardinal octant by its sign, and equal
/// magnitudes give the diagonal octant of the quadrant.
pub open spec fn octant(x: int, y: int) -> Quad {
    if x == 0 && y == 0 {
        Quad::Center
    } else if abs(y) > abs(x) {
        if y > 0 { Quad::North } else { Quad::South }
    } else if abs(x) > abs(y) {
        if x > 0 { Quad::East } else { Quad::West }
    } else if x > 0 {
        if y > 0 { Quad::NorthEast } else { Quad::SouthEast }
    } else {
        if y > 0 { Quad::NorthWest } else { Quad::SouthWest }
    }
}


/// The ring of a cell: its Chebyshev distance from the origin.
pub open spec fn ring(x: int, y: int) -> int {
    if abs(x) >= abs(y) { abs(x) } else { abs(y) }
}

/// The value of the cell `(x, y)`: a quadratic in the dominant coordinate,
/// one for each octant.
pub open spec fn spiral_value(x: int, y: int) -> int {
    match octant(x, y) {
        Quad::North => 4 * (y * y) - y - x,
        Quad::East => 4 * (x * x) - 3 * x + y,
        Quad::South => 4 * (y * y) - 3 * y + x,
        Quad::West => 4 * (x * x) - x - y,
        Quad::NorthWest => 4 * (x * x),
        Quad::NorthEast => 4 * (x * x) - 2 * x,
        Quad::SouthWest => 4 * (x * x) + 2 * abs(x),
        Quad::SouthEast => 4 * (x * x) + 4 * x,
        Quad::Center => 0,
    }
}

/// The square root of `v`, rounded down.
pub open spec fn floor_sqrt(v: nat) -> nat
    decreases v,
{
    if v == 0 {
        0
    } else {
        let r = floor_sqrt((v - 1) as nat);
        if (r + 1) * (r + 1) <= v { r + 1 } else { r }
    }
}

/// The cell that holds the value `v`. With `n` the floor of the square root
/// of `v`, the values from `n * n` to `n * n + 2 * n` run along two arms of
/// the spiral: up and then left when `n` is odd, down and then right when it
/// is even. Every division here is exact.
pub open spec fn spiral_coord(v: nat) -> (int, int) {
    let n = floor_sqrt(v) as int;
    let diff = v - n * n;
    if n % 2 == 1 {
        if diff < n {
            ((n + 1) / 2, (1 - n) / 2 + diff)
        } else {
            ((3 * n + 1) / 2 - diff, (n + 1) / 2)
        }
    } else {
        if diff < n {
            (-n / 2, n / 2 - diff)
        } else {
            (-3 * n / 2 + diff, -n / 2)
        }
    }
}

pub(crate) proof fn lemma_square(m: int)
    ensures
        (m + 1) * (m + 1) == m * m + 2 * m + 1,
        (2 * m) * (2 * m) == 4 * (m * m),
        (2 * m + 1) * (2 * m + 1) == 4 * (m * m) + 4 * m + 1,
        (2 * m - 1) * (2 * m - 1) == 4 * (m * m) - 4 * m + 1,
        (-m) * (-m) == m * m,
{
    assert((m + 1) * (m + 1) == m * m + 2 * m + 1) by (nonlinear_arith);
    assert((2 * m) * (2 * m) == 4 * (m * m)) by (nonlinear_arith);
    assert((2 * m + 1) * (2 * m + 1) == 4 * (m * m) + 4 * m + 1) by (nonlinear_arith);
    assert((2 * m - 1) * (2 * m - 1) == 4 * (m * m) - 4 * m + 1) by (nonlinear_arith);
    assert((-m) * (-m) == m * m) by (nonlinear_arith);
}

/// The right arm of ring `m`, bottom to top: `(m, 1 - m)` up to `(m, m)`.
pub proof fn lemma_east_arm(m: int, k: int)
    requires
        m >= 1,
        0 <= k <= 2 * m - 1,
    ensures
        spiral_value(m, 1 - m + k) == 4 * (m * m) - 4 * m + 1 + k,
{
    lemma_square(m);
    let y = 1 - m + k;
    if k == 2 * m - 1 {
        assert(octant(m, y) == Quad::NorthEast);
    } else {
        assert(octant(m, y) == Quad::East);
    }
}

/// The top arm of ring `m`, right to left: `(m, m)` to `(-m, m)`.
pub proof fn lemma_north_arm(m: int, k: int)
    requires
        m >= 1,
        0 <= k <= 2 * m,
    ensures
        spiral_value(m - k, m) == 4 * (m * m) - 2 * m + k,
{
    lemma_square(m);
    let x = m - k;
    if k == 0 {
        assert(octant(x, m) == Quad::NorthEast);
    } else if k == 2 * m {
        assert(octant(x, m) == Quad::NorthWest);
    } else {
        assert(octant(x, m) == Quad::North);
    }
}

/// The left arm of ring `m`, top to bottom: `(-m, m)` to `(-m, -m)`.
pub proof fn lemma_west_arm(m: int, k: int)
    requires
        m >= 1,
        0 <= k <= 2 * m,
    ensures
        spiral_value(-m, m - k) == 4 * (m * m) + k,
{
    lemma_square(m);
    let y = m - k;
    if k == 0 {
        assert(octant(-m, y) == Quad::NorthWest);
    } else if k == 2 * m {
        assert(octant(-m, y) == Quad::SouthWest);
    } else {
        assert(octant(-m, y) == Quad::West);
    }
}

/// The bottom arm of ring `m`, left to right: `(-m, -m)` to `(m, -m)`.
pub proof fn lemma_south_arm(m: int, k: int)
    requires
        m >= 1,
        0 <= k <= 2 * m,
    ensures
        spiral_value(-m + k, -m) == 4 * (m * m) + 2 * m + k,
{
    lemma_square(m);
    let x = -m + k;
    if k == 0 {
        assert(octant(x, -m) == Quad::SouthWest);
    } else if k == 2 * m {
        assert(octant(x, -m) == Quad::SouthEast);
    } else {
        assert(octant(x, -m) == Quad::South);
    }
}

/// `floor_sqrt(v)` is the one `n` with `n * n <= v < (n + 1) * (n + 1)`.
pub proof fn lemma_floor_sqrt(v: nat)
    ensures
        floor_sqrt(v) * floor_sqrt(v) <= v,
        v < (floor_sqrt(v) + 1) * (floor_sqrt(v) + 1),
    decreases v,
{
    if v == 0 {
        assert(floor_sqrt(0) == 0);
        assert(v < (floor_sqrt(v) + 1) * (floor_sqrt(v) + 1)) by (nonlinear_arith)
            requires
                v == 0,
                floor_sqrt(v) == 0,
        ;
    } else {
        lemma_floor_sqrt((v - 1) as nat);
        let r = floor_sqrt((v - 1) as nat);
        assert((r + 1) * (r + 1) < (r + 2) * (r + 2)) by (nonlinear_arith);
        assert(r * r <= v);
        if (r + 1) * (r + 1) <= v {
            assert(floor_sqrt(v) == r + 1);
            assert(v < (floor_sqrt(v) + 1) * (floor_sqrt(v) + 1));
        } else {
            assert(floor_sqrt(v) == r);
        }
    }
}

/// A root pinned between two squares is the floor of the square root.
pub proof fn lemma_floor_sqrt_unique(n: int, v: nat)
    requires
        0 <= n,
        n * n <= v,
        v < (n + 1) * (n + 1),
    ensures
        floor_sqrt(v) == n,
{
    lemma_floor_sqrt(v);
    let r = floor_sqrt(v) as int;
    if r < n {
        assert((r + 1) * (r + 1) <= n * n) by (nonlinear_arith)
            requires
                0 <= r < n,
        ;
    } else if r > n {
        assert((n + 1) * (n + 1) <= r * r) by (nonlinear_arith)
            requires
                0 <= n < r,
        ;
    }
}

/// Every value has its cell: the value of `spiral_coord(v)` is `v`.
pub proof fn lemma_value_of_coordinate(v: nat)
    ensures
        spiral_value(spiral_coord(v).0, spiral_coord(v).1) == v,
{
    lemma_floor_sqrt(v);
    let n = floor_sqrt(v) as int;
    let diff = v - n * n;
    let k = n / 2;
    lemma_square(k);
    lemma_square(k + 1);
    let c = spiral_coord(v);
    if n % 2 == 1 {
        assert(n == 2 * k + 1);
        assert(diff <= 2 * n) by (nonlinear_arith)
            requires
                v < (n + 1) * (n + 1),
                diff == v - n * n,
        ;
        if diff < n {
            assert(c == (k + 1, -k + diff));
            lemma_east_arm(k + 1, diff);
        } else {
            assert(c == (3 * k + 2 - diff, k + 1));
            lemma_north_arm(k + 1, diff - 2 * k - 1);
        }
    } else {
        assert(n == 2 * k);
        assert(diff <= 2 * n) by (nonlinear_arith)
            requires
                v < (n + 1) * (n + 1),
                diff == v - n * n,
        ;
        if k == 0 {
            assert(c == (0int, 0int));
        } else if diff < n {
            assert(c == (-k, k - diff));
            lemma_west_arm(k, diff);
        } else {
            assert(c == (-3 * k + diff, -k));
            lemma_south_arm(k, diff - 2 * k);
        }
    }
}

/// Every cell has its value: `spiral_coord` takes the value of a cell back
/// to that cell.
pub proof fn lemma_coordinate_of_value(x: int, y: int)
    ensures
        spiral_value(x, y) >= 0,
        spiral_coord(spiral_value(x, y) as nat) == (x, y),
{
    let m = ring(x, y);
    lemma_square(m);
    if m == 0 {
        assert(x == 0 && y == 0);
        lemma_floor_sqrt_unique(0, 0);
    } else {
        let v = spiral_value(x, y);
        if x == m && -m < y < m {
            let k = y - 1 + m;
            lemma_east_arm(m, k);
            lemma_floor_sqrt_unique(2 * m - 1, v as nat);
        } else if y == m {
            let k = m - x;
            lemma_north_arm(m, k);
            if k == 2 * m {
                lemma_west_arm(m, 0);
                lemma_floor_sqrt_unique(2 * m, v as nat);
            } else {
                lemma_floor_sqrt_unique(2 * m - 1, v as nat);
            }
        } else if x == -m {
            let k = m - y;
            lemma_west_arm(m, k);
            lemma_floor_sqrt_unique(2 * m, v as nat);
        } else {
            assert(y == -m);
            let k = x + m;
            lemma_south_arm(m, k);
            lemma_floor_sqrt_unique(2 * m, v as nat);
        }
    }
}

/// The values of ring `m > 0` run from `(2m - 1)^2` to `(2m + 1)^2 - 1`.
pub proof fn lemma_value_in_ring(x: int, y: int)
    requires
        ring(x, y) >= 1,
    ensures
        4 * (ring(x, y) * ring(x, y)) - 4 * ring(x, y) + 1 <= spiral_value(x, y),
        spiral_value(x, y) <= 4 * (ring(x, y) * ring(x, y)) + 4 * ring(x, y),
{
    let m = ring(x, y);
    if x == m && -m < y < m {
        lemma_east_arm(m, y - 1 + m);
    } else if y == m {
        lemma_north_arm(m, m - x);
    } else if x == -m {
        lemma_west_arm(m, m - y);
    } else {
        lemma_south_arm(m, x + m);
    }
}

/// A cell whose value fits in `u32` lies within ring 32768.
pub proof fn lemma_small_ring(x: int, y: int)
    requires
        spiral_value(x, y) <= u32::MAX,
    ensures
        -32768 <= x <= 32768,
        -32768 <= y <= 32768,
{
    let m = ring(x, y);
    if m >= 1 {
        lemma_value_in_ring(x, y);
        if m > 32768 {
            assert(4 * (m * m) - 4 * m + 1 > u32::MAX) by (nonlinear_arith)
                requires
                    m > 32768,
            ;
        }
    }
}

/// A cell within ring 32767 has a value that fits in `u32`.
pub proof fn lemma_value_fits(x: int, y: int)
    requires
        -32767 <= x <= 32767,
        -32767 <= y <= 32767,
    ensures
        0 <= spiral_value(x, y) <= u32::MAX,
{
    lemma_coordinate_of_value(x, y);
    let m = ring(x, y);
    if m >= 1 {
        lemma_value_in_ring(x, y);
        assert(4 * (m * m) + 4 * m <= u32::MAX) by (nonlinear_arith)
            requires
                1 <= m <= 32767,
        ;
    }
}

/// The octant across the origin.
pub open spec fn opposite(q: Quad) -> Quad {
    match q {
        Quad::North => Quad::South,
        Quad::NorthEast => Quad::SouthWest,
        Quad::East => Quad::West,
        Quad::SouthEast => Quad::NorthWest,
        Quad::South => Quad::North,
        Quad::SouthWest => Quad::NorthEast,
        Quad::West => Quad::East,
        Quad::NorthWest => Quad::SouthEast,
        Quad::Center => Quad::Center,
    }
}

/// Mirroring a cell other than the origin through the origin moves it to the
/// opposite octant.
pub proof fn lemma_octant_antipodal(x: int, y: int)
    requires
        x != 0 || y != 0,
    ensures
        octant(-x, -y) == opposite(octant(x, y)),
{
}

} // verus!
