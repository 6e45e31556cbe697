//! Primality of the values on the spiral.
use vstd::prelude::*;

use crate::spiral::{octant, spiral_value};
use crate::{quad_of_coord, value_of_coord, Coord, UlamPoint};

verus! {

/// `n` is prime: at least two, and no number from two to `n - 1` divides it.
pub open spec fn is_prime_number(n: int) -> bool {
    n >= 2 && forall|d: int| 2 <= d < n ==> #[trigger] (n % d) != 0
}

/// Relies on `primal::is_prime`, a deterministic Miller-Rabin test that is
/// exact over all of `u64`: true exactly when `n` is prime.
#[verifier::external_body]
fn primal_is_prime(n: u64) -> (r: bool)
    ensures
        r == is_prime_number(n as int),
{
    primal::is_prime(n)
}

/// Whether `num` is prime.
pub fn is_prime(num: u32) -> (r: bool)
    ensures
        r == is_prime_number(num as int),
{
    primal_is_prime(num as u64)
}

/// The value, octant and primality of a cell. Its value must fit in `u32`.
pub fn get_ulam_point(c: &Coord) -> (r: UlamPoint)
    requires
        spiral_value(c.x as int, c.y as int) <= u32::MAX,
    ensures
        r.value == spiral_value(c.x as int, c.y as int),
        r.quad == octant(c.x as int, c.y as int),
        r.is_prime == is_prime_number(r.value as int),
{
    let q = quad_of_coord(c);
    let value = value_of_coord(c);
    UlamPoint { value, quad: q, is_prime: is_prime(value) }
}

} // verus!
