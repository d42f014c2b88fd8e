//! The decision of the checker texture: which of its two textures a point
//! takes, from the cell that the point falls in.
use vstd::prelude::*;

verus! {

/// Whether the cell with integer coordinates `(x, y, z)` takes the even
/// texture: the sum of its coordinates is even.
pub fn checker_cell_is_even(x: i32, y: i32, z: i32) -> (r: bool)
    ensures
        r == ((x + y + z) % 2 == 0),
{
    let sum: i64 = x as i64 + y as i64 + z as i64;
    sum % 2 == 0
}

} // verus!
