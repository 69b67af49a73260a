use vstd::prelude::*;

verus! {

/// A checker texture buckets a position by its cell size on each axis;
/// the cell with bucket indices `(bx, by, bz)` takes the first of the
/// two colors exactly when the indices sum to an even number.
pub open spec fn checker_first(bx: int, by: int, bz: int) -> bool {
    (bx + by + bz) % 2 == 0
}

/// Whether a checker texture shows its first color in the cell with
/// bucket indices `(bx, by, bz)`.
pub fn checker_picks_first(bx: i32, by: i32, bz: i32) -> (r: bool)
    ensures
        r == checker_first(bx as int, by as int, bz as int),
{
    let sum: i64 = bx as i64 + by as i64 + bz as i64;
    sum % 2 == 0
}

} // verus!
