//! Models: shapes whose corners are given to a fraction of a cell. The
//! outline of a model is drawn from corner to corner in whole cells, the
//! filling from the corners as they are.

use vstd::prelude::*;

verus! {

/// The number of steps that the coordinates of a model's corners divide a
/// cell into.
pub const SUBCELLS: i32 = 256;

/// The whole cells in a coordinate given in steps, the fraction left off
/// towards zero.
pub open spec fn whole_cells(v: int) -> int {
    if v >= 0 {
        v / (SUBCELLS as int)
    } else {
        -((-v) / (SUBCELLS as int))
    }
}

/// The whole cells in a coordinate given in steps.
pub fn to_whole_cells(v: i32) -> (cells: i32)
    ensures
        cells == whole_cells(v as int),
{
    if v >= 0 {
        v / 256
    } else {
        let back: i64 = -(v as i64);
        (-(back / 256)) as i32
    }
}

} // verus!
