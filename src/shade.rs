//! The checkerboard shader's choice of color.
//!
//! Space is cut into unit cells by rounding the absolute value of each
//! coordinate to the nearest integer; the evaluator does that rounding and
//! hands over the three cell numbers. A cell whose numbers sum to an even
//! number takes the first color, the others the second.
use vstd::prelude::*;

verus! {

/// Whether the cell `(cx, cy, cz)` takes the first color.
pub open spec fn first_color_cell(cx: int, cy: int, cz: int) -> bool {
    (cx + cy + cz) % 2 == 0
}

/// Whether the cell `(cx, cy, cz)` of a checkerboard takes the first color.
pub fn checker_first(cx: u32, cy: u32, cz: u32) -> (r: bool)
    ensures
        r == first_color_cell(cx as int, cy as int, cz as int),
{
    let sum: u64 = cx as u64 + cy as u64 + cz as u64;
    sum % 2 == 0
}

/// Stepping one cell along any axis switches the color.
pub proof fn lemma_checker_alternates(cx: int, cy: int, cz: int)
    ensures
        first_color_cell(cx + 1, cy, cz) != first_color_cell(cx, cy, cz),
        first_color_cell(cx, cy + 1, cz) != first_color_cell(cx, cy, cz),
        first_color_cell(cx, cy, cz + 1) != first_color_cell(cx, cy, cz),
{
}

} // verus!
