//! Square grid cells addressed by (row, column) and their neighbourhoods.

use vstd::prelude::*;

verus! {

/// The eight cells around `(v, h)`, row by row.
pub fn neighbours(cell: (i32, i32)) -> (r: [(i32, i32); 8])
    requires
        i32::MIN < cell.0 < i32::MAX,
        i32::MIN < cell.1 < i32::MAX,
    ensures
        r@ == seq![
            ((cell.0 - 1) as i32, (cell.1 - 1) as i32),
            ((cell.0 - 1) as i32, cell.1),
            ((cell.0 - 1) as i32, (cell.1 + 1) as i32),
            (cell.0, (cell.1 - 1) as i32),
            (cell.0, (cell.1 + 1) as i32),
            ((cell.0 + 1) as i32, (cell.1 - 1) as i32),
            ((cell.0 + 1) as i32, cell.1),
            ((cell.0 + 1) as i32, (cell.1 + 1) as i32),
        ],
{
    let (v, h) = cell;
    let r = [
        (v - 1, h - 1),
        (v - 1, h),
        (v - 1, h + 1),
        (v, h - 1),
        (v, h + 1),
        (v + 1, h - 1),
        (v + 1, h),
        (v + 1, h + 1),
    ];
    assert(r@ =~= seq![
        ((cell.0 - 1) as i32, (cell.1 - 1) as i32),
        ((cell.0 - 1) as i32, cell.1),
        ((cell.0 - 1) as i32, (cell.1 + 1) as i32),
        (cell.0, (cell.1 - 1) as i32),
        (cell.0, (cell.1 + 1) as i32),
        ((cell.0 + 1) as i32, (cell.1 - 1) as i32),
        ((cell.0 + 1) as i32, cell.1),
        ((cell.0 + 1) as i32, (cell.1 + 1) as i32),
    ]);
    r
}

} // verus!
