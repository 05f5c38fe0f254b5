//! The number at a given cell of the spiral that fills an infinite grid
//! layer by layer: layer `k` holds the numbers `(k-1)^2 + 1 ..= k^2`, running
//! down column `k` and then left along row `k` when `k` is even, and the
//! other way when `k` is odd.

use vstd::prelude::*;

verus! {

pub open spec fn spiral(row: int, col: int) -> int {
    let layer = if row > col {
        row
    } else {
        col
    };
    let steps = (layer - col) + (row - 1);
    if layer % 2 == 0 {
        (layer - 1) * (layer - 1) + 1 + steps
    } else {
        layer * layer - steps
    }
}

/// The number at row `row`, column `col` (both counted from 1).
pub fn solve(row: usize, col: usize) -> (r: usize)
    requires
        1 <= row <= 0xffff,
        1 <= col <= 0xffff,
    ensures
        r == spiral(row as int, col as int),
{
    let layer = if row > col {
        row
    } else {
        col
    };
    let steps = (layer - col) + (row - 1);
    proof {
        assert(layer * layer <= 0xffff * 0xffff) by (nonlinear_arith)
            requires
                1 <= layer <= 0xffff,
        ;
        assert(steps < 2 * layer);
        assert((layer - 1) * (layer - 1) + 2 * layer <= layer * layer + 1) by (nonlinear_arith)
            requires
                1 <= layer,
        ;
        assert(steps <= layer * layer - 1) by (nonlinear_arith)
            requires
                steps < 2 * layer - 1 + 1,
                1 <= layer,
                steps <= (layer - col) + (layer - 1),
                col >= 1,
        ;
    }
    if layer % 2 == 0 {
        let prev = layer - 1;
        let top = prev * prev + 1;
        top + steps
    } else {
        let top = layer * layer;
        top - steps
    }
}

} // verus!
