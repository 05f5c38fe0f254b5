//! Ways to place two non-attacking knights on an `n` by `n` board.

use vstd::prelude::*;

verus! {

/// Unordered pairs of squares, less the pairs a knight's move apart: each
/// 2 by 3 and 3 by 2 block holds two attacking pairs.
pub open spec fn two_knights(n: int) -> int {
    n * n * (n * n - 1) / 2 - 4 * (n - 1) * (n - 2)
}

pub fn solve(n: u64) -> (r: u64)
    requires
        2 <= n <= 10000,
    ensures
        r == two_knights(n as int),
{
    proof {
        assert(n * n <= 100_000_000) by (nonlinear_arith)
            requires
                n <= 10000,
        ;
    }
    let sq = n * n;
    proof {
        assert(4 <= sq <= 100_000_000) by (nonlinear_arith)
            requires
                sq == n * n,
                2 <= n <= 10000,
        ;
        assert(sq * (sq - 1) <= 100_000_000 * 100_000_000) by (nonlinear_arith)
            requires
                4 <= sq <= 100_000_000,
        ;
        assert(4 * (n - 1) * (n - 2) <= sq * (sq - 1) / 2) by (nonlinear_arith)
            requires
                sq == n * n,
                n >= 2,
        ;
        assert(4 * (n - 1) * (n - 2) <= 4 * 10000 * 10000) by (nonlinear_arith)
            requires
                2 <= n <= 10000,
        ;
    }
    let pairs = sq * (sq - 1) / 2;
    pairs - 4 * (n - 1) * (n - 2)
}

} // verus!
