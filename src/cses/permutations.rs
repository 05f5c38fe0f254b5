//! A permutation of `1..=n` in which neighbours differ by more than one.

use vstd::prelude::*;

verus! {

/// The even numbers up to `n` in increasing order, then the odd ones.
pub open spec fn evens_then_odds(n: int, i: int) -> int {
    if i < n / 2 {
        2 * (i + 1)
    } else {
        2 * (i - n / 2) + 1
    }
}

/// For `n` of at least 4: the even numbers of `1..=n`, then the odd ones;
/// `None` for smaller `n`.
pub fn solve(n: u64) -> (r: Option<Vec<u64>>)
    requires
        n <= 0x7fff_ffff,
    ensures
        n <= 3 <==> r is None,
        r matches Some(v) ==> v@.len() == n && forall|i: int|
            0 <= i < n ==> v@[i] == evens_then_odds(n as int, i),
{
    if n <= 3 {
        return None;
    }
    let mut result: Vec<u64> = Vec::with_capacity(n as usize);
    let mut x: u64 = 2;
    while x <= n
        invariant
            4 <= n <= 0x7fff_ffff,
            x % 2 == 0,
            2 <= x <= n + 2,
            result@.len() == x / 2 - 1,
            forall|i: int| 0 <= i < result@.len() ==> result@[i] == evens_then_odds(n as int, i),
        decreases n + 2 - x,
    {
        result.push(x);
        x = x + 2;
    }
    let mut y: u64 = 1;
    while y <= n
        invariant
            4 <= n <= 0x7fff_ffff,
            y % 2 == 1,
            1 <= y <= n + 2,
            result@.len() == n / 2 + (y - 1) / 2,
            forall|i: int| 0 <= i < result@.len() ==> result@[i] == evens_then_odds(n as int, i),
        decreases n + 2 - y,
    {
        result.push(y);
        y = y + 2;
    }
    Some(result)
}

} // verus!
