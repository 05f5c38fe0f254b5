//! Splitting `1..=n` into two sets of equal sum.

use vstd::prelude::*;

verus! {

pub open spec fn seq_sum(s: Seq<usize>) -> int
    decreases s.len(),
{
    if s.len() == 0 {
        0
    } else {
        seq_sum(s.drop_last()) + s.last()
    }
}

proof fn lemma_sum_push(s: Seq<usize>, x: usize)
    ensures
        seq_sum(s.push(x)) == seq_sum(s) + x,
{
    assert(s.push(x).drop_last() =~= s);
}

pub fn is_even(n: usize) -> (r: bool)
    ensures
        r <==> n % 2 == 0,
{
    n % 2 == 0
}

pub fn is_odd(n: usize) -> (r: bool)
    ensures
        r <==> n % 2 == 1,
{
    n % 2 == 1
}

/// When `1 + 2 + ... + n` is even, two sets of equal sum that together
/// hold each of `1..=n` once: `1, 2` against `3` when `n` is odd, then from
/// each four consecutive numbers the outer two of the remaining range
/// against the next two inside them.
pub fn solve(n: usize) -> (r: Option<(Vec<usize>, Vec<usize>)>)
    requires
        n <= 0x3fff_ffff,
    ensures
        r is None <==> (n * (n + 1) / 2) % 2 == 1,
        r matches Some((a, b)) ==> seq_sum(a@) == seq_sum(b@) && a@.len() + b@.len() == n
            && seq_sum(a@) + seq_sum(b@) == n * (n + 1) / 2,
{
    proof {
        lemma_parity(n as int);
    }
    if n % 4 == 1 || n % 4 == 2 {
        return None;
    }
    let mut set_a: Vec<usize> = Vec::with_capacity(n / 2 + 1);
    let mut set_b: Vec<usize> = Vec::with_capacity(n / 2 + 1);
    let mut lo: usize = 1;
    proof {
        assert(seq_sum(set_a@) == 0);
        assert(seq_sum(set_b@) == 0);
    }
    if is_odd(n) {
        proof {
            lemma_sum_push(set_a@, 1);
        }
        set_a.push(1);
        proof {
            lemma_sum_push(set_a@, 2);
        }
        set_a.push(2);
        proof {
            lemma_sum_push(set_b@, 3);
        }
        set_b.push(3);
        lo = 4;
    }
    let mut hi: usize = n;
    while lo < hi
        invariant
            n <= 0x3fff_ffff,
            1 <= lo <= hi + 1,
            hi <= n,
            (hi + 1 - lo) % 4 == 0,
            seq_sum(set_a@) == seq_sum(set_b@),
            set_a@.len() + set_b@.len() == (lo - 1) + (n - hi),
            2 * (seq_sum(set_a@) + seq_sum(set_b@)) == (lo - 1) * lo + (n - hi) * (n + hi + 1),
        decreases hi + 1 - lo,
    {
        proof {
            lemma_sum_push(set_a@, lo);
            lemma_sum_push(set_a@.push(lo), hi);
            lemma_sum_push(set_b@, (lo + 1) as usize);
            lemma_sum_push(set_b@.push((lo + 1) as usize), (hi - 1) as usize);
        }
        set_a.push(lo);
        set_a.push(hi);
        set_b.push(lo + 1);
        set_b.push(hi - 1);
        proof {
            assert((lo + 1) * (lo + 2) == (lo - 1) * lo + 2 * (lo + (lo + 1))) by (nonlinear_arith);
            assert((n - (hi - 2)) * (n + hi - 1) == (n - hi) * (n + hi + 1) + 2 * (hi + (hi - 1)))
                by (nonlinear_arith);
        }
        lo = lo + 2;
        hi = hi - 2;
    }
    proof {
        assert(lo == hi + 1);
        assert((lo - 1) * lo + (n - hi) * (n + hi + 1) == n * (n + 1)) by (nonlinear_arith)
            requires
                lo == hi + 1,
        ;
    }
    Some((set_a, set_b))
}

/// `1 + 2 + ... + n` is odd exactly when `n` leaves 1 or 2 modulo 4.
proof fn lemma_parity(n: int)
    requires
        0 <= n,
    ensures
        ((n * (n + 1) / 2) % 2 == 1) <==> (n % 4 == 1 || n % 4 == 2),
{
    let q = n / 4;
    let m = n % 4;
    let x = 4 * q * q + 2 * q * m + q;
    let c = m * (m + 1) / 2;
    assert(n * (n + 1) == 2 * (2 * x) + m * (m + 1)) by (nonlinear_arith)
        requires
            n == 4 * q + m,
            x == 4 * q * q + 2 * q * m + q,
    ;
    if m == 0 {
        assert(c == 0);
    } else if m == 1 {
        assert(c == 1);
    } else if m == 2 {
        assert(c == 3);
    } else {
        assert(c == 6);
    }
    assert(n * (n + 1) / 2 == 2 * x + c);
}

} // verus!
