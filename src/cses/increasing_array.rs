//! The total by which an array steps down from each element to the next.

use vstd::prelude::*;

verus! {

/// Sum over neighbouring pairs `(l, r)` of `l - r` where `l > r`.
pub open spec fn total_drop(s: Seq<u64>) -> int
    decreases s.len(),
{
    if s.len() < 2 {
        0
    } else {
        let l = s[s.len() - 2];
        let r = s[s.len() - 1];
        total_drop(s.drop_last()) + if l > r {
            l - r
        } else {
            0
        }
    }
}

pub fn solve(nums: Vec<u64>) -> (r: u64)
    requires
        total_drop(nums@) <= u64::MAX,
    ensures
        r == total_drop(nums@),
{
    if nums.len() < 2 {
        return 0;
    }
    let mut sum: u64 = 0;
    let mut i: usize = 1;
    while i < nums.len()
        invariant
            1 <= i <= nums@.len(),
            total_drop(nums@) <= u64::MAX,
            sum == total_drop(nums@.subrange(0, i as int)),
        decreases nums@.len() - i,
    {
        proof {
            let s = nums@.subrange(0, i + 1);
            assert(s.drop_last() =~= nums@.subrange(0, i as int));
            lemma_total_drop_prefix(nums@, i + 1);
        }
        sum = sum + nums[i - 1].saturating_sub(nums[i]);
        i = i + 1;
    }
    proof {
        assert(nums@.subrange(0, i as int) =~= nums@);
    }
    sum
}

/// The drops of a prefix are at most the drops of the whole.
proof fn lemma_total_drop_prefix(s: Seq<u64>, n: int)
    requires
        0 <= n <= s.len(),
    ensures
        total_drop(s.subrange(0, n)) <= total_drop(s),
    decreases s.len() - n,
{
    if n < s.len() {
        lemma_total_drop_prefix(s, n + 1);
        assert(s.subrange(0, n + 1).drop_last() =~= s.subrange(0, n));
        assert(total_drop(s.subrange(0, n)) <= total_drop(s.subrange(0, n + 1)));
    } else {
        assert(s.subrange(0, n) =~= s);
    }
}

} // verus!
