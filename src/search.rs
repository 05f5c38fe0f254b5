//! Searching a slice of integers: linear scan, binary search and jump search.

use vstd::prelude::*;

verus! {

/// Whether `s` is in non-decreasing order.
pub open spec fn sorted(s: Seq<i32>) -> bool {
    forall|i: int, j: int| 0 <= i <= j < s.len() ==> s[i] <= s[j]
}

/// The first index of `needle` in `slice`, if any.
pub fn linear_search(slice: &[i32], needle: i32) -> (r: Option<usize>)
    ensures
        match r {
            Some(i) => i < slice@.len() && slice@[i as int] == needle && forall|j: int|
                0 <= j < i ==> slice@[j] != needle,
            None => forall|j: int| 0 <= j < slice@.len() ==> slice@[j] != needle,
        },
{
    linear_search_from(slice, 0, needle)
}

/// The first index at or after `start` of `needle` in `slice`, if any.
fn linear_search_from(slice: &[i32], start: usize, needle: i32) -> (r: Option<usize>)
    requires
        start <= slice@.len(),
    ensures
        match r {
            Some(i) => start <= i < slice@.len() && slice@[i as int] == needle && forall|j: int|
                start <= j < i ==> slice@[j] != needle,
            None => forall|j: int| start <= j < slice@.len() ==> slice@[j] != needle,
        },
{
    let mut i = start;
    while i < slice.len()
        invariant
            start <= i <= slice@.len(),
            forall|j: int| start <= j < i ==> slice@[j] != needle,
        decreases slice@.len() - i,
    {
        if slice[i] == needle {
            return Some(i);
        }
        i = i + 1;
    }
    None
}

/// An index of `needle` in the sorted `slice`, found by halving the range
/// that can hold it.
pub fn binary_search(slice: &[i32], needle: i32) -> (r: Option<usize>)
    requires
        sorted(slice@),
    ensures
        match r {
            Some(i) => i < slice@.len() && slice@[i as int] == needle,
            None => forall|j: int| 0 <= j < slice@.len() ==> slice@[j] != needle,
        },
{
    let mut l: usize = 0;
    let mut r: usize = slice.len();
    while l < r
        invariant
            sorted(slice@),
            l <= r <= slice@.len(),
            forall|j: int| 0 <= j < l ==> slice@[j] < needle,
            forall|j: int| r <= j < slice@.len() ==> slice@[j] > needle,
        decreases r - l,
    {
        let mid = l + (r - l) / 2;
        if needle < slice[mid] {
            r = mid;
        } else if needle == slice[mid] {
            return Some(mid);
        } else {
            l = mid + 1;
        }
    }
    None
}

/// The integer square root of `n`.
fn isqrt(n: usize) -> (r: usize)
    ensures
        r * r <= n < (r + 1) * (r + 1),
{
    let mut s: usize = 0;
    while ((s as u128) + 1) * ((s as u128) + 1) <= n as u128
        invariant
            s * s <= n,
            n <= usize::MAX,
            s <= 0xffff_ffff,
            (s + 1) * (s + 1) <= 0x1_0000_0000 * 0x1_0000_0000,
        decreases n - s * s,
    {
        proof {
            assert((s + 1) * (s + 1) > s * s) by (nonlinear_arith);
            assert(s + 1 <= 0xffff_ffff) by (nonlinear_arith)
                requires
                    (s + 1) * (s + 1) <= n,
                    n <= 0xffff_ffff_ffff_ffff,
            ;
        }
        s = s + 1;
        proof {
            assert((s + 1) * (s + 1) <= 0x1_0000_0000 * 0x1_0000_0000) by (nonlinear_arith)
                requires
                    s <= 0xffff_ffff,
            ;
        }
    }
    s
}

/// An index of `needle` in the sorted `slice`: jumps ahead `sqrt(n)` slots
/// at a time while the slot jumped to holds a smaller value, then scans the
/// last stretch.
pub fn jump_search(slice: &[i32], needle: i32) -> (r: Option<usize>)
    requires
        sorted(slice@),
    ensures
        match r {
            Some(i) => i < slice@.len() && slice@[i as int] == needle,
            None => forall|j: int| 0 <= j < slice@.len() ==> slice@[j] != needle,
        },
{
    let size = slice.len();
    if size == 0 {
        return None;
    }
    let jump = isqrt(size);
    proof {
        assert(jump >= 1) by (nonlinear_arith)
            requires
                size < (jump + 1) * (jump + 1),
                size >= 1,
        ;
    }
    let mut l: usize = 0;
    while l < size
        invariant
            sorted(slice@),
            size == slice@.len(),
            l <= size,
            jump >= 1,
            forall|j: int| 0 <= j < l ==> slice@[j] < needle,
        decreases size - l,
    {
        let mid = if size - l > jump {
            l + jump
        } else {
            size - 1
        };
        if needle < slice[mid] {
            return linear_search_from(slice, l, needle);
        } else if needle == slice[mid] {
            return Some(mid);
        }
        l = mid + 1;
    }
    None
}

} // verus!
