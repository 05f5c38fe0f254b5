//! Sorting integers in place.

use crate::search::sorted;
use vstd::prelude::*;

verus! {

/// Swaps the neighbours at `i` and `i + 1`.
fn swap_next(v: &mut Vec<i32>, i: usize)
    requires
        i + 1 < old(v)@.len(),
    ensures
        final(v)@ == old(v)@.update(i as int, old(v)@[i + 1]).update(i + 1, old(v)@[i as int]),
        final(v)@.to_multiset() == old(v)@.to_multiset(),
{
    let len = v.len();
    let j = i + 1;
    let a = v[i];
    let b = v[j];
    let ghost s = v@;
    let ghost s1 = s.update(i as int, b);
    v.set(i, b);
    v.set(j, a);
    proof {
        vstd::seq_lib::to_multiset_update(s, i as int, b);
        vstd::seq_lib::to_multiset_update(s1, i + 1, a);
        s.to_multiset_ensures();
        s1.to_multiset_ensures();
        assert(s.contains(a));
        assert(s1[i + 1] == b);
        assert(s1.contains(b));
        let m = s.to_multiset();
        assert(m.insert(b).remove(a).insert(a).remove(b) =~= m);
    }
}

/// Bubble sort: each pass carries the largest remaining value to the end of
/// the unsorted prefix; a pass without swaps ends the sort.
pub fn bubble_sort(v: &mut Vec<i32>)
    ensures
        sorted(final(v)@),
        final(v)@.to_multiset() == old(v)@.to_multiset(),
{
    let n = v.len();
    let mut done: usize = 0;
    while done < n
        invariant
            n == v@.len(),
            done <= n,
            v@.to_multiset() == old(v)@.to_multiset(),
            forall|a: int, b: int| n - done <= a <= b < n ==> v@[a] <= v@[b],
            forall|a: int, b: int| 0 <= a < n - done <= b < n ==> v@[a] <= v@[b],
        decreases n - done,
    {
        let mut swapped = false;
        let mut i: usize = 0;
        while i + 1 < n - done
            invariant
                n == v@.len(),
                done < n,
                i < n - done,
                v@.to_multiset() == old(v)@.to_multiset(),
                forall|a: int, b: int| n - done <= a <= b < n ==> v@[a] <= v@[b],
                forall|a: int, b: int| 0 <= a < n - done <= b < n ==> v@[a] <= v@[b],
                forall|a: int| 0 <= a <= i ==> v@[a] <= v@[i as int],
                !swapped ==> forall|a: int, b: int| 0 <= a <= b <= i ==> v@[a] <= v@[b],
            decreases n - done - i,
        {
            if v[i] > v[i + 1] {
                swap_next(v, i);
                swapped = true;
            }
            i = i + 1;
        }
        if !swapped {
            return;
        }
        done = done + 1;
    }
}

} // verus!
