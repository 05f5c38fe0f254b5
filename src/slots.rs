//! Index arithmetic of probe walks and the counting facts that the tables
//! share.

use vstd::prelude::*;
use vstd::relations::injective_on;
use vstd::set_lib::*;

verus! {

/// The slot `d` steps after `h` in a ring of `cap` slots.
pub open spec fn probe(h: int, d: int, cap: int) -> int {
    if h + d < cap {
        h + d
    } else {
        h + d - cap
    }
}

/// How many steps slot `i` lies after `h` in a ring of `cap` slots.
pub open spec fn dist(h: int, i: int, cap: int) -> int {
    if h <= i {
        i - h
    } else {
        i + cap - h
    }
}

/// The slot after `i` in a ring of `cap` slots.
pub fn next_slot(i: usize, cap: usize) -> (r: usize)
    requires
        i < cap,
    ensures
        r == probe(i as int, 1, cap as int),
        r < cap,
{
    if i + 1 == cap {
        0
    } else {
        i + 1
    }
}

pub proof fn lemma_probe_dist(h: int, i: int, cap: int)
    requires
        0 <= h < cap,
        0 <= i < cap,
    ensures
        0 <= dist(h, i, cap) < cap,
        probe(h, dist(h, i, cap), cap) == i,
{
}

pub proof fn lemma_probe_next(h: int, d: int, cap: int)
    requires
        0 <= h < cap,
        0 <= d,
        d + 1 < cap,
    ensures
        0 <= probe(h, d, cap) < cap,
        probe(h, d + 1, cap) == probe(probe(h, d, cap), 1, cap),
        dist(h, probe(h, d, cap), cap) == d,
{
}

/// Inserting a key grows a finite map by one entry exactly when the key is
/// new.
pub proof fn lemma_insert_len<V>(m: Map<u64, V>, k: u64, v: V)
    requires
        m.dom().finite(),
    ensures
        m.insert(k, v).len() == if m.contains_key(k) {
            m.len()
        } else {
            m.len() + 1
        },
{
    if m.contains_key(k) {
        assert(m.insert(k, v).dom() =~= m.dom());
    }
}

/// Removing a key shrinks a finite map by one entry exactly when the key is
/// present.
pub proof fn lemma_remove_len<V>(m: Map<u64, V>, k: u64)
    requires
        m.dom().finite(),
    ensures
        m.remove(k).len() == if m.contains_key(k) {
            m.len() - 1
        } else {
            m.len() as int
        },
{
    if !m.contains_key(k) {
        assert(m.remove(k).dom() =~= m.dom());
    }
}

/// A set mapped injectively into another set is no larger than it.
pub proof fn lemma_injection_len<A, B>(x: Set<A>, y: Set<B>, f: spec_fn(A) -> B)
    requires
        x.finite(),
        y.finite(),
        injective_on(f, x),
        forall|a: A| x.contains(a) ==> y.contains(#[trigger] f(a)),
    ensures
        x.len() <= y.len(),
{
    lemma_map_size(x, x.map(f), f);
    lemma_len_subset(x.map(f), y);
}

/// A ring of `cap` slots that all hold distinct keys of `keys` holds at least
/// `cap` keys.
pub proof fn lemma_full_ring(keys: Set<u64>, key_at: spec_fn(int) -> u64, cap: int)
    requires
        keys.finite(),
        0 <= cap,
        forall|i: int| 0 <= i < cap ==> keys.contains(#[trigger] key_at(i)),
        forall|i: int, j: int|
            0 <= i < cap && 0 <= j < cap && #[trigger] key_at(i) == #[trigger] key_at(j) ==> i
                == j,
    ensures
        cap <= keys.len(),
{
    lemma_int_range(0, cap);
    lemma_injection_len(set_int_range(0, cap), keys, key_at);
}

} // verus!
