//! Hash map with Robin Hood hashing: linear probing in which an insertion
//! that reaches a resident nearer to its home slot than the new entry is to
//! its own takes that slot and carries the resident on, and removal shifts
//! the displaced entries after the freed slot one step back instead of
//! leaving a tombstone.

use crate::hashing::{capacity_for, is_power_of_two, slot_of, spec_slot, KeyHash};
use crate::slots::{lemma_insert_len, lemma_remove_len, dist, lemma_full_ring, lemma_probe_dist, lemma_probe_next, next_slot, probe};
use vstd::arithmetic::power2::{lemma2_to64, lemma_pow2_unfold, pow2};
use vstd::prelude::*;

verus! {

broadcast use crate::hashing::lemma_slot_range;

/// A stored entry, with the digest of its key.
pub struct Entry<V> {
    pub key: u64,
    pub value: V,
    pub hash: u64,
}

/// Load factor, in percent, above which the table grows before an insertion.
pub const DEFAULT_LOAD_PERCENT: usize = 70;

/// Number of slots of the first buffer.
pub const INITIAL_CAPACITY: usize = 4;

/// Largest number of slots a buffer is given; past it the table stops growing.
pub const MAX_CAPACITY: usize = 0x4000_0000;

/// Largest number of entries the table accepts.
pub const MAX_ENTRIES: usize = 0x1000_0000;

pub struct HashMap<V> {
    buf: Vec<Option<Entry<V>>>,
    len: usize,
    hasher: KeyHash,
    load_percent: usize,
    model: Ghost<Map<u64, V>>,
    loc: Ghost<Map<u64, int>>,
}

/// The entry in slot `i`.
pub open spec fn entry_at<V>(s: Seq<Option<Entry<V>>>, i: int) -> Entry<V> {
    s[i]->0
}

/// Home slot of the key stored in slot `i`.
pub open spec fn home_at<V>(s: Seq<Option<Entry<V>>>, hasher: KeyHash, i: int) -> int {
    hasher.spec_home(entry_at(s, i).key, s.len())
}

/// Probe distance of the entry in slot `i`: how far it sits after its home.
pub open spec fn disp_at<V>(s: Seq<Option<Entry<V>>>, hasher: KeyHash, i: int) -> int {
    dist(home_at(s, hasher, i), i, s.len() as int)
}

/// The slot `d` steps along the probe walk of the entry in slot `i`.
pub open spec fn walk_at<V>(s: Seq<Option<Entry<V>>>, hasher: KeyHash, i: int, d: int) -> int {
    probe(home_at(s, hasher, i), d, s.len() as int)
}

/// The Robin Hood order, with slot `hole` exempt: every slot that the walk
/// of an entry crosses before reaching it (other than `hole`) is occupied by
/// an entry at least as far from its own home as the walk is at that slot.
#[verifier::opaque]
pub open spec fn ordered_but<V>(s: Seq<Option<Entry<V>>>, hasher: KeyHash, hole: int) -> bool {
    forall|i: int, d: int|
        0 <= i < s.len() && s[i] is Some && 0 <= d < disp_at(s, hasher, i) && #[trigger] walk_at(
            s,
            hasher,
            i,
            d,
        ) != hole ==> s[walk_at(s, hasher, i, d)] is Some && disp_at(s, hasher, walk_at(s, hasher, i, d))
            >= d
}

/// The Robin Hood order over every slot.
pub open spec fn ordered<V>(s: Seq<Option<Entry<V>>>, hasher: KeyHash) -> bool {
    ordered_but(s, hasher, -1)
}

/// Writing an entry into an empty slot that ends a walk over which the
/// entry is no farther from home than each resident keeps the order.
pub proof fn lemma_place<V>(s: Seq<Option<Entry<V>>>, hasher: KeyHash, idx: int, c: Entry<V>, dc: int)
    requires
        s.len() <= MAX_CAPACITY,
        0 <= idx < s.len(),
        s[idx] is None,
        ordered(s, hasher),
        0 <= dc < s.len(),
        idx == probe(hasher.spec_home(c.key, s.len()), dc, s.len() as int),
        forall|e: int|
            0 <= e < dc ==> s[#[trigger] probe(hasher.spec_home(c.key, s.len()), e, s.len() as int)] is Some
                && disp_at(s, hasher, probe(hasher.spec_home(c.key, s.len()), e, s.len() as int)) >= e,
    ensures
        ordered(s.update(idx, Some(c)), hasher),
{
    reveal(ordered_but);
    let cap = s.len() as int;
    let s2 = s.update(idx, Some(c));
    let hc = hasher.spec_home(c.key, s.len());
    assert forall|i: int, d: int|
        0 <= i < cap && s2[i] is Some && 0 <= d < disp_at(s2, hasher, i) && #[trigger] walk_at(
            s2,
            hasher,
            i,
            d,
        ) != -1 implies s2[walk_at(s2, hasher, i, d)] is Some && disp_at(s2, hasher, walk_at(s2, hasher, i, d)) >= d by {
        if i == idx {
            assert(entry_at(s2, i) == c);
            assert(disp_at(s2, hasher, i) == dc);
            let j = probe(hc, d, cap);
            assert(s[j] is Some);
            assert(j != idx);
        } else {
            assert(s[i] is Some);
            assert(entry_at(s2, i) == entry_at(s, i));
            let j = walk_at(s, hasher, i, d);
            assert(walk_at(s2, hasher, i, d) == j);
            assert(s[j] is Some);
            assert(j != idx);
        }
    }
}

/// Taking the slot of a resident nearer to its home keeps the order, and the
/// resident's own walk up to that slot then meets no nearer entry.
pub proof fn lemma_swap<V>(s: Seq<Option<Entry<V>>>, hasher: KeyHash, idx: int, c: Entry<V>, dc: int)
    requires
        s.len() <= MAX_CAPACITY,
        0 <= idx < s.len(),
        s[idx] is Some,
        disp_at(s, hasher, idx) < dc,
        ordered(s, hasher),
        0 <= dc < s.len(),
        idx == probe(hasher.spec_home(c.key, s.len()), dc, s.len() as int),
        forall|e: int|
            0 <= e < dc ==> s[#[trigger] probe(hasher.spec_home(c.key, s.len()), e, s.len() as int)] is Some
                && disp_at(s, hasher, probe(hasher.spec_home(c.key, s.len()), e, s.len() as int)) >= e,
    ensures
        ordered(s.update(idx, Some(c)), hasher),
        forall|e: int|
            0 <= e <= disp_at(s, hasher, idx) ==> s.update(idx, Some(c))[#[trigger] probe(
                home_at(s, hasher, idx),
                e,
                s.len() as int,
            )] is Some && disp_at(
                s.update(idx, Some(c)),
                hasher,
                probe(home_at(s, hasher, idx), e, s.len() as int),
            ) >= e,
{
    reveal(ordered_but);
    let cap = s.len() as int;
    let s2 = s.update(idx, Some(c));
    let hc = hasher.spec_home(c.key, s.len());
    assert forall|i: int, d: int|
        0 <= i < cap && s2[i] is Some && 0 <= d < disp_at(s2, hasher, i) && #[trigger] walk_at(
            s2,
            hasher,
            i,
            d,
        ) != -1 implies s2[walk_at(s2, hasher, i, d)] is Some && disp_at(s2, hasher, walk_at(s2, hasher, i, d)) >= d by {
        if i == idx {
            assert(entry_at(s2, i) == c);
            assert(disp_at(s2, hasher, i) == dc);
            let j = probe(hc, d, cap);
            assert(s[j] is Some);
            assert(j != idx);
        } else {
            assert(s[i] is Some);
            assert(entry_at(s2, i) == entry_at(s, i));
            let j = walk_at(s, hasher, i, d);
            assert(walk_at(s2, hasher, i, d) == j);
            assert(s[j] is Some);
            if j == idx {
                assert(disp_at(s2, hasher, j) == dc);
            }
        }
    }
    let hr = home_at(s, hasher, idx);
    let rd = disp_at(s, hasher, idx);
    assert forall|e: int| 0 <= e <= rd implies s2[#[trigger] probe(hr, e, cap)] is Some && disp_at(
        s2,
        hasher,
        probe(hr, e, cap),
    ) >= e by {
        let j = probe(hr, e, cap);
        if e < rd {
            assert(walk_at(s, hasher, idx, e) == j);
            assert(s[j] is Some);
            assert(j != idx);
        } else {
            assert(j == idx);
            assert(disp_at(s2, hasher, j) == dc);
        }
    }
}

/// The order depends on the keys of the slots alone.
pub proof fn lemma_same_keys<V>(s: Seq<Option<Entry<V>>>, s2: Seq<Option<Entry<V>>>, hasher: KeyHash)
    requires
        s.len() <= MAX_CAPACITY,
        ordered(s, hasher),
        s.len() == s2.len(),
        forall|i: int| 0 <= i < s.len() ==> (s[i] is Some <==> #[trigger] s2[i] is Some),
        forall|i: int| 0 <= i < s.len() && s[i] is Some ==> #[trigger] entry_at(s2, i).key == entry_at(s, i).key,
    ensures
        ordered(s2, hasher),
{
    reveal(ordered_but);
    assert forall|i: int, d: int|
        0 <= i < s2.len() && s2[i] is Some && 0 <= d < disp_at(s2, hasher, i) && #[trigger] walk_at(
            s2,
            hasher,
            i,
            d,
        ) != -1 implies s2[walk_at(s2, hasher, i, d)] is Some && disp_at(s2, hasher, walk_at(s2, hasher, i, d)) >= d by {
        assert(s[i] is Some);
        assert(entry_at(s2, i).key == entry_at(s, i).key);
        let j = walk_at(s, hasher, i, d);
        assert(walk_at(s2, hasher, i, d) == j);
        assert(s[j] is Some);
        assert(entry_at(s2, j).key == entry_at(s, j).key);
    }
}

/// A buffer of empty slots is ordered.
pub proof fn lemma_empty_ordered<V>(s: Seq<Option<Entry<V>>>, hasher: KeyHash)
    requires
        forall|i: int| 0 <= i < s.len() ==> s[i] is None,
    ensures
        ordered(s, hasher),
{
    reveal(ordered_but);
}

/// Emptying a slot of an ordered table leaves it ordered but for that slot.
pub proof fn lemma_clear<V>(s: Seq<Option<Entry<V>>>, hasher: KeyHash, p: int)
    requires
        s.len() <= MAX_CAPACITY,
        0 <= p < s.len(),
        ordered(s, hasher),
    ensures
        ordered_but(s.update(p, None), hasher, p),
{
    reveal(ordered_but);
    let s2 = s.update(p, None);
    assert forall|i: int, d: int|
        0 <= i < s2.len() && s2[i] is Some && 0 <= d < disp_at(s2, hasher, i) && #[trigger] walk_at(
            s2,
            hasher,
            i,
            d,
        ) != p implies s2[walk_at(s2, hasher, i, d)] is Some && disp_at(s2, hasher, walk_at(s2, hasher, i, d)) >= d by {
        assert(s[i] is Some);
        assert(entry_at(s2, i) == entry_at(s, i));
        let j = walk_at(s, hasher, i, d);
        assert(walk_at(s2, hasher, i, d) == j);
        assert(s[j] is Some);
    }
}

/// Moving a displaced entry one slot back into the hole before it moves the
/// hole forward and keeps the order around it.
pub proof fn lemma_shift<V>(s: Seq<Option<Entry<V>>>, hasher: KeyHash, q: int)
    requires
        s.len() <= MAX_CAPACITY,
        2 <= s.len(),
        0 <= q < s.len(),
        s[q] is None,
        s[probe(q, 1, s.len() as int)] is Some,
        disp_at(s, hasher, probe(q, 1, s.len() as int)) > 0,
        ordered_but(s, hasher, q),
    ensures
        ordered_but(
            s.update(q, s[probe(q, 1, s.len() as int)]).update(probe(q, 1, s.len() as int), None),
            hasher,
            probe(q, 1, s.len() as int),
        ),
        disp_at(
            s.update(q, s[probe(q, 1, s.len() as int)]).update(probe(q, 1, s.len() as int), None),
            hasher,
            q,
        ) == disp_at(s, hasher, probe(q, 1, s.len() as int)) - 1,
{
    reveal(ordered_but);
    let cap = s.len() as int;
    let n = probe(q, 1, cap);
    let s2 = s.update(q, s[n]).update(n, None);
    assert(entry_at(s2, q) == entry_at(s, n));
    assert(disp_at(s2, hasher, q) == disp_at(s, hasher, n) - 1);
    assert forall|i: int, d: int|
        0 <= i < cap && s2[i] is Some && 0 <= d < disp_at(s2, hasher, i) && #[trigger] walk_at(
            s2,
            hasher,
            i,
            d,
        ) != n implies s2[walk_at(s2, hasher, i, d)] is Some && disp_at(s2, hasher, walk_at(s2, hasher, i, d)) >= d by {
        if i == q {
            let j = walk_at(s, hasher, n, d);
            assert(walk_at(s2, hasher, i, d) == j);
            assert(j != q);
            assert(s[j] is Some);
            assert(entry_at(s2, j) == entry_at(s, j));
        } else {
            assert(i != n);
            assert(s[i] is Some);
            assert(entry_at(s2, i) == entry_at(s, i));
            let j = walk_at(s, hasher, i, d);
            assert(walk_at(s2, hasher, i, d) == j);
            if j == q {
                lemma_probe_next(home_at(s, hasher, i), d, cap);
                assert(walk_at(s, hasher, i, d + 1) == n);
                assert(s[n] is Some);
            } else {
                assert(s[j] is Some);
                assert(entry_at(s2, j) == entry_at(s, j));
            }
        }
    }
}

/// A hole followed by an empty slot or by an entry at its home slot is
/// crossed by no walk: the table is ordered.
pub proof fn lemma_shift_done<V>(s: Seq<Option<Entry<V>>>, hasher: KeyHash, q: int)
    requires
        s.len() <= MAX_CAPACITY,
        2 <= s.len(),
        0 <= q < s.len(),
        s[q] is None,
        s[probe(q, 1, s.len() as int)] is None || disp_at(s, hasher, probe(q, 1, s.len() as int))
            == 0,
        ordered_but(s, hasher, q),
    ensures
        ordered(s, hasher),
{
    reveal(ordered_but);
    let cap = s.len() as int;
    let n = probe(q, 1, cap);
    assert forall|i: int, d: int|
        0 <= i < cap && s[i] is Some && 0 <= d < disp_at(s, hasher, i) && #[trigger] walk_at(
            s,
            hasher,
            i,
            d,
        ) != -1 implies s[walk_at(s, hasher, i, d)] is Some && disp_at(s, hasher, walk_at(s, hasher, i, d)) >= d by {
        let j = walk_at(s, hasher, i, d);
        if j == q {
            lemma_probe_next(home_at(s, hasher, i), d, cap);
            if d + 1 < disp_at(s, hasher, i) {
                assert(walk_at(s, hasher, i, d + 1) == n);
            } else {
                assert(i == n);
            }
        }
    }
}

/// Every table that insertions and removals leave behind is in Robin Hood
/// order: walking from the home slot of any entry to its slot, each slot
/// passed holds an entry at least as far from its own home as the walk is
/// there, so no entry sits behind one it could have displaced.
pub proof fn lemma_robin_hood_order<V>(m: &HashMap<V>)
    requires
        m.wf(),
    ensures
        ordered(m.spec_slots(), m.spec_hasher()),
{
}

impl<V> View for HashMap<V> {
    type V = Map<u64, V>;

    closed spec fn view(&self) -> Map<u64, V> {
        self.model@
    }
}

impl<V> HashMap<V> {
    /// Entries and model agree: every key of the model except `skip` sits in
    /// slot `loc[key]` with its value, and every occupied slot holds a key of
    /// the model (never `skip`) with its digest.
    pub closed spec fn consistent(&self, skip: Option<u64>) -> bool {
        let s = self.buf@;
        let cap = s.len() as int;
        let m = self.model@;
        let loc = self.loc@;
        &&& m.dom().finite()
        &&& forall|k: u64| #[trigger]
            m.contains_key(k) && skip != Some(k) ==> 0 <= loc[k] < cap && s[loc[k]] is Some
                && entry_at(s, loc[k]).key == k && entry_at(s, loc[k]).value == m[k]
        &&& forall|i: int|
            0 <= i < cap && (#[trigger] s[i]) is Some ==> m.contains_key(entry_at(s, i).key)
                && skip != Some(entry_at(s, i).key) && loc[entry_at(s, i).key] == i
                && entry_at(s, i).hash == self.hasher.spec_digest(entry_at(s, i).key)
    }

    /// Capacity and configuration bounds.
    pub closed spec fn shaped(&self) -> bool {
        let cap = self.buf@.len();
        &&& cap <= MAX_CAPACITY
        &&& (cap == 0 || is_power_of_two(cap))
        &&& 0 < self.load_percent < 100
    }

    /// The table's invariant. It keeps at least one slot empty.
    pub closed spec fn wf(&self) -> bool {
        &&& self.shaped()
        &&& self.consistent(None)
        &&& self.len == self.model@.len()
        &&& (self.buf@.len() > 0 ==> self.len < self.buf@.len())
        &&& (self.buf@.len() == 0 ==> self.len == 0)
        &&& ordered(self.buf@, self.hasher)
    }

    /// The Robin Hood order of the slots, which the invariant includes.
    pub closed spec fn spec_ordered(&self) -> bool {
        ordered(self.buf@, self.hasher)
    }

    /// The slots of the buffer.
    pub closed spec fn spec_slots(&self) -> Seq<Option<Entry<V>>> {
        self.buf@
    }

    pub closed spec fn spec_hasher(&self) -> KeyHash {
        self.hasher
    }

    /// Number of slots of the buffer.
    pub closed spec fn spec_capacity(&self) -> nat {
        self.buf@.len()
    }

    pub closed spec fn spec_load_percent(&self) -> nat {
        self.load_percent as nat
    }

    /// Whether inserting a new key first grows the buffer: it has no slots
    /// yet, or (while it may still grow) the insertion would pass the load
    /// factor's threshold or leave no empty slot.
    pub open spec fn grows_on_insert(&self) -> bool {
        self.spec_capacity() == 0 || (self.spec_capacity() <= MAX_CAPACITY / 2 && (self@.len() + 2
            > self.spec_capacity() || self@.len() * 100 > self.spec_capacity()
            * self.spec_load_percent()))
    }

    /// Number of slots after a growth: twice as many, or `INITIAL_CAPACITY`
    /// for a table that has none.
    pub open spec fn grown_capacity(&self) -> nat {
        if self.spec_capacity() == 0 {
            INITIAL_CAPACITY as nat
        } else {
            2 * self.spec_capacity()
        }
    }

    /// A well-formed table holds finitely many entries, fewer than its slots
    /// once it has any, in a buffer whose size is zero or a power of two.
    pub proof fn lemma_wf_shape(&self)
        requires
            self.wf(),
        ensures
            self@.dom().finite(),
            self.spec_capacity() > 0 ==> self@.len() < self.spec_capacity(),
            self.spec_capacity() == 0 ==> self@.len() == 0,
            self.spec_capacity() == 0 || is_power_of_two(self.spec_capacity()),
    {
    }

    spec fn home_of(&self, key: u64) -> int {
        self.hasher.spec_home(key, self.buf@.len())
    }

    /// An empty table with a buffer of `cap` empty slots.
    fn with_slots(cap: usize, hasher: KeyHash, load_percent: usize) -> (r: Self)
        requires
            0 < load_percent < 100,
            cap <= MAX_CAPACITY,
            cap == 0 || is_power_of_two(cap as nat),
        ensures
            r.wf(),
            r@ == Map::<u64, V>::empty(),
            r.buf@.len() == cap,
            r.hasher == hasher,
            r.load_percent == load_percent,
    {
        let mut buf: Vec<Option<Entry<V>>> = Vec::with_capacity(cap);
        while buf.len() < cap
            invariant
                buf@.len() <= cap,
                forall|i: int| 0 <= i < buf@.len() ==> buf@[i] is None,
            decreases cap - buf@.len(),
        {
            buf.push(None);
        }
        proof {
            lemma_empty_ordered(buf@, hasher);
        }
        let r = HashMap {
            buf,
            len: 0,
            hasher,
            load_percent,
            model: Ghost(Map::empty()),
            loc: Ghost(Map::empty()),
        };
        assert(r.model@.dom() =~= Set::<u64>::empty());
        r
    }

    /// An empty table with the default load factor and a random hash seed;
    /// nothing is allocated until the first insertion.
    pub fn new() -> (r: Self)
        ensures
            r.wf(),
            r@ == Map::<u64, V>::empty(),
            r.spec_capacity() == 0,
            r.spec_load_percent() == DEFAULT_LOAD_PERCENT,
    {
        Self::with_hasher_and_load_factor(KeyHash::random(), DEFAULT_LOAD_PERCENT)
    }

    /// An empty table that hashes keys with `hasher` and grows once more than
    /// `load_percent` percent of its slots are taken.
    pub fn with_hasher_and_load_factor(hasher: KeyHash, load_percent: usize) -> (r: Self)
        requires
            0 < load_percent < 100,
        ensures
            r.wf(),
            r@ == Map::<u64, V>::empty(),
            r.spec_capacity() == 0,
            r.spec_load_percent() == load_percent,
    {
        Self::with_slots(0, hasher, load_percent)
    }

    /// An empty table with room for `capacity` entries without growing.
    pub fn with_capacity(capacity: usize) -> (r: Self)
        ensures
            r.wf(),
            r@ == Map::<u64, V>::empty(),
            r.spec_load_percent() == DEFAULT_LOAD_PERCENT,
            capacity == 0 <==> r.spec_capacity() == 0,
            r.spec_capacity() == 0 || is_power_of_two(r.spec_capacity()),
            0 < capacity && r.spec_capacity() < MAX_CAPACITY ==> capacity * 100 < r.spec_capacity()
                * DEFAULT_LOAD_PERCENT && capacity < r.spec_capacity(),
    {
        Self::with_capacity_and_load_factor(capacity, DEFAULT_LOAD_PERCENT)
    }

    /// An empty table with room for `capacity` entries without growing, that
    /// grows once more than `load_percent` percent of its slots are taken.
    pub fn with_capacity_and_load_factor(capacity: usize, load_percent: usize) -> (r: Self)
        requires
            0 < load_percent < 100,
        ensures
            r.wf(),
            r@ == Map::<u64, V>::empty(),
            r.spec_load_percent() == load_percent,
            capacity == 0 <==> r.spec_capacity() == 0,
            r.spec_capacity() == 0 || is_power_of_two(r.spec_capacity()),
            0 < capacity && r.spec_capacity() < MAX_CAPACITY ==> capacity * 100 < r.spec_capacity()
                * load_percent && capacity < r.spec_capacity(),
    {
        let cap = capacity_for(capacity, load_percent);
        Self::with_slots(cap, KeyHash::random(), load_percent)
    }

    /// An empty table that grows once more than `load_percent` percent of its
    /// slots are taken.
    pub fn with_load_factor(load_percent: usize) -> (r: Self)
        requires
            0 < load_percent < 100,
        ensures
            r.wf(),
            r@ == Map::<u64, V>::empty(),
            r.spec_capacity() == 0,
            r.spec_load_percent() == load_percent,
    {
        Self::with_hasher_and_load_factor(KeyHash::random(), load_percent)
    }

    pub fn len(&self) -> (r: usize)
        requires
            self.wf(),
        ensures
            r == self@.len(),
    {
        self.len
    }

    pub fn is_empty(&self) -> (r: bool)
        requires
            self.wf(),
        ensures
            r <==> self@.len() == 0,
    {
        self.len == 0
    }

    /// Number of slots of the buffer.
    pub fn capacity(&self) -> (r: usize)
        requires
            self.wf(),
        ensures
            r == self.spec_capacity(),
    {
        self.buf.len()
    }

    /// Probe distance of the entry in slot `i`, from its cached digest.
    fn disp(&self, i: usize) -> (r: usize)
        requires
            self.buf@.len() <= MAX_CAPACITY,
            i < self.buf@.len(),
            self.buf@[i as int] is Some,
            entry_at(self.buf@, i as int).hash == self.hasher.spec_digest(
                entry_at(self.buf@, i as int).key,
            ),
        ensures
            r == disp_at(self.buf@, self.hasher, i as int),
    {
        let cap = self.buf.len();
        let home = match &self.buf[i] {
            Some(e) => slot_of(e.hash, cap),
            None => 0,
        };
        if i < home {
            (cap - home) + i
        } else {
            i - home
        }
    }

    /// A walk from the home slot of `key` that has passed `d` slots without
    /// meeting `key`, and then meets an empty slot or an entry nearer to its
    /// home than `d`, or has seen every slot, proves `key` absent.
    proof fn lemma_absent(&self, key: u64, d: int)
        requires
            self.wf(),
            self.buf@.len() > 0,
            0 <= d <= self.buf@.len(),
            forall|e: int|
                0 <= e < d ==> !(#[trigger] self.buf@[probe(
                    self.home_of(key),
                    e,
                    self.buf@.len() as int,
                )] is Some && entry_at(
                    self.buf@,
                    probe(self.home_of(key), e, self.buf@.len() as int),
                ).key == key),
            d < self.buf@.len() ==> self.buf@[probe(
                self.home_of(key),
                d,
                self.buf@.len() as int,
            )] is None || disp_at(
                self.buf@,
                self.hasher,
                probe(self.home_of(key), d, self.buf@.len() as int),
            ) < d,
        ensures
            !self@.contains_key(key),
    {
        reveal(ordered_but);
        let s = self.buf@;
        let cap = s.len() as int;
        let h = self.home_of(key);
        if self@.contains_key(key) {
            let j = self.loc@[key];
            lemma_probe_dist(h, j, cap);
            let dj = dist(h, j, cap);
            assert(entry_at(s, j).key == key);
            assert(home_at(s, self.hasher, j) == h);
            if dj < d {
                assert(s[probe(h, dj, cap)] is Some);
            } else if dj > d {
                assert(walk_at(s, self.hasher, j, d) == probe(h, d, cap));
            }
        }
    }

    /// The slot that holds `key`, if any. The walk stops at an empty slot or
    /// at a resident nearer to its home than the walk has come.
    fn find(&self, key: u64) -> (r: Option<usize>)
        requires
            self.wf(),
        ensures
            match r {
                Some(i) => self@.contains_key(key) && i == self.loc@[key],
                None => !self@.contains_key(key),
            },
    {
        let cap = self.buf.len();
        if cap == 0 {
            return None;
        }
        let h = self.hasher.home(key, cap);
        let mut idx = h;
        let mut d: usize = 0;
        while d < cap
            invariant
                self.wf(),
                cap == self.buf@.len(),
                0 < cap,
                h == self.home_of(key),
                d <= cap,
                idx < cap,
                d < cap ==> idx == probe(h as int, d as int, cap as int),
                forall|e: int|
                    0 <= e < d ==> !(#[trigger] self.buf@[probe(h as int, e, cap as int)] is Some
                        && entry_at(self.buf@, probe(h as int, e, cap as int)).key == key),
            decreases cap - d,
        {
            let stop = match &self.buf[idx] {
                None => true,
                Some(e) => {
                    if e.key == key {
                        return Some(idx);
                    }
                    false
                },
            };
            if stop || self.disp(idx) < d {
                proof {
                    self.lemma_absent(key, d as int);
                }
                return None;
            }
            if d + 1 < cap {
                proof {
                    lemma_probe_next(h as int, d as int, cap as int);
                }
            }
            idx = next_slot(idx, cap);
            d = d + 1;
        }
        proof {
            self.lemma_absent(key, d as int);
        }
        None
    }

    /// The stored key and value of `key`, if present.
    pub fn get(&self, key: &u64) -> (r: Option<(&u64, &V)>)
        requires
            self.wf(),
        ensures
            r is Some <==> self@.contains_key(*key),
            r matches Some((k, v)) ==> *k == *key && *v == self@[*key],
    {
        match self.find(*key) {
            None => None,
            Some(i) => match &self.buf[i] {
                Some(e) => Some((&e.key, &e.value)),
                None => None,
            },
        }
    }

    /// Writes the carried entry `c` into the empty slot `idx`, `dc` steps
    /// from its home, ending an insertion.
    fn put_empty(&mut self, idx: usize, c: Entry<V>, dc: Ghost<int>)
        requires
            old(self).shaped(),
            old(self).buf@.len() > 0,
            old(self).consistent(Some(c.key)),
            old(self).model@.contains_key(c.key),
            old(self).model@[c.key] == c.value,
            c.hash == old(self).hasher.spec_digest(c.key),
            old(self).len + 1 == old(self).model@.len(),
            old(self).len + 2 <= old(self).buf@.len(),
            ordered(old(self).buf@, old(self).hasher),
            0 <= dc@ < old(self).buf@.len(),
            idx == probe(old(self).home_of(c.key), dc@, old(self).buf@.len() as int),
            old(self).buf@[idx as int] is None,
            forall|e: int|
                0 <= e < dc@ ==> old(self).buf@[#[trigger] probe(
                    old(self).home_of(c.key),
                    e,
                    old(self).buf@.len() as int,
                )] is Some && disp_at(
                    old(self).buf@,
                    old(self).hasher,
                    probe(old(self).home_of(c.key), e, old(self).buf@.len() as int),
                ) >= e,
        ensures
            final(self).wf(),
            final(self).model@ == old(self).model@,
            final(self).buf@.len() == old(self).buf@.len(),
            final(self).hasher == old(self).hasher,
            final(self).load_percent == old(self).load_percent,
    {
        let ghost s = self.buf@;
        proof {
            lemma_place(s, self.hasher, idx as int, c, dc@);
        }
        let ghost key = c.key;
        self.buf.set(idx, Some(c));
        self.len = self.len + 1;
        proof {
            self.loc@ = self.loc@.insert(key, idx as int);
            let s2 = self.buf@;
            assert forall|i: int| 0 <= i < s2.len() && (#[trigger] s2[i]) is Some implies self.model@.contains_key(
                entry_at(s2, i).key,
            ) && None::<u64> != Some(entry_at(s2, i).key) && self.loc@[entry_at(s2, i).key] == i
                && entry_at(s2, i).hash == self.hasher.spec_digest(entry_at(s2, i).key) by {
                if i != idx {
                    assert(s[i] is Some);
                }
            }
        }
    }

    /// Puts the carried entry `c`, `dc` steps from its home, into slot `idx`,
    /// whose resident is nearer to its own home, and returns that resident.
    fn put_swap(&mut self, idx: usize, c: Entry<V>, dc: Ghost<int>) -> (r: Entry<V>)
        requires
            old(self).shaped(),
            old(self).buf@.len() > 0,
            old(self).consistent(Some(c.key)),
            old(self).model@.contains_key(c.key),
            old(self).model@[c.key] == c.value,
            c.hash == old(self).hasher.spec_digest(c.key),
            ordered(old(self).buf@, old(self).hasher),
            0 <= dc@ < old(self).buf@.len(),
            idx == probe(old(self).home_of(c.key), dc@, old(self).buf@.len() as int),
            old(self).buf@[idx as int] is Some,
            disp_at(old(self).buf@, old(self).hasher, idx as int) < dc@,
            forall|e: int|
                0 <= e < dc@ ==> old(self).buf@[#[trigger] probe(
                    old(self).home_of(c.key),
                    e,
                    old(self).buf@.len() as int,
                )] is Some && disp_at(
                    old(self).buf@,
                    old(self).hasher,
                    probe(old(self).home_of(c.key), e, old(self).buf@.len() as int),
                ) >= e,
        ensures
            final(self).shaped(),
            final(self).consistent(Some(r.key)),
            final(self).model@ == old(self).model@,
            final(self).model@.contains_key(r.key),
            final(self).model@[r.key] == r.value,
            r.hash == old(self).hasher.spec_digest(r.key),
            final(self).len == old(self).len,
            final(self).buf@ == old(self).buf@.update(idx as int, Some(c)),
            final(self).hasher == old(self).hasher,
            final(self).load_percent == old(self).load_percent,
            ordered(final(self).buf@, final(self).hasher),
            idx == probe(
                final(self).home_of(r.key),
                disp_at(old(self).buf@, old(self).hasher, idx as int),
                final(self).buf@.len() as int,
            ),
            forall|e: int|
                0 <= e <= disp_at(old(self).buf@, old(self).hasher, idx as int) ==> final(self).buf@[#[trigger] probe(final(self).home_of(r.key), e, final(self).buf@.len() as int)] is Some
                    && disp_at(
                    final(self).buf@,
                    final(self).hasher,
                    probe(final(self).home_of(r.key), e, final(self).buf@.len() as int),
                ) >= e,
    {
        let ghost s = self.buf@;
        let ghost cap = s.len() as int;
        proof {
            lemma_swap(s, self.hasher, idx as int, c, dc@);
            lemma_probe_dist(home_at(s, self.hasher, idx as int), idx as int, cap);
        }
        let ghost key = c.key;
        let mut slot = Some(c);
        self.buf.set_and_swap(idx, &mut slot);
        let r = slot.unwrap();
        proof {
            let old_loc = self.loc@;
            self.loc@ = self.loc@.insert(key, idx as int);
            let s2 = self.buf@;
            assert(r == entry_at(s, idx as int));
            assert forall|k: u64| #[trigger]
                self.model@.contains_key(k) && Some(r.key) != Some(k) implies 0 <= self.loc@[k] < cap
                && s2[self.loc@[k]] is Some && entry_at(s2, self.loc@[k]).key == k && entry_at(
                s2,
                self.loc@[k],
            ).value == self.model@[k] by {
                if k != key {
                    assert(old_loc[k] != idx);
                }
            }
            assert forall|i: int| 0 <= i < cap && (#[trigger] s2[i]) is Some implies self.model@.contains_key(
                entry_at(s2, i).key,
            ) && Some(r.key) != Some(entry_at(s2, i).key) && self.loc@[entry_at(s2, i).key] == i
                && entry_at(s2, i).hash == self.hasher.spec_digest(entry_at(s2, i).key) by {
                if i != idx {
                    assert(s[i] is Some);
                    assert(entry_at(s, i).key != r.key);
                }
            }
        }
        r
    }

    /// A walk over every slot meets an empty one while an entry waits
    /// outside and two slots are spare.
    proof fn lemma_room(&self, h0: int, skip: u64)
        requires
            self.shaped(),
            self.buf@.len() > 0,
            self.consistent(Some(skip)),
            self.model@.contains_key(skip),
            self.len + 1 == self.model@.len(),
            self.len + 2 <= self.buf@.len(),
            0 <= h0 < self.buf@.len(),
        ensures
            exists|e: int|
                0 <= e < self.buf@.len() && self.buf@[#[trigger] probe(
                    h0,
                    e,
                    self.buf@.len() as int,
                )] is None,
    {
        let s = self.buf@;
        let cap = s.len() as int;
        if !(exists|e: int| 0 <= e < cap && s[#[trigger] probe(h0, e, cap)] is None) {
            let keys = self.model@.dom().remove(skip);
            assert forall|i: int| 0 <= i < cap implies s[i] is Some by {
                lemma_probe_dist(h0, i, cap);
                assert(s[probe(h0, dist(h0, i, cap), cap)] is Some);
            }
            lemma_full_ring(keys, |i: int| entry_at(s, i).key, cap);
        }
    }

    /// An insertion in progress: `c` is carried `dc` steps from its home at
    /// slot `idx`, which the walk from `h0` reached after `n` steps; the
    /// model `big` already holds `c`.
    spec fn carrying(&self, c: Entry<V>, dc: int, idx: int, n: int, h0: int, big: Map<u64, V>) -> bool {
        let cap = self.buf@.len() as int;
        &&& self.shaped()
        &&& 0 < cap
        &&& self.consistent(Some(c.key))
        &&& self.model@ == big
        &&& big.contains_key(c.key)
        &&& big[c.key] == c.value
        &&& c.hash == self.hasher.spec_digest(c.key)
        &&& self.len + 1 == big.len()
        &&& self.len + 2 <= cap
        &&& ordered(self.buf@, self.hasher)
        &&& 0 <= dc <= n < cap
        &&& 0 <= h0 < cap
        &&& idx == probe(self.home_of(c.key), dc, cap)
        &&& idx == probe(h0, n, cap)
        &&& forall|e: int|
            0 <= e < dc ==> self.buf@[#[trigger] probe(self.home_of(c.key), e, cap)] is Some
                && disp_at(self.buf@, self.hasher, probe(self.home_of(c.key), e, cap)) >= e
        &&& forall|e: int| 0 <= e < n ==> self.buf@[#[trigger] probe(h0, e, cap)] is Some
    }

    /// One step of an insertion: ends it at an empty slot, or takes the slot
    /// from a resident nearer to its home, or walks on.
    fn insert_step(
        &mut self,
        c: Entry<V>,
        idx: usize,
        dc: usize,
        n: usize,
        h0: usize,
        big: Ghost<Map<u64, V>>,
    ) -> (r: Option<(Entry<V>, usize, usize)>)
        requires
            old(self).carrying(c, dc as int, idx as int, n as int, h0 as int, big@),
        ensures
            final(self).buf@.len() == old(self).buf@.len(),
            final(self).hasher == old(self).hasher,
            final(self).load_percent == old(self).load_percent,
            match r {
                None => final(self).wf() && final(self).model@ == big@,
                Some((c2, idx2, dc2)) => final(self).carrying(
                    c2,
                    dc2 as int,
                    idx2 as int,
                    n + 1,
                    h0 as int,
                    big@,
                ),
            },
    {
        let cap = self.buf.len();
        if self.buf[idx].is_none() {
            self.put_empty(idx, c, Ghost(dc as int));
            return None;
        }
        let rd = self.disp(idx);
        let mut carried = c;
        let mut dc = dc;
        if rd < dc {
            carried = self.put_swap(idx, carried, Ghost(dc as int));
            dc = rd;
        }
        proof {
            self.lemma_room(h0 as int, carried.key);
            if n + 1 < cap {
                lemma_probe_next(self.home_of(carried.key), dc as int, cap as int);
                lemma_probe_next(h0 as int, n as int, cap as int);
            }
        }
        Some((carried, next_slot(idx, cap), dc + 1))
    }

    /// Inserts an absent key into a table with room for it and one more
    /// empty slot.
    fn insert_absent(&mut self, entry: Entry<V>)
        requires
            old(self).wf(),
            !old(self)@.contains_key(entry.key),
            entry.hash == old(self).hasher.spec_digest(entry.key),
            old(self).len + 2 <= old(self).buf@.len(),
        ensures
            final(self).wf(),
            final(self)@ == old(self)@.insert(entry.key, entry.value),
            final(self).buf@.len() == old(self).buf@.len(),
            final(self).hasher == old(self).hasher,
            final(self).load_percent == old(self).load_percent,
    {
        let cap = self.buf.len();
        let ghost big = self.model@.insert(entry.key, entry.value);
        proof {
            let m = self.model@;
            self.model@ = big;
            assert(big.dom() =~= m.dom().insert(entry.key));
        }
        let h0 = slot_of(entry.hash, cap);
        let mut carried = entry;
        let mut idx = h0;
        let mut dc: usize = 0;
        let mut n: usize = 0;
        loop
            invariant
                self.carrying(carried, dc as int, idx as int, n as int, h0 as int, big),
                big == old(self)@.insert(entry.key, entry.value),
                cap == self.buf@.len(),
                cap == old(self).buf@.len(),
                self.hasher == old(self).hasher,
                self.load_percent == old(self).load_percent,
            decreases cap - n,
        {
            match self.insert_step(carried, idx, dc, n, h0, Ghost(big)) {
                None => {
                    return;
                },
                Some((c2, idx2, dc2)) => {
                    carried = c2;
                    idx = idx2;
                    dc = dc2;
                    n = n + 1;
                },
            }
        }
    }

    /// Overwrites the value of `key`, which slot `i` holds.
    fn replace_at(&mut self, i: usize, key: u64, value: V) -> (r: Option<(u64, V)>)
        requires
            old(self).wf(),
            old(self)@.contains_key(key),
            i == old(self).loc@[key],
        ensures
            final(self).wf(),
            final(self)@ == old(self)@.insert(key, value),
            final(self).buf@.len() == old(self).buf@.len(),
            final(self).hasher == old(self).hasher,
            final(self).load_percent == old(self).load_percent,
            r == Some((key, old(self)@[key])),
    {
        let ghost s = self.buf@;
        let hash = self.hasher.digest(key);
        let mut slot = Some(Entry { key, value, hash });
        self.buf.set_and_swap(i, &mut slot);
        proof {
            let m = self.model@;
            self.model@ = m.insert(key, value);
            assert(self.model@.dom() =~= m.dom());
            lemma_same_keys(s, self.buf@, self.hasher);
            let s2 = self.buf@;
            assert forall|j: int| 0 <= j < s2.len() && (#[trigger] s2[j]) is Some implies self.model@.contains_key(
                entry_at(s2, j).key,
            ) && None::<u64> != Some(entry_at(s2, j).key) && self.loc@[entry_at(s2, j).key] == j
                && entry_at(s2, j).hash == self.hasher.spec_digest(entry_at(s2, j).key) by {
                assert(s[j] is Some);
            }
        }
        match slot {
            Some(e) => Some((e.key, e.value)),
            None => None,
        }
    }

    /// A removal in progress: slot `q` is the hole that the displaced entries
    /// after it move back into, and slot `spare` stays empty ahead of it.
    spec fn shifting(&self, q: int, spare: int) -> bool {
        let s = self.buf@;
        let cap = s.len() as int;
        &&& self.shaped()
        &&& self.consistent(None)
        &&& self.len == self.model@.len()
        &&& self.len < cap
        &&& 2 <= cap
        &&& 0 <= q < cap
        &&& s[q] is None
        &&& 0 <= spare < cap
        &&& spare != q
        &&& s[spare] is None
        &&& ordered_but(s, self.hasher, q)
    }

    /// Empties slot `p`, which holds `key`, and returns its entry with an
    /// empty slot other than `p`.
    fn take_at(&mut self, p: usize, key: u64) -> (r: (Entry<V>, Ghost<int>))
        requires
            old(self).wf(),
            old(self)@.contains_key(key),
            p == old(self).loc@[key],
        ensures
            final(self).shifting(p as int, r.1@),
            final(self)@ == old(self)@.remove(key),
            r.0.key == key,
            r.0.value == old(self)@[key],
            final(self).buf@.len() == old(self).buf@.len(),
            final(self).hasher == old(self).hasher,
            final(self).load_percent == old(self).load_percent,
    {
        let ghost s = self.buf@;
        let ghost cap = s.len() as int;
        proof {
            if !(exists|j: int| 0 <= j < cap && s[j] is None) {
                lemma_full_ring(self.model@.dom(), |i: int| entry_at(s, i).key, cap);
            }
            lemma_clear(s, self.hasher, p as int);
        }
        let ghost spare = choose|j: int| 0 <= j < cap && s[j] is None;
        let mut slot = None;
        self.buf.set_and_swap(p, &mut slot);
        self.len = self.len - 1;
        proof {
            let m = self.model@;
            self.model@ = m.remove(key);
            self.loc@ = self.loc@.remove(key);
            assert(self.model@.dom() =~= m.dom().remove(key));
            let s2 = self.buf@;
            assert forall|j: int| 0 <= j < cap && (#[trigger] s2[j]) is Some implies self.model@.contains_key(
                entry_at(s2, j).key,
            ) && None::<u64> != Some(entry_at(s2, j).key) && self.loc@[entry_at(s2, j).key] == j
                && entry_at(s2, j).hash == self.hasher.spec_digest(entry_at(s2, j).key) by {
                assert(s[j] is Some);
            }
        }
        (slot.unwrap(), Ghost(spare))
    }

    /// One step of the backward shift: ends it when the slot after the hole
    /// is empty or holds an entry at its home, and otherwise moves that entry
    /// back into the hole.
    fn shift_step(&mut self, q: usize, spare: Ghost<int>) -> (r: Option<usize>)
        requires
            old(self).shifting(q as int, spare@),
        ensures
            final(self)@ == old(self)@,
            final(self).buf@.len() == old(self).buf@.len(),
            final(self).hasher == old(self).hasher,
            final(self).load_percent == old(self).load_percent,
            match r {
                None => {
                    &&& final(self).wf()
                    &&& final(self).buf@ == old(self).buf@
                    &&& (old(self).buf@[probe(q as int, 1, old(self).buf@.len() as int)] is None
                        || disp_at(
                        old(self).buf@,
                        old(self).hasher,
                        probe(q as int, 1, old(self).buf@.len() as int),
                    ) == 0)
                },
                Some(q2) => q2 == probe(q as int, 1, old(self).buf@.len() as int) && disp_at(
                    old(self).buf@,
                    old(self).hasher,
                    q2 as int,
                ) > 0 && final(self).buf@ == old(self).buf@.update(q as int, old(self).buf@[q2 as int]).update(
                    q2 as int,
                    None,
                ) && final(self).shifting(q2 as int, spare@) && dist(
                    q2 as int,
                    spare@,
                    final(self).buf@.len() as int,
                ) < dist(q as int, spare@, old(self).buf@.len() as int),
            },
    {
        let cap = self.buf.len();
        let nxt = next_slot(q, cap);
        let ghost s = self.buf@;
        if self.buf[nxt].is_none() || self.disp(nxt) == 0 {
            proof {
                lemma_shift_done(s, self.hasher, q as int);
            }
            return None;
        }
        proof {
            lemma_shift(s, self.hasher, q as int);
        }
        let mut slot = None;
        self.buf.set_and_swap(nxt, &mut slot);
        self.buf.set(q, slot);
        proof {
            let key = entry_at(s, nxt as int).key;
            let old_loc = self.loc@;
            self.loc@ = self.loc@.insert(key, q as int);
            let s2 = self.buf@;
            assert(s2 == s.update(q as int, s[nxt as int]).update(nxt as int, None));
            assert forall|k: u64| #[trigger]
                self.model@.contains_key(k) && None::<u64> != Some(k) implies 0 <= self.loc@[k] < cap
                && s2[self.loc@[k]] is Some && entry_at(s2, self.loc@[k]).key == k && entry_at(
                s2,
                self.loc@[k],
            ).value == self.model@[k] by {
                if k != key {
                    assert(old_loc[k] != nxt);
                    assert(old_loc[k] != q);
                }
            }
            assert forall|j: int| 0 <= j < cap && (#[trigger] s2[j]) is Some implies self.model@.contains_key(
                entry_at(s2, j).key,
            ) && None::<u64> != Some(entry_at(s2, j).key) && self.loc@[entry_at(s2, j).key] == j
                && entry_at(s2, j).hash == self.hasher.spec_digest(entry_at(s2, j).key) by {
                if j != q {
                    assert(s[j] is Some);
                    assert(entry_at(s, j).key != key);
                }
            }
        }
        Some(nxt)
    }

    /// Removes `key` and returns its entry; the displaced entries after it
    /// move one slot back.
    pub fn remove(&mut self, key: &u64) -> (r: Option<(u64, V)>)
        requires
            old(self).wf(),
        ensures
            final(self).wf(),
            final(self)@ == old(self)@.remove(*key),
            final(self)@.len() == old(self)@.len() - (if r is Some {
                1int
            } else {
                0int
            }),
            final(self).spec_capacity() == old(self).spec_capacity(),
            match r {
                Some((k, v)) => old(self)@.contains_key(*key) && k == *key && v == old(self)@[*key],
                None => !old(self)@.contains_key(*key),
            },
            final(self).spec_ordered(),
    {
        proof {
            lemma_remove_len(self@, *key);
        }
        match self.find(*key) {
            None => {
                proof {
                    assert(self.model@.remove(*key) =~= self.model@);
                }
                None
            },
            Some(p) => {
                let (e, spare) = self.take_at(p, *key);
                let mut q = p;
                loop
                    invariant_except_break
                        self.shifting(q as int, spare@),
                    invariant
                        self@ == old(self)@.remove(*key),
                        self.buf@.len() == old(self).buf@.len(),
                    ensures
                        self.wf(),
                    decreases dist(q as int, spare@, self.buf@.len() as int),
                {
                    match self.shift_step(q, spare) {
                        None => {
                            break;
                        },
                        Some(q2) => {
                            q = q2;
                        },
                    }
                }
                Some((e.key, e.value))
            },
        }
    }

    /// Whether the next insertion of a new key must first grow the buffer:
    /// at the load factor, or when it would leave no empty slot.
    fn needs_grow(&self) -> (r: bool)
        requires
            self.wf(),
        ensures
            r == self.grows_on_insert(),
            r ==> self.buf@.len() <= MAX_CAPACITY / 2,
            !r ==> self.buf@.len() > 0,
            !r ==> self.buf@.len() > MAX_CAPACITY / 2 || self.len + 2 <= self.buf@.len(),
    {
        let cap = self.buf.len();
        proof {
            let c = cap as u64;
            let p = self.load_percent as u64;
            assert(c <= 0x4000_0000 && p < 100 ==> c * p <= 0x4000_0000 * 100) by (nonlinear_arith);
        }
        cap == 0 || (cap <= MAX_CAPACITY / 2 && (self.len + 2 > cap || (self.len as u64) * 100 > (
        cap as u64) * (self.load_percent as u64)))
    }

    /// Moves the entries of `old_buf`, the buffer of a table whose model is
    /// `m` with slots `loc`, into this empty table.
    fn refill(
        &mut self,
        old_buf: Vec<Option<Entry<V>>>,
        m: Ghost<Map<u64, V>>,
        loc: Ghost<Map<u64, int>>,
    )
        requires
            old(self).wf(),
            old(self)@ == Map::<u64, V>::empty(),
            m@.dom().finite(),
            m@.len() + 1 <= old_buf@.len() || m@.len() == 0,
            old_buf@.len() < old(self).buf@.len(),
            forall|k: u64| #[trigger]
                m@.contains_key(k) ==> 0 <= loc@[k] < old_buf@.len() && old_buf@[loc@[k]] is Some
                    && entry_at(old_buf@, loc@[k]).key == k && entry_at(old_buf@, loc@[k]).value
                    == m@[k],
            forall|i: int|
                0 <= i < old_buf@.len() && (#[trigger] old_buf@[i]) is Some ==> m@.contains_key(
                    entry_at(old_buf@, i).key,
                ) && loc@[entry_at(old_buf@, i).key] == i && entry_at(old_buf@, i).hash
                    == old(self).hasher.spec_digest(entry_at(old_buf@, i).key),
        ensures
            final(self).wf(),
            final(self)@ == m@,
            final(self).buf@.len() == old(self).buf@.len(),
            final(self).hasher == old(self).hasher,
            final(self).load_percent == old(self).load_percent,
    {
        let mut old_buf = old_buf;
        let ghost s = old_buf@;
        let ghost m = m@;
        let ghost loc = loc@;
        let ghost cap = self.buf@.len();
        while old_buf.len() > 0
            invariant
                self.wf(),
                self.buf@.len() == cap,
                self.hasher == old(self).hasher,
                self.load_percent == old(self).load_percent,
                s.len() < cap,
                old_buf@.len() <= s.len(),
                old_buf@ =~= s.subrange(0, old_buf@.len() as int),
                m.dom().finite(),
                m.len() + 1 <= s.len() || m.len() == 0,
                forall|k: u64| #[trigger]
                    m.contains_key(k) ==> 0 <= loc[k] < s.len() && s[loc[k]] is Some && entry_at(
                        s,
                        loc[k],
                    ).key == k && entry_at(s, loc[k]).value == m[k],
                forall|i: int|
                    0 <= i < s.len() && (#[trigger] s[i]) is Some ==> m.contains_key(
                        entry_at(s, i).key,
                    ) && loc[entry_at(s, i).key] == i && entry_at(s, i).hash
                        == self.hasher.spec_digest(entry_at(s, i).key),
                forall|k: u64|
                    #[trigger] self@.contains_key(k) <==> m.contains_key(k) && loc[k]
                        >= old_buf@.len(),
                forall|k: u64| #[trigger] self@.contains_key(k) ==> self@[k] == m[k],
            decreases old_buf@.len(),
        {
            let ghost prev = old_buf@;
            let b = old_buf.pop().unwrap();
            let ghost i = old_buf@.len() as int;
            proof {
                assert(prev[i] == s[i]);
                assert(old_buf@ =~= s.subrange(0, i));
                assert forall|k: u64| m.contains_key(k) && loc[k] >= i && !(loc[k] >= i + 1) implies s[i] is Some
                    && entry_at(s, i).key == k by {}
            }
            match b {
                Some(e) => {
                    proof {
                        assert(self@.dom().subset_of(m.dom().remove(e.key)));
                        vstd::set_lib::lemma_len_subset(self@.dom(), m.dom().remove(e.key));
                    }
                    self.insert_absent(e);
                },
                None => {},
            }
        }
        proof {
            assert(self@ =~= m);
        }
    }

    /// Moves every entry into a fresh buffer of twice the slots (or
    /// `INITIAL_CAPACITY` slots for a table that has none).
    fn grow(&mut self)
        requires
            old(self).wf(),
            old(self).buf@.len() <= MAX_CAPACITY / 2,
        ensures
            final(self).wf(),
            final(self)@ == old(self)@,
            final(self).buf@.len() == if old(self).buf@.len() == 0 {
                INITIAL_CAPACITY as nat
            } else {
                2 * old(self).buf@.len()
            },
            final(self).hasher == old(self).hasher,
            final(self).load_percent == old(self).load_percent,
    {
        let old_cap = self.buf.len();
        let new_cap = if old_cap == 0 {
            INITIAL_CAPACITY
        } else {
            2 * old_cap
        };
        proof {
            lemma2_to64();
            if old_cap > 0 {
                let e = choose|e: nat| pow2(e) == old_cap as nat;
                lemma_pow2_unfold(e + 1);
            }
        }
        let mut fresh: Self = Self::with_slots(new_cap, self.hasher, self.load_percent);
        let mut old_buf: Vec<Option<Entry<V>>> = Vec::new();
        std::mem::swap(&mut old_buf, &mut self.buf);
        fresh.refill(old_buf, Ghost(self.model@), Ghost(self.loc@));
        *self = fresh;
    }

    /// Inserts `key` with `value`; when `key` is present its value is
    /// replaced and the previous entry returned.
    pub fn insert(&mut self, key: u64, value: V) -> (r: Option<(u64, V)>)
        requires
            old(self).wf(),
            old(self)@.len() < MAX_ENTRIES,
        ensures
            final(self).wf(),
            final(self).spec_ordered(),
            final(self)@ == old(self)@.insert(key, value),
            final(self).spec_load_percent() == old(self).spec_load_percent(),
            match r {
                Some((k, v)) => old(self)@.contains_key(key) && k == key && v == old(self)@[key],
                None => !old(self)@.contains_key(key),
            },
            final(self)@.len() == if old(self)@.contains_key(key) {
                old(self)@.len()
            } else {
                old(self)@.len() + 1
            },
            final(self).spec_capacity() == if !old(self)@.contains_key(key)
                && old(self).grows_on_insert() {
                old(self).grown_capacity()
            } else {
                old(self).spec_capacity()
            },
            is_power_of_two(final(self).spec_capacity()),
    {
        proof {
            lemma_insert_len(self@, key, value);
        }
        match self.find(key) {
            Some(i) => self.replace_at(i, key, value),
            None => {
                if self.needs_grow() {
                    self.grow();
                }
                let hash = self.hasher.digest(key);
                self.insert_absent(Entry { key, value, hash });
                None
            },
        }
    }
}

impl<V: Clone> HashMap<V> {
    /// A copy built by inserting a clone of every entry into a fresh buffer
    /// of the same size, with the same hash and load factor.
    pub fn clone(&self) -> (r: Self)
        requires
            self.wf(),
        ensures
            r.wf(),
            r@.dom() == self@.dom(),
            forall|k: u64| #[trigger] r@.contains_key(k) ==> cloned(self@[k], r@[k]),
            r.spec_capacity() == self.spec_capacity(),
            r.spec_load_percent() == self.spec_load_percent(),
    {
        let cap = self.buf.len();
        let mut fresh: Self = Self::with_slots(cap, self.hasher, self.load_percent);
        let mut i: usize = 0;
        while i < cap
            invariant
                self.wf(),
                cap == self.buf@.len(),
                i <= cap,
                fresh.wf(),
                fresh.buf@.len() == cap,
                fresh.hasher == self.hasher,
                fresh.load_percent == self.load_percent,
                forall|k: u64|
                    #[trigger] fresh@.contains_key(k) <==> self@.contains_key(k) && self.loc@[k] < i,
                forall|k: u64| #[trigger] fresh@.contains_key(k) ==> cloned(self@[k], fresh@[k]),
            decreases cap - i,
        {
            match &self.buf[i] {
                Some(e) => {
                    proof {
                        assert(self.loc@[e.key] == i);
                        assert(fresh@.dom().subset_of(self@.dom().remove(e.key)));
                        vstd::set_lib::lemma_len_subset(fresh@.dom(), self@.dom().remove(e.key));
                    }
                    let value = e.value.clone();
                    fresh.insert_absent(Entry { key: e.key, value, hash: e.hash });
                },
                None => {
                    proof {
                        assert forall|k: u64| self@.contains_key(k) implies self.loc@[k] != i by {}
                    }
                },
            }
            i = i + 1;
        }
        proof {
            assert(fresh@.dom() =~= self@.dom());
        }
        fresh
    }
}

} // verus!
