//! Hash map with linear probing and lazy deletion: a removed entry leaves a
//! tombstone that lookups walk past and that insertion may reuse.

use crate::hashing::{capacity_for, is_power_of_two, KeyHash};
use crate::slots::{lemma_insert_len, lemma_remove_len, dist, lemma_full_ring, lemma_probe_dist, lemma_probe_next, next_slot, probe};
use vstd::arithmetic::power2::{lemma2_to64, lemma_pow2_unfold, pow2};
use vstd::prelude::*;

verus! {

broadcast use crate::hashing::lemma_slot_range;

/// One slot of the buffer.
pub enum Bucket<V> {
    Occupied(u64, V),
    Empty,
    Deleted,
}

impl<V> Bucket<V> {
    pub open spec fn holds(self, key: u64) -> bool {
        self is Occupied && self->0 == key
    }
}

/// Load factor, in percent, above which the table grows before an insertion.
pub const DEFAULT_LOAD_PERCENT: usize = 70;

/// Number of slots of the first buffer.
pub const INITIAL_CAPACITY: usize = 4;

/// Largest number of slots a buffer is given; past it the table stops growing.
pub const MAX_CAPACITY: usize = 0x4000_0000;

/// Largest number of entries the table accepts (half of `MAX_CAPACITY`).
pub const MAX_ENTRIES: usize = 0x2000_0000;

pub struct HashMap<V> {
    buf: Vec<Bucket<V>>,
    len: usize,
    hasher: KeyHash,
    load_percent: usize,
    model: Ghost<Map<u64, V>>,
    loc: Ghost<Map<u64, int>>,
}

/// Every occupied slot can be reached from its key's home slot without
/// crossing an empty slot.
pub open spec fn chains_unbroken<V>(s: Seq<Bucket<V>>, hasher: KeyHash) -> bool {
    forall|i: int, d: int|
        0 <= i < s.len() && s[i] is Occupied && 0 <= d < dist(
            hasher.spec_home(s[i]->0, s.len()),
            i,
            s.len() as int,
        ) ==> !(s[#[trigger] probe(hasher.spec_home(s[i]->0, s.len()), d, s.len() as int)] is Empty)
}

impl<V> View for HashMap<V> {
    type V = Map<u64, V>;

    closed spec fn view(&self) -> Map<u64, V> {
        self.model@
    }
}

impl<V> HashMap<V> {
    /// The table's invariant.
    pub closed spec fn wf(&self) -> bool {
        let s = self.buf@;
        let cap = s.len() as int;
        let m = self.model@;
        let loc = self.loc@;
        &&& cap <= MAX_CAPACITY
        &&& (cap == 0 || is_power_of_two(cap as nat))
        &&& 0 < self.load_percent < 100
        &&& m.dom().finite()
        &&& loc.dom() == m.dom()
        &&& self.len == m.len()
        &&& self.len <= cap
        &&& forall|k: u64| #[trigger]
            m.contains_key(k) ==> 0 <= loc[k] < cap && s[loc[k]] == Bucket::Occupied(k, m[k])
        &&& forall|i: int|
            0 <= i < cap && (#[trigger] s[i]) is Occupied ==> m.contains_key(s[i]->0) && loc[s[i]->0]
                == i
        &&& chains_unbroken(s, self.hasher)
    }

    /// Number of slots of the buffer.
    pub closed spec fn spec_capacity(&self) -> nat {
        self.buf@.len()
    }

    pub closed spec fn spec_load_percent(&self) -> nat {
        self.load_percent as nat
    }

    pub closed spec fn spec_hasher(&self) -> KeyHash {
        self.hasher
    }

    /// Whether an insertion first grows the buffer: it has no slots yet, or
    /// more than the load factor of them are taken (and it may still grow).
    pub open spec fn grows_on_insert(&self) -> bool {
        self.spec_capacity() == 0 || (self.spec_capacity() <= MAX_CAPACITY / 2 && self@.len() * 100
            > self.spec_capacity() * self.spec_load_percent())
    }

    /// Number of slots after a growth: twice as many, or `INITIAL_CAPACITY`
    /// for a table that has none.
    pub open spec fn grown_capacity(&self) -> nat {
        if self.spec_capacity() == 0 {
            INITIAL_CAPACITY as nat
        } else {
            2 * self.spec_capacity()
        }
    }

    /// A well-formed table holds finitely many entries, at most one per slot,
    /// in a buffer whose size is zero or a power of two.
    pub proof fn lemma_wf_shape(&self)
        requires
            self.wf(),
        ensures
            self@.dom().finite(),
            self@.len() <= self.spec_capacity(),
            self.spec_capacity() == 0 || is_power_of_two(self.spec_capacity()),
    {
    }

    spec fn home_of(&self, key: u64) -> int {
        self.hasher.spec_home(key, self.buf@.len())
    }

    /// An empty table with a buffer of `cap` empty slots.
    fn with_slots(cap: usize, hasher: KeyHash, load_percent: usize) -> (r: Self)
        requires
            0 < load_percent < 100,
            cap <= MAX_CAPACITY,
            cap == 0 || is_power_of_two(cap as nat),
        ensures
            r.wf(),
            r@ == Map::<u64, V>::empty(),
            r.buf@.len() == cap,
            r.hasher == hasher,
            r.load_percent == load_percent,
    {
        let mut buf: Vec<Bucket<V>> = Vec::with_capacity(cap);
        while buf.len() < cap
            invariant
                buf@.len() <= cap,
                forall|i: int| 0 <= i < buf@.len() ==> buf@[i] is Empty,
            decreases cap - buf@.len(),
        {
            buf.push(Bucket::Empty);
        }
        let r = HashMap {
            buf,
            len: 0,
            hasher,
            load_percent,
            model: Ghost(Map::empty()),
            loc: Ghost(Map::empty()),
        };
        assert(r.model@.dom() =~= Set::<u64>::empty());
        r
    }

    /// An empty table with the default load factor and a random hash seed;
    /// nothing is allocated until the first insertion.
    pub fn new() -> (r: Self)
        ensures
            r.wf(),
            r@ == Map::<u64, V>::empty(),
            r.spec_capacity() == 0,
            r.spec_load_percent() == DEFAULT_LOAD_PERCENT,
    {
        Self::with_load_factor(DEFAULT_LOAD_PERCENT)
    }

    /// An empty table that grows once more than `load_percent` percent of its
    /// slots are taken.
    pub fn with_load_factor(load_percent: usize) -> (r: Self)
        requires
            0 < load_percent < 100,
        ensures
            r.wf(),
            r@ == Map::<u64, V>::empty(),
            r.spec_capacity() == 0,
            r.spec_load_percent() == load_percent,
    {
        Self::with_hasher_and_load_factor(KeyHash::random(), load_percent)
    }

    /// An empty table that hashes keys with `hasher`.
    pub fn with_hasher_and_load_factor(hasher: KeyHash, load_percent: usize) -> (r: Self)
        requires
            0 < load_percent < 100,
        ensures
            r.wf(),
            r@ == Map::<u64, V>::empty(),
            r.spec_capacity() == 0,
            r.spec_load_percent() == load_percent,
            r.spec_hasher() == hasher,
    {
        Self::with_slots(0, hasher, load_percent)
    }

    /// An empty table with room for `capacity` entries without growing.
    pub fn with_capacity(capacity: usize) -> (r: Self)
        ensures
            r.wf(),
            r@ == Map::<u64, V>::empty(),
            r.spec_load_percent() == DEFAULT_LOAD_PERCENT,
            capacity == 0 <==> r.spec_capacity() == 0,
            r.spec_capacity() == 0 || is_power_of_two(r.spec_capacity()),
            0 < capacity && r.spec_capacity() < MAX_CAPACITY ==> capacity * 100 < r.spec_capacity()
                * DEFAULT_LOAD_PERCENT && capacity < r.spec_capacity(),
    {
        Self::with_capacity_and_load_factor(capacity, DEFAULT_LOAD_PERCENT)
    }

    /// An empty table with room for `capacity` entries without growing, that
    /// grows once more than `load_percent` percent of its slots are taken.
    pub fn with_capacity_and_load_factor(capacity: usize, load_percent: usize) -> (r: Self)
        requires
            0 < load_percent < 100,
        ensures
            r.wf(),
            r@ == Map::<u64, V>::empty(),
            r.spec_load_percent() == load_percent,
            capacity == 0 <==> r.spec_capacity() == 0,
            r.spec_capacity() == 0 || is_power_of_two(r.spec_capacity()),
            0 < capacity && r.spec_capacity() < MAX_CAPACITY ==> capacity * 100 < r.spec_capacity()
                * load_percent && capacity < r.spec_capacity(),
    {
        let cap = capacity_for(capacity, load_percent);
        Self::with_slots(cap, KeyHash::random(), load_percent)
    }

    pub fn len(&self) -> (r: usize)
        requires
            self.wf(),
        ensures
            r == self@.len(),
    {
        self.len
    }

    pub fn is_empty(&self) -> (r: bool)
        requires
            self.wf(),
        ensures
            r <==> self@.len() == 0,
    {
        self.len == 0
    }

    /// Number of slots of the buffer.
    pub fn capacity(&self) -> (r: usize)
        requires
            self.wf(),
        ensures
            r == self.spec_capacity(),
    {
        self.buf.len()
    }

    /// A walk from the home slot of `key` that has passed `d` slots without
    /// meeting `key`, and then meets an empty slot or has seen every slot,
    /// proves `key` absent.
    proof fn lemma_absent(&self, key: u64, d: int)
        requires
            self.wf(),
            self.buf@.len() > 0,
            0 <= d <= self.buf@.len(),
            forall|e: int|
                0 <= e < d ==> !(#[trigger] self.buf@[probe(
                    self.home_of(key),
                    e,
                    self.buf@.len() as int,
                )]).holds(key),
            d < self.buf@.len() ==> self.buf@[probe(
                self.home_of(key),
                d,
                self.buf@.len() as int,
            )] is Empty,
        ensures
            !self@.contains_key(key),
    {
                let cap = self.buf@.len() as int;
        let h = self.home_of(key);
        if self@.contains_key(key) {
            let j = self.loc@[key];
            lemma_probe_dist(h, j, cap);
            let dj = dist(h, j, cap);
            assert(self.buf@[j]->0 == key);
            if dj < d {
                assert(!self.buf@[probe(h, dj, cap)].holds(key));
            } else if dj > d {
                assert(!(self.buf@[probe(self.hasher.spec_home(self.buf@[j]->0, self.buf@.len()), d, cap)] is Empty));
            }
        }
    }

    /// The slot that holds `key`, if any.
    fn find(&self, key: u64) -> (r: Option<usize>)
        requires
            self.wf(),
        ensures
            match r {
                Some(i) => self@.contains_key(key) && i == self.loc@[key],
                None => !self@.contains_key(key),
            },
    {
        let cap = self.buf.len();
        if cap == 0 {
            return None;
        }
        let h = self.hasher.home(key, cap);
        let mut idx = h;
        let mut d: usize = 0;
        while d < cap
            invariant
                self.wf(),
                cap == self.buf@.len(),
                0 < cap,
                h == self.home_of(key),
                d <= cap,
                idx < cap,
                d < cap ==> idx == probe(h as int, d as int, cap as int),
                forall|e: int|
                    0 <= e < d ==> !(#[trigger] self.buf@[probe(h as int, e, cap as int)]).holds(
                        key,
                    ),
            decreases cap - d,
        {
            match &self.buf[idx] {
                Bucket::Occupied(k, _) => {
                    if *k == key {
                        return Some(idx);
                    }
                },
                Bucket::Empty => {
                    proof {
                        self.lemma_absent(key, d as int);
                    }
                    return None;
                },
                Bucket::Deleted => {},
            }
            if d + 1 < cap {
                proof {
                    lemma_probe_next(h as int, d as int, cap as int);
                }
            }
            idx = next_slot(idx, cap);
            d = d + 1;
        }
        proof {
            self.lemma_absent(key, d as int);
        }
        None
    }

    /// Walks from the home slot of `key`: `Ok(i)` when slot `i` holds `key`;
    /// otherwise `Err(t)` with the free slot `t` that an insertion of `key`
    /// takes, `d` steps from the home slot.
    fn probe_for_insert(&self, key: u64) -> (r: (Result<usize, usize>, Ghost<int>))
        requires
            self.wf(),
            self@.len() < self.buf@.len(),
        ensures
            match r.0 {
                Ok(i) => self@.contains_key(key) && i == self.loc@[key],
                Err(t) => {
                    &&& !self@.contains_key(key)
                    &&& 0 <= r.1@ < self.buf@.len()
                    &&& t == probe(self.home_of(key), r.1@, self.buf@.len() as int)
                    &&& !(self.buf@[t as int] is Occupied)
                    &&& forall|e: int|
                        0 <= e < r.1@ ==> !(#[trigger] self.buf@[probe(
                            self.home_of(key),
                            e,
                            self.buf@.len() as int,
                        )] is Empty)
                },
            },
    {
        let cap = self.buf.len();
        let h = self.hasher.home(key, cap);
        let mut idx = h;
        let mut d: usize = 0;
        let mut free: Option<usize> = None;
        let ghost mut fd: int = 0;
        while d < cap
            invariant
                self.wf(),
                cap == self.buf@.len(),
                0 < cap,
                h == self.home_of(key),
                d <= cap,
                idx < cap,
                d < cap ==> idx == probe(h as int, d as int, cap as int),
                forall|e: int|
                    0 <= e < d ==> !(#[trigger] self.buf@[probe(h as int, e, cap as int)]).holds(
                        key,
                    ),
                forall|e: int|
                    0 <= e < d ==> !(#[trigger] self.buf@[probe(h as int, e, cap as int)] is Empty),
                match free {
                    Some(f) => 0 <= fd < d && f == probe(h as int, fd, cap as int)
                        && self.buf@[f as int] is Deleted,
                    None => forall|e: int|
                        0 <= e < d ==> !(#[trigger] self.buf@[probe(
                            h as int,
                            e,
                            cap as int,
                        )] is Deleted),
                },
            decreases cap - d,
        {
            match &self.buf[idx] {
                Bucket::Occupied(k, _) => {
                    if *k == key {
                        return (Ok(idx), Ghost(0));
                    }
                },
                Bucket::Empty => {
                    proof {
                        self.lemma_absent(key, d as int);
                    }
                    return match free {
                        Some(f) => (Err(f), Ghost(fd)),
                        None => (Err(idx), Ghost(d as int)),
                    };
                },
                Bucket::Deleted => {
                    if free.is_none() {
                        free = Some(idx);
                        proof {
                            fd = d as int;
                        }
                    }
                },
            }
            if d + 1 < cap {
                proof {
                    lemma_probe_next(h as int, d as int, cap as int);
                }
            }
            idx = next_slot(idx, cap);
            d = d + 1;
        }
        proof {
            self.lemma_absent(key, d as int);
        }
        match free {
            Some(f) => (Err(f), Ghost(fd)),
            None => {
                proof {
                    let s = self.buf@;
                    assert forall|i: int| 0 <= i < cap implies s[i] is Occupied by {
                        lemma_probe_dist(h as int, i, cap as int);
                        let e = dist(h as int, i, cap as int);
                        assert(!(s[probe(h as int, e, cap as int)] is Empty));
                        assert(!(s[probe(h as int, e, cap as int)] is Deleted));
                    }
                    lemma_full_ring(self.model@.dom(), |i: int| s[i]->0, cap as int);
                }
                (Err(0), Ghost(0))
            },
        }
    }

    /// Inserts into a table that has room for one more entry.
    fn insert_unchecked(&mut self, key: u64, value: V) -> (r: Option<(u64, V)>)
        requires
            old(self).wf(),
            old(self)@.len() < old(self).buf@.len(),
        ensures
            final(self).wf(),
            final(self)@ == old(self)@.insert(key, value),
            final(self).buf@.len() == old(self).buf@.len(),
            final(self).hasher == old(self).hasher,
            final(self).load_percent == old(self).load_percent,
            match r {
                Some((k, v)) => old(self)@.contains_key(key) && k == key && v == old(self)@[key],
                None => !old(self)@.contains_key(key),
            },
    {
        let cap = self.buf.len();
        let h = self.hasher.home(key, cap);
        let (found, td) = self.probe_for_insert(key);
        match found {
            Ok(i) => self.replace_at(i, key, value),
            Err(t) => {
                self.place_new(key, value, t, h, td);
                None
            },
        }
    }

    /// Overwrites the entry of `key`, which slot `i` holds.
    fn replace_at(&mut self, i: usize, key: u64, value: V) -> (r: Option<(u64, V)>)
        requires
            old(self).wf(),
            old(self)@.contains_key(key),
            i == old(self).loc@[key],
        ensures
            final(self).wf(),
            final(self)@ == old(self)@.insert(key, value),
            final(self).buf@.len() == old(self).buf@.len(),
            final(self).hasher == old(self).hasher,
            final(self).load_percent == old(self).load_percent,
            r == Some((key, old(self)@[key])),
    {
        let ghost s = self.buf@;
        let ghost cap = s.len() as int;
        let mut slot = Bucket::Occupied(key, value);
        self.buf.set_and_swap(i, &mut slot);
        proof {
            let old_m = self.model@;
            self.model@ = self.model@.insert(key, value);
            let s2 = self.buf@;
            assert forall|k: u64| #[trigger]
                self.model@.contains_key(k) implies 0 <= self.loc@[k] < cap && s2[self.loc@[k]]
                == Bucket::Occupied(k, self.model@[k]) by {
                assert(old_m.contains_key(k));
            }
            assert forall|j: int| 0 <= j < cap && (#[trigger] s2[j]) is Occupied implies self.model@.contains_key(
                s2[j]->0,
            ) && self.loc@[s2[j]->0] == j by {
                assert(s[j] is Occupied);
            }
            assert forall|j: int, e: int|
                0 <= j < cap && s2[j] is Occupied && 0 <= e < dist(
                    self.hasher.spec_home(s2[j]->0, cap as nat),
                    j,
                    cap,
                ) implies !(s2[#[trigger] probe(self.hasher.spec_home(s2[j]->0, cap as nat), e, cap)] is Empty) by {
                assert(s[j] is Occupied);
                assert(!(s[probe(self.hasher.spec_home(s[j]->0, cap as nat), e, cap)] is Empty));
            }
            assert(self.model@.dom() =~= old_m.dom());
        }
        match slot {
            Bucket::Occupied(k, v) => Some((k, v)),
            _ => None,
        }
    }

    /// Writes a new entry for an absent key into a free slot that a walk from
    /// its home slot reaches without crossing an empty slot.
    fn place_new(&mut self, key: u64, value: V, target: usize, h: usize, td: Ghost<int>)
        requires
            old(self).wf(),
            !old(self)@.contains_key(key),
            old(self)@.len() < old(self).buf@.len(),
            h == old(self).home_of(key),
            0 <= td@ < old(self).buf@.len(),
            target == probe(h as int, td@, old(self).buf@.len() as int),
            !(old(self).buf@[target as int] is Occupied),
            forall|e: int|
                0 <= e < td@ ==> !(#[trigger] old(self).buf@[probe(
                    h as int,
                    e,
                    old(self).buf@.len() as int,
                )] is Empty),
        ensures
            final(self).wf(),
            final(self)@ == old(self)@.insert(key, value),
            final(self).buf@.len() == old(self).buf@.len(),
            final(self).hasher == old(self).hasher,
            final(self).load_percent == old(self).load_percent,
    {
        let ghost s = self.buf@;
        let ghost cap = s.len() as int;
        proof {
            lemma_probe_next(h as int, 0, cap + 1);
        }
        self.buf.set(target, Bucket::Occupied(key, value));
        self.len = self.len + 1;
        proof {
            let old_m = self.model@;
            self.model@ = self.model@.insert(key, value);
            self.loc@ = self.loc@.insert(key, target as int);
            let s2 = self.buf@;
            assert(dist(h as int, target as int, cap) == td@) by {
                lemma_probe_dist(h as int, target as int, cap);
                if td@ + 1 < cap {
                    lemma_probe_next(h as int, td@, cap);
                } else {
                }
            }
            assert forall|k: u64| #[trigger]
                self.model@.contains_key(k) implies 0 <= self.loc@[k] < cap && s2[self.loc@[k]]
                == Bucket::Occupied(k, self.model@[k]) by {
                if k != key {
                    assert(old_m.contains_key(k));
                }
            }
            assert forall|i: int| 0 <= i < cap && (#[trigger] s2[i]) is Occupied implies self.model@.contains_key(
                s2[i]->0,
            ) && self.loc@[s2[i]->0] == i by {
                if i != target {
                    assert(s[i] is Occupied);
                }
            }
            assert forall|i: int, e: int|
                0 <= i < cap && s2[i] is Occupied && 0 <= e < dist(
                    self.hasher.spec_home(s2[i]->0, cap as nat),
                    i,
                    cap,
                ) implies !(s2[#[trigger] probe(self.hasher.spec_home(s2[i]->0, cap as nat), e, cap)] is Empty) by {
                if i != target {
                    assert(s[i] is Occupied);
                    assert(!(s[probe(self.hasher.spec_home(s[i]->0, cap as nat), e, cap)] is Empty));
                } else {
                    assert(!(s[probe(h as int, e, cap)] is Empty));
                }
            }
            assert(self.model@.dom() == old_m.dom().insert(key));
        }
    }

    /// The stored key and value of `key`, if present.
    pub fn get(&self, key: &u64) -> (r: Option<(&u64, &V)>)
        requires
            self.wf(),
        ensures
            r is Some <==> self@.contains_key(*key),
            r matches Some((k, v)) ==> *k == *key && *v == self@[*key],
    {
        match self.find(*key) {
            None => None,
            Some(i) => match &self.buf[i] {
                Bucket::Occupied(k, v) => Some((k, v)),
                _ => None,
            },
        }
    }

    /// Removes `key`, leaving a tombstone in its slot, and returns its entry.
    pub fn remove(&mut self, key: &u64) -> (r: Option<(u64, V)>)
        requires
            old(self).wf(),
        ensures
            final(self).wf(),
            final(self)@ == old(self)@.remove(*key),
            final(self)@.len() == old(self)@.len() - (if r is Some {
                1int
            } else {
                0int
            }),
            final(self).spec_capacity() == old(self).spec_capacity(),
            match r {
                Some((k, v)) => old(self)@.contains_key(*key) && k == *key && v == old(self)@[*key],
                None => !old(self)@.contains_key(*key),
            },
    {
        proof {
            lemma_remove_len(self@, *key);
        }
        match self.find(*key) {
            None => {
                proof {
                    assert(self.model@.remove(*key) =~= self.model@);
                }
                None
            },
            Some(i) => {
                let ghost s = self.buf@;
                let ghost cap = s.len() as int;
                let ghost old_m = self.model@;
                let mut slot = Bucket::Deleted;
                self.buf.set_and_swap(i, &mut slot);
                self.len = self.len - 1;
                proof {
                    self.model@ = self.model@.remove(*key);
                    self.loc@ = self.loc@.remove(*key);
                    let s2 = self.buf@;
                    assert forall|k: u64| #[trigger]
                        self.model@.contains_key(k) implies 0 <= self.loc@[k] < cap
                        && s2[self.loc@[k]] == Bucket::Occupied(k, self.model@[k]) by {
                        assert(old_m.contains_key(k));
                    }
                    assert forall|j: int|
                        0 <= j < cap && (#[trigger] s2[j]) is Occupied implies self.model@.contains_key(
                            s2[j]->0,
                        ) && self.loc@[s2[j]->0] == j by {
                        assert(s[j] is Occupied);
                    }
                    assert forall|j: int, e: int|
                        0 <= j < cap && s2[j] is Occupied && 0 <= e < dist(
                            self.hasher.spec_home(s2[j]->0, cap as nat),
                            j,
                            cap,
                        ) implies !(s2[#[trigger] probe(
                            self.hasher.spec_home(s2[j]->0, cap as nat),
                            e,
                            cap,
                        )] is Empty) by {
                        assert(s[j] is Occupied);
                        assert(!(s[probe(self.hasher.spec_home(s[j]->0, cap as nat), e, cap)] is Empty));
                    }
                }
                match slot {
                    Bucket::Occupied(k, v) => Some((k, v)),
                    _ => None,
                }
            },
        }
    }

    /// Whether the next insertion must first grow the buffer.
    fn needs_grow(&self) -> (r: bool)
        requires
            self.wf(),
        ensures
            r == self.grows_on_insert(),
            r ==> self.buf@.len() <= MAX_CAPACITY / 2,
            !r ==> self.buf@.len() > 0,
            !r ==> self.buf@.len() > MAX_CAPACITY / 2 || self@.len() * 100 <= self.buf@.len()
                * self.load_percent,
    {
        let cap = self.buf.len();
        proof {
            let c = cap as u64;
            let p = self.load_percent as u64;
            assert(c <= 0x4000_0000 && p < 100 ==> c * p <= 0x4000_0000 * 100) by (nonlinear_arith);
        }
        cap == 0 || (cap <= MAX_CAPACITY / 2 && (self.len as u64) * 100 > (cap as u64) * (
        self.load_percent as u64))
    }

    /// Moves the entries of `old_buf`, a buffer of a table whose model is `m`
    /// with slots `loc`, into this empty table.
    #[verifier::rlimit(30)]
    fn refill(&mut self, old_buf: Vec<Bucket<V>>, m: Ghost<Map<u64, V>>, loc: Ghost<Map<u64, int>>)
        requires
            old(self).wf(),
            old(self)@ == Map::<u64, V>::empty(),
            m@.dom().finite(),
            m@.len() <= old_buf@.len(),
            old_buf@.len() < old(self).buf@.len(),
            loc@.dom() == m@.dom(),
            forall|k: u64| #[trigger]
                m@.contains_key(k) ==> 0 <= loc@[k] < old_buf@.len() && old_buf@[loc@[k]]
                    == Bucket::Occupied(k, m@[k]),
            forall|i: int|
                0 <= i < old_buf@.len() && (#[trigger] old_buf@[i]) is Occupied ==> m@.contains_key(
                    old_buf@[i]->0,
                ) && loc@[old_buf@[i]->0] == i,
        ensures
            final(self).wf(),
            final(self)@ == m@,
            final(self).buf@.len() == old(self).buf@.len(),
            final(self).hasher == old(self).hasher,
            final(self).load_percent == old(self).load_percent,
    {
        let mut old_buf = old_buf;
        let ghost s = old_buf@;
        let ghost m = m@;
        let ghost loc = loc@;
        let ghost cap = self.buf@.len();
        while old_buf.len() > 0
            invariant
                self.wf(),
                self.buf@.len() == cap,
                self.hasher == old(self).hasher,
                self.load_percent == old(self).load_percent,
                s.len() < cap,
                old_buf@.len() <= s.len(),
                old_buf@ =~= s.subrange(0, old_buf@.len() as int),
                m.dom().finite(),
                m.len() <= s.len(),
                loc.dom() == m.dom(),
                forall|k: u64| #[trigger]
                    m.contains_key(k) ==> 0 <= loc[k] < s.len() && s[loc[k]] == Bucket::Occupied(
                        k,
                        m[k],
                    ),
                forall|i: int|
                    0 <= i < s.len() && (#[trigger] s[i]) is Occupied ==> m.contains_key(s[i]->0)
                        && loc[s[i]->0] == i,
                forall|k: u64|
                    #[trigger] self@.contains_key(k) <==> m.contains_key(k) && loc[k]
                        >= old_buf@.len(),
                forall|k: u64| #[trigger] self@.contains_key(k) ==> self@[k] == m[k],
            decreases old_buf@.len(),
        {
            let ghost prev = old_buf@;
            let b = old_buf.pop().unwrap();
            let ghost i = old_buf@.len() as int;
            proof {
                assert(prev[i] == s[i]);
                assert(old_buf@ =~= s.subrange(0, i));
                assert forall|k: u64| m.contains_key(k) && loc[k] >= i && !(loc[k] >= i + 1) implies s[i] == Bucket::Occupied(k, m[k]) by {}
            }
            match b {
                Bucket::Occupied(k, v) => {
                    proof {
                        assert(self@.dom().subset_of(m.dom().remove(k)));
                        vstd::set_lib::lemma_len_subset(self@.dom(), m.dom().remove(k));
                    }
                    self.insert_unchecked(k, v);
                },
                _ => {},
            }
        }
        proof {
            assert(self@ =~= m);
        }
    }

    /// Moves every entry into a fresh buffer of twice the slots (or
    /// `INITIAL_CAPACITY` slots for a table that has none).
    fn grow(&mut self)
        requires
            old(self).wf(),
            old(self).buf@.len() <= MAX_CAPACITY / 2,
        ensures
            final(self).wf(),
            final(self)@ == old(self)@,
            final(self).buf@.len() == if old(self).buf@.len() == 0 {
                INITIAL_CAPACITY as nat
            } else {
                2 * old(self).buf@.len()
            },
            final(self).hasher == old(self).hasher,
            final(self).load_percent == old(self).load_percent,
    {
        let old_cap = self.buf.len();
        let new_cap = if old_cap == 0 {
            INITIAL_CAPACITY
        } else {
            2 * old_cap
        };
        proof {
            lemma2_to64();
            if old_cap > 0 {
                let e = choose|e: nat| pow2(e) == old_cap as nat;
                lemma_pow2_unfold(e + 1);
            }
        }
        let mut fresh: Self = Self::with_slots(new_cap, self.hasher, self.load_percent);
        let mut old_buf: Vec<Bucket<V>> = Vec::new();
        std::mem::swap(&mut old_buf, &mut self.buf);
        fresh.refill(old_buf, Ghost(self.model@), Ghost(self.loc@));
        *self = fresh;
    }

    /// Inserts `key` with `value`; when `key` is present its value is
    /// replaced and the previous entry returned.
    pub fn insert(&mut self, key: u64, value: V) -> (r: Option<(u64, V)>)
        requires
            old(self).wf(),
            old(self)@.len() < MAX_ENTRIES,
        ensures
            final(self).wf(),
            final(self)@ == old(self)@.insert(key, value),
            final(self).spec_load_percent() == old(self).spec_load_percent(),
            final(self).spec_hasher() == old(self).spec_hasher(),
            match r {
                Some((k, v)) => old(self)@.contains_key(key) && k == key && v == old(self)@[key],
                None => !old(self)@.contains_key(key),
            },
            final(self)@.len() == if old(self)@.contains_key(key) {
                old(self)@.len()
            } else {
                old(self)@.len() + 1
            },
            final(self).spec_capacity() == if old(self).grows_on_insert() {
                old(self).grown_capacity()
            } else {
                old(self).spec_capacity()
            },
            is_power_of_two(final(self).spec_capacity()),
    {
        proof {
            lemma_insert_len(self@, key, value);
        }
        if self.needs_grow() {
            self.grow();
        } else {
            proof {
                let n = self@.len();
                let c = self.buf@.len();
                let p = self.load_percent;
                if c <= MAX_CAPACITY / 2 {
                    assert(n * 100 <= c * p && p < 100 && c > 0 ==> n < c) by (nonlinear_arith);
                }
            }
        }
        self.insert_unchecked(key, value)
    }
}

impl<V: Clone> HashMap<V> {
    /// A copy built by inserting a clone of every entry into a fresh buffer
    /// of the same size, with the same hash and load factor.
    pub fn clone(&self) -> (r: Self)
        requires
            self.wf(),
        ensures
            r.wf(),
            r@.dom() == self@.dom(),
            forall|k: u64| #[trigger] r@.contains_key(k) ==> cloned(self@[k], r@[k]),
            r.spec_capacity() == self.spec_capacity(),
            r.spec_hasher() == self.spec_hasher(),
            r.spec_load_percent() == self.spec_load_percent(),
    {
        let cap = self.buf.len();
        let mut fresh: Self = Self::with_slots(cap, self.hasher, self.load_percent);
        let mut i: usize = 0;
        while i < cap
            invariant
                self.wf(),
                cap == self.buf@.len(),
                i <= cap,
                fresh.wf(),
                fresh.buf@.len() == cap,
                fresh.hasher == self.hasher,
                fresh.load_percent == self.load_percent,
                forall|k: u64|
                    #[trigger] fresh@.contains_key(k) <==> self@.contains_key(k) && self.loc@[k] < i,
                forall|k: u64| #[trigger] fresh@.contains_key(k) ==> cloned(self@[k], fresh@[k]),
            decreases cap - i,
        {
            match &self.buf[i] {
                Bucket::Occupied(k, v) => {
                    proof {
                        assert(self.loc@[*k] == i);
                        assert(fresh@.dom().subset_of(self@.dom().remove(*k)));
                        vstd::set_lib::lemma_len_subset(fresh@.dom(), self@.dom().remove(*k));
                    }
                    let v2 = v.clone();
                    fresh.insert_unchecked(*k, v2);
                },
                _ => {
                    proof {
                        assert forall|k: u64| self@.contains_key(k) implies self.loc@[k] != i by {}
                    }
                },
            }
            i = i + 1;
        }
        proof {
            assert(fresh@.dom() =~= self@.dom());
        }
        fresh
    }
}

} // verus!
