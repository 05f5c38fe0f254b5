//! Hash map with two-table cuckoo hashing: every key lives in one of two
//! slots, its home slot in the first half or its home slot in the second
//! half, so a lookup reads at most two slots. An insertion that meets an
//! occupied slot evicts the resident into its other half, for a bounded
//! number of rounds; past that bound the table is rebuilt at twice the size
//! with freshly seeded hashes. Once the halves have reached their largest
//! size, an entry that still finds no slot is kept in a small stash, which
//! lookups scan after the two slots.

use crate::hashing::{is_power_of_two, lemma_top_power, round_up_to_power_of_two, KeyHash};
use vstd::arithmetic::power2::{lemma2_to64, lemma_pow2_unfold, pow2};
use crate::slots::{lemma_insert_len, lemma_remove_len};
use vstd::prelude::*;

verus! {

broadcast use crate::hashing::lemma_slot_range;

/// Load factor, in percent of both halves together, above which the table
/// grows before an insertion.
pub const DEFAULT_LOAD_PERCENT: usize = 70;

/// Number of slots of each half of the first buffers.
pub const INITIAL_CAPACITY: usize = 4;

/// Largest number of slots of one half; at it the table stops growing and
/// keeps entries that find no slot in its stash.
pub const MAX_HALF_CAPACITY: usize = 0x4000_0000;

/// Largest number of entries the table accepts.
pub const MAX_ENTRIES: usize = 0x4000_0000;

/// Whether slot content `o` holds `key`.
pub open spec fn holds<V>(o: Option<(u64, V)>, key: u64) -> bool {
    o is Some && key_of(o) == key
}

pub open spec fn key_of<V>(o: Option<(u64, V)>) -> u64 {
    (o->0).0
}

pub open spec fn value_of<V>(o: Option<(u64, V)>) -> V {
    (o->0).1
}

pub struct HashMap<V> {
    buf1: Vec<Option<(u64, V)>>,
    buf2: Vec<Option<(u64, V)>>,
    len: usize,
    hasher1: KeyHash,
    hasher2: KeyHash,
    load_percent: usize,
    /// Entries that found no slot at the largest size, kept aside.
    stash: Vec<(u64, V)>,
    skeys: Ghost<Set<u64>>,
    model: Ghost<Map<u64, V>>,
}

/// `pending` holds, once each, the entries of `m` whose keys are `keys`.
pub open spec fn pending_ok<V>(pending: Seq<(u64, V)>, keys: Set<u64>, m: Map<u64, V>) -> bool {
    &&& keys.finite()
    &&& keys.len() == pending.len()
    &&& forall|i: int|
        0 <= i < pending.len() ==> keys.contains((#[trigger] pending[i]).0) && m.contains_key(
            pending[i].0,
        ) && m[pending[i].0] == pending[i].1
    &&& forall|i: int, j: int|
        0 <= i < j < pending.len() ==> (#[trigger] pending[i]).0 != (#[trigger] pending[j]).0
}

proof fn lemma_submap_trans<V>(a: Map<u64, V>, b: Map<u64, V>, c: Map<u64, V>)
    requires
        a.submap_of(b),
        b.submap_of(c),
    ensures
        a.submap_of(c),
{
    assert forall|k: u64| #[trigger] a.contains_key(k) implies c.contains_key(k) && a[k] == c[k] by {
        assert(b.contains_key(k));
    }
}

proof fn lemma_submap_insert<V>(a: Map<u64, V>, b: Map<u64, V>, key: u64, value: V)
    requires
        a.submap_of(b),
    ensures
        a.insert(key, value).submap_of(b.insert(key, value)),
{
    assert forall|k: u64| #[trigger] a.insert(key, value).contains_key(k) implies b.insert(
        key,
        value,
    ).contains_key(k) && a.insert(key, value)[k] == b.insert(key, value)[k] by {
        if k != key {
            assert(a.contains_key(k));
        }
    }
}

/// Appending an entry of `m` with a new key keeps `pending` well formed.
proof fn lemma_pending_push<V>(p: Seq<(u64, V)>, keys: Set<u64>, m: Map<u64, V>, e: (u64, V))
    requires
        pending_ok(p, keys, m),
        !keys.contains(e.0),
        m.contains_key(e.0),
        m[e.0] == e.1,
    ensures
        pending_ok(p.push(e), keys.insert(e.0), m),
{
    let p2 = p.push(e);
    assert forall|i: int| 0 <= i < p2.len() implies keys.insert(e.0).contains((#[trigger] p2[i]).0)
        && m.contains_key(p2[i].0) && m[p2[i].0] == p2[i].1 by {
        if i < p.len() {
            assert(p2[i] == p[i]);
        }
    }
    assert forall|i: int, j: int| 0 <= i < j < p2.len() implies (#[trigger] p2[i]).0 != (#[trigger] p2[j]).0 by {
        assert(p2[i] == p[i]);
        if j < p.len() {
            assert(p2[j] == p[j]);
        } else {
            assert(keys.contains(p[i].0));
        }
    }
}

/// Every key of `keys` is the key of an entry of `pending`.
proof fn lemma_pending_covers<V>(pending: Seq<(u64, V)>, keys: Set<u64>, m: Map<u64, V>, k: u64)
    requires
        pending_ok(pending, keys, m),
        keys.contains(k),
    ensures
        exists|j: int| 0 <= j < pending.len() && (#[trigger] pending[j]).0 == k,
{
    let f = |j: int| pending[j].0;
    let idx = vstd::set_lib::set_int_range(0, pending.len() as int);
    vstd::set_lib::lemma_int_range(0, pending.len() as int);
    assert(vstd::relations::injective_on(f, idx)) by {
        assert forall|a: int, b: int| idx.contains(a) && idx.contains(b) && #[trigger] f(a) == #[trigger] f(b) implies a == b by {
            if a < b {
                assert(pending[a].0 != pending[b].0);
            } else if b < a {
                assert(pending[b].0 != pending[a].0);
            }
        }
    }
    let img = idx.map(f);
    vstd::set_lib::lemma_map_size(idx, img, f);
    assert(img.subset_of(keys)) by {
        assert forall|x: u64| img.contains(x) implies keys.contains(x) by {
            let j = choose|j: int| idx.contains(j) && f(j) == x;
            assert(keys.contains(pending[j].0));
        }
    }
    vstd::set_lib::lemma_subset_equality(img, keys);
    assert(img.contains(k));
    let j = choose|j: int| idx.contains(j) && f(j) == k;
    assert(pending[j].0 == k);
}

/// Takes the last entry out of `pending`.
fn pop_entry<V>(pending: &mut Vec<(u64, V)>, keys: Ghost<Set<u64>>, m: Ghost<Map<u64, V>>) -> (r: (
    u64,
    V,
))
    requires
        pending_ok(old(pending)@, keys@, m@),
        old(pending)@.len() > 0,
    ensures
        pending_ok(final(pending)@, keys@.remove(r.0), m@),
        final(pending)@.len() == old(pending)@.len() - 1,
        keys@.contains(r.0),
        m@.contains_key(r.0),
        m@[r.0] == r.1,
{
    let ghost before = pending@;
    let e = pending.pop().unwrap();
    proof {
        assert(before[before.len() - 1] == e);
        assert forall|i: int| 0 <= i < pending@.len() implies (#[trigger] pending@[i]).0 != e.0 by {
            assert(before[i] == pending@[i]);
        }
        assert forall|i: int| 0 <= i < pending@.len() implies keys@.remove(e.0).contains((#[trigger] pending@[i]).0) by {
            assert(before[i] == pending@[i]);
        }
        assert forall|i: int, j: int| 0 <= i < j < pending@.len() implies (#[trigger] pending@[i]).0 != (#[trigger] pending@[j]).0 by {
            assert(before[i] == pending@[i]);
            assert(before[j] == pending@[j]);
        }
    }
    e
}

/// Every table that insertions and removals leave behind keeps each entry of
/// the first half at its key's home slot under the first hash, and each entry
/// of the second half at its key's home slot under the second hash.
pub proof fn lemma_cuckoo_homes<V>(m: &HashMap<V>)
    requires
        m.wf(),
    ensures
        m.slots_at_home(),
{
}

impl<V> View for HashMap<V> {
    type V = Map<u64, V>;

    closed spec fn view(&self) -> Map<u64, V> {
        self.model@
    }
}

impl<V> HashMap<V> {
    /// Number of slots of one half.
    pub closed spec fn spec_half_capacity(&self) -> nat {
        self.buf1@.len()
    }

    pub closed spec fn spec_load_percent(&self) -> nat {
        self.load_percent as nat
    }

    /// Home slot of `key` in the first half.
    pub closed spec fn home1(&self, key: u64) -> int {
        self.hasher1.spec_home(key, self.buf1@.len())
    }

    /// Home slot of `key` in the second half.
    pub closed spec fn home2(&self, key: u64) -> int {
        self.hasher2.spec_home(key, self.buf1@.len())
    }

    /// Whether the first half holds `key` at its home slot.
    pub closed spec fn held1(&self, key: u64) -> bool {
        self.buf1@.len() > 0 && holds(self.buf1@[self.home1(key)], key)
    }

    /// Whether the second half holds `key` at its home slot.
    pub closed spec fn held2(&self, key: u64) -> bool {
        self.buf1@.len() > 0 && holds(self.buf2@[self.home2(key)], key)
    }

    /// Every occupied slot of the first half sits at the home slot of its key
    /// under the first hash, and every occupied slot of the second half at the
    /// home slot of its key under the second hash.
    pub closed spec fn slots_at_home(&self) -> bool {
        &&& forall|i: int|
            0 <= i < self.buf1@.len() && (#[trigger] self.buf1@[i]) is Some ==> i == self.home1(
                key_of(self.buf1@[i]),
            )
        &&& forall|i: int|
            0 <= i < self.buf2@.len() && (#[trigger] self.buf2@[i]) is Some ==> i == self.home2(
                key_of(self.buf2@[i]),
            )
    }

    /// The table's invariant while the entries of `missing` (keys of the
    /// model) wait outside both halves.
    pub closed spec fn placed(&self, missing: Set<u64>) -> bool {
        let t1 = self.buf1@;
        let t2 = self.buf2@;
        let m = self.model@;
        let cap = t1.len();
        &&& t2.len() == cap
        &&& cap <= MAX_HALF_CAPACITY
        &&& (cap == 0 || is_power_of_two(cap))
        &&& 0 < self.load_percent < 100
        &&& m.dom().finite()
        &&& missing.subset_of(m.dom())
        &&& m.len() <= MAX_ENTRIES
        &&& self.len + missing.len() == m.len()
        &&& self.slots_at_home()
        &&& forall|i: int|
            0 <= i < cap && (#[trigger] t1[i]) is Some ==> m.contains_key(key_of(t1[i])) && m[key_of(t1[i])]
                == value_of(t1[i]) && !missing.contains(key_of(t1[i])) && !self.held2(key_of(t1[i]))
        &&& forall|i: int|
            0 <= i < cap && (#[trigger] t2[i]) is Some ==> m.contains_key(key_of(t2[i])) && m[key_of(t2[i])]
                == value_of(t2[i]) && !missing.contains(key_of(t2[i]))
        &&& forall|k: u64| #[trigger]
            m.contains_key(k) && !missing.contains(k) ==> self.held1(k) || self.held2(k)
    }

    /// The table's invariant: every entry sits at a home slot of its key,
    /// but for the entries of the stash.
    pub closed spec fn wf(&self) -> bool {
        &&& self.placed(self.skeys@)
        &&& pending_ok(self.stash@, self.skeys@, self.model@)
    }

    /// A well-formed table holds finitely many entries in halves whose size
    /// is zero or a power of two.
    pub proof fn lemma_wf_shape(&self)
        requires
            self.wf(),
        ensures
            self@.dom().finite(),
            self.spec_half_capacity() == 0 || is_power_of_two(self.spec_half_capacity()),
    {
    }

    /// `cap` empty slots.
    fn empty_slots(cap: usize) -> (r: Vec<Option<(u64, V)>>)
        ensures
            r@.len() == cap,
            forall|i: int| 0 <= i < cap ==> (#[trigger] r@[i]) is None,
    {
        let mut buf: Vec<Option<(u64, V)>> = Vec::with_capacity(cap);
        while buf.len() < cap
            invariant
                buf@.len() <= cap,
                forall|i: int| 0 <= i < buf@.len() ==> (#[trigger] buf@[i]) is None,
            decreases cap - buf@.len(),
        {
            buf.push(None);
        }
        buf
    }

    /// An empty table with halves of `cap` slots.
    fn with_parts(cap: usize, hasher1: KeyHash, hasher2: KeyHash, load_percent: usize) -> (r: Self)
        requires
            0 < load_percent < 100,
            cap <= MAX_HALF_CAPACITY,
            cap == 0 || is_power_of_two(cap as nat),
        ensures
            r.wf(),
            r@ == Map::<u64, V>::empty(),
            r.spec_half_capacity() == cap,
            r.hasher1 == hasher1,
            r.hasher2 == hasher2,
            r.load_percent == load_percent,
    {
        let r = HashMap {
            buf1: Self::empty_slots(cap),
            buf2: Self::empty_slots(cap),
            len: 0,
            hasher1,
            hasher2,
            load_percent,
            stash: Vec::new(),
            skeys: Ghost(Set::empty()),
            model: Ghost(Map::empty()),
        };
        assert(r.model@.dom() =~= Set::<u64>::empty());
        r
    }

    /// Half capacity that holds `n` entries under `load_percent` without
    /// growing: `n` over the load factor, split over two halves, rounded up to
    /// a power of two.
    fn half_capacity_for(n: usize, load_percent: usize) -> (r: usize)
        requires
            0 < load_percent < 100,
        ensures
            r <= MAX_HALF_CAPACITY,
            r == 0 || is_power_of_two(r as nat),
            n == 0 <==> r == 0,
            0 < n && r < MAX_HALF_CAPACITY ==> n * 100 < 2 * r * load_percent,
    {
        if n == 0 {
            return 0;
        }
        let want: u128 = (n as u128) * 100 / (2 * load_percent as u128) + 1;
        proof {
            let d = 2 * load_percent as int;
            let x = (n as u128) * 100;
            vstd::arithmetic::div_mod::lemma_fundamental_div_mod(x as int, d);
            vstd::arithmetic::div_mod::lemma_mod_bound(x as int, d);
            assert(want as int * d > x) by (nonlinear_arith)
                requires
                    x == d * (x / d) + x % d,
                    x % d < d,
                    want == x / d + 1,
            ;
        }
        if want >= MAX_HALF_CAPACITY as u128 {
            proof {
                lemma2_to64();
                assert(pow2(30) == MAX_HALF_CAPACITY);
            }
            MAX_HALF_CAPACITY
        } else {
            let r = round_up_to_power_of_two(want as usize);
            proof {
                assert(n * 100 < 2 * r * load_percent) by (nonlinear_arith)
                    requires
                        r >= want,
                        load_percent > 0,
                        want * (2 * load_percent) > n * 100,
                ;
            }
            if r > MAX_HALF_CAPACITY {
                proof {
                    lemma2_to64();
                    assert(pow2(30) == MAX_HALF_CAPACITY);
                }
                MAX_HALF_CAPACITY
            } else {
                r
            }
        }
    }

    /// An empty table with the default load factor and random hash seeds;
    /// nothing is allocated until the first insertion.
    pub fn new() -> (r: Self)
        ensures
            r.wf(),
            r@ == Map::<u64, V>::empty(),
            r.spec_half_capacity() == 0,
            r.spec_load_percent() == DEFAULT_LOAD_PERCENT,
    {
        Self::with_load_factor(DEFAULT_LOAD_PERCENT)
    }

    /// An empty table that grows once more than `load_percent` percent of the
    /// slots of both halves are taken.
    pub fn with_load_factor(load_percent: usize) -> (r: Self)
        requires
            0 < load_percent < 100,
        ensures
            r.wf(),
            r@ == Map::<u64, V>::empty(),
            r.spec_half_capacity() == 0,
            r.spec_load_percent() == load_percent,
    {
        Self::with_capacity_and_load_factor(0, load_percent)
    }

    /// An empty table with room for `capacity` entries without growing.
    pub fn with_capacity(capacity: usize) -> (r: Self)
        ensures
            r.wf(),
            r@ == Map::<u64, V>::empty(),
            r.spec_load_percent() == DEFAULT_LOAD_PERCENT,
            capacity == 0 <==> r.spec_half_capacity() == 0,
            r.spec_half_capacity() == 0 || is_power_of_two(r.spec_half_capacity()),
            0 < capacity && r.spec_half_capacity() < MAX_HALF_CAPACITY ==> capacity * 100 < 2
                * r.spec_half_capacity() * DEFAULT_LOAD_PERCENT,
    {
        Self::with_capacity_and_load_factor(capacity, DEFAULT_LOAD_PERCENT)
    }

    /// An empty table with room for `capacity` entries without growing, that
    /// grows once more than `load_percent` percent of its slots are taken.
    pub fn with_capacity_and_load_factor(capacity: usize, load_percent: usize) -> (r: Self)
        requires
            0 < load_percent < 100,
        ensures
            r.wf(),
            r@ == Map::<u64, V>::empty(),
            r.spec_load_percent() == load_percent,
            capacity == 0 <==> r.spec_half_capacity() == 0,
            r.spec_half_capacity() == 0 || is_power_of_two(r.spec_half_capacity()),
            0 < capacity && r.spec_half_capacity() < MAX_HALF_CAPACITY ==> capacity * 100 < 2
                * r.spec_half_capacity() * load_percent,
    {
        let cap = Self::half_capacity_for(capacity, load_percent);
        Self::with_parts(cap, KeyHash::random(), KeyHash::random(), load_percent)
    }

    /// An empty table that hashes keys with `hasher1` for the first half and
    /// `hasher2` for the second.
    pub fn with_hashers_and_load_factor(hasher1: KeyHash, hasher2: KeyHash, load_percent: usize) -> (r: Self)
        requires
            0 < load_percent < 100,
        ensures
            r.wf(),
            r@ == Map::<u64, V>::empty(),
            r.spec_half_capacity() == 0,
            r.spec_load_percent() == load_percent,
    {
        Self::with_parts(0, hasher1, hasher2, load_percent)
    }

    pub fn len(&self) -> (r: usize)
        requires
            self.wf(),
        ensures
            r == self@.len(),
    {
        self.len + self.stash.len()
    }

    pub fn is_empty(&self) -> (r: bool)
        requires
            self.wf(),
        ensures
            r <==> self@.len() == 0,
    {
        self.len == 0 && self.stash.len() == 0
    }

    /// The index in the stash of `key`, if any.
    fn find_in_stash(&self, key: u64) -> (r: Option<usize>)
        requires
            self.wf(),
        ensures
            match r {
                Some(j) => j < self.stash@.len() && self.stash@[j as int].0 == key,
                None => !self.skeys@.contains(key),
            },
    {
        let mut j: usize = 0;
        while j < self.stash.len()
            invariant
                self.wf(),
                j <= self.stash@.len(),
                forall|t: int| 0 <= t < j ==> (#[trigger] self.stash@[t]).0 != key,
            decreases self.stash@.len() - j,
        {
            if self.stash[j].0 == key {
                return Some(j);
            }
            j = j + 1;
        }
        proof {
            if self.skeys@.contains(key) {
                lemma_pending_covers(self.stash@, self.skeys@, self.model@, key);
            }
        }
        None
    }

    /// Number of slots of both halves together.
    pub fn capacity(&self) -> (r: usize)
        requires
            self.wf(),
        ensures
            r == 2 * self.spec_half_capacity(),
    {
        self.buf1.len() * 2
    }

    /// The stored key and value of `key`, if present: its home slot in the
    /// first half, else its home slot in the second half.
    pub fn get(&self, key: &u64) -> (r: Option<(&u64, &V)>)
        requires
            self.wf(),
        ensures
            r is Some <==> self@.contains_key(*key),
            r matches Some((k, v)) ==> *k == *key && *v == self@[*key],
    {
        let cap = self.buf1.len();
        if cap > 0 {
            let i1 = self.hasher1.home(*key, cap);
            if let Some((k, v)) = &self.buf1[i1] {
                if *k == *key {
                    return Some((k, v));
                }
            }
            let i2 = self.hasher2.home(*key, cap);
            if let Some((k, v)) = &self.buf2[i2] {
                if *k == *key {
                    return Some((k, v));
                }
            }
        }
        match self.find_in_stash(*key) {
            Some(j) => {
                let e = &self.stash[j];
                Some((&e.0, &e.1))
            },
            None => None,
        }
    }

    /// Removes `key` and returns its entry.
    pub fn remove(&mut self, key: &u64) -> (r: Option<(u64, V)>)
        requires
            old(self).wf(),
        ensures
            final(self).wf(),
            final(self)@ == old(self)@.remove(*key),
            final(self)@.len() == old(self)@.len() - (if r is Some {
                1int
            } else {
                0int
            }),
            final(self).spec_half_capacity() == old(self).spec_half_capacity(),
            match r {
                Some((k, v)) => old(self)@.contains_key(*key) && k == *key && v == old(self)@[*key],
                None => !old(self)@.contains_key(*key),
            },
            final(self).slots_at_home(),
    {
        proof {
            lemma_remove_len(self@, *key);
        }
        let cap = self.buf1.len();
        if cap > 0 {
            let i1 = self.hasher1.home(*key, cap);
            let in1 = match &self.buf1[i1] {
                Some((k, _)) => *k == *key,
                None => false,
            };
            if in1 {
                return self.take_half(true, i1, *key);
            }
            let i2 = self.hasher2.home(*key, cap);
            let in2 = match &self.buf2[i2] {
                Some((k, _)) => *k == *key,
                None => false,
            };
            if in2 {
                return self.take_half(false, i2, *key);
            }
        }
        match self.find_in_stash(*key) {
            Some(j) => self.take_stash(j, *key),
            None => {
                proof {
                    if self.model@.contains_key(*key) {
                        assert(self.held1(*key) || self.held2(*key));
                    }
                    assert(self.model@.remove(*key) =~= self.model@);
                }
                None
            },
        }
    }

    /// Empties slot `i` of the first half (`first`) or of the second, which
    /// holds `key` at its home slot, and returns the entry.
    fn take_half(&mut self, first: bool, i: usize, key: u64) -> (r: Option<(u64, V)>)
        requires
            old(self).wf(),
            old(self).buf1@.len() > 0,
            first ==> i == old(self).home1(key) && old(self).held1(key),
            !first ==> i == old(self).home2(key) && old(self).held2(key),
        ensures
            final(self).wf(),
            final(self)@ == old(self)@.remove(key),
            final(self).buf1@.len() == old(self).buf1@.len(),
            r == Some((key, old(self)@[key])),
    {
        let ghost m = self.model@;
        let ghost t1 = self.buf1@;
        let ghost t2 = self.buf2@;
        let ghost cap = t1.len();
        let mut slot = None;
        if first {
            self.buf1.set_and_swap(i, &mut slot);
        } else {
            self.buf2.set_and_swap(i, &mut slot);
        }
        proof {
            assert(!self.skeys@.contains(key));
            assert(self.skeys@.insert(key).subset_of(m.dom()));
            vstd::set_lib::lemma_len_subset(self.skeys@.insert(key), m.dom());
        }
        self.len = self.len - 1;
        proof {
            self.model@ = m.remove(key);
            assert(self.model@.dom() =~= m.dom().remove(key));
            assert forall|j: int| 0 <= j < cap && (#[trigger] self.buf1@[j]) is Some implies key_of(self.buf1@[j]) != key by {
                assert(t1[j] is Some);
            }
            assert forall|j: int| 0 <= j < cap && (#[trigger] self.buf2@[j]) is Some implies key_of(self.buf2@[j]) != key by {
                assert(t2[j] is Some);
            }
            assert forall|j: int| 0 <= j < self.stash@.len() implies (#[trigger] self.stash@[j]).0 != key by {
                assert(self.skeys@.contains(self.stash@[j].0));
            }
        }
        match slot {
            Some((k, v)) => Some((k, v)),
            None => None,
        }
    }

    /// Takes entry `j` of the stash, which holds `key`.
    fn take_stash(&mut self, j: usize, key: u64) -> (r: Option<(u64, V)>)
        requires
            old(self).wf(),
            j < old(self).stash@.len(),
            old(self).stash@[j as int].0 == key,
        ensures
            final(self).wf(),
            final(self)@ == old(self)@.remove(key),
            final(self).buf1@.len() == old(self).buf1@.len(),
            r == Some((key, old(self)@[key])),
    {
        let ghost m = self.model@;
        let ghost st = self.stash@;
        let ghost sk = self.skeys@;
        let e = self.stash.swap_remove(j);
        proof {
            self.model@ = m.remove(key);
            self.skeys@ = sk.remove(key);
            assert(self.model@.dom() =~= m.dom().remove(key));
            assert(sk.contains(key));
            let s2 = self.stash@;
            assert forall|t: int| 0 <= t < s2.len() implies (#[trigger] s2[t]).0 != key && s2[t] == st[if t == j {
                st.len() - 1
            } else {
                t
            }] by {
                if t == j {
                    assert(st[st.len() - 1].0 != st[j as int].0);
                } else {
                    if t < j {
                        assert(st[t].0 != st[j as int].0);
                    } else {
                        assert(st[j as int].0 != st[t].0);
                    }
                }
            }
            assert forall|a: int, b: int| 0 <= a < b < s2.len() implies (#[trigger] s2[a]).0 != (#[trigger] s2[b]).0 by {
                let ia = if a == j { st.len() - 1 } else { a };
                let ib = if b == j { st.len() - 1 } else { b };
                assert(s2[a] == st[ia]);
                assert(s2[b] == st[ib]);
                if ia < ib {
                    assert(st[ia].0 != st[ib].0);
                } else {
                    assert(st[ib].0 != st[ia].0);
                }
            }
        }
        Some(e)
    }

    /// Places `entry`, which waits outside the halves, by the bounded
    /// eviction walk: into its home slot of the first half, the evicted
    /// resident into its home slot of the second half, and so on, for at most
    /// as many rounds as a half has slots. Returns the entry left without a
    /// slot when the walk runs out.
    fn evict_chain(&mut self, entry: (u64, V), missing: Ghost<Set<u64>>) -> (r: Option<(u64, V)>)
        requires
            old(self).placed(missing@),
            old(self).buf1@.len() > 0,
            missing@.contains(entry.0),
            old(self).model@[entry.0] == entry.1,
        ensures
            final(self).stash == old(self).stash,
            final(self).skeys == old(self).skeys,
            final(self).model@ == old(self).model@,
            final(self).buf1@.len() == old(self).buf1@.len(),
            final(self).hasher1 == old(self).hasher1,
            final(self).hasher2 == old(self).hasher2,
            final(self).load_percent == old(self).load_percent,
            match r {
                None => final(self).placed(missing@.remove(entry.0)),
                Some(left) => {
                    &&& final(self).placed(missing@.remove(entry.0).insert(left.0))
                    &&& !missing@.remove(entry.0).contains(left.0)
                    &&& old(self).model@.contains_key(left.0)
                    &&& old(self).model@[left.0] == left.1
                },
            },
    {
        let cap = self.buf1.len();
        let ghost rest = missing@.remove(entry.0);
        let ghost m = self.model@;
        proof {
            assert(missing@ == rest.insert(entry.0));
        }
        let mut carried = entry;
        let mut n: usize = 0;
        while n < cap
            invariant
                self.placed(rest.insert(carried.0)),
                !rest.contains(carried.0),
                m.contains_key(carried.0),
                m[carried.0] == carried.1,
                self.model@ == m,
                m == old(self).model@,
                self.stash == old(self).stash,
                self.skeys == old(self).skeys,
                rest == missing@.remove(entry.0),
                self.buf1@.len() == cap,
                cap == old(self).buf1@.len(),
                cap > 0,
                self.hasher1 == old(self).hasher1,
                self.hasher2 == old(self).hasher2,
                self.load_percent == old(self).load_percent,
            decreases cap - n,
        {
            match self.place_first(carried, Ghost(rest)) {
                None => {
                    return None;
                },
                Some(ev) => {
                    carried = ev;
                },
            }
            match self.place_second(carried, Ghost(rest)) {
                None => {
                    return None;
                },
                Some(ev) => {
                    carried = ev;
                },
            }
            n = n + 1;
        }
        Some(carried)
    }

    /// Puts `carried` into its home slot of the first half and returns the
    /// resident it evicts, if any.
    fn place_first(&mut self, carried: (u64, V), rest: Ghost<Set<u64>>) -> (r: Option<(u64, V)>)
        requires
            old(self).placed(rest@.insert(carried.0)),
            !rest@.contains(carried.0),
            old(self).model@.contains_key(carried.0),
            old(self).model@[carried.0] == carried.1,
            old(self).buf1@.len() > 0,
        ensures
            final(self).stash == old(self).stash,
            final(self).skeys == old(self).skeys,
            final(self).model@ == old(self).model@,
            final(self).buf1@.len() == old(self).buf1@.len(),
            final(self).hasher1 == old(self).hasher1,
            final(self).hasher2 == old(self).hasher2,
            final(self).load_percent == old(self).load_percent,
            match r {
                None => final(self).placed(rest@),
                Some(e) => {
                    &&& final(self).placed(rest@.insert(e.0))
                    &&& !rest@.contains(e.0)
                    &&& old(self).model@.contains_key(e.0)
                    &&& old(self).model@[e.0] == e.1
                },
            },
    {
        let ghost rest = rest@;
        let cap = self.buf1.len();
        let ghost c = carried.0;
        let ghost t1 = self.buf1@;
        let i1 = self.hasher1.home(carried.0, cap);
        let mut slot = Some(carried);
        self.buf1.set_and_swap(i1, &mut slot);
        proof {
            assert(rest.insert(c).remove(c) =~= rest);
            assert(rest.insert(c).len() == rest.len() + 1);
            assert(!self.held2(c));
        }
        match slot {
            None => {
                self.len = self.len + 1;
                proof {
                    assert forall|i: int| 0 <= i < cap && (#[trigger] self.buf1@[i]) is Some implies !self.held2(key_of(self.buf1@[i])) by {
                        if i != i1 {
                            assert(t1[i] is Some);
                        }
                    }
                }
                None
            },
            Some(ev) => {
                proof {
                    let e = ev.0;
                    assert(t1[i1 as int] is Some);
                    assert(key_of(t1[i1 as int]) == e);
                    assert(e != c);
                    assert(!rest.contains(e));
                    assert(rest.insert(e).remove(e) =~= rest);
                    assert(rest.insert(e).len() == rest.len() + 1);
                    assert(!self.held1(e));
                    assert forall|i: int| 0 <= i < cap && (#[trigger] self.buf1@[i]) is Some implies !self.held2(key_of(self.buf1@[i])) by {
                        if i != i1 {
                            assert(t1[i] is Some);
                        }
                    }
                }
                Some(ev)
            },
        }
    }

    /// Puts `carried`, which the first half does not hold, into its home slot
    /// of the second half and returns the resident it evicts, if any.
    fn place_second(&mut self, carried: (u64, V), rest: Ghost<Set<u64>>) -> (r: Option<(u64, V)>)
        requires
            old(self).placed(rest@.insert(carried.0)),
            !rest@.contains(carried.0),
            old(self).model@.contains_key(carried.0),
            old(self).model@[carried.0] == carried.1,
            old(self).buf1@.len() > 0,
        ensures
            final(self).stash == old(self).stash,
            final(self).skeys == old(self).skeys,
            final(self).model@ == old(self).model@,
            final(self).buf1@.len() == old(self).buf1@.len(),
            final(self).hasher1 == old(self).hasher1,
            final(self).hasher2 == old(self).hasher2,
            final(self).load_percent == old(self).load_percent,
            match r {
                None => final(self).placed(rest@),
                Some(e) => {
                    &&& final(self).placed(rest@.insert(e.0))
                    &&& !rest@.contains(e.0)
                    &&& old(self).model@.contains_key(e.0)
                    &&& old(self).model@[e.0] == e.1
                },
            },
    {
        let ghost rest = rest@;
        let cap = self.buf1.len();
        let ghost c = carried.0;
        let ghost u1 = self.buf1@;
        let ghost u2 = self.buf2@;
        let i2 = self.hasher2.home(carried.0, cap);
        let mut slot = Some(carried);
        self.buf2.set_and_swap(i2, &mut slot);
        proof {
            assert(rest.insert(c).remove(c) =~= rest);
            assert(rest.insert(c).len() == rest.len() + 1);
            assert(!self.held1(c));
        }
        match slot {
            None => {
                self.len = self.len + 1;
                proof {
                    assert forall|i: int| 0 <= i < cap && (#[trigger] self.buf1@[i]) is Some implies !self.held2(key_of(self.buf1@[i])) by {
                        assert(u1[i] is Some);
                    }
                }
                None
            },
            Some(ev) => {
                proof {
                    let e = ev.0;
                    assert(u2[i2 as int] is Some);
                    assert(key_of(u2[i2 as int]) == e);
                    assert(e != c);
                    assert(!rest.contains(e));
                    assert(rest.insert(e).remove(e) =~= rest);
                    assert(rest.insert(e).len() == rest.len() + 1);
                    assert(!self.held2(e));
                    assert forall|i: int| 0 <= i < cap && (#[trigger] self.buf1@[i]) is Some implies !self.held2(key_of(self.buf1@[i])) by {
                        assert(u1[i] is Some);
                    }
                }
                Some(ev)
            },
        }
    }

    /// Empties both halves into `pending` and gives the table empty halves of
    /// `cap` slots, hashed by `hasher1` and `hasher2`.
    #[verifier::rlimit(40)]
    fn rebuild(
        &mut self,
        pending: &mut Vec<(u64, V)>,
        pk: Ghost<Set<u64>>,
        cap: usize,
        hasher1: KeyHash,
        hasher2: KeyHash,
    )
        requires
            old(self).placed(pk@.union(old(self).skeys@)),
            pk@.disjoint(old(self).skeys@),
            pending_ok(old(pending)@, pk@, old(self).model@),
            0 < cap <= MAX_HALF_CAPACITY,
            is_power_of_two(cap as nat),
        ensures
            final(self).placed(old(self).model@.dom()),
            final(self).model@ == old(self).model@,
            pending_ok(
                final(pending)@,
                old(self).model@.dom().difference(old(self).skeys@),
                old(self).model@,
            ),
            final(self).stash == old(self).stash,
            final(self).skeys == old(self).skeys,
            final(self).buf1@.len() == cap,
            final(self).hasher1 == hasher1,
            final(self).hasher2 == hasher2,
            final(self).load_percent == old(self).load_percent,
    {
        let mut old1: Vec<Option<(u64, V)>> = Vec::new();
        std::mem::swap(&mut old1, &mut self.buf1);
        let mut old2: Vec<Option<(u64, V)>> = Vec::new();
        std::mem::swap(&mut old2, &mut self.buf2);
        let ghost s1 = old1@;
        let ghost s2 = old2@;
        let ghost m = self.model@;
        let ghost ocap = s1.len();
        let ghost oh1 = self.hasher1;
        let ghost oh2 = self.hasher2;
        let ghost sk = self.skeys@;
        let ghost mut keys = pk@;
        proof {
            vstd::set_lib::lemma_set_subset_finite(m.dom(), keys);
        }
        while old1.len() > 0
            invariant
                pending_ok(pending@, keys, m),
                keys.subset_of(m.dom()),
                m.dom().finite(),
                s1.len() == ocap,
                s2.len() == ocap,
                old1@.len() <= ocap,
                old1@ =~= s1.subrange(0, old1@.len() as int),
                forall|i: int|
                    0 <= i < ocap && (#[trigger] s1[i]) is Some ==> i == oh1.spec_home(key_of(s1[i]), ocap)
                        && m.contains_key(key_of(s1[i])) && m[key_of(s1[i])] == value_of(s1[i])
                        && !holds(s2[oh2.spec_home(key_of(s1[i]), ocap)], key_of(s1[i]))
                        && !sk.contains(key_of(s1[i])),
                forall|i: int|
                    0 <= i < ocap && (#[trigger] s2[i]) is Some ==> i == oh2.spec_home(key_of(s2[i]), ocap)
                        && m.contains_key(key_of(s2[i])) && m[key_of(s2[i])] == value_of(s2[i])
                        && !keys.contains(key_of(s2[i])) && !sk.contains(key_of(s2[i])),
                keys.disjoint(sk),
                forall|i: int|
                    0 <= i < old1@.len() && (#[trigger] s1[i]) is Some ==> !keys.contains(key_of(s1[i])),
                forall|k: u64| #[trigger]
                    m.contains_key(k) ==> keys.contains(k) || sk.contains(k) || (ocap > 0 && oh1.spec_home(k, ocap)
                        < old1@.len() && holds(s1[oh1.spec_home(k, ocap)], k)) || (ocap > 0 && holds(
                        s2[oh2.spec_home(k, ocap)],
                        k,
                    )),
            decreases old1@.len(),
        {
            let ghost prev = old1@;
            let b = old1.pop().unwrap();
            let ghost i = old1@.len() as int;
            proof {
                assert(prev[i] == s1[i]);
                assert(old1@ =~= s1.subrange(0, i));
            }
            if let Some(e) = b {
                proof {
                    assert(!keys.contains(e.0));
                    keys = keys.insert(e.0);
                }
                pending.push(e);
            }
        }
        while old2.len() > 0
            invariant
                pending_ok(pending@, keys, m),
                keys.subset_of(m.dom()),
                m.dom().finite(),
                old2@.len() <= ocap,
                s2.len() == ocap,
                old2@ =~= s2.subrange(0, old2@.len() as int),
                forall|i: int|
                    0 <= i < ocap && (#[trigger] s2[i]) is Some ==> i == oh2.spec_home(key_of(s2[i]), ocap)
                        && m.contains_key(key_of(s2[i])) && m[key_of(s2[i])] == value_of(s2[i])
                        && !sk.contains(key_of(s2[i])),
                keys.disjoint(sk),
                forall|i: int|
                    0 <= i < old2@.len() && (#[trigger] s2[i]) is Some ==> !keys.contains(key_of(s2[i])),
                forall|k: u64| #[trigger]
                    m.contains_key(k) ==> keys.contains(k) || sk.contains(k) || (ocap > 0 && oh2.spec_home(k, ocap)
                        < old2@.len() && holds(s2[oh2.spec_home(k, ocap)], k)),
            decreases old2@.len(),
        {
            let ghost prev = old2@;
            let b = old2.pop().unwrap();
            let ghost i = old2@.len() as int;
            proof {
                assert(prev[i] == s2[i]);
                assert(old2@ =~= s2.subrange(0, i));
            }
            if let Some(e) = b {
                proof {
                    assert(!keys.contains(e.0));
                    keys = keys.insert(e.0);
                }
                pending.push(e);
            }
        }
        proof {
            assert(keys =~= m.dom().difference(sk));
        }
        self.buf1 = Self::empty_slots(cap);
        self.buf2 = Self::empty_slots(cap);
        self.len = 0;
        self.hasher1 = hasher1;
        self.hasher2 = hasher2;
    }

    /// Keeps the entry `e`, which waits outside the halves, in the stash.
    fn stash_push(&mut self, e: (u64, V), rest: Ghost<Set<u64>>)
        requires
            old(self).placed(rest@.insert(e.0)),
            !rest@.contains(e.0),
            old(self).skeys@.subset_of(rest@),
            pending_ok(old(self).stash@, old(self).skeys@, old(self).model@),
            old(self).model@.contains_key(e.0),
            old(self).model@[e.0] == e.1,
        ensures
            final(self).placed(rest@.insert(e.0)),
            final(self).skeys@ == old(self).skeys@.insert(e.0),
            pending_ok(final(self).stash@, final(self).skeys@, final(self).model@),
            final(self).model@ == old(self).model@,
            final(self).buf1@.len() == old(self).buf1@.len(),
            final(self).load_percent == old(self).load_percent,
    {
        let ghost st = self.stash@;
        let ghost sk = self.skeys@;
        self.stash.push(e);
        proof {
            self.skeys@ = sk.insert(e.0);
            assert(!sk.contains(e.0));
            let s2 = self.stash@;
            assert forall|i: int| 0 <= i < s2.len() implies self.skeys@.contains((#[trigger] s2[i]).0)
                && self.model@.contains_key(s2[i].0) && self.model@[s2[i].0] == s2[i].1 by {
                if i < st.len() {
                    assert(s2[i] == st[i]);
                }
            }
            assert forall|i: int, j: int| 0 <= i < j < s2.len() implies (#[trigger] s2[i]).0 != (#[trigger] s2[j]).0 by {
                assert(s2[i] == st[i]);
                if j < st.len() {
                    assert(s2[j] == st[j]);
                } else {
                    assert(sk.contains(st[i].0));
                }
            }
        }
    }

    /// Places the last entry of `pending` by an eviction walk. When the walk
    /// runs out, the table is rebuilt at twice the size with freshly seeded
    /// hashes, its entries joining `pending`; at the largest size, the entry
    /// left without a slot goes to the stash. Returns the keys then waiting
    /// in `pending`.
    fn place_one(&mut self, pending: &mut Vec<(u64, V)>, pk: Ghost<Set<u64>>) -> (r: Ghost<
        Set<u64>,
    >)
        requires
            old(self).placed(pk@.union(old(self).skeys@)),
            pk@.disjoint(old(self).skeys@),
            pending_ok(old(pending)@, pk@, old(self).model@),
            pending_ok(old(self).stash@, old(self).skeys@, old(self).model@),
            old(pending)@.len() > 0,
            old(self).buf1@.len() > 0,
        ensures
            final(self).placed(r@.union(final(self).skeys@)),
            r@.disjoint(final(self).skeys@),
            pending_ok(final(pending)@, r@, final(self).model@),
            pending_ok(final(self).stash@, final(self).skeys@, final(self).model@),
            final(self).buf1@.len() >= old(self).buf1@.len(),
            final(self).buf1@.len() > old(self).buf1@.len() || final(pending)@.len() < old(
                pending,
            )@.len(),
            final(self).load_percent == old(self).load_percent,
            final(self).model@ == old(self).model@,
    {
        let ghost pk = pk@;
        let ghost sk = self.skeys@;
        let ghost m = self.model@;
        let e = pop_entry(pending, Ghost(pk), Ghost(m));
        let ghost missing = pk.union(sk);
        let left = self.evict_chain(e, Ghost(missing));
        let ghost rest = missing.remove(e.0);
        proof {
            assert(!sk.contains(e.0));
            assert(rest =~= pk.remove(e.0).union(sk));
            assert(pk.remove(e.0).disjoint(sk));
        }
        match left {
            None => Ghost(pk.remove(e.0)),
            Some(left) => self.resettle(pending, left, Ghost(pk.remove(e.0))),
        }
    }

    /// Handles `left`, the entry an eviction walk left without a slot while
    /// the entries of `pk` wait in `pending`: rebuilds the table at twice the
    /// size with freshly seeded hashes and queues its entries, or at the
    /// largest size keeps `left` in the stash. Returns the keys then waiting
    /// in `pending`.
    fn resettle(&mut self, pending: &mut Vec<(u64, V)>, left: (u64, V), pk: Ghost<Set<u64>>) -> (r: Ghost<
        Set<u64>,
    >)
        requires
            old(self).placed(pk@.union(old(self).skeys@).insert(left.0)),
            !pk@.contains(left.0),
            !old(self).skeys@.contains(left.0),
            pk@.disjoint(old(self).skeys@),
            pending_ok(old(pending)@, pk@, old(self).model@),
            pending_ok(old(self).stash@, old(self).skeys@, old(self).model@),
            old(self).model@.contains_key(left.0),
            old(self).model@[left.0] == left.1,
            old(self).buf1@.len() > 0,
        ensures
            final(self).placed(r@.union(final(self).skeys@)),
            r@.disjoint(final(self).skeys@),
            pending_ok(final(pending)@, r@, final(self).model@),
            pending_ok(final(self).stash@, final(self).skeys@, final(self).model@),
            final(self).buf1@.len() >= old(self).buf1@.len(),
            final(self).buf1@.len() > old(self).buf1@.len() || final(pending)@.len() <= old(
                pending,
            )@.len(),
            final(self).load_percent == old(self).load_percent,
            final(self).model@ == old(self).model@,
    {
        let ghost pk = pk@;
        let ghost sk = self.skeys@;
        let ghost m = self.model@;
        let cap = self.buf1.len();
        if cap <= MAX_HALF_CAPACITY / 2 {
            proof {
                lemma_pending_push(pending@, pk, m, left);
                assert(pk.union(sk).insert(left.0) =~= pk.insert(left.0).union(sk));
            }
            pending.push(left);
            proof {
                let e = choose|e: nat| pow2(e) == cap as nat;
                lemma_pow2_unfold(e + 1);
            }
            self.rebuild(pending, Ghost(pk.insert(left.0)), cap * 2, KeyHash::random(), KeyHash::random());
            proof {
                assert(m.dom().difference(sk).union(sk) =~= m.dom());
            }
            Ghost(m.dom().difference(sk))
        } else {
            proof {
                lemma_top_power(cap as nat);
                assert(sk.subset_of(pk.union(sk)));
            }
            self.stash_push(left, Ghost(pk.union(sk)));
            proof {
                assert(pk.union(sk).insert(left.0) =~= pk.union(sk.insert(left.0)));
            }
            Ghost(pk)
        }
    }

    /// Places every entry of `pending`, as `place_one` does.
    fn place_all(&mut self, pending: Vec<(u64, V)>, pk: Ghost<Set<u64>>)
        requires
            old(self).placed(pk@.union(old(self).skeys@)),
            pk@.disjoint(old(self).skeys@),
            pending_ok(pending@, pk@, old(self).model@),
            pending_ok(old(self).stash@, old(self).skeys@, old(self).model@),
            old(self).buf1@.len() > 0,
        ensures
            final(self).wf(),
            final(self).model@ == old(self).model@,
            final(self).buf1@.len() >= old(self).buf1@.len(),
            final(self).load_percent == old(self).load_percent,
    {
        let mut pending = pending;
        let ghost mut pk = pk@;
        while pending.len() > 0
            invariant
                self.placed(pk.union(self.skeys@)),
                pk.disjoint(self.skeys@),
                pending_ok(pending@, pk, self.model@),
                pending_ok(self.stash@, self.skeys@, self.model@),
                self.buf1@.len() > 0,
                self.buf1@.len() >= old(self).buf1@.len(),
                self.load_percent == old(self).load_percent,
                self.model@ == old(self).model@,
            decreases MAX_HALF_CAPACITY - self.buf1@.len(), pending@.len(),
        {
            let r = self.place_one(&mut pending, Ghost(pk));
            proof {
                pk = r@;
            }
        }
        proof {
            assert(pk =~= Set::<u64>::empty());
            assert(pk.union(self.skeys@) =~= self.skeys@);
        }
    }

    /// Overwrites the entry of `key`, which its home slot of the first half
    /// (`first`) or of the second half holds at `i`.
    fn replace_at(&mut self, first: bool, i: usize, key: u64, value: V) -> (r: Option<(u64, V)>)
        requires
            old(self).wf(),
            old(self).buf1@.len() > 0,
            first ==> i == old(self).home1(key) && old(self).held1(key),
            !first ==> i == old(self).home2(key) && old(self).held2(key),
        ensures
            final(self).wf(),
            final(self)@ == old(self)@.insert(key, value),
            final(self).buf1@.len() == old(self).buf1@.len(),
            final(self).load_percent == old(self).load_percent,
            r == Some((key, old(self)@[key])),
    {
        let ghost m = self.model@;
        let ghost t1 = self.buf1@;
        let ghost t2 = self.buf2@;
        let mut slot = Some((key, value));
        if first {
            self.buf1.set_and_swap(i, &mut slot);
        } else {
            self.buf2.set_and_swap(i, &mut slot);
        }
        proof {
            self.model@ = m.insert(key, value);
            assert(self.model@.dom() =~= m.dom());
            assert forall|j: int| 0 <= j < t1.len() && (#[trigger] self.buf1@[j]) is Some implies !self.held2(key_of(self.buf1@[j])) by {
                assert(t1[j] is Some);
            }
        }
        slot
    }

    /// Whether the next insertion of a new key must first grow the table.
    fn needs_grow(&self) -> (r: bool)
        requires
            self.wf(),
        ensures
            r ==> self.buf1@.len() <= MAX_HALF_CAPACITY / 2,
            !r ==> self.buf1@.len() > 0,
    {
        let cap = self.buf1.len();
        proof {
            let c = cap as u64;
            let p = self.load_percent as u64;
            assert(c <= 0x4000_0000 && p < 100 ==> 2 * c * p <= 2 * 0x4000_0000 * 100) by (nonlinear_arith);
        }
        cap == 0 || (cap <= MAX_HALF_CAPACITY / 2 && (self.len as u64) * 100 > 2 * (cap as u64) * (
        self.load_percent as u64))
    }

    /// Rebuilds the table with halves of twice the slots (or
    /// `INITIAL_CAPACITY` slots for a table that has none), keeping its
    /// hashes.
    fn grow(&mut self)
        requires
            old(self).wf(),
            old(self).buf1@.len() <= MAX_HALF_CAPACITY / 2,
        ensures
            final(self).wf(),
            final(self)@ == old(self)@,
            final(self).buf1@.len() > 0,
            final(self).buf1@.len() >= old(self).buf1@.len(),
            final(self).load_percent == old(self).load_percent,
    {
        let old_cap = self.buf1.len();
        let new_cap = if old_cap == 0 {
            INITIAL_CAPACITY
        } else {
            2 * old_cap
        };
        proof {
            lemma2_to64();
            if old_cap > 0 {
                let e = choose|e: nat| pow2(e) == old_cap as nat;
                lemma_pow2_unfold(e + 1);
            }
            assert(Set::<u64>::empty().len() == 0);
        }
        let mut pending: Vec<(u64, V)> = Vec::new();
        let h1 = self.hasher1;
        let h2 = self.hasher2;
        let ghost sk = self.skeys@;
        let ghost m = self.model@;
        proof {
            assert(Set::<u64>::empty().union(sk) =~= sk);
        }
        self.rebuild(&mut pending, Ghost(Set::empty()), new_cap, h1, h2);
        proof {
            assert(m.dom().difference(sk).union(sk) =~= m.dom());
        }
        self.place_all(pending, Ghost(m.dom().difference(sk)));
    }

    /// Inserts `key` with `value`; when `key` is present its value is
    /// replaced and the previous entry returned.
    pub fn insert(&mut self, key: u64, value: V) -> (r: Option<(u64, V)>)
        requires
            old(self).wf(),
            old(self)@.len() < MAX_ENTRIES,
        ensures
            final(self).wf(),
            final(self)@ == old(self)@.insert(key, value),
            final(self).spec_load_percent() == old(self).spec_load_percent(),
            match r {
                Some((k, v)) => old(self)@.contains_key(key) && k == key && v == old(self)@[key],
                None => !old(self)@.contains_key(key),
            },
            final(self)@.len() == if old(self)@.contains_key(key) {
                old(self)@.len()
            } else {
                old(self)@.len() + 1
            },
            final(self).slots_at_home(),
            final(self).spec_half_capacity() >= old(self).spec_half_capacity(),
            old(self)@.contains_key(key) ==> final(self).spec_half_capacity()
                == old(self).spec_half_capacity(),
            !old(self)@.contains_key(key) ==> final(self).spec_half_capacity() > 0,
            final(self).spec_half_capacity() == 0 || is_power_of_two(final(self).spec_half_capacity()),
    {
        proof {
            lemma_insert_len(self@, key, value);
        }
        let cap = self.buf1.len();
        if cap > 0 {
            let i2 = self.hasher2.home(key, cap);
            let in2 = match &self.buf2[i2] {
                Some((k, _)) => *k == key,
                None => false,
            };
            if in2 {
                return self.replace_at(false, i2, key, value);
            }
            let i1 = self.hasher1.home(key, cap);
            let in1 = match &self.buf1[i1] {
                Some((k, _)) => *k == key,
                None => false,
            };
            if in1 {
                return self.replace_at(true, i1, key, value);
            }
        }
        if let Some(j) = self.find_in_stash(key) {
            return self.replace_in_stash(j, key, value);
        }
        proof {
            if self.model@.contains_key(key) {
                assert(self.held1(key) || self.held2(key));
            }
        }
        self.insert_new(key, value);
        None
    }

    /// Overwrites the value of `key`, which entry `j` of the stash holds.
    fn replace_in_stash(&mut self, j: usize, key: u64, value: V) -> (r: Option<(u64, V)>)
        requires
            old(self).wf(),
            j < old(self).stash@.len(),
            old(self).stash@[j as int].0 == key,
        ensures
            final(self).wf(),
            final(self)@ == old(self)@.insert(key, value),
            final(self).buf1@.len() == old(self).buf1@.len(),
            final(self).load_percent == old(self).load_percent,
            r == Some((key, old(self)@[key])),
    {
        let ghost m = self.model@;
        let ghost st = self.stash@;
        let mut e = (key, value);
        self.stash.set_and_swap(j, &mut e);
        proof {
            self.model@ = m.insert(key, value);
            assert(self.skeys@.contains(key));
            assert(self.model@.dom() =~= m.dom());
            let s2 = self.stash@;
            assert forall|t: int| 0 <= t < s2.len() && t != j implies (#[trigger] s2[t]).0 != key by {
                if t < j {
                    assert(st[t].0 != st[j as int].0);
                } else {
                    assert(st[j as int].0 != st[t].0);
                }
            }
            assert forall|a: int, b: int| 0 <= a < b < s2.len() implies (#[trigger] s2[a]).0 != (#[trigger] s2[b]).0 by {
                assert(st[a].0 != st[b].0);
            }
        }
        Some(e)
    }

    /// Adds an absent key to the model, as an entry waiting outside the
    /// halves.
    fn enqueue_key(&mut self, key: u64, value: Ghost<V>)
        requires
            old(self).wf(),
            old(self)@.len() < MAX_ENTRIES,
            !old(self)@.contains_key(key),
        ensures
            final(self).placed(Set::empty().insert(key).union(final(self).skeys@)),
            Set::empty().insert(key).disjoint(final(self).skeys@),
            pending_ok(final(self).stash@, final(self).skeys@, final(self).model@),
            final(self).model@ == old(self).model@.insert(key, value@),
            final(self).skeys == old(self).skeys,
            final(self).stash == old(self).stash,
            final(self).buf1@.len() == old(self).buf1@.len(),
            final(self).load_percent == old(self).load_percent,
    {
        proof {
            let m1 = self.model@;
            let sk = self.skeys@;
            self.model@ = m1.insert(key, value@);
            assert(self.model@.dom() =~= m1.dom().insert(key));
            assert(!sk.contains(key));
            assert(Set::<u64>::empty().insert(key).union(sk) =~= sk.insert(key));
            assert(sk.insert(key).len() == sk.len() + 1);
            assert forall|i: int| 0 <= i < self.stash@.len() implies (#[trigger] self.stash@[i]).0 != key by {
                assert(m1.contains_key(self.stash@[i].0));
            }
        }
    }

    /// Inserts an absent key.
    #[verifier::rlimit(40)]
    fn insert_new(&mut self, key: u64, value: V)
        requires
            old(self).wf(),
            old(self)@.len() < MAX_ENTRIES,
            !old(self)@.contains_key(key),
        ensures
            final(self).wf(),
            final(self)@ == old(self)@.insert(key, value),
            final(self).spec_load_percent() == old(self).spec_load_percent(),
            final(self).spec_half_capacity() >= old(self).spec_half_capacity(),
            final(self).spec_half_capacity() > 0,
    {
        if self.needs_grow() {
            self.grow();
        }
        self.enqueue_key(key, Ghost(value));
        let mut pending: Vec<(u64, V)> = Vec::new();
        proof {
            lemma_pending_push(pending@, Set::empty(), self.model@, (key, value));
            assert(Set::<u64>::empty().insert(key) == Set::<u64>::empty().insert(key));
        }
        pending.push((key, value));
        self.place_all(pending, Ghost(Set::empty().insert(key)));
    }
}

impl<V: Clone> HashMap<V> {
    /// A copy of one half, slot by slot, with cloned values.
    fn clone_half(src: &Vec<Option<(u64, V)>>) -> (r: Vec<Option<(u64, V)>>)
        ensures
            r@.len() == src@.len(),
            forall|i: int|
                0 <= i < src@.len() ==> (#[trigger] r@[i] is Some <==> src@[i] is Some),
            forall|i: int|
                0 <= i < src@.len() && src@[i] is Some ==> key_of(#[trigger] r@[i]) == key_of(src@[i])
                    && cloned(value_of(src@[i]), value_of(r@[i])),
    {
        let mut out: Vec<Option<(u64, V)>> = Vec::with_capacity(src.len());
        let mut i: usize = 0;
        while i < src.len()
            invariant
                i <= src@.len(),
                out@.len() == i,
                forall|j: int| 0 <= j < i ==> (#[trigger] out@[j] is Some <==> src@[j] is Some),
                forall|j: int|
                    0 <= j < i && src@[j] is Some ==> key_of(#[trigger] out@[j]) == key_of(src@[j])
                        && cloned(value_of(src@[j]), value_of(out@[j])),
            decreases src@.len() - i,
        {
            let item = match &src[i] {
                Some((k, v)) => Some((*k, v.clone())),
                None => None,
            };
            out.push(item);
            i = i + 1;
        }
        out
    }

    /// A copy of the stash with cloned values.
    fn clone_stash(src: &Vec<(u64, V)>) -> (r: Vec<(u64, V)>)
        ensures
            r@.len() == src@.len(),
            forall|i: int|
                0 <= i < src@.len() ==> (#[trigger] r@[i]).0 == src@[i].0 && cloned(src@[i].1, r@[i].1),
    {
        let mut out: Vec<(u64, V)> = Vec::with_capacity(src.len());
        let mut i: usize = 0;
        while i < src.len()
            invariant
                i <= src@.len(),
                out@.len() == i,
                forall|j: int|
                    0 <= j < i ==> (#[trigger] out@[j]).0 == src@[j].0 && cloned(src@[j].1, out@[j].1),
            decreases src@.len() - i,
        {
            let e = &src[i];
            out.push((e.0, e.1.clone()));
            i = i + 1;
        }
        out
    }

    /// A copy with the same halves, hashes and stash: every entry in the same
    /// place, with a cloned value.
    pub fn clone(&self) -> (r: Self)
        requires
            self.wf(),
        ensures
            r.wf(),
            r@.dom() == self@.dom(),
            forall|k: u64| #[trigger] r@.contains_key(k) ==> cloned(self@[k], r@[k]),
            r.spec_half_capacity() == self.spec_half_capacity(),
            r.spec_load_percent() == self.spec_load_percent(),
    {
        let b1 = Self::clone_half(&self.buf1);
        let b2 = Self::clone_half(&self.buf2);
        let st = Self::clone_stash(&self.stash);
        let ghost m = self.model@;
        let ghost sk = self.skeys@;
        let ghost old_st = self.stash@;
        let ghost cap = self.buf1@.len();
        let ghost m2 = Map::new(
            |k: u64| m.contains_key(k),
            |k: u64|
                if self.held1(k) {
                    value_of(b1@[self.home1(k)])
                } else if self.held2(k) {
                    value_of(b2@[self.home2(k)])
                } else {
                    st@[choose|j: int| 0 <= j < old_st.len() && old_st[j].0 == k].1
                },
        );
        let r = HashMap {
            buf1: b1,
            buf2: b2,
            len: self.len,
            hasher1: self.hasher1,
            hasher2: self.hasher2,
            load_percent: self.load_percent,
            stash: st,
            skeys: Ghost(sk),
            model: Ghost(m2),
        };
        proof {
            assert(m2.dom() =~= m.dom());
            assert forall|j: int| 0 <= j < old_st.len() implies !self.held1(#[trigger] old_st[j].0)
                && !self.held2(old_st[j].0) && m2[old_st[j].0] == r.stash@[j].1 by {
                let k = old_st[j].0;
                assert(sk.contains(k));
                if self.held1(k) {
                    assert(self.buf1@[self.home1(k)] is Some);
                }
                if self.held2(k) {
                    assert(self.buf2@[self.home2(k)] is Some);
                }
                let j2 = choose|j2: int| 0 <= j2 < old_st.len() && old_st[j2].0 == k;
                if j2 < j {
                    assert(old_st[j2].0 != old_st[j].0);
                } else if j < j2 {
                    assert(old_st[j].0 != old_st[j2].0);
                }
            }
            assert forall|k: u64| #[trigger] r.held1(k) == self.held1(k) && r.held2(k) == self.held2(k) by {
                if cap > 0 {
                    let i1 = self.home1(k);
                    let i2 = self.home2(k);
                    if self.buf1@[i1] is Some {
                        assert(key_of(b1@[i1]) == key_of(self.buf1@[i1]));
                    }
                    if self.buf2@[i2] is Some {
                        assert(key_of(b2@[i2]) == key_of(self.buf2@[i2]));
                    }
                }
            }
            assert forall|i: int| 0 <= i < cap && (#[trigger] r.buf1@[i]) is Some implies i == r.home1(key_of(r.buf1@[i])) by {
                assert(self.buf1@[i] is Some);
            }
            assert forall|i: int| 0 <= i < cap && (#[trigger] r.buf2@[i]) is Some implies i == r.home2(key_of(r.buf2@[i])) by {
                assert(self.buf2@[i] is Some);
            }
            assert forall|i: int| 0 <= i < cap && (#[trigger] r.buf1@[i]) is Some implies m2.contains_key(key_of(r.buf1@[i]))
                && m2[key_of(r.buf1@[i])] == value_of(r.buf1@[i]) && !r.held2(key_of(r.buf1@[i])) by {
                assert(self.buf1@[i] is Some);
                let k = key_of(self.buf1@[i]);
                assert(self.held1(k));
            }
            assert forall|i: int| 0 <= i < cap && (#[trigger] r.buf2@[i]) is Some implies m2.contains_key(key_of(r.buf2@[i]))
                && m2[key_of(r.buf2@[i])] == value_of(r.buf2@[i]) by {
                assert(self.buf2@[i] is Some);
                let k = key_of(self.buf2@[i]);
                assert(self.held2(k));
                if self.held1(k) {
                    assert(!self.held2(key_of(self.buf1@[self.home1(k)])));
                }
            }
            assert forall|k: u64| #[trigger] m2.contains_key(k) implies cloned(m[k], m2[k]) by {
                if self.held1(k) {
                    assert(self.buf1@[self.home1(k)] is Some);
                } else if self.held2(k) {
                    assert(self.buf2@[self.home2(k)] is Some);
                } else {
                    assert(sk.contains(k));
                    lemma_pending_covers(old_st, sk, m, k);
                    let j = choose|j: int| 0 <= j < old_st.len() && old_st[j].0 == k;
                    assert(m2[k] == r.stash@[j].1);
                }
            }
        }
        r
    }
}

} // verus!
