//! The map coordinator: the entry vector and the index table kept in
//! lockstep, with insertion, lookup, removal, growth and shrinking.

use vstd::prelude::*;

verus! {

use crate::index::{
    Slot,
    probe_at,
    probe_dist,
    path_clear,
    table_has_ordinal,
    count_matching,
    empty_pred,
    deleted_pred,
    occupied_pred,
    lemma_count_bounds,
    lemma_count_exists,
    lemma_count_update,
    lemma_count_pointwise,
    lemma_count_partition,
    lemma_probe_in_range,
    lemma_probe_reaches,
    lemma_probe_dist_of_step,
    lemma_probe_zero,
    lemma_probe_step,
    lemma_path_clear_monotone,
};
use crate::key::MapKey;
use crate::vec::AllocVec;

/// One stored entry: a key, its value, and the key's hash as captured
/// at insertion. The hash never changes for the entry's lifetime, so
/// rebuilding the index never rehashes.
#[derive(Clone, Debug)]
pub struct Entry<K, V> {
    key: K,
    value: V,
    hash: usize,
}

impl<K, V> Entry<K, V> {
    fn new(key: K, value: V, hash: usize) -> (e: Self)
        ensures
            e.key == key,
            e.value == value,
            e.hash == hash,
    {
        Entry { key, value, hash }
    }
}

/// Whether some pair of `s` carries the key `k`.
pub open spec fn seq_has_key<K, V>(s: Seq<(K, V)>, k: K) -> bool {
    exists|i: int| 0 <= i < s.len() && (#[trigger] s[i]).0 == k
}

/// The position of the pair carrying `k`; meaningful when the keys of
/// `s` are distinct and `k` occurs.
pub open spec fn seq_key_pos<K, V>(s: Seq<(K, V)>, k: K) -> int {
    choose|i: int| 0 <= i < s.len() && (#[trigger] s[i]).0 == k
}

/// The value paired with `k` in `s`.
pub open spec fn seq_value_of<K, V>(s: Seq<(K, V)>, k: K) -> V {
    s[seq_key_pos(s, k)].1
}

/// The keys of `s`, with no key occurring twice.
pub open spec fn distinct_keys<K, V>(s: Seq<(K, V)>) -> bool {
    forall|i: int, j: int| 0 <= i < j < s.len() ==> (#[trigger] s[i]).0 != (#[trigger] s[j]).0
}

/// What inserting `(k, v)` does to the pair sequence: an existing key
/// keeps its position and takes the new value; a fresh key is appended.
pub open spec fn model_insert<K, V>(s: Seq<(K, V)>, k: K, v: V) -> Seq<(K, V)> {
    if seq_has_key(s, k) {
        s.update(seq_key_pos(s, k), (k, v))
    } else {
        s.push((k, v))
    }
}

/// What removing `k` does to the pair sequence: the pair carrying `k`
/// disappears and the survivors keep their relative order.
pub open spec fn model_remove<K, V>(s: Seq<(K, V)>, k: K) -> Seq<(K, V)> {
    if seq_has_key(s, k) {
        s.remove(seq_key_pos(s, k))
    } else {
        s
    }
}

/// An insertion-ordered map from keys to values.
///
/// Entries live densely in insertion order; an open-addressed index
/// of equal capacity resolves keyed lookups by linear probing, and a
/// counter tracks the tombstones the index holds.
#[derive(Clone)]
pub struct OmniMap<K: MapKey, V> {
    entries: AllocVec<Entry<K, V>>,
    index: Vec<Slot>,
    deleted: usize,
}

impl<K: MapKey, V> View for OmniMap<K, V> {
    type V = Seq<(K, V)>;

    closed spec fn view(&self) -> Seq<(K, V)> {
        Seq::new(
            self.entries@.len(),
            |i: int| (self.entries@[i].key, self.entries@[i].value),
        )
    }
}

impl<K: MapKey, V> OmniMap<K, V> {
    /// The capacity: the size of the index table, which equals the
    /// entry vector's reserved capacity.
    pub closed spec fn spec_capacity(self) -> int {
        self.index@.len() as int
    }

    /// The number of tombstones in the index.
    pub closed spec fn spec_deleted(self) -> int {
        self.deleted as int
    }

    /// The index table.
    pub closed spec fn table(self) -> Seq<Slot> {
        self.index@
    }

    /// The home slot of the entry at ordinal `i`: its hash reduced by
    /// the capacity.
    spec fn home_of(self, i: int) -> int {
        (self.entries@[i].hash as int) % self.spec_capacity()
    }

    /// No key occurs in two entries.
    spec fn entries_distinct(self) -> bool {
        forall|i: int, j: int|
            0 <= i < j < self.entries@.len() ==> (#[trigger] self.entries@[i]).key != (
            #[trigger] self.entries@[j]).key
    }

    /// Every entry carries the hash of its own key.
    spec fn entries_hashed(self) -> bool {
        forall|i: int|
            0 <= i < self.entries@.len() ==> (#[trigger] self.entries@[i]).hash
                == self.entries@[i].key.hash_spec()
    }

    /// An occupied slot refers to a live ordinal and is reachable from
    /// that entry's home slot by a probe that meets no empty slot.
    spec fn slot_ok(self, s: int) -> bool {
        self.index@[s] matches Slot::Occupied(i) ==> {
            &&& (i as int) < self.entries@.len()
            &&& path_clear(self.index@, self.home_of(i as int), s)
        }
    }

    /// Every slot of the table is sound.
    spec fn table_ok(self) -> bool {
        forall|s: int| 0 <= s < self.index@.len() ==> #[trigger] self.slot_ok(s)
    }

    /// No two slots refer to the same ordinal.
    spec fn table_injective(self) -> bool {
        forall|s1: int, s2: int|
            (0 <= s1 < self.index@.len() && 0 <= s2 < self.index@.len() && s1 != s2
                && (#[trigger] self.index@[s1]) is Occupied && (#[trigger] self.index@[s2])
                is Occupied) ==> self.index@[s1] != self.index@[s2]
    }

    /// Every live ordinal is referenced by some slot.
    spec fn table_covers(self) -> bool {
        forall|i: int| 0 <= i < self.entries@.len() ==> table_has_ordinal(self.index@, i)
    }

    /// The invariant that every operation preserves: the entry vector
    /// and the index have the same capacity, keys are unique, entries
    /// carry their keys' hashes, the tombstone counter is exact, the
    /// occupied slots count the entries, and the occupied slots form a
    /// sound, injective cover of the ordinals.
    pub closed spec fn well_formed(self) -> bool {
        &&& self.entries.wf()
        &&& self.entries.spec_capacity() == self.index@.len()
        &&& self.entries@.len() <= self.index@.len()
        &&& self.entries_distinct()
        &&& self.entries_hashed()
        &&& self.deleted as int == count_matching(self.index@, deleted_pred())
        &&& count_matching(self.index@, occupied_pred()) == self.entries@.len()
        &&& self.table_ok()
        &&& self.table_injective()
        &&& self.table_covers()
    }

    /// Creates an empty map without allocating.
    pub fn new() -> (r: Self)
        ensures
            r.well_formed(),
            r@ == Seq::<(K, V)>::empty(),
            r.spec_capacity() == 0,
            r.spec_deleted() == 0,
    {
        let r = OmniMap { entries: AllocVec::new(), index: Vec::new(), deleted: 0 };
        proof {
            assert(r@ =~= Seq::<(K, V)>::empty());
        }
        r
    }

    /// Creates an empty map with the given capacity.
    pub fn with_capacity(capacity: usize) -> (r: Self)
        ensures
            r.well_formed(),
            r@ == Seq::<(K, V)>::empty(),
            r.spec_capacity() == capacity,
            r.spec_deleted() == 0,
    {
        let r = OmniMap {
            entries: AllocVec::with_capacity(capacity),
            index: empty_table(capacity),
            deleted: 0,
        };
        proof {
            assert(r@ =~= Seq::<(K, V)>::empty());
            lemma_all_empty_counts(r.index@);
        }
        r
    }

    /// The capacity.
    pub fn capacity(&self) -> (r: usize)
        ensures
            r == self.spec_capacity(),
    {
        self.index.len()
    }

    /// The number of entries.
    pub fn len(&self) -> (r: usize)
        ensures
            r == self@.len(),
    {
        self.entries.len()
    }

    /// Whether the map holds no entries.
    pub fn is_empty(&self) -> (r: bool)
        ensures
            r == (self@.len() == 0),
    {
        self.entries.is_empty()
    }

    /// The number of tombstones in the index.
    pub fn deleted(&self) -> (r: usize)
        ensures
            r == self.spec_deleted(),
    {
        self.deleted
    }

    /// The slot at position `s` of the index table.
    pub fn slot_at(&self, s: usize) -> (r: Slot)
        requires
            s < self.spec_capacity(),
        ensures
            r == self.table()[s as int],
    {
        self.index[s]
    }
}

/// A positive power of two: one, or twice a power of two.
pub open spec fn is_pow(q: int) -> bool
    decreases q,
{
    if q <= 0 {
        false
    } else if q == 1 {
        true
    } else {
        q % 2 == 0 && is_pow(q / 2)
    }
}

/// The smallest power of two no smaller than `n`; one for `n <= 1`.
pub open spec fn next_pow2(n: int) -> int
    decreases n,
{
    if n <= 1 {
        1
    } else {
        2 * next_pow2((n + 1) / 2)
    }
}

/// Whether the load `(len + deleted) / cap` exceeds three quarters.
pub open spec fn grow_trigger(cap: int, len: int, deleted: int) -> bool {
    4 * (len + deleted) > 3 * cap
}

/// The capacity a grow step moves to: the next power of two at or
/// above four thirds of the old capacity, saturating at `usize::MAX`.
pub open spec fn grown_capacity(cap: int) -> int {
    let t = (4 * cap + 2) / 3;
    if next_pow2(t) > usize::MAX {
        usize::MAX as int
    } else {
        next_pow2(t)
    }
}

/// The capacity after the pre-insert hook: a first insert allocates
/// one slot; an overloaded table grows; anything else stays.
pub open spec fn next_capacity(cap: int, len: int, deleted: int) -> int {
    if cap == 0 {
        1
    } else if grow_trigger(cap, len, deleted) {
        grown_capacity(cap)
    } else {
        cap
    }
}

/// The tombstone count after the pre-insert hook: a rebuild clears
/// every tombstone.
pub open spec fn next_tombstones(cap: int, len: int, deleted: int) -> int {
    if cap == 0 {
        0
    } else if grow_trigger(cap, len, deleted) {
        0
    } else {
        deleted
    }
}

/// `next_pow2(n)` is a power of two, at least `n`, and below `2 * n`.
pub proof fn lemma_next_pow2_bounds(n: int)
    requires
        n >= 1,
    ensures
        is_pow(next_pow2(n)),
        next_pow2(n) >= n,
        next_pow2(n) >= 1,
        next_pow2(n) < 2 * n,
    decreases n,
{
    if n >= 2 {
        let m = (n + 1) / 2;
        assert(1 <= m < n);
        lemma_next_pow2_bounds(m);
        let q = next_pow2(m);
        assert(next_pow2(n) == 2 * q);
        assert(2 * m >= n);
        if q == n {
            assert(n >= 2 && is_pow(n));
            assert(n % 2 == 0 || n == 1);
        }
        if n % 2 == 0 {
            assert(2 * m == n);
            assert(q < 2 * m);
        } else {
            assert(2 * m == n + 1);
            assert(q <= n);
            if q == n {
                assert(n % 2 == 1);
                assert(false);
            }
        }
        assert(q <= n - 1 || 2 * q < 2 * n);
    }
}

/// Between a power of two and any larger one lies a factor of two.
pub proof fn lemma_pow_double_le(a: int, b: int)
    requires
        is_pow(a),
        is_pow(b),
        a < b,
    ensures
        2 * a <= b,
    decreases a,
{
    if a == 1 {
        assert(b >= 2 && b % 2 == 0);
    } else {
        assert(a % 2 == 0 && is_pow(a / 2));
        assert(b > a >= 2 && b % 2 == 0 && is_pow(b / 2));
        lemma_pow_double_le(a / 2, b / 2);
    }
}

/// A power of two in `[n, 2 * n)` is `next_pow2(n)`.
pub proof fn lemma_next_pow2_fix(n: int, q: int)
    requires
        n >= 1,
        is_pow(q),
        q >= n,
        q < 2 * n,
    ensures
        q == next_pow2(n),
    decreases n,
{
    if n == 1 {
        assert(q == 1);
    } else {
        let m = (n + 1) / 2;
        assert(1 <= m < n);
        assert(q >= 2);
        assert(q % 2 == 0 && is_pow(q / 2));
        let q2 = q / 2;
        assert(2 * q2 == q);
        assert(2 * q2 >= n);
        if n % 2 == 0 {
            assert(m == n / 2 && 2 * m == n);
            assert(q2 >= m);
        } else {
            assert(2 * m == n + 1);
            assert(2 * q2 != n);
            assert(q2 >= m);
        }
        assert(q2 < n);
        assert(2 * m >= n);
        assert(q2 < 2 * m);
        lemma_next_pow2_fix(m, q2);
    }
}

/// The smallest power of two no smaller than `t`, computed by
/// doubling; `t` must leave room to double without overflow.
fn next_pow2_u128(t: u128) -> (p: u128)
    requires
        1 <= t,
        t <= u128::MAX / 2,
    ensures
        p as int == next_pow2(t as int),
{
    proof {
        lemma_next_pow2_bounds(t as int);
    }
    let mut p: u128 = 1;
    while p < t
        invariant
            1 <= p,
            is_pow(p as int),
            p as int <= next_pow2(t as int),
            t <= u128::MAX / 2,
            next_pow2(t as int) >= t as int,
            next_pow2(t as int) < 2 * (t as int),
            is_pow(next_pow2(t as int)),
        decreases 2 * (t as int) - (p as int),
    {
        proof {
            lemma_pow_double_le(p as int, next_pow2(t as int));
        }
        p = 2 * p;
    }
    proof {
        lemma_next_pow2_fix(t as int, p as int);
    }
    p
}

/// In a sequence of pairs with distinct keys, the pair at any position
/// is the one and only carrier of its key.
pub proof fn lemma_key_at<K, V>(s: Seq<(K, V)>, i: int)
    requires
        distinct_keys(s),
        0 <= i < s.len(),
    ensures
        seq_has_key(s, s[i].0),
        seq_key_pos(s, s[i].0) == i,
        seq_value_of(s, s[i].0) == s[i].1,
{
    assert(seq_has_key(s, s[i].0));
    let j = seq_key_pos(s, s[i].0);
    if i != j {
        if i < j {
            assert(s[i].0 != s[j].0);
        } else {
            assert(s[j].0 != s[i].0);
        }
    }
}

impl<K: MapKey, V> OmniMap<K, V> {
    /// The view of a well-formed map never carries a key twice.
    pub proof fn lemma_view_keys_distinct(&self)
        requires
            self.well_formed(),
        ensures
            distinct_keys(self@),
    {
        assert forall|i: int, j: int| 0 <= i < j < self@.len() implies (#[trigger] self@[i]).0 != (
        #[trigger] self@[j]).0 by {
            assert(self.entries@[i].key != self.entries@[j].key);
        }
    }

    /// Probes the index for `hash` and `key`, starting at the hash's
    /// home slot and advancing linearly.
    ///
    /// On a key match the result carries the slot that refers to the
    /// key's entry and the entry's ordinal. Otherwise the key is not in
    /// the map, and, as long as the table holds an empty slot at all,
    /// the returned slot is the terminating empty slot of the probe:
    /// the correct target when inserting a fresh key.
    fn find_slot(&self, hash: usize, key: &K) -> (r: (usize, Option<usize>))
        requires
            self.well_formed(),
            self.spec_capacity() > 0,
            hash == key.hash_spec(),
        ensures
            (r.0 as int) < self.spec_capacity(),
            match r.1 {
                Some(i) => {
                    &&& (i as int) < self@.len()
                    &&& self.entries@[i as int].key == *key
                    &&& self.table()[r.0 as int] == Slot::Occupied(i)
                    &&& seq_has_key(self@, *key)
                    &&& seq_key_pos(self@, *key) == i as int
                    &&& seq_value_of(self@, *key) == self.entries@[i as int].value
                },
                None => {
                    &&& !seq_has_key(self@, *key)
                    &&& count_matching(self.table(), empty_pred()) > 0 ==> {
                        &&& self.table()[r.0 as int] is Empty
                        &&& path_clear(
                            self.table(),
                            (hash as int) % self.spec_capacity(),
                            r.0 as int,
                        )
                    }
                },
            },
    {
        let ghost cap = self.spec_capacity();
        let ghost tbl = self.index@;
        let ghost h = (hash as int) % cap;
        let ghost present = seq_has_key(self@, *key);
        let ghost ord: int = seq_key_pos(self@, *key);
        let ghost tslot: int = if present {
            choose|s: int| 0 <= s < tbl.len() && tbl[s] == Slot::Occupied(ord as usize)
        } else {
            0
        };
        let ghost d: int = if present {
            probe_dist(h, tslot, cap)
        } else {
            0
        };
        proof {
            self.lemma_view_keys_distinct();
            if present {
                assert(0 <= ord < self@.len() && self@[ord].0 == *key);
                assert(self@[ord] == (self.entries@[ord].key, self.entries@[ord].value));
                assert(table_has_ordinal(tbl, ord));
                assert(tbl[tslot] == Slot::Occupied(ord as usize));
                assert(self.slot_ok(tslot));
                assert(self.entries@[ord].hash == hash);
                lemma_probe_reaches(h, tslot, cap);
            }
        }

        let capacity = self.index.len();
        let mut slot_index = hash % capacity;
        let mut step: usize = 0;
        proof {
            lemma_probe_zero(h, cap);
        }

        while step < capacity
            invariant
                self.well_formed(),
                cap == self.spec_capacity(),
                capacity == cap,
                cap > 0,
                tbl == self.index@,
                h == (hash as int) % cap,
                0 <= h < cap,
                hash == key.hash_spec(),
                present == seq_has_key(self@, *key),
                present ==> {
                    &&& 0 <= ord < self@.len()
                    &&& self.entries@[ord].key == *key
                    &&& 0 <= tslot < cap
                    &&& tbl[tslot] == Slot::Occupied(ord as usize)
                    &&& d == probe_dist(h, tslot, cap)
                    &&& 0 <= d < cap
                    &&& probe_at(h, d, cap) == tslot
                    &&& path_clear(tbl, h, tslot)
                    &&& step <= d
                },
                step <= capacity,
                slot_index as int == probe_at(h, step as int, cap),
                forall|j: int|
                    0 <= j < step ==> !(tbl[#[trigger] probe_at(h, j, cap)] is Empty),
                forall|j: int|
                    0 <= j < step ==> (tbl[#[trigger] probe_at(h, j, cap)] matches Slot::Occupied(
                        o,
                    ) ==> self.entries@[o as int].key != *key),
            decreases capacity - step,
        {
            proof {
                lemma_probe_in_range(h, step as int, cap);
            }
            match self.index[slot_index] {
                Slot::Empty => {
                    proof {
                        if present {
                            if step < d {
                                assert(!(tbl[probe_at(h, step as int, cap)] is Empty));
                            } else {
                                assert(step == d);
                                assert(probe_at(h, step as int, cap) == tslot);
                            }
                            assert(false);
                        }
                        lemma_probe_dist_of_step(h, step as int, cap);
                    }
                    return (slot_index, None);
                },
                Slot::Occupied(i) => {
                    proof {
                        assert(self.slot_ok(probe_at(h, step as int, cap)));
                    }
                    let e = self.entries.index(i);
                    if e.key.key_eq(key) {
                        proof {
                            assert(self@[i as int]
                                == (self.entries@[i as int].key, self.entries@[i as int].value));
                            lemma_key_at(self@, i as int);
                        }
                        return (slot_index, Some(i));
                    }
                },
                Slot::Deleted => {},
            }
            proof {
                if present {
                    if step == d {
                        assert(probe_at(h, step as int, cap) == tslot);
                        assert(tbl[tslot] == Slot::Occupied(ord as usize));
                        assert(self.entries@[ord].key == *key);
                        assert(false);
                    }
                }
                lemma_probe_step(h, step as int, cap);
            }
            slot_index = (slot_index + 1) % capacity;
            step = step + 1;
        }

        proof {
            if present {
                assert(step <= d && d < cap);
                assert(false);
            }
            assert forall|e: int| 0 <= e < cap implies !((#[trigger] tbl[e]) is Empty) by {
                lemma_probe_reaches(h, e, cap);
                assert(!(tbl[probe_at(h, probe_dist(h, e, cap), cap)] is Empty));
            }
            lemma_count_exists(tbl, empty_pred());
            lemma_count_bounds(tbl, empty_pred());
            lemma_probe_in_range(h, step as int, cap);
        }
        (slot_index, None)
    }
}

impl<K: MapKey, V> OmniMap<K, V> {
    /// Rebuilds the index from the entry vector: each entry, in order,
    /// is placed in the first empty slot its probe reaches. The index
    /// must be all empty; a rebuild never meets a tombstone.
    fn build_index(&mut self)
        requires
            old(self).entries.wf(),
            old(self).entries.spec_capacity() == old(self).index@.len(),
            old(self).entries@.len() <= old(self).index@.len(),
            old(self).entries_distinct(),
            old(self).entries_hashed(),
            old(self).deleted == 0,
            forall|s: int|
                0 <= s < old(self).index@.len() ==> (#[trigger] old(self).index@[s]) is Empty,
        ensures
            final(self).well_formed(),
            final(self).entries == old(self).entries,
            final(self)@ == old(self)@,
            final(self).spec_capacity() == old(self).spec_capacity(),
            final(self).spec_deleted() == 0,
    {
        let ghost cap = self.index@.len() as int;
        let entries_len = self.entries.len();
        let mut i: usize = 0;
        proof {
            lemma_all_empty_counts(self.index@);
        }
        while i < entries_len
            invariant
                self.entries == old(self).entries,
                self.deleted == 0,
                entries_len == self.entries@.len(),
                self.entries.wf(),
                self.entries.spec_capacity() == cap,
                self.index@.len() as int == cap,
                self.entries@.len() <= cap,
                self.entries_distinct(),
                self.entries_hashed(),
                i <= entries_len,
                count_matching(self.index@, occupied_pred()) == i,
                count_matching(self.index@, deleted_pred()) == 0,
                forall|s: int| 0 <= s < cap ==> #[trigger] self.slot_ok(s),
                forall|s: int|
                    0 <= s < cap ==> ((#[trigger] self.index@[s]) matches Slot::Occupied(o) ==> (
                    o as int) < i),
                self.table_injective(),
                forall|o: int| 0 <= o < i ==> table_has_ordinal(self.index@, o),
            decreases entries_len - i,
        {
            let e_hash = self.entries.index(i).hash;
            proof {
                lemma_count_partition(self.index@);
            }
            let target = probe_empty(&self.index, e_hash);
            let ghost prev = *self;
            let ghost tbl = self.index@;
            self.index[target] = Slot::Occupied(i);
            proof {
                let tbl2 = self.index@;
                let t = target as int;
                assert(tbl2 == tbl.update(t, Slot::Occupied(i)));
                lemma_count_update(tbl, occupied_pred(), t, Slot::Occupied(i));
                lemma_count_update(tbl, deleted_pred(), t, Slot::Occupied(i));
                assert forall|p: int|
                    0 <= p < tbl.len() && !(tbl[p] is Empty) implies !((#[trigger] tbl2[p])
                    is Empty) by {}
                assert forall|s: int| 0 <= s < cap implies #[trigger] self.slot_ok(s) by {
                    if s == t {
                        lemma_path_clear_monotone(tbl, tbl2, (e_hash as int) % cap, s);
                    } else {
                        assert(prev.slot_ok(s));
                        if tbl2[s] is Occupied {
                            let o = tbl2[s]->Occupied_0;
                            assert(prev.home_of(o as int) == self.home_of(o as int));
                            lemma_path_clear_monotone(tbl, tbl2, self.home_of(o as int), s);
                        }
                    }
                }
                assert forall|o: int| 0 <= o < i + 1 implies table_has_ordinal(tbl2, o) by {
                    if o < i {
                        let w = choose|s: int|
                            0 <= s < tbl.len() && tbl[s] == Slot::Occupied(o as usize);
                        assert(table_has_ordinal(tbl, o));
                        assert(tbl[w] == Slot::Occupied(o as usize));
                        assert(w != t);
                        assert(tbl2[w] == Slot::Occupied(o as usize));
                    } else {
                        assert(tbl2[t] == Slot::Occupied(o as usize));
                    }
                }
            }
            i = i + 1;
        }
        proof {
            assert(self@ =~= old(self)@);
        }
    }
}

impl<K: MapKey, V> OmniMap<K, V> {
    /// Moves both buffers to `new_cap` and rebuilds the index, which
    /// clears every tombstone.
    fn reallocate_reindex(&mut self, new_cap: usize)
        requires
            old(self).well_formed(),
            old(self)@.len() <= new_cap,
        ensures
            final(self).well_formed(),
            final(self)@ == old(self)@,
            final(self).spec_capacity() == new_cap,
            final(self).spec_deleted() == 0,
    {
        self.entries.reallocate(new_cap);
        self.index = empty_table(new_cap);
        self.deleted = 0;
        proof {
            assert(self@ =~= old(self)@);
        }
        let ghost mid = *self;
        self.build_index();
        proof {
            assert(self@ == mid@);
        }
    }

    /// Releases both buffers; nothing is initialized, so nothing is
    /// dropped.
    fn deallocate_no_drop(&mut self)
        requires
            old(self).well_formed(),
            old(self)@.len() == 0,
        ensures
            final(self).well_formed(),
            final(self)@ == old(self)@,
            final(self).spec_capacity() == 0,
            final(self).spec_deleted() == 0,
    {
        self.entries.reallocate(0);
        self.index = Vec::new();
        self.deleted = 0;
        proof {
            assert(self@ =~= old(self)@);
            lemma_all_empty_counts(self.index@);
        }
    }

    /// Reserves room for `additional` more entries: the capacity grows
    /// by exactly that much, saturating at `usize::MAX`, and the index
    /// is rebuilt, which clears every tombstone. Reserving nothing
    /// changes nothing.
    pub fn reserve(&mut self, additional: usize)
        requires
            old(self).well_formed(),
        ensures
            final(self).well_formed(),
            final(self)@ == old(self)@,
            final(self).spec_capacity() == (if additional == 0 {
                old(self).spec_capacity()
            } else {
                crate::vec::sat_sum(old(self).spec_capacity(), additional as int)
            }),
            final(self).spec_deleted() == (if additional == 0 {
                old(self).spec_deleted()
            } else {
                0
            }),
    {
        if additional == 0 {
            return ;
        }
        let new_cap = match self.index.len().checked_add(additional) {
            Some(n) => n,
            None => usize::MAX,
        };
        self.reallocate_reindex(new_cap);
    }

    /// Grows the map when the pre-insert load exceeds three quarters:
    /// the capacity moves to the next power of two at or above four
    /// thirds of the old one, and the rebuild clears every tombstone.
    fn maybe_grow(&mut self)
        requires
            old(self).well_formed(),
            old(self).spec_capacity() > 0,
            old(self)@.len() + old(self).spec_deleted() < usize::MAX,
        ensures
            final(self).well_formed(),
            final(self)@ == old(self)@,
            final(self).spec_capacity() == (if grow_trigger(
                old(self).spec_capacity(),
                old(self)@.len() as int,
                old(self).spec_deleted(),
            ) {
                grown_capacity(old(self).spec_capacity())
            } else {
                old(self).spec_capacity()
            }),
            final(self).spec_deleted() == (if grow_trigger(
                old(self).spec_capacity(),
                old(self)@.len() as int,
                old(self).spec_deleted(),
            ) {
                0int
            } else {
                old(self).spec_deleted()
            }),
    {
        let current_cap = self.index.len();
        let len = self.entries.len();
        let load4: u128 = 4 * ((len as u128) + (self.deleted as u128));
        let cap3: u128 = 3 * (current_cap as u128);
        if load4 > cap3 {
            let t: u128 = (4 * (current_cap as u128) + 2) / 3;
            proof {
                lemma_next_pow2_bounds(t as int);
            }
            let p = next_pow2_u128(t);
            let new_cap: usize = if p > (usize::MAX as u128) {
                usize::MAX
            } else {
                p as usize
            };
            proof {
                assert(new_cap as int == grown_capacity(current_cap as int));
                assert(t as int >= current_cap as int + 1);
                assert(self@.len() <= current_cap as int);
                assert(self@.len() <= new_cap as int);
            }
            self.reallocate_reindex(new_cap);
        }
    }

    /// The pre-insert hook: allocates one slot for a first insert, or
    /// grows when the load demands it. Afterwards the table is sure to
    /// hold an empty slot.
    fn ensure_capacity(&mut self)
        requires
            old(self).well_formed(),
            old(self)@.len() + old(self).spec_deleted() < usize::MAX,
        ensures
            final(self).well_formed(),
            final(self)@ == old(self)@,
            final(self).spec_capacity() == next_capacity(
                old(self).spec_capacity(),
                old(self)@.len() as int,
                old(self).spec_deleted(),
            ),
            final(self).spec_deleted() == next_tombstones(
                old(self).spec_capacity(),
                old(self)@.len() as int,
                old(self).spec_deleted(),
            ),
            final(self)@.len() + final(self).spec_deleted() < final(self).spec_capacity(),
    {
        let ghost cap0 = self.spec_capacity();
        let ghost len0 = self@.len() as int;
        let ghost del0 = self.spec_deleted();
        if self.index.len() == 0 {
            proof {
                lemma_count_bounds(self.index@, deleted_pred());
                assert(self.index@.len() == 0);
                assert(self.deleted == 0);
                assert(self@.len() == 0);
            }
            self.entries.reallocate(1);
            self.index = empty_table(1);
            proof {
                assert(self@ =~= old(self)@);
                lemma_all_empty_counts(self.index@);
            }
        } else {
            self.maybe_grow();
            proof {
                if grow_trigger(cap0, len0, del0) {
                    lemma_next_pow2_bounds((4 * cap0 + 2) / 3);
                } else {
                    assert(4 * (len0 + del0) <= 3 * cap0);
                    assert(len0 + del0 < cap0);
                }
            }
        }
    }
}

/// Probes `table` from the home slot of `hash` and returns the first
/// empty slot met; one must exist.
fn probe_empty(table: &Vec<Slot>, hash: usize) -> (s: usize)
    requires
        table@.len() > 0,
        count_matching(table@, empty_pred()) > 0,
    ensures
        (s as int) < table@.len(),
        table@[s as int] is Empty,
        path_clear(table@, (hash as int) % (table@.len() as int), s as int),
{
    let ghost tbl = table@;
    let ghost cap = table@.len() as int;
    let ghost h = (hash as int) % cap;
    let ghost e0: int = {
        let p = empty_pred();
        choose|s: int| 0 <= s < tbl.len() && p(tbl[s])
    };
    proof {
        lemma_count_exists(tbl, empty_pred());
        assert(tbl[e0] is Empty);
        lemma_probe_reaches(h, e0, cap);
    }
    let ghost j0 = probe_dist(h, e0, cap);
    let ghost mut j: int = 0;

    let capacity = table.len();
    let mut slot_index = hash % capacity;
    proof {
        lemma_probe_zero(h, cap);
    }
    loop
        invariant
            tbl == table@,
            cap == tbl.len() as int,
            cap > 0,
            capacity == cap,
            0 <= h < cap,
            h == (hash as int) % cap,
            tbl[e0] is Empty,
            0 <= e0 < cap,
            j0 == probe_dist(h, e0, cap),
            0 <= j0 < cap,
            probe_at(h, j0, cap) == e0,
            0 <= j <= j0,
            slot_index as int == probe_at(h, j, cap),
            forall|i: int| 0 <= i < j ==> !(tbl[#[trigger] probe_at(h, i, cap)] is Empty),
        decreases j0 - j,
    {
        proof {
            lemma_probe_in_range(h, j, cap);
        }
        if matches!(table[slot_index], Slot::Empty) {
            proof {
                lemma_probe_dist_of_step(h, j, cap);
            }
            return slot_index;
        }
        proof {
            assert(j != j0);
            lemma_probe_step(h, j, cap);
        }
        slot_index = (slot_index + 1) % capacity;
        proof {
            j = j + 1;
        }
    }
}

impl<K: MapKey, V> OmniMap<K, V> {
    /// Inserts a key-value pair.
    ///
    /// An existing key keeps its position and its stored key; only the
    /// value changes, and the prior value comes back. A fresh key is
    /// appended at the end of the insertion order and nothing comes
    /// back. Before the probe, the map allocates a first slot or grows
    /// as [`next_capacity`] says.
    pub fn insert(&mut self, key: K, value: V) -> (prior: Option<V>)
        requires
            old(self).well_formed(),
            old(self)@.len() + old(self).spec_deleted() < usize::MAX,
        ensures
            final(self).well_formed(),
            final(self)@ == model_insert(old(self)@, key, value),
            prior == (if seq_has_key(old(self)@, key) {
                Some(seq_value_of(old(self)@, key))
            } else {
                None::<V>
            }),
            final(self).spec_capacity() == next_capacity(
                old(self).spec_capacity(),
                old(self)@.len() as int,
                old(self).spec_deleted(),
            ),
            final(self).spec_deleted() == next_tombstones(
                old(self).spec_capacity(),
                old(self)@.len() as int,
                old(self).spec_deleted(),
            ),
    {
        self.ensure_capacity();
        let ghost mid = *self;
        let ghost cap = self.spec_capacity();

        let hash = key.key_hash();
        let (slot_index, found) = self.find_slot(hash, &key);
        match found {
            Some(entry_index) => {
                let e = self.entries.index_mut(entry_index);
                let mut prior_value = value;
                core::mem::swap(&mut e.value, &mut prior_value);
                proof {
                    let i = entry_index as int;
                    assert(self.entries@ == mid.entries@.update(
                        i,
                        Entry {
                            key: mid.entries@[i].key,
                            value: value,
                            hash: mid.entries@[i].hash,
                        },
                    ));
                    assert(self@ =~= model_insert(mid@, key, value));
                    assert forall|s: int| 0 <= s < cap implies #[trigger] self.slot_ok(s) by {
                        assert(mid.slot_ok(s));
                        if self.index@[s] is Occupied {
                            let o = self.index@[s]->Occupied_0;
                            assert(self.home_of(o as int) == mid.home_of(o as int));
                        }
                    }
                    assert(mid@ == old(self)@);
                }
                Some(prior_value)
            },
            None => {
                proof {
                    lemma_count_partition(self.index@);
                }
                let len = self.entries.len();
                let ghost tbl = self.index@;
                let ghost t = slot_index as int;
                self.index[slot_index] = Slot::Occupied(len);
                self.entries.push(Entry::new(key, value, hash));
                proof {
                    let tbl2 = self.index@;
                    assert(tbl2 == tbl.update(t, Slot::Occupied(len as usize)));
                    lemma_count_update(tbl, occupied_pred(), t, Slot::Occupied(len as usize));
                    lemma_count_update(tbl, deleted_pred(), t, Slot::Occupied(len as usize));
                    assert(self.entries@ == mid.entries@.push(Entry { key: key, value: value, hash: hash }));
                    assert(self@ =~= mid@.push((key, value)));
                    assert(self@ == model_insert(mid@, key, value));

                    // keys stay distinct: the fresh key is in no prior entry
                    assert forall|o: int| 0 <= o < len implies self.entries@[o].key != key by {
                        assert(mid@[o] == (mid.entries@[o].key, mid.entries@[o].value));
                        if mid.entries@[o].key == key {
                            assert(seq_has_key(mid@, key));
                        }
                    }

                    assert forall|s: int| 0 <= s < cap implies #[trigger] self.slot_ok(s) by {
                        if s == t {
                            assert(self.entries@[len as int].hash == hash);
                            lemma_path_clear_monotone(tbl, tbl2, (hash as int) % cap, s);
                        } else {
                            assert(mid.slot_ok(s));
                            if tbl2[s] is Occupied {
                                let o = tbl2[s]->Occupied_0;
                                assert((o as int) < len);
                                assert(self.home_of(o as int) == mid.home_of(o as int));
                                lemma_path_clear_monotone(tbl, tbl2, self.home_of(o as int), s);
                            }
                        }
                    }

                    // every slot held an ordinal below the new one
                    assert forall|s: int|
                        0 <= s < cap && (#[trigger] tbl2[s]) is Occupied && s != t implies tbl2[s]
                        ->Occupied_0 != len as usize by {
                        assert(mid.slot_ok(s));
                    }

                    assert forall|o: int| 0 <= o < len + 1 implies table_has_ordinal(tbl2, o) by {
                        if o < len {
                            assert(table_has_ordinal(tbl, o));
                            let w = choose|s: int|
                                0 <= s < tbl.len() && tbl[s] == Slot::Occupied(o as usize);
                            assert(w != t);
                            assert(tbl2[w] == Slot::Occupied(o as usize));
                        } else {
                            assert(tbl2[t] == Slot::Occupied(o as usize));
                        }
                    }
                    assert(mid@ == old(self)@);
                }
                None
            },
        }
    }
}

impl<K: MapKey, V> OmniMap<K, V> {
    /// A map that differs from a well-formed one only in the value of
    /// the entry at ordinal `i` is well formed too, and its view is
    /// the old view with that value updated.
    proof fn lemma_value_update_wf(m1: Self, m2: Self, i: int)
        requires
            m1.well_formed(),
            0 <= i < m1.entries@.len(),
            m2.index@ == m1.index@,
            m2.deleted == m1.deleted,
            m2.entries.spec_capacity() == m1.entries.spec_capacity(),
            m2.entries@.len() == m1.entries@.len(),
            forall|j: int|
                0 <= j < m1.entries@.len() && j != i ==> m2.entries@[j] == m1.entries@[j],
            m2.entries@[i].key == m1.entries@[i].key,
            m2.entries@[i].hash == m1.entries@[i].hash,
        ensures
            m2.well_formed(),
            m2@ == m1@.update(i, (m1@[i].0, m2.entries@[i].value)),
    {
        assert forall|s: int| 0 <= s < m2.spec_capacity() implies #[trigger] m2.slot_ok(s) by {
            assert(m1.slot_ok(s));
            if m2.index@[s] is Occupied {
                let o = m2.index@[s]->Occupied_0;
                assert(m2.home_of(o as int) == m1.home_of(o as int));
            }
        }
        assert forall|a: int, b: int|
            0 <= a < b < m2.entries@.len() implies (#[trigger] m2.entries@[a]).key != (
        #[trigger] m2.entries@[b]).key by {
            assert(m1.entries@[a].key != m1.entries@[b].key);
        }
        assert forall|a: int|
            0 <= a < m2.entries@.len() implies (#[trigger] m2.entries@[a]).hash
            == m2.entries@[a].key.hash_spec() by {
            assert(m1.entries@[a].hash == m1.entries@[a].key.hash_spec());
        }
        assert(m2@ =~= m1@.update(i, (m1@[i].0, m2.entries@[i].value)));
    }

    /// Looks a key up and returns its value, if the key is present.
    pub fn get(&self, key: &K) -> (r: Option<&V>)
        requires
            self.well_formed(),
        ensures
            match r {
                Some(v) => seq_has_key(self@, *key) && *v == seq_value_of(self@, *key),
                None => !seq_has_key(self@, *key),
            },
    {
        if self.entries.is_empty() {
            return None;
        }
        let hash = key.key_hash();
        let (_, found) = self.find_slot(hash, key);
        match found {
            Some(i) => Some(&self.entries.index(i).value),
            None => None,
        }
    }

    /// Looks a key up and returns a mutable reference to its value, if
    /// the key is present. Writing through the reference changes that
    /// value and nothing else.
    pub fn get_mut(&mut self, key: &K) -> (r: Option<&mut V>)
        requires
            old(self).well_formed(),
        ensures
            final(self).well_formed(),
            final(self).spec_capacity() == old(self).spec_capacity(),
            final(self).spec_deleted() == old(self).spec_deleted(),
            !seq_has_key(old(self)@, *key) ==> r is None && final(self)@ == old(self)@,
            seq_has_key(old(self)@, *key) ==> r is Some && *r.unwrap() == seq_value_of(
                old(self)@,
                *key,
            ) && final(self)@ == old(self)@.update(
                seq_key_pos(old(self)@, *key),
                (*key, *final(r.unwrap())),
            ),
    {
        if self.entries.is_empty() {
            return None;
        }
        let hash = key.key_hash();
        let (_, found) = self.find_slot(hash, key);
        let ghost mid = *self;
        match found {
            Some(i) => {
                let e = self.entries.index_mut(i);
                proof {
                    assert(mid.entries@[i as int].key == *key);
                }
                let r = Some(&mut e.value);
                proof {
                    let ii = i as int;
                    assert forall|m2: Self|
                        (m2.index@ == mid.index@ && m2.deleted == mid.deleted
                            && m2.entries.spec_capacity() == mid.entries.spec_capacity()
                            && m2.entries@.len() == mid.entries@.len() && (forall|j: int|
                            0 <= j < mid.entries@.len() && j != ii ==> m2.entries@[j]
                                == mid.entries@[j]) && m2.entries@[ii].key == mid.entries@[ii].key
                            && m2.entries@[ii].hash == mid.entries@[ii].hash) implies ((
                    #[trigger] m2.well_formed()) && m2@ == mid@.update(
                        ii,
                        (mid@[ii].0, m2.entries@[ii].value),
                    )) by {
                        Self::lemma_value_update_wf(mid, m2, ii);
                    }
                    assert(mid@[ii].0 == *key);
                }
                r
            },
            None => None,
        }
    }

    /// The first entry in insertion order, if any.
    pub fn first(&self) -> (r: Option<(&K, &V)>)
        requires
            self.well_formed(),
        ensures
            self@.len() == 0 ==> r is None,
            self@.len() > 0 ==> r is Some && *r.unwrap().0 == self@[0].0 && *r.unwrap().1
                == self@[0].1,
    {
        if self.entries.is_empty() {
            return None;
        }
        let e = self.entries.first();
        Some((&e.key, &e.value))
    }

    /// The last entry in insertion order, if any.
    pub fn last(&self) -> (r: Option<(&K, &V)>)
        requires
            self.well_formed(),
        ensures
            self@.len() == 0 ==> r is None,
            self@.len() > 0 ==> r is Some && *r.unwrap().0 == self@[self@.len() - 1].0 && *r
                .unwrap().1 == self@[self@.len() - 1].1,
    {
        if self.entries.is_empty() {
            return None;
        }
        let e = self.entries.last();
        Some((&e.key, &e.value))
    }

    /// The value at ordinal `i` of the insertion order.
    pub fn index(&self, i: usize) -> (r: &V)
        requires
            self.well_formed(),
            i < self@.len(),
        ensures
            *r == self@[i as int].1,
    {
        &self.entries.index(i).value
    }

    /// A mutable reference to the value at ordinal `i` of the
    /// insertion order. Writing through it changes that value and
    /// nothing else.
    pub fn index_mut(&mut self, i: usize) -> (r: &mut V)
        requires
            old(self).well_formed(),
            i < old(self)@.len(),
        ensures
            final(self).well_formed(),
            final(self).spec_capacity() == old(self).spec_capacity(),
            final(self).spec_deleted() == old(self).spec_deleted(),
            *r == old(self)@[i as int].1,
            final(self)@ == old(self)@.update(i as int, (old(self)@[i as int].0, *final(r))),
    {
        let ghost mid = *self;
        let e = self.entries.index_mut(i);
        let r = &mut e.value;
        proof {
            let ii = i as int;
            assert forall|m2: Self|
                (m2.index@ == mid.index@ && m2.deleted == mid.deleted && m2.entries.spec_capacity()
                    == mid.entries.spec_capacity() && m2.entries@.len() == mid.entries@.len() && (
                forall|j: int|
                    0 <= j < mid.entries@.len() && j != ii ==> m2.entries@[j] == mid.entries@[j])
                    && m2.entries@[ii].key == mid.entries@[ii].key && m2.entries@[ii].hash
                    == mid.entries@[ii].hash) implies ((#[trigger] m2.well_formed()) && m2@
                == mid@.update(ii, (mid@[ii].0, m2.entries@[ii].value))) by {
                Self::lemma_value_update_wf(mid, m2, ii);
            }
        }
        r
    }
}

/// What the post-removal scan does to one slot: an occupied slot
/// referring past `after` moves down one ordinal; every other slot
/// stays.
pub open spec fn decrement_slot(sl: Slot, after: int) -> Slot {
    match sl {
        Slot::Occupied(o) => if o > after {
            Slot::Occupied((o - 1) as usize)
        } else {
            sl
        },
        _ => sl,
    }
}

impl<K: MapKey, V> OmniMap<K, V> {
    /// Decrements every occupied slot that refers to an ordinal above
    /// `after`, re-aligning the index after an entry's removal.
    fn decrement_index(&mut self, after: usize)
        ensures
            final(self).entries == old(self).entries,
            final(self).deleted == old(self).deleted,
            final(self).index@.len() == old(self).index@.len(),
            forall|s: int|
                0 <= s < old(self).index@.len() ==> final(self).index@[s] == decrement_slot(
                    old(self).index@[s],
                    after as int,
                ),
    {
        let capacity = self.index.len();
        let mut s: usize = 0;
        while s < capacity
            invariant
                self.entries == old(self).entries,
                self.deleted == old(self).deleted,
                self.index@.len() == old(self).index@.len(),
                capacity == self.index@.len(),
                s <= capacity,
                forall|t: int|
                    0 <= t < s ==> self.index@[t] == decrement_slot(
                        old(self).index@[t],
                        after as int,
                    ),
                forall|t: int| s <= t < capacity ==> self.index@[t] == old(self).index@[t],
            decreases capacity - s,
        {
            match self.index[s] {
                Slot::Occupied(o) => {
                    if o > after {
                        self.index[s] = Slot::Occupied(o - 1);
                    }
                },
                _ => {},
            }
            s = s + 1;
        }
    }

    /// Removes the entry at ordinal `entry_index`, whose slot is
    /// `slot_index`: the slot becomes a tombstone, the entry leaves
    /// the dense vector, and every slot above the ordinal is
    /// re-aligned.
    fn detach_entry(&mut self, slot_index: usize, entry_index: usize) -> (e: Entry<K, V>)
        requires
            old(self).well_formed(),
            slot_index < old(self).spec_capacity(),
            entry_index < old(self)@.len(),
            old(self).index@[slot_index as int] == Slot::Occupied(entry_index),
        ensures
            final(self).well_formed(),
            e == old(self).entries@[entry_index as int],
            final(self)@ == old(self)@.remove(entry_index as int),
            final(self).spec_capacity() == old(self).spec_capacity(),
            final(self).spec_deleted() == old(self).spec_deleted() + 1,
    {
        let ghost m0 = *self;
        let ghost tbl0 = self.index@;
        let ghost es0 = self.entries@;
        let ghost cap = self.spec_capacity();
        let ghost i = entry_index as int;
        let ghost t = slot_index as int;
        let ghost len0 = es0.len() as int;

        self.index[slot_index] = Slot::Deleted;
        proof {
            let tbl1 = self.index@;
            lemma_count_update(tbl0, deleted_pred(), t, Slot::Deleted);
            lemma_count_update(tbl0, occupied_pred(), t, Slot::Deleted);
            lemma_count_bounds(tbl1, deleted_pred());
            assert forall|s: int|
                0 <= s < cap && (#[trigger] tbl1[s]) is Occupied implies tbl1[s]->Occupied_0
                != entry_index by {
                assert(tbl0[s] == tbl1[s]);
                assert(tbl0[t] == Slot::Occupied(entry_index));
            }
        }
        let ghost tbl1 = self.index@;
        let cap_now = self.index.len();
        proof {
            assert(self.deleted as int + 1 == count_matching(tbl1, deleted_pred()));
            assert(count_matching(tbl1, deleted_pred()) <= cap_now as int);
        }
        self.deleted = self.deleted + 1;

        let last = self.entries.len() - 1;
        let entry;
        if entry_index == last {
            entry = self.entries.pop();
            proof {
                let es2 = self.entries@;
                assert forall|j: int| 0 <= j < len0 - 1 implies es2[j] == es0[j] by {}
                assert forall|a: int, b: int|
                    0 <= a < b < len0 - 1 implies (#[trigger] es2[a]).key != (
                #[trigger] es2[b]).key by {
                    assert(es0[a].key != es0[b].key);
                }
                assert forall|a: int| 0 <= a < len0 - 1 implies (#[trigger] es2[a]).hash
                    == es2[a].key.hash_spec() by {
                    assert(es0[a].hash == es0[a].key.hash_spec());
                }
                assert forall|s: int| 0 <= s < cap implies #[trigger] self.slot_ok(s) by {
                    assert(m0.slot_ok(s));
                    if tbl1[s] is Occupied {
                        let o = tbl1[s]->Occupied_0;
                        assert((o as int) < len0 && o != entry_index);
                        assert((o as int) < len0 - 1);
                        assert(self.home_of(o as int) == m0.home_of(o as int));
                        lemma_path_clear_monotone(tbl0, tbl1, self.home_of(o as int), s);
                    }
                }
                assert forall|o: int| 0 <= o < len0 - 1 implies table_has_ordinal(tbl1, o) by {
                    assert(table_has_ordinal(tbl0, o));
                    let w = choose|s: int|
                        0 <= s < tbl0.len() && tbl0[s] == Slot::Occupied(o as usize);
                    assert(w != t);
                    assert(tbl1[w] == Slot::Occupied(o as usize));
                }
                assert(self@ =~= m0@.remove(i));
            }
        } else {
            self.decrement_index(entry_index);
            let ghost tbl2 = self.index@;
            entry = self.entries.remove(entry_index);
            proof {
                let es2 = self.entries@;
                assert(es2 == es0.remove(i));
                assert forall|j: int| 0 <= j < len0 - 1 implies es2[j] == (if j < i {
                    es0[j]
                } else {
                    es0[j + 1]
                }) by {}

                // a decrement changes no slot's kind
                assert forall|s: int| 0 <= s < cap implies ((#[trigger] tbl2[s]) is Occupied
                    == tbl1[s] is Occupied) && (tbl2[s] is Deleted == tbl1[s] is Deleted) && (
                tbl2[s] is Empty == tbl1[s] is Empty) by {}
                lemma_count_pointwise(tbl1, tbl2, deleted_pred());
                lemma_count_pointwise(tbl1, tbl2, occupied_pred());

                assert forall|s: int| 0 <= s < cap implies #[trigger] self.slot_ok(s) by {
                    if tbl2[s] is Occupied {
                        let q = tbl2[s]->Occupied_0;
                        let o = tbl1[s]->Occupied_0;
                        assert(tbl1[s] == tbl0[s] && m0.slot_ok(s));
                        assert(o != entry_index);
                        if (o as int) > i {
                            assert(q as int == o as int - 1);
                            assert(es2[q as int] == es0[o as int]);
                        } else {
                            assert(q == o && (o as int) < i);
                            assert(es2[q as int] == es0[o as int]);
                        }
                        assert(self.home_of(q as int) == m0.home_of(o as int));
                        lemma_path_clear_monotone(tbl0, tbl2, m0.home_of(o as int), s);
                    }
                }

                assert forall|s1: int, s2: int|
                    (0 <= s1 < cap && 0 <= s2 < cap && s1 != s2 && (#[trigger] tbl2[s1])
                        is Occupied && (#[trigger] tbl2[s2]) is Occupied) implies tbl2[s1]
                    != tbl2[s2] by {
                    let o1 = tbl1[s1]->Occupied_0;
                    let o2 = tbl1[s2]->Occupied_0;
                    assert(o1 != entry_index && o2 != entry_index);
                    assert(tbl1[s1] != tbl1[s2]);
                }

                assert forall|q: int| 0 <= q < len0 - 1 implies table_has_ordinal(tbl2, q) by {
                    if q < i {
                        assert(table_has_ordinal(tbl0, q));
                        let w = choose|s: int|
                            0 <= s < tbl0.len() && tbl0[s] == Slot::Occupied(q as usize);
                        assert(w != t);
                        assert(tbl1[w] == Slot::Occupied(q as usize));
                        assert(tbl2[w] == Slot::Occupied(q as usize));
                    } else {
                        assert(table_has_ordinal(tbl0, q + 1));
                        let w = choose|s: int|
                            0 <= s < tbl0.len() && tbl0[s] == Slot::Occupied((q + 1) as usize);
                        assert(w != t);
                        assert(tbl1[w] == Slot::Occupied((q + 1) as usize));
                        assert(tbl2[w] == Slot::Occupied(q as usize));
                    }
                }

                assert forall|a: int, b: int|
                    0 <= a < b < len0 - 1 implies (#[trigger] es2[a]).key != (
                #[trigger] es2[b]).key by {
                    let a0 = if a < i {
                        a
                    } else {
                        a + 1
                    };
                    let b0 = if b < i {
                        b
                    } else {
                        b + 1
                    };
                    assert(es0[a0].key != es0[b0].key);
                }
                assert forall|a: int| 0 <= a < len0 - 1 implies (#[trigger] es2[a]).hash
                    == es2[a].key.hash_spec() by {
                    let a0 = if a < i {
                        a
                    } else {
                        a + 1
                    };
                    assert(es0[a0].hash == es0[a0].key.hash_spec());
                }

                assert(self@ =~= m0@.remove(i));
            }
        }
        entry
    }
}

impl<K: MapKey, V> OmniMap<K, V> {
    /// Removes a key and returns its value, if the key is present.
    /// Surviving entries keep their relative order; the key's slot
    /// stays behind as a tombstone, and the capacity is unchanged.
    pub fn remove(&mut self, key: &K) -> (r: Option<V>)
        requires
            old(self).well_formed(),
        ensures
            final(self).well_formed(),
            final(self)@ == model_remove(old(self)@, *key),
            r == (if seq_has_key(old(self)@, *key) {
                Some(seq_value_of(old(self)@, *key))
            } else {
                None::<V>
            }),
            final(self).spec_capacity() == old(self).spec_capacity(),
            final(self).spec_deleted() == old(self).spec_deleted() + (if seq_has_key(
                old(self)@,
                *key,
            ) {
                1int
            } else {
                0int
            }),
    {
        if self.entries.is_empty() {
            return None;
        }
        let hash = key.key_hash();
        let (slot_index, found) = self.find_slot(hash, key);
        match found {
            Some(entry_index) => {
                let e = self.detach_entry(slot_index, entry_index);
                Some(e.value)
            },
            None => None,
        }
    }

    /// Removes and returns the last entry in insertion order, if any.
    /// Its slot stays behind as a tombstone; the capacity is
    /// unchanged.
    pub fn pop(&mut self) -> (r: Option<(K, V)>)
        requires
            old(self).well_formed(),
        ensures
            final(self).well_formed(),
            final(self).spec_capacity() == old(self).spec_capacity(),
            old(self)@.len() == 0 ==> r is None && final(self)@ == old(self)@ && final(self).spec_deleted() == old(self).spec_deleted(),
            old(self)@.len() > 0 ==> r == Some(old(self)@[old(self)@.len() - 1]) && final(self)@
                == old(self)@.drop_last() && final(self).spec_deleted() == old(self).spec_deleted()
                + 1,
    {
        if self.entries.is_empty() {
            return None;
        }
        proof {
            self.lemma_view_keys_distinct();
            lemma_key_at(self@, self@.len() - 1);
            assert(self@[self@.len() - 1]
                == (self.entries@[self@.len() - 1].key, self.entries@[self@.len() - 1].value));
        }
        let (slot_index, found) = {
            let e = self.entries.last();
            self.find_slot(e.hash, &e.key)
        };
        match found {
            Some(entry_index) => {
                proof {
                    assert(entry_index as int == self@.len() - 1);
                }
                let e = self.detach_entry(slot_index, entry_index);
                proof {
                    assert(old(self)@.remove(old(self)@.len() - 1) =~= old(self)@.drop_last());
                }
                Some((e.key, e.value))
            },
            None => {
                // a live entry always has a slot: the probe cannot miss
                proof {
                    assert(false);
                }
                None
            },
        }
    }

    /// Removes and returns the first entry in insertion order, if
    /// any. The survivors shift down one ordinal; the entry's slot
    /// stays behind as a tombstone, and the capacity is unchanged.
    pub fn pop_front(&mut self) -> (r: Option<(K, V)>)
        requires
            old(self).well_formed(),
        ensures
            final(self).well_formed(),
            final(self).spec_capacity() == old(self).spec_capacity(),
            old(self)@.len() == 0 ==> r is None && final(self)@ == old(self)@ && final(self).spec_deleted() == old(self).spec_deleted(),
            old(self)@.len() > 0 ==> r == Some(old(self)@[0]) && final(self)@ == old(self)@.remove(0) && final(self).spec_deleted() == old(self).spec_deleted() + 1,
    {
        if self.entries.is_empty() {
            return None;
        }
        proof {
            self.lemma_view_keys_distinct();
            lemma_key_at(self@, 0);
            assert(self@[0] == (self.entries@[0].key, self.entries@[0].value));
        }
        let (slot_index, found) = {
            let e = self.entries.first();
            self.find_slot(e.hash, &e.key)
        };
        match found {
            Some(entry_index) => {
                proof {
                    assert(entry_index as int == 0);
                }
                let e = self.detach_entry(slot_index, entry_index);
                Some((e.key, e.value))
            },
            None => {
                // a live entry always has a slot: the probe cannot miss
                proof {
                    assert(false);
                }
                None
            },
        }
    }

    /// Drops every entry and every tombstone; the capacity stays.
    pub fn clear(&mut self)
        requires
            old(self).well_formed(),
        ensures
            final(self).well_formed(),
            final(self)@ == Seq::<(K, V)>::empty(),
            final(self).spec_capacity() == old(self).spec_capacity(),
            final(self).spec_deleted() == 0,
    {
        self.entries.clear();
        let cap = self.index.len();
        self.index = empty_table(cap);
        self.deleted = 0;
        proof {
            assert(self@ =~= Seq::<(K, V)>::empty());
            lemma_all_empty_counts(self.index@);
        }
    }

    /// Shrinks the capacity to `capacity` when that lies between the
    /// length and the current capacity; the rebuild clears every
    /// tombstone. Shrinking an empty map to zero releases both
    /// buffers. Out of that range nothing changes.
    pub fn shrink_to(&mut self, capacity: usize)
        requires
            old(self).well_formed(),
        ensures
            final(self).well_formed(),
            final(self)@ == old(self)@,
            final(self).spec_capacity() == (if old(self)@.len() <= capacity < old(self).spec_capacity() {
                capacity as int
            } else {
                old(self).spec_capacity()
            }),
            final(self).spec_deleted() == (if old(self)@.len() <= capacity < old(self).spec_capacity() {
                0int
            } else {
                old(self).spec_deleted()
            }),
    {
        let current_len = self.entries.len();
        let current_capacity = self.index.len();
        if capacity >= current_len && capacity < current_capacity {
            if capacity > 0 {
                self.reallocate_reindex(capacity);
            } else {
                self.deallocate_no_drop();
            }
        }
    }

    /// Shrinks the capacity to the length exactly, releasing both
    /// buffers when the map is empty. Afterwards no tombstone is
    /// left.
    pub fn shrink_to_fit(&mut self)
        requires
            old(self).well_formed(),
        ensures
            final(self).well_formed(),
            final(self)@ == old(self)@,
            final(self).spec_capacity() == old(self)@.len(),
            final(self).spec_deleted() == 0,
    {
        let current_len = self.entries.len();
        if self.index.len() > current_len {
            if current_len > 0 {
                self.reallocate_reindex(current_len);
            } else {
                self.deallocate_no_drop();
            }
        } else {
            proof {
                lemma_count_partition(self.index@);
                lemma_count_bounds(self.index@, empty_pred());
            }
        }
    }
}

impl<K: MapKey, V> OmniMap<K, V> {
    /// The entries in insertion order, as references.
    pub fn iter(&self) -> (r: Vec<(&K, &V)>)
        ensures
            r@.len() == self@.len(),
            forall|i: int|
                0 <= i < self@.len() ==> *(#[trigger] r@[i]).0 == self@[i].0 && *r@[i].1
                    == self@[i].1,
    {
        let mut r: Vec<(&K, &V)> = Vec::new();
        let n = self.entries.len();
        let mut i: usize = 0;
        while i < n
            invariant
                i <= n,
                n == self.entries@.len(),
                n == self@.len(),
                r@.len() == i,
                forall|j: int|
                    0 <= j < i ==> *(#[trigger] r@[j]).0 == self@[j].0 && *r@[j].1 == self@[j].1,
            decreases n - i,
        {
            let e = self.entries.index(i);
            r.push((&e.key, &e.value));
            i = i + 1;
        }
        r
    }

    /// The keys in insertion order, as references.
    pub fn iter_keys(&self) -> (r: Vec<&K>)
        ensures
            r@.len() == self@.len(),
            forall|i: int| 0 <= i < self@.len() ==> *(#[trigger] r@[i]) == self@[i].0,
    {
        let mut r: Vec<&K> = Vec::new();
        let n = self.entries.len();
        let mut i: usize = 0;
        while i < n
            invariant
                i <= n,
                n == self.entries@.len(),
                n == self@.len(),
                r@.len() == i,
                forall|j: int| 0 <= j < i ==> *(#[trigger] r@[j]) == self@[j].0,
            decreases n - i,
        {
            let e = self.entries.index(i);
            r.push(&e.key);
            i = i + 1;
        }
        r
    }

    /// The values in insertion order, as references.
    pub fn iter_values(&self) -> (r: Vec<&V>)
        ensures
            r@.len() == self@.len(),
            forall|i: int| 0 <= i < self@.len() ==> *(#[trigger] r@[i]) == self@[i].1,
    {
        let mut r: Vec<&V> = Vec::new();
        let n = self.entries.len();
        let mut i: usize = 0;
        while i < n
            invariant
                i <= n,
                n == self.entries@.len(),
                n == self@.len(),
                r@.len() == i,
                forall|j: int| 0 <= j < i ==> *(#[trigger] r@[j]) == self@[j].1,
            decreases n - i,
        {
            let e = self.entries.index(i);
            r.push(&e.value);
            i = i + 1;
        }
        r
    }

    /// Consumes the map into an iterator over its pairs, in insertion
    /// order.
    pub fn into_iter(self) -> (it: OmniMapIntoIter<K, V>)
        ensures
            it@ == self@,
    {
        let it = OmniMapIntoIter { entries: self.entries };
        proof {
            assert(it@ =~= self@);
        }
        it
    }
}

impl<K: MapKey + Copy, V: Clone> OmniMap<K, V> {
    /// An independent copy whose capacity equals the length. Keys and
    /// hashes carry over exactly; each value is a clone of the
    /// original's; no tombstone survives.
    pub fn clone_compact(&self) -> (r: Self)
        requires
            self.well_formed(),
        ensures
            r.well_formed(),
            r@.len() == self@.len(),
            forall|i: int|
                0 <= i < self@.len() ==> (#[trigger] r@[i]).0 == self@[i].0
                    && vstd::pervasive::cloned::<V>(self@[i].1, r@[i].1),
            r.spec_capacity() == self@.len(),
            r.spec_deleted() == 0,
    {
        let n = self.entries.len();
        let mut entries2: AllocVec<Entry<K, V>> = AllocVec::with_capacity(n);
        let mut i: usize = 0;
        while i < n
            invariant
                i <= n,
                n == self.entries@.len(),
                entries2@.len() == i,
                entries2.spec_capacity() == n,
                forall|j: int|
                    0 <= j < i ==> (#[trigger] entries2@[j]).key == self.entries@[j].key
                        && entries2@[j].hash == self.entries@[j].hash && vstd::pervasive::cloned::<
                    V>(self.entries@[j].value, entries2@[j].value),
            decreases n - i,
        {
            let e = self.entries.index(i);
            entries2.push(Entry { key: e.key, value: e.value.clone(), hash: e.hash });
            i = i + 1;
        }
        let mut r = OmniMap { entries: entries2, index: empty_table(n), deleted: 0 };
        proof {
            lemma_all_empty_counts(r.index@);
            assert forall|a: int, b: int|
                0 <= a < b < n implies (#[trigger] r.entries@[a]).key != (
            #[trigger] r.entries@[b]).key by {
                assert(self.entries@[a].key != self.entries@[b].key);
            }
            assert forall|a: int| 0 <= a < n implies (#[trigger] r.entries@[a]).hash
                == r.entries@[a].key.hash_spec() by {
                assert(self.entries@[a].hash == self.entries@[a].key.hash_spec());
            }
        }
        let ghost before = r@;
        r.build_index();
        proof {
            assert(r@ == before);
        }
        r
    }
}

impl<K: MapKey, V> Default for OmniMap<K, V> {
    /// An empty map with a default capacity of sixteen.
    fn default() -> (r: Self)
        ensures
            r.well_formed(),
            r@ == Seq::<(K, V)>::empty(),
            r.spec_capacity() == 16,
            r.spec_deleted() == 0,
    {
        Self::with_capacity(16)
    }
}

impl<K: MapKey, V> OmniMap<K, V> {
    /// The approximate resident size in bytes: both buffers plus the
    /// tombstone counter, saturating at `usize::MAX`.
    pub fn memory_usage(&self) -> (r: usize)
        requires
            self.well_formed(),
        ensures
            r == crate::vec::sat_sum(
                crate::vec::sat_sum(
                    crate::vec::spec_memory_usage(
                        self.spec_capacity(),
                        vstd::layout::size_of::<Entry<K, V>>() as int,
                        vstd::layout::size_of::<usize>() as int,
                    ),
                    crate::vec::spec_memory_usage(
                        self.spec_capacity(),
                        vstd::layout::size_of::<Slot>() as int,
                        vstd::layout::size_of::<usize>() as int,
                    ),
                ),
                vstd::layout::size_of::<usize>() as int,
            ),
    {
        let entries_bytes = self.entries.memory_usage();
        let word = core::mem::size_of::<usize>();
        let index_meta = word.saturating_add(word);
        let index_elements = match self.index.len().checked_mul(core::mem::size_of::<Slot>()) {
            Some(b) => b,
            None => usize::MAX,
        };
        let index_bytes = index_meta.saturating_add(index_elements);
        entries_bytes.saturating_add(index_bytes).saturating_add(word)
    }
}

impl<K: MapKey, V> OmniMap<K, V> {
    /// Load law: the length never exceeds the capacity, and entries
    /// plus tombstones together never exceed it either.
    pub proof fn lemma_load_bounded(&self)
        requires
            self.well_formed(),
        ensures
            self@.len() <= self.spec_capacity(),
            self@.len() + self.spec_deleted() <= self.spec_capacity(),
    {
        lemma_count_partition(self.index@);
        lemma_count_bounds(self.index@, empty_pred());
    }

    /// Index soundness law: every occupied slot refers to an ordinal
    /// below the length, and the probe from that entry's home slot
    /// (its key's hash reduced by the capacity) reaches the slot over
    /// non-empty slots only.
    pub proof fn lemma_table_sound(&self)
        requires
            self.well_formed(),
        ensures
            forall|s: int|
                0 <= s < self.spec_capacity() ==> ((#[trigger] self.table()[s]) matches
                Slot::Occupied(o) ==> (o as int) < self@.len() && path_clear(
                    self.table(),
                    (self@[o as int].0.hash_spec() as int) % self.spec_capacity(),
                    s,
                )),
    {
        assert forall|s: int|
            0 <= s < self.spec_capacity() && (#[trigger] self.table()[s]) is Occupied implies {
            let o = self.table()[s]->Occupied_0;
            (o as int) < self@.len() && path_clear(
                self.table(),
                (self@[o as int].0.hash_spec() as int) % self.spec_capacity(),
                s,
            )
        } by {
            assert(self.slot_ok(s));
            let o = self.table()[s]->Occupied_0;
            assert(self@[o as int].0 == self.entries@[o as int].key);
            assert(self.entries@[o as int].hash == self.entries@[o as int].key.hash_spec());
        }
    }

    /// Bijection law: the occupied slots reference every ordinal
    /// below the length, and no two of them reference the same one.
    pub proof fn lemma_table_bijective(&self)
        requires
            self.well_formed(),
        ensures
            forall|o: int| 0 <= o < self@.len() ==> table_has_ordinal(self.table(), o),
            forall|s1: int, s2: int|
                (0 <= s1 < self.spec_capacity() && 0 <= s2 < self.spec_capacity() && s1 != s2 && (
                #[trigger] self.table()[s1]) is Occupied && (#[trigger] self.table()[s2])
                    is Occupied) ==> self.table()[s1] != self.table()[s2],
            forall|s: int|
                0 <= s < self.spec_capacity() ==> ((#[trigger] self.table()[s]) matches
                Slot::Occupied(o) ==> (o as int) < self@.len()),
    {
        assert forall|s: int|
            0 <= s < self.spec_capacity() && (#[trigger] self.table()[s]) is Occupied implies (
        self.table()[s]->Occupied_0 as int) < self@.len() by {
            assert(self.slot_ok(s));
        }
    }

    /// Order law: a key the lookup finds appears at exactly one
    /// position of the emitted order, paired with the looked-up
    /// value.
    pub proof fn lemma_unique_position(&self, k: K)
        requires
            self.well_formed(),
            seq_has_key(self@, k),
        ensures
            0 <= seq_key_pos(self@, k) < self@.len(),
            self@[seq_key_pos(self@, k)] == (k, seq_value_of(self@, k)),
            forall|i: int| 0 <= i < self@.len() && (#[trigger] self@[i]).0 == k ==> i == seq_key_pos(self@, k),
    {
        self.lemma_view_keys_distinct();
        let p = seq_key_pos(self@, k);
        assert forall|i: int|
            0 <= i < self@.len() && (#[trigger] self@[i]).0 == k implies i == p by {
            lemma_key_at(self@, i);
        }
    }
}

/// Round-trip law for insertion: in the updated sequence the
/// inserted key maps to the inserted value, and every other key is
/// exactly as before.
pub proof fn lemma_model_insert_get<K, V>(s: Seq<(K, V)>, k: K, v: V)
    requires
        distinct_keys(s),
    ensures
        distinct_keys(model_insert(s, k, v)),
        seq_has_key(model_insert(s, k, v), k),
        seq_value_of(model_insert(s, k, v), k) == v,
        forall|k2: K|
            k2 != k ==> (#[trigger] seq_has_key(model_insert(s, k, v), k2)) == seq_has_key(s, k2),
        forall|k2: K|
            k2 != k && seq_has_key(s, k2) ==> #[trigger] seq_value_of(model_insert(s, k, v), k2)
                == seq_value_of(s, k2),
{
    let t = model_insert(s, k, v);
    if seq_has_key(s, k) {
        let p = seq_key_pos(s, k);
        assert(0 <= p < s.len() && s[p].0 == k);
        assert(t == s.update(p, (k, v)));
        assert(forall|j: int| 0 <= j < t.len() ==> (#[trigger] t[j]).0 == s[j].0);
        assert(distinct_keys(t));
        assert(t[p].0 == k);
        assert(seq_has_key(t, k));
        lemma_key_at(t, p);
        assert forall|k2: K| k2 != k implies (#[trigger] seq_has_key(t, k2)) == seq_has_key(
            s,
            k2,
        ) by {
            if seq_has_key(s, k2) {
                let j = seq_key_pos(s, k2);
                assert(t[j].0 == k2);
            }
            if seq_has_key(t, k2) {
                let j = seq_key_pos(t, k2);
                assert(s[j].0 == k2);
            }
        }
        assert forall|k2: K| k2 != k && seq_has_key(s, k2) implies #[trigger] seq_value_of(t, k2)
            == seq_value_of(s, k2) by {
            let j = seq_key_pos(s, k2);
            assert(0 <= j < s.len() && s[j].0 == k2);
            assert(j != p);
            assert(t[j] == s[j]);
            lemma_key_at(t, j);
            lemma_key_at(s, j);
        }
    } else {
        assert(t == s.push((k, v)));
        assert forall|j: int| 0 <= j < s.len() implies (#[trigger] s[j]).0 != k by {
            if s[j].0 == k {
                assert(seq_has_key(s, k));
            }
        }
        assert(forall|j: int| 0 <= j < s.len() ==> (#[trigger] t[j]) == s[j]);
        assert(t[s.len() as int].0 == k);
        assert(distinct_keys(t));
        lemma_key_at(t, s.len() as int);
        assert forall|k2: K| k2 != k implies (#[trigger] seq_has_key(t, k2)) == seq_has_key(
            s,
            k2,
        ) by {
            if seq_has_key(s, k2) {
                let j = seq_key_pos(s, k2);
                assert(t[j].0 == k2);
            }
            if seq_has_key(t, k2) {
                let j = seq_key_pos(t, k2);
                assert(j < s.len());
                assert(s[j].0 == k2);
            }
        }
        assert forall|k2: K| k2 != k && seq_has_key(s, k2) implies #[trigger] seq_value_of(t, k2)
            == seq_value_of(s, k2) by {
            let j = seq_key_pos(s, k2);
            assert(t[j] == s[j]);
            lemma_key_at(t, j);
            lemma_key_at(s, j);
        }
    }
}

/// Round-trip law for removal: the removed key is gone from the
/// shrunk sequence, and every other key keeps its value.
pub proof fn lemma_model_remove_get<K, V>(s: Seq<(K, V)>, k: K)
    requires
        distinct_keys(s),
    ensures
        distinct_keys(model_remove(s, k)),
        !seq_has_key(model_remove(s, k), k),
        forall|k2: K|
            k2 != k ==> (#[trigger] seq_has_key(model_remove(s, k), k2)) == seq_has_key(s, k2),
        forall|k2: K|
            k2 != k && seq_has_key(s, k2) ==> #[trigger] seq_value_of(model_remove(s, k), k2)
                == seq_value_of(s, k2),
{
    let t = model_remove(s, k);
    if seq_has_key(s, k) {
        let p = seq_key_pos(s, k);
        assert(0 <= p < s.len() && s[p].0 == k);
        assert(t == s.remove(p));
        assert forall|j: int| 0 <= j < t.len() implies (#[trigger] t[j]) == (if j < p {
            s[j]
        } else {
            s[j + 1]
        }) by {}
        assert forall|a: int, b: int| 0 <= a < b < t.len() implies (#[trigger] t[a]).0 != (
        #[trigger] t[b]).0 by {
            let a0 = if a < p {
                a
            } else {
                a + 1
            };
            let b0 = if b < p {
                b
            } else {
                b + 1
            };
            assert(s[a0].0 != s[b0].0);
        }
        assert forall|j: int| 0 <= j < t.len() implies (#[trigger] t[j]).0 != k by {
            let j0 = if j < p {
                j
            } else {
                j + 1
            };
            assert(j0 != p);
            if s[j0].0 == k {
                if j0 < p {
                    assert(s[j0].0 != s[p].0);
                } else {
                    assert(s[p].0 != s[j0].0);
                }
            }
        }
        if seq_has_key(t, k) {
            let j = seq_key_pos(t, k);
            assert(t[j].0 == k);
        }
        assert forall|k2: K| k2 != k implies (#[trigger] seq_has_key(t, k2)) == seq_has_key(
            s,
            k2,
        ) by {
            if seq_has_key(s, k2) {
                let j = seq_key_pos(s, k2);
                assert(j != p);
                if j < p {
                    assert(t[j].0 == k2);
                } else {
                    assert(t[j - 1].0 == k2);
                }
            }
            if seq_has_key(t, k2) {
                let j = seq_key_pos(t, k2);
                let j0 = if j < p {
                    j
                } else {
                    j + 1
                };
                assert(s[j0].0 == k2);
            }
        }
        assert forall|k2: K| k2 != k && seq_has_key(s, k2) implies #[trigger] seq_value_of(t, k2)
            == seq_value_of(s, k2) by {
            let j = seq_key_pos(s, k2);
            lemma_key_at(s, j);
            assert(j != p);
            if j < p {
                assert(t[j] == s[j]);
                lemma_key_at(t, j);
            } else {
                assert(t[j - 1] == s[j]);
                lemma_key_at(t, j - 1);
            }
        }
    }
}

/// A table of `cap` empty slots.
fn empty_table(cap: usize) -> (r: Vec<Slot>)
    ensures
        r@.len() == cap,
        forall|s: int| 0 <= s < cap ==> (#[trigger] r@[s]) is Empty,
{
    let mut table: Vec<Slot> = Vec::new();
    while table.len() < cap
        invariant
            table@.len() <= cap,
            forall|s: int| 0 <= s < table@.len() ==> (#[trigger] table@[s]) is Empty,
        decreases cap - table@.len(),
    {
        table.push(Slot::Empty);
    }
    table
}

/// In an all-empty table every count but the empty one is zero.
proof fn lemma_all_empty_counts(table: Seq<Slot>)
    requires
        forall|s: int| 0 <= s < table.len() ==> (#[trigger] table[s]) is Empty,
    ensures
        count_matching(table, deleted_pred()) == 0,
        count_matching(table, occupied_pred()) == 0,
        count_matching(table, empty_pred()) == table.len(),
{
    lemma_count_bounds(table, deleted_pred());
    lemma_count_bounds(table, occupied_pred());
    lemma_count_exists(table, deleted_pred());
    lemma_count_exists(table, occupied_pred());
    lemma_count_partition(table);
}

/// Consumes the map and yields its pairs in insertion order.
pub struct OmniMapIntoIter<K, V> {
    entries: AllocVec<Entry<K, V>>,
}

impl<K, V> View for OmniMapIntoIter<K, V> {
    type V = Seq<(K, V)>;

    /// The pairs not yet yielded, in order.
    closed spec fn view(&self) -> Seq<(K, V)> {
        Seq::new(self.entries@.len(), |i: int| (self.entries@[i].key, self.entries@[i].value))
    }
}

impl<K, V> OmniMapIntoIter<K, V> {
    /// The next pair in insertion order, or nothing once every pair
    /// has been yielded.
    pub fn next(&mut self) -> (r: Option<(K, V)>)
        ensures
            old(self)@.len() == 0 ==> r is None && final(self)@ == old(self)@,
            old(self)@.len() > 0 ==> r == Some(old(self)@[0]) && final(self)@ == old(
                self,
            )@.remove(0),
    {
        if self.entries.is_empty() {
            return None;
        }
        let e = self.entries.pop_front();
        proof {
            assert(self@ =~= old(self)@.remove(0));
        }
        Some((e.key, e.value))
    }
}

} // verus!
