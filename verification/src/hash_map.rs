//! A fixed-capacity open-addressing hash map with `String` keys.
//!
//! Collisions are resolved by linear probing and entries are never removed,
//! so a probe walks forward from a key's home bucket until it meets the key
//! itself or an empty bucket. The map is modeled as a `Map<Seq<char>, V>`
//! from key views to values.

use vstd::prelude::*;

verus! {

/// The fixed number of buckets.
pub const DEFAULT_CAPACITY: usize = 55000;

/// The capacity as a mathematical integer.
pub open spec fn spec_cap() -> int {
    DEFAULT_CAPACITY as int
}

/// The running hash folded over one more byte.
pub open spec fn hash_step(h: usize, byte: u8) -> usize {
    (h << 5usize) ^ (h >> 2usize) ^ (byte as usize)
}

/// The hash of a byte string: zero folded through `hash_step`.
pub open spec fn hash_of(bytes: Seq<u8>) -> usize
    decreases bytes.len(),
{
    if bytes.len() == 0 {
        0usize
    } else {
        hash_step(hash_of(bytes.drop_last()), bytes.last())
    }
}

/// The hash of a key, taken over its UTF-8 bytes.
pub open spec fn spec_hash(key: Seq<char>) -> usize {
    hash_of(vstd::utf8::encode_utf8(key))
}

/// The home bucket of a key.
pub open spec fn bucket_of(key: Seq<char>) -> int {
    spec_hash(key) as int % spec_cap()
}

/// The cyclic distance walked from bucket `h` forward to bucket `j`.
pub open spec fn dist(h: int, j: int) -> int {
    if j >= h {
        j - h
    } else {
        j + spec_cap() - h
    }
}

/// The bucket reached from `h` after `d` forward steps (for `d` below the
/// capacity).
pub open spec fn slot_at(h: int, d: int) -> int {
    if h + d < spec_cap() {
        h + d
    } else {
        h + d - spec_cap()
    }
}

/// The key stored in bucket `j`, as a sequence of characters.
pub open spec fn slot_key<V>(b: Seq<Option<(String, V)>>, j: int) -> Seq<char> {
    match b[j] {
        Some(p) => p.0@,
        None => Seq::empty(),
    }
}

/// The value stored in bucket `j`.
pub open spec fn slot_val<V>(b: Seq<Option<(String, V)>>, j: int) -> V {
    match b[j] {
        Some(p) => p.1,
        None => vstd::pervasive::arbitrary(),
    }
}

/// The invariant of the bucket array.
///
/// Capacity is fixed; no key occupies two buckets; and every occupied
/// bucket is reachable from its key's home bucket by walking over occupied
/// buckets only, which is exactly what linear probing without removal
/// maintains.
pub open spec fn buckets_wf<V>(b: Seq<Option<(String, V)>>) -> bool {
    &&& b.len() == spec_cap()
    &&& (forall|i: int, j: int|
        #![trigger b[i], b[j]]
        0 <= i < b.len() && 0 <= j < b.len() && i != j && b[i] is Some && b[j] is Some
            ==> slot_key(b, i) != slot_key(b, j))
    &&& (forall|i: int, j: int|
        #![trigger b[i], b[j]]
        0 <= i < b.len() && 0 <= j < b.len() && b[j] is Some && dist(
            bucket_of(slot_key(b, j)),
            i,
        ) < dist(bucket_of(slot_key(b, j)), j) ==> b[i] is Some)
}

/// Whether some bucket holds `key`.
pub open spec fn spec_contains_key<V>(b: Seq<Option<(String, V)>>, key: Seq<char>) -> bool {
    exists|j: int| 0 <= j < b.len() && b[j] is Some && slot_key(b, j) == key
}

/// The bucket holding `key` (meaningful only when one exists).
pub open spec fn spec_slot_of<V>(b: Seq<Option<(String, V)>>, key: Seq<char>) -> int {
    choose|j: int| 0 <= j < b.len() && b[j] is Some && slot_key(b, j) == key
}

/// The value stored under `key`.
pub open spec fn spec_value_of<V>(b: Seq<Option<(String, V)>>, key: Seq<char>) -> V {
    slot_val(b, spec_slot_of(b, key))
}

/// How many buckets are occupied.
pub open spec fn count_some<V>(b: Seq<Option<(String, V)>>) -> int
    decreases b.len(),
{
    if b.len() == 0 {
        0
    } else {
        count_some(b.drop_last()) + if b.last() is Some {
            1int
        } else {
            0int
        }
    }
}

/// The occupancy count never leaves `[0, len]`.
pub proof fn lemma_count_some_bounds<V>(b: Seq<Option<(String, V)>>)
    ensures
        0 <= count_some(b) <= b.len(),
    decreases b.len(),
{
    if b.len() > 0 {
        lemma_count_some_bounds(b.drop_last());
    }
}

/// Writing an entry raises the occupancy count exactly when the bucket was
/// empty.
pub proof fn lemma_count_some_update<V>(b: Seq<Option<(String, V)>>, j: int, x: (String, V))
    requires
        0 <= j < b.len(),
    ensures
        count_some(b.update(j, Some(x))) == count_some(b) + if b[j] is Some {
            0int
        } else {
            1int
        },
    decreases b.len(),
{
    let b2 = b.update(j, Some(x));
    let n = b.len() - 1;
    if j == n {
        assert(b2.drop_last() =~= b.drop_last());
    } else {
        assert(b2.drop_last() =~= b.drop_last().update(j, Some(x)));
        lemma_count_some_update(b.drop_last(), j, x);
    }
}

/// A table that is not full has an empty bucket.
pub proof fn lemma_count_lt_has_none<V>(b: Seq<Option<(String, V)>>)
    requires
        count_some(b) < b.len(),
    ensures
        exists|j: int| 0 <= j < b.len() && b[j] is None,
    decreases b.len(),
{
    if b.len() > 0 {
        if b.last() is None {
            assert(b[b.len() - 1] is None);
        } else {
            lemma_count_lt_has_none(b.drop_last());
            let j = choose|j: int|
                0 <= j < b.drop_last().len() && b.drop_last()[j] is None;
            assert(b[j] is None);
        }
    }
}

/// A key's home bucket is a valid bucket index.
pub proof fn lemma_bucket_of_bounds(key: Seq<char>)
    ensures
        0 <= bucket_of(key) < spec_cap(),
{
    broadcast use vstd::arithmetic::div_mod::lemma_mod_bound;

}

/// If a probe from `key`'s home bucket has walked `t` occupied buckets all
/// holding other keys and then meets an empty bucket, `key` is nowhere in
/// the array: had it been stored, the probe invariant would have kept every
/// bucket on the way to it occupied.
pub proof fn lemma_probe_misses<V>(b: Seq<Option<(String, V)>>, key: Seq<char>, t: int)
    requires
        buckets_wf(b),
        0 <= t < spec_cap(),
        forall|d: int|
            #![trigger slot_at(bucket_of(key), d)]
            0 <= d < t ==> b[slot_at(bucket_of(key), d)] is Some && slot_key(
                b,
                slot_at(bucket_of(key), d),
            ) != key,
        b[slot_at(bucket_of(key), t)] is None,
    ensures
        !spec_contains_key(b, key),
{
    let h = bucket_of(key);
    lemma_bucket_of_bounds(key);
    assert forall|j: int| 0 <= j < b.len() && b[j] is Some implies slot_key(b, j) != key by {
        if slot_key(b, j) == key {
            let dj = dist(h, j);
            assert(slot_at(h, dj) == j);
            if dj < t {
                assert(b[slot_at(h, dj)] is Some && slot_key(b, slot_at(h, dj)) != key);
            } else if dj == t {
                assert(b[slot_at(h, t)] is None);
            } else {
                let it = slot_at(h, t);
                assert(dist(h, it) == t);
                assert(bucket_of(slot_key(b, j)) == h);
                assert(b[it] is Some);
            }
            assert(false);
        }
    };
    if spec_contains_key(b, key) {
        let j = choose|j: int| 0 <= j < b.len() && b[j] is Some && slot_key(b, j) == key;
        assert(false);
    }
}

/// If a probe has walked the whole table and met only other keys, `key` is
/// nowhere in it: every bucket sits at some probe distance below the
/// capacity.
pub proof fn lemma_full_sweep_misses<V>(b: Seq<Option<(String, V)>>, key: Seq<char>)
    requires
        buckets_wf(b),
        forall|d: int|
            #![trigger slot_at(bucket_of(key), d)]
            0 <= d < spec_cap() ==> b[slot_at(bucket_of(key), d)] is Some && slot_key(
                b,
                slot_at(bucket_of(key), d),
            ) != key,
    ensures
        !spec_contains_key(b, key),
{
    let h = bucket_of(key);
    lemma_bucket_of_bounds(key);
    if spec_contains_key(b, key) {
        let j = choose|j: int| 0 <= j < b.len() && b[j] is Some && slot_key(b, j) == key;
        let dj = dist(h, j);
        assert(slot_at(h, dj) == j);
        assert(slot_key(b, slot_at(h, dj)) != key);
        assert(false);
    }
}

/// A stored key picks out its bucket uniquely, so the value looked up under
/// it is the value stored in that bucket.
pub proof fn lemma_slot_unique<V>(b: Seq<Option<(String, V)>>, j: int, key: Seq<char>)
    requires
        buckets_wf(b),
        0 <= j < b.len(),
        b[j] is Some,
        slot_key(b, j) == key,
    ensures
        spec_contains_key(b, key),
        spec_slot_of(b, key) == j,
        spec_value_of(b, key) == slot_val(b, j),
{
    assert(spec_contains_key(b, key));
    let j2 = spec_slot_of(b, key);
    assert(0 <= j2 < b.len() && b[j2] is Some && slot_key(b, j2) == key);
    if j2 != j {
        assert(slot_key(b, j2) != slot_key(b, j));
        assert(false);
    }
}

/// Writing a key the table does not hold into the empty bucket its probe
/// found keeps the invariant, stores the key, and leaves every other key's
/// entry untouched.
pub proof fn lemma_insert_fresh<V>(b: Seq<Option<(String, V)>>, key: String, value: V, t: int)
    requires
        buckets_wf(b),
        0 <= t < spec_cap(),
        forall|d: int|
            #![trigger slot_at(bucket_of(key@), d)]
            0 <= d < t ==> b[slot_at(bucket_of(key@), d)] is Some && slot_key(
                b,
                slot_at(bucket_of(key@), d),
            ) != key@,
        b[slot_at(bucket_of(key@), t)] is None,
    ensures
        ({
            let b2 = b.update(slot_at(bucket_of(key@), t), Some((key, value)));
            &&& buckets_wf(b2)
            &&& spec_contains_key(b2, key@)
            &&& spec_value_of(b2, key@) == value
            &&& !spec_contains_key(b, key@)
            &&& (forall|k2: Seq<char>|
                k2 != key@ ==> #[trigger] spec_contains_key(b2, k2) == spec_contains_key(b, k2))
            &&& (forall|k2: Seq<char>|
                k2 != key@ && spec_contains_key(b, k2) ==> #[trigger] spec_value_of(b2, k2)
                    == spec_value_of(b, k2))
        }),
{
    let h = bucket_of(key@);
    lemma_bucket_of_bounds(key@);
    let it = slot_at(h, t);
    let b2 = b.update(it, Some((key, value)));
    lemma_probe_misses(b, key@, t);
    assert(dist(h, it) == t);
    assert(slot_key(b2, it) == key@);
    assert forall|i: int, j: int|
        0 <= i < b2.len() && 0 <= j < b2.len() && i != j && b2[i] is Some
            && b2[j] is Some implies slot_key(b2, i) != slot_key(b2, j) by {
        if i == it {
            if slot_key(b2, j) == key@ {
                assert(b[j] is Some && slot_key(b, j) == key@);
                assert(spec_contains_key(b, key@));
            }
        } else if j == it {
            if slot_key(b2, i) == key@ {
                assert(b[i] is Some && slot_key(b, i) == key@);
                assert(spec_contains_key(b, key@));
            }
        } else {
            assert(b[i] is Some && b[j] is Some);
        }
    };
    assert forall|i: int, j: int|
        0 <= i < b2.len() && 0 <= j < b2.len() && b2[j] is Some && dist(
            bucket_of(slot_key(b2, j)),
            i,
        ) < dist(bucket_of(slot_key(b2, j)), j) implies b2[i] is Some by {
        if j == it {
            let d = dist(h, i);
            assert(slot_at(h, d) == i);
            assert(b[slot_at(h, d)] is Some);
        } else {
            assert(b[j] is Some && slot_key(b2, j) == slot_key(b, j));
            if i != it {
                assert(b[i] is Some);
            }
        }
    };
    assert(buckets_wf(b2));
    lemma_slot_unique(b2, it, key@);
    assert forall|k2: Seq<char>| k2 != key@ implies #[trigger] spec_contains_key(b2, k2)
        == spec_contains_key(b, k2) by {
        if spec_contains_key(b2, k2) {
            let j = choose|j: int| 0 <= j < b2.len() && b2[j] is Some && slot_key(b2, j) == k2;
            assert(j != it);
            assert(b[j] is Some && slot_key(b, j) == k2);
            assert(spec_contains_key(b, k2));
        }
        if spec_contains_key(b, k2) {
            let j = choose|j: int| 0 <= j < b.len() && b[j] is Some && slot_key(b, j) == k2;
            assert(j != it);
            assert(b2[j] is Some && slot_key(b2, j) == k2);
            assert(spec_contains_key(b2, k2));
        }
    };
    assert forall|k2: Seq<char>|
        k2 != key@ && spec_contains_key(b, k2) implies #[trigger] spec_value_of(b2, k2)
        == spec_value_of(b, k2) by {
        let j = choose|j: int| 0 <= j < b.len() && b[j] is Some && slot_key(b, j) == k2;
        assert(j != it);
        lemma_slot_unique(b, j, k2);
        lemma_slot_unique(b2, j, k2);
    };
}

/// Overwriting the bucket that already holds `key` keeps the invariant,
/// replaces only that key's value, and leaves every other key's entry
/// untouched.
pub proof fn lemma_insert_replace<V>(b: Seq<Option<(String, V)>>, key: String, value: V, j: int)
    requires
        buckets_wf(b),
        0 <= j < b.len(),
        b[j] is Some,
        slot_key(b, j) == key@,
    ensures
        ({
            let b2 = b.update(j, Some((key, value)));
            &&& buckets_wf(b2)
            &&& spec_contains_key(b, key@)
            &&& spec_contains_key(b2, key@)
            &&& spec_value_of(b2, key@) == value
            &&& (forall|k2: Seq<char>|
                k2 != key@ ==> #[trigger] spec_contains_key(b2, k2) == spec_contains_key(b, k2))
            &&& (forall|k2: Seq<char>|
                k2 != key@ && spec_contains_key(b, k2) ==> #[trigger] spec_value_of(b2, k2)
                    == spec_value_of(b, k2))
        }),
{
    let b2 = b.update(j, Some((key, value)));
    assert(slot_key(b2, j) == key@);
    assert(forall|x: int|
        0 <= x < b.len() ==> (#[trigger] b2[x] is Some <==> b[x] is Some));
    assert(forall|x: int|
        0 <= x < b.len() && b[x] is Some ==> #[trigger] slot_key(b2, x) == slot_key(b, x));
    assert forall|i: int, j2: int|
        0 <= i < b2.len() && 0 <= j2 < b2.len() && i != j2 && b2[i] is Some
            && b2[j2] is Some implies slot_key(b2, i) != slot_key(b2, j2) by {
        assert(b[i] is Some && b[j2] is Some);
    };
    assert forall|i: int, j2: int|
        0 <= i < b2.len() && 0 <= j2 < b2.len() && b2[j2] is Some && dist(
            bucket_of(slot_key(b2, j2)),
            i,
        ) < dist(bucket_of(slot_key(b2, j2)), j2) implies b2[i] is Some by {
        assert(b[j2] is Some && slot_key(b2, j2) == slot_key(b, j2));
        assert(b[i] is Some);
    };
    assert(buckets_wf(b2));
    lemma_slot_unique(b, j, key@);
    lemma_slot_unique(b2, j, key@);
    assert forall|k2: Seq<char>| k2 != key@ implies #[trigger] spec_contains_key(b2, k2)
        == spec_contains_key(b, k2) by {
        if spec_contains_key(b2, k2) {
            let x = choose|x: int| 0 <= x < b2.len() && b2[x] is Some && slot_key(b2, x) == k2;
            assert(x != j);
            assert(b[x] is Some && slot_key(b, x) == k2);
            assert(spec_contains_key(b, k2));
        }
        if spec_contains_key(b, k2) {
            let x = choose|x: int| 0 <= x < b.len() && b[x] is Some && slot_key(b, x) == k2;
            assert(x != j);
            assert(b2[x] is Some && slot_key(b2, x) == k2);
            assert(spec_contains_key(b2, k2));
        }
    };
    assert forall|k2: Seq<char>|
        k2 != key@ && spec_contains_key(b, k2) implies #[trigger] spec_value_of(b2, k2)
        == spec_value_of(b, k2) by {
        let x = choose|x: int| 0 <= x < b.len() && b[x] is Some && slot_key(b, x) == k2;
        assert(x != j);
        lemma_slot_unique(b, x, k2);
        lemma_slot_unique(b2, x, k2);
    };
}

pub struct HashMap<K, V> {
    buckets: Vec<Option<(K, V)>>,
}

impl<V> View for HashMap<String, V> {
    type V = Map<Seq<char>, V>;

    closed spec fn view(&self) -> Map<Seq<char>, V> {
        Map::new(
            |key: Seq<char>| spec_contains_key(self.buckets@, key),
            |key: Seq<char>| spec_value_of(self.buckets@, key),
        )
    }
}

impl<V> HashMap<String, V> {
    /// The map's invariant; every method keeps it.
    pub closed spec fn wf(&self) -> bool {
        buckets_wf(self.buckets@)
    }

    /// How many of the buckets are occupied: one per key held.
    pub closed spec fn spec_len(&self) -> int {
        count_some(self.buckets@)
    }

    /// An empty map with `DEFAULT_CAPACITY` buckets.
    pub fn new() -> (r: Self)
        ensures
            r.wf(),
            r@ == Map::<Seq<char>, V>::empty(),
            r.spec_len() == 0,
    {
        let mut buckets: Vec<Option<(String, V)>> = Vec::new();
        let mut i: usize = 0;
        while i < DEFAULT_CAPACITY
            invariant
                i <= DEFAULT_CAPACITY,
                buckets@.len() == i,
                forall|j: int| 0 <= j < i ==> buckets@[j] is None,
                count_some(buckets@) == 0,
            decreases DEFAULT_CAPACITY - i,
        {
            let ghost before = buckets@;
            buckets.push(None);
            proof {
                assert(buckets@.drop_last() =~= before);
            }
            i = i + 1;
        }
        let r = Self { buckets };
        proof {
            assert(r@ =~= Map::<Seq<char>, V>::empty());
        }
        r
    }

    /// The bucket index `key` hashes to.
    fn hash(&self, key: &String) -> (r: usize)
        ensures
            r as int == spec_hash(key@) as int,
    {
        let bytes: &[u8] = key.as_str().as_bytes();
        let ghost all: Seq<u8> = bytes@;
        let mut h: usize = 0;
        let mut i: usize = 0;
        while i < bytes.len()
            invariant
                i <= bytes@.len(),
                bytes@ == all,
                h == hash_of(all.take(i as int)),
            decreases bytes@.len() - i,
        {
            h = (h << 5) ^ (h >> 2) ^ (bytes[i] as usize);
            proof {
                assert(all.take(i + 1 as int).drop_last() =~= all.take(i as int));
                assert(all.take(i + 1 as int).last() == all[i as int]);
            }
            i = i + 1;
        }
        proof {
            assert(all.take(all.len() as int) =~= all);
        }
        h
    }

    /// Look `key` up: the value stored under it, or `None` exactly when the
    /// map does not hold the key.
    pub fn get(&self, key: &String) -> (r: Option<&V>)
        requires
            self.wf(),
        ensures
            match r {
                Some(v) => self@.contains_key(key@) && *v == self@[key@],
                None => !self@.contains_key(key@),
            },
    {
        let ghost b = self.buckets@;
        let ghost h = bucket_of(key@);
        proof {
            lemma_bucket_of_bounds(key@);
        }
        let mut idx = self.hash(key) % self.buckets.len();
        let mut st: usize = 0;
        while st < DEFAULT_CAPACITY
            invariant
                self.wf(),
                b == self.buckets@,
                h == bucket_of(key@),
                st <= DEFAULT_CAPACITY,
                idx < DEFAULT_CAPACITY,
                st < DEFAULT_CAPACITY ==> idx as int == slot_at(h, st as int),
                forall|d: int|
                    #![trigger slot_at(h, d)]
                    0 <= d < st ==> b[slot_at(h, d)] is Some && slot_key(b, slot_at(h, d)) != key@,
            decreases DEFAULT_CAPACITY - st,
        {
            match &self.buckets[idx] {
                Some(pair) => {
                    if pair.0.eq(key) {
                        proof {
                            lemma_slot_unique(b, idx as int, key@);
                        }
                        return Some(&pair.1);
                    }
                },
                None => {
                    proof {
                        lemma_probe_misses(b, key@, st as int);
                    }
                    return None;
                },
            }
            proof {
                assert(b[slot_at(h, st as int)] is Some);
                assert(slot_key(b, slot_at(h, st as int)) != key@);
            }
            st = st + 1;
            idx = if idx + 1 == DEFAULT_CAPACITY {
                0
            } else {
                idx + 1
            };
        }
        proof {
            lemma_full_sweep_misses(b, key@);
        }
        None
    }

    /// Store `value` under `key`, overwriting any earlier value.
    ///
    /// The table never grows, so a key the map does not yet hold needs a
    /// free bucket; a key it already holds is overwritten in place.
    pub fn insert(&mut self, key: String, value: V)
        requires
            old(self).wf(),
            old(self).spec_len() < spec_cap() || old(self)@.contains_key(key@),
        ensures
            final(self).wf(),
            final(self)@ == old(self)@.insert(key@, value),
            final(self).spec_len() == old(self).spec_len() + (if old(self)@.contains_key(key@) {
                0int
            } else {
                1int
            }),
    {
        let ghost b = self.buckets@;
        let ghost h = bucket_of(key@);
        proof {
            lemma_bucket_of_bounds(key@);
        }
        let mut idx = self.hash(&key) % self.buckets.len();
        let mut st: usize = 0;
        while st < DEFAULT_CAPACITY
            invariant
                old(self).wf(),
                b == self.buckets@,
                b == old(self).buckets@,
                h == bucket_of(key@),
                st <= DEFAULT_CAPACITY,
                idx < DEFAULT_CAPACITY,
                st < DEFAULT_CAPACITY ==> idx as int == slot_at(h, st as int),
                old(self).spec_len() < spec_cap() || old(self)@.contains_key(key@),
                forall|d: int|
                    #![trigger slot_at(h, d)]
                    0 <= d < st ==> b[slot_at(h, d)] is Some && slot_key(b, slot_at(h, d)) != key@,
            decreases DEFAULT_CAPACITY - st,
        {
            let hit = match &self.buckets[idx] {
                Some(pair) => {
                    if pair.0.eq(&key) {
                        true
                    } else {
                        false
                    }
                },
                None => {
                    proof {
                        lemma_probe_misses(b, key@, st as int);
                        lemma_insert_fresh(b, key, value, st as int);
                        lemma_count_some_update(b, idx as int, (key, value));
                    }
                    self.buckets[idx] = Some((key, value));
                    proof {
                        assert(self@ =~= old(self)@.insert(key@, value));
                    }
                    return ;
                },
            };
            if hit {
                proof {
                    lemma_slot_unique(b, idx as int, key@);
                    lemma_insert_replace(b, key, value, idx as int);
                    lemma_count_some_update(b, idx as int, (key, value));
                }
                self.buckets[idx] = Some((key, value));
                proof {
                    assert(self@ =~= old(self)@.insert(key@, value));
                }
                return ;
            }
            proof {
                assert(b[slot_at(h, st as int)] is Some);
                assert(slot_key(b, slot_at(h, st as int)) != key@);
            }
            st = st + 1;
            idx = if idx + 1 == DEFAULT_CAPACITY {
                0
            } else {
                idx + 1
            };
        }
        proof {
            lemma_full_sweep_misses(b, key@);
            lemma_count_some_bounds(b);
            lemma_count_lt_has_none(b);
            let j = choose|j: int| 0 <= j < b.len() && b[j] is None;
            let dj = dist(h, j);
            assert(slot_at(h, dj) == j);
            assert(b[slot_at(h, dj)] is Some);
            assert(false);
        }
    }

    /// Every entry of the map, in bucket order: one pair per key held, each
    /// pair holding a key and the value stored under it.
    #[verifier::rlimit(50)]
    pub fn iter(&self) -> (r: Vec<&(String, V)>)
        requires
            self.wf(),
        ensures
            r@.len() == self.spec_len(),
            forall|m: int|
                0 <= m < r@.len() ==> self@.contains_key(#[trigger] r@[m].0@) && r@[m].1
                    == self@[r@[m].0@],
            forall|k: Seq<char>|
                #[trigger] self@.contains_key(k) ==> exists|m: int|
                    0 <= m < r@.len() && r@[m].0@ == k,
            forall|m1: int, m2: int|
                0 <= m1 < m2 < r@.len() ==> #[trigger] r@[m1].0@ != #[trigger] r@[m2].0@,
    {
        let ghost b = self.buckets@;
        let mut out: Vec<&(String, V)> = Vec::new();
        let ghost mut idxs: Seq<int> = Seq::empty();
        let mut i: usize = 0;
        while i < DEFAULT_CAPACITY
            invariant
                self.wf(),
                b == self.buckets@,
                i <= DEFAULT_CAPACITY,
                out@.len() == count_some(b.take(i as int)),
                idxs.len() == out@.len(),
                forall|m: int|
                    0 <= m < out@.len() ==> 0 <= #[trigger] idxs[m] < i && b[idxs[m]] is Some
                        && slot_key(b, idxs[m]) == out@[m].0@ && slot_val(b, idxs[m]) == out@[m].1,
                forall|m1: int, m2: int|
                    0 <= m1 < m2 < idxs.len() ==> #[trigger] idxs[m1] != #[trigger] idxs[m2],
                forall|j: int|
                    0 <= j < i && #[trigger] b[j] is Some ==> exists|m: int|
                        0 <= m < out@.len() && out@[m].0@ == slot_key(b, j),
            decreases DEFAULT_CAPACITY - i,
        {
            let ghost prev = out@;
            proof {
                assert(b.take(i + 1 as int).drop_last() =~= b.take(i as int));
                assert(b.take(i + 1 as int).last() == b[i as int]);
            }
            match &self.buckets[i] {
                Some(pair) => {
                    proof {
                        assert(b[i as int] is Some);
                        assert(slot_key(b, i as int) == pair.0@);
                        assert(slot_val(b, i as int) == pair.1);
                    }
                    out.push(pair);
                    proof {
                        idxs = idxs.push(i as int);
                        assert forall|j: int|
                            0 <= j < i + 1 && #[trigger] b[j] is Some implies exists|m: int|
                            0 <= m < out@.len() && out@[m].0@ == slot_key(b, j) by {
                            if j < i {
                                let m = choose|m: int|
                                    0 <= m < prev.len() && prev[m].0@ == slot_key(b, j);
                                assert(out@[m] == prev[m]);
                                assert(0 <= m < out@.len() && out@[m].0@ == slot_key(b, j));
                            } else {
                                let m = out@.len() - 1;
                                assert(out@[m] == pair);
                                assert(0 <= m < out@.len() && out@[m].0@ == slot_key(b, j));
                            }
                        };
                    }
                },
                None => {
                    proof {
                        assert forall|j: int|
                            0 <= j < i + 1 && #[trigger] b[j] is Some implies exists|m: int|
                            0 <= m < out@.len() && out@[m].0@ == slot_key(b, j) by {
                            if j == i {
                                assert(b[i as int] is None);
                                assert(false);
                            } else {
                                let m = choose|m: int|
                                    0 <= m < out@.len() && out@[m].0@ == slot_key(b, j);
                            }
                        };
                    }
                },
            }
            i = i + 1;
        }
        proof {
            assert(b.take(DEFAULT_CAPACITY as int) =~= b);
            assert forall|m: int|
                0 <= m < out@.len() implies self@.contains_key(#[trigger] out@[m].0@) && out@[m].1
                == self@[out@[m].0@] by {
                lemma_slot_unique(b, idxs[m], out@[m].0@);
            };
            assert forall|k: Seq<char>| #[trigger] self@.contains_key(k) implies exists|m: int|
                0 <= m < out@.len() && out@[m].0@ == k by {
                let j = choose|j: int| 0 <= j < b.len() && b[j] is Some && slot_key(b, j) == k;
                assert(b[j] is Some);
                let m = choose|m: int| 0 <= m < out@.len() && out@[m].0@ == slot_key(b, j);
                assert(out@[m].0@ == k);
            };
            assert forall|m1: int, m2: int|
                0 <= m1 < m2 < out@.len() implies #[trigger] out@[m1].0@
                != #[trigger] out@[m2].0@ by {
                assert(idxs[m1] != idxs[m2]);
                assert(b[idxs[m1]] is Some && b[idxs[m2]] is Some);
                assert(slot_key(b, idxs[m1]) != slot_key(b, idxs[m2]));
            };
        }
        out
    }
}

} // verus!
