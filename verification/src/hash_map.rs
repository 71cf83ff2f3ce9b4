//! A bucket-based hash map from `u64` keys to arbitrary values. Keys
//! are hashed with the standard library's default hasher; each bucket
//! holds its entries in a plain vector.

use vstd::prelude::*;
use vstd::std_specs::hash::DefaultHasherAdditionalSpecFns;
use std::collections::hash_map::DefaultHasher;
use std::hash::Hasher;

verus! {

/// How many buckets the map allocates when it first needs storage.
pub const INITIAL_SIZE: usize = 7;

/// One bucket: absent until something hashes into it.
pub type Bucket<V> = Option<Vec<(u64, V)>>;

/// A map from `u64` keys to values of type `V`, spread over hash
/// buckets.
pub struct HashMap<V> {
    buckets: Vec<Bucket<V>>,
}

/// The bytes of a key, least significant first, as fed to the hasher.
pub open spec fn key_bytes(k: u64) -> Seq<u8> {
    seq![
        (k & 0xff) as u8,
        ((k >> 8) & 0xff) as u8,
        ((k >> 16) & 0xff) as u8,
        ((k >> 24) & 0xff) as u8,
        ((k >> 32) & 0xff) as u8,
        ((k >> 40) & 0xff) as u8,
        ((k >> 48) & 0xff) as u8,
        ((k >> 56) & 0xff) as u8,
    ]
}

/// The bucket a key belongs to, among `n` buckets: the default
/// hasher's digest of the key's bytes, reduced modulo `n`.
pub open spec fn bucket_index_of(k: u64, n: int) -> int {
    DefaultHasher::spec_finish(seq![key_bytes(k)]) as int % n
}

/// The entries of one bucket, insertion order kept.
pub open spec fn bucket_entries<V>(bucket: Bucket<V>) -> Seq<(u64, V)> {
    match bucket {
        None => Seq::empty(),
        Some(v) => v@,
    }
}

/// Turns a key into the byte vector the hasher is fed.
fn key_bytes_vec(k: u64) -> (bytes: Vec<u8>)
    ensures
        bytes@ == key_bytes(k),
{
    let mut bytes: Vec<u8> = Vec::new();
    bytes.push((k & 0xff) as u8);
    bytes.push(((k >> 8) & 0xff) as u8);
    bytes.push(((k >> 16) & 0xff) as u8);
    bytes.push(((k >> 24) & 0xff) as u8);
    bytes.push(((k >> 32) & 0xff) as u8);
    bytes.push(((k >> 40) & 0xff) as u8);
    bytes.push(((k >> 48) & 0xff) as u8);
    bytes.push(((k >> 56) & 0xff) as u8);
    proof {
        assert(bytes@ =~= key_bytes(k));
    }
    bytes
}

/// Finds the position of `key` in a bucket's entry vector.
fn find_key_index<V>(entries: &Vec<(u64, V)>, key: u64) -> (found: Option<usize>)
    ensures
        match found {
            Some(j) => j < entries@.len() && entries@[j as int].0 == key,
            None => forall|t: int| 0 <= t < entries@.len() ==> entries@[t].0 != key,
        },
{
    let mut j: usize = 0;
    while j < entries.len()
        invariant
            j <= entries@.len(),
            forall|t: int| 0 <= t < j ==> entries@[t].0 != key,
        decreases entries@.len() - j,
    {
        if entries[j].0 == key {
            return Some(j);
        }
        j = j + 1;
    }
    None
}

impl<V> View for HashMap<V> {
    type V = Map<u64, V>;

    /// The mathematical map of keys to stored values.
    closed spec fn view(&self) -> Map<u64, V> {
        Map::new(|k: u64| self.spec_contains(k), |k: u64| self.spec_value(k))
    }
}

impl<V> HashMap<V> {
    /// How many buckets the map has allocated.
    pub closed spec fn num_buckets(self) -> nat {
        self.buckets@.len()
    }

    /// The entries of bucket `i`.
    closed spec fn bucket_seq(self, i: int) -> Seq<(u64, V)> {
        bucket_entries(self.buckets@[i])
    }

    /// Every entry sits in the bucket its key hashes to, and no key
    /// occurs twice.
    pub closed spec fn wf(self) -> bool {
        &&& (forall|i: int, j: int|
            0 <= i < self.num_buckets() && 0 <= j < self.bucket_seq(i).len()
                ==> bucket_index_of(
                (#[trigger] self.bucket_seq(i)[j]).0,
                self.num_buckets() as int,
            ) == i)
        &&& (forall|i: int, j1: int, j2: int|
            0 <= i < self.num_buckets() && 0 <= j1 < j2 < self.bucket_seq(i).len()
                ==> (#[trigger] self.bucket_seq(i)[j1]).0 != (#[trigger] self.bucket_seq(
                i,
            )[j2]).0)
    }

    /// Whether some bucket holds `k`.
    closed spec fn spec_contains(self, k: u64) -> bool {
        self.num_buckets() > 0 && exists|j: int|
            0 <= j < self.bucket_seq(bucket_index_of(k, self.num_buckets() as int)).len() && (
            #[trigger] self.bucket_seq(bucket_index_of(k, self.num_buckets() as int))[j]).0 == k
    }

    /// The value stored for `k`, where one exists.
    closed spec fn spec_value(self, k: u64) -> V {
        (self.bucket_seq(bucket_index_of(k, self.num_buckets() as int))[choose|j: int|
            0 <= j < self.bucket_seq(bucket_index_of(k, self.num_buckets() as int)).len() && (
            self.bucket_seq(bucket_index_of(k, self.num_buckets() as int))[j]).0 == k]).1
    }

    /// An entry for `k` at position `j` of its bucket settles both
    /// membership and the stored value.
    proof fn lemma_key_at(self, k: u64, j: int)
        requires
            self.wf(),
            self.num_buckets() > 0,
            0 <= j < self.bucket_seq(bucket_index_of(k, self.num_buckets() as int)).len(),
            self.bucket_seq(bucket_index_of(k, self.num_buckets() as int))[j].0 == k,
        ensures
            self@.dom().contains(k),
            self@[k] == self.bucket_seq(bucket_index_of(k, self.num_buckets() as int))[j].1,
    {
        let picked = choose|t: int|
            0 <= t < self.bucket_seq(bucket_index_of(k, self.num_buckets() as int)).len() && (
            self.bucket_seq(bucket_index_of(k, self.num_buckets() as int))[t]).0 == k;
        assert(picked == j);
    }

    /// A key found in no position of its bucket is not in the map.
    proof fn lemma_key_absent(self, k: u64)
        requires
            self.num_buckets() == 0 || forall|j: int|
                0 <= j < self.bucket_seq(bucket_index_of(k, self.num_buckets() as int)).len()
                    ==> (#[trigger] self.bucket_seq(
                    bucket_index_of(k, self.num_buckets() as int),
                )[j]).0 != k,
        ensures
            !self@.dom().contains(k),
    {
    }

    /// Creates a map with no storage at all.
    pub fn new() -> (map: Self)
        ensures
            map.wf(),
            map@ == Map::<u64, V>::empty(),
            map.num_buckets() == 0,
    {
        let map = HashMap { buckets: Vec::new() };
        proof {
            assert(map@ =~= Map::<u64, V>::empty());
        }
        map
    }

    /// True until the first insertion allocates buckets; the map then
    /// keeps its storage even when every entry is removed again.
    pub fn is_empty(&self) -> (empty: bool)
        ensures
            empty == (self.num_buckets() == 0),
            empty ==> self@ == Map::<u64, V>::empty(),
    {
        proof {
            if self.num_buckets() == 0 {
                assert(self@ =~= Map::<u64, V>::empty());
            }
        }
        self.buckets.len() == 0
    }

    /// Gives the map fresh, empty storage: the initial bucket count
    /// when it had none, twice the old count otherwise. Existing
    /// entries are dropped, so the map only calls this while empty.
    fn resize(&mut self)
        requires
            old(self).num_buckets() * 2 <= usize::MAX,
        ensures
            final(self).wf(),
            final(self)@ == Map::<u64, V>::empty(),
            final(self).num_buckets() == if old(self).num_buckets() == 0 {
                INITIAL_SIZE as nat
            } else {
                old(self).num_buckets() * 2
            },
    {
        let mut target_size: usize = INITIAL_SIZE;
        if self.buckets.len() != 0 {
            target_size = self.buckets.len() * 2;
        }

        let mut new_buckets: Vec<Bucket<V>> = Vec::new();
        let mut i: usize = 0;
        while i < target_size
            invariant
                i <= target_size,
                new_buckets@.len() == i,
                forall|t: int| 0 <= t < i ==> new_buckets@[t] is None,
            decreases target_size - i,
        {
            new_buckets.push(None);
            i = i + 1;
        }
        self.buckets = new_buckets;
        proof {
            assert(self@ =~= Map::<u64, V>::empty());
        }
    }

    /// The bucket `key` hashes into. Only meaningful once the map has
    /// storage; every method checks for emptiness before calling it.
    pub fn get_bucket(&self, key: &u64) -> (bucket: usize)
        requires
            self.num_buckets() > 0,
        ensures
            bucket == bucket_index_of(*key, self.num_buckets() as int),
            bucket < self.num_buckets(),
    {
        let bytes = key_bytes_vec(*key);
        let mut hasher = DefaultHasher::new();
        hasher.write(bytes.as_slice());
        let hash = hasher.finish();
        proof {
            assert(hasher@ =~= seq![key_bytes(*key)]);
        }
        (hash % (self.buckets.len() as u64)) as usize
    }

    /// Puts `value` under `key`, allocating storage on first use;
    /// an existing entry for the key is overwritten in place.
    pub fn insert(&mut self, key: u64, value: V)
        requires
            old(self).wf(),
        ensures
            final(self).wf(),
            final(self)@ == old(self)@.insert(key, value),
            final(self).num_buckets() == if old(self).num_buckets() == 0 {
                INITIAL_SIZE as nat
            } else {
                old(self).num_buckets()
            },
    {
        if self.is_empty() {
            self.resize();
        }
        let ghost pre = *self;
        proof {
            assert(pre@ == old(self)@);
        }
        let bucket = self.get_bucket(&key);
        let slot = &mut self.buckets[bucket];
        let taken = slot.take();
        let ghost old_entries = bucket_entries(pre.buckets@[bucket as int]);
        let mut entries: Vec<(u64, V)> = match taken {
            Some(v) => v,
            None => Vec::new(),
        };
        proof {
            assert(entries@ == old_entries);
        }
        let found = find_key_index(&entries, key);
        let ghost stored: int;
        let ghost replaced: bool;
        match found {
            Some(j) => {
                entries[j] = (key, value);
                proof {
                    stored = j as int;
                    replaced = true;
                }
            },
            None => {
                entries.push((key, value));
                proof {
                    stored = old_entries.len() as int;
                    replaced = false;
                }
            },
        }
        let ghost new_entries = entries@;
        self.buckets[bucket] = Some(entries);
        proof {
            let nb = pre.num_buckets() as int;
            let b = bucket as int;
            assert(pre.wf());
            assert(self.bucket_seq(b) == new_entries);
            assert forall|i: int| 0 <= i < nb && i != b implies self.bucket_seq(i)
                == pre.bucket_seq(i) by {
                assert(self.buckets@[i] == pre.buckets@[i]);
            }
            assert(new_entries[stored] == (key, value));
            assert forall|i: int, j: int|
                0 <= i < nb && 0 <= j < self.bucket_seq(i).len() implies bucket_index_of(
                (#[trigger] self.bucket_seq(i)[j]).0,
                nb,
            ) == i by {
                if i == b {
                    if j != stored {
                        assert(self.bucket_seq(b)[j] == pre.bucket_seq(b)[j]);
                        assert(bucket_index_of((pre.bucket_seq(b)[j]).0, nb) == b);
                    }
                } else {
                    assert(bucket_index_of((pre.bucket_seq(i)[j]).0, nb) == i);
                }
            }
            assert forall|i: int, j1: int, j2: int|
                0 <= i < nb && 0 <= j1 < j2 < self.bucket_seq(i).len() implies (
            #[trigger] self.bucket_seq(i)[j1]).0 != (#[trigger] self.bucket_seq(i)[j2]).0 by {
                if i == b {
                    if j1 != stored {
                        assert(self.bucket_seq(b)[j1] == pre.bucket_seq(b)[j1]);
                    }
                    if j2 != stored {
                        assert(self.bucket_seq(b)[j2] == pre.bucket_seq(b)[j2]);
                    }
                    if replaced {
                        assert(pre.bucket_seq(b)[stored].0 == key);
                        if j1 != stored && j2 != stored {
                            assert(pre.bucket_seq(b)[j1].0 != pre.bucket_seq(b)[j2].0);
                        }
                    } else {
                        if j1 != stored && j2 != stored {
                            assert(pre.bucket_seq(b)[j1].0 != pre.bucket_seq(b)[j2].0);
                        }
                    }
                } else {
                    assert(pre.bucket_seq(i)[j1].0 != pre.bucket_seq(i)[j2].0);
                }
            }
            assert(self.wf());
            self.lemma_key_at(key, stored);
            assert forall|k: u64| #[trigger] pre@.insert(key, value).dom().contains(k) implies
                self@.dom().contains(k) && self@[k] == pre@.insert(key, value)[k] by {
                if k != key {
                    let t = choose|t: int|
                        0 <= t < pre.bucket_seq(bucket_index_of(k, nb)).len() && (pre.bucket_seq(
                            bucket_index_of(k, nb),
                        )[t]).0 == k;
                    pre.lemma_key_at(k, t);
                    if bucket_index_of(k, nb) == b {
                        assert(t != stored || replaced);
                        if t == stored {
                            assert(pre.bucket_seq(b)[t].0 == k && new_entries[stored].0 == key);
                            assert(false);
                        }
                        assert(self.bucket_seq(b)[t] == pre.bucket_seq(b)[t]);
                    }
                    assert(self.bucket_seq(bucket_index_of(k, nb))[t].0 == k);
                    self.lemma_key_at(k, t);
                }
            }
            assert forall|k: u64| #[trigger] self@.dom().contains(k) implies pre@.insert(
                key,
                value,
            ).dom().contains(k) by {
                if k != key {
                    let t = choose|t: int|
                        0 <= t < self.bucket_seq(bucket_index_of(k, nb)).len() && (self.bucket_seq(
                            bucket_index_of(k, nb),
                        )[t]).0 == k;
                    if bucket_index_of(k, nb) == b {
                        assert(t != stored);
                        assert(pre.bucket_seq(b)[t].0 == k);
                    } else {
                        assert(pre.bucket_seq(bucket_index_of(k, nb))[t].0 == k);
                    }
                    pre.lemma_key_at(k, t);
                }
            }
            assert(self@ =~= pre@.insert(key, value));
        }
    }

    /// True exactly when the map holds an entry for `key`.
    pub fn contains_key(&self, key: u64) -> (present: bool)
        requires
            self.wf(),
        ensures
            present == self@.dom().contains(key),
    {
        self.get(key).is_some()
    }

    /// Hands back the value stored under `key`, if any.
    pub fn get(&self, key: u64) -> (found: Option<&V>)
        requires
            self.wf(),
        ensures
            found is Some <==> self@.dom().contains(key),
            found is Some ==> *found.unwrap() == self@[key],
    {
        if self.is_empty() {
            proof {
                self.lemma_key_absent(key);
            }
            return None;
        }
        let bucket = self.get_bucket(&key);
        match &self.buckets[bucket] {
            Some(entries) => {
                match find_key_index(entries, key) {
                    Some(j) => {
                        proof {
                            self.lemma_key_at(key, j as int);
                        }
                        Some(&entries[j].1)
                    },
                    None => {
                        proof {
                            self.lemma_key_absent(key);
                        }
                        None
                    },
                }
            },
            None => {
                proof {
                    self.lemma_key_absent(key);
                }
                None
            },
        }
    }

    /// Removes the entry under `key` and hands its value back; the
    /// bucket storage itself stays allocated.
    pub fn remove(&mut self, key: u64) -> (removed: Option<V>)
        requires
            old(self).wf(),
        ensures
            final(self).wf(),
            final(self)@ == old(self)@.remove(key),
            final(self).num_buckets() == old(self).num_buckets(),
            removed == if old(self)@.dom().contains(key) {
                Some(old(self)@[key])
            } else {
                None::<V>
            },
    {
        if self.is_empty() {
            proof {
                self.lemma_key_absent(key);
                assert(self@ =~= old(self)@.remove(key));
            }
            return None;
        }
        let ghost pre = *self;
        let bucket = self.get_bucket(&key);
        let slot = &mut self.buckets[bucket];
        let taken = slot.take();
        let ghost old_entries = bucket_entries(pre.buckets@[bucket as int]);
        let mut entries: Vec<(u64, V)> = match taken {
            Some(v) => v,
            None => Vec::new(),
        };
        proof {
            assert(entries@ == old_entries);
        }
        let found = find_key_index(&entries, key);
        let removed: Option<V>;
        let ghost hit: int;
        match found {
            Some(j) => {
                let pair = entries.remove(j);
                removed = Some(pair.1);
                proof {
                    hit = j as int;
                }
            },
            None => {
                removed = None;
                proof {
                    hit = -1;
                }
            },
        }
        let ghost new_entries = entries@;
        self.buckets[bucket] = Some(entries);
        proof {
            let nb = pre.num_buckets() as int;
            let b = bucket as int;
            assert(pre.wf());
            assert(self.bucket_seq(b) == new_entries);
            assert forall|i: int| 0 <= i < nb && i != b implies self.bucket_seq(i)
                == pre.bucket_seq(i) by {
                assert(self.buckets@[i] == pre.buckets@[i]);
            }
            if hit >= 0 {
                pre.lemma_key_at(key, hit);
                assert forall|t: int| 0 <= t < new_entries.len() implies (t < hit
                    ==> new_entries[t] == pre.bucket_seq(b)[t]) && (t >= hit ==> new_entries[t]
                    == pre.bucket_seq(b)[t + 1]) by {
                    assert(new_entries == old_entries.subrange(0, hit) + old_entries.subrange(
                        hit + 1,
                        old_entries.len() as int,
                    ));
                }
            } else {
                assert(new_entries == pre.bucket_seq(b));
                self.lemma_key_absent(key);
                pre.lemma_key_absent(key);
            }
            assert forall|i: int, j: int|
                0 <= i < nb && 0 <= j < self.bucket_seq(i).len() implies bucket_index_of(
                (#[trigger] self.bucket_seq(i)[j]).0,
                nb,
            ) == i by {
                if i == b && hit >= 0 {
                    if j < hit {
                        assert(bucket_index_of((pre.bucket_seq(b)[j]).0, nb) == b);
                    } else {
                        assert(bucket_index_of((pre.bucket_seq(b)[j + 1]).0, nb) == b);
                    }
                } else {
                    assert(bucket_index_of((pre.bucket_seq(i)[j]).0, nb) == i);
                }
            }
            assert forall|i: int, j1: int, j2: int|
                0 <= i < nb && 0 <= j1 < j2 < self.bucket_seq(i).len() implies (
            #[trigger] self.bucket_seq(i)[j1]).0 != (#[trigger] self.bucket_seq(i)[j2]).0 by {
                if i == b && hit >= 0 {
                    let p1: int = if j1 < hit {
                        j1
                    } else {
                        j1 + 1
                    };
                    let p2: int = if j2 < hit {
                        j2
                    } else {
                        j2 + 1
                    };
                    assert(self.bucket_seq(b)[j1] == pre.bucket_seq(b)[p1]);
                    assert(self.bucket_seq(b)[j2] == pre.bucket_seq(b)[p2]);
                    assert(pre.bucket_seq(b)[p1].0 != pre.bucket_seq(b)[p2].0);
                } else {
                    assert(pre.bucket_seq(i)[j1].0 != pre.bucket_seq(i)[j2].0);
                }
            }
            assert(self.wf());
            assert forall|k: u64| #[trigger] pre@.remove(key).dom().contains(k) implies
                self@.dom().contains(k) && self@[k] == pre@.remove(key)[k] by {
                let t = choose|t: int|
                    0 <= t < pre.bucket_seq(bucket_index_of(k, nb)).len() && (pre.bucket_seq(
                        bucket_index_of(k, nb),
                    )[t]).0 == k;
                pre.lemma_key_at(k, t);
                if bucket_index_of(k, nb) == b && hit >= 0 {
                    assert(t != hit);
                    if t < hit {
                        assert(self.bucket_seq(b)[t].0 == k);
                        self.lemma_key_at(k, t);
                    } else {
                        assert(self.bucket_seq(b)[t - 1].0 == k);
                        self.lemma_key_at(k, t - 1);
                    }
                } else {
                    assert(self.bucket_seq(bucket_index_of(k, nb))[t].0 == k);
                    self.lemma_key_at(k, t);
                }
            }
            assert forall|k: u64| #[trigger] self@.dom().contains(k) implies pre@.remove(
                key,
            ).dom().contains(k) by {
                let t = choose|t: int|
                    0 <= t < self.bucket_seq(bucket_index_of(k, nb)).len() && (self.bucket_seq(
                        bucket_index_of(k, nb),
                    )[t]).0 == k;
                if bucket_index_of(k, nb) == b && hit >= 0 {
                    if t < hit {
                        assert(pre.bucket_seq(b)[t].0 == k);
                        pre.lemma_key_at(k, t);
                        assert(k != key);
                    } else {
                        assert(pre.bucket_seq(b)[t + 1].0 == k);
                        pre.lemma_key_at(k, t + 1);
                        assert(k != key);
                    }
                } else {
                    assert(pre.bucket_seq(bucket_index_of(k, nb))[t].0 == k);
                    pre.lemma_key_at(k, t);
                    if bucket_index_of(k, nb) == b {
                        assert(k != key);
                    }
                }
            }
            assert(self@ =~= pre@.remove(key));
        }
        removed
    }
}

} // verus!
