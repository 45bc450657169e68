//! The cache store: an order arena and a hash index over it, a fixed
//! capacity, and two counters.

use crate::error::SizeError;
use crate::filtering::lemma_drop_one_more;
use crate::filtering::lemma_filter_all;
use crate::filtering::lemma_filter_same;
use crate::filtering::lemma_remove_is_filter;
use crate::filtering::without_key;
use crate::filtering::without_keys;
use crate::hash_index::hash_at;
use crate::hash_index::hash_of;
use crate::hash_index::index_capacity;
use crate::hash_index::index_clear;
use crate::hash_index::index_clone;
use crate::hash_index::index_entries;
use crate::hash_index::index_find;
use crate::hash_index::index_insert;
use crate::hash_index::index_len;
use crate::hash_index::index_matches;
use crate::hash_index::index_remove;
use crate::hash_index::index_new;
use crate::hash_index::index_try_reserve;
use crate::hash_index::index_with_capacity;
use crate::hash_index::key_hash;
use crate::hash_index::key_model;
use crate::hash_index::new_state;
use crate::hash_index::state_clone;
use crate::hash_index::HashIndex;
use crate::lru_list::LRUList;
use ahash::RandomState;
use std::hash::Hash;
use vstd::prelude::*;
use vstd::std_specs::cmp::PartialEqSpec;
use vstd::std_specs::vec::into_iter_elts;

verus! {

/// The largest capacity a cache can be made with: beyond it the hash index
/// cannot lay out its table.
pub const MAX_CAPACITY: usize = usize::MAX / 64;

/// Least recently used cache: it holds up to `capacity` entries and, when one
/// more arrives, drops the entry that has gone longest without being touched.
///
/// Its view is the sequence of its entries, from the most to the least
/// recently used. A lookup that finds a valid value is a hit and moves the
/// entry to the front; every other lookup is a miss. The two counters stop at
/// the largest value they can hold.
///
/// The contracts are stated for key types that meet `key_model`: the hash of
/// a key is a function of the key, and `==` and `clone` go by its value.
pub struct SizedCache<K, V> {
    store: HashIndex,
    hash_builder: RandomState,
    order: LRUList<(K, V)>,
    capacity: usize,
    hits: u64,
    misses: u64,
}

/// What a lookup finds under a key.
#[derive(Clone, Copy, Debug, PartialEq, Eq, Structural)]
pub enum Presence {
    /// An entry whose value the validity test accepts.
    Valid,
    /// An entry whose value the validity test turns down.
    Stale,
    /// No entry.
    Absent,
}

/// A counter after one more event: it stops at the largest value it can hold.
pub open spec fn bumped(n: u64) -> u64 {
    if n < u64::MAX {
        (n + 1) as u64
    } else {
        n
    }
}

/// The entries after the one at position `p` was touched: it has moved to
/// the front, the others keep their order.
pub open spec fn touched<E>(entries: Seq<E>, p: int) -> Seq<E> {
    seq![entries[p]] + entries.remove(p)
}

/// The entries after `e` came in at the front of a cache that holds at most
/// `capacity`: if that made one too many, the last one has left.
pub open spec fn admitted<E>(entries: Seq<E>, capacity: int, e: E) -> Seq<E> {
    if entries.len() < capacity {
        seq![e] + entries
    } else {
        seq![e] + entries.drop_last()
    }
}

/// The keys of `entries`, in their order.
pub open spec fn keys_of<K, V>(entries: Seq<(K, V)>) -> Seq<K> {
    Seq::new(entries.len(), |i: int| entries[i].0)
}

/// One more event on a counter.
fn bump(n: u64) -> (m: u64)
    ensures
        m == bumped(n),
{
    if n < u64::MAX {
        n + 1
    } else {
        n
    }
}

/// A clone of an entry: a clone of its key and a clone of its value.
fn clone_entry<K: Clone, V: Clone>(entry: &(K, V)) -> (copy: (K, V))
    ensures
        cloned(entry.0, copy.0),
        cloned(entry.1, copy.1),
{
    (entry.0.clone(), entry.1.clone())
}

impl<K, V> View for SizedCache<K, V> {
    type V = Seq<(K, V)>;

    /// The entries, most recently used first.
    closed spec fn view(&self) -> Seq<(K, V)> {
        self.order@
    }
}

impl<K: Hash + Eq + Clone, V> SizedCache<K, V> {
    /// The keys, most recently used first.
    pub open spec fn keys(&self) -> Seq<K> {
        keys_of(self@)
    }

    /// Whether an entry has the key `key`.
    pub open spec fn contains_key(&self, key: K) -> bool {
        self.keys().contains(key)
    }

    /// The place of `key`'s entry in the recency order.
    pub open spec fn position_of(&self, key: K) -> int {
        self.keys().index_of(key)
    }

    /// The value stored under `key`.
    pub open spec fn value_of(&self, key: K) -> V {
        self@[self.position_of(key)].1
    }

    /// The most entries the cache holds.
    pub closed spec fn capacity(&self) -> usize {
        self.capacity
    }

    /// The number of lookups that found a valid entry.
    pub closed spec fn hits(&self) -> u64 {
        self.hits
    }

    /// The number of lookups that found none.
    pub closed spec fn misses(&self) -> u64 {
        self.misses
    }

    /// The index and the arena agree: the index holds exactly the live
    /// handles, each filed under the hash of the key in its slot, and no two
    /// slots hold the same key.
    spec fn linked(&self) -> bool {
        &&& key_model::<K>()
        &&& self.order.wf()
        &&& 0 < self.capacity
        &&& forall|h: usize| #[trigger]
            index_entries(self.store).contains_key(h) <==> self.order.has(h)
        &&& index_matches(self.store, self.hash_builder, self.order)
        &&& forall|g: usize, h: usize|
            self.order.has(g) && self.order.has(h) && (#[trigger] self.order.item(g)).0 == (
            #[trigger] self.order.item(h)).0 ==> g == h
    }

    /// The cache's invariant: index and arena agree, no key occurs twice, and
    /// there are no more entries than the capacity, which is not zero.
    pub closed spec fn wf(&self) -> bool {
        &&& self.linked()
        &&& self.order.handles().len() <= self.capacity
    }

    /// What the invariant means for the entries.
    pub proof fn lemma_wf(&self)
        requires
            self.wf(),
        ensures
            key_model::<K>(),
            0 < self.capacity(),
            self@.len() <= self.capacity(),
            self.keys().no_duplicates(),
    {
        self.lemma_keys_distinct();
    }

    /// The entry at place `p` is the one its key leads to.
    pub proof fn lemma_entry_at(&self, p: int)
        requires
            self.wf(),
            0 <= p < self@.len(),
        ensures
            self.contains_key(self@[p].0),
            self.position_of(self@[p].0) == p,
            self.value_of(self@[p].0) == self@[p].1,
    {
        self.lemma_keys_distinct();
        let key = self@[p].0;
        assert(self.keys()[p] == key);
    }

    proof fn lemma_keys_distinct(&self)
        requires
            self.linked(),
        ensures
            self.keys().no_duplicates(),
            self.keys().len() == self.order.handles().len(),
            self@.len() == self.order.handles().len(),
    {
        self.order.lemma_handles_distinct();
        assert forall|i: int, j: int|
            0 <= i < self.keys().len() && 0 <= j < self.keys().len() && i != j
                implies self.keys()[i]
            != self.keys()[j] by {}
    }

    /// The slot `h` holds the entry at its own place in the recency order.
    proof fn lemma_slot_entry(&self, h: usize)
        requires
            self.linked(),
            self.order.has(h),
        ensures
            self.contains_key(self.order.item(h).0),
            self.position_of(self.order.item(h).0) == self.order.position(h),
            0 <= self.order.position(h) < self@.len(),
            self@[self.order.position(h)] == self.order.item(h),
            self.value_of(self.order.item(h).0) == self.order.item(h).1,
    {
        self.lemma_keys_distinct();
        let hs = self.order.handles();
        let p = hs.index_of(h);
        let k = self.order.item(h).0;
        assert(self.keys()[p] == k);
    }

    /// Creates an empty cache that holds up to `size` entries, with its index
    /// and its arena allocated for that many. The size is not zero, and not
    /// more than `MAX_CAPACITY`.
    #[must_use]
    pub fn with_size(size: usize) -> (cache: SizedCache<K, V>)
        requires
            key_model::<K>(),
            0 < size <= MAX_CAPACITY,
        ensures
            cache.wf(),
            cache@ == Seq::<(K, V)>::empty(),
            cache.capacity() == size,
            cache.hits() == 0,
            cache.misses() == 0,
    {
        let cache = SizedCache {
            store: index_with_capacity(size),
            hash_builder: new_state(),
            order: LRUList::<(K, V)>::with_capacity(size),
            capacity: size,
            hits: 0,
            misses: 0,
        };
        cache
    }

    /// Creates an empty cache that holds up to `size` entries. This is the
    /// older name of `with_size`.
    #[must_use]
    pub fn with_capacity(size: usize) -> (cache: SizedCache<K, V>)
        requires
            key_model::<K>(),
            0 < size <= MAX_CAPACITY,
        ensures
            cache.wf(),
            cache@ == Seq::<(K, V)>::empty(),
            cache.capacity() == size,
            cache.hits() == 0,
            cache.misses() == 0,
    {
        Self::with_size(size)
    }

    /// Creates an empty cache that holds up to `size` entries, for any `size`,
    /// and returns an error where none can be made. A size of zero is an
    /// invalid argument. For any other size the hash index is asked to reserve
    /// room, and a refusal is returned as `SizeError::from_reserve` maps it;
    /// whether it refuses is for the allocator to say.
    pub fn try_with_size(size: usize) -> (made: Result<SizedCache<K, V>, SizeError>)
        requires
            key_model::<K>(),
        ensures
            match made {
                Ok(cache) => {
                    &&& size > 0
                    &&& cache.wf()
                    &&& cache@ == Seq::<(K, V)>::empty()
                    &&& cache.capacity() == size
                    &&& cache.hits() == 0
                    &&& cache.misses() == 0
                },
                Err(e) => size == 0 ==> e == SizeError::InvalidArgument,
            },
    {
        if size == 0 {
            return Err(SizeError::InvalidArgument);
        }
        let mut store = index_new();
        let hash_builder = new_state();
        let nothing = LRUList::<(K, V)>::new();
        match index_try_reserve(&mut store, size, &nothing, &hash_builder) {
            Ok(()) => {},
            Err(e) => {
                return Err(SizeError::from_reserve(e));
            },
        }
        let cache = SizedCache {
            store,
            hash_builder,
            order: LRUList::<(K, V)>::with_capacity(size),
            capacity: size,
            hits: 0,
            misses: 0,
        };
        Ok(cache)
    }

    /// The hash of `key` under this cache's own state.
    fn hash(&self, key: &K) -> (h: u64)
        requires
            key_model::<K>(),
        ensures
            h == key_hash(self.hash_builder, *key),
    {
        hash_of(&self.hash_builder, key)
    }

    /// Files the handle `index` in the hash index under `hash`.
    fn insert_index(&mut self, hash: u64, index: usize)
        requires
            key_model::<K>(),
            old(self).order.wf(),
            index_matches(old(self).store, old(self).hash_builder, old(self).order),
            !index_entries(old(self).store).contains_key(index),
        ensures
            index_entries(final(self).store) == index_entries(old(self).store).insert(index, hash),
            final(self).order == old(self).order,
            final(self).hash_builder == old(self).hash_builder,
            final(self).capacity == old(self).capacity,
            final(self).hits == old(self).hits,
            final(self).misses == old(self).misses,
    {
        index_insert(&mut self.store, hash, index, &self.order, &self.hash_builder);
    }

    /// The handle of the slot that holds `key`, if one does.
    fn get_index(&self, hash: u64, key: &K) -> (found: Option<usize>)
        requires
            self.linked(),
            hash == key_hash(self.hash_builder, *key),
        ensures
            match found {
                Some(h) => self.order.has(h) && self.order.item(h).0 == *key,
                None => !self.contains_key(*key),
            },
    {
        let found = index_find(&self.store, hash, &self.order, key);
        proof {
            if found is None {
                assert forall|h: usize| self.order.has(h) implies (#[trigger] self.order.item(
                    h,
                )).0 != *key by {
                    assert(index_entries(self.store).contains_key(h));
                }
            }
        }
        found
    }

    /// Takes the handle of the slot that holds `key` out of the hash index.
    fn remove_index(&mut self, hash: u64, key: &K) -> (removed: Option<usize>)
        requires
            old(self).linked(),
            hash == key_hash(old(self).hash_builder, *key),
        ensures
            match removed {
                Some(h) => old(self).order.has(h) && old(self).order.item(h).0 == *key
                    && index_entries(final(self).store) == index_entries(old(self).store).remove(h),
                None => !old(self).contains_key(*key) && index_entries(final(self).store)
                    == index_entries(old(self).store),
            },
            final(self).order == old(self).order,
            final(self).hash_builder == old(self).hash_builder,
            final(self).capacity == old(self).capacity,
            final(self).hits == old(self).hits,
            final(self).misses == old(self).misses,
    {
        let removed = index_remove(&mut self.store, hash, &self.order, key);
        proof {
            if removed is None {
                assert forall|h: usize| old(self).order.has(h)
                    implies (#[trigger] old(self).order.item(h)).0 != *key by {
                    assert(index_entries(old(self).store).contains_key(h));
                }
            }
        }
        removed
    }

    /// The number of entries.
    pub fn cache_size(&self) -> (n: usize)
        requires
            self.wf(),
        ensures
            n == self@.len(),
    {
        proof {
            self.lemma_index_size();
        }
        index_len(&self.store)
    }

    /// The index holds as many handles as the arena has live slots.
    proof fn lemma_index_size(&self)
        requires
            self.linked(),
        ensures
            index_entries(self.store).dom().finite(),
            index_entries(self.store).dom().len() == self.order.handles().len(),
            self@.len() == self.order.handles().len(),
    {
        self.order.lemma_handles_distinct();
        let hs = self.order.handles();
        hs.unique_seq_to_set();
        assert(index_entries(self.store).dom() =~= hs.to_set());
    }

    /// The number of lookups that found a valid entry, since the cache was
    /// made or its counters were last reset.
    pub fn cache_hits(&self) -> (n: Option<u64>)
        ensures
            n == Some(self.hits()),
    {
        Some(self.hits)
    }

    /// The number of lookups that found none, since the cache was made or its
    /// counters were last reset.
    pub fn cache_misses(&self) -> (n: Option<u64>)
        ensures
            n == Some(self.misses()),
    {
        Some(self.misses)
    }

    /// The most entries the cache holds.
    pub fn cache_capacity(&self) -> (n: Option<usize>)
        ensures
            n == Some(self.capacity()),
    {
        Some(self.capacity)
    }

    /// The number of entries that the hash index has room for before it
    /// allocates again. It is at least the number of entries; what more it is
    /// depends on the table.
    pub fn store_capacity(&self) -> (room: usize)
        requires
            self.wf(),
        ensures
            room >= self@.len(),
    {
        proof {
            self.lemma_index_size();
        }
        index_capacity(&self.store)
    }

    /// Sets both counters to zero. The entries stay as they are.
    pub fn cache_reset_metrics(&mut self)
        ensures
            final(self).hits() == 0,
            final(self).misses() == 0,
            final(self)@ == old(self)@,
            final(self).capacity() == old(self).capacity(),
            old(self).wf() ==> final(self).wf(),
    {
        self.misses = 0;
        self.hits = 0;
    }

    /// While there are more entries than the capacity, drops the least
    /// recently used one, from the index and from the arena.
    fn check_capacity(&mut self)
        requires
            old(self).linked(),
            old(self).order.handles().len() <= old(self).capacity + 1,
        ensures
            final(self).wf(),
            final(self)@ == (if old(self)@.len() > old(self).capacity() {
                old(self)@.drop_last()
            } else {
                old(self)@
            }),
            final(self).order.handles()
                == (if old(self).order.handles().len() > old(self).capacity {
                old(self).order.handles().drop_last()
            } else {
                old(self).order.handles()
            }),
            forall|g: usize|
                final(self).order.has(g) ==> #[trigger] final(self).order.item(g)
                    == old(self).order.item(g),
            final(self).capacity == old(self).capacity,
            final(self).hits == old(self).hits,
            final(self).misses == old(self).misses,
            final(self).hash_builder == old(self).hash_builder,
    {
        proof {
            self.lemma_index_size();
        }
        while index_len(&self.store) > self.capacity
            invariant
                self.order.handles() == old(self).order.handles()
                    || (old(self).order.handles().len() > self.capacity
                    && self.order.handles() == old(self).order.handles().drop_last()),
                old(self).order.handles().len() <= self.capacity + 1,
                forall|g: usize|
                    self.order.has(g) ==> #[trigger] self.order.item(g) == old(self).order.item(g),
                self.linked(),
                self.order.handles().len() <= self.capacity + 1,
                index_entries(self.store).dom().len() == self.order.handles().len(),
                self@.len() == self.order.handles().len(),
                old(self)@.len() <= self.capacity + 1,
                self@ == old(self)@ || (old(self)@.len() > self.capacity && self@
                    == old(self)@.drop_last()),
                self.capacity == old(self).capacity,
                self.hits == old(self).hits,
                self.misses == old(self).misses,
                self.hash_builder == old(self).hash_builder,
            decreases self.order.handles().len(),
        {
            let index = self.order.back();
            let hash = hash_at(&self.order, &self.hash_builder, index);
            let _ = index_remove(&mut self.store, hash, &self.order, &self.order.get(index).0);
            let _ = self.order.remove(index);
            proof {
                assert forall|h: usize| #[trigger]
                    index_entries(self.store).contains_key(h) <==> self.order.has(h) by {}
                assert(index_matches(self.store, self.hash_builder, self.order)) by {
                    assert forall|h: usize| #[trigger]
                        index_entries(self.store).contains_key(h) implies self.order.has(h)
                        && index_entries(self.store)[h] == key_hash(
                        self.hash_builder,
                        self.order.item(h).0,
                    ) by {}
                }
                self.lemma_index_size();
            }
        }
    }

    /// Puts a key that the cache does not hold in a new slot at the front,
    /// files the slot's handle in the index, and makes room if that was one
    /// entry too many. Returns the handle.
    fn insert_fresh(&mut self, hash: u64, key: K, val: V) -> (index: usize)
        requires
            old(self).wf(),
            !old(self).contains_key(key),
            hash == key_hash(old(self).hash_builder, key),
        ensures
            final(self).wf(),
            final(self)@ == admitted(old(self)@, old(self).capacity as int, (key, val)),
            final(self).order.has(index),
            final(self).order.handles()[0] == index,
            final(self).order.item(index) == (key, val),
            final(self).capacity == old(self).capacity,
            final(self).hits == old(self).hits,
            final(self).misses == old(self).misses,
            final(self).hash_builder == old(self).hash_builder,
    {
        let ghost before = *self;
        proof {
            assert forall|h: usize| before.order.has(h) implies (#[trigger] before.order.item(
                h,
            )).0 != key by {
                before.lemma_slot_entry(h);
            }
        }
        let index = self.order.push_front((key, val));
        proof {
            assert(index_matches(self.store, self.hash_builder, self.order)) by {
                assert forall|h: usize| #[trigger]
                    index_entries(self.store).contains_key(h) implies self.order.has(h)
                    && index_entries(self.store)[h] == key_hash(
                    self.hash_builder,
                    self.order.item(h).0,
                ) by {
                    assert(self.order.handles()[before.order.position(h) + 1] == h);
                }
            }
        }
        let ghost grown = self.order;
        self.insert_index(hash, index);
        proof {
            assert forall|h: usize| #[trigger]
                index_entries(self.store).contains_key(h) <==> self.order.has(h) by {
                if h == index {
                    assert(grown.handles()[0] == index);
                }
            }
            assert forall|h: usize| self.order.has(h) && h != index implies before.order.has(
                h,
            ) by {}
            assert(index_matches(self.store, self.hash_builder, self.order)) by {
                assert forall|h: usize| #[trigger]
                    index_entries(self.store).contains_key(h) implies self.order.has(h)
                    && index_entries(self.store)[h] == key_hash(
                    self.hash_builder,
                    self.order.item(h).0,
                ) by {}
            }
            assert forall|g: usize, h: usize|
                self.order.has(g) && self.order.has(h) && (#[trigger] self.order.item(g)).0 == (
                #[trigger] self.order.item(h)).0 implies g == h by {}
        }
        self.check_capacity();
        proof {
            assert(self.order.handles()[0] == index);
        }
        index
    }

    /// Stores `val` under `key` and returns the value that was there. A key
    /// already present keeps its slot and its place in the recency order; a
    /// new key comes in at the front, and if the cache was full the least
    /// recently used entry leaves.
    pub fn cache_set(&mut self, key: K, val: V) -> (previous: Option<V>)
        requires
            old(self).wf(),
        ensures
            final(self).wf(),
            final(self).capacity() == old(self).capacity(),
            final(self).hits() == old(self).hits(),
            final(self).misses() == old(self).misses(),
            final(self)@.len() <= final(self).capacity(),
            final(self).keys().no_duplicates(),
            old(self).contains_key(key) ==> previous == Some(old(self).value_of(key))
                && final(self)@ == old(self)@.update(old(self).position_of(key), (key, val)),
            old(self).contains_key(key) ==> final(self).keys() == old(self).keys(),
            !old(self).contains_key(key) ==> previous is None && final(self)@ == admitted(
                old(self)@,
                old(self).capacity() as int,
                (key, val),
            ),
            !old(self).contains_key(key) || old(self).position_of(key) == 0
                ==> final(self).keys()[0] == key,
            !old(self).contains_key(key) && old(self)@.len() < old(self).capacity()
                ==> final(self).keys() == seq![key] + old(self).keys(),
            !old(self).contains_key(key) && old(self)@.len() == old(self).capacity()
                ==> final(self).keys() == seq![key] + old(self).keys().drop_last(),
    {
        let ghost before = *self;
        let hash = self.hash(&key);
        let v = if let Some(index) = self.get_index(hash, &key) {
            proof {
                before.lemma_slot_entry(index);
            }
            let replaced = self.order.set(index, (key, val));
            proof {
                assert(index_matches(self.store, self.hash_builder, self.order)) by {
                    assert forall|h: usize| #[trigger]
                        index_entries(self.store).contains_key(h) implies self.order.has(h)
                        && index_entries(self.store)[h] == key_hash(
                        self.hash_builder,
                        self.order.item(h).0,
                    ) by {}
                }
                assert forall|g: usize, h: usize|
                    self.order.has(g) && self.order.has(h) && (#[trigger] self.order.item(g)).0 == (
                    #[trigger] self.order.item(h)).0 implies g == h by {}
            }
            match replaced {
                Some(pair) => Some(pair.1),
                None => None,
            }
        } else {
            let _ = self.insert_fresh(hash, key, val);
            proof {
                self.lemma_keys_distinct();
            }
            return None;
        };
        self.check_capacity();
        proof {
            self.lemma_keys_distinct();
        }
        v
    }

    /// Takes the entry of `key` out of the cache and returns its value. With
    /// no such entry nothing changes. The counters are not touched.
    pub fn cache_remove(&mut self, key: &K) -> (removed: Option<V>)
        requires
            old(self).wf(),
        ensures
            final(self).wf(),
            final(self).capacity() == old(self).capacity(),
            final(self).hits() == old(self).hits(),
            final(self).misses() == old(self).misses(),
            old(self).contains_key(*key) ==> removed == Some(old(self).value_of(*key))
                && final(self)@ == old(self)@.remove(old(self).position_of(*key)),
            !old(self).contains_key(*key) ==> removed is None && final(self)@ == old(self)@,
    {
        let ghost before = *self;
        let hash = self.hash(key);
        if let Some(index) = self.remove_index(hash, key) {
            proof {
                before.lemma_slot_entry(index);
            }
            let pair = self.order.remove(index);
            proof {
                assert forall|h: usize| #[trigger]
                    index_entries(self.store).contains_key(h) <==> self.order.has(h) by {}
                assert(index_matches(self.store, self.hash_builder, self.order)) by {
                    assert forall|h: usize| #[trigger]
                        index_entries(self.store).contains_key(h) implies self.order.has(h)
                        && index_entries(self.store)[h] == key_hash(
                        self.hash_builder,
                        self.order.item(h).0,
                    ) by {}
                }
            }
            Some(pair.1)
        } else {
            None
        }
    }

    /// Drops every entry. Capacity and counters stay as they are.
    pub fn cache_clear(&mut self)
        requires
            old(self).wf(),
        ensures
            final(self).wf(),
            final(self)@ == Seq::<(K, V)>::empty(),
            final(self).capacity() == old(self).capacity(),
            final(self).hits() == old(self).hits(),
            final(self).misses() == old(self).misses(),
    {
        index_clear(&mut self.store);
        self.order.clear();
    }

    /// Drops every entry, as `cache_clear` does: the capacity of this cache
    /// never changes, so there is nothing more to put back.
    pub fn cache_reset(&mut self)
        requires
            old(self).wf(),
        ensures
            final(self).wf(),
            final(self)@ == Seq::<(K, V)>::empty(),
            final(self).capacity() == old(self).capacity(),
            final(self).hits() == old(self).hits(),
            final(self).misses() == old(self).misses(),
    {
        self.cache_clear();
    }

    /// Looks `key` up. An entry that is there and that `is_valid` accepts is a
    /// hit: it moves to the front and its value is returned. Anything else is
    /// a miss. An entry that `is_valid` turns down stays where it is.
    pub fn get_if<F: FnOnce(&V) -> bool>(&mut self, key: &K, is_valid: F) -> (found: Option<&V>)
        requires
            old(self).wf(),
            old(self).contains_key(*key) ==> is_valid.requires((&old(self).value_of(*key),)),
        ensures
            final(self).wf(),
            final(self).capacity() == old(self).capacity(),
            match found {
                Some(v) => {
                    &&& old(self).contains_key(*key)
                    &&& final(self).keys()[0] == *key
                    &&& *v == old(self).value_of(*key)
                    &&& is_valid.ensures((&old(self).value_of(*key),), true)
                    &&& final(self)@ == touched(old(self)@, old(self).position_of(*key))
                    &&& final(self).hits() == bumped(old(self).hits())
                    &&& final(self).misses() == old(self).misses()
                },
                None => {
                    &&& old(self).contains_key(*key) ==> is_valid.ensures(
                        (&old(self).value_of(*key),),
                        false,
                    )
                    &&& final(self)@ == old(self)@
                    &&& final(self).hits() == old(self).hits()
                    &&& final(self).misses() == bumped(old(self).misses())
                },
            },
    {
        let ghost before = *self;
        let hash = self.hash(key);
        if let Some(index) = self.get_index(hash, key) {
            proof {
                before.lemma_slot_entry(index);
            }
            if is_valid(&self.order.get(index).1) {
                self.order.move_to_front(index);
                self.hits = bump(self.hits);
                return Some(&self.order.get(index).1);
            }
        }
        self.misses = bump(self.misses);
        None
    }

    /// Looks `key` up: a hit moves the entry to the front and returns its
    /// value, a miss returns nothing. Either is counted.
    pub fn cache_get(&mut self, key: &K) -> (found: Option<&V>)
        requires
            old(self).wf(),
        ensures
            final(self).wf(),
            final(self).capacity() == old(self).capacity(),
            match found {
                Some(v) => {
                    &&& old(self).contains_key(*key)
                    &&& *v == old(self).value_of(*key)
                    &&& final(self)@ == touched(old(self)@, old(self).position_of(*key))
                    &&& final(self).keys()[0] == *key
                    &&& final(self).hits() == bumped(old(self).hits())
                    &&& final(self).misses() == old(self).misses()
                },
                None => {
                    &&& !old(self).contains_key(*key)
                    &&& final(self)@ == old(self)@
                    &&& final(self).hits() == old(self).hits()
                    &&& final(self).misses() == bumped(old(self).misses())
                },
            },
    {
        self.get_if(key, |_v: &V| -> (valid: bool) ensures valid { true })
    }

    /// Changing the value in the slot `h` leaves the index and the arena in
    /// agreement, and changes that one entry.
    proof fn lemma_value_keeps_linked(before: Self, after: Self, h: usize)
        requires
            before.linked(),
            before.order.has(h),
            after.store == before.store,
            after.hash_builder == before.hash_builder,
            after.capacity == before.capacity,
            after.order.wf(),
            after.order.handles() == before.order.handles(),
            forall|g: usize|
                before.order.has(g) && g != h ==> #[trigger] after.order.item(g)
                    == before.order.item(g),
            after.order.item(h).0 == before.order.item(h).0,
        ensures
            after.linked(),
            after@ == before@.update(before.order.position(h), after.order.item(h)),
    {
        assert forall|g: usize| #[trigger]
            index_entries(after.store).contains_key(g) <==> after.order.has(g) by {}
        assert forall|g: usize| #[trigger]
            index_entries(after.store).contains_key(g) implies after.order.has(g) && index_entries(
            after.store,
        )[g] == key_hash(after.hash_builder, after.order.item(g).0) by {}
        assert forall|f: usize, g: usize|
            after.order.has(f) && after.order.has(g) && (#[trigger] after.order.item(f)).0 == (
            #[trigger] after.order.item(g)).0 implies f == g by {}
        before.order.lemma_handles_distinct();
        let p = before.order.position(h);
        assert(after@ =~= before@.update(p, after.order.item(h))) by {
            assert forall|q: int| 0 <= q < after@.len() implies after@[q] == before@.update(
                p,
                after.order.item(h),
            )[q] by {}
        }
    }

    /// Looks `key` up as `get_if` does, and on a hit hands the value out to
    /// be changed in place. The key of the entry cannot be changed.
    pub fn get_mut_if<F: FnOnce(&V) -> bool>(&mut self, key: &K, is_valid: F) -> (found: Option<
        &mut V,
    >)
        requires
            old(self).wf(),
            old(self).contains_key(*key) ==> is_valid.requires((&old(self).value_of(*key),)),
        ensures
            final(self).wf(),
            final(self).capacity() == old(self).capacity(),
            match found {
                Some(v) => {
                    &&& old(self).contains_key(*key)
                    &&& final(self).keys()[0] == *key
                    &&& *v == old(self).value_of(*key)
                    &&& is_valid.ensures((&old(self).value_of(*key),), true)
                    &&& final(self)@ == seq![(*key, *final(v))] + old(self)@.remove(
                        old(self).position_of(*key),
                    )
                    &&& final(self).hits() == bumped(old(self).hits())
                    &&& final(self).misses() == old(self).misses()
                },
                None => {
                    &&& old(self).contains_key(*key) ==> is_valid.ensures(
                        (&old(self).value_of(*key),),
                        false,
                    )
                    &&& final(self)@ == old(self)@
                    &&& final(self).hits() == old(self).hits()
                    &&& final(self).misses() == bumped(old(self).misses())
                },
            },
    {
        let ghost before = *self;
        let hash = self.hash(key);
        if let Some(index) = self.get_index(hash, key) {
            proof {
                before.lemma_slot_entry(index);
            }
            if is_valid(&self.order.get(index).1) {
                self.order.move_to_front(index);
                self.hits = bump(self.hits);
                let ghost mid = *self;
                proof {
                    mid.order.lemma_handles_distinct();
                    assert(mid.order.handles()[0] == index);
                }
                let pair = self.order.get_mut(index);
                let value = &mut pair.1;
                return Some(value);
            }
        }
        self.misses = bump(self.misses);
        None
    }

    /// Looks `key` up: a hit moves the entry to the front and hands its value
    /// out to be changed in place, a miss returns nothing. Either is counted.
    pub fn cache_get_mut(&mut self, key: &K) -> (found: Option<&mut V>)
        requires
            old(self).wf(),
        ensures
            final(self).wf(),
            final(self).capacity() == old(self).capacity(),
            match found {
                Some(v) => {
                    &&& old(self).contains_key(*key)
                    &&& final(self).keys()[0] == *key
                    &&& *v == old(self).value_of(*key)
                    &&& final(self)@ == seq![(*key, *final(v))] + old(self)@.remove(
                        old(self).position_of(*key),
                    )
                    &&& final(self).hits() == bumped(old(self).hits())
                    &&& final(self).misses() == old(self).misses()
                },
                None => {
                    &&& !old(self).contains_key(*key)
                    &&& final(self)@ == old(self)@
                    &&& final(self).hits() == old(self).hits()
                    &&& final(self).misses() == bumped(old(self).misses())
                },
            },
    {
        self.get_mut_if(key, |_v: &V| -> (valid: bool) ensures valid { true })
    }

    /// Puts `val` in the slot `index`, which holds `key` already, moves the
    /// slot to the front and hands the value out.
    fn refresh_at(&mut self, index: usize, key: K, val: V) -> (value: &mut V)
        requires
            old(self).wf(),
            old(self).order.has(index),
            old(self).order.item(index).0 == key,
        ensures
            *value == val,
            final(self).wf(),
            final(self)@ == seq![(key, *final(value))]
                + old(self)@.remove(old(self).position_of(key)),
            final(self).capacity == old(self).capacity,
            final(self).hits == old(self).hits,
            final(self).misses == old(self).misses,
    {
        let ghost before = *self;
        proof {
            before.lemma_slot_entry(index);
        }
        let _ = self.order.set(index, (key, val));
        self.touch_at(index)
    }

    /// Moves the slot `index` to the front and hands its value out.
    fn touch_at(&mut self, index: usize) -> (value: &mut V)
        requires
            old(self).wf(),
            old(self).order.has(index),
        ensures
            *value == old(self).order.item(index).1,
            final(self).wf(),
            final(self)@ == seq![(old(self).order.item(index).0, *final(value))]
                + old(self)@.remove(
                old(self).order.position(index),
            ),
            final(self).capacity == old(self).capacity,
            final(self).hits == old(self).hits,
            final(self).misses == old(self).misses,
    {
        self.order.move_to_front(index);
        let ghost mid = *self;
        proof {
            mid.order.lemma_handles_distinct();
            assert(mid.order.handles()[0] == index);
        }
        let pair = self.order.get_mut(index);
        let value = &mut pair.1;
        value
    }

    /// The value stored under `key`, or, where there is none or `is_valid`
    /// turns it down, the value that `f` then makes and that is stored. The
    /// entry ends up at the front. A value that was there and valid is a hit;
    /// anything else is a miss, and only then is `f` called.
    ///
    /// Returns whether `key` was present, whether its value was valid, and
    /// the value now stored, to be changed in place.
    pub fn get_or_set_with_if<F: FnOnce() -> V, FC: FnOnce(&V) -> bool>(
        &mut self,
        key: K,
        f: F,
        is_valid: FC,
    ) -> ((was_present, was_valid, value): (bool, bool, &mut V))
        requires
            old(self).wf(),
            old(self).contains_key(key) ==> is_valid.requires((&old(self).value_of(key),)),
            !old(self).contains_key(key) || is_valid.ensures((&old(self).value_of(key),), false)
                ==> f.requires(()),
        ensures
            final(self).wf(),
            final(self).capacity() == old(self).capacity(),
            was_present == old(self).contains_key(key),
            final(self).keys()[0] == key,
            was_valid ==> was_present,
            was_present ==> is_valid.ensures((&old(self).value_of(key),), was_valid),
            was_valid ==> *value == old(self).value_of(key),
            !was_valid ==> f.ensures((), *value),
            was_present ==> final(self)@ == seq![(key, *final(value))] + old(self)@.remove(
                old(self).position_of(key),
            ),
            !was_present ==> final(self)@ == admitted(
                old(self)@,
                old(self).capacity() as int,
                (key, *final(value)),
            ),
            final(self).hits() == (if was_valid {
                bumped(old(self).hits())
            } else {
                old(self).hits()
            }),
            final(self).misses() == (if was_valid {
                old(self).misses()
            } else {
                bumped(old(self).misses())
            }),
    {
        let ghost before = *self;
        let ghost after = *final(self);
        let hash = self.hash(&key);
        let index = self.get_index(hash, &key);
        if let Some(index) = index {
            proof {
                before.lemma_slot_entry(index);
            }
            let valid = is_valid(&self.order.get(index).1);
            if valid {
                self.hits = bump(self.hits);
                (true, true, self.touch_at(index))
            } else {
                self.misses = bump(self.misses);
                let fresh = f();
                (true, false, self.refresh_at(index, key, fresh))
            }
        } else {
            self.misses = bump(self.misses);
            let fresh = f();
            let index = self.insert_fresh(hash, key, fresh);
            let ghost mid = *self;
            let pair = self.order.get_mut(index);
            let value = &mut pair.1;
            proof {
                Self::lemma_value_keeps_linked(mid, after, index);
            }
            (false, false, value)
        }
    }

    /// As `get_or_set_with_if`, with an `f` that may fail. `f` runs before
    /// anything is changed: when it fails, its error is returned and the
    /// cache is as it was.
    pub fn try_get_or_set_with_if<E, F: FnOnce() -> Result<V, E>, FC: FnOnce(&V) -> bool>(
        &mut self,
        key: K,
        f: F,
        is_valid: FC,
    ) -> (out: Result<(bool, bool, &mut V), E>)
        requires
            old(self).wf(),
            old(self).contains_key(key) ==> is_valid.requires((&old(self).value_of(key),)),
            !old(self).contains_key(key) || is_valid.ensures((&old(self).value_of(key),), false)
                ==> f.requires(()),
        ensures
            final(self).wf(),
            final(self).capacity() == old(self).capacity(),
            match out {
                Ok((was_present, was_valid, value)) => {
                    &&& was_present == old(self).contains_key(key)
                    &&& final(self).keys()[0] == key
                    &&& was_valid ==> was_present
                    &&& was_present ==> is_valid.ensures((&old(self).value_of(key),), was_valid)
                    &&& was_valid ==> *value == old(self).value_of(key)
                    &&& !was_valid ==> f.ensures((), Ok(*value))
                    &&& was_present ==> final(self)@ == seq![(key, *final(value))]
                        + old(self)@.remove(old(self).position_of(key))
                    &&& !was_present ==> final(self)@ == admitted(
                        old(self)@,
                        old(self).capacity() as int,
                        (key, *final(value)),
                    )
                    &&& final(self).hits() == (if was_valid {
                        bumped(old(self).hits())
                    } else {
                        old(self).hits()
                    })
                    &&& final(self).misses() == (if was_valid {
                        old(self).misses()
                    } else {
                        bumped(old(self).misses())
                    })
                },
                Err(e) => {
                    &&& f.ensures((), Err(e))
                    &&& old(self).contains_key(key) ==> is_valid.ensures(
                        (&old(self).value_of(key),),
                        false,
                    )
                    &&& final(self)@ == old(self)@
                    &&& final(self).hits() == old(self).hits()
                    &&& final(self).misses() == old(self).misses()
                },
            },
    {
        let ghost before = *self;
        let ghost after = *final(self);
        let hash = self.hash(&key);
        let index = self.get_index(hash, &key);
        if let Some(index) = index {
            proof {
                before.lemma_slot_entry(index);
            }
            let valid = is_valid(&self.order.get(index).1);
            if valid {
                self.hits = bump(self.hits);
                Ok((true, true, self.touch_at(index)))
            } else {
                match f() {
                    Ok(fresh) => {
                        self.misses = bump(self.misses);
                        Ok((true, false, self.refresh_at(index, key, fresh)))
                    },
                    Err(e) => Err(e),
                }
            }
        } else {
            match f() {
                Ok(fresh) => {
                    self.misses = bump(self.misses);
                    let index = self.insert_fresh(hash, key, fresh);
                    let ghost mid = *self;
                    let pair = self.order.get_mut(index);
                    let value = &mut pair.1;
                    proof {
                        Self::lemma_value_keeps_linked(mid, after, index);
                    }
                    Ok((false, false, value))
                },
                Err(e) => Err(e),
            }
        }
    }

    /// The value stored under `key`; where there is none, `f` makes one and
    /// it is stored. A value that was there is a hit and `f` is not called.
    pub fn cache_get_or_set_with<F: FnOnce() -> V>(&mut self, key: K, f: F) -> (value: &mut V)
        requires
            old(self).wf(),
            !old(self).contains_key(key) ==> f.requires(()),
        ensures
            final(self).wf(),
            final(self).capacity() == old(self).capacity(),
            final(self).keys()[0] == key,
            old(self).contains_key(key) ==> {
                &&& *value == old(self).value_of(key)
                &&& final(self)@ == seq![(key, *final(value))] + old(self)@.remove(
                    old(self).position_of(key),
                )
                &&& final(self).hits() == bumped(old(self).hits())
                &&& final(self).misses() == old(self).misses()
            },
            !old(self).contains_key(key) ==> {
                &&& f.ensures((), *value)
                &&& final(self)@ == admitted(
                    old(self)@,
                    old(self).capacity() as int,
                    (key, *final(value)),
                )
                &&& final(self).hits() == old(self).hits()
                &&& final(self).misses() == bumped(old(self).misses())
            },
    {
        let (_, _, value) = self.get_or_set_with_if(
            key,
            f,
            |_v: &V| -> (valid: bool) ensures valid { true },
        );
        value
    }

    /// As `cache_get_or_set_with`, with an `f` that may fail: its error is
    /// returned and the cache is as it was.
    pub fn cache_try_get_or_set_with<F: FnOnce() -> Result<V, E>, E>(&mut self, key: K, f: F) -> (out:
        Result<&mut V, E>)
        requires
            old(self).wf(),
            !old(self).contains_key(key) ==> f.requires(()),
        ensures
            final(self).wf(),
            final(self).capacity() == old(self).capacity(),
            match out {
                Ok(value) => {
                    &&& final(self).keys()[0] == key
                    &&& old(self).contains_key(key) ==> {
                        &&& *value == old(self).value_of(key)
                        &&& final(self)@ == seq![(key, *final(value))] + old(self)@.remove(
                            old(self).position_of(key),
                        )
                        &&& final(self).hits() == bumped(old(self).hits())
                        &&& final(self).misses() == old(self).misses()
                    }
                    &&& !old(self).contains_key(key) ==> {
                        &&& f.ensures((), Ok(*value))
                        &&& final(self)@ == admitted(
                            old(self)@,
                            old(self).capacity() as int,
                            (key, *final(value)),
                        )
                        &&& final(self).hits() == old(self).hits()
                        &&& final(self).misses() == bumped(old(self).misses())
                    }
                },
                Err(e) => {
                    &&& !old(self).contains_key(key)
                    &&& f.ensures((), Err(e))
                    &&& final(self)@ == old(self)@
                    &&& final(self).hits() == old(self).hits()
                    &&& final(self).misses() == old(self).misses()
                },
            },
    {
        match self.try_get_or_set_with_if(key, f, |_v: &V| -> (valid: bool) ensures valid { true }) {
            Ok((_, _, value)) => Ok(value),
            Err(e) => Err(e),
        }
    }

    /// The arena that holds the entries in recency order.
    #[must_use]
    pub fn get_order(&self) -> (order: &LRUList<(K, V)>)
        ensures
            order@ == self@,
            self.wf() ==> order.wf(),
    {
        &self.order
    }

    /// The entries, most recently used first.
    pub fn iter_order(&self) -> (entries: std::vec::IntoIter<&(K, V)>)
        requires
            self.wf(),
        ensures
            into_iter_elts(entries).unref() == self@,
    {
        self.order.iter()
    }

    /// The keys, most recently used first.
    pub fn key_order(&self) -> (keys: std::vec::IntoIter<&K>)
        requires
            self.wf(),
        ensures
            into_iter_elts(keys).unref() == self.keys(),
    {
        let entries = self.order.to_vec();
        let mut keys: Vec<&K> = Vec::with_capacity(entries.len());
        let mut i: usize = 0;
        while i < entries.len()
            invariant
                i <= entries@.len(),
                entries@.unref() == self@,
                keys@.len() == i,
                forall|j: int| 0 <= j < i ==> *(#[trigger] keys@[j]) == self@[j].0,
            decreases entries@.len() - i,
        {
            keys.push(&entries[i].0);
            i = i + 1;
        }
        proof {
            assert(keys@.unref() =~= self.keys());
        }
        keys.into_iter()
    }

    /// The values, most recently used first.
    pub fn value_order(&self) -> (values: std::vec::IntoIter<&V>)
        requires
            self.wf(),
        ensures
            into_iter_elts(values).unref() == Seq::new(self@.len(), |i: int| self@[i].1),
    {
        let entries = self.order.to_vec();
        let mut values: Vec<&V> = Vec::with_capacity(entries.len());
        let mut i: usize = 0;
        while i < entries.len()
            invariant
                i <= entries@.len(),
                entries@.unref() == self@,
                values@.len() == i,
                forall|j: int| 0 <= j < i ==> *(#[trigger] values@[j]) == self@[j].1,
            decreases entries@.len() - i,
        {
            values.push(&entries[i].1);
            i = i + 1;
        }
        values.into_iter()
    }

    /// The keys of the entries that `keep` turns down, in recency order.
    fn rejected_keys<F: Fn(&K, &V) -> bool>(&self, keep: &F) -> (out: (Vec<K>, Ghost<Set<K>>))
        requires
            self.wf(),
            forall|i: int| 0 <= i < self@.len() ==> keep.requires((&self@[i].0, &self@[i].1)),
        ensures
            forall|i: int|
                0 <= i < self@.len() ==> keep.ensures(
                    (&self@[i].0, &self@[i].1),
                    !out.1@.contains(#[trigger] self@[i].0),
                ),
            forall|k: K| out.1@.contains(k) <==> out.0@.contains(k),
    {
        let entries = self.order.to_vec();
        let mut keys: Vec<K> = Vec::new();
        let ghost mut dropped: Set<K> = Set::empty();
        let mut i: usize = 0;
        proof {
            self.lemma_keys_distinct();
        }
        while i < entries.len()
            invariant
                key_model::<K>(),
                i <= entries@.len(),
                entries@.unref() == self@,
                self.keys().no_duplicates(),
                forall|j: int| 0 <= j < self@.len() ==> keep.requires((&self@[j].0, &self@[j].1)),
                forall|j: int|
                    0 <= j < i ==> keep.ensures(
                        (&self@[j].0, &self@[j].1),
                        !dropped.contains(#[trigger] self@[j].0),
                    ),
                forall|k: K| dropped.contains(k) ==> exists|j: int| 0 <= j < i && self@[j].0 == k,
                forall|k: K| dropped.contains(k) <==> keys@.contains(k),
            decreases entries@.len() - i,
        {
            assert(entries@.unref()[i as int] == *entries@[i as int]);
            let entry = entries[i];
            let ghost earlier = dropped;
            let ghost listed = keys@;
            let kept = keep(&entry.0, &entry.1);
            if !kept {
                let key = entry.0.clone();
                assert(cloned(entry.0, key));
                keys.push(key);
                proof {
                    dropped = dropped.insert(entry.0);
                    assert forall|k: K| dropped.contains(k) <==> keys@.contains(k) by {
                        if earlier.contains(k) {
                            let q = listed.index_of(k);
                            assert(keys@[q] == k);
                        }
                        assert(keys@[listed.len() as int] == entry.0);
                    }
                }
            }
            proof {
                assert forall|j: int| 0 <= j < i + 1 implies keep.ensures(
                    (&self@[j].0, &self@[j].1),
                    !dropped.contains(#[trigger] self@[j].0),
                ) by {
                    if j < i {
                        assert(self.keys()[j] == self@[j].0);
                        assert(self.keys()[i as int] == self@[i as int].0);
                    } else {
                        if earlier.contains(self@[i as int].0) {
                            let w = choose|w: int| 0 <= w < i && self@[w].0 == self@[i as int].0;
                            assert(self.keys()[w] == self@[w].0);
                            assert(self.keys()[i as int] == self@[i as int].0);
                        }
                    }
                }
                assert forall|k: K| dropped.contains(k) implies exists|j: int|
                    0 <= j < i + 1 && self@[j].0 == k by {}
            }
            i = i + 1;
        }
        (keys, Ghost(dropped))
    }

    /// Keeps the entries that `keep` accepts and drops the others. Those that
    /// stay keep their order. First the keys to drop are collected, from the
    /// entries as they are at the call; then each is removed by key.
    pub fn retain<F: Fn(&K, &V) -> bool>(&mut self, keep: F)
        requires
            old(self).wf(),
            forall|i: int|
                0 <= i < old(self)@.len() ==> keep.requires((&old(self)@[i].0, &old(self)@[i].1)),
        ensures
            final(self).wf(),
            final(self).capacity() == old(self).capacity(),
            final(self).hits() == old(self).hits(),
            final(self).misses() == old(self).misses(),
            exists|dropped: Set<K>|
                {
                    &&& forall|i: int|
                        0 <= i < old(self)@.len() ==> keep.ensures(
                            (&old(self)@[i].0, &old(self)@[i].1),
                            !dropped.contains(#[trigger] old(self)@[i].0),
                        )
                    &&& final(self)@ == without_keys(old(self)@, dropped)
                },
            forall|pred: spec_fn((K, V)) -> bool|
                (forall|i: int, b: bool|
                    0 <= i < old(self)@.len() && #[trigger] keep.ensures(
                        (&old(self)@[i].0, &old(self)@[i].1),
                        b,
                    ) ==> b == pred(old(self)@[i])) ==> final(self)@ == old(self)@.filter(pred),
    {
        let ghost before = *self;
        let (remove_keys, Ghost(dropped)) = self.rejected_keys(&keep);
        let mut j: usize = 0;
        let ghost mut gone: Set<K> = Set::empty();
        proof {
            lemma_filter_all(before@, |e: (K, V)| !gone.contains(e.0));
        }
        while j < remove_keys.len()
            invariant
                j <= remove_keys@.len(),
                self.wf(),
                self.capacity() == before.capacity(),
                self.hits() == before.hits(),
                self.misses() == before.misses(),
                self@ == without_keys(before@, gone),
                forall|k: K| gone.contains(k) <==> remove_keys@.subrange(0, j as int).contains(k),
            decreases remove_keys@.len() - j,
        {
            let ghost earlier = *self;
            let ghost key = remove_keys@[j as int];
            let _ = self.cache_remove(&remove_keys[j]);
            proof {
                earlier.lemma_keys_distinct();
                if earlier.contains_key(key) {
                    let p = earlier.position_of(key);
                    assert forall|a: int, b: int|
                        0 <= a < earlier@.len() && 0 <= b < earlier@.len() && a != b
                            implies earlier@[a].0
                        != earlier@[b].0 by {
                        assert(earlier.keys()[a] == earlier@[a].0);
                        assert(earlier.keys()[b] == earlier@[b].0);
                    }
                    lemma_remove_is_filter(earlier@, p);
                } else {
                    assert forall|a: int| 0 <= a < earlier@.len() implies (#[trigger] earlier@[a]).0
                        != key by {
                        assert(earlier.keys()[a] == earlier@[a].0);
                    }
                    lemma_filter_all(earlier@, |e: (K, V)| e.0 != key);
                }
                lemma_drop_one_more(before@, gone, key);
                let next = remove_keys@.subrange(0, j as int + 1);
                let prev = remove_keys@.subrange(0, j as int);
                assert forall|k: K| gone.insert(key).contains(k) <==> next.contains(k) by {
                    if next.contains(k) {
                        let q = next.index_of(k);
                        if q < j {
                            assert(prev[q] == k);
                        }
                    }
                    assert(next[j as int] == key);
                }
                gone = gone.insert(key);
            }
            j = j + 1;
        }
        proof {
            assert(remove_keys@.subrange(0, j as int) =~= remove_keys@);
            assert(gone =~= dropped);
            assert forall|pred: spec_fn((K, V)) -> bool|
                (forall|i: int, b: bool|
                    0 <= i < before@.len() && #[trigger] keep.ensures(
                        (&before@[i].0, &before@[i].1),
                        b,
                    ) ==> b == pred(before@[i])) implies self@ == before@.filter(pred) by {
                assert forall|i: int| 0 <= i < before@.len() implies pred(#[trigger] before@[i])
                    == !dropped.contains(before@[i].0) by {}
                lemma_filter_same(before@, pred, |e: (K, V)| !dropped.contains(e.0));
            }
        }
    }

    /// Whether `key` has an entry, and whether `is_valid` accepts its value.
    /// Nothing is counted and nothing moves.
    pub fn probe<FC: FnOnce(&V) -> bool>(&self, key: &K, is_valid: FC) -> (state: Presence)
        requires
            self.wf(),
            self.contains_key(*key) ==> is_valid.requires((&self.value_of(*key),)),
        ensures
            match state {
                Presence::Valid => self.contains_key(*key) && is_valid.ensures(
                    (&self.value_of(*key),),
                    true,
                ),
                Presence::Stale => self.contains_key(*key) && is_valid.ensures(
                    (&self.value_of(*key),),
                    false,
                ),
                Presence::Absent => !self.contains_key(*key),
            },
    {
        let hash = self.hash(key);
        match self.get_index(hash, key) {
            Some(index) => {
                proof {
                    self.lemma_slot_entry(index);
                }
                if is_valid(&self.order.get(index).1) {
                    Presence::Valid
                } else {
                    Presence::Stale
                }
            },
            None => Presence::Absent,
        }
    }

    /// Stores a value that was made because a lookup of `key` missed: it
    /// takes the place of the value of `key`, or comes in as a new entry, and
    /// is at the front afterwards. One miss is counted. Returns whether `key`
    /// was present, and the stored value, to be changed in place.
    pub fn commit_fresh(&mut self, key: K, val: V) -> ((was_present, value): (bool, &mut V))
        requires
            old(self).wf(),
        ensures
            final(self).wf(),
            final(self).capacity() == old(self).capacity(),
            was_present == old(self).contains_key(key),
            *value == val,
            final(self).keys()[0] == key,
            was_present ==> final(self)@ == seq![(key, *final(value))] + old(self)@.remove(
                old(self).position_of(key),
            ),
            !was_present ==> final(self)@ == admitted(
                old(self)@,
                old(self).capacity() as int,
                (key, *final(value)),
            ),
            final(self).hits() == old(self).hits(),
            final(self).misses() == bumped(old(self).misses()),
    {
        let ghost before = *self;
        let ghost after = *final(self);
        let hash = self.hash(&key);
        let index = self.get_index(hash, &key);
        self.misses = bump(self.misses);
        if let Some(index) = index {
            proof {
                before.lemma_slot_entry(index);
            }
            (true, self.refresh_at(index, key, val))
        } else {
            let index = self.insert_fresh(hash, key, val);
            let ghost mid = *self;
            proof {
                mid.lemma_slot_entry(index);
            }
            let pair = self.order.get_mut(index);
            let value = &mut pair.1;
            proof {
                Self::lemma_value_keeps_linked(mid, after, index);
            }
            (false, value)
        }
    }
}

impl<K: Hash + Eq + Clone, V: PartialEq> SizedCache<K, V> {
    /// Both caches have the same number of entries, and each key of this one
    /// has in the other a value that `==` calls equal. The recency order and
    /// the capacity play no part.
    pub open spec fn same_entries(&self, other: &Self) -> bool {
        &&& self@.len() == other@.len()
        &&& forall|i: int|
            0 <= i < self@.len() ==> other.contains_key(#[trigger] self@[i].0)
                && self@[i].1.eq_spec(
                &other.value_of(self@[i].0),
            )
    }

    /// Whether the two caches hold the same entries, in whatever order.
    pub fn eq(&self, other: &SizedCache<K, V>) -> (same: bool)
        requires
            self.wf(),
            other.wf(),
        ensures
            V::obeys_eq_spec() ==> same == self.same_entries(other),
    {
        if self.cache_size() != other.cache_size() {
            return false;
        }
        let entries = self.order.to_vec();
        let mut i: usize = 0;
        while i < entries.len()
            invariant
                i <= entries@.len(),
                other.wf(),
                entries@.unref() == self@,
                self@.len() == other@.len(),
                forall|j: int|
                    0 <= j < i ==> other.contains_key(#[trigger] self@[j].0) && (V::obeys_eq_spec()
                        ==> self@[j].1.eq_spec(&other.value_of(self@[j].0))),
            decreases entries@.len() - i,
        {
            assert(entries@.unref()[i as int] == *entries@[i as int]);
            let entry = entries[i];
            let hash = other.hash(&entry.0);
            match other.get_index(hash, &entry.0) {
                Some(index) => {
                    proof {
                        other.lemma_slot_entry(index);
                    }
                    if !(entry.1 == other.order.get(index).1) {
                        return false;
                    }
                },
                None => {
                    return false;
                },
            }
            i = i + 1;
        }
        true
    }
}

impl<K: Hash + Eq + Clone, V: Clone> Clone for SizedCache<K, V> {
    /// A second cache with its own index, arena and counters, which holds
    /// clones of the entries in the same order.
    fn clone(&self) -> (copy: Self)
        ensures
            self.wf() ==> {
                &&& copy.wf()
                &&& copy.capacity() == self.capacity()
                &&& copy.hits() == self.hits()
                &&& copy.misses() == self.misses()
                &&& copy@.len() == self@.len()
                &&& forall|i: int|
                    0 <= i < self@.len() ==> (#[trigger] copy@[i]).0 == self@[i].0 && cloned(
                        self@[i].1,
                        copy@[i].1,
                    )
            },
    {
        let order = self.order.duplicate(clone_entry::<K, V>);
        let copy = SizedCache {
            store: index_clone(&self.store),
            hash_builder: state_clone(&self.hash_builder),
            order,
            capacity: self.capacity,
            hits: self.hits,
            misses: self.misses,
        };
        proof {
            if self.wf() {
                assert forall|h: usize| #[trigger]
                    index_entries(copy.store).contains_key(h) <==> copy.order.has(h) by {}
                assert forall|h: usize| #[trigger]
                    index_entries(copy.store).contains_key(h) implies copy.order.has(h)
                    && index_entries(copy.store)[h] == key_hash(
                    copy.hash_builder,
                    copy.order.item(h).0,
                ) by {}
                assert forall|g: usize, h: usize|
                    copy.order.has(g) && copy.order.has(h) && (#[trigger] copy.order.item(g)).0 == (
                    #[trigger] copy.order.item(h)).0 implies g == h by {}
                assert forall|i: int| 0 <= i < self@.len() implies (#[trigger] copy@[i]).0
                    == self@[i].0 && cloned(self@[i].1, copy@[i].1) by {}
            }
        }
        copy
    }
}

} // verus!
