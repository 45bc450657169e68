//! The hash index: a `hashbrown::HashTable` of arena handles, filed under the
//! hash that a per-instance `ahash::RandomState` gives the key in the slot a
//! handle names. The table holds no key: to compare or to hash an entry it
//! asks the arena for the key behind the handle.
//!
//! The functions marked `external_body` make the calls into the two outside
//! crates. Nothing is proved of them: each contract is taken from the crate's
//! source and is believed as it stands. The three functions at the end of the
//! file are verified; they are what the closures handed to the table call.
//!
//! The table and the state abort the process when memory runs out, as the
//! collections of the standard library do. No contract here speaks of that.

use crate::lru_list::LRUList;
use ahash::RandomState;
use hashbrown::HashTable;
use hashbrown::TryReserveError;
use std::hash::Hash;
use vstd::laws_eq::obeys_concrete_eq;
use vstd::prelude::*;
use vstd::std_specs::hash::obeys_key_model;

verus! {

/// `ahash::RandomState`, the seeded state from which hashes are computed.
/// Nothing of its inside is visible here.
#[verifier::external_type_specification]
#[verifier::external_body]
pub struct ExRandomState(RandomState);

/// `ahash::RandomState::hash_one`. Nothing is claimed of it here: the
/// declaration only lets contracts speak of the values it may return, as
/// `hash_key` does.
pub assume_specification<T: Hash>[ RandomState::hash_one ](state: &RandomState, x: T) -> (h: u64)
    where RandomState: Sized
;

/// The hash of `key` under `state`: the value that
/// `ahash::RandomState::hash_one` returns for them. It is a function of the
/// state as well as of the key, and of nothing else: two caches, each with a
/// state of its own, need not give a key the same hash.
pub closed spec fn key_hash<K: Hash>(state: RandomState, key: K) -> u64 {
    choose|h: u64| call_ensures(RandomState::hash_one::<&K>, (&state, &key), h)
}

/// What a key type has to be for the index to work: its `hash` writes the
/// same bytes for the same key, its `==` tells exactly whether two keys are
/// the same value, and a clone of a key is that key.
pub open spec fn key_model<K: Hash + Eq + Clone>() -> bool {
    &&& obeys_key_model::<K>()
    &&& obeys_concrete_eq::<K>()
    &&& forall|a: K, b: K| cloned(a, b) ==> a == b
}

/// Why a reservation failed.
#[derive(Clone, Copy, Debug, PartialEq, Eq, Structural)]
pub enum ReserveError {
    /// The capacity asked for is more than a table can have.
    CapacityOverflow,
    /// The allocator had no memory to give.
    AllocError,
}

/// A hash table of arena handles: a `hashbrown::HashTable<usize>`. What it
/// holds is known only through `index_entries`.
#[verifier::external_body]
pub struct HashIndex {
    table: HashTable<usize>,
}

/// The handles that the table holds, each with the hash it was filed under.
pub uninterp spec fn index_entries(index: HashIndex) -> Map<usize, u64>;

/// Every handle in the table names a live slot of `order`, and is filed under
/// the hash that `state` gives the key in that slot.
pub open spec fn index_matches<K: Hash, V>(
    index: HashIndex,
    state: RandomState,
    order: LRUList<(K, V)>,
) -> bool {
    forall|h: usize| #[trigger]
        index_entries(index).contains_key(h) ==> order.has(h) && index_entries(index)[h]
            == key_hash(state, order.item(h).0)
}

/// Calls `ahash::RandomState::new`: a state with keys drawn from the
/// process's random source. Two calls give unrelated states, so nothing is
/// said of the result.
#[verifier::external_body]
pub(crate) fn new_state() -> RandomState {
    RandomState::new()
}

/// Calls `ahash::RandomState::hash_one` on a key. The result is a value of
/// that function for this state and key, and, for a key type whose `hash` is
/// deterministic, the only one: hashers built from one state give the same
/// hash for the same data.
#[verifier::external_body]
pub(crate) fn hash_key<K: Hash>(state: &RandomState, key: &K) -> (h: u64)
    ensures
        call_ensures(RandomState::hash_one::<&K>, (state, key), h),
        obeys_key_model::<K>() ==> forall|other: u64|
            call_ensures(RandomState::hash_one::<&K>, (state, key), other) ==> other == h,
{
    state.hash_one(key)
}

/// Calls `RandomState::clone`: a state with the same keys, which therefore
/// gives every key the hash that `state` gives it.
#[verifier::external_body]
pub(crate) fn state_clone(state: &RandomState) -> (copy: RandomState)
    ensures
        copy == *state,
{
    state.clone()
}

/// Calls `HashTable::clone`: a second table that holds the same handles,
/// each filed under the same hash.
#[verifier::external_body]
pub(crate) fn index_clone(index: &HashIndex) -> (copy: HashIndex)
    ensures
        index_entries(copy) == index_entries(*index),
{
    HashIndex { table: index.table.clone() }
}

/// Calls `HashTable::with_capacity`: an empty table. The bound leaves out the
/// capacities for which the table's layout does not fit the address space,
/// where the call panics.
#[verifier::external_body]
pub(crate) fn index_with_capacity(capacity: usize) -> (index: HashIndex)
    requires
        capacity <= usize::MAX / 64,
    ensures
        index_entries(index) == (Map::<usize, u64>::empty()),
{
    HashIndex { table: HashTable::with_capacity(capacity) }
}

/// Calls `HashTable::new`: an empty table that has allocated nothing.
#[verifier::external_body]
pub(crate) fn index_new() -> (index: HashIndex)
    ensures
        index_entries(index) == (Map::<usize, u64>::empty()),
{
    HashIndex { table: HashTable::new() }
}

/// Calls `HashTable::try_reserve`. Whether it succeeds is the allocator's
/// matter; either way the table holds what it held. The table rehashes its
/// entries through the closure, so each must be filed under its key's hash.
#[verifier::external_body]
pub(crate) fn index_try_reserve<K: Hash, V>(
    index: &mut HashIndex,
    additional: usize,
    order: &LRUList<(K, V)>,
    state: &RandomState,
) -> (done: Result<(), ReserveError>)
    requires
        order.wf(),
        obeys_key_model::<K>(),
        index_matches(*old(index), *state, *order),
    ensures
        index_entries(*final(index)) == index_entries(*old(index)),
{
    match index.table.try_reserve(additional, |&h| hash_at(order, state, h)) {
        Ok(()) => Ok(()),
        Err(TryReserveError::CapacityOverflow) => Err(ReserveError::CapacityOverflow),
        Err(TryReserveError::AllocError { .. }) => Err(ReserveError::AllocError),
    }
}

/// Calls `HashTable::len`: the number of handles in the table.
#[verifier::external_body]
pub(crate) fn index_len(index: &HashIndex) -> (n: usize)
    ensures
        n == index_entries(*index).dom().len(),
{
    index.table.len()
}

/// Calls `HashTable::capacity`: how many handles the table has room for
/// before it allocates again. The table counts the handles it holds and the
/// room that is left, so the sum is no less than the number it holds; how
/// much more it is depends on the table's size and on what was removed.
#[verifier::external_body]
pub(crate) fn index_capacity(index: &HashIndex) -> (room: usize)
    ensures
        room >= index_entries(*index).dom().len(),
{
    index.table.capacity()
}

/// Calls `HashTable::clear`: the table holds nothing afterwards.
#[verifier::external_body]
pub(crate) fn index_clear(index: &mut HashIndex)
    ensures
        index_entries(*final(index)) == (Map::<usize, u64>::empty()),
{
    index.table.clear()
}

/// Calls `HashTable::find` with `hash` and a test for `key`. The table tries
/// every entry filed under `hash`, and may try others; it answers with one
/// for which the test holds. So an answer names a slot that holds `key`, and
/// no answer means that no entry filed under `hash` does.
#[verifier::external_body]
pub(crate) fn index_find<K: Hash + Eq, V>(
    index: &HashIndex,
    hash: u64,
    order: &LRUList<(K, V)>,
    key: &K,
) -> (found: Option<usize>)
    requires
        order.wf(),
        obeys_concrete_eq::<K>(),
        forall|h: usize| #[trigger] index_entries(*index).contains_key(h) ==> order.has(h),
    ensures
        match found {
            Some(h) => index_entries(*index).contains_key(h) && order.item(h).0 == *key,
            None => forall|h: usize| #[trigger]
                index_entries(*index).contains_key(h) && index_entries(*index)[h] == hash
                    ==> order.item(h).0 != *key,
        },
{
    index.table.find(hash, |&h| key_at_is(order, h, key)).copied()
}

/// Calls `HashTable::find_entry` as `index_find` calls `find`, and
/// `OccupiedEntry::remove` on the entry found: that handle leaves the table
/// and is returned. With no entry found the table stays as it is.
#[verifier::external_body]
pub(crate) fn index_remove<K: Hash + Eq, V>(
    index: &mut HashIndex,
    hash: u64,
    order: &LRUList<(K, V)>,
    key: &K,
) -> (removed: Option<usize>)
    requires
        order.wf(),
        obeys_concrete_eq::<K>(),
        forall|h: usize| #[trigger] index_entries(*old(index)).contains_key(h) ==> order.has(h),
    ensures
        match removed {
            Some(h) => index_entries(*old(index)).contains_key(h) && order.item(h).0 == *key
                && index_entries(*final(index)) == index_entries(*old(index)).remove(h),
            None => index_entries(*final(index)) == index_entries(*old(index)) && forall|h: usize|
             #[trigger]
                index_entries(*old(index)).contains_key(h) && index_entries(*old(index))[h] == hash
                    ==> order.item(h).0 != *key,
        },
{
    match index.table.find_entry(hash, |&h| key_at_is(order, h, key)) {
        Ok(entry) => Some(entry.remove().0),
        Err(_) => None,
    }
}

/// Calls `HashTable::insert_unique`: files `handle` under `hash` without
/// looking for an equal entry. When the table grows or tidies itself it asks
/// the closure for the hash of each entry it already holds, which must be the
/// hash that entry was filed under; the new handle is not asked about.
#[verifier::external_body]
pub(crate) fn index_insert<K: Hash, V>(
    index: &mut HashIndex,
    hash: u64,
    handle: usize,
    order: &LRUList<(K, V)>,
    state: &RandomState,
)
    requires
        order.wf(),
        obeys_key_model::<K>(),
        index_matches(*old(index), *state, *order),
        !index_entries(*old(index)).contains_key(handle),
    ensures
        index_entries(*final(index)) == index_entries(*old(index)).insert(handle, hash),
{
    index.table.insert_unique(hash, handle, |&h| hash_at(order, state, h));
}

/// The hash of `key` under `state`.
pub fn hash_of<K: Hash>(state: &RandomState, key: &K) -> (h: u64)
    requires
        obeys_key_model::<K>(),
    ensures
        h == key_hash(*state, *key),
{
    hash_key(state, key)
}

/// The hash, under `state`, of the key in the live slot `h`.
pub fn hash_at<K: Hash, V>(order: &LRUList<(K, V)>, state: &RandomState, h: usize) -> (hash: u64)
    requires
        order.wf(),
        order.has(h),
        obeys_key_model::<K>(),
    ensures
        hash == key_hash(*state, order.item(h).0),
{
    hash_of(state, &order.get(h).0)
}

/// Whether the live slot `h` holds `key`.
pub fn key_at_is<K: Eq, V>(order: &LRUList<(K, V)>, h: usize, key: &K) -> (same: bool)
    requires
        order.wf(),
        order.has(h),
        obeys_concrete_eq::<K>(),
    ensures
        same == (order.item(h).0 == *key),
{
    proof {
        reveal(obeys_concrete_eq);
    }
    *key == order.get(h).0
}

} // verus!
