//! A cache of bounded size that, when it is full and a new key arrives, drops
//! the entry that has gone longest without being touched.
//!
//! Three parts make it up. The order arena ([`lru_list`]) keeps the entries in
//! slots with stable integer handles and threads a recency list through them.
//! The hash index ([`hash_index`]) is a hash table of those handles, so that
//! no key is stored twice. The cache store ([`sized`]) owns both, keeps them
//! in agreement, enforces the capacity and counts hits and misses.
//!
//! Every function states what it needs and what it gives as a contract over
//! the entries of the cache, a sequence of pairs from the most to the least
//! recently used, and the contracts are proved. What is taken on trust are the
//! contracts of the calls into `hashbrown` and `ahash`, which stand together
//! in [`hash_index`].

pub mod error;
pub mod filtering;
pub mod hash_index;
pub mod lru_list;
pub mod sized;

pub use crate::error::SizeError;
pub use crate::hash_index::key_model;
pub use crate::lru_list::LRUList;
pub use crate::sized::Presence;
pub use crate::sized::SizedCache;
pub use crate::sized::MAX_CAPACITY;
