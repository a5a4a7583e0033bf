//! Open-time options.

use vstd::prelude::*;

use crate::crypto::{Argon2Params, Key};
use crate::superblock::DEFAULT_SUPERBLOCK_COUNT;

verus! {

/// Where pages that a commit drains from the spillway enter the LRU order.
#[non_exhaustive]
#[derive(Debug, Clone, Copy, PartialEq, Eq, Structural)]
pub enum DrainInsertion {
    /// As first eviction candidates; keeps the warm working set.
    LruTail,
    /// As if just touched.
    Mru,
}

/// Options of a database. They are consumed when it is opened.
#[non_exhaustive]
#[derive(Clone)]
pub struct Options {
    /// Limit on the page cache, in bytes; at least one page is always held.
    pub cache_max_bytes: u64,
    /// Limit on the live pages of the spillway, in bytes; 0 disables it.
    pub spillway_max_bytes: u64,
    /// Where drained pages enter the LRU order.
    pub drain_insertion: DrainInsertion,
    /// Create the database if there is none.
    pub create_if_missing: bool,
    /// Refuse writes.
    pub read_only: bool,
    /// Number of superblock slots of a new database, 2 to 16.
    pub superblock_count: u32,
    /// Key of an encrypted database.
    pub encryption_key: Option<Key>,
    /// Costs of deriving a key from a passphrase when creating a database.
    pub argon2_params: Option<Argon2Params>,
}

impl Default for Options {
    /// An 8 MiB cache, a spillway of 1024 times that size, two superblock
    /// slots, no encryption.
    fn default() -> (options: Options)
        ensures
            options == (Options {
                cache_max_bytes: 0x80_0000,
                spillway_max_bytes: 0x2_0000_0000,
                drain_insertion: DrainInsertion::LruTail,
                create_if_missing: true,
                read_only: false,
                superblock_count: DEFAULT_SUPERBLOCK_COUNT,
                encryption_key: None,
                argon2_params: None,
            }),
    {
        let cache_max_bytes: u64 = 8 * 1024 * 1024;
        Options {
            cache_max_bytes,
            spillway_max_bytes: cache_max_bytes * 1024,
            drain_insertion: DrainInsertion::LruTail,
            create_if_missing: true,
            read_only: false,
            superblock_count: DEFAULT_SUPERBLOCK_COUNT,
            encryption_key: None,
            argon2_params: None,
        }
    }
}

impl Options {
    /// Set the cache limit.
    pub fn cache_max_bytes(self, bytes: u64) -> (options: Self)
        ensures
            options == (Options { cache_max_bytes: bytes, ..self }),
    {
        Options { cache_max_bytes: bytes, ..self }
    }

    /// Set the spillway limit.
    pub fn spillway_max_bytes(self, bytes: u64) -> (options: Self)
        ensures
            options == (Options { spillway_max_bytes: bytes, ..self }),
    {
        Options { spillway_max_bytes: bytes, ..self }
    }

    /// Set the drain insertion policy.
    pub fn drain_insertion(self, policy: DrainInsertion) -> (options: Self)
        ensures
            options == (Options { drain_insertion: policy, ..self }),
    {
        Options { drain_insertion: policy, ..self }
    }

    /// Set whether a missing database is created.
    pub fn create_if_missing(self, create: bool) -> (options: Self)
        ensures
            options == (Options { create_if_missing: create, ..self }),
    {
        Options { create_if_missing: create, ..self }
    }

    /// Set whether writes are refused.
    pub fn read_only(self, read_only: bool) -> (options: Self)
        ensures
            options == (Options { read_only, ..self }),
    {
        Options { read_only, ..self }
    }

    /// Set the number of superblock slots. A value out of range is rejected
    /// when the database is opened.
    pub fn superblock_count(self, count: u32) -> (options: Self)
        ensures
            options == (Options { superblock_count: count, ..self }),
    {
        Options { superblock_count: count, ..self }
    }

    /// Set the encryption key.
    pub fn encryption_key(self, key: Key) -> (options: Self)
        ensures
            options == (Options { encryption_key: Some(key), ..self }),
    {
        Options { encryption_key: Some(key), ..self }
    }

    /// Set the key derivation costs.
    pub fn argon2_params(self, params: Argon2Params) -> (options: Self)
        ensures
            options == (Options { argon2_params: Some(params), ..self }),
    {
        Options { argon2_params: Some(params), ..self }
    }
}

} // verus!
