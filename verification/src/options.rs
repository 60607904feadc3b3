//! How a database is opened.
use crate::error::{Error, Result};
use crate::format::PAGE_SIZE;
use vstd::prelude::*;

verus! {

/// Bytes that the page cache retains unless told otherwise.
pub const DEFAULT_CACHE_CAPACITY: usize = 16_777_216;

/// Smallest page cache that is accepted, in bytes.
pub const SMALLEST_CACHE_CAPACITY: usize = 8192;

/// Controls when a successful commit is forced to durable storage.
#[derive(Clone, Copy, Debug, PartialEq, Eq, Structural)]
pub enum Durability {
    /// Sync tree pages before publication and the new metadata before success.
    Strict,
    /// Sync tree pages before publication but allow the new metadata to remain
    /// buffered. A power loss may discard the latest acknowledged commit but
    /// cannot expose metadata that references data actdb left unsynchronized.
    Relaxed,
}

impl Default for Durability {
    fn default() -> (durability: Self)
        ensures
            durability == Durability::Strict,
    {
        Durability::Strict
    }
}

/// Options used when opening a database.
#[derive(Clone, Debug)]
pub struct Options {
    cache_capacity: usize,
    durability: Durability,
    create_if_missing: bool,
}

impl Default for Options {
    fn default() -> (options: Self)
        ensures
            options.capacity() == DEFAULT_CACHE_CAPACITY,
            options.policy() == Durability::Strict,
            options.creates(),
    {
        Options {
            cache_capacity: DEFAULT_CACHE_CAPACITY,
            durability: Durability::Strict,
            create_if_missing: true,
        }
    }
}

impl Options {
    /// Bytes that the page cache retains.
    pub closed spec fn capacity(&self) -> usize {
        self.cache_capacity
    }

    /// When commits are forced to durable storage.
    pub closed spec fn policy(&self) -> Durability {
        self.durability
    }

    /// Whether a missing database file is created.
    pub closed spec fn creates(&self) -> bool {
        self.create_if_missing
    }

    /// Creates options with zero-configuration defaults.
    #[must_use]
    pub fn new() -> (options: Self)
        ensures
            options.capacity() == DEFAULT_CACHE_CAPACITY,
            options.policy() == Durability::Strict,
            options.creates(),
    {
        Options::default()
    }

    /// Sets the approximate maximum number of bytes retained by the page cache.
    #[must_use]
    pub fn cache_capacity(self, bytes: usize) -> (options: Self)
        ensures
            options.capacity() == bytes,
            options.policy() == self.policy(),
            options.creates() == self.creates(),
    {
        Options {
            cache_capacity: bytes,
            durability: self.durability,
            create_if_missing: self.create_if_missing,
        }
    }

    /// Sets the commit durability policy.
    #[must_use]
    pub fn durability(self, durability: Durability) -> (options: Self)
        ensures
            options.capacity() == self.capacity(),
            options.policy() == durability,
            options.creates() == self.creates(),
    {
        Options {
            cache_capacity: self.cache_capacity,
            durability,
            create_if_missing: self.create_if_missing,
        }
    }

    /// Controls whether a missing database file is created.
    #[must_use]
    pub fn create_if_missing(self, create: bool) -> (options: Self)
        ensures
            options.capacity() == self.capacity(),
            options.policy() == self.policy(),
            options.creates() == create,
    {
        Options {
            cache_capacity: self.cache_capacity,
            durability: self.durability,
            create_if_missing: create,
        }
    }

    /// Whether a missing database file is to be created.
    pub fn may_create(&self) -> (create: bool)
        ensures
            create == self.creates(),
    {
        self.create_if_missing
    }

    /// Bytes that the page cache is to retain.
    pub fn cache_bytes(&self) -> (bytes: usize)
        ensures
            bytes == self.capacity(),
    {
        self.cache_capacity
    }

    /// When commits are to be forced to durable storage.
    pub fn commit_policy(&self) -> (durability: Durability)
        ensures
            durability == self.policy(),
    {
        self.durability
    }

    /// Checks that the options are in range: the cache must hold at least two pages.
    pub fn validate(&self) -> (result: Result<()>)
        ensures
            result is Ok <==> self.capacity() >= 2 * PAGE_SIZE,
            result matches Err(error) ==> error is InvalidOption,
    {
        if self.cache_capacity < SMALLEST_CACHE_CAPACITY {
            return Err(Error::InvalidOption("cache capacity must hold at least two pages"));
        }
        Ok(())
    }
}

} // verus!
