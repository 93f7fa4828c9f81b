//! The chain adapter's checksum/type cache: shared, keyed by a fixed-width
//! content hash, written at most once per key and read many times, to avoid
//! redundant lookups of light-client code metadata. The storage is dashmap's
//! concurrent map, taken on trust behind a named contents model.

use dashmap::DashMap;
use vstd::prelude::*;

verus! {

/// The contents of a [`ChecksumCache`]: which client-type code is recorded
/// under which hash.
pub uninterp spec fn cache_contents(c: ChecksumCache) -> Map<Seq<u8>, u64>;

/// A write-once-per-key cache from a content hash to a client-type code.
/// Verus does not read the concurrent map inside; every method states over
/// [`cache_contents`] what dashmap's source shows.
#[verifier::external_body]
pub struct ChecksumCache {
    inner: DashMap<Vec<u8>, u64>,
}

impl ChecksumCache {
    /// Relies on dashmap's `DashMap::new`; nothing is assumed of the fresh
    /// map's contents — every later fact goes through the write-once
    /// discipline of `insert_if_vacant`.
    #[verifier::external_body]
    pub fn new() -> ChecksumCache {
        ChecksumCache { inner: DashMap::new() }
    }

    /// Relies on dashmap's `DashMap::get`: returns what is stored under the
    /// key, if anything.
    #[verifier::external_body]
    pub fn get(&self, key: &Vec<u8>) -> (r: Option<u64>)
        ensures
            r == if cache_contents(*self).contains_key(key@) {
                Some(cache_contents(*self)[key@])
            } else {
                None::<u64>
            },
    {
        match self.inner.get(key) {
            Some(v) => Some(*v),
            None => None,
        }
    }

    /// Relies on dashmap's `DashMap::entry` and `Entry::or_insert`: stores
    /// `value` only when the key is vacant, and returns the value now
    /// present — the first recording under a key wins.
    #[verifier::external_body]
    pub fn insert_if_vacant(&mut self, key: &Vec<u8>, value: u64) -> (r: u64)
        ensures
            r == (if cache_contents(*old(self)).contains_key(key@) {
                cache_contents(*old(self))[key@]
            } else {
                value
            }),
            cache_contents(*final(self)) == (if cache_contents(*old(self)).contains_key(key@) {
                cache_contents(*old(self))
            } else {
                cache_contents(*old(self)).insert(key@, value)
            }),
    {
        *self.inner.entry(key.clone()).or_insert(value)
    }
}

} // verus!
