//! Reusable buffer pool: pre-allocated byte buffers for tensor
//! construction, keyed by required size, with a fixed small capacity and
//! least-recently-used eviction.
//!
//! The pool is backed by `lru::LruCache`. Its contract tracks the stored
//! contents as a map from size key to bytes; recency order is not
//! modeled, so eviction names no particular victim — any one stored
//! entry may leave when a new size arrives at capacity.

use vstd::prelude::*;

verus! {

/// How many distinct buffer sizes the pool retains.
pub const BUFFER_POOL_CAPACITY: usize = 5;

#[verifier::external_type_specification]
#[verifier::external_body]
#[verifier::reject_recursive_types(K)]
#[verifier::reject_recursive_types(V)]
#[verifier::reject_recursive_types(S)]
pub struct ExLruCache<K, V, S>(lru::LruCache<K, V, S>);

/// The buffers a cache holds, keyed by their size key.
pub uninterp spec fn buffer_map_entries(c: lru::LruCache<usize, Vec<u8>, std::collections::hash_map::RandomState>) -> Map<int, Seq<u8>>;

/// The capacity the cache was built with.
pub uninterp spec fn buffer_map_cap(c: lru::LruCache<usize, Vec<u8>, std::collections::hash_map::RandomState>) -> int;

/// The empty buffer map.
pub open spec fn empty_buffers() -> Map<int, Seq<u8>> {
    Map::empty()
}

/// Relies on `lru::LruCache::with_hasher`: a fresh cache of the given
/// capacity holds nothing.
#[verifier::external_body]
fn lru_new(cap: usize) -> (c: lru::LruCache<usize, Vec<u8>, std::collections::hash_map::RandomState>)
    requires
        cap >= 1,
    ensures
        buffer_map_entries(c) == empty_buffers(),
        buffer_map_cap(c) == cap,
{
    lru::LruCache::with_hasher(
        std::num::NonZeroUsize::new(cap).unwrap(),
        std::collections::hash_map::RandomState::new(),
    )
}

/// Relies on `lru::LruCache::get`: returns the buffer stored under the
/// key, if any, copied out; only the recency order (not modeled) changes.
#[verifier::external_body]
fn lru_get(c: &mut lru::LruCache<usize, Vec<u8>, std::collections::hash_map::RandomState>, key: usize) -> (r: Option<Vec<u8>>)
    ensures
        buffer_map_entries(*final(c)) == buffer_map_entries(*old(c)),
        buffer_map_cap(*final(c)) == buffer_map_cap(*old(c)),
        r is Some <==> buffer_map_entries(*old(c)).dom().contains(key as int),
        r is Some ==> r->0@ == buffer_map_entries(*old(c))[key as int],
{
    c.get(&key).cloned()
}

/// Relies on `lru::LruCache::put`: stores the buffer under the key. An
/// existing key is overwritten in place; a new key at capacity first
/// evicts the least recently used entry (some other stored key).
#[verifier::external_body]
fn lru_put(c: &mut lru::LruCache<usize, Vec<u8>, std::collections::hash_map::RandomState>, key: usize, value: Vec<u8>)
    ensures
        buffer_map_cap(*final(c)) == buffer_map_cap(*old(c)),
        buffer_map_entries(*final(c)).dom().finite() == buffer_map_entries(
            *old(c),
        ).dom().finite(),
        buffer_map_entries(*final(c)).dom().contains(key as int),
        buffer_map_entries(*final(c))[key as int] == value@,
        forall|k: int|
            #![trigger buffer_map_entries(*final(c)).dom().contains(k)]
            buffer_map_entries(*final(c)).dom().contains(k) && k != key as int
                ==> buffer_map_entries(*old(c)).dom().contains(k) && buffer_map_entries(
                *final(c),
            )[k] == buffer_map_entries(*old(c))[k],
        (buffer_map_entries(*old(c)).dom().contains(key as int) || (buffer_map_entries(
            *old(c),
        ).dom().finite() && buffer_map_entries(*old(c)).dom().len() < buffer_map_cap(*old(c))))
            ==> buffer_map_entries(*final(c)) == buffer_map_entries(*old(c)).insert(
            key as int,
            value@,
        ),
{
    c.put(key, value);
}

/// Relies on `lru::LruCache::clear`: deletes every stored buffer.
#[verifier::external_body]
fn lru_clear(c: &mut lru::LruCache<usize, Vec<u8>, std::collections::hash_map::RandomState>)
    ensures
        buffer_map_entries(*final(c)) == empty_buffers(),
        buffer_map_cap(*final(c)) == buffer_map_cap(*old(c)),
{
    c.clear();
}

/// The dependency-injected buffer pool.
pub struct BufferPool {
    cache: lru::LruCache<usize, Vec<u8>, std::collections::hash_map::RandomState>,
}

impl BufferPool {
    /// The stored buffers, keyed by size.
    pub closed spec fn buffers(&self) -> Map<int, Seq<u8>> {
        buffer_map_entries(self.cache)
    }

    /// The pool keeps its fixed capacity and a finite content map.
    pub closed spec fn wf(&self) -> bool {
        buffer_map_cap(self.cache) == BUFFER_POOL_CAPACITY && buffer_map_entries(
            self.cache,
        ).dom().finite()
    }

    /// Builds an empty pool of the fixed capacity.
    pub fn new() -> (p: BufferPool)
        ensures
            p.wf(),
            p.buffers() == empty_buffers(),
    {
        BufferPool { cache: lru_new(BUFFER_POOL_CAPACITY) }
    }

    /// Hands out an empty buffer for the given size, reusing a pooled
    /// buffer's allocation when one is stored under that size. The pool's
    /// contents are unchanged: ownership of capacity moves to the caller,
    /// the stored copy stays.
    pub fn acquire(&mut self, size: usize) -> (buf: Vec<u8>)
        requires
            old(self).wf(),
        ensures
            final(self).wf(),
            final(self).buffers() == old(self).buffers(),
            buf@.len() == 0,
    {
        let cached = lru_get(&mut self.cache, size);
        match cached {
            Some(mut buffer) => {
                buffer.clear();
                buffer
            },
            None => Vec::with_capacity(size),
        }
    }

    /// Returns a buffer to the pool under its size key, overwriting any
    /// buffer stored there; at capacity, some least recently used entry
    /// makes room first.
    pub fn release(&mut self, size: usize, buffer: Vec<u8>)
        requires
            old(self).wf(),
        ensures
            final(self).wf(),
            final(self).buffers().dom().contains(size as int),
            final(self).buffers()[size as int] == buffer@,
            forall|k: int|
                #![trigger final(self).buffers().dom().contains(k)]
                final(self).buffers().dom().contains(k) && k != size as int ==> old(
                    self,
                ).buffers().dom().contains(k) && final(self).buffers()[k] == old(self).buffers()[k],
            (old(self).buffers().dom().contains(size as int) || old(self).buffers().dom().len()
                < BUFFER_POOL_CAPACITY) ==> final(self).buffers() == old(self).buffers().insert(
                size as int,
                buffer@,
            ),
    {
        lru_put(&mut self.cache, size, buffer);
    }

    /// Empties the pool entirely.
    pub fn cleanup_input_buffer_cache(&mut self)
        requires
            old(self).wf(),
        ensures
            final(self).wf(),
            final(self).buffers() == empty_buffers(),
    {
        lru_clear(&mut self.cache);
    }

    /// The periodic sweep simply discards all pooled buffers.
    pub fn cleanup_old_buffers(&mut self)
        requires
            old(self).wf(),
        ensures
            final(self).wf(),
            final(self).buffers() == empty_buffers(),
    {
        lru_clear(&mut self.cache);
    }
}

} // verus!
