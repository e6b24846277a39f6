//! A cached response on disk.
use crate::external::now_millis;
use crate::file_table::elapsed;
use crate::plugins::cache::metadata::CacheMetadata;
use vstd::prelude::*;

verus! {

/// Where a response is kept, its size, when it was last read (milliseconds
/// on the wall clock) and its metadata.
#[derive(Debug, Clone)]
pub struct CacheEntry {
    pub path: String,
    pub size: u64,
    pub last_access: u64,
    pub metadata: CacheMetadata,
}

impl CacheEntry {
    /// Whether, at `now`, the entry was last read more than `ttl`
    /// milliseconds ago.
    pub fn is_expired_at(&self, now: u64, ttl: u64) -> (r: bool)
        ensures
            r == (elapsed(now, self.last_access) > ttl),
    {
        let age: u64 = if now >= self.last_access {
            now - self.last_access
        } else {
            0
        };
        age > ttl
    }

    /// Whether the entry was last read more than `ttl` milliseconds ago, by
    /// the clock.
    pub fn is_expired(&self, ttl: u64) -> (r: bool)
        ensures
            exists|now: u64| r == (elapsed(now, self.last_access) > ttl),
    {
        let now = now_millis();
        self.is_expired_at(now, ttl)
    }

    /// Marks the entry read at `now`.
    pub fn touch_at(&mut self, now: u64)
        ensures
            *final(self) == (CacheEntry { last_access: now, ..*old(self) }),
    {
        self.last_access = now;
    }

    /// Marks the entry read now, by the clock; nothing else changes. The
    /// last access never moves earlier, even where the wall clock steps back.
    pub fn touch(&mut self)
        ensures
            final(self).path == old(self).path,
            final(self).size == old(self).size,
            final(self).metadata == old(self).metadata,
            final(self).last_access >= old(self).last_access,
    {
        let now = now_millis();
        let t: u64 = if now > self.last_access {
            now
        } else {
            self.last_access
        };
        self.touch_at(t);
    }
}

} // verus!
