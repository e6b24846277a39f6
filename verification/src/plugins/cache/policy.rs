//! How long cache entries live and how much space the cache may use.
use vstd::prelude::*;

verus! {

/// Limits of the cache. The time to live is in milliseconds.
#[derive(Debug, Clone, Copy)]
pub struct CachePolicy {
    pub ttl: u64,
    pub max_size: u64,
    pub min_free_space: u64,
}

impl Default for CachePolicy {
    /// 24 hours, 1 GiB, 100 MiB kept free.
    fn default() -> (r: Self)
        ensures
            r.ttl == 86_400_000,
            r.max_size == 1024 * 1024 * 1024,
            r.min_free_space == 1024 * 1024 * 100,
    {
        CachePolicy { ttl: 86_400_000, max_size: 1024 * 1024 * 1024, min_free_space: 1024 * 1024 * 100 }
    }
}

impl CachePolicy {
    /// The policy with time to live `ttl`.
    pub fn with_ttl(self, ttl: u64) -> (r: Self)
        ensures
            r == (CachePolicy { ttl, ..self }),
    {
        let mut s = self;
        s.ttl = ttl;
        s
    }

    /// The policy with space `max_size`.
    pub fn with_max_size(self, max_size: u64) -> (r: Self)
        ensures
            r == (CachePolicy { max_size, ..self }),
    {
        let mut s = self;
        s.max_size = max_size;
        s
    }

    /// The policy keeping `min_free_space` bytes free.
    pub fn with_min_free_space(self, min_free_space: u64) -> (r: Self)
        ensures
            r == (CachePolicy { min_free_space, ..self }),
    {
        let mut s = self;
        s.min_free_space = min_free_space;
        s
    }
}

} // verus!
