//! What is known of a cached response.
use vstd::prelude::*;

verus! {

/// Content type, validators and time to live (milliseconds) of a response.
#[derive(Debug, Clone)]
pub struct CacheMetadata {
    pub content_type: String,
    pub last_modified: Option<String>,
    pub etag: Option<String>,
    pub ttl: Option<u64>,
}

impl CacheMetadata {
    /// Metadata of the given content type, with nothing else known.
    pub fn new(content_type: String) -> (r: Self)
        ensures
            r == (CacheMetadata { content_type, last_modified: None, etag: None, ttl: None }),
    {
        CacheMetadata { content_type, last_modified: None, etag: None, ttl: None }
    }

    /// The metadata with time to live `ttl`.
    pub fn with_ttl(self, ttl: u64) -> (r: Self)
        ensures
            r == (CacheMetadata { ttl: Some(ttl), ..self }),
    {
        let mut s = self;
        s.ttl = Some(ttl);
        s
    }
}

} // verus!
