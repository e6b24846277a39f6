//! Errors of the cache plugin.
use crate::text::{append_str, decimal, push_decimal, string_from_chars};
use vstd::prelude::*;

verus! {

/// What can go wrong in the cache.
#[derive(Debug, Clone)]
pub enum CacheError {
    NotFound(String),
    IO(String),
    Storage(String),
    InvalidPath(String),
    Full { needed: u64, available: u64 },
    Other(String),
}

impl CacheError {
    /// The text that describes the error.
    pub open spec fn message_spec(&self) -> Seq<char> {
        match self {
            CacheError::NotFound(s) => "Cache entry not found: "@ + s@,
            CacheError::IO(s) => "IO error: "@ + s@,
            CacheError::Storage(s) => "Storage error: "@ + s@,
            CacheError::InvalidPath(s) => "Invalid path: "@ + s@,
            CacheError::Full { needed, available } => "Cache full: needed "@ + decimal(
                *needed as nat,
            ) + " bytes, but only "@ + decimal(*available as nat) + " bytes available"@,
            CacheError::Other(s) => "Cache error: "@ + s@,
        }
    }

    /// The text that describes the error (what its `Display` would print).
    pub fn message(&self) -> (r: String)
        ensures
            r@ == self.message_spec(),
    {
        let mut out: Vec<char> = Vec::new();
        match self {
            CacheError::NotFound(s) => {
                append_str(&mut out, "Cache entry not found: ");
                append_str(&mut out, s.as_str());
            },
            CacheError::IO(s) => {
                append_str(&mut out, "IO error: ");
                append_str(&mut out, s.as_str());
            },
            CacheError::Storage(s) => {
                append_str(&mut out, "Storage error: ");
                append_str(&mut out, s.as_str());
            },
            CacheError::InvalidPath(s) => {
                append_str(&mut out, "Invalid path: ");
                append_str(&mut out, s.as_str());
            },
            CacheError::Full { needed, available } => {
                append_str(&mut out, "Cache full: needed ");
                push_decimal(&mut out, *needed);
                append_str(&mut out, " bytes, but only ");
                push_decimal(&mut out, *available);
                append_str(&mut out, " bytes available");
            },
            CacheError::Other(s) => {
                append_str(&mut out, "Cache error: ");
                append_str(&mut out, s.as_str());
            },
        }
        let r = string_from_chars(&out);
        assert(r@ =~= self.message_spec());
        r
    }
}

} // verus!
