//! Errors of the plugins.
use crate::plugins::cache::error::CacheError;
use crate::text::{append_str, string_from_chars};
use vstd::prelude::*;
use vstd::std_specs::convert::FromSpecImpl;

verus! {

/// What can go wrong while loading and handling HLS content: input that
/// cannot be read (bad bytes, a bad playlist, a bad URL, gaps in a run of
/// segments), a cache that refuses, or a network that fails.
#[derive(Debug, Clone)]
pub enum LoadError {
    InvalidInput(String),
    Cache(String),
    Network(String),
}

/// What can go wrong in a plugin.
#[derive(Debug, Clone)]
pub enum PluginError {
    Network(String),
    Storage(String),
    Hls(String),
    Mp4(String),
    Cache(CacheError),
    Plugin(String),
    Other(String),
}

impl PluginError {
    /// The text that describes the error.
    pub open spec fn message_spec(&self) -> Seq<char> {
        match self {
            PluginError::Network(s) => "Network error: "@ + s@,
            PluginError::Storage(s) => "Storage error: "@ + s@,
            PluginError::Hls(s) => "HLS error: "@ + s@,
            PluginError::Mp4(s) => "MP4 error: "@ + s@,
            PluginError::Cache(e) => "Cache error: "@ + e.message_spec(),
            PluginError::Plugin(s) => "Plugin error: "@ + s@,
            PluginError::Other(s) => "Other error: "@ + s@,
        }
    }

    /// The text that describes the error (what its `Display` would print).
    pub fn message(&self) -> (r: String)
        ensures
            r@ == self.message_spec(),
    {
        let mut out: Vec<char> = Vec::new();
        match self {
            PluginError::Network(s) => {
                append_str(&mut out, "Network error: ");
                append_str(&mut out, s.as_str());
            },
            PluginError::Storage(s) => {
                append_str(&mut out, "Storage error: ");
                append_str(&mut out, s.as_str());
            },
            PluginError::Hls(s) => {
                append_str(&mut out, "HLS error: ");
                append_str(&mut out, s.as_str());
            },
            PluginError::Mp4(s) => {
                append_str(&mut out, "MP4 error: ");
                append_str(&mut out, s.as_str());
            },
            PluginError::Cache(e) => {
                append_str(&mut out, "Cache error: ");
                let m = e.message();
                append_str(&mut out, m.as_str());
            },
            PluginError::Plugin(s) => {
                append_str(&mut out, "Plugin error: ");
                append_str(&mut out, s.as_str());
            },
            PluginError::Other(s) => {
                append_str(&mut out, "Other error: ");
                append_str(&mut out, s.as_str());
            },
        }
        let r = string_from_chars(&out);
        assert(r@ =~= self.message_spec());
        r
    }
}

impl From<CacheError> for PluginError {
    /// A cache error becomes `PluginError::Cache`.
    fn from(err: CacheError) -> (r: PluginError) {
        PluginError::Cache(err)
    }
}

impl FromSpecImpl<CacheError> for PluginError {
    open spec fn obeys_from_spec() -> bool {
        true
    }

    open spec fn from_spec(v: CacheError) -> PluginError {
        PluginError::Cache(v)
    }
}

} // verus!
