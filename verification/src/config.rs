//! The server's configuration and its defaults.
use crate::text::{chars_of, string_from_chars};
use vstd::prelude::*;

verus! {

/// The whole configuration.
#[derive(Debug)]
pub struct Config {
    pub server: ServerConfig,
    pub plugins: PluginsConfig,
}

/// Where the server listens.
#[derive(Debug)]
pub struct ServerConfig {
    pub host: String,
    pub port: u16,
}

/// The plugins' settings.
#[derive(Debug)]
pub struct PluginsConfig {
    pub hls: HLSConfig,
    pub storage: StorageConfig,
    pub security: SecurityConfig,
}

/// HLS cache settings.
#[derive(Debug)]
pub struct HLSConfig {
    /// Directory of the HLS cache.
    pub cache_dir: String,
    /// Segment duration in seconds.
    pub segment_duration: u32,
    pub max_segments: usize,
}

/// Storage settings.
#[derive(Debug)]
pub struct StorageConfig {
    /// Root directory of the store.
    pub root_path: String,
    /// Space allowed, in bytes.
    pub max_size: u64,
}

/// Security settings.
#[derive(Debug)]
pub struct SecurityConfig {
    pub rate_limit: u32,
    pub allowed_origins: Vec<String>,
}

impl Default for Config {
    /// Listen on 127.0.0.1:8080; HLS cache in `./cache/hls` with 10-second
    /// segments and at most 30 of them; storage in `./storage` with 1 GiB;
    /// 100 requests allowed and no origin.
    fn default() -> (r: Self)
        ensures
            r.server.host@ == "127.0.0.1"@,
            r.server.port == 8080,
            r.plugins.hls.cache_dir@ == "./cache/hls"@,
            r.plugins.hls.segment_duration == 10,
            r.plugins.hls.max_segments == 30,
            r.plugins.storage.root_path@ == "./storage"@,
            r.plugins.storage.max_size == 1024 * 1024 * 1024,
            r.plugins.security.rate_limit == 100,
            r.plugins.security.allowed_origins@.len() == 0,
    {
        Config {
            server: ServerConfig { host: string_from_chars(&chars_of("127.0.0.1")), port: 8080 },
            plugins: PluginsConfig {
                hls: HLSConfig {
                    cache_dir: string_from_chars(&chars_of("./cache/hls")),
                    segment_duration: 10,
                    max_segments: 30,
                },
                storage: StorageConfig {
                    root_path: string_from_chars(&chars_of("./storage")),
                    max_size: 1024 * 1024 * 1024,
                },
                security: SecurityConfig { rate_limit: 100, allowed_origins: Vec::new() },
            },
        }
    }
}

} // verus!
