use http_cache_server::cache::Cache;
use http_cache_server::config::Config;
use http_cache_server::error::PluginError;
use http_cache_server::performance::{OptimizerConfig, PerformanceOptimizer};
use http_cache_server::plugins::cache::entry::CacheEntry;
use http_cache_server::plugins::cache::error::CacheError;
use http_cache_server::plugins::cache::metadata::CacheMetadata;
use http_cache_server::plugins::cache::policy::CachePolicy;
use http_cache_server::plugins::hls::adaptive::AdaptiveStream;
use http_cache_server::plugins::hls::playlist::{try_parse_playlist, PlaylistManager};
use http_cache_server::plugins::hls::types::{PathBuilder, PlaylistType, Variant};
use http_cache_server::plugins::security::SecurityPlugin;
use http_cache_server::plugins::storage::StoragePlugin;

#[test]
fn config_defaults_follow_the_readme() {
    let c = Config::default();
    assert_eq!(c.plugins.hls.cache_dir, "./cache/hls");
    assert_eq!(c.plugins.hls.segment_duration, 10);
    assert_eq!(c.plugins.hls.max_segments, 30);
    assert_eq!(c.plugins.storage.root_path, "./storage");
    assert_eq!(c.plugins.storage.max_size, 1073741824);
    assert_eq!(c.plugins.security.rate_limit, 100);
    assert!(c.plugins.security.allowed_origins.is_empty());
}

#[test]
fn error_messages() {
    assert_eq!(PluginError::Network("down".to_string()).message(), "Network error: down");
    assert_eq!(PluginError::Plugin("x".to_string()).message(), "Plugin error: x");
    let full = CacheError::Full { needed: 10, available: 3 };
    assert_eq!(full.message(), "Cache full: needed 10 bytes, but only 3 bytes available");
    assert_eq!(
        PluginError::from(CacheError::NotFound("k".to_string())).message(),
        "Cache error: Cache entry not found: k"
    );
}

#[test]
fn cache_policy_and_metadata_builders() {
    let p = CachePolicy::default().with_ttl(5).with_max_size(6).with_min_free_space(7);
    assert_eq!((p.ttl, p.max_size, p.min_free_space), (5, 6, 7));
    let m = CacheMetadata::new("video/mp4".to_string()).with_ttl(9);
    assert_eq!(m.content_type, "video/mp4");
    assert_eq!(m.ttl, Some(9));
}

#[test]
fn cache_entry_expiry() {
    let mut e = CacheEntry {
        path: "p".to_string(),
        size: 1,
        last_access: 100,
        metadata: CacheMetadata::new("t".to_string()),
    };
    assert!(!e.is_expired_at(150, 50));
    assert!(e.is_expired_at(151, 50));
    e.touch_at(200);
    assert_eq!(e.last_access, 200);
}

#[test]
fn cache_hits_misses_and_expiry() {
    let mut c = Cache::new("/c", 100);
    assert!(c.check_space(100).is_ok());
    assert!(c.check_space(101).is_err());
    c.record("a", 40, 0, 1000);
    assert_eq!(c.get("a", 500).unwrap(), "/c/a");
    match c.get("b", 500) {
        Err(PluginError::Storage(m)) => assert_eq!(m, "Cache miss"),
        _ => panic!("expected a miss"),
    }
    match c.get("a", 2000) {
        Err(PluginError::Storage(m)) => assert_eq!(m, "Cache entry expired"),
        _ => panic!("expected expiry"),
    }
    assert_eq!(c.get_stats().used_space, 0);
}

#[test]
fn storage_plugin_space() {
    let mut s = StoragePlugin::new("/s", 10);
    assert!(s.check_space(10).is_ok());
    s.record_file("f", 6, 0);
    assert!(s.check_space(5).is_err());
    assert_eq!(s.get_file("f", 1).unwrap(), "/s/f");
    assert_eq!(s.old_files(100, 50), vec!["f".to_string()]);
}

#[test]
fn origins_added_and_removed() {
    let mut s = SecurityPlugin::new(100);
    assert_eq!(s.check_origin("http://a").unwrap(), false);
    s.add_allowed_origin("http://a".to_string());
    s.add_allowed_origin("http://a".to_string());
    assert_eq!(s.get_allowed_origins().len(), 1);
    assert_eq!(s.check_origin("http://a").unwrap(), true);
    assert!(s.remove_allowed_origin("http://a"));
    assert!(!s.remove_allowed_origin("http://a"));
    assert_eq!(s.check_origin("http://a").unwrap(), false);
    assert_eq!(s.check_rate_limit("c").unwrap(), true);
    assert_eq!(s.rate_limit(), 100);
}

fn variant(bw: u64, url: &str) -> Variant {
    Variant { bandwidth: bw, resolution: None, url: url.to_string(), hash: String::new() }
}

#[test]
fn adaptive_stream_window_and_choice() {
    let mut a = AdaptiveStream::new(1000);
    a.update_bandwidth(1000, 1000);
    a.update_bandwidth(3000, 1000);
    let b = a.bandwidth();
    assert_eq!((b.current, b.min, b.max, b.average), (24000, 8000, 24000, 16000));
    let vs = vec![variant(10000, "lo"), variant(12000, "mid"), variant(20000, "hi")];
    assert_eq!(a.select_variant(&vs).unwrap().url, "mid");
    assert!(a.select_variant(&[]).is_none());
}

#[test]
fn optimizer_tunes_a_slow_resource() {
    let mut o = PerformanceOptimizer::new(OptimizerConfig::default());
    assert!(!o.record_request("r", 1_000_000_000, true, false, 0));
    assert!(o.record_request("r", 5_000_000_000, true, false, 10));
    let t = o.get_thresholds("r").unwrap();
    assert_eq!((t.max_concurrent, t.rate_limit, t.timeout), (20, 200, 10_000_000_000));
    let m = o.get_resource_metrics("r").unwrap();
    assert_eq!(m.avg_response_time, 3_000_000_000);
    assert_eq!(m.response_count, 2);
    assert_eq!(m.last_optimized, 10);
    assert!(o.get_resource_metrics("other").is_none());
}

#[test]
fn path_builder_layout() {
    let p = PathBuilder::new("cache/hls");
    assert_eq!(p.base_path(), "cache/hls");
    assert_eq!(p.master_playlist("h"), "cache/hls/h/playlists/master.m3u8");
    assert_eq!(p.variant_playlist("h", "v1"), "cache/hls/h/playlists/variants/v1.m3u8");
    assert_eq!(p.media_playlist("h"), "cache/hls/h/playlists/playlist.m3u8");
    assert_eq!(p.segment("h", None, 7), "cache/hls/h/segments/7.ts");
    assert_eq!(p.segment("h", Some("v1"), 7), "cache/hls/h/segments/v1/7.ts");
}

const MASTER_TEXT: &str = "#EXTM3U\n#EXT-X-STREAM-INF:BANDWIDTH=1280000,RESOLUTION=640x360\nlow.m3u8\n";
const MEDIA_TEXT: &str = "#EXTM3U\n#EXT-X-TARGETDURATION:10\n#EXT-X-MEDIA-SEQUENCE:3\n#EXTINF:9.5,\nseg0.ts\n#EXTINF:9.0,\nseg1.ts\n";

#[test]
fn playlists_are_parsed_and_kept() {
    let uri = "http://example.com/video/master.m3u8";
    let master = try_parse_playlist(MASTER_TEXT.as_bytes(), uri).unwrap().unwrap();
    assert_eq!(master.playlist_type, PlaylistType::Master);
    assert_eq!(master.variants.len(), 1);
    assert_eq!(master.variants[0].bandwidth, 1280000);
    assert_eq!(master.variants[0].resolution, Some("640x360".to_string()));
    assert_eq!(master.variants[0].url, "http://example.com/video/low.m3u8");

    let media_uri = "http://example.com/video/low.m3u8";
    let media = try_parse_playlist(MEDIA_TEXT.as_bytes(), media_uri).unwrap().unwrap();
    assert_eq!(media.playlist_type, PlaylistType::Media);
    assert_eq!(media.segments.len(), 2);
    assert_eq!(media.segments[1].url, "http://example.com/video/seg1.ts");
    assert_eq!(media.segments[0].duration, "9.5");
    assert_eq!(media.media_sequence, Some(3));

    let mut pm = PlaylistManager::new();
    pm.update_playlist_state(media);
    assert_eq!(pm.get_playlist_info(media_uri).unwrap().segments.len(), 2);
    assert_eq!(pm.get_playlist_url("http://example.com/video/seg0.ts").unwrap(), media_uri);
    assert!(pm.get_playlist_url("http://elsewhere/seg.ts").is_err());
    assert_eq!(pm.get_stats().total_segments, 2);
}

#[test]
fn a_playlist_without_header_is_refused() {
    match try_parse_playlist(b"seg0.ts\n", "http://example.com/a.m3u8").unwrap() {
        Err(PluginError::Hls(m)) => assert_eq!(m, "Invalid M3U8 format: missing #EXTM3U tag"),
        _ => panic!("expected an HLS error"),
    }
}

#[test]
fn touch_never_moves_the_last_access_back() {
    let mut e = CacheEntry {
        path: "p".to_string(),
        size: 1,
        last_access: 0,
        metadata: CacheMetadata::new("t".to_string()),
    };
    e.touch_at(u64::MAX);
    e.touch();
    assert_eq!(e.last_access, u64::MAX);
    assert_eq!(e.path, "p");
    assert_eq!(e.size, 1);
}

#[test]
fn cache_takes_out_only_expired_entries() {
    let mut c = Cache::new("/c", 100);
    c.record("a", 10, 0, 100);
    c.record("b", 20, 0, 5000);
    c.record("c", 30, 900, 50);
    let taken = c.take_expired(1000);
    let keys: Vec<&str> = taken.iter().map(|e| e.key.as_str()).collect();
    assert_eq!(keys, vec!["a", "c"]);
    assert_eq!(taken[0].path, "/c/a");
    assert_eq!(taken[1].size, 30);
    assert_eq!(c.get_stats().total_entries, 1);
    assert_eq!(c.get_stats().used_space, 60);
    c.release_removed(&taken, &vec![true, true]);
    assert_eq!(c.get_stats().used_space, 20);
    assert_eq!(c.get("b", 1000).unwrap(), "/c/b");
}

#[test]
fn cache_keeps_charging_files_that_could_not_be_removed() {
    let mut c = Cache::new("/c", 100);
    c.record("a", 10, 0, 100);
    c.record("b", 20, 0, 100);
    c.record("c", 30, 0, 5000);
    let taken = c.take_expired(1000);
    assert_eq!(taken.len(), 2);
    c.release_removed(&taken, &vec![false, true]);
    assert_eq!(c.get_stats().used_space, 40);
    assert_eq!(c.get_stats().total_entries, 1);
}
