use http_cache_server::bandwidth_control::{chunk_sizes, BandwidthWindow, RefillClock};
use http_cache_server::error::{LoadError, PluginError};
use http_cache_server::loader::ActiveDownloads;
use http_cache_server::plugin_manager::PluginRegistry;
use http_cache_server::plugins::hls::routing::{can_handle, is_playlist_request, prefetch_candidates};
use http_cache_server::plugins::hls::segment::{
    is_success_status, segment_dir, segment_path, status_error, stream_path, SegmentManager,
};
use http_cache_server::plugins::hls::types::Segment;
use http_cache_server::plugins::hls::utils::hash_url;
use http_cache_server::plugins::mp4;
use http_cache_server::proxy::{next_handler, not_found_body, ProxyServer};
use http_cache_server::utils::{get_full_url, UriParts};

#[test]
fn test_get_full_url() {
    let uri = UriParts::parse("http://example.com/path?query=1").unwrap();
    assert_eq!(get_full_url(&uri), "http://example.com/path?query=1");
    let uri = UriParts::parse("/path?query=1").unwrap();
    assert_eq!(get_full_url(&uri), "http:///path?query=1");
}

#[test]
fn full_url_of_an_authority_without_scheme() {
    let uri = UriParts::parse("example.com:8080").unwrap();
    assert_eq!(get_full_url(&uri), "http://example.com:8080");
    assert!(UriParts::parse("http://exa mple.com").is_none());
}

#[test]
fn proxy_url_trims_schemes_and_slashes() {
    let p = ProxyServer::new("127.0.0.1:8080");
    assert_eq!(p.get_proxy_url("http://example.com/a.ts").unwrap(), "http://127.0.0.1:8080/example.com/a.ts");
    assert_eq!(p.get_proxy_url("https://example.com/a.ts").unwrap(), "http://127.0.0.1:8080/example.com/a.ts");
    assert_eq!(p.get_proxy_url("//cdn.example.com/x").unwrap(), "http://127.0.0.1:8080/cdn.example.com/x");
    assert_eq!(p.get_proxy_url("http://http://x").unwrap(), "http://127.0.0.1:8080/x");
    assert_eq!(p.addr(), "127.0.0.1:8080");
}

#[test]
fn the_first_willing_handler_answers() {
    let takes = vec![false, true, true];
    assert_eq!(next_handler(&takes, 0), Some(1));
    assert_eq!(next_handler(&takes, 2), Some(2));
    assert_eq!(next_handler(&takes, 3), None);
    assert_eq!(next_handler(&vec![false, false], 0), None);
    assert_eq!(not_found_body(), "No handler found for this request");
}

#[test]
fn a_download_under_way_is_not_started_again() {
    let mut a = ActiveDownloads::new();
    assert!(a.begin("http://x/1").is_ok());
    match a.begin("http://x/1") {
        Err(LoadError::Cache(m)) => assert_eq!(m, "Resource is being downloaded"),
        _ => panic!("expected a refusal"),
    }
    assert!(a.contains("http://x/1"));
    a.finish("http://x/1");
    assert!(!a.contains("http://x/1"));
    assert!(a.begin("http://x/1").is_ok());
}

#[test]
fn a_plugin_name_is_registered_once() {
    let mut r = PluginRegistry::new();
    assert!(r.insert("hls").is_ok());
    assert!(r.insert("storage").is_ok());
    match r.insert("hls") {
        Err(PluginError::Plugin(m)) => assert_eq!(m, "Plugin hls already registered"),
        _ => panic!("expected a refusal"),
    }
    assert_eq!(r.names(), vec!["hls".to_string(), "storage".to_string()]);
    assert!(r.check_new("security").is_ok());
}

#[test]
fn bandwidth_window_resets_each_second() {
    let mut w = BandwidthWindow::new(0);
    assert!(!w.record(100, 600, 1000));
    assert!(w.record(200, 600, 1000));
    assert!(!w.record(1300, 600, 1000));
    let mut c = RefillClock::new(0);
    assert!(!c.refill_due(999));
    assert!(c.refill_due(1000));
    assert!(!c.refill_due(1500));
}

#[test]
fn tokens_are_taken_a_second_at_a_time() {
    assert_eq!(chunk_sizes(2500, 1000), vec![1000, 1000, 500]);
    assert_eq!(chunk_sizes(0, 0), Vec::<usize>::new());
    assert_eq!(chunk_sizes(1000, 1000), vec![1000]);
}

#[test]
fn hls_routing() {
    assert!(can_handle("http://x/a.m3u8"));
    assert!(can_handle("http://x/a.ts"));
    assert!(!can_handle("http://x/a.mp4"));
    assert!(is_playlist_request("http://x/a.m3u8"));
    assert!(!is_playlist_request("http://x/a.ts"));
}

fn segment(url: &str, cached: bool, downloading: bool) -> Segment {
    Segment {
        sequence: 0,
        duration: "10.0".to_string(),
        url: url.to_string(),
        size: None,
        cached,
        downloading,
        bytes_downloaded: 0,
    }
}

#[test]
fn prefetch_skips_cached_and_busy_segments() {
    let segs = vec![segment("a", true, false), segment("b", false, false), segment("c", false, true), segment("d", false, false)];
    assert_eq!(prefetch_candidates(&segs, 3), vec!["b".to_string()]);
    assert_eq!(prefetch_candidates(&segs, 4), vec!["b".to_string(), "d".to_string()]);
}

#[test]
fn segment_files_live_under_the_playlist_hash() {
    let uri = "http://example.com/live/seg1.ts";
    let h = hash_url("http://example.com/live");
    assert_eq!(segment_dir(uri), format!("cache/hls/{}/segments", h));
    assert_eq!(segment_path(uri), format!("cache/hls/{}/segments/seg1.ts", h));
    assert_eq!(stream_path(uri), format!("cache/hls/{}/segment.ts", hash_url(uri)));
}

#[test]
fn status_checks() {
    assert!(is_success_status(200));
    assert!(is_success_status(299));
    assert!(!is_success_status(304));
    match status_error("404 Not Found") {
        PluginError::Network(m) => assert_eq!(m, "Server returned status: 404 Not Found"),
        _ => panic!("expected a network error"),
    }
}

#[test]
fn segment_downloads_are_recorded() {
    let mut m = SegmentManager::new();
    m.record_download("u1", 100);
    m.record_download("u1", 120);
    let r = m.get("u1").unwrap();
    assert_eq!(r.size, 120);
    assert_eq!(r.bytes_downloaded, 120);
    assert!(!r.downloading);
    assert_eq!(m.len(), 1);
    assert!(m.get("u2").is_none());
}

#[test]
fn mp4_pieces_and_downloads() {
    assert!(mp4::can_handle("http://x/movie.mp4"));
    assert!(!mp4::can_handle("http://x/movie.ts"));
    assert_eq!(mp4::piece_bounds(5, 2), vec![(0, 2), (2, 4), (4, 5)]);
    assert_eq!(mp4::piece_bounds(0, 2), Vec::<(usize, usize)>::new());
    assert_eq!(mp4::piece_bounds(3 * mp4::CHUNK_SIZE, mp4::CHUNK_SIZE).len(), 3);
    let mut d = mp4::Mp4Downloads::new();
    d.record("u", 10);
    assert_eq!(d.get("u"), Some(10));
    assert_eq!(d.len(), 1);
}
