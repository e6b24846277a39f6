use http_cache_server::plugins::hls::utils::{
    extract_sequence_number, get_playlist_url, get_segment_name, hash_url, resolve_url,
};

#[test]
fn test_extract_sequence_number() {
    assert_eq!(extract_sequence_number("/path/segment123.ts"), Some(123));
    assert_eq!(extract_sequence_number("/path/123.ts"), Some(123));
    assert_eq!(extract_sequence_number("invalid"), None);
}

#[test]
fn utils_test_hash_url() {
    let url = "http://example.com/video.m3u8";
    let hash = hash_url(url);
    assert_eq!(hash.len(), 16);
    assert!(hash.chars().all(|c| c.is_ascii_hexdigit()));
}

#[test]
fn utils_test_resolve_url() {
    let base = "http://example.com/video/";
    let relative = "segment.ts";
    assert_eq!(resolve_url(base, relative), "http://example.com/video/segment.ts");

    let absolute = "http://other.com/file.ts";
    assert_eq!(resolve_url(base, absolute), absolute);
}

#[test]
fn sequence_number_edge_cases() {
    assert_eq!(extract_sequence_number("segment+7.ts"), Some(7));
    assert_eq!(extract_sequence_number("a/b/segment4294967295.ts"), Some(4294967295));
    assert_eq!(extract_sequence_number("a/b/segment4294967296.ts"), None);
    assert_eq!(extract_sequence_number("segsegmentment5.ts"), None);
    assert_eq!(extract_sequence_number("x/segmentsegment9.mp4.ts"), Some(9));
    assert_eq!(extract_sequence_number(""), None);
}

#[test]
fn playlist_url_and_segment_name() {
    assert_eq!(get_playlist_url("http://a.com/v/seg1.ts"), "http://a.com/v");
    assert_eq!(get_playlist_url("seg1.ts"), "");
    assert_eq!(get_segment_name("http://a.com/v/seg1.ts"), "seg1.ts");
    assert_eq!(get_segment_name("seg1.ts"), "seg1.ts");
    assert_eq!(get_segment_name("http://a.com/v/"), "");
}

#[test]
fn segment_numbers_are_read_back() {
    for n in [0u32, 7, 42, 1000, u32::MAX] {
        let uri = format!("http://example.com/live/stream/segment{}.ts", n);
        assert_eq!(extract_sequence_number(&uri), Some(n));
    }
    assert_eq!(extract_sequence_number("segment5.ts"), Some(5));
    assert_eq!(extract_sequence_number("/a/segment4294967296.ts"), None);
}
