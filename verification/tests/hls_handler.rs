use http_cache_server::error::LoadError;
use http_cache_server::hls::{
    rewrite_playlist,
    batch_segments, checked_variant_bandwidth, choose_stream, media_targets, merge_plan, push_capped,
    read_playlist, variant_targets, HlsHandler, LiveBatcher, LiveWindow, SegmentMergeInfo, VariantStream,
};

const MASTER: &[u8] = b"#EXTM3U\n#EXT-X-STREAM-INF:BANDWIDTH=1280000\nlow/index.m3u8\n#EXT-X-STREAM-INF:BANDWIDTH=2560000\nhigh/index.m3u8\n";
const MEDIA: &[u8] = b"#EXTM3U\n#EXT-X-VERSION:3\n#EXT-X-TARGETDURATION:10\n#EXT-X-MEDIA-SEQUENCE:5\n#EXTINF:9.0,\nseg5.ts\n#EXTINF:9.0,\nseg6.ts\n#EXTINF:9.0,\nseg7.ts\n#EXT-X-ENDLIST\n";

fn streams(items: &[(u64, &str)]) -> Vec<VariantStream> {
    items.iter().map(|(b, u)| VariantStream { bandwidth: *b, url: u.to_string() }).collect()
}

fn infos(items: &[(u64, &str)]) -> Vec<SegmentMergeInfo> {
    items.iter().map(|(s, u)| SegmentMergeInfo { sequence: *s, url: u.to_string() }).collect()
}

#[test]
fn choose_stream_takes_the_best_fit_under_eighty_percent() {
    let s = streams(&[(300, "a"), (800, "b"), (500, "c"), (900, "d")]);
    // 80% of 1000 is 800: the best fit is "b".
    assert_eq!(choose_stream(&s, 1000).unwrap(), "b");
    // 80% of 700 is 560: "c".
    assert_eq!(choose_stream(&s, 700).unwrap(), "c");
}

#[test]
fn choose_stream_falls_back_to_the_lowest() {
    let s = streams(&[(300, "a"), (200, "b"), (200, "c")]);
    assert_eq!(choose_stream(&s, 0).unwrap(), "b");
}

#[test]
fn choose_stream_breaks_ties_as_a_stable_sort_does() {
    let s = streams(&[(500, "first"), (500, "second"), (100, "low")]);
    assert_eq!(choose_stream(&s, 1000).unwrap(), "second");
}

#[test]
fn choose_stream_fails_without_streams() {
    match choose_stream(&Vec::new(), 1000) {
        Err(LoadError::InvalidInput(m)) => assert_eq!(m, "No valid variant streams found"),
        _ => panic!("expected an error"),
    }
}

#[test]
fn bandwidth_measurement_is_bits_per_second() {
    let mut h = HlsHandler::new();
    assert_eq!(h.current_bandwidth(), 0);
    h.update_bandwidth_measurement(1000, 2);
    assert_eq!(h.current_bandwidth(), 4000);
    h.update_bandwidth_measurement(5000, 0);
    assert_eq!(h.current_bandwidth(), 4000);
    let s = streams(&[(3000, "x"), (3300, "y")]);
    assert_eq!(h.select_variant(&s).unwrap(), "x");
}

#[test]
fn read_playlist_tells_master_from_media() {
    let m = read_playlist(MASTER).unwrap();
    assert!(m.0);
    assert_eq!(m.1.len(), 2);
    assert_eq!(m.1[0], ("low/index.m3u8".to_string(), 1280000));
    let p = read_playlist(MEDIA).unwrap();
    assert!(!p.0);
    assert_eq!(p.2, 5);
    assert_eq!(p.3, 10);
}

#[test]
fn read_playlist_refuses_bad_bytes() {
    match read_playlist(&[0xff, 0xfe]) {
        Err(LoadError::InvalidInput(_)) => {}
        _ => panic!("expected invalid input"),
    }
    match read_playlist(b"not a playlist") {
        Err(LoadError::InvalidInput(m)) => assert!(m.starts_with("Failed to parse m3u8: ")),
        _ => panic!("expected invalid input"),
    }
}

#[test]
fn media_targets_join_segments_onto_the_playlist_url() {
    let t = media_targets("http://example.com/live/index.m3u8", MEDIA, None).unwrap().unwrap();
    assert_eq!(
        t.urls,
        vec![
            "http://example.com/live/seg5.ts".to_string(),
            "http://example.com/live/seg6.ts".to_string(),
            "http://example.com/live/seg7.ts".to_string(),
        ]
    );
    assert!(t.failure.is_none());
    assert_eq!(t.media_sequence, 5);
    let limited = media_targets("http://example.com/live/index.m3u8", MEDIA, Some(2)).unwrap().unwrap();
    assert_eq!(limited.urls.len(), 2);
    assert!(media_targets("http://example.com/master.m3u8", MASTER, None).unwrap().is_none());
    match media_targets("no url", MEDIA, None) {
        Err(LoadError::InvalidInput(_)) => {}
        _ => panic!("expected invalid input"),
    }
}

#[test]
fn variant_targets_of_a_master_playlist() {
    let v = variant_targets("http://example.com/video/master.m3u8", MASTER).unwrap();
    assert_eq!(
        v,
        vec![
            "http://example.com/video/low/index.m3u8".to_string(),
            "http://example.com/video/high/index.m3u8".to_string(),
        ]
    );
    assert!(variant_targets("http://example.com/live/index.m3u8", MEDIA).unwrap().is_empty());
}

#[test]
fn variant_bandwidth_is_target_duration_times_1024() {
    assert_eq!(checked_variant_bandwidth(MEDIA).unwrap().unwrap(), Some(10240));
    assert_eq!(checked_variant_bandwidth(MASTER).unwrap().unwrap(), None);
}

#[test]
fn merge_plan_stops_at_the_first_gap() {
    let ok = infos(&[(4, "a"), (5, "b"), (6, "c")]);
    assert_eq!(merge_plan(&ok), Some((vec!["a".to_string(), "b".to_string(), "c".to_string()], true)));
    let gap = infos(&[(4, "a"), (5, "b"), (7, "c")]);
    assert_eq!(merge_plan(&gap), Some((vec!["a".to_string(), "b".to_string()], false)));
    let top = infos(&[(u64::MAX - 1, "a"), (u64::MAX, "b")]);
    assert_eq!(merge_plan(&top), None);
    let first_only = infos(&[(u64::MAX, "a"), (3, "b")]);
    assert_eq!(merge_plan(&first_only), None);
}

#[test]
fn batch_segments_numbers_and_cuts() {
    let urls: Vec<String> = ["a", "b", "c", "d", "e"].iter().map(|s| s.to_string()).collect();
    let b = batch_segments(&urls, 10, 2);
    assert_eq!(b.len(), 3);
    assert_eq!(b[0].iter().map(|i| i.sequence).collect::<Vec<_>>(), vec![10, 11]);
    assert_eq!(b[2].iter().map(|i| i.url.clone()).collect::<Vec<_>>(), vec!["e".to_string()]);
    let ones = batch_segments(&urls, 0, 0);
    assert_eq!(ones.len(), 5);
    let flat: Vec<String> = b.iter().flat_map(|x| x.iter().map(|i| i.url.clone())).collect();
    assert_eq!(flat, urls);
}

#[test]
fn live_batcher_hands_out_full_batches() {
    let mut lb = LiveBatcher::new();
    assert!(lb.add("a".to_string(), 2).is_none());
    let full = lb.add("b".to_string(), 2).unwrap();
    assert_eq!(full.iter().map(|i| i.sequence).collect::<Vec<_>>(), vec![0, 1]);
    assert!(lb.add("c".to_string(), 2).is_none());
}

#[test]
fn push_capped_drops_the_oldest() {
    let mut v = vec![1, 2, 3];
    push_capped(&mut v, 4, 3);
    assert_eq!(v, vec![2, 3, 4]);
    push_capped(&mut v, 5, 5);
    assert_eq!(v, vec![2, 3, 4, 5]);
}

#[test]
fn live_window_fetches_each_segment_once_and_keeps_the_newest() {
    let mut w = LiveWindow::new();
    assert!(w.take_new("s1"));
    assert!(w.take_new("s2"));
    assert!(!w.take_new("s1"));
    assert!(w.take_new("s3"));
    w.trim(2);
    assert!(w.take_new("s1"));
    assert!(!w.take_new("s3"));
    w.note_sequence(7);
    w.note_sequence(3);
}

#[test]
fn rewrite_playlist_makes_segment_uris_absolute() {
    let out = rewrite_playlist("http://example.com/live/index.m3u8", MEDIA).unwrap();
    let text = String::from_utf8(out).unwrap();
    assert!(text.starts_with("#EXTM3U"));
    assert!(text.contains("http://example.com/live/seg5.ts"));
    assert!(text.contains("http://example.com/live/seg7.ts"));
    assert!(!text.lines().any(|l| l == "seg6.ts"));
    let again = read_playlist(text.as_bytes()).unwrap();
    assert!(!again.0);
    assert_eq!(again.1.len(), 3);
    assert_eq!(again.1[1].0, "http://example.com/live/seg6.ts");
    assert_eq!(again.2, 5);
}

#[test]
fn rewrite_playlist_hands_master_back_and_refuses_bad_input() {
    assert_eq!(rewrite_playlist("http://example.com/master.m3u8", MASTER).unwrap(), MASTER.to_vec());
    match rewrite_playlist("no url", MEDIA) {
        Err(LoadError::InvalidInput(_)) => {}
        _ => panic!("expected invalid input"),
    }
    match rewrite_playlist("http://example.com/a.m3u8", b"not a playlist") {
        Err(LoadError::InvalidInput(m)) => assert!(m.starts_with("Failed to parse m3u8: ")),
        _ => panic!("expected invalid input"),
    }
}
