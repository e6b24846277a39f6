use http_cache_server::utils::{
    get_storage_paths, get_url_path, hash_url, is_absolute_url, resolve_url, try_resolve_url,
};
use std::path::Path;

#[test]
fn test_get_url_path() {
    assert_eq!(get_url_path("http://example.com/path?query=1"), "http://example.com/path");
    assert_eq!(get_url_path("/path?query=1#fragment"), "/path");
    assert_eq!(get_url_path("/path"), "/path");
}

#[test]
fn test_hash_url() {
    let url = "http://example.com/video.m3u8";
    let hash = hash_url(url);
    println!("hash: {}", hash);
    assert_eq!(hash.len(), 16);
    assert!(hash.chars().all(|c| c.is_ascii_hexdigit()));
}

#[test]
fn test_is_absolute_url() {
    assert!(is_absolute_url("http://example.com"));
    assert!(is_absolute_url("https://example.com"));
    assert!(!is_absolute_url("relative/path"));
    assert!(!is_absolute_url("/absolute/path"));
}

#[test]
fn test_resolve_url() {
    let base = "http://example.com/video/";
    let relative = "segment.ts";
    assert_eq!(resolve_url(base, relative), "http://example.com/video/segment.ts");

    let absolute = "http://other.com/file.ts";
    assert_eq!(resolve_url(base, absolute), absolute);

    let base = "http://example.com/video/playlist.m3u8";
    let relative = "../segments/segment.ts";
    assert_eq!(resolve_url(base, relative), "http://example.com/segments/segment.ts");
}

#[test]
fn test_get_storage_paths() {
    let url = "http://devimages.apple.com/iphone/samples/bipbop/bipbopall.m3u8";
    let (_, file_path) = get_storage_paths(url);
    assert!(Path::new(&file_path).ends_with("bipbopall.m3u8"));

    let url = "http://devimages.apple.com/iphone/samples/bipbop/gear1/prog_index.m3u8";
    let (_, file_path) = get_storage_paths(url);
    assert!(Path::new(&file_path).ends_with("gear1/prog_index.m3u8"));

    let url = "http://devimages.apple.com/iphone/samples/bipbop/gear1/fileSequence0.ts";
    let (_, file_path) = get_storage_paths(url);
    assert!(Path::new(&file_path).ends_with("gear1/segments/fileSequence0.ts"));

    let test_cases = [
        ("http://example.com/video/playlist.m3u8", "playlist.m3u8"),
        ("http://example.com/video/segment1.ts", "segments/segment1.ts"),
        ("http://example.com/video/other.txt", "other.txt"),
    ];
    for (input, expected) in test_cases.iter() {
        let (_, file_path) = get_storage_paths(input);
        assert!(Path::new(&file_path).ends_with(expected), "Failed for {}", input);
    }

    let test_cases = [
        ("bipbopall.m3u8", "bipbopall.m3u8"),
        ("gear1/prog_index.m3u8", "gear1/prog_index.m3u8"),
        ("gear1/fileSequence0.ts", "gear1/segments/fileSequence0.ts"),
        ("gear2/prog_index.m3u8", "gear2/prog_index.m3u8"),
        ("gear2/fileSequence0.ts", "gear2/segments/fileSequence0.ts"),
        ("gear3/prog_index.m3u8", "gear3/prog_index.m3u8"),
        ("gear3/fileSequence0.ts", "gear3/segments/fileSequence0.ts"),
        ("gear4/prog_index.m3u8", "gear4/prog_index.m3u8"),
        ("gear4/fileSequence0.ts", "gear4/segments/fileSequence0.ts"),
        ("gear1/playlist.m3u8", "gear1/prog_index.m3u8"),
        ("gear2/playlist.m3u8", "gear2/prog_index.m3u8"),
        ("gear3/playlist.m3u8", "gear3/prog_index.m3u8"),
        ("gear4/playlist.m3u8", "gear4/prog_index.m3u8"),
    ];
    for (input, expected) in test_cases.iter() {
        let url = format!("http://devimages.apple.com/iphone/samples/bipbop/{}", input);
        let (_, file_path) = get_storage_paths(&url);
        assert!(Path::new(&file_path).ends_with(expected), "Failed for {}", input);
    }

    let url = "invalid://url";
    let (_, file_path) = get_storage_paths(url);
    assert!(Path::new(&file_path).ends_with("unknown"));
}

#[test]
fn storage_paths_layout() {
    let (base, file) = get_storage_paths("http://example.com/video/segment1.ts");
    let expected_base = format!("cache/hls/{}", hash_url("http://example.com"));
    assert_eq!(base, expected_base);
    assert_eq!(file, format!("{}/segments/segment1.ts", expected_base));

    let (base, file) = get_storage_paths("http://example.com/");
    assert_eq!(file, format!("{}/unknown", base));

    let (base, file) = get_storage_paths("not a url");
    assert_eq!(base, format!("cache/hls/{}", hash_url("not a url")));
    assert_eq!(file, format!("{}/unknown", base));
}

#[test]
fn hash_url_is_stable_and_distinguishes() {
    assert_eq!(hash_url("a"), hash_url("a"));
    assert_ne!(hash_url("a"), hash_url("b"));
}

#[test]
fn try_resolve_url_reports_failure() {
    assert_eq!(try_resolve_url("not a base", "x.ts"), None);
    assert_eq!(try_resolve_url("not a base", "https://h/x.ts"), Some("https://h/x.ts".to_string()));
    assert_eq!(
        try_resolve_url("http://h/a/b.m3u8", "c.ts"),
        Some("http://h/a/c.ts".to_string())
    );
}

#[test]
fn storage_file_lies_inside_its_directory() {
    let urls = [
        "http://devimages.apple.com/iphone/samples/bipbop/bipbopall.m3u8",
        "http://devimages.apple.com/iphone/samples/bipbop/gear1/fileSequence0.ts",
        "http://devimages.apple.com/iphone/samples/bipbop/gear2/prog_index.m3u8",
        "http://example.com/",
        "http://example.com//a//b.ts",
        "not a url",
    ];
    for url in urls.iter() {
        let (dir, file) = get_storage_paths(url);
        assert!(file.starts_with(&format!("{}/", dir)), "{} gave {} and {}", url, dir, file);
        assert!(Path::new(&file).starts_with(Path::new(&dir)));
        assert_ne!(Path::new(&file), Path::new(&dir));
    }
}
