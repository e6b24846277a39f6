use http_cache_server::error::PluginError;
use http_cache_server::storage::{FileMetadata, StorageConfig, StorageManager, StoreAdmission};
use http_cache_server::url_mapper::{MapperConfig, UrlMapper};

fn metadata(etag: Option<&str>) -> FileMetadata {
    FileMetadata {
        content_type: "text/plain".to_string(),
        etag: etag.map(|e| e.to_string()),
        last_modified: None,
        created_at: 0,
    }
}

#[test]
fn test_basic_storage() {
    let mut storage = StorageManager::new("/tmp/store", StorageConfig::default(), 0);
    let data = b"test data".to_vec();
    assert!(storage.has_space(data.len() as u64));
    storage.record_file("test.txt", data.len() as u64, 10, metadata(Some("123")));
    let (path, meta) = storage.get_file("test.txt", 20).unwrap();
    assert_eq!(path, "/tmp/store/test.txt");
    assert_eq!(meta.content_type, "text/plain");
    assert_eq!(meta.etag, Some("123".to_string()));
    assert_eq!(storage.get_storage_stats().used_space, 9);
}

#[test]
fn test_cleanup() {
    let config = StorageConfig { file_ttl: 1000, ..Default::default() };
    let mut storage = StorageManager::new("/tmp/store", config, 0);
    storage.record_file("file1.txt", 9, 0, metadata(None));
    storage.record_file("file2.txt", 9, 0, metadata(None));
    let expired = storage.expired_files(2000);
    assert_eq!(expired, vec!["file1.txt".to_string(), "file2.txt".to_string()]);
    for key in expired {
        let entry = storage.remove_file(&key).unwrap();
        storage.release_space(entry.size);
    }
    let stats = storage.get_storage_stats();
    assert_eq!(stats.file_count, 0);
    assert_eq!(stats.used_space, 0);
}

#[test]
fn storage_missing_file_is_an_error() {
    let mut storage = StorageManager::new("/tmp/store", StorageConfig::default(), 0);
    match storage.get_file("absent", 1) {
        Err(PluginError::Storage(m)) => assert_eq!(m, "File not found"),
        _ => panic!("expected a storage error"),
    }
}

#[test]
fn test_basic_mapping() {
    let mut mapper = UrlMapper::new(MapperConfig::default());
    let url = "https://example.com/test.jpg";
    let cache_key = mapper
        .add_mapping(
            url,
            "image/jpeg",
            Some("Wed, 21 Oct 2015 07:28:00 GMT".to_string()),
            Some("\"123456\"".to_string()),
        )
        .unwrap();
    let mapping = mapper.get_mapping(url).unwrap();
    assert_eq!(mapping.cache_key, cache_key);
    assert_eq!(mapping.content_type, "image/jpeg");
}

#[test]
fn test_mapping_stats() {
    let mut mapper = UrlMapper::new(MapperConfig::default());
    mapper
        .add_mapping("https://example.com/1.jpg", "image/jpeg", None, Some("\"123\"".to_string()))
        .unwrap();
    mapper
        .add_mapping(
            "https://example.com/2.jpg",
            "image/jpeg",
            Some("Wed, 21 Oct 2015 07:28:00 GMT".to_string()),
            None,
        )
        .unwrap();
    mapper.get_mapping("https://example.com/1.jpg");
    mapper.get_mapping("https://example.com/1.jpg");
    mapper.get_mapping("https://example.com/2.jpg");
    let stats = mapper.get_stats();
    assert_eq!(stats.total_mappings, 2);
    assert_eq!(stats.total_accesses, 3);
    assert_eq!(stats.with_etag, 1);
    assert_eq!(stats.with_last_modified, 1);
}

#[test]
fn mapping_of_an_invalid_url_is_refused() {
    let mut mapper = UrlMapper::new(MapperConfig::default());
    match mapper.add_mapping("not a url", "image/jpeg", None, None) {
        Err(PluginError::Network(m)) => assert!(m.starts_with("Invalid URL: ")),
        _ => panic!("expected a network error"),
    }
}

#[test]
fn mapping_limit_is_enforced() {
    let config = MapperConfig { max_mappings: 1, ..MapperConfig::default() };
    let mut mapper = UrlMapper::new(config);
    mapper.add_mapping("https://example.com/a.jpg", "image/jpeg", None, None).unwrap();
    match mapper.add_mapping("https://example.com/b.jpg", "image/jpeg", None, None) {
        Err(PluginError::Storage(m)) => assert_eq!(m, "Maximum mappings limit reached"),
        _ => panic!("expected the limit"),
    }
}

#[test]
fn cache_keys_differ_by_path() {
    let mut mapper = UrlMapper::new(MapperConfig::default());
    let a = mapper.add_mapping("https://example.com/a.jpg", "image/jpeg", None, None).unwrap();
    let b = mapper.add_mapping("https://example.com/b.jpg", "image/jpeg", None, None).unwrap();
    assert_ne!(a, b);
    assert_eq!(a, mapper.generate_cache_key("/a.jpg"));
}

#[test]
fn cache_keys_are_sha256_hex_of_the_normalized_path() {
    let mapper = UrlMapper::new(MapperConfig::default());
    let key = mapper.generate_cache_key("/Video//Clip.MP4/");
    assert_eq!(key.len(), 64);
    assert!(key.chars().all(|c| c.is_ascii_hexdigit() && !c.is_ascii_uppercase()));
    assert_eq!(key, mapper.generate_cache_key("/video/clip.mp4"));
    // SHA-256 of the empty string.
    assert_eq!(
        mapper.generate_cache_key(""),
        "e3b0c44298fc1c149afbf4c8996fb92427ae41e4649b934ca495991b7852b855"
    );
}

#[test]
fn storage_takes_out_only_expired_files() {
    let config = StorageConfig { file_ttl: 1000, ..Default::default() };
    let mut storage = StorageManager::new("/tmp/store", config, 0);
    storage.record_file("old.txt", 5, 0, metadata(None));
    storage.record_file("new.txt", 7, 1500, metadata(None));
    storage.record_file("edge.txt", 3, 1000, metadata(None));
    let taken = storage.take_expired(2001);
    let keys: Vec<&str> = taken.iter().map(|e| e.key.as_str()).collect();
    assert_eq!(keys, vec!["old.txt", "edge.txt"]);
    assert_eq!(taken[0].path, "/tmp/store/old.txt");
    let stats = storage.get_storage_stats();
    assert_eq!(stats.file_count, 1);
    assert_eq!(stats.used_space, 15);
    storage.release_removed(&taken, &vec![true, true]);
    storage.mark_cleanup(2001);
    let stats = storage.get_storage_stats();
    assert_eq!(stats.used_space, 7);
    assert_eq!(stats.last_cleanup, 2001);
    assert!(storage.get_file("new.txt", 2002).is_ok());
}

#[test]
fn storage_admission_cleans_up_before_refusing() {
    let config = StorageConfig { max_space: 10, ..Default::default() };
    let mut storage = StorageManager::new("/tmp/store", config, 0);
    assert!(matches!(storage.admission(10, false), StoreAdmission::Write));
    storage.record_file("a", 6, 0, metadata(None));
    assert!(matches!(storage.admission(4, false), StoreAdmission::Write));
    assert!(matches!(storage.admission(5, false), StoreAdmission::CleanUpFirst));
    match storage.admission(5, true) {
        StoreAdmission::Refuse(PluginError::Storage(m)) => assert_eq!(m, "Storage space exceeded"),
        _ => panic!("expected a refusal"),
    }
}
