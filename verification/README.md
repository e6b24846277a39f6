# http_cache_server

A caching proxy for HTTP media (HLS playlists and segments, MP4 files),
organised as plugins. The library under `src/` holds the server's rules and
bookkeeping, each function with a contract that Verus proves:

- `hls` and `plugins::hls` — reading playlists, resolving their entries,
  choosing variants by bandwidth, batching and merging runs of segments, live
  windows, the playlist state, segment records and cache paths;
- `storage`, `cache`, `cache_manager`, `cache_cleaner`, `cache_strategy`,
  `file_table` — space accounting and the choice of what to evict;
- `url_mapper`, `performance`, `retry`, `bandwidth_control`, `loader`,
  `plugin_manager`, `proxy`, `plugins::security`, `plugins::storage`,
  `plugins::mp4` — mappings, tuning, retries, throttling windows, download
  registry, plugin names, proxy URLs and handler choice;
- `external` — the calls into std and outside crates (url, sha2, chrono,
  m3u8-rs, hyper, dashmap) whose contracts are trusted.

`app/` is the program around it: configuration loading, logging, the async
plugin life cycle, HTTP and file I/O, and the floating-point estimates.
