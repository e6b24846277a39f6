//! Where HLS segments are cached on disk, and what is known of each one
//! downloaded.
use super::utils::{get_playlist_url, get_segment_name, hash_url, playlist_url_spec};
use crate::error::PluginError;
use crate::keyed::{key_index, lemma_key_index, KeyedVec};
use crate::text::{after_last, append_str, chars_of, join_path, path_join, string_from_chars};
use crate::utils::hash_url_spec;
use vstd::prelude::*;

verus! {

/// The directory under which the segments of a playlist are cached:
/// `cache/hls/<hash of the playlist URL>/segments`.
pub open spec fn segment_dir_spec(uri: Seq<char>) -> Seq<char> {
    path_join(path_join("cache/hls"@, hash_url_spec(playlist_url_spec(uri))), "segments"@)
}

/// The file a segment is cached in: its name inside `segment_dir_spec`.
pub open spec fn segment_path_spec(uri: Seq<char>) -> Seq<char> {
    path_join(segment_dir_spec(uri), after_last(uri, '/'))
}

/// The directory a streamed segment is written to: `cache/hls/<hash of the
/// segment URL>`.
pub open spec fn stream_dir_spec(uri: Seq<char>) -> Seq<char> {
    path_join("cache/hls"@, hash_url_spec(uri))
}

/// The directory under which the segments of the playlist of `uri` are
/// cached.
pub fn segment_dir(uri: &str) -> (r: String)
    ensures
        r@ == segment_dir_spec(uri@),
{
    let playlist_url = get_playlist_url(uri);
    let hash = hash_url(playlist_url.as_str());
    let base = join_path(&chars_of("cache/hls"), &chars_of(hash.as_str()));
    let dir = join_path(&base, &chars_of("segments"));
    string_from_chars(&dir)
}

/// The file the segment `uri` is cached in.
pub fn segment_path(uri: &str) -> (r: String)
    ensures
        r@ == segment_path_spec(uri@),
{
    let dir = segment_dir(uri);
    let name = get_segment_name(uri);
    let p = join_path(&chars_of(dir.as_str()), &chars_of(name.as_str()));
    string_from_chars(&p)
}

/// The directory the segment `uri` is streamed into.
pub fn stream_dir(uri: &str) -> (r: String)
    ensures
        r@ == stream_dir_spec(uri@),
{
    let hash = hash_url(uri);
    let p = join_path(&chars_of("cache/hls"), &chars_of(hash.as_str()));
    string_from_chars(&p)
}

/// The file the segment `uri` is streamed into: `segment.ts` in
/// `stream_dir`.
pub fn stream_path(uri: &str) -> (r: String)
    ensures
        r@ == path_join(stream_dir_spec(uri@), "segment.ts"@),
{
    let dir = stream_dir(uri);
    let p = join_path(&chars_of(dir.as_str()), &chars_of("segment.ts"));
    string_from_chars(&p)
}

/// Whether an HTTP status code is a success (200 to 299).
pub fn is_success_status(code: u16) -> (r: bool)
    ensures
        r == (200 <= code <= 299),
{
    200 <= code && code <= 299
}

/// The error for a response whose status (shown as `status`) is no
/// success.
pub fn status_error(status: &str) -> (r: PluginError)
    ensures
        r matches PluginError::Network(m) && m@ == "Server returned status: "@ + status@,
{
    let mut out: Vec<char> = Vec::new();
    append_str(&mut out, "Server returned status: ");
    append_str(&mut out, status);
    let m = string_from_chars(&out);
    assert(m@ =~= "Server returned status: "@ + status@);
    PluginError::Network(m)
}

/// What is known of a downloaded segment.
#[derive(Debug, Clone, Copy, PartialEq, Eq)]
pub struct SegmentRecord {
    pub size: u64,
    pub downloading: bool,
    pub bytes_downloaded: u64,
}

/// The segments downloaded, by URL.
#[derive(Debug)]
pub struct SegmentManager {
    segments: KeyedVec<SegmentRecord>,
}

impl SegmentManager {
    pub closed spec fn records(&self) -> Seq<(Seq<char>, SegmentRecord)> {
        self.segments.entries()
    }

    pub closed spec fn wf(&self) -> bool {
        self.segments.wf()
    }

    /// Nothing downloaded yet.
    pub fn new() -> (r: Self)
        ensures
            r.wf(),
            r.records() == Seq::<(Seq<char>, SegmentRecord)>::empty(),
    {
        SegmentManager { segments: KeyedVec::new() }
    }

    /// Notes that `uri` was downloaded whole, `size` bytes: no longer
    /// downloading, all its bytes in.
    pub fn record_download(&mut self, uri: &str, size: u64)
        requires
            old(self).wf(),
        ensures
            final(self).wf(),
            final(self).records() == ({
                let s = old(self).records();
                let rec = SegmentRecord { size, downloading: false, bytes_downloaded: size };
                if key_index(s, uri@) >= 0 {
                    s.update(key_index(s, uri@), (uri@, rec))
                } else {
                    s.push((uri@, rec))
                }
            }),
    {
        self.segments.put(uri, SegmentRecord { size, downloading: false, bytes_downloaded: size });
    }

    /// What is known of `uri`, if it was downloaded.
    pub fn get(&self, uri: &str) -> (r: Option<SegmentRecord>)
        ensures
            match r {
                Some(rec) => key_index(self.records(), uri@) >= 0 && rec == self.records()[key_index(
                    self.records(),
                    uri@,
                )].1,
                None => key_index(self.records(), uri@) < 0,
            },
    {
        proof {
            lemma_key_index(self.segments.entries(), uri@);
        }
        match self.segments.find(uri) {
            Some(i) => Some(*self.segments.value_at(i)),
            None => None,
        }
    }

    /// How many segments were downloaded.
    pub fn len(&self) -> (r: usize)
        ensures
            r == self.records().len(),
    {
        self.segments.len()
    }
}

} // verus!
