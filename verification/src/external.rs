//! Calls into std and outside crates whose results the library uses. Each
//! function here is believed, not proved: its contract states what the called
//! code's documentation or source shows.
use crate::hls::strs_view;
use sha2::Digest;
use std::hash::BuildHasher;
use vstd::prelude::*;

verus! {

// ---------------------------------------------------------------------------
// Names for results that take pages to state
// ---------------------------------------------------------------------------

/// The 64-bit hash that `std::hash::DefaultHasher::new()` gives for a string.
pub uninterp spec fn default_hash(s: Seq<char>) -> u64;

/// What `url::Url::parse` makes of a string: on success its scheme, host (if
/// any) and path; on failure the text of the parse error.
pub uninterp spec fn url_parts(s: Seq<char>) -> Result<
    (Seq<char>, Option<Seq<char>>, Seq<char>),
    Seq<char>,
>;

/// What `url::Url::parse(base)` followed by `Url::join(rel)` gives: the
/// serialization of the joined URL, or the text of the first `ParseError`.
pub uninterp spec fn joined_url(base: Seq<char>, rel: Seq<char>) -> Result<Seq<char>, Seq<char>>;

/// The SHA-256 digest of some bytes (`sha2::Sha256`).
pub uninterp spec fn sha256(data: Seq<u8>) -> Seq<u8>;

/// `str::to_lowercase`: the Unicode lower-case mapping of a string.
pub uninterp spec fn lowercase(s: Seq<char>) -> Seq<char>;

/// `String::from_utf8_lossy`: bytes read as UTF-8, each invalid sequence
/// replaced by U+FFFD.
pub uninterp spec fn utf8_lossy(b: Seq<u8>) -> Seq<char>;

/// What `m3u8_rs::parse_playlist_res` makes of some bytes, reduced to what the
/// library reads: `Ok((true, variant URIs with their bandwidths, 0, 0))` for
/// a master playlist, `Ok((false, segment URIs with bandwidth 0, media
/// sequence, target duration))` for a media playlist, the error's text on
/// failure.
pub uninterp spec fn m3u8_summary(b: Seq<u8>) -> Result<(bool, Seq<(Seq<char>, u64)>, u64, u64), Seq<char>>;

/// What `m3u8_rs::parse_playlist_res` followed by `Playlist::write_to` gives
/// for some bytes, with the URI of the i-th segment of a media playlist set to
/// the i-th of `uris` first (segments past the end of `uris` keep theirs): the
/// bytes written, or the text of the parse or write error.
pub uninterp spec fn m3u8_rewritten(content: Seq<u8>, uris: Seq<Seq<char>>) -> Result<Seq<u8>, Seq<char>>;

/// What `std::str::from_utf8` says of some bytes: `None` when they are valid
/// UTF-8, else the text of its `Utf8Error`.
pub uninterp spec fn utf8_error(b: Seq<u8>) -> Option<Seq<char>>;

// ---------------------------------------------------------------------------
// std
// ---------------------------------------------------------------------------

/// `DefaultHasher`: hashes a string with a hasher made by
/// `DefaultHasher::new()` (through `BuildHasherDefault::hash_one`, which builds
/// such a hasher, feeds it the string and finishes it). The result is named,
/// not stated: the algorithm is unspecified, but every hasher made by `new`
/// is the same, so the same string always gives the same hash.
#[verifier::external_body]
pub(crate) fn hash_str(s: &str) -> (h: u64)
    ensures
        h == default_hash(s@),
{
    std::hash::BuildHasherDefault::<std::collections::hash_map::DefaultHasher>::default().hash_one(
        s,
    )
}

/// `str::to_lowercase`. The result is named; the Unicode mapping is not
/// written out here.
#[verifier::external_body]
pub(crate) fn to_lowercase(s: &str) -> (r: String)
    ensures
        r@ == lowercase(s@),
{
    s.to_lowercase()
}

/// `String::from_utf8_lossy`, made into an owned string. The result is named.
#[verifier::external_body]
pub(crate) fn from_utf8_lossy(b: &[u8]) -> (r: String)
    ensures
        r@ == utf8_lossy(b@),
{
    String::from_utf8_lossy(b).into_owned()
}

/// The wall clock in milliseconds since the Unix epoch
/// (`SystemTime::now().duration_since(UNIX_EPOCH)`), or 0 before the epoch.
/// Nothing is promised of the value: it depends on the clock.
#[verifier::external_body]
pub(crate) fn now_millis() -> (t: u64) {
    match std::time::SystemTime::now().duration_since(std::time::UNIX_EPOCH) {
        Ok(d) => d.as_millis() as u64,
        Err(_) => 0,
    }
}

// ---------------------------------------------------------------------------
// url
// ---------------------------------------------------------------------------

pub open spec fn url_parts_view(r: Result<(String, Option<String>, String), String>) -> Result<
    (Seq<char>, Option<Seq<char>>, Seq<char>),
    Seq<char>,
> {
    match r {
        Ok((scheme, host, path)) => Ok(
            (
                scheme@,
                match host {
                    Some(h) => Some(h@),
                    None => None,
                },
                path@,
            ),
        ),
        Err(e) => Err(e@),
    }
}

/// `url::Url::parse`: on success, the URL's `scheme()`, `host_str()` and
/// `path()`; on failure, the `ParseError`'s text. The result is named; the
/// URL grammar is not written out here.
#[verifier::external_body]
pub(crate) fn parse_url(s: &str) -> (r: Result<(String, Option<String>, String), String>)
    ensures
        url_parts_view(r) == url_parts(s@),
{
    match url::Url::parse(s) {
        Ok(u) => Ok((u.scheme().to_string(), u.host_str().map(|h| h.to_string()), u.path().to_string())),
        Err(e) => Err(e.to_string()),
    }
}

/// `url::Url::parse(base)` followed by `Url::join(rel)` on the result:
/// the joined URL serialized, or the text of the error of whichever call
/// failed. The result is named.
#[verifier::external_body]
pub(crate) fn join_url(base: &str, rel: &str) -> (r: Result<String, String>)
    ensures
        match r {
            Ok(s) => joined_url(base@, rel@) == Ok::<Seq<char>, Seq<char>>(s@),
            Err(e) => joined_url(base@, rel@) == Err::<Seq<char>, Seq<char>>(e@),
        },
{
    match url::Url::parse(base).and_then(|b| b.join(rel)) {
        Ok(u) => Ok(String::from(u)),
        Err(e) => Err(e.to_string()),
    }
}

// ---------------------------------------------------------------------------
// sha2
// ---------------------------------------------------------------------------

/// `sha2::Sha256::digest`: the SHA-256 digest of `data`, which is 32 bytes
/// long. The digest itself is named.
#[verifier::external_body]
pub(crate) fn sha256_digest(data: &[u8]) -> (r: Vec<u8>)
    ensures
        r@ == sha256(data@),
        r@.len() == 32,
{
    sha2::Sha256::digest(data).to_vec()
}

// ---------------------------------------------------------------------------
// chrono
// ---------------------------------------------------------------------------

/// The wall clock as a `chrono::DateTime<Utc>` (chrono's
/// `From<SystemTime>`), in milliseconds since the Unix epoch; a clock set
/// before 1970 gives a negative value. Nothing is promised of the value: it
/// depends on the clock. Left unsaid: chrono's conversion still unwraps its
/// range check, so a clock beyond chrono's range of years (about 262,000
/// years either side of the epoch) would stop it.
#[verifier::external_body]
pub(crate) fn utc_now_millis() -> (t: i64) {
    chrono::DateTime::<chrono::Utc>::from(std::time::SystemTime::now()).timestamp_millis()
}

// ---------------------------------------------------------------------------
// m3u8-rs
// ---------------------------------------------------------------------------

pub open spec fn m3u8_view(r: Result<(bool, Vec<(String, u64)>, u64, u64), String>) -> Result<
    (bool, Seq<(Seq<char>, u64)>, u64, u64),
    Seq<char>,
> {
    match r {
        Ok((m, items, seq, target)) => Ok(
            (m, items@.map_values(|p: (String, u64)| (p.0@, p.1)), seq, target),
        ),
        Err(e) => Err(e@),
    }
}

/// `m3u8_rs::parse_playlist_res`, each variant or segment handed out as its
/// URI (and, for a variant, its bandwidth), an error as its text. The result
/// is named; the M3U8 grammar is not written out here.
#[verifier::external_body]
pub(crate) fn parse_m3u8(b: &[u8]) -> (r: Result<(bool, Vec<(String, u64)>, u64, u64), String>)
    ensures
        m3u8_view(r) == m3u8_summary(b@),
{
    match m3u8_rs::parse_playlist_res(b) {
        Ok(m3u8_rs::Playlist::MasterPlaylist(m)) => Ok(
            (true, m.variants.iter().map(|v| (v.uri.clone(), v.bandwidth)).collect(), 0, 0),
        ),
        Ok(m3u8_rs::Playlist::MediaPlaylist(p)) => Ok(
            (
                false,
                p.segments.iter().map(|s| (s.uri.clone(), 0)).collect(),
                p.media_sequence,
                p.target_duration,
            ),
        ),
        Err(e) => Err(e.to_string()),
    }
}

pub open spec fn written_view(r: Result<Vec<u8>, String>) -> Result<Seq<u8>, Seq<char>> {
    match r {
        Ok(o) => Ok(o@),
        Err(e) => Err(e@),
    }
}

/// Parses `content` with `m3u8_rs::parse_playlist_res`; in a media playlist
/// sets each segment's URI to the URI of `uris` at the same position; writes
/// the playlist back with `Playlist::write_to`. The bytes written, or the
/// text of the parse or write error, are named.
#[verifier::external_body]
pub(crate) fn write_media_playlist(content: &[u8], uris: &Vec<String>) -> (r: Result<Vec<u8>, String>)
    ensures
        written_view(r) == m3u8_rewritten(content@, strs_view(uris@)),
{
    match m3u8_rs::parse_playlist_res(content) {
        Ok(mut pl) => {
            if let m3u8_rs::Playlist::MediaPlaylist(ref mut p) = pl {
                for (segment, uri) in p.segments.iter_mut().zip(uris.iter()) {
                    segment.uri = uri.clone();
                }
            }
            let mut out: Vec<u8> = Vec::new();
            match pl.write_to(&mut out) {
                Ok(()) => Ok(out),
                Err(e) => Err(e.to_string()),
            }
        },
        Err(e) => Err(e.to_string()),
    }
}

/// `std::str::from_utf8`: `None` when `b` is valid UTF-8, else the text of
/// the error. The answer is named.
#[verifier::external_body]
pub(crate) fn utf8_check(b: &[u8]) -> (r: Option<String>)
    ensures
        match r {
            Some(e) => utf8_error(b@) == Some(e@),
            None => utf8_error(b@) is None,
        },
{
    match std::str::from_utf8(b) {
        Ok(_) => None,
        Err(e) => Some(e.to_string()),
    }
}

// ---------------------------------------------------------------------------
// dashmap
// ---------------------------------------------------------------------------

#[verifier::external_type_specification]
#[verifier::external_body]
#[verifier::reject_recursive_types(K)]
#[verifier::reject_recursive_types(V)]
#[verifier::reject_recursive_types(S)]
pub struct ExDashMap<K, V, S>(dashmap::DashMap<K, V, S>);

/// A map of access times in milliseconds, by key.
pub type AccessLog = dashmap::DashMap<String, u64>;

/// What a `DashMap` of access times holds: each key's value.
pub uninterp spec fn access_log(m: AccessLog) -> Map<Seq<char>, u64>;

pub open spec fn no_accesses() -> Map<Seq<char>, u64> {
    Map::empty()
}

/// `DashMap::new`: an empty map.
#[verifier::external_body]
pub(crate) fn new_access_log() -> (r: AccessLog)
    ensures
        access_log(r) == no_accesses(),
{
    dashmap::DashMap::new()
}

/// `DashMap::insert`: afterwards `key` maps to `value`, and nothing else
/// changed. (The map takes `&self`; the library holds it by value and hands
/// it out `&mut`, so that the change is seen.)
#[verifier::external_body]
pub(crate) fn insert_access(m: &mut AccessLog, key: String, value: u64)
    ensures
        access_log(*final(m)) == access_log(*old(m)).insert(key@, value),
{
    m.insert(key, value);
}

/// `DashMap::remove`: afterwards `key` maps to nothing, and nothing else
/// changed.
#[verifier::external_body]
pub(crate) fn remove_access(m: &mut AccessLog, key: &str)
    ensures
        access_log(*final(m)) == access_log(*old(m)).remove(key@),
{
    m.remove(key);
}

/// `DashMap::iter`, each entry copied out: every key of the map once, with
/// its value. The order is the map's own (by shard and bucket), which is not
/// stated.
#[verifier::external_body]
pub(crate) fn list_access(m: &AccessLog) -> (r: Vec<(String, u64)>)
    ensures
        r@.len() == access_log(*m).dom().len(),
        forall|i: int|
            0 <= i < r@.len() ==> access_log(*m).contains_key((#[trigger] r@[i]).0@) && access_log(*m)[r@[i].0@]
                == r@[i].1,
        forall|i: int| forall|j: int| 0 <= i < j < r@.len() ==> (#[trigger] r@[i]).0@ != (#[trigger] r@[j]).0@,
        forall|k: Seq<char>|
            #[trigger] access_log(*m).contains_key(k) ==> exists|i: int| 0 <= i < r@.len() && (#[trigger] r@[i]).0@ == k,
{
    m.iter().map(|e| (e.key().clone(), *e.value())).collect()
}

// ---------------------------------------------------------------------------
// hyper
// ---------------------------------------------------------------------------

pub type UriTexts = (Option<String>, Option<String>, Option<String>, String);

pub open spec fn opt_text(o: Option<String>) -> Option<Seq<char>> {
    match o {
        Some(s) => Some(s@),
        None => None,
    }
}

pub open spec fn uri_view(r: Option<UriTexts>) -> Option<(Option<Seq<char>>, Option<Seq<char>>, Option<Seq<char>>, Seq<char>)> {
    match r {
        Some(t) => Some((opt_text(t.0), opt_text(t.1), opt_text(t.2), t.3@)),
        None => None,
    }
}

/// What parsing a string as a `hyper::Uri` gives: its scheme, authority and
/// path with query (each as text, when the URI has one) and the URI as its
/// `Display` writes it; `None` when it does not parse.
pub uninterp spec fn uri_parts(s: Seq<char>) -> Option<(Option<Seq<char>>, Option<Seq<char>>, Option<Seq<char>>, Seq<char>)>;

/// `str::parse::<hyper::Uri>`, the URI taken apart into texts. The result
/// is named; the URI grammar is not written out here.
#[verifier::external_body]
pub(crate) fn parse_uri(s: &str) -> (r: Option<UriTexts>)
    ensures
        uri_view(r) == uri_parts(s@),
{
    match s.parse::<hyper::Uri>() {
        Ok(u) => Some((
            u.scheme().map(|x| x.as_str().to_string()),
            u.authority().map(|a| a.as_str().to_string()),
            u.path_and_query().map(|p| p.as_str().to_string()),
            u.to_string(),
        )),
        Err(_) => None,
    }
}

} // verus!
