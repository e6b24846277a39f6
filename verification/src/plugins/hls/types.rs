//! The data kept about HLS playlists, and where their files are stored.
use crate::text::{append_str, chars_of, decimal, join_path, path_join, push_decimal, string_from_chars};
use vstd::prelude::*;

verus! {

/// The kind of an HLS playlist.
#[derive(Debug, Clone, Copy, PartialEq, Eq, Structural)]
pub enum PlaylistType {
    /// A master playlist, which lists variant streams.
    Master,
    /// A media playlist, which lists segments.
    Media,
}

/// A variant stream of a master playlist.
#[derive(Debug, Clone)]
pub struct Variant {
    /// Bandwidth in bits per second.
    pub bandwidth: u64,
    /// Resolution, as written in the playlist.
    pub resolution: Option<String>,
    /// URL of the variant playlist.
    pub url: String,
    /// Hash of the URL.
    pub hash: String,
}

/// A segment of a media playlist.
#[derive(Debug, Clone)]
pub struct Segment {
    /// Position in the playlist.
    pub sequence: u32,
    /// Duration in seconds, as the playlist writes it (text that parses as an
    /// `f32`).
    pub duration: String,
    /// URL of the segment.
    pub url: String,
    /// Size in bytes, when known.
    pub size: Option<u64>,
    /// Whether the segment is cached.
    pub cached: bool,
    /// Whether the segment is being downloaded.
    pub downloading: bool,
    /// Bytes downloaded so far.
    pub bytes_downloaded: u64,
}

/// What is known of one playlist.
#[derive(Debug, Clone)]
pub struct PlaylistInfo {
    /// The playlist's URL.
    pub url: String,
    /// Hash of the URL.
    pub hash: String,
    /// Master or media playlist.
    pub playlist_type: PlaylistType,
    /// When the playlist was last read, in milliseconds since the Unix epoch.
    pub last_modified: i64,
    /// Target duration in seconds, as written (media playlists only).
    pub target_duration: Option<String>,
    /// Media sequence number (media playlists only).
    pub media_sequence: Option<u32>,
    /// Variant streams (master playlists only).
    pub variants: Vec<Variant>,
    /// Segments (media playlists only).
    pub segments: Vec<Segment>,
}

pub open spec fn opt_view(o: Option<String>) -> Option<Seq<char>> {
    match o {
        Some(s) => Some(s@),
        None => None,
    }
}

pub struct VariantView {
    pub bandwidth: u64,
    pub resolution: Option<Seq<char>>,
    pub url: Seq<char>,
    pub hash: Seq<char>,
}

pub struct SegmentView {
    pub sequence: u32,
    pub duration: Seq<char>,
    pub url: Seq<char>,
    pub size: Option<u64>,
    pub cached: bool,
    pub downloading: bool,
    pub bytes_downloaded: u64,
}

pub struct PlaylistInfoView {
    pub url: Seq<char>,
    pub hash: Seq<char>,
    pub playlist_type: PlaylistType,
    pub last_modified: i64,
    pub target_duration: Option<Seq<char>>,
    pub media_sequence: Option<u32>,
    pub variants: Seq<VariantView>,
    pub segments: Seq<SegmentView>,
}

impl View for Variant {
    type V = VariantView;

    open spec fn view(&self) -> VariantView {
        VariantView {
            bandwidth: self.bandwidth,
            resolution: opt_view(self.resolution),
            url: self.url@,
            hash: self.hash@,
        }
    }
}

impl View for Segment {
    type V = SegmentView;

    open spec fn view(&self) -> SegmentView {
        SegmentView {
            sequence: self.sequence,
            duration: self.duration@,
            url: self.url@,
            size: self.size,
            cached: self.cached,
            downloading: self.downloading,
            bytes_downloaded: self.bytes_downloaded,
        }
    }
}

pub open spec fn variants_view(v: Seq<Variant>) -> Seq<VariantView> {
    v.map_values(|x: Variant| x@)
}

pub open spec fn segments_view(v: Seq<Segment>) -> Seq<SegmentView> {
    v.map_values(|x: Segment| x@)
}

impl View for PlaylistInfo {
    type V = PlaylistInfoView;

    open spec fn view(&self) -> PlaylistInfoView {
        PlaylistInfoView {
            url: self.url@,
            hash: self.hash@,
            playlist_type: self.playlist_type,
            last_modified: self.last_modified,
            target_duration: opt_view(self.target_duration),
            media_sequence: self.media_sequence,
            variants: variants_view(self.variants@),
            segments: segments_view(self.segments@),
        }
    }
}

impl Variant {
    /// A copy of the variant.
    pub fn duplicate(&self) -> (r: Variant)
        ensures
            r@ == self@,
    {
        Variant {
            bandwidth: self.bandwidth,
            resolution: copy_opt(&self.resolution),
            url: copy_string(&self.url),
            hash: copy_string(&self.hash),
        }
    }
}

impl Segment {
    /// A copy of the segment.
    pub fn duplicate(&self) -> (r: Segment)
        ensures
            r@ == self@,
    {
        Segment {
            sequence: self.sequence,
            duration: copy_string(&self.duration),
            url: copy_string(&self.url),
            size: self.size,
            cached: self.cached,
            downloading: self.downloading,
            bytes_downloaded: self.bytes_downloaded,
        }
    }
}

impl PlaylistInfo {
    /// A copy of the playlist information.
    pub fn duplicate(&self) -> (r: PlaylistInfo)
        ensures
            r@ == self@,
    {
        let mut variants: Vec<Variant> = Vec::new();
        let mut i: usize = 0;
        while i < self.variants.len()
            invariant
                0 <= i <= self.variants@.len(),
                variants_view(variants@) == variants_view(self.variants@).take(i as int),
            decreases self.variants@.len() - i,
        {
            let v = self.variants[i].duplicate();
            let ghost before = variants@;
            variants.push(v);
            assert(variants@ =~= before.push(v));
            assert(variants_view(variants@) =~= variants_view(before).push(v@));
            i += 1;
            assert(variants_view(variants@) =~= variants_view(self.variants@).take(i as int));
        }
        let mut segments: Vec<Segment> = Vec::new();
        let mut j: usize = 0;
        while j < self.segments.len()
            invariant
                0 <= j <= self.segments@.len(),
                segments_view(segments@) == segments_view(self.segments@).take(j as int),
            decreases self.segments@.len() - j,
        {
            let v = self.segments[j].duplicate();
            let ghost before = segments@;
            segments.push(v);
            assert(segments@ =~= before.push(v));
            assert(segments_view(segments@) =~= segments_view(before).push(v@));
            j += 1;
            assert(segments_view(segments@) =~= segments_view(self.segments@).take(j as int));
        }
        assert(variants_view(self.variants@).take(i as int) =~= variants_view(self.variants@));
        assert(segments_view(self.segments@).take(j as int) =~= segments_view(self.segments@));
        PlaylistInfo {
            url: copy_string(&self.url),
            hash: copy_string(&self.hash),
            playlist_type: self.playlist_type,
            last_modified: self.last_modified,
            target_duration: copy_opt(&self.target_duration),
            media_sequence: self.media_sequence,
            variants,
            segments,
        }
    }
}

/// A copy of a string.
pub fn copy_string(s: &String) -> (r: String)
    ensures
        r@ == s@,
{
    s.clone()
}

/// A copy of an optional string.
pub fn copy_opt(s: &Option<String>) -> (r: Option<String>)
    ensures
        opt_view(r) == opt_view(*s),
{
    match s {
        Some(x) => Some(x.clone()),
        None => None,
    }
}

/// Builds the paths under which playlists and segments are cached.
#[derive(Debug, Clone)]
pub struct PathBuilder {
    base_path: String,
}

impl PathBuilder {
    pub closed spec fn base(&self) -> Seq<char> {
        self.base_path@
    }

    /// A builder for paths under `base_path`.
    pub fn new(base_path: &str) -> (r: Self)
        ensures
            r.base() == base_path@,
    {
        let v = chars_of(base_path);
        PathBuilder { base_path: string_from_chars(&v) }
    }

    /// The base path.
    pub fn base_path(&self) -> (r: &str)
        ensures
            r@ == self.base(),
    {
        self.base_path.as_str()
    }

    /// `<base>/<hash>/playlists/master.m3u8`.
    pub fn master_playlist(&self, hash: &str) -> (r: String)
        ensures
            r@ == path_join(path_join(path_join(self.base(), hash@), "playlists"@), "master.m3u8"@),
    {
        let b = chars_of(self.base_path.as_str());
        let p = join_path(&b, &chars_of(hash));
        let p = join_path(&p, &chars_of("playlists"));
        let p = join_path(&p, &chars_of("master.m3u8"));
        string_from_chars(&p)
    }

    /// `<base>/<master_hash>/playlists/variants/<variant_name>.m3u8`.
    pub fn variant_playlist(&self, master_hash: &str, variant_name: &str) -> (r: String)
        ensures
            r@ == path_join(
                path_join(path_join(path_join(self.base(), master_hash@), "playlists"@), "variants"@),
                variant_name@ + ".m3u8"@,
            ),
    {
        let b = chars_of(self.base_path.as_str());
        let p = join_path(&b, &chars_of(master_hash));
        let p = join_path(&p, &chars_of("playlists"));
        let p = join_path(&p, &chars_of("variants"));
        let mut name = chars_of(variant_name);
        append_str(&mut name, ".m3u8");
        let p = join_path(&p, &name);
        string_from_chars(&p)
    }

    /// `<base>/<hash>/playlists/playlist.m3u8`.
    pub fn media_playlist(&self, hash: &str) -> (r: String)
        ensures
            r@ == path_join(path_join(path_join(self.base(), hash@), "playlists"@), "playlist.m3u8"@),
    {
        let b = chars_of(self.base_path.as_str());
        let p = join_path(&b, &chars_of(hash));
        let p = join_path(&p, &chars_of("playlists"));
        let p = join_path(&p, &chars_of("playlist.m3u8"));
        string_from_chars(&p)
    }

    /// `<base>/<playlist_hash>/segments[/<variant>]/<sequence>.ts`.
    pub fn segment(&self, playlist_hash: &str, variant: Option<&str>, sequence: u32) -> (r: String)
        ensures
            r@ == path_join(
                match variant {
                    Some(v) => path_join(path_join(path_join(self.base(), playlist_hash@), "segments"@), v@),
                    None => path_join(path_join(self.base(), playlist_hash@), "segments"@),
                },
                decimal(sequence as nat) + ".ts"@,
            ),
    {
        let b = chars_of(self.base_path.as_str());
        let p = join_path(&b, &chars_of(playlist_hash));
        let mut p = join_path(&p, &chars_of("segments"));
        match variant {
            Some(v) => {
                p = join_path(&p, &chars_of(v));
            },
            None => {},
        }
        let mut name: Vec<char> = Vec::new();
        push_decimal(&mut name, sequence as u64);
        append_str(&mut name, ".ts");
        assert(name@ =~= decimal(sequence as nat) + ".ts"@);
        let p = join_path(&p, &name);
        string_from_chars(&p)
    }
}

} // verus!
