//! How the HLS plugin routes a request, and which segments it fetches ahead.
use super::types::{segments_view, Segment, SegmentView};
use crate::text::{chars_of, ends_with, has_suffix};
use vstd::prelude::*;

verus! {

/// Whether a request is for a playlist (else it is for a segment).
pub open spec fn is_playlist_spec(uri: Seq<char>) -> bool {
    has_suffix(uri, ".m3u8"@)
}

/// Whether the plugin takes a request: playlists and `.ts` segments.
pub open spec fn can_handle_spec(uri: Seq<char>) -> bool {
    has_suffix(uri, ".m3u8"@) || has_suffix(uri, ".ts"@)
}

/// The URLs, in order, of those among the first `count` segments that are
/// neither cached nor being downloaded.
pub open spec fn prefetchable(segs: Seq<SegmentView>, count: nat) -> Seq<Seq<char>>
    decreases segs.len(),
{
    if segs.len() == 0 {
        Seq::empty()
    } else {
        let n = segs.len() - 1;
        let prev = prefetchable(segs.drop_last(), count);
        if n < count && !segs[n].cached && !segs[n].downloading {
            prev.push(segs[n].url)
        } else {
            prev
        }
    }
}

pub open spec fn strings_view(v: Seq<String>) -> Seq<Seq<char>> {
    v.map_values(|s: String| s@)
}

/// Whether `uri` asks for a playlist.
pub fn is_playlist_request(uri: &str) -> (r: bool)
    ensures
        r == is_playlist_spec(uri@),
{
    ends_with(&chars_of(uri), &chars_of(".m3u8"))
}

/// Whether the HLS plugin takes `uri`.
pub fn can_handle(uri: &str) -> (r: bool)
    ensures
        r == can_handle_spec(uri@),
{
    let cs = chars_of(uri);
    ends_with(&cs, &chars_of(".m3u8")) || ends_with(&cs, &chars_of(".ts"))
}

/// The segments to fetch ahead: those among the first `count` that are
/// neither cached nor being downloaded, in order.
pub fn prefetch_candidates(segments: &Vec<Segment>, count: usize) -> (r: Vec<String>)
    ensures
        strings_view(r@) == prefetchable(segments_view(segments@), count as nat),
{
    let ghost sv = segments_view(segments@);
    let mut out: Vec<String> = Vec::new();
    let mut i: usize = 0;
    while i < segments.len()
        invariant
            0 <= i <= segments@.len(),
            sv == segments_view(segments@),
            strings_view(out@) == prefetchable(sv.take(i as int), count as nat),
        decreases segments@.len() - i,
    {
        assert(sv.take(i + 1).drop_last() =~= sv.take(i as int));
        assert(sv[i as int] == segments@[i as int]@);
        let s = &segments[i];
        if i < count && !s.cached && !s.downloading {
            let ghost o0 = strings_view(out@);
            let u = s.url.clone();
            out.push(u);
            assert(strings_view(out@) =~= o0.push(sv[i as int].url));
        }
        i += 1;
    }
    assert(sv.take(i as int) =~= sv);
    out
}

/// How many segments of a media playlist are fetched ahead when it is
/// requested.
pub const MEDIA_PREFETCH_COUNT: usize = 3;

} // verus!
