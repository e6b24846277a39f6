//! The decisions of the HLS handler: reading a fetched playlist, turning its
//! entries into absolute URLs, choosing a variant by the measured bandwidth,
//! checking and batching runs of segments, and keeping a live window.
use crate::error::LoadError;
use crate::external::{
    join_url, joined_url, m3u8_rewritten, m3u8_summary, parse_m3u8, parse_url, url_parts,
    utf8_check, utf8_error, write_media_playlist,
};
use crate::text::{append_str, chars_of, string_from_chars};
use vstd::prelude::*;

verus! {

/// A playlist as the handler reads it: whether it is a master playlist, its
/// entries (URI and, for a variant, bandwidth), its media sequence and its
/// target duration.
pub type PlaylistSummary = (bool, Seq<(Seq<char>, u64)>, u64, u64);

pub open spec fn entries_view(v: Seq<(String, u64)>) -> Seq<(Seq<char>, u64)> {
    v.map_values(|e: (String, u64)| (e.0@, e.1))
}

pub open spec fn strs_view(v: Seq<String>) -> Seq<Seq<char>> {
    v.map_values(|s: String| s@)
}

pub open spec fn summary_view(p: (bool, Vec<(String, u64)>, u64, u64)) -> PlaylistSummary {
    (p.0, entries_view(p.1@), p.2, p.3)
}

/// The playlist that fetched bytes hold, or the text of why they hold none:
/// they must be UTF-8 and parse as M3U8.
pub open spec fn playlist_spec(b: Seq<u8>) -> Result<PlaylistSummary, Seq<char>> {
    match utf8_error(b) {
        Some(e) => Err(e),
        None => match m3u8_summary(b) {
            Ok(s) => Ok(s),
            Err(e) => Err("Failed to parse m3u8: "@ + e),
        },
    }
}

/// The URIs of a playlist's entries.
pub open spec fn uri_list(entries: Seq<(Seq<char>, u64)>) -> Seq<Seq<char>> {
    entries.map_values(|e: (Seq<char>, u64)| e.0)
}

/// The URIs joined onto `base` one by one up to the first that fails: the
/// URLs joined so far and, if one failed, the text of its error.
pub open spec fn join_all(base: Seq<char>, uris: Seq<Seq<char>>) -> (Seq<Seq<char>>, Option<Seq<char>>)
    decreases uris.len(),
{
    if uris.len() == 0 {
        (Seq::empty(), None)
    } else {
        let prev = join_all(base, uris.drop_last());
        if prev.1 is Some {
            prev
        } else {
            match joined_url(base, uris.last()) {
                Ok(u) => (prev.0.push(u), None),
                Err(e) => (prev.0, Some(e)),
            }
        }
    }
}

/// At most the first `depth` items, all of them when `depth` is `None`.
pub open spec fn take_depth<A>(s: Seq<A>, depth: Option<usize>) -> Seq<A> {
    match depth {
        Some(d) => if d < s.len() {
            s.take(d as int)
        } else {
            s
        },
        None => s,
    }
}

/// What the handler makes of a fetched media playlist at `url`: nothing for
/// a master playlist; else its segment URLs (the first `depth` of them),
/// joined onto `url` up to the first that fails, that failure, and the media
/// sequence. An error's text when the bytes hold no playlist or `url` is no
/// URL.
pub open spec fn targets_spec(url: Seq<char>, content: Seq<u8>, depth: Option<usize>) -> Result<
    Option<(Seq<Seq<char>>, Option<Seq<char>>, u64)>,
    Seq<char>,
> {
    match playlist_spec(content) {
        Err(e) => Err(e),
        Ok(p) => if p.0 {
            Ok(None)
        } else {
            match url_parts(url) {
                Err(e) => Err(e),
                Ok(_) => {
                    let j = join_all(url, take_depth(uri_list(p.1), depth));
                    Ok(Some((j.0, j.1, p.2)))
                },
            }
        },
    }
}

/// The variant URLs of a fetched master playlist at `url`, joined onto it;
/// none for a media playlist; an error's text when the bytes hold no
/// playlist, `url` is no URL or a variant URI does not join.
pub open spec fn variants_spec(url: Seq<char>, content: Seq<u8>) -> Result<Seq<Seq<char>>, Seq<char>> {
    match playlist_spec(content) {
        Err(e) => Err(e),
        Ok(p) => if !p.0 {
            Ok(Seq::empty())
        } else {
            match url_parts(url) {
                Err(e) => Err(e),
                Ok(_) => {
                    let j = join_all(url, uri_list(p.1));
                    match j.1 {
                        Some(e) => Err(e),
                        None => Ok(j.0),
                    }
                },
            }
        },
    }
}

pub open spec fn invalid_input(r: LoadError, text: Seq<char>) -> bool {
    r matches LoadError::InvalidInput(m) && m@ == text
}

/// Reads fetched bytes as a playlist.
pub fn read_playlist(content: &[u8]) -> (r: Result<(bool, Vec<(String, u64)>, u64, u64), LoadError>)
    ensures
        match r {
            Ok(p) => playlist_spec(content@) == Ok::<PlaylistSummary, Seq<char>>(summary_view(p)),
            Err(e) => playlist_spec(content@) is Err && invalid_input(e, playlist_spec(content@)->Err_0),
        },
{
    match utf8_check(content) {
        Some(e) => Err(LoadError::InvalidInput(e)),
        None => match parse_m3u8(content) {
            Ok(p) => Ok(p),
            Err(e) => {
                let mut out: Vec<char> = Vec::new();
                append_str(&mut out, "Failed to parse m3u8: ");
                append_str(&mut out, e.as_str());
                let m = string_from_chars(&out);
                proof {
                    assert(m@ =~= "Failed to parse m3u8: "@ + e@);
                }
                Err(LoadError::InvalidInput(m))
            },
        },
    }
}

/// Joins the URIs of `entries` (the first `limit` of them, if given) onto
/// `base`, one by one, up to the first that fails.
pub fn join_entries(base: &str, entries: &Vec<(String, u64)>, limit: Option<usize>) -> (r: (
    Vec<String>,
    Option<String>,
))
    ensures
        ({
            let j = join_all(
                base@,
                take_depth(uri_list(entries_view(entries@)), limit),
            );
            &&& strs_view(r.0@) == j.0
            &&& match r.1 {
                Some(e) => j.1 == Some(e@),
                None => j.1 is None,
            }
        }),
{
    let ghost all = uri_list(entries_view(entries@));
    let n: usize = match limit {
        Some(d) => if d < entries.len() {
            d
        } else {
            entries.len()
        },
        None => entries.len(),
    };
    let ghost uris = take_depth(all, limit);
    assert(uris =~= all.take(n as int));
    let mut out: Vec<String> = Vec::new();
    let mut i: usize = 0;
    while i < n
        invariant
            0 <= i <= n <= entries@.len(),
            all.len() == entries@.len(),
            forall|k: int| 0 <= k < entries@.len() ==> #[trigger] all[k] == entries@[k].0@,
            uris == all.take(n as int),
            uris == take_depth(all, limit),
            all == uri_list(entries_view(entries@)),
            out@.len() == i,
            join_all(base@, uris.take(i as int)) == (strs_view(out@), None::<Seq<char>>),
        decreases n - i,
    {
        let ghost before = strs_view(out@);
        assert(uris.take(i + 1).drop_last() =~= uris.take(i as int));
        assert(uris.take(i + 1).last() == entries@[i as int].0@);
        match join_url(base, entries[i].0.as_str()) {
            Ok(u) => {
                let ghost uv = u@;
                out.push(u);
                assert(strs_view(out@) =~= before.push(uv));
                assert(join_all(base@, uris.take(i + 1)) == (before.push(uv), None::<Seq<char>>));
                i += 1;
            },
            Err(e) => {
                proof {
                    assert(join_all(base@, uris.take(i + 1)) == (before, Some(e@)));
                    lemma_join_all_stops(base@, uris, i as int + 1);
                }
                return (out, Some(e));
            },
        }
    }
    assert(uris.take(n as int) =~= uris);
    (out, None)
}

/// Once a URI has failed to join, the later ones change nothing.
pub proof fn lemma_join_all_stops(base: Seq<char>, uris: Seq<Seq<char>>, i: int)
    requires
        0 <= i <= uris.len(),
        join_all(base, uris.take(i)).1 is Some,
    ensures
        join_all(base, uris) == join_all(base, uris.take(i)),
    decreases uris.len() - i,
{
    if i < uris.len() {
        assert(uris.take(i + 1).drop_last() =~= uris.take(i));
        lemma_join_all_stops(base, uris, i + 1);
    } else {
        assert(uris.take(i) =~= uris);
    }
}

/// Segment URLs of a media playlist, ready to be fetched.
#[derive(Debug)]
pub struct MediaTargets {
    pub urls: Vec<String>,
    pub failure: Option<LoadError>,
    pub media_sequence: u64,
}

pub open spec fn error_text(e: LoadError) -> Seq<char> {
    match e {
        LoadError::InvalidInput(m) => m@,
        LoadError::Cache(m) => m@,
        LoadError::Network(m) => m@,
    }
}

impl MediaTargets {
    pub open spec fn view_spec(&self) -> (Seq<Seq<char>>, Option<Seq<char>>, u64) {
        (
            strs_view(self.urls@),
            match self.failure {
                Some(f) => Some(error_text(f)),
                None => None,
            },
            self.media_sequence,
        )
    }
}

/// Reads the playlist fetched from `url`. For a media playlist, returns its
/// segment URLs (the first `depth`, if given) joined onto `url` up to the
/// first that fails, with that failure, and its media sequence; for a master
/// playlist `None`. Fails when the bytes hold no playlist, or, for a media
/// playlist, when `url` is no URL.
pub fn media_targets(url: &str, content: &[u8], depth: Option<usize>) -> (r: Result<
    Option<MediaTargets>,
    LoadError,
>)
    ensures
        match r {
            Ok(None) => targets_spec(url@, content@, depth) == Ok::<
                Option<(Seq<Seq<char>>, Option<Seq<char>>, u64)>,
                Seq<char>,
            >(None),
            Ok(Some(t)) => targets_spec(url@, content@, depth) == Ok::<
                Option<(Seq<Seq<char>>, Option<Seq<char>>, u64)>,
                Seq<char>,
            >(Some(t.view_spec())) && (t.failure is Some ==> t.failure->Some_0 is InvalidInput),
            Err(e) => targets_spec(url@, content@, depth) is Err && invalid_input(
                e,
                targets_spec(url@, content@, depth)->Err_0,
            ),
        },
{
    let p = read_playlist(content)?;
    if p.0 {
        return Ok(None);
    }
    match parse_url(url) {
        Err(e) => Err(LoadError::InvalidInput(e)),
        Ok(_) => {
            let (urls, failure) = join_entries(url, &p.1, depth);
            let failure = match failure {
                Some(e) => Some(LoadError::InvalidInput(e)),
                None => None,
            };
            Ok(Some(MediaTargets { urls, failure, media_sequence: p.2 }))
        },
    }
}

/// The playlist fetched from `url` as it is handed on: a master playlist
/// unchanged; a media playlist written back out with each segment URI made
/// absolute by joining it onto `url`; or the text of why it cannot be: the
/// bytes hold no playlist, `url` is no URL, a segment URI does not join
/// (the first that fails), or the playlist cannot be written.
pub open spec fn rewrite_spec(url: Seq<char>, content: Seq<u8>) -> Result<Seq<u8>, Seq<char>> {
    match targets_spec(url, content, None) {
        Err(e) => Err(e),
        Ok(None) => Ok(content),
        Ok(Some((urls, failure, _))) => match failure {
            Some(e) => Err(e),
            None => match m3u8_rewritten(content, urls) {
                Ok(o) => Ok(o),
                Err(e) => Err("Failed to write m3u8: "@ + e),
            },
        },
    }
}

/// Rewrites the playlist fetched from `url` (see `rewrite_spec`); every
/// failure is an `InvalidInput` error carrying its text.
pub fn rewrite_playlist(url: &str, content: &[u8]) -> (r: Result<Vec<u8>, LoadError>)
    ensures
        match r {
            Ok(o) => rewrite_spec(url@, content@) is Ok && rewrite_spec(url@, content@)->Ok_0 == o@,
            Err(e) => rewrite_spec(url@, content@) is Err && invalid_input(
                e,
                rewrite_spec(url@, content@)->Err_0,
            ),
        },
{
    match media_targets(url, content, None)? {
        None => Ok(vstd::slice::slice_to_vec(content)),
        Some(t) => {
            match t.failure {
                Some(e) => Err(e),
                None => match write_media_playlist(content, &t.urls) {
                    Ok(o) => Ok(o),
                    Err(e) => {
                        let mut m = chars_of("Failed to write m3u8: ");
                        append_str(&mut m, e.as_str());
                        Err(LoadError::InvalidInput(string_from_chars(&m)))
                    },
                },
            }
        },
    }
}

/// The variant URLs of the master playlist fetched from `url`, joined onto
/// it; none when the playlist is a media playlist. Fails when the bytes hold
/// no playlist, or, for a master playlist, when `url` is no URL or a variant
/// URI does not join.
pub fn variant_targets(url: &str, content: &[u8]) -> (r: Result<Vec<String>, LoadError>)
    ensures
        match r {
            Ok(v) => variants_spec(url@, content@) == Ok::<Seq<Seq<char>>, Seq<char>>(
                strs_view(v@),
            ),
            Err(e) => variants_spec(url@, content@) is Err && invalid_input(
                e,
                variants_spec(url@, content@)->Err_0,
            ),
        },
{
    let p = read_playlist(content)?;
    if !p.0 {
        let v: Vec<String> = Vec::new();
        assert(strs_view(v@) =~= Seq::<Seq<char>>::empty());
        return Ok(v);
    }
    match parse_url(url) {
        Err(e) => Err(LoadError::InvalidInput(e)),
        Ok(_) => {
            let (urls, failure) = join_entries(url, &p.1, None);
            match failure {
                Some(e) => Err(LoadError::InvalidInput(e)),
                None => Ok(urls),
            }
        },
    }
}

// ---------------------------------------------------------------------------
// Choosing a variant
// ---------------------------------------------------------------------------

/// A variant playlist and the bandwidth it is taken to need, in bits per
/// second.
#[derive(Debug)]
pub struct VariantStream {
    pub bandwidth: u64,
    pub url: String,
}

pub open spec fn bandwidths(v: Seq<VariantStream>) -> Seq<u64> {
    v.map_values(|s: VariantStream| s.bandwidth)
}

pub open spec fn fits(bws: Seq<u64>, limit: int, i: int) -> bool {
    0 <= i < bws.len() && bws[i] <= limit
}

/// `i` needs the most bandwidth of those within `limit`, and is the last
/// such.
pub open spec fn is_best_fit(bws: Seq<u64>, limit: int, i: int) -> bool {
    &&& fits(bws, limit, i)
    &&& forall|j: int| #[trigger] fits(bws, limit, j) ==> bws[j] <= bws[i]
    &&& forall|j: int| i < j < bws.len() && #[trigger] fits(bws, limit, j) ==> bws[j] < bws[i]
}

/// `i` needs the least bandwidth, and is the first such.
pub open spec fn is_lowest(bws: Seq<u64>, i: int) -> bool {
    &&& 0 <= i < bws.len()
    &&& forall|j: int| 0 <= j < bws.len() ==> bws[i] <= #[trigger] bws[j]
    &&& forall|j: int| 0 <= j < i ==> bws[i] < #[trigger] bws[j]
}

/// The stream chosen under `limit`: the best fit when one fits, else the
/// lowest.
pub open spec fn is_chosen(bws: Seq<u64>, limit: int, i: int) -> bool {
    if exists|j: int| fits(bws, limit, j) {
        is_best_fit(bws, limit, i)
    } else {
        is_lowest(bws, i)
    }
}

/// At most one stream is chosen.
pub proof fn lemma_chosen_unique(bws: Seq<u64>, limit: int, i: int, j: int)
    requires
        is_chosen(bws, limit, i),
        is_chosen(bws, limit, j),
    ensures
        i == j,
{
    if exists|k: int| fits(bws, limit, k) {
        assert(fits(bws, limit, i) && fits(bws, limit, j));
        if i < j {
            assert(bws[j] < bws[i]);
        } else if j < i {
            assert(bws[i] < bws[j]);
        }
    } else {
        if i < j {
            assert(bws[j] < bws[i]);
        } else if j < i {
            assert(bws[i] < bws[j]);
        }
    }
}

/// Picks among `streams` for a measured bandwidth of `current` bits per
/// second: the stream needing the most bandwidth within 80% of `current`
/// (the last of equals), or else the one needing the least (the first of
/// equals). Fails on no streams.
pub fn choose_stream(streams: &Vec<VariantStream>, current: u64) -> (r: Result<String, LoadError>)
    requires
        current * 8 <= u64::MAX,
    ensures
        match r {
            Ok(u) => exists|i: int|
                is_chosen(bandwidths(streams@), (current * 8 / 10) as int, i) && u@ == streams@[i].url@,
            Err(e) => streams@.len() == 0 && invalid_input(e, "No valid variant streams found"@),
        },
        streams@.len() > 0 <==> r is Ok,
{
    if streams.len() == 0 {
        return Err(LoadError::InvalidInput(String::from_str("No valid variant streams found")));
    }
    let limit: u64 = current * 8 / 10;
    let ghost bws = bandwidths(streams@);
    let mut best: Option<usize> = None;
    let mut low: usize = 0;
    let mut k: usize = 0;
    while k < streams.len()
        invariant
            0 <= k <= streams@.len(),
            streams@.len() > 0,
            bws == bandwidths(streams@),
            bws.len() == streams@.len(),
            limit == current * 8 / 10,
            match best {
                Some(b) => b < k && fits(bws, limit as int, b as int) && (forall|j: int|
                    0 <= j < k && #[trigger] fits(bws, limit as int, j) ==> bws[j] <= bws[b as int]) && (
                forall|j: int| b < j < k && #[trigger] fits(bws, limit as int, j) ==> bws[j] < bws[b as int]),
                None => forall|j: int| 0 <= j < k ==> !#[trigger] fits(bws, limit as int, j),
            },
            k > 0 ==> low < k,
            k == 0 ==> low == 0,
            k > 0 ==> forall|j: int| 0 <= j < k ==> bws[low as int] <= #[trigger] bws[j],
            forall|j: int| 0 <= j < low ==> bws[low as int] < #[trigger] bws[j],
        decreases streams@.len() - k,
    {
        let bw = streams[k].bandwidth;
        assert(bw == bws[k as int]);
        if bw <= limit {
            match best {
                Some(b) => {
                    if bw >= streams[b].bandwidth {
                        best = Some(k);
                    }
                },
                None => {
                    best = Some(k);
                },
            }
        }
        if bw < streams[low].bandwidth {
            low = k;
        }
        k += 1;
    }
    let i: usize = match best {
        Some(b) => b,
        None => low,
    };
    proof {
        if best is Some {
            assert(is_best_fit(bws, limit as int, i as int));
            assert(exists|j: int| fits(bws, limit as int, j));
        } else {
            assert(!exists|j: int| fits(bws, limit as int, j));
            assert(is_lowest(bws, i as int));
        }
        assert(is_chosen(bws, limit as int, i as int));
    }
    Ok(streams[i].url.clone())
}

/// The bandwidth a media variant is taken to need: its target duration
/// times 1024.
pub fn stream_bandwidth(target_duration: u64) -> (r: u64)
    requires
        target_duration * 1024 <= u64::MAX,
    ensures
        r == target_duration * 1024,
{
    target_duration * 1024
}

/// The measured bandwidth, in bits per second, that the handler chooses
/// variants by.
#[derive(Debug, Clone, Copy)]
pub struct HlsHandler {
    current_bandwidth: u64,
}

impl HlsHandler {
    pub closed spec fn bandwidth_spec(&self) -> u64 {
        self.current_bandwidth
    }

    /// A handler that has measured nothing yet.
    pub fn new() -> (r: Self)
        ensures
            r.bandwidth_spec() == 0,
    {
        HlsHandler { current_bandwidth: 0 }
    }

    pub fn current_bandwidth(&self) -> (r: u64)
        ensures
            r == self.bandwidth_spec(),
    {
        self.current_bandwidth
    }

    /// Notes that `bytes` came in `secs` whole seconds: the bandwidth becomes
    /// `bytes * 8 / secs`. A transfer of under a second changes nothing.
    pub fn update_bandwidth_measurement(&mut self, bytes: u64, secs: u64)
        requires
            bytes * 8 <= u64::MAX,
        ensures
            final(self).bandwidth_spec() == if secs > 0 {
                ((bytes * 8) / (secs as int)) as u64
            } else {
                old(self).bandwidth_spec()
            },
    {
        if secs > 0 {
            self.current_bandwidth = bytes * 8 / secs;
        }
    }

    /// Picks among `streams` by the measured bandwidth (see `choose_stream`).
    pub fn select_variant(&self, streams: &Vec<VariantStream>) -> (r: Result<String, LoadError>)
        requires
            self.bandwidth_spec() * 8 <= u64::MAX,
        ensures
            match r {
                Ok(u) => exists|i: int|
                    is_chosen(bandwidths(streams@), (self.bandwidth_spec() * 8 / 10) as int, i) && u@
                        == streams@[i].url@,
                Err(e) => streams@.len() == 0 && invalid_input(e, "No valid variant streams found"@),
            },
            streams@.len() > 0 <==> r is Ok,
    {
        choose_stream(streams, self.current_bandwidth)
    }
}

/// What the handler makes of a fetched variant playlist when it chooses by
/// bandwidth: nothing for a master playlist, its target duration times 1024
/// for a media playlist; an error's text when the bytes hold no playlist.
pub open spec fn variant_bandwidth_spec(content: Seq<u8>) -> Result<Option<int>, Seq<char>> {
    match playlist_spec(content) {
        Err(e) => Err(e),
        Ok(p) => if p.0 {
            Ok(None)
        } else {
            Ok(Some(p.3 * 1024))
        },
    }
}

/// Whether the target duration of a fetched media playlist, times 1024,
/// fits in 64 bits.
pub open spec fn bandwidth_fits(content: Seq<u8>) -> bool {
    variant_bandwidth_spec(content) matches Ok(Some(b)) ==> b <= u64::MAX
}

/// The bandwidth a fetched variant playlist is taken to need (see
/// `variant_bandwidth_spec`).
pub fn variant_bandwidth(content: &[u8]) -> (r: Result<Option<u64>, LoadError>)
    requires
        bandwidth_fits(content@),
    ensures
        match r {
            Ok(Some(b)) => variant_bandwidth_spec(content@) == Ok::<Option<int>, Seq<char>>(Some(b as int)),
            Ok(None) => variant_bandwidth_spec(content@) == Ok::<Option<int>, Seq<char>>(None),
            Err(e) => variant_bandwidth_spec(content@) is Err && invalid_input(
                e,
                variant_bandwidth_spec(content@)->Err_0,
            ),
        },
{
    let p = read_playlist(content)?;
    if p.0 {
        Ok(None)
    } else {
        Ok(Some(stream_bandwidth(p.3)))
    }
}

/// `variant_bandwidth` where the bandwidth fits in 64 bits; `None` where it
/// does not.
pub fn checked_variant_bandwidth(content: &[u8]) -> (r: Option<Result<Option<u64>, LoadError>>)
    ensures
        match r {
            None => !bandwidth_fits(content@),
            Some(Ok(Some(b))) => bandwidth_fits(content@) && variant_bandwidth_spec(content@) == Ok::<
                Option<int>,
                Seq<char>,
            >(Some(b as int)),
            Some(Ok(None)) => variant_bandwidth_spec(content@) == Ok::<Option<int>, Seq<char>>(None),
            Some(Err(e)) => variant_bandwidth_spec(content@) is Err && invalid_input(
                e,
                variant_bandwidth_spec(content@)->Err_0,
            ),
        },
{
    match read_playlist(content) {
        Err(e) => Some(Err(e)),
        Ok(p) => {
            if p.0 {
                Some(Ok(None))
            } else if p.3 <= 18014398509481983 {
                Some(Ok(Some(stream_bandwidth(p.3))))
            } else {
                None
            }
        },
    }
}

// ---------------------------------------------------------------------------
// Runs of segments
// ---------------------------------------------------------------------------

/// A segment to be fetched as part of a merged run.
#[derive(Debug)]
pub struct SegmentMergeInfo {
    pub sequence: u64,
    pub url: String,
}

pub open spec fn info_view(i: SegmentMergeInfo) -> (u64, Seq<char>) {
    (i.sequence, i.url@)
}

pub open spec fn infos_view(v: Seq<SegmentMergeInfo>) -> Seq<(u64, Seq<char>)> {
    v.map_values(|i: SegmentMergeInfo| info_view(i))
}

pub open spec fn batches_view(v: Seq<Vec<SegmentMergeInfo>>) -> Seq<Seq<(u64, Seq<char>)>> {
    v.map_values(|b: Vec<SegmentMergeInfo>| infos_view(b@))
}

pub open spec fn sequences(v: Seq<SegmentMergeInfo>) -> Seq<u64> {
    v.map_values(|i: SegmentMergeInfo| i.sequence)
}

/// The first index from `k` on where the numbers stop counting up by one from
/// the first; the length when they never do.
pub open spec fn gap_from(s: Seq<u64>, k: int) -> int
    decreases s.len() - k,
{
    if k < 0 || k >= s.len() {
        s.len() as int
    } else if s[k] != s[0] + k {
        k
    } else {
        gap_from(s, k + 1)
    }
}

pub open spec fn first_gap(s: Seq<u64>) -> int {
    gap_from(s, 0)
}

pub proof fn lemma_gap_from(s: Seq<u64>, k: int)
    requires
        0 <= k <= s.len(),
    ensures
        k <= gap_from(s, k) <= s.len(),
        forall|j: int| k <= j < gap_from(s, k) ==> #[trigger] s[j] == s[0] + j,
        gap_from(s, k) < s.len() ==> s[gap_from(s, k)] != s[0] + gap_from(s, k),
    decreases s.len() - k,
{
    if k < s.len() && s[k] == s[0] + k {
        lemma_gap_from(s, k + 1);
    }
}

/// Checks that `segments` count up by one from the first: the URLs of the
/// run before the first gap, and whether there is no gap. (The caller
/// fetches the run, then fails on a gap.) `None` when counting the run
/// would go past `u64::MAX`.
pub fn merge_plan(segments: &Vec<SegmentMergeInfo>) -> (r: Option<(Vec<String>, bool)>)
    requires
        segments@.len() > 0,
    ensures
        ({
            let m = first_gap(sequences(segments@));
            match r {
                Some(p) => segments@[0].sequence + m <= u64::MAX && strs_view(p.0@) == infos_view(segments@).take(
                    m,
                ).map_values(|q: (u64, Seq<char>)| q.1) && p.1 == (m == segments@.len()),
                None => segments@[0].sequence + m > u64::MAX,
            }
        }),
{
    let ghost s = sequences(segments@);
    proof {
        lemma_gap_from(s, 0);
    }
    let first = segments[0].sequence;
    let mut expected: u64 = first;
    let mut out: Vec<String> = Vec::new();
    let mut k: usize = 0;
    while k < segments.len()
        invariant
            0 <= k <= segments@.len(),
            s == sequences(segments@),
            s.len() == segments@.len(),
            first == s[0],
            expected == first + k,
            k <= first_gap(s),
            first_gap(s) <= s.len(),
            forall|j: int| 0 <= j < first_gap(s) ==> #[trigger] s[j] == s[0] + j,
            first_gap(s) < s.len() ==> s[first_gap(s)] != s[0] + first_gap(s),
            strs_view(out@) == infos_view(segments@).take(k as int).map_values(|p: (u64, Seq<char>)| p.1),
        decreases segments@.len() - k,
    {
        assert(segments@[k as int].sequence == s[k as int]);
        if segments[k].sequence != expected {
            assert(k == first_gap(s));
            return Some((out, false));
        }
        let ghost before = strs_view(out@);
        let u = segments[k].url.clone();
        assert(u@ == infos_view(segments@)[k as int].1);
        out.push(u);
        assert(infos_view(segments@).take(k + 1).map_values(|p: (u64, Seq<char>)| p.1) =~= infos_view(
            segments@,
        ).take(k as int).map_values(|p: (u64, Seq<char>)| p.1).push(u@));
        assert(strs_view(out@) =~= before.push(u@));
        k += 1;
        if expected == u64::MAX {
            assert(k <= first_gap(s));
            return None;
        }
        expected = expected + 1;
    }
    assert(k == first_gap(s));
    Some((out, true))
}

/// `s` cut into pieces of `b` in order, the last of which may be shorter.
pub open spec fn chunks<A>(s: Seq<A>, b: nat) -> Seq<Seq<A>>
    decreases s.len(),
{
    if s.len() == 0 || b == 0 {
        Seq::empty()
    } else if s.len() <= b {
        seq![s]
    } else {
        seq![s.take(b as int)] + chunks(s.skip(b as int), b)
    }
}

/// Cutting one more item: it joins the last piece while that is short, else
/// starts a new one.
pub proof fn lemma_chunks_push<A>(s: Seq<A>, x: A, b: nat)
    requires
        b > 0,
    ensures
        chunks(s.push(x), b) == (if s.len() == 0 {
            seq![seq![x]]
        } else if chunks(s, b).last().len() < b {
            chunks(s, b).drop_last().push(chunks(s, b).last().push(x))
        } else {
            chunks(s, b).push(seq![x])
        }),
        s.len() > 0 ==> chunks(s, b).len() > 0 && chunks(s, b).last().len() <= b,
    decreases s.len(),
{
    let t = s.push(x);
    if s.len() == 0 {
        assert(t =~= seq![x]);
    } else if s.len() < b {
    } else if s.len() == b {
        assert(t.take(b as int) =~= s);
        assert(t.skip(b as int) =~= seq![x]);
        assert(chunks(seq![x], b) == seq![seq![x]]);
        assert(chunks(t, b) =~= seq![s, seq![x]]);
    } else {
        assert(t.take(b as int) =~= s.take(b as int));
        assert(t.skip(b as int) =~= s.skip(b as int).push(x));
        lemma_chunks_push(s.skip(b as int), x, b);
        let c = chunks(s.skip(b as int), b);
        assert(chunks(s, b) == seq![s.take(b as int)] + c);
        if c.last().len() < b {
            assert(chunks(t, b) =~= chunks(s, b).drop_last().push(chunks(s, b).last().push(x)));
        } else {
            assert(chunks(t, b) =~= chunks(s, b).push(seq![x]));
        }
    }
}

/// The segments numbered from `first` on.
pub open spec fn numbered(first: u64, urls: Seq<Seq<char>>) -> Seq<(u64, Seq<char>)> {
    Seq::new(urls.len(), |k: int| ((first + k) as u64, urls[k]))
}

pub open spec fn batch_size(merge_threshold: usize) -> nat {
    if merge_threshold == 0 {
        1
    } else {
        merge_threshold as nat
    }
}

/// Numbers `urls` from `media_sequence` on and cuts them into batches of
/// `merge_threshold` (a batch is cut as soon as it holds that many, so a
/// threshold of 0 gives batches of one); the last batch may be shorter.
pub fn batch_segments(urls: &Vec<String>, media_sequence: u64, merge_threshold: usize) -> (r: Vec<
    Vec<SegmentMergeInfo>,
>)
    requires
        media_sequence + urls@.len() <= u64::MAX,
    ensures
        batches_view(r@) == chunks(numbered(media_sequence, strs_view(urls@)), batch_size(merge_threshold)),
{
    let ghost all = numbered(media_sequence, strs_view(urls@));
    let ghost b = batch_size(merge_threshold);
    let mut batches: Vec<Vec<SegmentMergeInfo>> = Vec::new();
    let mut current: Vec<SegmentMergeInfo> = Vec::new();
    let mut sequence: u64 = media_sequence;
    let mut k: usize = 0;
    assert(all.take(0) =~= Seq::<(u64, Seq<char>)>::empty());
    assert(batches_view(batches@) =~= Seq::<Seq<(u64, Seq<char>)>>::empty());
    while k < urls.len()
        invariant
            0 <= k <= urls@.len(),
            all == numbered(media_sequence, strs_view(urls@)),
            b == batch_size(merge_threshold),
            b > 0,
            sequence == media_sequence + k,
            media_sequence + urls@.len() <= u64::MAX,
            current@.len() < b,
            forall|i: int| 0 <= i < batches@.len() ==> (#[trigger] batches@[i])@.len() == b,
            chunks(all.take(k as int), b) == (if current@.len() == 0 {
                batches_view(batches@)
            } else {
                batches_view(batches@).push(infos_view(current@))
            }),
        decreases urls@.len() - k,
    {
        let ghost c0 = chunks(all.take(k as int), b);
        let ghost x = all[k as int];
        let ghost cur0 = infos_view(current@);
        let ghost bv0 = batches_view(batches@);
        let ghost c1 = chunks(all.take(k + 1), b);
        proof {
            lemma_chunks_push(all.take(k as int), x, b);
            assert(all.take(k as int).push(x) =~= all.take(k + 1));
            if cur0.len() > 0 {
                assert(c0 == bv0.push(cur0));
                assert(c0.drop_last() =~= bv0);
                assert(c1 == bv0.push(cur0.push(x)));
            } else if k > 0 {
                assert(c0 == bv0);
                let last = batches@.len() - 1;
                assert(bv0[last] == infos_view(batches@[last]@));
                assert(c0.last().len() == b);
                assert(c1 == bv0.push(seq![x]));
                assert(cur0.push(x) =~= seq![x]);
            } else {
                assert(bv0.len() == 0);
                assert(c1 == seq![seq![x]]);
                assert(bv0.push(seq![x]) =~= seq![seq![x]]);
                assert(cur0.push(x) =~= seq![x]);
            }
            assert(c1 == bv0.push(cur0.push(x)));
        }
        current.push(SegmentMergeInfo { sequence, url: urls[k].clone() });
        assert(info_view(current@[current@.len() - 1]) == x);
        assert(infos_view(current@) =~= cur0.push(x));
        if current.len() >= merge_threshold {
            let full = current;
            current = Vec::new();
            batches.push(full);
            assert(batches_view(batches@) =~= bv0.push(cur0.push(x)));
        } else {
            assert(batches_view(batches@) =~= bv0);
        }
        k += 1;
        sequence = sequence + 1;
    }
    if current.len() > 0 {
        batches.push(current);
    }
    assert(all.take(k as int) =~= all);
    assert(batches_view(batches@) =~= chunks(all, b));
    batches
}

/// Batches lose nothing and add nothing: laid end to end they give back
/// the segments, each batch holds at least one and at most `b`, and every
/// batch but the last holds exactly `b`.
pub proof fn lemma_chunks_partition<A>(s: Seq<A>, b: nat)
    requires
        b > 0,
    ensures
        chunks(s, b).flatten() == s,
        forall|i: int| 0 <= i < chunks(s, b).len() ==> 0 < (#[trigger] chunks(s, b)[i]).len() <= b,
        forall|i: int| 0 <= i < chunks(s, b).len() - 1 ==> (#[trigger] chunks(s, b)[i]).len() == b,
    decreases s.len(),
{
    if s.len() == 0 {
    } else if s.len() <= b {
        assert(seq![s].flatten() =~= s + seq![s].drop_first().flatten());
        assert(seq![s].drop_first() =~= Seq::<Seq<A>>::empty());
    } else {
        let rest = chunks(s.skip(b as int), b);
        lemma_chunks_partition(s.skip(b as int), b);
        let c = seq![s.take(b as int)] + rest;
        assert(c.drop_first() =~= rest);
        assert(c.flatten() == s.take(b as int) + rest.flatten());
        assert(s.take(b as int) + s.skip(b as int) =~= s);
        assert forall|i: int| 0 < i < c.len() implies c[i] == rest[i - 1] by {}
    }
}

// ---------------------------------------------------------------------------
// Live streams
// ---------------------------------------------------------------------------

/// Pushes `item` and, when that makes more than `max`, drops the oldest.
pub fn push_capped<T>(v: &mut Vec<T>, item: T, max: usize)
    ensures
        final(v)@ == (if old(v)@.len() + 1 > max {
            old(v)@.push(item).drop_first()
        } else {
            old(v)@.push(item)
        }),
{
    v.push(item);
    if v.len() > max {
        v.remove(0);
    }
}

/// Numbers the segments of a live stream as they come and gathers them into
/// batches to merge.
#[derive(Debug)]
pub struct LiveBatcher {
    current_sequence: u64,
    batch: Vec<SegmentMergeInfo>,
}

impl LiveBatcher {
    pub closed spec fn sequence_spec(&self) -> u64 {
        self.current_sequence
    }

    pub closed spec fn batch_spec(&self) -> Seq<(u64, Seq<char>)> {
        infos_view(self.batch@)
    }

    /// The number the next segment gets.
    pub fn sequence(&self) -> (r: u64)
        ensures
            r == self.sequence_spec(),
    {
        self.current_sequence
    }

    /// Numbering starts at 0 with nothing gathered.
    pub fn new() -> (r: Self)
        ensures
            r.sequence_spec() == 0,
            r.batch_spec() == Seq::<(u64, Seq<char>)>::empty(),
    {
        let r = LiveBatcher { current_sequence: 0, batch: Vec::new() };
        assert(r.batch_spec() =~= Seq::<(u64, Seq<char>)>::empty());
        r
    }

    /// Takes the next segment: it gets the current number, and once the
    /// batch holds `merge_threshold` segments the batch is handed out to be
    /// merged and a new one begins.
    pub fn add(&mut self, url: String, merge_threshold: usize) -> (r: Option<Vec<SegmentMergeInfo>>)
        requires
            old(self).sequence_spec() < u64::MAX,
        ensures
            final(self).sequence_spec() == old(self).sequence_spec() + 1,
            ({
                let b = old(self).batch_spec().push((old(self).sequence_spec(), url@));
                if b.len() >= merge_threshold {
                    r matches Some(v) && infos_view(v@) == b && final(self).batch_spec()
                        == Seq::<(u64, Seq<char>)>::empty()
                } else {
                    r is None && final(self).batch_spec() == b
                }
            }),
    {
        let ghost b0 = infos_view(self.batch@);
        let ghost uv = url@;
        self.batch.push(SegmentMergeInfo { sequence: self.current_sequence, url });
        assert(infos_view(self.batch@) =~= b0.push((old(self).current_sequence, uv)));
        self.current_sequence = self.current_sequence + 1;
        if self.batch.len() >= merge_threshold {
            let mut full: Vec<SegmentMergeInfo> = Vec::new();
            std::mem::swap(&mut full, &mut self.batch);
            assert(infos_view(self.batch@) =~= Seq::<(u64, Seq<char>)>::empty());
            Some(full)
        } else {
            None
        }
    }
}

/// The segment URLs of a live stream already fetched, the newest last, and
/// the highest media sequence seen.
#[derive(Debug)]
pub struct LiveWindow {
    urls: Vec<String>,
    current_sequence: u64,
}

impl LiveWindow {
    pub closed spec fn urls_spec(&self) -> Seq<Seq<char>> {
        strs_view(self.urls@)
    }

    pub closed spec fn sequence_spec(&self) -> u64 {
        self.current_sequence
    }

    /// No URL is in the window twice.
    pub open spec fn wf(&self) -> bool {
        self.urls_spec().no_duplicates()
    }

    pub fn new() -> (r: Self)
        ensures
            r.wf(),
            r.urls_spec() == Seq::<Seq<char>>::empty(),
            r.sequence_spec() == 0,
    {
        let r = LiveWindow { urls: Vec::new(), current_sequence: 0 };
        assert(r.urls_spec() =~= Seq::<Seq<char>>::empty());
        r
    }

    /// Takes `url` into the window unless it is there: the result says
    /// whether it is new (and so is to be fetched).
    pub fn take_new(&mut self, url: &str) -> (r: bool)
        requires
            old(self).wf(),
        ensures
            final(self).wf(),
            r == !old(self).urls_spec().contains(url@),
            final(self).urls_spec() == (if r {
                old(self).urls_spec().push(url@)
            } else {
                old(self).urls_spec()
            }),
            final(self).sequence_spec() == old(self).sequence_spec(),
    {
        let ghost w = strs_view(self.urls@);
        let u = string_from_chars(&chars_of(url));
        let mut i: usize = 0;
        while i < self.urls.len()
            invariant
                0 <= i <= self.urls@.len(),
                w == strs_view(self.urls@),
                w.no_duplicates(),
                u@ == url@,
                forall|j: int| 0 <= j < i ==> w[j] != url@,
            decreases self.urls@.len() - i,
        {
            assert(w[i as int] == self.urls@[i as int]@);
            if self.urls[i] == u {
                return false;
            }
            i += 1;
        }
        assert(!w.contains(url@));
        self.urls.push(u);
        assert(strs_view(self.urls@) =~= w.push(url@));
        true
    }

    /// Keeps only the newest `max` URLs.
    pub fn trim(&mut self, max: usize)
        requires
            old(self).wf(),
        ensures
            final(self).wf(),
            final(self).urls_spec() == (if old(self).urls_spec().len() > max {
                old(self).urls_spec().skip(old(self).urls_spec().len() - max)
            } else {
                old(self).urls_spec()
            }),
            final(self).urls_spec().len() <= max,
            final(self).sequence_spec() == old(self).sequence_spec(),
    {
        let n = self.urls.len();
        if n > max {
            let ghost w = strs_view(self.urls@);
            let mut kept: Vec<String> = Vec::new();
            let mut i: usize = n - max;
            while i < n
                invariant
                    n > max,
                    n - max <= i <= n,
                    n == self.urls@.len(),
                    w == strs_view(self.urls@),
                    w.len() == n,
                    strs_view(kept@) == w.subrange(n - max, i as int),
                decreases n - i,
            {
                let ghost k0 = strs_view(kept@);
                let s = self.urls[i].clone();
                assert(s@ == w[i as int]);
                kept.push(s);
                assert(strs_view(kept@) =~= k0.push(w[i as int]));
                assert(w.subrange(n - max, i + 1) =~= w.subrange(n - max, i as int).push(w[i as int]));
                i += 1;
            }
            self.urls = kept;
            assert(w.subrange(n - max, n as int) =~= w.skip(n - max));
            assert forall|a: int, b: int|
                0 <= a < b < self.urls_spec().len() implies self.urls_spec()[a] != self.urls_spec()[b] by {
                assert(self.urls_spec()[a] == w[a + n - max]);
                assert(self.urls_spec()[b] == w[b + n - max]);
            }
        }
    }

    /// Notes the media sequence of the latest playlist: the window keeps the
    /// highest seen.
    pub fn note_sequence(&mut self, media_sequence: u64)
        ensures
            final(self).sequence_spec() == if media_sequence > old(self).sequence_spec() {
                media_sequence
            } else {
                old(self).sequence_spec()
            },
            final(self).urls_spec() == old(self).urls_spec(),
    {
        if media_sequence > self.current_sequence {
            self.current_sequence = media_sequence;
        }
    }
}

} // verus!
