//! Reading HLS playlists, and the state kept about the playlists read.
use crate::error::PluginError;
use crate::external::{from_utf8_lossy, utc_now_millis, utf8_lossy};
use crate::plugins::hls::types::{
    opt_view, segments_view, variants_view, PlaylistInfo, PlaylistInfoView, PlaylistType, Segment,
    SegmentView, Variant, VariantView,
};
use crate::text::{
    before_first, chars_of, float_text, has_prefix, is_float_text, lines, parse_u32,
    parse_u32_spec, parse_u64, parse_u64_spec, slice_chars, split_char, split_lines, split_on,
    starts_with, string_from_chars, take_before_first, trim, trim_chars,
};
use crate::utils::{hash_url, hash_url_spec, resolvable, resolve_spec, resolve_url, try_resolve_url};
use vstd::prelude::*;

verus! {

// ---------------------------------------------------------------------------
// The playlist grammar
// ---------------------------------------------------------------------------

/// What the reader carries from one line to the next.
pub struct ParseState {
    pub variants: Seq<VariantView>,
    pub segments: Seq<SegmentView>,
    pub target: Option<Seq<char>>,
    pub media_seq: Option<u32>,
    pub dur: Option<Seq<char>>,
    pub bw: Option<u64>,
    pub res: Option<Seq<char>>,
    pub master: bool,
}

pub open spec fn initial_state() -> ParseState {
    ParseState {
        variants: Seq::empty(),
        segments: Seq::empty(),
        target: None,
        media_seq: None,
        dur: None,
        bw: None,
        res: None,
        master: false,
    }
}

/// `Some(s)` when `s` parses as an `f32`.
pub open spec fn float_opt(s: Seq<char>) -> Option<Seq<char>> {
    if float_text(s) {
        Some(s)
    } else {
        None
    }
}

/// One attribute of an `#EXT-X-STREAM-INF:` line.
pub open spec fn apply_attr(st: ParseState, attr: Seq<char>) -> ParseState {
    let a = trim(attr);
    if has_prefix(a, "BANDWIDTH="@) {
        ParseState { bw: parse_u64_spec(a.skip("BANDWIDTH="@.len() as int)), ..st }
    } else if has_prefix(a, "RESOLUTION="@) {
        ParseState { res: Some(a.skip("RESOLUTION="@.len() as int)), ..st }
    } else {
        st
    }
}

/// The attributes of an `#EXT-X-STREAM-INF:` line, left to right.
pub open spec fn apply_attrs(st: ParseState, attrs: Seq<Seq<char>>) -> ParseState
    decreases attrs.len(),
{
    if attrs.len() == 0 {
        st
    } else {
        apply_attr(apply_attrs(st, attrs.drop_last()), attrs.last())
    }
}

/// A line that names a variant or segment: not empty, not starting with `#`.
pub open spec fn is_url_line(l: Seq<char>) -> bool {
    l.len() > 0 && l[0] != '#'
}

/// The effect of one playlist line.
pub open spec fn step(st: ParseState, line: Seq<char>, uri: Seq<char>) -> ParseState {
    if has_prefix(line, "#EXT-X-STREAM-INF:"@) {
        apply_attrs(
            ParseState { master: true, ..st },
            split_char(line.skip("#EXT-X-STREAM-INF:"@.len() as int), ','),
        )
    } else if has_prefix(line, "#EXT-X-TARGETDURATION:"@) {
        ParseState { target: float_opt(line.skip("#EXT-X-TARGETDURATION:"@.len() as int)), ..st }
    } else if has_prefix(line, "#EXT-X-MEDIA-SEQUENCE:"@) {
        ParseState {
            media_seq: parse_u32_spec(line.skip("#EXT-X-MEDIA-SEQUENCE:"@.len() as int)),
            ..st
        }
    } else if has_prefix(line, "#EXTINF:"@) {
        ParseState { dur: float_opt(before_first(line.skip("#EXTINF:"@.len() as int), ',')), ..st }
    } else if is_url_line(line) {
        let url = resolve_spec(uri, trim(line));
        if st.master {
            ParseState {
                variants: st.variants.push(
                    VariantView {
                        bandwidth: match st.bw {
                            Some(b) => b,
                            None => 0,
                        },
                        resolution: st.res,
                        url: url,
                        hash: hash_url_spec(url),
                    },
                ),
                res: None,
                ..st
            }
        } else if st.dur is Some {
            ParseState {
                segments: st.segments.push(
                    SegmentView {
                        sequence: st.segments.len() as u32,
                        duration: st.dur->Some_0,
                        url: url,
                        size: None,
                        cached: false,
                        downloading: false,
                        bytes_downloaded: 0,
                    },
                ),
                dur: None,
                ..st
            }
        } else {
            st
        }
    } else {
        st
    }
}

/// The lines read in order.
pub open spec fn run(st: ParseState, ls: Seq<Seq<char>>, uri: Seq<char>) -> ParseState
    decreases ls.len(),
{
    if ls.len() == 0 {
        st
    } else {
        step(run(st, ls.drop_last(), uri), ls.last(), uri)
    }
}

/// Every variant or segment line of `text` can be resolved against `uri`.
pub open spec fn lines_resolvable(text: Seq<char>, uri: Seq<char>) -> bool {
    forall|i: int|
        0 <= i < lines(text).len() && is_url_line(#[trigger] lines(text)[i]) ==> resolvable(
            uri,
            trim(lines(text)[i]),
        )
}

/// The playlist that `text`, read from `uri` at time `now`, describes; `None`
/// when it does not start with `#EXTM3U`.
pub open spec fn parse_text_spec(text: Seq<char>, uri: Seq<char>, now: i64) -> Option<PlaylistInfoView> {
    if !has_prefix(text, "#EXTM3U"@) {
        None
    } else {
        let st = run(initial_state(), lines(text), uri);
        Some(
            PlaylistInfoView {
                url: uri,
                hash: hash_url_spec(uri),
                playlist_type: if st.master {
                    PlaylistType::Master
                } else {
                    PlaylistType::Media
                },
                last_modified: now,
                target_duration: st.target,
                media_sequence: st.media_seq,
                variants: st.variants,
                segments: st.segments,
            },
        )
    }
}

/// The error for a playlist without its header.
pub open spec fn is_missing_header_error(e: PluginError) -> bool {
    e matches PluginError::Hls(m) && m@ == "Invalid M3U8 format: missing #EXTM3U tag"@
}

// ---------------------------------------------------------------------------
// The reader
// ---------------------------------------------------------------------------

struct Cursor {
    variants: Vec<Variant>,
    segments: Vec<Segment>,
    target: Option<String>,
    media_seq: Option<u32>,
    dur: Option<String>,
    bw: Option<u64>,
    res: Option<String>,
    master: bool,
}

impl View for Cursor {
    type V = ParseState;

    closed spec fn view(&self) -> ParseState {
        ParseState {
            variants: variants_view(self.variants@),
            segments: segments_view(self.segments@),
            target: opt_view(self.target),
            media_seq: self.media_seq,
            dur: opt_view(self.dur),
            bw: self.bw,
            res: opt_view(self.res),
            master: self.master,
        }
    }
}

fn float_text_opt(s: &[char]) -> (r: Option<String>)
    ensures
        opt_view(r) == float_opt(s@),
{
    if is_float_text(s) {
        Some(string_from_chars(s))
    } else {
        None
    }
}

fn apply_attr_exec(cur: &mut Cursor, attr: &[char])
    ensures
        final(cur)@ == apply_attr(old(cur)@, attr@),
{
    let a = trim_chars(attr);
    let bwp = chars_of("BANDWIDTH=");
    let resp = chars_of("RESOLUTION=");
    if starts_with(&a, &bwp) {
        let rest = slice_chars(&a, bwp.len(), a.len());
        assert(rest@ =~= a@.skip("BANDWIDTH="@.len() as int));
        cur.bw = parse_u64(&rest);
    } else if starts_with(&a, &resp) {
        let rest = slice_chars(&a, resp.len(), a.len());
        assert(rest@ =~= a@.skip("RESOLUTION="@.len() as int));
        cur.res = Some(string_from_chars(&rest));
    }
}

/// The rest of `line` after a prefix that it starts with.
fn rest_after(line: &[char], prefix: &Vec<char>) -> (r: Vec<char>)
    requires
        has_prefix(line@, prefix@),
    ensures
        r@ == line@.skip(prefix@.len() as int),
{
    let r = slice_chars(line, prefix.len(), line.len());
    assert(r@ =~= line@.skip(prefix@.len() as int));
    r
}

fn apply_line(cur: &mut Cursor, line: &[char], uri: &str)
    requires
        is_url_line(line@) ==> resolvable(uri@, trim(line@)),
    ensures
        final(cur)@ == step(old(cur)@, line@, uri@),
{
    let stream = chars_of("#EXT-X-STREAM-INF:");
    let target = chars_of("#EXT-X-TARGETDURATION:");
    let mseq = chars_of("#EXT-X-MEDIA-SEQUENCE:");
    let extinf = chars_of("#EXTINF:");
    if starts_with(line, &stream) {
        let rest = rest_after(line, &stream);
        let attrs = split_on(&rest, ',');
        cur.master = true;
        let ghost start = cur@;
        let ghost av = split_char(rest@, ',');
        let mut i: usize = 0;
        while i < attrs.len()
            invariant
                0 <= i <= attrs@.len(),
                attrs@.len() == av.len(),
                forall|k: int| 0 <= k < attrs@.len() ==> (#[trigger] attrs@[k])@ == av[k],
                cur@ == apply_attrs(start, av.take(i as int)),
            decreases attrs@.len() - i,
        {
            apply_attr_exec(cur, &attrs[i]);
            proof {
                assert(av.take(i + 1).drop_last() =~= av.take(i as int));
            }
            i += 1;
        }
        assert(av.take(i as int) =~= av);
    } else if starts_with(line, &target) {
        let rest = rest_after(line, &target);
        cur.target = float_text_opt(&rest);
    } else if starts_with(line, &mseq) {
        let rest = rest_after(line, &mseq);
        cur.media_seq = parse_u32(&rest);
    } else if starts_with(line, &extinf) {
        let rest = rest_after(line, &extinf);
        let d = take_before_first(&rest, ',');
        cur.dur = float_text_opt(&d);
    } else if line.len() > 0 && line[0] != '#' {
        let t = trim_chars(line);
        let ts = string_from_chars(&t);
        let url = resolve_url(uri, ts.as_str());
        if cur.master {
            let h = hash_url(url.as_str());
            let bandwidth = match cur.bw {
                Some(b) => b,
                None => 0,
            };
            let resolution = cur.res.take();
            cur.variants.push(Variant { bandwidth, resolution, url, hash: h });
            assert(cur@.variants =~= old(cur)@.variants.push(cur.variants@.last()@));
        } else {
            match cur.dur.take() {
                Some(d) => {
                    let seq = cur.segments.len() as u32;
                    cur.segments.push(
                        Segment {
                            sequence: seq,
                            duration: d,
                            url,
                            size: None,
                            cached: false,
                            downloading: false,
                            bytes_downloaded: 0,
                        },
                    );
                    assert(cur@.segments =~= old(cur)@.segments.push(cur.segments@.last()@));
                },
                None => {},
            }
        }
    }
}

/// Reads the lines of `text` in order.
fn read_lines(text: &[char], uri: &str) -> (r: Cursor)
    requires
        lines_resolvable(text@, uri@),
    ensures
        r@ == run(initial_state(), lines(text@), uri@),
{
    let ls = split_lines(text);
    let ghost lv = lines(text@);
    let mut cur = Cursor {
        variants: Vec::new(),
        segments: Vec::new(),
        target: None,
        media_seq: None,
        dur: None,
        bw: None,
        res: None,
        master: false,
    };
    assert(cur@ == initial_state()) by {
        assert(variants_view(cur.variants@) =~= Seq::<VariantView>::empty());
        assert(segments_view(cur.segments@) =~= Seq::<SegmentView>::empty());
    }
    let mut i: usize = 0;
    while i < ls.len()
        invariant
            0 <= i <= ls@.len(),
            ls@.len() == lv.len(),
            lv == lines(text@),
            lines_resolvable(text@, uri@),
            forall|k: int| 0 <= k < ls@.len() ==> (#[trigger] ls@[k])@ == lv[k],
            cur@ == run(initial_state(), lv.take(i as int), uri@),
        decreases ls@.len() - i,
    {
        assert(ls@[i as int]@ == lv[i as int]);
        apply_line(&mut cur, &ls[i], uri);
        proof {
            assert(lv.take(i + 1).drop_last() =~= lv.take(i as int));
        }
        i += 1;
    }
    assert(lv.take(i as int) =~= lv);
    cur
}

/// Reads an HLS playlist downloaded from `uri` at time `now` (milliseconds
/// since the Unix epoch). The bytes are read as UTF-8 (invalid sequences replaced);
/// text that does not start with `#EXTM3U` is refused.
pub fn parse_playlist_at(content: &[u8], uri: &str, now: i64) -> (r: Result<PlaylistInfo, PluginError>)
    requires
        has_prefix(utf8_lossy(content@), "#EXTM3U"@) ==> lines_resolvable(utf8_lossy(content@), uri@),
    ensures
        match r {
            Ok(info) => parse_text_spec(utf8_lossy(content@), uri@, now) == Some(info@),
            Err(e) => parse_text_spec(utf8_lossy(content@), uri@, now) is None
                && is_missing_header_error(e),
        },
{
    let text = from_utf8_lossy(content);
    let tc = chars_of(text.as_str());
    let header = chars_of("#EXTM3U");
    if !starts_with(&tc, &header) {
        let m = chars_of("Invalid M3U8 format: missing #EXTM3U tag");
        return Err(PluginError::Hls(string_from_chars(&m)));
    }
    let cur = read_lines(&tc, uri);
    let playlist_type = if cur.master {
        PlaylistType::Master
    } else {
        PlaylistType::Media
    };
    let url = string_from_chars(&chars_of(uri));
    let hash = hash_url(uri);
    Ok(
        PlaylistInfo {
            url,
            hash,
            playlist_type,
            last_modified: now,
            target_duration: cur.target,
            media_sequence: cur.media_seq,
            variants: cur.variants,
            segments: cur.segments,
        },
    )
}

/// Whether every variant or segment line of `content` can be resolved
/// against `uri`.
pub fn check_lines_resolvable(content: &[u8], uri: &str) -> (r: bool)
    ensures
        r == lines_resolvable(utf8_lossy(content@), uri@),
{
    let text = from_utf8_lossy(content);
    let tc = chars_of(text.as_str());
    let ls = split_lines(&tc);
    let ghost lv = lines(tc@);
    let mut i: usize = 0;
    while i < ls.len()
        invariant
            0 <= i <= ls@.len(),
            ls@.len() == lv.len(),
            lv == lines(tc@),
            tc@ == utf8_lossy(content@),
            forall|k: int| 0 <= k < ls@.len() ==> (#[trigger] ls@[k])@ == lv[k],
            forall|k: int|
                0 <= k < i && is_url_line(#[trigger] lv[k]) ==> resolvable(uri@, trim(lv[k])),
        decreases ls@.len() - i,
    {
        let l = &ls[i];
        if l.len() > 0 && l[0] != '#' {
            let t = trim_chars(l);
            let ts = string_from_chars(&t);
            match try_resolve_url(uri, ts.as_str()) {
                Some(_) => {},
                None => {
                    assert(is_url_line(lv[i as int]));
                    return false;
                },
            }
        }
        i += 1;
    }
    true
}

} // verus!

verus! {

// ---------------------------------------------------------------------------
// Reading with the clock, and reading any input
// ---------------------------------------------------------------------------

/// Reads an HLS playlist downloaded from `uri`, stamped with the current time.
/// Apart from the time stamp, the result is that of `parse_playlist_at`.
pub fn parse_playlist(content: &[u8], uri: &str) -> (r: Result<PlaylistInfo, PluginError>)
    requires
        has_prefix(utf8_lossy(content@), "#EXTM3U"@) ==> lines_resolvable(utf8_lossy(content@), uri@),
    ensures
        match r {
            Ok(info) => parse_text_spec(utf8_lossy(content@), uri@, info.last_modified) == Some(info@),
            Err(e) => !has_prefix(utf8_lossy(content@), "#EXTM3U"@) && is_missing_header_error(e),
        },
{
    let now = utc_now_millis();
    parse_playlist_at(content, uri, now)
}

/// `parse_playlist` on any input: `None` where a variant or segment line
/// cannot be resolved against `uri` (there `parse_playlist` has no answer).
pub fn try_parse_playlist(content: &[u8], uri: &str) -> (r: Option<Result<PlaylistInfo, PluginError>>)
    ensures
        match r {
            None => has_prefix(utf8_lossy(content@), "#EXTM3U"@) && !lines_resolvable(
                utf8_lossy(content@),
                uri@,
            ),
            Some(Ok(info)) => parse_text_spec(utf8_lossy(content@), uri@, info.last_modified) == Some(
                info@,
            ),
            Some(Err(e)) => !has_prefix(utf8_lossy(content@), "#EXTM3U"@) && is_missing_header_error(
                e,
            ),
        },
{
    let text = from_utf8_lossy(content);
    let tc = chars_of(text.as_str());
    let header = chars_of("#EXTM3U");
    if starts_with(&tc, &header) && !check_lines_resolvable(content, uri) {
        return None;
    }
    Some(parse_playlist(content, uri))
}

// ---------------------------------------------------------------------------
// The playlists kept
// ---------------------------------------------------------------------------

/// No two playlists share a hash.
pub open spec fn unique_hashes(s: Seq<PlaylistInfoView>) -> bool {
    forall|i: int, j: int| 0 <= i < s.len() && 0 <= j < s.len() && i != j ==> s[i].hash != s[j].hash
}

/// The playlist kept under hash `h`, if any.
pub open spec fn lookup(s: Seq<PlaylistInfoView>, h: Seq<char>) -> Option<PlaylistInfoView> {
    if exists|i: int| 0 <= i < s.len() && (#[trigger] s[i]).hash == h {
        Some(s[choose|i: int| 0 <= i < s.len() && (#[trigger] s[i]).hash == h])
    } else {
        None
    }
}

/// `s` with `info` stored under its hash, in place of a playlist with that
/// hash or else at the end.
pub open spec fn store_spec(s: Seq<PlaylistInfoView>, info: PlaylistInfoView) -> Seq<PlaylistInfoView> {
    if exists|i: int| 0 <= i < s.len() && (#[trigger] s[i]).hash == info.hash {
        s.update(choose|i: int| 0 <= i < s.len() && (#[trigger] s[i]).hash == info.hash, info)
    } else {
        s.push(info)
    }
}

/// Playlists read within the last hour are kept by `cleanup`.
pub open spec fn is_fresh(p: PlaylistInfoView, now: i64) -> bool {
    now - p.last_modified < 3_600_000
}

/// A playlist with only its last 10 segments.
pub open spec fn keep_last_segments(p: PlaylistInfoView) -> PlaylistInfoView {
    if p.segments.len() > 10 {
        PlaylistInfoView { segments: p.segments.skip(p.segments.len() - 10), ..p }
    } else {
        p
    }
}

/// What `cleanup` leaves: the fresh playlists, in order, each with at most its
/// last 10 segments.
pub open spec fn cleanup_spec(s: Seq<PlaylistInfoView>, now: i64) -> Seq<PlaylistInfoView>
    decreases s.len(),
{
    if s.len() == 0 {
        Seq::empty()
    } else {
        let rest = cleanup_spec(s.drop_last(), now);
        if is_fresh(s.last(), now) {
            rest.push(keep_last_segments(s.last()))
        } else {
            rest
        }
    }
}

pub open spec fn count_cached(segs: Seq<SegmentView>) -> nat
    decreases segs.len(),
{
    if segs.len() == 0 {
        0
    } else {
        count_cached(segs.drop_last()) + if segs.last().cached {
            1nat
        } else {
            0nat
        }
    }
}

pub open spec fn count_downloading(segs: Seq<SegmentView>) -> nat
    decreases segs.len(),
{
    if segs.len() == 0 {
        0
    } else {
        count_downloading(segs.drop_last()) + if segs.last().downloading {
            1nat
        } else {
            0nat
        }
    }
}

pub open spec fn total_segments(s: Seq<PlaylistInfoView>) -> nat
    decreases s.len(),
{
    if s.len() == 0 {
        0
    } else {
        total_segments(s.drop_last()) + s.last().segments.len()
    }
}

pub open spec fn total_cached(s: Seq<PlaylistInfoView>) -> nat
    decreases s.len(),
{
    if s.len() == 0 {
        0
    } else {
        total_cached(s.drop_last()) + count_cached(s.last().segments)
    }
}

pub open spec fn total_downloading(s: Seq<PlaylistInfoView>) -> nat
    decreases s.len(),
{
    if s.len() == 0 {
        0
    } else {
        total_downloading(s.drop_last()) + count_downloading(s.last().segments)
    }
}

/// The playlist holds a segment with this URL.
pub open spec fn has_segment_url(p: PlaylistInfoView, url: Seq<char>) -> bool {
    exists|k: int| 0 <= k < p.segments.len() && (#[trigger] p.segments[k]).url == url
}

/// Counts over the playlists kept.
#[derive(Debug, Clone, Copy)]
pub struct PlaylistStats {
    pub total_playlists: usize,
    pub total_segments: usize,
    pub cached_segments: usize,
    pub downloading_segments: usize,
}

/// The playlists read, keyed by the hash of their URL.
#[derive(Debug)]
pub struct HLSState {
    playlists: Vec<PlaylistInfo>,
}

impl HLSState {
    pub closed spec fn entries(&self) -> Seq<PlaylistInfoView> {
        self.playlists@.map_values(|p: PlaylistInfo| p@)
    }
}

impl Default for HLSState {
    fn default() -> (r: Self)
        ensures
            r.entries() == Seq::<PlaylistInfoView>::empty(),
    {
        let r = HLSState { playlists: Vec::new() };
        assert(r.entries() =~= Seq::<PlaylistInfoView>::empty());
        r
    }
}

/// Keeps what is known of the playlists read.
#[derive(Debug)]
pub struct PlaylistManager {
    state: HLSState,
}

impl PlaylistManager {
    /// The playlists kept, in the order they were first stored.
    pub closed spec fn playlists(&self) -> Seq<PlaylistInfoView> {
        self.state.entries()
    }

    /// No two playlists kept share a hash.
    pub open spec fn wf(&self) -> bool {
        unique_hashes(self.playlists())
    }

    /// A manager that keeps no playlist.
    pub fn new() -> (r: Self)
        ensures
            r.wf(),
            r.playlists() == Seq::<PlaylistInfoView>::empty(),
    {
        PlaylistManager { state: HLSState::default() }
    }

    /// Reads a playlist (see `parse_playlist_at`).
    pub fn parse_playlist(&self, content: &[u8], uri: &str, now: i64) -> (r: Result<PlaylistInfo, PluginError>)
        requires
            has_prefix(utf8_lossy(content@), "#EXTM3U"@) ==> lines_resolvable(utf8_lossy(content@), uri@),
        ensures
            match r {
                Ok(info) => parse_text_spec(utf8_lossy(content@), uri@, now) == Some(info@),
                Err(e) => parse_text_spec(utf8_lossy(content@), uri@, now) is None
                    && is_missing_header_error(e),
            },
    {
        parse_playlist_at(content, uri, now)
    }

    fn find_hash(&self, h: &String) -> (r: Option<usize>)
        ensures
            match r {
                Some(i) => i < self.playlists().len() && self.playlists()[i as int].hash == h@,
                None => forall|i: int|
                    0 <= i < self.playlists().len() ==> (#[trigger] self.playlists()[i]).hash != h@,
            },
    {
        let mut i: usize = 0;
        while i < self.state.playlists.len()
            invariant
                0 <= i <= self.state.playlists@.len(),
                self.playlists() == self.state.playlists@.map_values(|p: PlaylistInfo| p@),
                forall|k: int| 0 <= k < i ==> (#[trigger] self.playlists()[k]).hash != h@,
            decreases self.state.playlists@.len() - i,
        {
            if self.state.playlists[i].hash == *h {
                return Some(i);
            }
            i += 1;
        }
        None
    }

    /// Stores `info` under its hash, replacing what was kept under it.
    pub fn update_playlist_state(&mut self, info: PlaylistInfo)
        requires
            old(self).wf(),
        ensures
            final(self).wf(),
            final(self).playlists() == store_spec(old(self).playlists(), info@),
    {
        let ghost s = self.playlists();
        let ghost iv = info@;
        match self.find_hash(&info.hash) {
            Some(i) => {
                proof {
                    let j = choose|j: int| 0 <= j < s.len() && (#[trigger] s[j]).hash == iv.hash;
                    assert(s[i as int].hash == iv.hash);
                    assert(j == i);
                }
                self.state.playlists.set(i, info);
                assert(self.playlists() =~= s.update(i as int, iv));
            },
            None => {
                self.state.playlists.push(info);
                assert(self.playlists() =~= s.push(iv));
            },
        }
    }

    /// Copies of all the playlists kept, in order (what is saved as the
    /// state).
    pub fn snapshot(&self) -> (r: Vec<PlaylistInfo>)
        ensures
            r@.map_values(|p: PlaylistInfo| p@) == self.playlists(),
    {
        let mut out: Vec<PlaylistInfo> = Vec::new();
        let mut i: usize = 0;
        while i < self.state.playlists.len()
            invariant
                0 <= i <= self.state.playlists@.len(),
                out@.map_values(|p: PlaylistInfo| p@) == self.playlists().take(i as int),
            decreases self.state.playlists@.len() - i,
        {
            let p = self.state.playlists[i].duplicate();
            let ghost before = out@.map_values(|p: PlaylistInfo| p@);
            out.push(p);
            assert(out@.map_values(|p: PlaylistInfo| p@) =~= before.push(p@));
            assert(self.playlists()[i as int] == self.state.playlists@[i as int]@);
            assert(self.playlists().take(i + 1) =~= self.playlists().take(i as int).push(self.playlists()[i as int]));
            i += 1;
        }
        assert(self.playlists().take(i as int) =~= self.playlists());
        out
    }

    /// What is kept of the playlist at `uri`, found by the URL's hash.
    pub fn get_playlist_info(&self, uri: &str) -> (r: Option<PlaylistInfo>)
        requires
            self.wf(),
        ensures
            match r {
                Some(p) => lookup(self.playlists(), hash_url_spec(uri@)) == Some(p@),
                None => lookup(self.playlists(), hash_url_spec(uri@)) is None,
            },
    {
        let h = hash_url(uri);
        let ghost s = self.playlists();
        match self.find_hash(&h) {
            Some(i) => {
                proof {
                    let j = choose|j: int| 0 <= j < s.len() && (#[trigger] s[j]).hash == h@;
                    assert(s[i as int].hash == h@);
                    assert(j == i);
                }
                Some(self.state.playlists[i].duplicate())
            },
            None => None,
        }
    }

    /// Forgets the playlists read an hour or more before `now` (milliseconds
    /// since the Unix epoch) and keeps only the last 10 segments of the others.
    pub fn cleanup(&mut self, now: i64)
        requires
            old(self).wf(),
        ensures
            final(self).wf(),
            final(self).playlists() == cleanup_spec(old(self).playlists(), now),
    {
        let ghost s = self.playlists();
        let mut old_list: Vec<PlaylistInfo> = Vec::new();
        std::mem::swap(&mut old_list, &mut self.state.playlists);
        assert(old_list@.map_values(|p: PlaylistInfo| p@) == s);
        let mut kept: Vec<PlaylistInfo> = Vec::new();
        let mut i: usize = 0;
        let mut rest = old_list;
        let ghost all = rest@;
        while i < rest.len()
            invariant
                0 <= i <= rest@.len(),
                rest@ == all,
                all.map_values(|p: PlaylistInfo| p@) == s,
                kept@.map_values(|p: PlaylistInfo| p@) == cleanup_spec(s.take(i as int), now),
            decreases rest@.len() - i,
        {
            let p = rest[i].duplicate();
            let fresh = (now as i128) - (p.last_modified as i128) < 3_600_000;
            let ghost before = kept@;
            proof {
                assert(s.take(i + 1).drop_last() =~= s.take(i as int));
                assert(s.take(i + 1).last() == p@);
            }
            if fresh {
                let mut q = p;
                if q.segments.len() > 10 {
                    let n = q.segments.len();
                    let mut segs: Vec<Segment> = Vec::new();
                    let mut k: usize = n - 10;
                    while k < n
                        invariant
                            n == q.segments@.len(),
                            n > 10,
                            n - 10 <= k <= n,
                            segments_view(segs@) == segments_view(q.segments@).subrange(
                                n - 10,
                                k as int,
                            ),
                        decreases n - k,
                    {
                        let v = q.segments[k].duplicate();
                        let ghost b = segs@;
                        segs.push(v);
                        assert(segments_view(segs@) =~= segments_view(b).push(v@));
                        k += 1;
                        assert(segments_view(segs@) =~= segments_view(q.segments@).subrange(
                            n - 10,
                            k as int,
                        ));
                    }
                    let ghost qv = q@;
                    q.segments = segs;
                    assert(q@ =~= keep_last_segments(qv)) by {
                        assert(segments_view(q.segments@) =~= qv.segments.skip(qv.segments.len() - 10));
                    }
                } else {
                    assert(q@ == keep_last_segments(q@));
                }
                kept.push(q);
                assert(kept@.map_values(|p: PlaylistInfo| p@) =~= before.map_values(
                    |p: PlaylistInfo| p@,
                ).push(keep_last_segments(p@)));
            } else {
                assert(!is_fresh(p@, now));
            }
            i += 1;
        }
        assert(s.take(i as int) =~= s);
        self.state.playlists = kept;
        proof {
            lemma_cleanup_unique(s, now);
        }
    }

    /// Counts of playlists and of their segments.
    pub fn get_stats(&self) -> (r: PlaylistStats)
        requires
            total_segments(self.playlists()) <= usize::MAX,
        ensures
            r.total_playlists == self.playlists().len(),
            r.total_segments == total_segments(self.playlists()),
            r.cached_segments == total_cached(self.playlists()),
            r.downloading_segments == total_downloading(self.playlists()),
    {
        let ghost s = self.playlists();
        let mut total: usize = 0;
        let mut cached: usize = 0;
        let mut downloading: usize = 0;
        let mut i: usize = 0;
        while i < self.state.playlists.len()
            invariant
                0 <= i <= self.state.playlists@.len(),
                s == self.state.playlists@.map_values(|p: PlaylistInfo| p@),
                total_segments(s) <= usize::MAX,
                total == total_segments(s.take(i as int)),
                cached == total_cached(s.take(i as int)),
                downloading == total_downloading(s.take(i as int)),
            decreases self.state.playlists@.len() - i,
        {
            let p = &self.state.playlists[i];
            proof {
                assert(s.take(i + 1).drop_last() =~= s.take(i as int));
                lemma_totals_prefix(s, i + 1);
                lemma_counts_bounded(p@.segments);
            }
            let mut c: usize = 0;
            let mut d: usize = 0;
            let mut k: usize = 0;
            while k < p.segments.len()
                invariant
                    0 <= k <= p.segments@.len(),
                    c == count_cached(segments_view(p.segments@).take(k as int)),
                    d == count_downloading(segments_view(p.segments@).take(k as int)),
                    c <= k,
                    d <= k,
                decreases p.segments@.len() - k,
            {
                proof {
                    assert(segments_view(p.segments@).take(k + 1).drop_last() =~= segments_view(
                        p.segments@,
                    ).take(k as int));
                }
                if p.segments[k].cached {
                    c += 1;
                }
                if p.segments[k].downloading {
                    d += 1;
                }
                k += 1;
            }
            assert(segments_view(p.segments@).take(k as int) =~= p@.segments);
            total = total + p.segments.len();
            cached = cached + c;
            downloading = downloading + d;
            i += 1;
        }
        assert(s.take(i as int) =~= s);
        PlaylistStats {
            total_playlists: self.state.playlists.len(),
            total_segments: total,
            cached_segments: cached,
            downloading_segments: downloading,
        }
    }

    /// The URL of a playlist kept that holds a segment with URL `segment_url`.
    pub fn get_playlist_url(&self, segment_url: &str) -> (r: Result<String, PluginError>)
        ensures
            match r {
                Ok(u) => exists|i: int|
                    0 <= i < self.playlists().len() && has_segment_url(
                        #[trigger] self.playlists()[i],
                        segment_url@,
                    ) && u@ == self.playlists()[i].url,
                Err(e) => {
                    &&& forall|i: int|
                        0 <= i < self.playlists().len() ==> !has_segment_url(
                            #[trigger] self.playlists()[i],
                            segment_url@,
                        )
                    &&& e matches PluginError::Hls(m) && m@ == "Cannot find playlist for segment: "@
                        + segment_url@
                },
            },
    {
        let target = string_from_chars(&chars_of(segment_url));
        let ghost s = self.playlists();
        let mut i: usize = 0;
        while i < self.state.playlists.len()
            invariant
                0 <= i <= self.state.playlists@.len(),
                s == self.playlists(),
                s == self.state.playlists@.map_values(|p: PlaylistInfo| p@),
                target@ == segment_url@,
                forall|k: int| 0 <= k < i ==> !has_segment_url(#[trigger] s[k], segment_url@),
            decreases self.state.playlists@.len() - i,
        {
            let p = &self.state.playlists[i];
            assert(s[i as int] == p@);
            let mut k: usize = 0;
            while k < p.segments.len()
                invariant
                    0 <= k <= p.segments@.len(),
                    0 <= i < s.len(),
                    s == self.playlists(),
                    s[i as int] == p@,
                    target@ == segment_url@,
                    forall|j: int| 0 <= j < k ==> (#[trigger] p.segments@[j])@.url != segment_url@,
                decreases p.segments@.len() - k,
            {
                if p.segments[k].url == target {
                    assert(s[i as int] == p@);
                    assert(p@.segments[k as int] == p.segments@[k as int]@);
                    assert(s[i as int].segments[k as int].url == segment_url@);
                    assert(has_segment_url(self.playlists()[i as int], segment_url@));
                    return Ok(string_from_chars(&chars_of(p.url.as_str())));
                }
                k += 1;
            }
            assert(!has_segment_url(s[i as int], segment_url@)) by {
                if has_segment_url(s[i as int], segment_url@) {
                    let j = choose|j: int|
                        0 <= j < s[i as int].segments.len() && (#[trigger] s[i as int].segments[j]).url
                            == segment_url@;
                    assert(p.segments@[j]@.url == segment_url@);
                }
            }
            i += 1;
        }
        let mut m = chars_of("Cannot find playlist for segment: ");
        crate::text::append_str(&mut m, segment_url);
        Err(PluginError::Hls(string_from_chars(&m)))
    }
}

pub proof fn lemma_counts_bounded(segs: Seq<SegmentView>)
    ensures
        count_cached(segs) <= segs.len(),
        count_downloading(segs) <= segs.len(),
    decreases segs.len(),
{
    if segs.len() > 0 {
        lemma_counts_bounded(segs.drop_last());
    }
}

pub proof fn lemma_totals_prefix(s: Seq<PlaylistInfoView>, i: int)
    requires
        0 <= i <= s.len(),
    ensures
        total_segments(s.take(i)) <= total_segments(s),
        total_cached(s.take(i)) <= total_segments(s.take(i)),
        total_downloading(s.take(i)) <= total_segments(s.take(i)),
    decreases s.len(),
{
    if i < s.len() {
        lemma_totals_prefix(s.drop_last(), i);
        assert(s.drop_last().take(i) =~= s.take(i));
    } else {
        assert(s.take(i) =~= s);
        lemma_totals_bounded(s);
    }
}

pub proof fn lemma_totals_bounded(s: Seq<PlaylistInfoView>)
    ensures
        total_cached(s) <= total_segments(s),
        total_downloading(s) <= total_segments(s),
    decreases s.len(),
{
    if s.len() > 0 {
        lemma_totals_bounded(s.drop_last());
        lemma_counts_bounded(s.last().segments);
    }
}

/// What `cleanup` keeps was kept before, with the same hash.
pub proof fn lemma_cleanup_from(s: Seq<PlaylistInfoView>, now: i64)
    ensures
        forall|i: int|
            0 <= i < cleanup_spec(s, now).len() ==> exists|j: int|
                0 <= j < s.len() && (#[trigger] s[j]).hash == (#[trigger] cleanup_spec(s, now)[i]).hash,
        cleanup_spec(s, now).len() <= s.len(),
    decreases s.len(),
{
    if s.len() > 0 {
        lemma_cleanup_from(s.drop_last(), now);
        let rest = cleanup_spec(s.drop_last(), now);
        assert forall|i: int| 0 <= i < cleanup_spec(s, now).len() implies exists|j: int|
            0 <= j < s.len() && (#[trigger] s[j]).hash == (#[trigger] cleanup_spec(s, now)[i]).hash by {
            if i < rest.len() {
                let j = choose|j: int|
                    0 <= j < s.drop_last().len() && (#[trigger] s.drop_last()[j]).hash == rest[i].hash;
                assert(s[j] == s.drop_last()[j]);
            } else {
                assert(s[s.len() - 1].hash == cleanup_spec(s, now)[i].hash);
            }
        }
    }
}

/// `cleanup` keeps hashes unique.
pub proof fn lemma_cleanup_unique(s: Seq<PlaylistInfoView>, now: i64)
    requires
        unique_hashes(s),
    ensures
        unique_hashes(cleanup_spec(s, now)),
    decreases s.len(),
{
    if s.len() > 0 {
        let d = s.drop_last();
        assert(unique_hashes(d));
        lemma_cleanup_unique(d, now);
        lemma_cleanup_from(d, now);
        let rest = cleanup_spec(d, now);
        if is_fresh(s.last(), now) {
            let r = rest.push(keep_last_segments(s.last()));
            assert forall|i: int, j: int| 0 <= i < r.len() && 0 <= j < r.len() && i != j implies r[i].hash
                != r[j].hash by {
                if i < rest.len() && j < rest.len() {
                } else if i < rest.len() {
                    let k = choose|k: int| 0 <= k < d.len() && (#[trigger] d[k]).hash == rest[i].hash;
                    assert(s[k] == d[k]);
                    assert(k != s.len() - 1);
                } else {
                    let k = choose|k: int| 0 <= k < d.len() && (#[trigger] d[k]).hash == rest[j].hash;
                    assert(s[k] == d[k]);
                    assert(k != s.len() - 1);
                }
            }
        }
    }
}

} // verus!

verus! {

/// Storing a playlist and then looking up its hash gives that playlist back;
/// what is kept under other hashes is unchanged, and hashes stay unique.
pub proof fn lemma_store_then_lookup(s: Seq<PlaylistInfoView>, info: PlaylistInfoView, h: Seq<char>)
    requires
        unique_hashes(s),
    ensures
        unique_hashes(store_spec(s, info)),
        lookup(store_spec(s, info), info.hash) == Some(info),
        h != info.hash ==> lookup(store_spec(s, info), h) == lookup(s, h),
{
    let t = store_spec(s, info);
    if exists|i: int| 0 <= i < s.len() && (#[trigger] s[i]).hash == info.hash {
        let i = choose|i: int| 0 <= i < s.len() && (#[trigger] s[i]).hash == info.hash;
        assert(t[i] == info);
        assert(unique_hashes(t));
        let j = choose|j: int| 0 <= j < t.len() && (#[trigger] t[j]).hash == info.hash;
        assert(j == i);
        if h != info.hash {
            if exists|k: int| 0 <= k < s.len() && (#[trigger] s[k]).hash == h {
                let k = choose|k: int| 0 <= k < s.len() && (#[trigger] s[k]).hash == h;
                assert(t[k] == s[k]);
                let k2 = choose|k2: int| 0 <= k2 < t.len() && (#[trigger] t[k2]).hash == h;
                assert(k2 != i);
                assert(t[k2] == s[k2]);
            } else {
                assert forall|k: int| 0 <= k < t.len() implies (#[trigger] t[k]).hash != h by {
                    if k != i {
                        assert(t[k] == s[k]);
                    }
                }
            }
        }
    } else {
        assert(t[s.len() as int] == info);
        assert(unique_hashes(t)) by {
            assert forall|a: int, b: int| 0 <= a < t.len() && 0 <= b < t.len() && a != b implies t[a].hash
                != t[b].hash by {
                if a < s.len() {
                    assert(t[a] == s[a]);
                }
                if b < s.len() {
                    assert(t[b] == s[b]);
                }
            }
        }
        let j = choose|j: int| 0 <= j < t.len() && (#[trigger] t[j]).hash == info.hash;
        assert(j == s.len());
        if h != info.hash {
            if exists|k: int| 0 <= k < s.len() && (#[trigger] s[k]).hash == h {
                let k = choose|k: int| 0 <= k < s.len() && (#[trigger] s[k]).hash == h;
                assert(t[k] == s[k]);
                let k2 = choose|k2: int| 0 <= k2 < t.len() && (#[trigger] t[k2]).hash == h;
                assert(k2 < s.len());
                assert(t[k2] == s[k2]);
            } else {
                assert forall|k: int| 0 <= k < t.len() implies (#[trigger] t[k]).hash != h by {
                    if k < s.len() {
                        assert(t[k] == s[k]);
                    }
                }
            }
        }
    }
}

/// After `cleanup`, every playlist kept was read less than an hour before and
/// holds at most 10 segments.
pub proof fn lemma_cleanup_leaves_fresh_and_short(s: Seq<PlaylistInfoView>, now: i64)
    ensures
        forall|i: int|
            0 <= i < cleanup_spec(s, now).len() ==> is_fresh(#[trigger] cleanup_spec(s, now)[i], now)
                && cleanup_spec(s, now)[i].segments.len() <= 10,
    decreases s.len(),
{
    if s.len() > 0 {
        lemma_cleanup_leaves_fresh_and_short(s.drop_last(), now);
        let rest = cleanup_spec(s.drop_last(), now);
        assert forall|i: int| 0 <= i < cleanup_spec(s, now).len() implies is_fresh(
            #[trigger] cleanup_spec(s, now)[i],
            now,
        ) && cleanup_spec(s, now)[i].segments.len() <= 10 by {
            if i < rest.len() {
                assert(cleanup_spec(s, now)[i] == rest[i]);
            }
        }
    }
}

/// `k` is `p` cut to its newest segments: every field but the segments is
/// `p`'s, and the segments are the last `min(n, 10)` of `p`'s `n`, in order.
#[verifier::opaque]
pub open spec fn cut_to_newest(k: PlaylistInfoView, p: PlaylistInfoView) -> bool {
    let n = p.segments.len();
    &&& k == PlaylistInfoView { segments: k.segments, ..p }
    &&& k.segments.len() == (if n > 10 {
        10
    } else {
        n
    })
    &&& forall|m: int| 0 <= m < k.segments.len() ==> #[trigger] k.segments[m] == p.segments[n - k.segments.len() + m]
}

/// Keeping the last segments of a playlist cuts it to its newest 10.
proof fn lemma_keep_last_is_cut(p: PlaylistInfoView)
    ensures
        cut_to_newest(keep_last_segments(p), p),
{
    reveal(cut_to_newest);
    let k = keep_last_segments(p);
    if p.segments.len() > 10 {
        assert forall|m: int| 0 <= m < k.segments.len() implies #[trigger] k.segments[m]
            == p.segments[p.segments.len() - k.segments.len() + m] by {}
    }
}

/// `k` is one of the playlists of `s` read less than an hour before `now`,
/// cut to its newest segments.
pub open spec fn cut_of_fresh(k: PlaylistInfoView, s: Seq<PlaylistInfoView>, now: i64) -> bool {
    exists|j: int| 0 <= j < s.len() && is_fresh(s[j], now) && #[trigger] cut_to_newest(k, s[j])
}

/// Every playlist that `cleanup` keeps is a fresh playlist cut to its newest
/// 10 segments.
proof fn lemma_cleanup_kept_are_cuts(s: Seq<PlaylistInfoView>, now: i64)
    ensures
        forall|i: int|
            0 <= i < cleanup_spec(s, now).len() ==> #[trigger] cut_of_fresh(cleanup_spec(s, now)[i], s, now),
    decreases s.len(),
{
    if s.len() > 0 {
        let d = s.drop_last();
        lemma_cleanup_kept_are_cuts(d, now);
        let rest = cleanup_spec(d, now);
        let c = cleanup_spec(s, now);
        let p = s.last();
        if is_fresh(p, now) {
            lemma_keep_last_is_cut(p);
            assert(c == rest.push(keep_last_segments(p)));
        } else {
            assert(c == rest);
        }
        assert forall|i: int| 0 <= i < c.len() implies #[trigger] cut_of_fresh(c[i], s, now) by {
            if i < rest.len() {
                assert(c[i] == rest[i]);
                assert(cut_of_fresh(rest[i], d, now));
                let j = choose|j: int| 0 <= j < d.len() && is_fresh(d[j], now) && #[trigger] cut_to_newest(rest[i], d[j]);
                assert(s[j] == d[j]);
                assert(is_fresh(s[j], now) && cut_to_newest(c[i], s[j]));
            } else {
                assert(s[s.len() - 1] == p);
                assert(c[i] == keep_last_segments(p));
                assert(is_fresh(s[s.len() - 1], now) && cut_to_newest(c[i], s[s.len() - 1]));
            }
        }
    }
}

/// Every fresh playlist is kept by `cleanup`, cut to its newest 10 segments.
proof fn lemma_cleanup_keeps_fresh(s: Seq<PlaylistInfoView>, now: i64)
    ensures
        forall|j: int|
            0 <= j < s.len() && is_fresh(#[trigger] s[j], now) ==> exists|i: int|
                0 <= i < cleanup_spec(s, now).len() && #[trigger] cut_to_newest(cleanup_spec(s, now)[i], s[j]),
    decreases s.len(),
{
    if s.len() > 0 {
        let d = s.drop_last();
        lemma_cleanup_keeps_fresh(d, now);
        let rest = cleanup_spec(d, now);
        let c = cleanup_spec(s, now);
        let p = s.last();
        if is_fresh(p, now) {
            lemma_keep_last_is_cut(p);
            assert(c == rest.push(keep_last_segments(p)));
        } else {
            assert(c == rest);
        }
        assert forall|j: int| 0 <= j < s.len() && is_fresh(#[trigger] s[j], now) implies exists|i: int|
            0 <= i < c.len() && #[trigger] cut_to_newest(c[i], s[j]) by {
            if j < d.len() {
                assert(s[j] == d[j]);
                let i = choose|i: int| 0 <= i < rest.len() && #[trigger] cut_to_newest(rest[i], d[j]);
                assert(c[i] == rest[i]);
                assert(cut_to_newest(c[i], s[j]));
            } else {
                assert(c[rest.len() as int] == keep_last_segments(p));
                assert(cut_to_newest(c[rest.len() as int], s[j]));
            }
        }
    }
}

/// `cleanup` keeps exactly the playlists read less than an hour before, each
/// cut to its newest 10 segments (the oldest are dropped): every playlist it
/// keeps is such a cut of a fresh one, and every fresh one is kept so cut.
pub proof fn lemma_cleanup_keeps_newest(s: Seq<PlaylistInfoView>, now: i64)
    ensures
        forall|i: int|
            0 <= i < cleanup_spec(s, now).len() ==> #[trigger] cut_of_fresh(cleanup_spec(s, now)[i], s, now),
        forall|j: int|
            0 <= j < s.len() && is_fresh(#[trigger] s[j], now) ==> exists|i: int|
                0 <= i < cleanup_spec(s, now).len() && #[trigger] cut_to_newest(cleanup_spec(s, now)[i], s[j]),
{
    lemma_cleanup_kept_are_cuts(s, now);
    lemma_cleanup_keeps_fresh(s, now);
}

/// A line that declares a variant stream.
pub open spec fn is_variant_tag(l: Seq<char>) -> bool {
    has_prefix(l, "#EXT-X-STREAM-INF:"@)
}

/// A line that declares the target duration.
pub open spec fn is_target_tag(l: Seq<char>) -> bool {
    has_prefix(l, "#EXT-X-TARGETDURATION:"@)
}

/// A line that declares the media sequence.
pub open spec fn is_media_sequence_tag(l: Seq<char>) -> bool {
    has_prefix(l, "#EXT-X-MEDIA-SEQUENCE:"@)
}

/// The three tags are told apart by their eighth character.
proof fn lemma_tags_distinct(l: Seq<char>)
    ensures
        is_target_tag(l) ==> !is_variant_tag(l),
        is_media_sequence_tag(l) ==> !is_variant_tag(l) && !is_target_tag(l),
{
    reveal_strlit("#EXT-X-STREAM-INF:");
    reveal_strlit("#EXT-X-TARGETDURATION:");
    reveal_strlit("#EXT-X-MEDIA-SEQUENCE:");
    if is_variant_tag(l) {
        assert(l[7] == l.take(18)[7]);
        assert(l[7] == 'S');
    }
    if is_target_tag(l) {
        assert(l[7] == l.take(22)[7]);
        assert(l[7] == 'T');
    }
    if is_media_sequence_tag(l) {
        assert(l[7] == l.take(22)[7]);
        assert(l[7] == 'M');
    }
}

/// The attributes of a variant line set only its bandwidth and resolution.
proof fn lemma_attrs_keep(st: ParseState, attrs: Seq<Seq<char>>)
    ensures
        apply_attrs(st, attrs).target == st.target,
        apply_attrs(st, attrs).media_seq == st.media_seq,
        apply_attrs(st, attrs).master == st.master,
    decreases attrs.len(),
{
    if attrs.len() > 0 {
        lemma_attrs_keep(st, attrs.drop_last());
    }
}

/// What one line does to the target duration, the media sequence and the
/// kind of playlist.
proof fn lemma_step_tags(st: ParseState, line: Seq<char>, uri: Seq<char>)
    ensures
        step(st, line, uri).target == (if is_target_tag(line) {
            float_opt(line.skip(22))
        } else {
            st.target
        }),
        step(st, line, uri).media_seq == (if is_media_sequence_tag(line) {
            parse_u32_spec(line.skip(22))
        } else {
            st.media_seq
        }),
        step(st, line, uri).master == (st.master || is_variant_tag(line)),
{
    reveal_strlit("#EXT-X-STREAM-INF:");
    reveal_strlit("#EXT-X-TARGETDURATION:");
    reveal_strlit("#EXT-X-MEDIA-SEQUENCE:");
    lemma_tags_distinct(line);
    lemma_attrs_keep(
        ParseState { master: true, ..st },
        split_char(line.skip("#EXT-X-STREAM-INF:"@.len() as int), ','),
    );
}

proof fn lemma_run_target_last(st: ParseState, ls: Seq<Seq<char>>, uri: Seq<char>, i: int)
    requires
        0 <= i < ls.len(),
        is_target_tag(ls[i]),
        forall|j: int| i < j < ls.len() ==> !is_target_tag(#[trigger] ls[j]),
    ensures
        run(st, ls, uri).target == float_opt(ls[i].skip(22)),
    decreases ls.len(),
{
    lemma_step_tags(run(st, ls.drop_last(), uri), ls.last(), uri);
    if i < ls.len() - 1 {
        assert(!is_target_tag(ls[ls.len() - 1]));
        assert forall|j: int| i < j < ls.drop_last().len() implies !is_target_tag(#[trigger] ls.drop_last()[j]) by {
            assert(ls.drop_last()[j] == ls[j]);
        }
        lemma_run_target_last(st, ls.drop_last(), uri, i);
    }
}

proof fn lemma_run_target_none(st: ParseState, ls: Seq<Seq<char>>, uri: Seq<char>)
    requires
        forall|j: int| 0 <= j < ls.len() ==> !is_target_tag(#[trigger] ls[j]),
    ensures
        run(st, ls, uri).target == st.target,
    decreases ls.len(),
{
    if ls.len() > 0 {
        lemma_step_tags(run(st, ls.drop_last(), uri), ls.last(), uri);
        assert(!is_target_tag(ls[ls.len() - 1]));
        assert forall|j: int| 0 <= j < ls.drop_last().len() implies !is_target_tag(#[trigger] ls.drop_last()[j]) by {
            assert(ls.drop_last()[j] == ls[j]);
        }
        lemma_run_target_none(st, ls.drop_last(), uri);
    }
}

proof fn lemma_run_sequence_last(st: ParseState, ls: Seq<Seq<char>>, uri: Seq<char>, i: int)
    requires
        0 <= i < ls.len(),
        is_media_sequence_tag(ls[i]),
        forall|j: int| i < j < ls.len() ==> !is_media_sequence_tag(#[trigger] ls[j]),
    ensures
        run(st, ls, uri).media_seq == parse_u32_spec(ls[i].skip(22)),
    decreases ls.len(),
{
    lemma_step_tags(run(st, ls.drop_last(), uri), ls.last(), uri);
    if i < ls.len() - 1 {
        assert(!is_media_sequence_tag(ls[ls.len() - 1]));
        assert forall|j: int| i < j < ls.drop_last().len() implies !is_media_sequence_tag(#[trigger] ls.drop_last()[j]) by {
            assert(ls.drop_last()[j] == ls[j]);
        }
        lemma_run_sequence_last(st, ls.drop_last(), uri, i);
    }
}

proof fn lemma_run_sequence_none(st: ParseState, ls: Seq<Seq<char>>, uri: Seq<char>)
    requires
        forall|j: int| 0 <= j < ls.len() ==> !is_media_sequence_tag(#[trigger] ls[j]),
    ensures
        run(st, ls, uri).media_seq == st.media_seq,
    decreases ls.len(),
{
    if ls.len() > 0 {
        lemma_step_tags(run(st, ls.drop_last(), uri), ls.last(), uri);
        assert(!is_media_sequence_tag(ls[ls.len() - 1]));
        assert forall|j: int| 0 <= j < ls.drop_last().len() implies !is_media_sequence_tag(#[trigger] ls.drop_last()[j]) by {
            assert(ls.drop_last()[j] == ls[j]);
        }
        lemma_run_sequence_none(st, ls.drop_last(), uri);
    }
}

proof fn lemma_run_master(st: ParseState, ls: Seq<Seq<char>>, uri: Seq<char>)
    ensures
        run(st, ls, uri).master == (st.master || exists|j: int| 0 <= j < ls.len() && is_variant_tag(#[trigger] ls[j])),
    decreases ls.len(),
{
    if ls.len() > 0 {
        lemma_step_tags(run(st, ls.drop_last(), uri), ls.last(), uri);
        lemma_run_master(st, ls.drop_last(), uri);
        if exists|j: int| 0 <= j < ls.drop_last().len() && is_variant_tag(#[trigger] ls.drop_last()[j]) {
            let j = choose|j: int| 0 <= j < ls.drop_last().len() && is_variant_tag(#[trigger] ls.drop_last()[j]);
            assert(ls[j] == ls.drop_last()[j]);
        }
        if exists|j: int| 0 <= j < ls.len() && is_variant_tag(#[trigger] ls[j]) {
            let j = choose|j: int| 0 <= j < ls.len() && is_variant_tag(#[trigger] ls[j]);
            if j < ls.len() - 1 {
                assert(ls.drop_last()[j] == ls[j]);
            }
        }
    }
}

/// The target duration of a playlist is the number after the last
/// `#EXT-X-TARGETDURATION:` tag (when it reads as a number), and there is none
/// when the playlist has no such tag.
pub proof fn lemma_target_duration_is_last_tag(text: Seq<char>, uri: Seq<char>, now: i64, i: int)
    requires
        has_prefix(text, "#EXTM3U"@),
    ensures
        parse_text_spec(text, uri, now) is Some,
        (0 <= i < lines(text).len() && is_target_tag(lines(text)[i]) && forall|j: int|
            i < j < lines(text).len() ==> !is_target_tag(#[trigger] lines(text)[j])) ==> parse_text_spec(
            text,
            uri,
            now,
        )->Some_0.target_duration == float_opt(lines(text)[i].skip("#EXT-X-TARGETDURATION:"@.len() as int)),
        (forall|j: int| 0 <= j < lines(text).len() ==> !is_target_tag(#[trigger] lines(text)[j]))
            ==> parse_text_spec(text, uri, now)->Some_0.target_duration is None,
{
    reveal_strlit("#EXT-X-TARGETDURATION:");
    if 0 <= i < lines(text).len() && is_target_tag(lines(text)[i]) && forall|j: int|
        i < j < lines(text).len() ==> !is_target_tag(#[trigger] lines(text)[j]) {
        lemma_run_target_last(initial_state(), lines(text), uri, i);
    }
    if forall|j: int| 0 <= j < lines(text).len() ==> !is_target_tag(#[trigger] lines(text)[j]) {
        lemma_run_target_none(initial_state(), lines(text), uri);
    }
}

/// The media sequence of a playlist is the number after the last
/// `#EXT-X-MEDIA-SEQUENCE:` tag (when it reads as one), and there is none
/// when the playlist has no such tag.
pub proof fn lemma_media_sequence_is_last_tag(text: Seq<char>, uri: Seq<char>, now: i64, i: int)
    requires
        has_prefix(text, "#EXTM3U"@),
    ensures
        parse_text_spec(text, uri, now) is Some,
        (0 <= i < lines(text).len() && is_media_sequence_tag(lines(text)[i]) && forall|j: int|
            i < j < lines(text).len() ==> !is_media_sequence_tag(#[trigger] lines(text)[j])) ==> parse_text_spec(
            text,
            uri,
            now,
        )->Some_0.media_sequence == parse_u32_spec(lines(text)[i].skip("#EXT-X-MEDIA-SEQUENCE:"@.len() as int)),
        (forall|j: int| 0 <= j < lines(text).len() ==> !is_media_sequence_tag(#[trigger] lines(text)[j]))
            ==> parse_text_spec(text, uri, now)->Some_0.media_sequence is None,
{
    reveal_strlit("#EXT-X-MEDIA-SEQUENCE:");
    if 0 <= i < lines(text).len() && is_media_sequence_tag(lines(text)[i]) && forall|j: int|
        i < j < lines(text).len() ==> !is_media_sequence_tag(#[trigger] lines(text)[j]) {
        lemma_run_sequence_last(initial_state(), lines(text), uri, i);
    }
    if forall|j: int| 0 <= j < lines(text).len() ==> !is_media_sequence_tag(#[trigger] lines(text)[j]) {
        lemma_run_sequence_none(initial_state(), lines(text), uri);
    }
}

/// A playlist is a master playlist exactly when one of its lines declares a
/// variant stream (`#EXT-X-STREAM-INF:`); otherwise it is a media playlist.
pub proof fn lemma_master_iff_variant_tag(text: Seq<char>, uri: Seq<char>, now: i64)
    requires
        has_prefix(text, "#EXTM3U"@),
    ensures
        parse_text_spec(text, uri, now) is Some,
        (parse_text_spec(text, uri, now)->Some_0.playlist_type == PlaylistType::Master) <==> exists|j: int|
            0 <= j < lines(text).len() && is_variant_tag(#[trigger] lines(text)[j]),
        (parse_text_spec(text, uri, now)->Some_0.playlist_type == PlaylistType::Media) <==> !exists|j: int|
            0 <= j < lines(text).len() && is_variant_tag(#[trigger] lines(text)[j]),
{
    lemma_run_master(initial_state(), lines(text), uri);
}

} // verus!
