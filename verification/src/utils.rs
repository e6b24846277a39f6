//! URL helpers: path extraction, hashing, resolution and the on-disk layout
//! of cached HLS files.
use crate::external::{default_hash, hash_str, join_url, joined_url, opt_text, parse_uri, parse_url, uri_parts, url_parts};
use crate::text::{
    append_str, before_first, chars_of, ends_with, find_char, has_prefix, has_suffix,
    hex_fixed, is_hex_lower, join_path, lemma_find_char, lemma_find_char_ensures, lemma_hex_fixed,
    path_join, push_hex_fixed, slice_chars, starts_with, string_from_chars, take_before_first,
    matches_at,
};
use vstd::prelude::*;
use vstd::string::StrSliceExecFns;

verus! {

/// The part of a URL before any query (`?`) and fragment (`#`).
pub open spec fn url_path_spec(url: Seq<char>) -> Seq<char> {
    before_first(before_first(url, '?'), '#')
}

/// The 16 lower-case hexadecimal digits of a URL's `DefaultHasher` hash.
pub open spec fn hash_url_spec(url: Seq<char>) -> Seq<char> {
    hex_fixed(default_hash(url) as nat, 16)
}

pub open spec fn is_absolute_spec(url: Seq<char>) -> bool {
    has_prefix(url, "http://"@) || has_prefix(url, "https://"@)
}

/// Whether `resolve_url` has an answer for these arguments: an absolute
/// `relative` is taken as it is, any other must join onto `base`.
pub open spec fn resolvable(base: Seq<char>, relative: Seq<char>) -> bool {
    is_absolute_spec(relative) || joined_url(base, relative) is Ok
}

pub open spec fn resolve_spec(base: Seq<char>, relative: Seq<char>) -> Seq<char> {
    if is_absolute_spec(relative) {
        relative
    } else {
        joined_url(base, relative)->Ok_0
    }
}

/// A URI taken apart: scheme, authority and path with query (each when
/// present) and the whole as written back.
#[derive(Debug, Clone)]
pub struct UriParts {
    pub scheme: Option<String>,
    pub authority: Option<String>,
    pub path_and_query: Option<String>,
    pub text: String,
}

impl UriParts {
    pub open spec fn view_parts(&self) -> (Option<Seq<char>>, Option<Seq<char>>, Option<Seq<char>>, Seq<char>) {
        (opt_text(self.scheme), opt_text(self.authority), opt_text(self.path_and_query), self.text@)
    }

    /// Parses `s` as a URI; `None` when it is none.
    pub fn parse(s: &str) -> (r: Option<UriParts>)
        ensures
            match r {
                Some(u) => uri_parts(s@) == Some(u.view_parts()),
                None => uri_parts(s@) is None,
            },
    {
        match parse_uri(s) {
            Some((scheme, authority, path_and_query, text)) => Some(
                UriParts { scheme, authority, path_and_query, text },
            ),
            None => None,
        }
    }
}

pub open spec fn text_or_empty(o: Option<Seq<char>>) -> Seq<char> {
    match o {
        Some(s) => s,
        None => Seq::empty(),
    }
}

/// The full URL of a request URI: the URI itself when it has a scheme, else
/// `http://` followed by its authority and its path with query.
pub open spec fn full_url_spec(u: (Option<Seq<char>>, Option<Seq<char>>, Option<Seq<char>>, Seq<char>)) -> Seq<char> {
    if u.0 is None {
        "http://"@ + text_or_empty(u.1) + text_or_empty(u.2)
    } else {
        u.3
    }
}

/// The full URL of a request URI (see `full_url_spec`).
pub fn get_full_url(uri: &UriParts) -> (r: String)
    ensures
        r@ == full_url_spec(uri.view_parts()),
{
    if uri.scheme.is_none() {
        let mut out: Vec<char> = Vec::new();
        append_str(&mut out, "http://");
        match &uri.authority {
            Some(a) => append_str(&mut out, a.as_str()),
            None => {},
        }
        match &uri.path_and_query {
            Some(p) => append_str(&mut out, p.as_str()),
            None => {},
        }
        let r = string_from_chars(&out);
        assert(r@ =~= full_url_spec(uri.view_parts()));
        r
    } else {
        uri.text.clone()
    }
}

/// Returns the part of `url` before its query and fragment.
pub fn get_url_path(url: &str) -> (r: &str)
    ensures
        r@ == url_path_spec(url@),
{
    let cs = chars_of(url);
    let a = take_before_first(&cs, '?');
    let b = take_before_first(&a, '#');
    proof {
        lemma_before_first_is_prefix(url@, '?');
        lemma_before_first_is_prefix(a@, '#');
    }
    let r = url.substring_char(0, b.len());
    assert(r@ =~= b@) by {
        assert forall|i: int| 0 <= i < b@.len() implies r@[i] == b@[i] by {
            assert(b@[i] == a@[i]);
            assert(a@[i] == url@[i]);
        }
    }
    r
}

/// `before_first(s, c)` is a prefix of `s`.
pub proof fn lemma_before_first_is_prefix(s: Seq<char>, c: char)
    ensures
        before_first(s, c).len() <= s.len(),
        forall|i: int| 0 <= i < before_first(s, c).len() ==> #[trigger] before_first(s, c)[i] == s[i],
{
    lemma_find_char_ensures(s, c);
}

/// The 16-digit lower-case hexadecimal `DefaultHasher` hash of `url`.
pub fn hash_url(url: &str) -> (r: String)
    ensures
        r@ == hash_url_spec(url@),
        r@.len() == 16,
        forall|i: int| 0 <= i < 16 ==> is_hex_lower(#[trigger] r@[i]),
{
    let h = hash_str(url);
    let mut out: Vec<char> = Vec::new();
    push_hex_fixed(&mut out, h, 16);
    proof {
        lemma_hex_fixed(h as nat, 16);
        assert(out@ =~= hash_url_spec(url@));
    }
    string_from_chars(&out)
}

/// Whether `url` starts with `http://` or `https://`.
pub fn is_absolute_url(url: &str) -> (r: bool)
    ensures
        r == is_absolute_spec(url@),
{
    let cs = chars_of(url);
    let http = chars_of("http://");
    let https = chars_of("https://");
    starts_with(&cs, &http) || starts_with(&cs, &https)
}

/// Turns `relative` into an absolute URL against `base`. An absolute
/// `relative` is returned unchanged; any other is joined onto `base` with the
/// `url` crate. Callers give only arguments that can be resolved (there is
/// no answer for the others); `try_resolve_url` takes any.
pub fn resolve_url(base: &str, relative: &str) -> (r: String)
    requires
        resolvable(base@, relative@),
    ensures
        r@ == resolve_spec(base@, relative@),
        is_absolute_spec(relative@) ==> r@ == relative@,
{
    if is_absolute_url(relative) {
        let v = chars_of(relative);
        string_from_chars(&v)
    } else {
        match join_url(base, relative) {
            Ok(s) => s,
            Err(_) => {
                assert(false);
                String::new()
            },
        }
    }
}

/// `resolve_url` where it has an answer, `None` where it has none.
pub fn try_resolve_url(base: &str, relative: &str) -> (r: Option<String>)
    ensures
        match r {
            Some(s) => resolvable(base@, relative@) && s@ == resolve_spec(base@, relative@),
            None => !resolvable(base@, relative@),
        },
{
    if is_absolute_url(relative) {
        Some(resolve_url(base, relative))
    } else {
        match join_url(base, relative) {
            Ok(s) => Some(s),
            Err(_) => None,
        }
    }
}

// ---------------------------------------------------------------------------
// Storage layout
// ---------------------------------------------------------------------------

/// The non-empty pieces of `s` between slashes, in order.
pub open spec fn path_segments(s: Seq<char>) -> Seq<Seq<char>>
    decreases s.len(),
{
    if s.len() == 0 {
        Seq::empty()
    } else {
        let i = find_char(s, '/');
        if i < 0 {
            seq![s]
        } else {
            proof {
                lemma_find_char_ensures(s, '/');
            }
            let head = s.take(i);
            (if head.len() > 0 {
                seq![head]
            } else {
                Seq::empty()
            }) + path_segments(s.skip(i + 1))
        }
    }
}

/// `s` holds `p` somewhere.
pub open spec fn contains_sub(s: Seq<char>, p: Seq<char>) -> bool {
    exists|i: int| 0 <= i <= s.len() && #[trigger] has_prefix(s.skip(i), p)
}

/// Index of the first segment that holds `bipbop`, or -1.
pub open spec fn bipbop_index(segs: Seq<Seq<char>>) -> int
    decreases segs.len(),
{
    if segs.len() == 0 {
        -1
    } else if contains_sub(segs[0], "bipbop"@) {
        0
    } else {
        let r = bipbop_index(segs.skip(1));
        if r < 0 {
            -1
        } else {
            r + 1
        }
    }
}

/// The first segment that starts with `gear`, if any.
pub open spec fn first_gear(segs: Seq<Seq<char>>) -> Option<Seq<char>>
    decreases segs.len(),
{
    if segs.len() == 0 {
        None
    } else if has_prefix(segs[0], "gear"@) {
        Some(segs[0])
    } else {
        first_gear(segs.skip(1))
    }
}

/// The file under `base` where the resource with these path segments is kept.
pub open spec fn storage_file_spec(base: Seq<char>, segs: Seq<Seq<char>>) -> Seq<char> {
    if segs.len() == 0 {
        path_join(base, "unknown"@)
    } else {
        let last = segs.last();
        let b = bipbop_index(segs);
        if b >= 0 {
            let gear = first_gear(segs.skip(b + 1));
            if last == "bipbopall.m3u8"@ {
                path_join(base, "bipbopall.m3u8"@)
            } else if last == "prog_index.m3u8"@ || last == "playlist.m3u8"@ {
                match gear {
                    Some(g) => path_join(path_join(base, g), "prog_index.m3u8"@),
                    None => path_join(base, "playlist.m3u8"@),
                }
            } else {
                match gear {
                    Some(g) => if has_prefix(last, "fileSequence"@) {
                        path_join(path_join(path_join(base, g), "segments"@), last)
                    } else {
                        path_join(path_join(base, g), last)
                    },
                    None => path_join(base, last),
                }
            }
        } else if has_suffix(last, ".m3u8"@) {
            path_join(base, "playlist.m3u8"@)
        } else if has_suffix(last, ".ts"@) {
            path_join(path_join(base, "segments"@), last)
        } else {
            path_join(base, last)
        }
    }
}

/// The directory and file where the resource at `url` is cached: the
/// directory is `cache/hls/` and the hash of the URL's scheme and host; the
/// file within it follows the URL's path. A URL that does not parse is kept as
/// `unknown` under the hash of the whole URL.
pub open spec fn storage_paths_spec(url: Seq<char>) -> (Seq<char>, Seq<char>) {
    match url_parts(url) {
        Ok((scheme, host, path)) => {
            let h = match host {
                Some(h) => h,
                None => Seq::empty(),
            };
            let base = path_join("cache/hls"@, hash_url_spec(scheme + "://"@ + h));
            (base, storage_file_spec(base, path_segments(path)))
        },
        Err(_) => {
            let base = path_join("cache/hls"@, hash_url_spec(url));
            (base, path_join(base, "unknown"@))
        },
    }
}

/// The non-empty slash-separated pieces of `s`.
pub fn split_path_segments(s: &[char]) -> (r: Vec<Vec<char>>)
    ensures
        r@.len() == path_segments(s@).len(),
        forall|i: int| 0 <= i < r@.len() ==> (#[trigger] r@[i])@ == path_segments(s@)[i],
{
    let mut r: Vec<Vec<char>> = Vec::new();
    let mut start: usize = 0;
    let ghost done: Seq<Seq<char>> = Seq::empty();
    assert(s@.skip(0) =~= s@);
    assert(done + path_segments(s@) =~= path_segments(s@));
    while start < s.len()
        invariant
            0 <= start <= s@.len(),
            r@.len() == done.len(),
            forall|i: int| 0 <= i < r@.len() ==> (#[trigger] r@[i])@ == done[i],
            path_segments(s@) == done + path_segments(s@.skip(start as int)),
        decreases s@.len() - start,
    {
        let ghost rest = s@.skip(start as int);
        let mut j = start;
        while j < s.len() && s[j] != '/'
            invariant
                start <= j <= s@.len(),
                forall|k: int| start <= k < j ==> s@[k] != '/',
            decreases s@.len() - j,
        {
            j += 1;
        }
        proof {
            assert forall|k: int| 0 <= k < j - start implies rest[k] != '/' by {
                assert(rest[k] == s@[start + k]);
            }
            if j < s.len() {
                assert(rest[j - start] == s@[j as int]);
            }
            lemma_find_char(rest, '/', j - start);
        }
        let piece = slice_chars(s, start, j);
        if j == s.len() {
            assert(piece@ =~= rest);
            r.push(piece);
            proof {
                done = done.push(rest);
                assert(path_segments(s@.skip(j as int)) =~= Seq::<Seq<char>>::empty());
                assert(path_segments(s@) =~= done + path_segments(s@.skip(j as int)));
            }
            start = j;
        } else {
            assert(piece@ =~= rest.take(j - start));
            proof {
                assert(rest.skip(j - start + 1) =~= s@.skip(j + 1));
            }
            if j > start {
                r.push(piece);
                proof {
                    done = done.push(rest.take(j - start));
                    assert(path_segments(s@) =~= done + path_segments(s@.skip(j + 1)));
                }
            } else {
                proof {
                    assert(path_segments(rest) =~= path_segments(s@.skip(j + 1)));
                }
            }
            start = j + 1;
        }
    }
    assert(path_segments(s@.skip(start as int)) =~= Seq::<Seq<char>>::empty());
    assert(path_segments(s@) =~= done);
    r
}

/// Whether `s` holds `p` somewhere.
pub fn contains_chars(s: &[char], p: &[char]) -> (r: bool)
    ensures
        r == contains_sub(s@, p@),
{
    let mut i: usize = 0;
    loop
        invariant
            0 <= i <= s@.len(),
            forall|k: int| 0 <= k < i ==> !#[trigger] has_prefix(s@.skip(k), p@),
        decreases s@.len() - i,
    {
        if matches_at(s, i, p) {
            return true;
        }
        if i == s.len() {
            assert forall|k: int| 0 <= k <= s@.len() implies !#[trigger] has_prefix(
                s@.skip(k),
                p@,
            ) by {
                if k < i {
                } else {
                    assert(k == i);
                }
            }
            return false;
        }
        i += 1;
    }
}

fn find_bipbop(segs: &Vec<Vec<char>>) -> (r: Option<usize>)
    ensures
        match r {
            Some(i) => bipbop_index(segs@.map_values(|v: Vec<char>| v@)) == i as int && i < segs@.len(),
            None => bipbop_index(segs@.map_values(|v: Vec<char>| v@)) == -1,
        },
{
    let ghost sv = segs@.map_values(|v: Vec<char>| v@);
    let pat = chars_of("bipbop");
    let mut i: usize = 0;
    assert(sv.skip(0) =~= sv);
    while i < segs.len()
        invariant
            0 <= i <= segs@.len(),
            sv == segs@.map_values(|v: Vec<char>| v@),
            pat@ == "bipbop"@,
            bipbop_index(sv) == (if bipbop_index(sv.skip(i as int)) < 0 {
                -1
            } else {
                bipbop_index(sv.skip(i as int)) + i
            }),
        decreases segs@.len() - i,
    {
        assert(sv.skip(i as int)[0] == segs@[i as int]@);
        if contains_chars(&segs[i], &pat) {
            return Some(i);
        }
        assert(sv.skip(i as int).skip(1) =~= sv.skip(i + 1));
        i += 1;
    }
    assert(sv.skip(i as int).len() == 0);
    None
}

fn find_gear(segs: &Vec<Vec<char>>, from: usize) -> (r: Option<usize>)
    requires
        from <= segs@.len(),
    ensures
        match r {
            Some(i) => from <= i < segs@.len() && first_gear(
                segs@.map_values(|v: Vec<char>| v@).skip(from as int),
            ) == Some(segs@[i as int]@),
            None => first_gear(segs@.map_values(|v: Vec<char>| v@).skip(from as int)) is None,
        },
{
    let ghost sv = segs@.map_values(|v: Vec<char>| v@);
    let pat = chars_of("gear");
    let mut i: usize = from;
    while i < segs.len()
        invariant
            from <= i <= segs@.len(),
            sv == segs@.map_values(|v: Vec<char>| v@),
            pat@ == "gear"@,
            first_gear(sv.skip(from as int)) == first_gear(sv.skip(i as int)),
        decreases segs@.len() - i,
    {
        assert(sv.skip(i as int)[0] == segs@[i as int]@);
        if starts_with(&segs[i], &pat) {
            return Some(i);
        }
        assert(sv.skip(i as int).skip(1) =~= sv.skip(i + 1));
        i += 1;
    }
    assert(sv.skip(i as int).len() == 0);
    None
}

fn eq_str(a: &[char], b: &str) -> (r: bool)
    ensures
        r == (a@ == b@),
{
    let bv = chars_of(b);
    if a.len() != bv.len() {
        return false;
    }
    let r = starts_with(a, &bv);
    assert(a@.take(bv@.len() as int) =~= a@);
    r
}

fn join_str(path: &[char], comp: &str) -> (r: Vec<char>)
    ensures
        r@ == path_join(path@, comp@),
{
    let c = chars_of(comp);
    join_path(path, &c)
}

fn storage_file(base: &[char], segs: &Vec<Vec<char>>) -> (r: Vec<char>)
    ensures
        r@ == storage_file_spec(base@, segs@.map_values(|v: Vec<char>| v@)),
{
    let ghost sv = segs@.map_values(|v: Vec<char>| v@);
    if segs.len() == 0 {
        return join_str(base, "unknown");
    }
    let last = &segs[segs.len() - 1];
    assert(last@ == sv.last());
    match find_bipbop(segs) {
        Some(b) => {
            assert(sv.skip(b + 1) =~= segs@.map_values(|v: Vec<char>| v@).skip(b + 1));
            let gear = find_gear(segs, b + 1);
            if eq_str(last, "bipbopall.m3u8") {
                join_str(base, "bipbopall.m3u8")
            } else if eq_str(last, "prog_index.m3u8") || eq_str(last, "playlist.m3u8") {
                match gear {
                    Some(g) => {
                        let p = join_path(base, &segs[g]);
                        join_str(&p, "prog_index.m3u8")
                    },
                    None => join_str(base, "playlist.m3u8"),
                }
            } else {
                match gear {
                    Some(g) => {
                        let p = join_path(base, &segs[g]);
                        let fs = chars_of("fileSequence");
                        if starts_with(last, &fs) {
                            let q = join_str(&p, "segments");
                            join_path(&q, last)
                        } else {
                            join_path(&p, last)
                        }
                    },
                    None => join_path(base, last),
                }
            }
        },
        None => {
            let m3u8 = chars_of(".m3u8");
            let ts = chars_of(".ts");
            if ends_with(last, &m3u8) {
                join_str(base, "playlist.m3u8")
            } else if ends_with(last, &ts) {
                let q = join_str(base, "segments");
                join_path(&q, last)
            } else {
                join_path(base, last)
            }
        },
    }
}

/// The cache directory and file for `url` (see `storage_paths_spec`).
pub fn get_storage_paths(url: &str) -> (r: (String, String))
    ensures
        (r.0@, r.1@) == storage_paths_spec(url@),
{
    let root = chars_of("cache/hls");
    match parse_url(url) {
        Ok((scheme, host, path)) => {
            let mut key = chars_of(scheme.as_str());
            append_str(&mut key, "://");
            match &host {
                Some(h) => append_str(&mut key, h.as_str()),
                None => {},
            }
            let ghost hv: Seq<char> = match host {
                Some(h) => h@,
                None => Seq::empty(),
            };
            assert(key@ =~= scheme@ + "://"@ + hv);
            let key_s = string_from_chars(&key);
            let h = hash_url(key_s.as_str());
            let hc = chars_of(h.as_str());
            let base = join_path(&root, &hc);
            let pc = chars_of(path.as_str());
            let segs = split_path_segments(&pc);
            assert(segs@.map_values(|v: Vec<char>| v@) =~= path_segments(path@));
            let file = storage_file(&base, &segs);
            (string_from_chars(&base), string_from_chars(&file))
        },
        Err(_) => {
            let h = hash_url(url);
            let hc = chars_of(h.as_str());
            let base = join_path(&root, &hc);
            let file = join_str(&base, "unknown");
            (string_from_chars(&base), string_from_chars(&file))
        },
    }
}

// ---------------------------------------------------------------------------
// The cached file lies inside its directory
// ---------------------------------------------------------------------------

/// One component of a path: not empty and without a slash.
pub open spec fn is_path_component(c: Seq<char>) -> bool {
    c.len() > 0 && forall|i: int| 0 <= i < c.len() ==> c[i] != '/'
}

/// `p` lies strictly inside the directory `dir`: it starts with `dir` and a
/// slash, goes on past it, and does not end with a slash.
pub open spec fn strictly_below(p: Seq<char>, dir: Seq<char>) -> bool {
    &&& has_prefix(p, dir + seq!['/'])
    &&& p.len() > dir.len() + 1
    &&& p.last() != '/'
}

/// Joining a component onto `dir` itself, or onto a path inside it, gives a
/// path inside `dir`.
proof fn lemma_join_below(dir: Seq<char>, p: Seq<char>, c: Seq<char>)
    requires
        (p == dir && dir.len() > 0 && dir.last() != '/') || strictly_below(p, dir),
        is_path_component(c),
    ensures
        path_join(p, c) == p + seq!['/'] + c,
        strictly_below(path_join(p, c), dir),
{
    assert(c[0] != '/');
    let r = p + seq!['/'] + c;
    assert(r.last() == c[c.len() - 1]);
    assert(r.take(dir.len() + 1int) =~= dir + seq!['/']) by {
        if p != dir {
            assert(p.take(dir.len() + 1int) =~= dir + seq!['/']);
            assert forall|i: int| 0 <= i < dir.len() + 1 implies #[trigger] r.take(dir.len() + 1int)[i] == p.take(dir.len() + 1int)[i] by {
                assert(r[i] == p[i]);
            }
        }
    }
}

/// Every piece that `path_segments` yields is a path component.
proof fn lemma_path_segments_components(s: Seq<char>)
    ensures
        forall|k: int| 0 <= k < path_segments(s).len() ==> is_path_component(#[trigger] path_segments(s)[k]),
    decreases s.len(),
{
    if s.len() > 0 {
        lemma_find_char_ensures(s, '/');
        let i = find_char(s, '/');
        if i >= 0 {
            lemma_path_segments_components(s.skip(i + 1));
            let head = s.take(i);
            let first: Seq<Seq<char>> = if head.len() > 0 {
                seq![head]
            } else {
                Seq::empty()
            };
            let rest = path_segments(s.skip(i + 1));
            assert(path_segments(s) == first + rest);
            assert forall|k: int| 0 <= k < path_segments(s).len() implies is_path_component(#[trigger] path_segments(s)[k]) by {
                if k < first.len() {
                    assert(path_segments(s)[k] == head);
                    assert forall|j: int| 0 <= j < head.len() implies head[j] != '/' by {
                        assert(head[j] == s[j]);
                    }
                } else {
                    assert(path_segments(s)[k] == rest[k - first.len()]);
                }
            }
        }
    }
}

/// `bipbop_index` is -1 or a position of the sequence.
proof fn lemma_bipbop_index_bound(segs: Seq<Seq<char>>)
    ensures
        -1 <= bipbop_index(segs) < segs.len(),
    decreases segs.len(),
{
    if segs.len() > 0 && !contains_sub(segs[0], "bipbop"@) {
        lemma_bipbop_index_bound(segs.skip(1));
    }
}

/// The segment that `first_gear` picks is one of the given segments.
proof fn lemma_first_gear_component(segs: Seq<Seq<char>>)
    requires
        forall|k: int| 0 <= k < segs.len() ==> is_path_component(#[trigger] segs[k]),
    ensures
        first_gear(segs) matches Some(g) ==> is_path_component(g),
    decreases segs.len(),
{
    if segs.len() > 0 && !has_prefix(segs[0], "gear"@) {
        assert forall|k: int| 0 <= k < segs.len() - 1 implies is_path_component(#[trigger] segs.skip(1)[k]) by {
            assert(segs.skip(1)[k] == segs[k + 1]);
        }
        lemma_first_gear_component(segs.skip(1));
    }
}

/// The name that `storage_file_spec` chooses always lies inside `base`.
proof fn lemma_storage_file_below(base: Seq<char>, segs: Seq<Seq<char>>)
    requires
        base.len() > 0,
        base.last() != '/',
        forall|k: int| 0 <= k < segs.len() ==> is_path_component(#[trigger] segs[k]),
    ensures
        strictly_below(storage_file_spec(base, segs), base),
{
    reveal_strlit("unknown");
    reveal_strlit("bipbopall.m3u8");
    reveal_strlit("prog_index.m3u8");
    reveal_strlit("playlist.m3u8");
    reveal_strlit("segments");
    assert(is_path_component("unknown"@));
    assert(is_path_component("bipbopall.m3u8"@));
    assert(is_path_component("prog_index.m3u8"@));
    assert(is_path_component("playlist.m3u8"@));
    assert(is_path_component("segments"@));
    if segs.len() == 0 {
        lemma_join_below(base, base, "unknown"@);
    } else {
        let last = segs.last();
        assert(is_path_component(segs[segs.len() - 1]));
        lemma_join_below(base, base, last);
        lemma_join_below(base, base, "playlist.m3u8"@);
        lemma_join_below(base, base, "bipbopall.m3u8"@);
        lemma_join_below(base, base, "segments"@);
        lemma_join_below(base, path_join(base, "segments"@), last);
        let b = bipbop_index(segs);
        lemma_bipbop_index_bound(segs);
        if b >= 0 {
            let tail = segs.skip(b + 1);
            assert forall|k: int| 0 <= k < tail.len() implies is_path_component(#[trigger] tail[k]) by {
                assert(tail[k] == segs[k + b + 1]);
            }
            lemma_first_gear_component(tail);
            match first_gear(tail) {
                Some(g) => {
                    lemma_join_below(base, base, g);
                    let bg = path_join(base, g);
                    lemma_join_below(base, bg, "prog_index.m3u8"@);
                    lemma_join_below(base, bg, last);
                    lemma_join_below(base, bg, "segments"@);
                    lemma_join_below(base, path_join(bg, "segments"@), last);
                },
                None => {},
            }
        }
    }
}

/// The file that `get_storage_paths` names for a URL lies strictly inside the
/// directory it names for it: the file path starts with the directory and a
/// slash, and is longer, so the two are never the same path.
pub proof fn lemma_storage_file_inside_dir(url: Seq<char>)
    ensures
        strictly_below(storage_paths_spec(url).1, storage_paths_spec(url).0),
        storage_paths_spec(url).1 != storage_paths_spec(url).0,
{
    reveal_strlit("cache/hls");
    reveal_strlit("unknown");
    assert(is_path_component("unknown"@));
    let root = "cache/hls"@;
    assert(root.len() == 9 && root.last() == 's');
    let key = match url_parts(url) {
        Ok((scheme, host, path)) => {
            let h = match host {
                Some(h) => h,
                None => Seq::empty(),
            };
            scheme + "://"@ + h
        },
        Err(_) => url,
    };
    let hs = hash_url_spec(key);
    lemma_hex_fixed(default_hash(key) as nat, 16);
    assert forall|i: int| 0 <= i < hs.len() implies hs[i] != '/' by {
        assert(is_hex_lower(hs[i]));
    }
    lemma_join_below(root, root, hs);
    let base = path_join(root, hs);
    assert(base.len() > 0 && base.last() != '/');
    match url_parts(url) {
        Ok((scheme, host, path)) => {
            lemma_path_segments_components(path);
            lemma_storage_file_below(base, path_segments(path));
        },
        Err(_) => {
            lemma_join_below(base, base, "unknown"@);
        },
    }
}

/// `bipbop_index` is -1 exactly when no segment holds `bipbop`.
proof fn lemma_bipbop_index_none(segs: Seq<Seq<char>>)
    ensures
        (bipbop_index(segs) < 0) <==> forall|k: int| 0 <= k < segs.len() ==> !contains_sub(#[trigger] segs[k], "bipbop"@),
    decreases segs.len(),
{
    if segs.len() > 0 {
        lemma_bipbop_index_none(segs.skip(1));
        if bipbop_index(segs) < 0 {
            assert forall|k: int| 0 <= k < segs.len() implies !contains_sub(#[trigger] segs[k], "bipbop"@) by {
                if k > 0 {
                    assert(segs.skip(1)[k - 1] == segs[k]);
                }
            }
        } else if !contains_sub(segs[0], "bipbop"@) {
            let k = choose|k: int| 0 <= k < segs.skip(1).len() && contains_sub(#[trigger] segs.skip(1)[k], "bipbop"@);
            assert(segs.skip(1)[k] == segs[k + 1]);
        }
    }
}

/// Where `get_storage_paths` keeps a resource. The directory is `cache/hls`
/// joined with the hash of the URL's scheme and host (of the whole URL when it
/// does not parse). Within it, when no segment of the URL's path holds
/// `bipbop`: a path with no segments, or a URL that does not parse, gives
/// `unknown`; a last segment ending in `.m3u8` gives `playlist.m3u8`; one
/// ending in `.ts` is kept under `segments`; any other is kept under its own
/// name. When a segment holds `bipbop` and the last is `bipbopall.m3u8`, the
/// file is `bipbopall.m3u8`.
pub proof fn lemma_storage_file_by_case(url: Seq<char>)
    ensures
        ({
            let (dir, file) = storage_paths_spec(url);
            match url_parts(url) {
                Ok((scheme, host, path)) => {
                    let segs = path_segments(path);
                    let no_bipbop = forall|k: int| 0 <= k < segs.len() ==> !contains_sub(#[trigger] segs[k], "bipbop"@);
                    &&& dir == path_join("cache/hls"@, hash_url_spec(scheme + "://"@ + match host {
                        Some(h) => h,
                        None => Seq::empty(),
                    }))
                    &&& segs.len() == 0 ==> file == path_join(dir, "unknown"@)
                    &&& segs.len() > 0 && no_bipbop && has_suffix(segs.last(), ".m3u8"@) ==> file == path_join(
                        dir,
                        "playlist.m3u8"@,
                    )
                    &&& segs.len() > 0 && no_bipbop && !has_suffix(segs.last(), ".m3u8"@) && has_suffix(
                        segs.last(),
                        ".ts"@,
                    ) ==> file == path_join(path_join(dir, "segments"@), segs.last())
                    &&& segs.len() > 0 && no_bipbop && !has_suffix(segs.last(), ".m3u8"@) && !has_suffix(
                        segs.last(),
                        ".ts"@,
                    ) ==> file == path_join(dir, segs.last())
                    &&& segs.len() > 0 && !no_bipbop && segs.last() == "bipbopall.m3u8"@ ==> file == path_join(
                        dir,
                        "bipbopall.m3u8"@,
                    )
                },
                Err(_) => {
                    &&& dir == path_join("cache/hls"@, hash_url_spec(url))
                    &&& file == path_join(dir, "unknown"@)
                },
            }
        }),
{
    match url_parts(url) {
        Ok((scheme, host, path)) => {
            lemma_bipbop_index_none(path_segments(path));
        },
        Err(_) => {},
    }
}

} // verus!
