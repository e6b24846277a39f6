//! The proxy's own rules: the URL under which it serves an original URL,
//! and which handler answers a request.
use crate::error::PluginError;
use crate::text::{append_str, chars_of, has_prefix, matches_at, slice_chars, string_from_chars};
use vstd::prelude::*;

verus! {

/// `s` with every leading repetition of `p` removed (what
/// `str::trim_start_matches` does with a non-empty pattern).
pub open spec fn trim_start_all(s: Seq<char>, p: Seq<char>) -> Seq<char>
    decreases s.len(),
{
    if p.len() > 0 && has_prefix(s, p) {
        trim_start_all(s.skip(p.len() as int), p)
    } else {
        s
    }
}

/// The path of a URL once its leading `http://`, then `https://`, then
/// `//` are trimmed away.
pub open spec fn proxy_path(url: Seq<char>) -> Seq<char> {
    trim_start_all(trim_start_all(trim_start_all(url, "http://"@), "https://"@), "//"@)
}

/// The body of the answer when no handler takes a request.
pub open spec fn not_found_text() -> Seq<char> {
    "No handler found for this request"@
}

/// `s` with every leading repetition of `p` removed.
pub fn trim_start_matches(s: &[char], p: &[char]) -> (r: Vec<char>)
    ensures
        r@ == trim_start_all(s@, p@),
{
    if p.len() == 0 {
        return slice_chars(s, 0, s.len());
    }
    let mut start: usize = 0;
    assert(s@.skip(0) =~= s@);
    let n = s.len();
    let m = p.len();
    let mut more = matches_at(s, start, p);
    while more
        invariant
            n == s@.len(),
            m == p@.len(),
            more == has_prefix(s@.skip(start as int), p@),
            0 <= start <= s@.len(),
            p@.len() > 0,
            trim_start_all(s@, p@) == trim_start_all(s@.skip(start as int), p@),
        decreases s@.len() - start,
    {
        let ghost rest = s@.skip(start as int);
        assert(rest.len() == s@.len() - start);
        assert(has_prefix(rest, p@));
        assert(p@.len() <= rest.len());
        assert(rest.skip(p@.len() as int) =~= s@.skip(start + p@.len()));
        start = start + m;
        more = matches_at(s, start, p);
    }
    let r = slice_chars(s, start, s.len());
    assert(r@ =~= s@.skip(start as int));
    r
}

/// The proxy, known by the address it listens on (`host:port`).
#[derive(Debug, Clone)]
pub struct ProxyServer {
    addr: String,
}

impl ProxyServer {
    pub closed spec fn addr_spec(&self) -> Seq<char> {
        self.addr@
    }

    /// A proxy on `addr`.
    pub fn new(addr: &str) -> (r: Self)
        ensures
            r.addr_spec() == addr@,
    {
        ProxyServer { addr: string_from_chars(&chars_of(addr)) }
    }

    /// The address the proxy listens on.
    pub fn addr(&self) -> (r: &str)
        ensures
            r@ == self.addr_spec(),
    {
        self.addr.as_str()
    }

    /// The URL under which the proxy serves `original_url`:
    /// `http://<addr>/<path>`, where the path is the original URL without its
    /// leading `http://`, `https://` and `//`. Never fails.
    pub fn get_proxy_url(&self, original_url: &str) -> (r: Result<String, PluginError>)
        ensures
            r matches Ok(u) && u@ == "http://"@ + self.addr_spec() + "/"@ + proxy_path(original_url@),
    {
        let a = trim_start_matches(&chars_of(original_url), &chars_of("http://"));
        let b = trim_start_matches(&a, &chars_of("https://"));
        let c = trim_start_matches(&b, &chars_of("//"));
        let mut out: Vec<char> = Vec::new();
        append_str(&mut out, "http://");
        append_str(&mut out, self.addr.as_str());
        append_str(&mut out, "/");
        let ghost o0 = out@;
        let mut i: usize = 0;
        while i < c.len()
            invariant
                0 <= i <= c@.len(),
                out@ == o0 + c@.take(i as int),
            decreases c@.len() - i,
        {
            out.push(c[i]);
            assert(out@ =~= o0 + c@.take(i + 1));
            i += 1;
        }
        assert(c@.take(i as int) =~= c@);
        let u = string_from_chars(&out);
        assert(u@ =~= "http://"@ + self.addr@ + "/"@ + proxy_path(original_url@));
        Ok(u)
    }
}

/// The first handler from `from` on that takes the request (`takes[i]`
/// says whether handler `i` does); the proxy tries them in order and moves
/// on when one fails.
pub fn next_handler(takes: &Vec<bool>, from: usize) -> (r: Option<usize>)
    ensures
        match r {
            Some(i) => from <= i < takes@.len() && takes@[i as int] && forall|j: int|
                from <= j < i ==> !#[trigger] takes@[j],
            None => forall|j: int| from <= j < takes@.len() ==> !#[trigger] takes@[j],
        },
{
    let mut i: usize = from;
    while i < takes.len()
        invariant
            from <= i,
            forall|j: int| from <= j < i && j < takes@.len() ==> !#[trigger] takes@[j],
        decreases takes@.len() - i,
    {
        if takes[i] {
            return Some(i);
        }
        i += 1;
    }
    None
}

/// The body of the 404 answer when no handler takes a request.
pub fn not_found_body() -> (r: String)
    ensures
        r@ == not_found_text(),
{
    let r = String::from_str("No handler found for this request");
    proof {
        reveal_strlit("No handler found for this request");
    }
    r
}

} // verus!
