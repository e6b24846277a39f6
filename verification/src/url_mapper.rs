//! Maps source URLs to cache keys, with what is known of each mapping.
use crate::error::PluginError;
use crate::external::{lowercase, parse_url, sha256, sha256_digest, to_lowercase, url_parts, utc_now_millis};
use crate::plugins::hls::types::{copy_opt, copy_string, opt_view};
use crate::text::{append_str, bytes_hex, chars_of, hex_of_bytes, replace_all, replace_all_exec, slice_chars, string_from_chars};
use vstd::prelude::*;
use vstd::utf8::encode_utf8;

verus! {

/// How cache keys are made from URLs.
#[derive(Debug, Clone, Copy)]
pub struct MapperConfig {
    pub strip_query: bool,
    pub normalize_path: bool,
    pub ignore_case: bool,
    pub max_mappings: usize,
}

impl Default for MapperConfig {
    /// Queries stripped, paths normalized and lower-cased, at most 10000
    /// mappings.
    fn default() -> (r: Self)
        ensures
            r.strip_query,
            r.normalize_path,
            r.ignore_case,
            r.max_mappings == 10000,
    {
        MapperConfig { strip_query: true, normalize_path: true, ignore_case: true, max_mappings: 10000 }
    }
}

/// What is handed out about a mapping.
#[derive(Debug, Clone)]
pub struct MappingInfo {
    pub cache_key: String,
    pub content_type: String,
    pub last_modified: Option<String>,
    pub etag: Option<String>,
    /// Creation time in milliseconds since the Unix epoch.
    pub created_at: i64,
    pub access_count: u64,
}

/// Counts over the mappings. (The mean age is computed by the caller from
/// the creation times.)
#[derive(Debug, Clone, Copy)]
pub struct MapperStats {
    pub total_mappings: usize,
    pub total_accesses: u64,
    pub with_etag: usize,
    pub with_last_modified: usize,
}

#[derive(Debug)]
struct UrlMapping {
    source_url: String,
    cache_key: String,
    content_type: String,
    last_modified: Option<String>,
    etag: Option<String>,
    created_at: i64,
    access_count: u64,
}

pub struct MappingView {
    pub source_url: Seq<char>,
    pub cache_key: Seq<char>,
    pub content_type: Seq<char>,
    pub last_modified: Option<Seq<char>>,
    pub etag: Option<Seq<char>>,
    pub created_at: i64,
    pub access_count: u64,
}

impl UrlMapping {
    closed spec fn view_mapping(&self) -> MappingView {
        MappingView {
            source_url: self.source_url@,
            cache_key: self.cache_key@,
            content_type: self.content_type@,
            last_modified: opt_view(self.last_modified),
            etag: opt_view(self.etag),
            created_at: self.created_at,
            access_count: self.access_count,
        }
    }
}

impl MappingInfo {
    pub open spec fn matches(&self, m: MappingView) -> bool {
        &&& self.cache_key@ == m.cache_key
        &&& self.content_type@ == m.content_type
        &&& opt_view(self.last_modified) == m.last_modified
        &&& opt_view(self.etag) == m.etag
        &&& self.created_at == m.created_at
        &&& self.access_count == m.access_count
    }
}

/// The path that names the cache entry: with `normalize_path`, each `//`
/// becomes `/` and one trailing `/` is dropped; with `ignore_case`, it is
/// lower-cased.
pub open spec fn normalized_path(path: Seq<char>, config: MapperConfig) -> Seq<char> {
    let p1 = if config.normalize_path {
        let q = replace_all(path, "//"@, "/"@);
        if q.len() > 0 && q.last() == '/' {
            q.drop_last()
        } else {
            q
        }
    } else {
        path
    };
    if config.ignore_case {
        lowercase(p1)
    } else {
        p1
    }
}

/// The cache key of a URL path: the lower-case hexadecimal SHA-256 digest of
/// the UTF-8 bytes of the normalized path.
pub open spec fn cache_key_spec(path: Seq<char>, config: MapperConfig) -> Seq<char> {
    bytes_hex(sha256(encode_utf8(normalized_path(path, config))))
}

/// A new mapping, not yet accessed.
pub open spec fn fresh_mapping(
    url: Seq<char>,
    key: Seq<char>,
    content_type: Seq<char>,
    last_modified: Option<Seq<char>>,
    etag: Option<Seq<char>>,
    now: i64,
) -> MappingView {
    MappingView { source_url: url, cache_key: key, content_type, last_modified, etag, created_at: now, access_count: 0 }
}

/// Index of the mapping for `url`, or -1.
pub open spec fn mapping_index(s: Seq<MappingView>, url: Seq<char>) -> int
    decreases s.len(),
{
    if s.len() == 0 {
        -1
    } else if s.last().source_url == url {
        s.len() - 1
    } else {
        mapping_index(s.drop_last(), url)
    }
}

pub open spec fn unique_urls(s: Seq<MappingView>) -> bool {
    forall|i: int, j: int| 0 <= i < s.len() && 0 <= j < s.len() && i != j ==> s[i].source_url != s[j].source_url
}

/// `s` with `m` stored under its URL, replacing a mapping for the same URL.
pub open spec fn put_mapping(s: Seq<MappingView>, m: MappingView) -> Seq<MappingView> {
    let i = mapping_index(s, m.source_url);
    if i >= 0 {
        s.update(i, m)
    } else {
        s.push(m)
    }
}

pub open spec fn total_accesses(s: Seq<MappingView>) -> nat
    decreases s.len(),
{
    if s.len() == 0 {
        0
    } else {
        total_accesses(s.drop_last()) + s.last().access_count as nat
    }
}

pub open spec fn count_with_etag(s: Seq<MappingView>) -> nat
    decreases s.len(),
{
    if s.len() == 0 {
        0
    } else {
        count_with_etag(s.drop_last()) + if s.last().etag is Some {
            1nat
        } else {
            0nat
        }
    }
}

pub open spec fn count_with_last_modified(s: Seq<MappingView>) -> nat
    decreases s.len(),
{
    if s.len() == 0 {
        0
    } else {
        count_with_last_modified(s.drop_last()) + if s.last().last_modified is Some {
            1nat
        } else {
            0nat
        }
    }
}

pub proof fn lemma_mapping_index(s: Seq<MappingView>, url: Seq<char>)
    ensures
        -1 <= mapping_index(s, url) < s.len(),
        mapping_index(s, url) >= 0 ==> s[mapping_index(s, url)].source_url == url,
        mapping_index(s, url) < 0 ==> forall|k: int| 0 <= k < s.len() ==> (#[trigger] s[k]).source_url != url,
    decreases s.len(),
{
    if s.len() > 0 && s.last().source_url != url {
        lemma_mapping_index(s.drop_last(), url);
        if mapping_index(s, url) < 0 {
            assert forall|k: int| 0 <= k < s.len() implies (#[trigger] s[k]).source_url != url by {
                if k < s.len() - 1 {
                    assert(s[k] == s.drop_last()[k]);
                }
            }
        }
    }
}

/// The mappings from source URLs to cache keys.
#[derive(Debug)]
pub struct UrlMapper {
    mappings: Vec<UrlMapping>,
    config: MapperConfig,
}

impl UrlMapper {
    pub closed spec fn mappings_spec(&self) -> Seq<MappingView> {
        self.mappings@.map_values(|m: UrlMapping| m.view_mapping())
    }

    pub closed spec fn config_spec(&self) -> MapperConfig {
        self.config
    }

    pub open spec fn wf(&self) -> bool {
        unique_urls(self.mappings_spec())
    }

    /// A mapper with no mappings.
    pub fn new(config: MapperConfig) -> (r: Self)
        ensures
            r.wf(),
            r.mappings_spec() == Seq::<MappingView>::empty(),
            r.config_spec() == config,
    {
        let r = UrlMapper { mappings: Vec::new(), config };
        assert(r.mappings_spec() =~= Seq::<MappingView>::empty());
        r
    }

    fn find(&self, url: &str) -> (r: Option<usize>)
        ensures
            match r {
                Some(i) => mapping_index(self.mappings_spec(), url@) == i as int,
                None => mapping_index(self.mappings_spec(), url@) == -1,
            },
    {
        let u = string_from_chars(&chars_of(url));
        let mut i: usize = self.mappings.len();
        assert(self.mappings_spec().take(i as int) =~= self.mappings_spec());
        while i > 0
            invariant
                0 <= i <= self.mappings@.len(),
                u@ == url@,
                mapping_index(self.mappings_spec(), url@) == mapping_index(self.mappings_spec().take(i as int), url@),
            decreases i,
        {
            assert(self.mappings_spec().take(i as int).drop_last() =~= self.mappings_spec().take(i - 1));
            if self.mappings[i - 1].source_url == u {
                return Some(i - 1);
            }
            i -= 1;
        }
        None
    }

    /// The cache key of a URL path under this mapper's configuration.
    pub fn generate_cache_key(&self, path: &str) -> (r: String)
        ensures
            r@ == cache_key_spec(path@, self.config_spec()),
    {
        let mut p = chars_of(path);
        if self.config.normalize_path {
            proof {
                reveal_strlit("//");
            }
            p = replace_all_exec(&p, &chars_of("//"), &chars_of("/"));
            if p.len() > 0 && p[p.len() - 1] == '/' {
                p = slice_chars(&p, 0, p.len() - 1);
            }
        }
        let ghost p1 = p@;
        let mut s = string_from_chars(&p);
        if self.config.ignore_case {
            s = to_lowercase(s.as_str());
        }
        assert(s@ == normalized_path(path@, self.config_spec()));
        let digest = sha256_digest(s.as_str().as_bytes());
        let hex = hex_of_bytes(&digest);
        string_from_chars(&hex)
    }

    /// Maps `url` at time `now` (milliseconds since the Unix epoch): refused
    /// when the mapper is full or the URL does not parse; otherwise the
    /// mapping, with no accesses yet, replaces any for the same URL and its
    /// cache key is returned.
    pub fn add_mapping_at(
        &mut self,
        url: &str,
        content_type: &str,
        last_modified: Option<String>,
        etag: Option<String>,
        now: i64,
    ) -> (r: Result<String, PluginError>)
        requires
            old(self).wf(),
        ensures
            final(self).wf(),
            final(self).config_spec() == old(self).config_spec(),
            old(self).mappings_spec().len() >= old(self).config_spec().max_mappings ==> {
                &&& final(self).mappings_spec() == old(self).mappings_spec()
                &&& r matches Err(e) && e matches PluginError::Storage(m) && m@ == "Maximum mappings limit reached"@
            },
            old(self).mappings_spec().len() < old(self).config_spec().max_mappings ==> match url_parts(url@) {
                Err(msg) => {
                    &&& final(self).mappings_spec() == old(self).mappings_spec()
                    &&& r matches Err(e) && e matches PluginError::Network(m) && m@ == "Invalid URL: "@ + msg
                },
                Ok((_, _, path)) => {
                    let key = cache_key_spec(path, old(self).config_spec());
                    &&& r matches Ok(k) && k@ == key
                    &&& final(self).mappings_spec() == put_mapping(
                        old(self).mappings_spec(),
                        MappingView {
                            source_url: url@,
                            cache_key: key,
                            content_type: content_type@,
                            last_modified: opt_view(last_modified),
                            etag: opt_view(etag),
                            created_at: now,
                            access_count: 0,
                        },
                    )
                },
            },
    {
        if self.mappings.len() >= self.config.max_mappings {
            return Err(PluginError::Storage(string_from_chars(&chars_of("Maximum mappings limit reached"))));
        }
        let parsed = parse_url(url);
        let path = match parsed {
            Err(msg) => {
                let mut m = chars_of("Invalid URL: ");
                append_str(&mut m, msg.as_str());
                return Err(PluginError::Network(string_from_chars(&m)));
            },
            Ok((_, _, path)) => path,
        };
        let key = self.generate_cache_key(path.as_str());
        let result = copy_string(&key);
        let mapping = UrlMapping {
            source_url: string_from_chars(&chars_of(url)),
            cache_key: key,
            content_type: string_from_chars(&chars_of(content_type)),
            last_modified,
            etag,
            created_at: now,
            access_count: 0,
        };
        let ghost mv = mapping.view_mapping();
        let ghost s = self.mappings_spec();
        proof {
            lemma_mapping_index(s, url@);
        }
        match self.find(url) {
            Some(i) => {
                self.mappings.set(i, mapping);
                assert(self.mappings_spec() =~= s.update(i as int, mv));
                assert(unique_urls(self.mappings_spec())) by {
                    assert forall|a: int, b: int|
                        0 <= a < self.mappings_spec().len() && 0 <= b < self.mappings_spec().len() && a != b implies self.mappings_spec()[a].source_url
                        != self.mappings_spec()[b].source_url by {
                        if a != i {
                            assert(self.mappings_spec()[a] == s[a]);
                        }
                        if b != i {
                            assert(self.mappings_spec()[b] == s[b]);
                        }
                    }
                }
            },
            None => {
                self.mappings.push(mapping);
                assert(self.mappings_spec() =~= s.push(mv));
                assert(unique_urls(self.mappings_spec())) by {
                    assert forall|a: int, b: int|
                        0 <= a < self.mappings_spec().len() && 0 <= b < self.mappings_spec().len() && a != b implies self.mappings_spec()[a].source_url
                        != self.mappings_spec()[b].source_url by {
                        if a < s.len() {
                            assert(self.mappings_spec()[a] == s[a]);
                        }
                        if b < s.len() {
                            assert(self.mappings_spec()[b] == s[b]);
                        }
                    }
                }
            },
        }
        Ok(result)
    }

    /// `add_mapping_at` stamped with the current time.
    pub fn add_mapping(
        &mut self,
        url: &str,
        content_type: &str,
        last_modified: Option<String>,
        etag: Option<String>,
    ) -> (r: Result<String, PluginError>)
        requires
            old(self).wf(),
        ensures
            final(self).wf(),
            final(self).config_spec() == old(self).config_spec(),
            old(self).mappings_spec().len() >= old(self).config_spec().max_mappings ==> {
                &&& final(self).mappings_spec() == old(self).mappings_spec()
                &&& r matches Err(e) && e matches PluginError::Storage(m) && m@ == "Maximum mappings limit reached"@
            },
            old(self).mappings_spec().len() < old(self).config_spec().max_mappings ==> match url_parts(url@) {
                Err(msg) => {
                    &&& final(self).mappings_spec() == old(self).mappings_spec()
                    &&& r matches Err(e) && e matches PluginError::Network(m) && m@ == "Invalid URL: "@ + msg
                },
                Ok((_, _, path)) => {
                    let key = cache_key_spec(path, old(self).config_spec());
                    &&& r matches Ok(k) && k@ == key
                    &&& exists|now: i64|
                        final(self).mappings_spec() == put_mapping(
                            old(self).mappings_spec(),
                            #[trigger] fresh_mapping(url@, key, content_type@, opt_view(last_modified), opt_view(etag), now),
                        )
                },
            },
    {
        let now = utc_now_millis();
        let ghost lmv = opt_view(last_modified);
        let ghost ev = opt_view(etag);
        let ghost cfg = self.config_spec();
        let r = self.add_mapping_at(url, content_type, last_modified, etag, now);
        proof {
            match url_parts(url@) {
                Ok((_, _, path)) => {
                    let _m = fresh_mapping(url@, cache_key_spec(path, cfg), content_type@, lmv, ev, now);
                },
                Err(_) => {},
            }
        }
        r
    }

    /// The mapping for `url`, counted as one more access.
    pub fn get_mapping(&mut self, url: &str) -> (r: Option<MappingInfo>)
        requires
            old(self).wf(),
            mapping_index(old(self).mappings_spec(), url@) >= 0 ==> old(self).mappings_spec()[mapping_index(
                old(self).mappings_spec(),
                url@,
            )].access_count < u64::MAX,
        ensures
            final(self).wf(),
            final(self).config_spec() == old(self).config_spec(),
            ({
                let i = mapping_index(old(self).mappings_spec(), url@);
                if i < 0 {
                    r is None && final(self).mappings_spec() == old(self).mappings_spec()
                } else {
                    let m = MappingView {
                        access_count: (old(self).mappings_spec()[i].access_count + 1) as u64,
                        ..old(self).mappings_spec()[i]
                    };
                    &&& final(self).mappings_spec() == old(self).mappings_spec().update(i, m)
                    &&& r matches Some(info) && info.matches(m)
                }
            }),
    {
        let ghost s = self.mappings_spec();
        proof {
            lemma_mapping_index(s, url@);
        }
        match self.find(url) {
            None => None,
            Some(i) => {
                let mut m = self.mappings.remove(i);
                m.access_count = m.access_count + 1;
                let info = MappingInfo {
                    cache_key: copy_string(&m.cache_key),
                    content_type: copy_string(&m.content_type),
                    last_modified: copy_opt(&m.last_modified),
                    etag: copy_opt(&m.etag),
                    created_at: m.created_at,
                    access_count: m.access_count,
                };
                let ghost mv = m.view_mapping();
                self.mappings.insert(i, m);
                assert(self.mappings_spec() =~= s.update(i as int, mv));
                assert(unique_urls(self.mappings_spec())) by {
                    assert forall|a: int, b: int|
                        0 <= a < self.mappings_spec().len() && 0 <= b < self.mappings_spec().len() && a != b implies self.mappings_spec()[a].source_url
                        != self.mappings_spec()[b].source_url by {
                        if a != i {
                            assert(self.mappings_spec()[a] == s[a]);
                        }
                        if b != i {
                            assert(self.mappings_spec()[b] == s[b]);
                        }
                    }
                }
                Some(info)
            },
        }
    }

    /// Replaces the validators of the mapping for `url`; "Mapping not found"
    /// when there is none.
    pub fn update_mapping(&mut self, url: &str, last_modified: Option<String>, etag: Option<String>) -> (r: Result<(), PluginError>)
        requires
            old(self).wf(),
        ensures
            final(self).wf(),
            final(self).config_spec() == old(self).config_spec(),
            ({
                let i = mapping_index(old(self).mappings_spec(), url@);
                if i < 0 {
                    &&& final(self).mappings_spec() == old(self).mappings_spec()
                    &&& r matches Err(e) && e matches PluginError::Network(m) && m@ == "Mapping not found"@
                } else {
                    &&& r is Ok
                    &&& final(self).mappings_spec() == old(self).mappings_spec().update(
                        i,
                        MappingView {
                            last_modified: opt_view(last_modified),
                            etag: opt_view(etag),
                            ..old(self).mappings_spec()[i]
                        },
                    )
                }
            }),
    {
        let ghost s = self.mappings_spec();
        proof {
            lemma_mapping_index(s, url@);
        }
        match self.find(url) {
            None => Err(PluginError::Network(string_from_chars(&chars_of("Mapping not found")))),
            Some(i) => {
                let mut m = self.mappings.remove(i);
                m.last_modified = last_modified;
                m.etag = etag;
                let ghost mv = m.view_mapping();
                self.mappings.insert(i, m);
                assert(self.mappings_spec() =~= s.update(i as int, mv));
                assert(unique_urls(self.mappings_spec())) by {
                    assert forall|a: int, b: int|
                        0 <= a < self.mappings_spec().len() && 0 <= b < self.mappings_spec().len() && a != b implies self.mappings_spec()[a].source_url
                        != self.mappings_spec()[b].source_url by {
                        if a != i {
                            assert(self.mappings_spec()[a] == s[a]);
                        }
                        if b != i {
                            assert(self.mappings_spec()[b] == s[b]);
                        }
                    }
                }
                Ok(())
            },
        }
    }

    /// Removes the mapping for `url`; says whether there was one.
    pub fn remove_mapping(&mut self, url: &str) -> (r: bool)
        requires
            old(self).wf(),
        ensures
            final(self).wf(),
            final(self).config_spec() == old(self).config_spec(),
            ({
                let i = mapping_index(old(self).mappings_spec(), url@);
                &&& r == (i >= 0)
                &&& final(self).mappings_spec() == (if i >= 0 {
                    old(self).mappings_spec().remove(i)
                } else {
                    old(self).mappings_spec()
                })
            }),
    {
        let ghost s = self.mappings_spec();
        match self.find(url) {
            None => false,
            Some(i) => {
                proof {
                    lemma_mapping_index(s, url@);
                }
                self.mappings.remove(i);
                assert(self.mappings_spec() =~= s.remove(i as int));
                assert(unique_urls(self.mappings_spec())) by {
                    assert forall|a: int, b: int|
                        0 <= a < self.mappings_spec().len() && 0 <= b < self.mappings_spec().len() && a != b implies self.mappings_spec()[a].source_url
                        != self.mappings_spec()[b].source_url by {
                        let a2 = if a < i { a } else { a + 1 };
                        let b2 = if b < i { b } else { b + 1 };
                        assert(self.mappings_spec()[a] == s[a2]);
                        assert(self.mappings_spec()[b] == s[b2]);
                    }
                }
                true
            },
        }
    }

    /// Whether the access counts add up within 64 bits.
    pub fn accesses_fit(&self) -> (r: bool)
        ensures
            r == (total_accesses(self.mappings_spec()) <= u64::MAX),
    {
        let ghost s = self.mappings_spec();
        let mut acc: u64 = 0;
        let mut i: usize = 0;
        while i < self.mappings.len()
            invariant
                0 <= i <= self.mappings@.len(),
                s == self.mappings_spec(),
                acc == total_accesses(s.take(i as int)),
            decreases self.mappings@.len() - i,
        {
            proof {
                assert(s.take(i + 1).drop_last() =~= s.take(i as int));
            }
            let c = self.mappings[i].access_count;
            if c > u64::MAX - acc {
                proof {
                    lemma_total_accesses_prefix(s, i + 1);
                }
                return false;
            }
            acc = acc + c;
            i += 1;
        }
        assert(s.take(i as int) =~= s);
        true
    }

    /// How often the mapping for `url` was read, if there is one.
    pub fn access_count(&self, url: &str) -> (r: Option<u64>)
        requires
            self.wf(),
        ensures
            match r {
                Some(c) => mapping_index(self.mappings_spec(), url@) >= 0 && c == self.mappings_spec()[mapping_index(
                    self.mappings_spec(),
                    url@,
                )].access_count,
                None => mapping_index(self.mappings_spec(), url@) < 0,
            },
    {
        proof {
            lemma_mapping_index(self.mappings_spec(), url@);
        }
        match self.find(url) {
            Some(i) => {
                assert(self.mappings_spec()[i as int] == self.mappings@[i as int].view_mapping());
                Some(self.mappings[i].access_count)
            },
            None => None,
        }
    }

    /// Counts over the mappings.
    pub fn get_stats(&self) -> (r: MapperStats)
        requires
            total_accesses(self.mappings_spec()) <= u64::MAX,
        ensures
            r.total_mappings == self.mappings_spec().len(),
            r.total_accesses == total_accesses(self.mappings_spec()),
            r.with_etag == count_with_etag(self.mappings_spec()),
            r.with_last_modified == count_with_last_modified(self.mappings_spec()),
    {
        let ghost s = self.mappings_spec();
        let mut acc: u64 = 0;
        let mut etags: usize = 0;
        let mut lms: usize = 0;
        let mut i: usize = 0;
        while i < self.mappings.len()
            invariant
                0 <= i <= self.mappings@.len(),
                s == self.mappings_spec(),
                total_accesses(s) <= u64::MAX,
                acc == total_accesses(s.take(i as int)),
                etags == count_with_etag(s.take(i as int)),
                lms == count_with_last_modified(s.take(i as int)),
                etags <= i,
                lms <= i,
            decreases self.mappings@.len() - i,
        {
            proof {
                assert(s.take(i + 1).drop_last() =~= s.take(i as int));
                lemma_total_accesses_prefix(s, i + 1);
            }
            let m = &self.mappings[i];
            acc = acc + m.access_count;
            if m.etag.is_some() {
                etags += 1;
            }
            if m.last_modified.is_some() {
                lms += 1;
            }
            i += 1;
        }
        assert(s.take(i as int) =~= s);
        MapperStats { total_mappings: self.mappings.len(), total_accesses: acc, with_etag: etags, with_last_modified: lms }
    }

    /// The creation times of the mappings, in milliseconds since the Unix
    /// epoch.
    pub fn created_times(&self) -> (r: Vec<i64>)
        ensures
            r@ == self.mappings_spec().map_values(|m: MappingView| m.created_at),
    {
        let mut r: Vec<i64> = Vec::new();
        let mut i: usize = 0;
        while i < self.mappings.len()
            invariant
                0 <= i <= self.mappings@.len(),
                r@ == self.mappings_spec().map_values(|m: MappingView| m.created_at).take(i as int),
            decreases self.mappings@.len() - i,
        {
            r.push(self.mappings[i].created_at);
            i += 1;
            assert(r@ =~= self.mappings_spec().map_values(|m: MappingView| m.created_at).take(i as int));
        }
        assert(self.mappings_spec().map_values(|m: MappingView| m.created_at).take(i as int) =~= self.mappings_spec().map_values(
            |m: MappingView| m.created_at,
        ));
        r
    }
}

pub proof fn lemma_total_accesses_prefix(s: Seq<MappingView>, i: int)
    requires
        0 <= i <= s.len(),
    ensures
        total_accesses(s.take(i)) <= total_accesses(s),
    decreases s.len(),
{
    if i < s.len() {
        lemma_total_accesses_prefix(s.drop_last(), i);
        assert(s.drop_last().take(i) =~= s.take(i));
    } else {
        assert(s.take(i) =~= s);
    }
}

} // verus!

verus! {

/// Storing a mapping and then looking up its URL finds it; other URLs find
/// what they found before; URLs stay unique.
pub proof fn lemma_put_then_find(s: Seq<MappingView>, m: MappingView, other: Seq<char>)
    requires
        unique_urls(s),
    ensures
        unique_urls(put_mapping(s, m)),
        mapping_index(put_mapping(s, m), m.source_url) >= 0,
        put_mapping(s, m)[mapping_index(put_mapping(s, m), m.source_url)] == m,
        other != m.source_url && mapping_index(s, other) >= 0 ==> mapping_index(put_mapping(s, m), other) >= 0
            && put_mapping(s, m)[mapping_index(put_mapping(s, m), other)] == s[mapping_index(s, other)],
        other != m.source_url && mapping_index(s, other) < 0 ==> mapping_index(put_mapping(s, m), other) < 0,
{
    let t = put_mapping(s, m);
    lemma_mapping_index(s, m.source_url);
    lemma_mapping_index(s, other);
    let i = mapping_index(s, m.source_url);
    assert(unique_urls(t)) by {
        assert forall|a: int, b: int| 0 <= a < t.len() && 0 <= b < t.len() && a != b implies t[a].source_url
            != t[b].source_url by {
            if i >= 0 {
                if a != i {
                    assert(t[a] == s[a]);
                }
                if b != i {
                    assert(t[b] == s[b]);
                }
            } else {
                if a < s.len() {
                    assert(t[a] == s[a]);
                }
                if b < s.len() {
                    assert(t[b] == s[b]);
                }
            }
        }
    }
    lemma_mapping_index(t, m.source_url);
    lemma_mapping_index(t, other);
    let j = mapping_index(t, m.source_url);
    if i >= 0 {
        assert(t[i] == m);
    } else {
        assert(t[s.len() as int] == m);
    }
    assert(t[j] == m);
    let k = mapping_index(s, other);
    if other != m.source_url && k >= 0 {
        assert(t[k] == s[k]);
    }
    if other != m.source_url && k < 0 {
        let k2 = mapping_index(t, other);
        if k2 >= 0 {
            if i >= 0 {
                assert(k2 != i);
                assert(t[k2] == s[k2]);
            } else {
                assert(k2 < s.len());
                assert(t[k2] == s[k2]);
            }
        }
    }
}

} // verus!
