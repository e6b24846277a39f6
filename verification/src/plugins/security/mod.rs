//! The security plugin: which origins may use the server.
use crate::error::PluginError;
use crate::plugin::Plugin;
use crate::plugins::hls::types::copy_string;
use vstd::prelude::*;

verus! {

/// The origins allowed, and the request rate allowed per client.
#[derive(Debug)]
pub struct SecurityPlugin {
    allowed_origins: Vec<String>,
    rate_limit: u32,
}

impl SecurityPlugin {
    /// The origins allowed.
    pub closed spec fn origins(&self) -> Set<Seq<char>> {
        self.allowed_origins@.map_values(|s: String| s@).to_set()
    }

    pub closed spec fn rate_limit_spec(&self) -> u32 {
        self.rate_limit
    }

    pub closed spec fn wf(&self) -> bool {
        self.allowed_origins@.map_values(|s: String| s@).no_duplicates()
    }

    /// A plugin that allows no origin yet.
    pub fn new(rate_limit: u32) -> (r: Self)
        ensures
            r.wf(),
            r.origins() == Set::<Seq<char>>::empty(),
            r.rate_limit_spec() == rate_limit,
    {
        let r = SecurityPlugin { allowed_origins: Vec::new(), rate_limit };
        assert(r.origins() =~= Set::<Seq<char>>::empty());
        r
    }

    fn position(&self, origin: &str) -> (r: Option<usize>)
        ensures
            match r {
                Some(i) => i < self.allowed_origins@.len() && self.allowed_origins@[i as int]@ == origin@,
                None => !self.origins().contains(origin@),
            },
    {
        let ghost v = self.allowed_origins@.map_values(|s: String| s@);
        let o = crate::text::string_from_chars(&crate::text::chars_of(origin));
        let mut i: usize = 0;
        while i < self.allowed_origins.len()
            invariant
                0 <= i <= self.allowed_origins@.len(),
                o@ == origin@,
                v == self.allowed_origins@.map_values(|s: String| s@),
                forall|k: int| 0 <= k < i ==> v[k] != origin@,
            decreases self.allowed_origins@.len() - i,
        {
            if self.allowed_origins[i] == o {
                return Some(i);
            }
            i += 1;
        }
        assert(!v.contains(origin@));
        None
    }

    /// Allows `origin`.
    pub fn add_allowed_origin(&mut self, origin: String)
        requires
            old(self).wf(),
        ensures
            final(self).wf(),
            final(self).origins() == old(self).origins().insert(origin@),
            final(self).rate_limit_spec() == old(self).rate_limit_spec(),
    {
        let ghost v = self.allowed_origins@.map_values(|s: String| s@);
        match self.position(origin.as_str()) {
            Some(i) => {
                assert(v[i as int] == origin@);
                assert(v.contains(origin@));
                assert(old(self).origins().insert(origin@) =~= old(self).origins());
            },
            None => {
                let ghost o = origin@;
                self.allowed_origins.push(origin);
                assert(self.allowed_origins@.map_values(|s: String| s@) =~= v.push(o));
                proof {
                    v.lemma_push_to_set_commute(o);
                    assert(v.push(o).no_duplicates()) by {
                        assert forall|a: int, b: int| 0 <= a < b < v.push(o).len() implies v.push(o)[a]
                            != v.push(o)[b] by {
                            if b == v.len() {
                                assert(v.contains(v[a]));
                            }
                        }
                    }
                }
            },
        }
    }

    /// Stops allowing `origin`; says whether it was allowed.
    pub fn remove_allowed_origin(&mut self, origin: &str) -> (r: bool)
        requires
            old(self).wf(),
        ensures
            final(self).wf(),
            r == old(self).origins().contains(origin@),
            final(self).origins() == old(self).origins().remove(origin@),
            final(self).rate_limit_spec() == old(self).rate_limit_spec(),
    {
        let ghost v = self.allowed_origins@.map_values(|s: String| s@);
        match self.position(origin) {
            Some(i) => {
                self.allowed_origins.remove(i);
                let ghost w = self.allowed_origins@.map_values(|s: String| s@);
                assert(w =~= v.remove(i as int));
                proof {
                    assert(v[i as int] == origin@);
                    assert(w.no_duplicates()) by {
                        assert forall|a: int, b: int| 0 <= a < b < w.len() implies w[a] != w[b] by {
                            let a2 = if a < i { a } else { a + 1 };
                            let b2 = if b < i { b } else { b + 1 };
                            assert(w[a] == v[a2]);
                            assert(w[b] == v[b2]);
                        }
                    }
                    assert(w.to_set() =~= v.to_set().remove(origin@)) by {
                        assert forall|x: Seq<char>| w.to_set().contains(x) <==> v.to_set().remove(origin@).contains(x) by {
                            if w.to_set().contains(x) {
                                let k = choose|k: int| 0 <= k < w.len() && w[k] == x;
                                let k2 = if k < i { k } else { k + 1 };
                                assert(v[k2] == x);
                                assert(k2 != i);
                            }
                            if v.to_set().remove(origin@).contains(x) {
                                let k = choose|k: int| 0 <= k < v.len() && v[k] == x;
                                assert(k != i);
                                let k2 = if k < i { k } else { k - 1 };
                                assert(w[k2] == x);
                            }
                        }
                    }
                }
                true
            },
            None => {
                assert(old(self).origins().remove(origin@) =~= old(self).origins());
                false
            },
        }
    }

    /// Whether `origin` is allowed.
    pub fn check_origin(&self, origin: &str) -> (r: Result<bool, PluginError>)
        ensures
            r == Ok::<bool, PluginError>(self.origins().contains(origin@)),
    {
        match self.position(origin) {
            Some(i) => {
                assert(self.allowed_origins@.map_values(|s: String| s@)[i as int] == origin@);
                Ok(true)
            },
            None => Ok(false),
        }
    }

    /// Whether the client may make another request: always so, as no rate is
    /// counted yet.
    pub fn check_rate_limit(&self, client_id: &str) -> (r: Result<bool, PluginError>)
        ensures
            r == Ok::<bool, PluginError>(true),
    {
        Ok(true)
    }

    /// The origins allowed, each once.
    pub fn get_allowed_origins(&self) -> (r: Vec<String>)
        requires
            self.wf(),
        ensures
            r@.map_values(|s: String| s@).to_set() == self.origins(),
            r@.map_values(|s: String| s@).no_duplicates(),
    {
        let mut r: Vec<String> = Vec::new();
        let mut i: usize = 0;
        while i < self.allowed_origins.len()
            invariant
                0 <= i <= self.allowed_origins@.len(),
                r@.map_values(|s: String| s@) == self.allowed_origins@.map_values(|s: String| s@).take(i as int),
            decreases self.allowed_origins@.len() - i,
        {
            let ghost before = r@;
            let s = copy_string(&self.allowed_origins[i]);
            r.push(s);
            assert(r@ =~= before.push(s));
            assert(r@.map_values(|s: String| s@) =~= before.map_values(|s: String| s@).push(s@));
            i += 1;
            assert(r@.map_values(|s: String| s@) =~= self.allowed_origins@.map_values(|s: String| s@).take(i as int));
        }
        assert(self.allowed_origins@.map_values(|s: String| s@).take(i as int) =~= self.allowed_origins@.map_values(
            |s: String| s@,
        ));
        r
    }

    /// The allowed rate of requests.
    pub fn rate_limit(&self) -> (r: u32)
        ensures
            r == self.rate_limit_spec(),
    {
        self.rate_limit
    }

    /// Healthy once some origin is allowed.
    pub fn health_check(&self) -> (r: bool)
        ensures
            r == !self.origins().is_empty(),
    {
        let r = self.allowed_origins.len() > 0;
        proof {
            let v = self.allowed_origins@.map_values(|s: String| s@);
            if r {
                assert(self.origins().contains(v[0]));
            } else {
                assert(self.origins() =~= Set::<Seq<char>>::empty());
            }
        }
        r
    }
}

impl Plugin for SecurityPlugin {
    fn name(&self) -> (r: &str)
        ensures
            r@ == "security"@,
    {
        proof {
            reveal_strlit("security");
        }
        "security"
    }

    fn version(&self) -> (r: &str)
        ensures
            r@ == "1.0.0"@,
    {
        proof {
            reveal_strlit("1.0.0");
        }
        "1.0.0"
    }
}

/// Once an origin is added, it is allowed; once removed, it is not.
pub proof fn lemma_origin_add_remove(origins: Set<Seq<char>>, o: Seq<char>)
    ensures
        origins.insert(o).contains(o),
        !origins.remove(o).contains(o),
        origins.insert(o).insert(o) == origins.insert(o),
{
    assert(origins.insert(o).insert(o) =~= origins.insert(o));
}

} // verus!
