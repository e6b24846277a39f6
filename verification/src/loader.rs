//! The downloads under way, so that one resource is not fetched twice at
//! once.
use crate::cache_cleaner::strs_view;
use crate::error::LoadError;
use crate::text::{chars_of, string_from_chars};
use vstd::prelude::*;

verus! {

/// The URLs being downloaded, in the order their downloads began.
#[derive(Debug)]
pub struct ActiveDownloads {
    urls: Vec<String>,
}

impl ActiveDownloads {
    pub closed spec fn active(&self) -> Seq<Seq<char>> {
        strs_view(self.urls@)
    }

    /// No URL is listed twice.
    pub open spec fn wf(&self) -> bool {
        self.active().no_duplicates()
    }

    /// Nothing under way.
    pub fn new() -> (r: Self)
        ensures
            r.wf(),
            r.active() == Seq::<Seq<char>>::empty(),
    {
        let r = ActiveDownloads { urls: Vec::new() };
        assert(r.active() =~= Seq::<Seq<char>>::empty());
        r
    }

    fn position(&self, url: &str) -> (r: Option<usize>)
        ensures
            match r {
                Some(i) => i < self.active().len() && self.active()[i as int] == url@,
                None => !self.active().contains(url@),
            },
    {
        let u = string_from_chars(&chars_of(url));
        let mut i: usize = 0;
        while i < self.urls.len()
            invariant
                0 <= i <= self.urls@.len(),
                u@ == url@,
                forall|j: int| 0 <= j < i ==> self.active()[j] != url@,
            decreases self.urls@.len() - i,
        {
            assert(self.active()[i as int] == self.urls@[i as int]@);
            if self.urls[i] == u {
                return Some(i);
            }
            i += 1;
        }
        None
    }

    /// Whether `url` is being downloaded.
    pub fn contains(&self, url: &str) -> (r: bool)
        ensures
            r == self.active().contains(url@),
    {
        self.position(url).is_some()
    }

    /// Starts a download of `url`: refused while one is under way.
    pub fn begin(&mut self, url: &str) -> (r: Result<(), LoadError>)
        requires
            old(self).wf(),
        ensures
            final(self).wf(),
            match r {
                Ok(()) => !old(self).active().contains(url@) && final(self).active() == old(self).active().push(
                    url@,
                ),
                Err(e) => old(self).active().contains(url@) && final(self).active() == old(self).active() && (
                e matches LoadError::Cache(m) && m@ == "Resource is being downloaded"@),
            },
    {
        if self.position(url).is_some() {
            return Err(LoadError::Cache(String::from_str("Resource is being downloaded")));
        }
        let ghost a0 = self.active();
        self.urls.push(string_from_chars(&chars_of(url)));
        assert(self.active() =~= a0.push(url@));
        Ok(())
    }

    /// Ends the download of `url`, if one is under way.
    pub fn finish(&mut self, url: &str)
        requires
            old(self).wf(),
        ensures
            final(self).wf(),
            final(self).active() == (if old(self).active().contains(url@) {
                old(self).active().remove(old(self).active().index_of(url@))
            } else {
                old(self).active()
            }),
    {
        match self.position(url) {
            Some(i) => {
                let ghost a0 = self.active();
                proof {
                    a0.index_of_first_ensures(url@);
                    assert(a0.index_of(url@) == i) by {
                        assert(a0.contains(url@));
                        let j = a0.index_of(url@);
                        if j != i {
                            assert(a0[j] == url@);
                        }
                    }
                }
                self.urls.remove(i);
                assert(self.active() =~= a0.remove(i as int));
                assert forall|a: int, b: int|
                    0 <= a < b < self.active().len() implies self.active()[a] != self.active()[b] by {
                    let a0i = if a < i { a } else { a + 1 };
                    let b0i = if b < i { b } else { b + 1 };
                    assert(self.active()[a] == a0[a0i]);
                    assert(self.active()[b] == a0[b0i]);
                }
            },
            None => {},
        }
    }
}

/// Beginning and then finishing a download leaves the list as it was.
pub proof fn lemma_begin_finish(active: Seq<Seq<char>>, url: Seq<char>)
    requires
        active.no_duplicates(),
        !active.contains(url),
    ensures
        active.push(url).contains(url),
        active.push(url).remove(active.push(url).index_of(url)) == active,
{
    let s = active.push(url);
    assert(s[active.len() as int] == url);
    s.index_of_first_ensures(url);
    let j = s.index_of(url);
    if j < active.len() {
        assert(active[j] == url);
        assert(active.contains(url));
    }
    assert(s.remove(j) =~= active);
}

} // verus!
