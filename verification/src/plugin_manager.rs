//! The names of the registered plugins: a name is registered once.
use crate::cache_cleaner::strs_view;
use crate::error::PluginError;
use crate::text::{append_str, chars_of, string_from_chars};
use vstd::prelude::*;

verus! {

/// The names of the plugins registered, in the order they were.
#[derive(Debug)]
pub struct PluginRegistry {
    names: Vec<String>,
}

impl PluginRegistry {
    pub closed spec fn names_spec(&self) -> Seq<Seq<char>> {
        strs_view(self.names@)
    }

    /// No name is registered twice.
    pub open spec fn wf(&self) -> bool {
        self.names_spec().no_duplicates()
    }

    /// No plugin yet.
    pub fn new() -> (r: Self)
        ensures
            r.wf(),
            r.names_spec() == Seq::<Seq<char>>::empty(),
    {
        let r = PluginRegistry { names: Vec::new() };
        assert(r.names_spec() =~= Seq::<Seq<char>>::empty());
        r
    }

    /// Whether a plugin named `name` is registered.
    pub fn contains(&self, name: &str) -> (r: bool)
        ensures
            r == self.names_spec().contains(name@),
    {
        let u = string_from_chars(&chars_of(name));
        let mut i: usize = 0;
        while i < self.names.len()
            invariant
                0 <= i <= self.names@.len(),
                u@ == name@,
                forall|j: int| 0 <= j < i ==> self.names_spec()[j] != name@,
            decreases self.names@.len() - i,
        {
            assert(self.names_spec()[i as int] == self.names@[i as int]@);
            if self.names[i] == u {
                return true;
            }
            i += 1;
        }
        false
    }

    /// Whether `name` may be registered: refused when it already is.
    pub fn check_new(&self, name: &str) -> (r: Result<(), PluginError>)
        ensures
            match r {
                Ok(()) => !self.names_spec().contains(name@),
                Err(e) => self.names_spec().contains(name@) && (e matches PluginError::Plugin(m) && m@
                    == "Plugin "@ + name@ + " already registered"@),
            },
    {
        if self.contains(name) {
            let mut out: Vec<char> = Vec::new();
            append_str(&mut out, "Plugin ");
            append_str(&mut out, name);
            append_str(&mut out, " already registered");
            let m = string_from_chars(&out);
            assert(m@ =~= "Plugin "@ + name@ + " already registered"@);
            return Err(PluginError::Plugin(m));
        }
        Ok(())
    }

    /// Registers `name` (once its plugin has started).
    pub fn insert(&mut self, name: &str) -> (r: Result<(), PluginError>)
        requires
            old(self).wf(),
        ensures
            final(self).wf(),
            match r {
                Ok(()) => !old(self).names_spec().contains(name@) && final(self).names_spec() == old(
                    self,
                ).names_spec().push(name@),
                Err(e) => old(self).names_spec().contains(name@) && final(self).names_spec() == old(
                    self,
                ).names_spec() && (e matches PluginError::Plugin(m) && m@ == "Plugin "@ + name@
                    + " already registered"@),
            },
    {
        self.check_new(name)?;
        let ghost n0 = self.names_spec();
        self.names.push(string_from_chars(&chars_of(name)));
        assert(self.names_spec() =~= n0.push(name@));
        Ok(())
    }

    /// The names registered, in order.
    pub fn names(&self) -> (r: Vec<String>)
        ensures
            strs_view(r@) == self.names_spec(),
    {
        let mut out: Vec<String> = Vec::new();
        let mut i: usize = 0;
        while i < self.names.len()
            invariant
                0 <= i <= self.names@.len(),
                strs_view(out@) == self.names_spec().take(i as int),
            decreases self.names@.len() - i,
        {
            let s = self.names[i].clone();
            assert(s@ == self.names_spec()[i as int]);
            let ghost o0 = strs_view(out@);
            out.push(s);
            assert(strs_view(out@) =~= o0.push(s@));
            assert(strs_view(out@) =~= self.names_spec().take(i + 1));
            i += 1;
        }
        assert(self.names_spec().take(i as int) =~= self.names_spec());
        out
    }
}

/// A name just registered is among the names, so that registering it again
/// is refused and changes nothing (by `insert`'s contract).
pub proof fn lemma_register_once(names: Seq<Seq<char>>, name: Seq<char>)
    ensures
        names.push(name).contains(name),
{
    assert(names.push(name)[names.len() as int] == name);
}

} // verus!
