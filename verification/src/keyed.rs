//! A list of values keyed by distinct strings, kept in insertion order.
use crate::text::{chars_of, string_from_chars};
use vstd::prelude::*;

verus! {

/// Index of the entry with key `k`, or -1.
pub open spec fn key_index<V>(s: Seq<(Seq<char>, V)>, k: Seq<char>) -> int
    decreases s.len(),
{
    if s.len() == 0 {
        -1
    } else if s.last().0 == k {
        s.len() - 1
    } else {
        key_index(s.drop_last(), k)
    }
}

pub open spec fn distinct_keys<V>(s: Seq<(Seq<char>, V)>) -> bool {
    forall|i: int, j: int| 0 <= i < s.len() && 0 <= j < s.len() && i != j ==> s[i].0 != s[j].0
}

pub proof fn lemma_key_index<V>(s: Seq<(Seq<char>, V)>, k: Seq<char>)
    ensures
        -1 <= key_index(s, k) < s.len(),
        key_index(s, k) >= 0 ==> s[key_index(s, k)].0 == k,
        key_index(s, k) < 0 ==> forall|i: int| 0 <= i < s.len() ==> (#[trigger] s[i]).0 != k,
    decreases s.len(),
{
    if s.len() > 0 && s.last().0 != k {
        lemma_key_index(s.drop_last(), k);
        if key_index(s, k) < 0 {
            assert forall|i: int| 0 <= i < s.len() implies (#[trigger] s[i]).0 != k by {
                if i < s.len() - 1 {
                    assert(s[i] == s.drop_last()[i]);
                }
            }
        }
    }
}

/// In a list with distinct keys, the entry holding key `k` is the one found.
pub proof fn lemma_key_index_at<V>(s: Seq<(Seq<char>, V)>, k: Seq<char>, i: int)
    requires
        distinct_keys(s),
        0 <= i < s.len(),
        s[i].0 == k,
    ensures
        key_index(s, k) == i,
{
    lemma_key_index(s, k);
}

/// Values under distinct keys.
#[derive(Debug)]
pub struct KeyedVec<V> {
    items: Vec<(String, V)>,
}

impl<V> KeyedVec<V> {
    pub closed spec fn entries(&self) -> Seq<(Seq<char>, V)> {
        self.items@.map_values(|p: (String, V)| (p.0@, p.1))
    }

    pub open spec fn wf(&self) -> bool {
        distinct_keys(self.entries())
    }

    pub fn new() -> (r: Self)
        ensures
            r.wf(),
            r.entries() == Seq::<(Seq<char>, V)>::empty(),
    {
        let r = KeyedVec { items: Vec::new() };
        assert(r.entries() =~= Seq::<(Seq<char>, V)>::empty());
        r
    }

    pub fn len(&self) -> (r: usize)
        ensures
            r == self.entries().len(),
    {
        self.items.len()
    }

    /// Index of the entry with key `key`.
    pub fn find(&self, key: &str) -> (r: Option<usize>)
        ensures
            match r {
                Some(i) => key_index(self.entries(), key@) == i as int,
                None => key_index(self.entries(), key@) == -1,
            },
    {
        let k = string_from_chars(&chars_of(key));
        let mut i: usize = self.items.len();
        assert(self.entries().take(i as int) =~= self.entries());
        while i > 0
            invariant
                0 <= i <= self.items@.len(),
                k@ == key@,
                key_index(self.entries(), key@) == key_index(self.entries().take(i as int), key@),
            decreases i,
        {
            assert(self.entries().take(i as int).drop_last() =~= self.entries().take(i - 1));
            if self.items[i - 1].0 == k {
                return Some(i - 1);
            }
            i -= 1;
        }
        None
    }

    /// The value at `i`.
    pub fn value_at(&self, i: usize) -> (r: &V)
        requires
            i < self.entries().len(),
        ensures
            *r == self.entries()[i as int].1,
    {
        &self.items[i].1
    }

    /// Replaces the value at `i`.
    pub fn set_value(&mut self, i: usize, v: V)
        requires
            old(self).wf(),
            i < old(self).entries().len(),
        ensures
            final(self).wf(),
            final(self).entries() == old(self).entries().update(i as int, (old(self).entries()[i as int].0, v)),
    {
        let ghost s = self.entries();
        let (k, _old) = self.items.remove(i);
        let ghost kv = k@;
        self.items.insert(i, (k, v));
        assert(self.entries() =~= s.update(i as int, (kv, v)));
        assert forall|a: int, b: int|
            0 <= a < self.entries().len() && 0 <= b < self.entries().len() && a != b implies self.entries()[a].0
            != self.entries()[b].0 by {
            if a != i {
                assert(self.entries()[a] == s[a]);
            }
            if b != i {
                assert(self.entries()[b] == s[b]);
            }
        }
    }

    /// Adds `v` under `key`, which no entry has.
    pub fn push_new(&mut self, key: &str, v: V)
        requires
            old(self).wf(),
            key_index(old(self).entries(), key@) == -1,
        ensures
            final(self).wf(),
            final(self).entries() == old(self).entries().push((key@, v)),
    {
        let ghost s = self.entries();
        proof {
            lemma_key_index(s, key@);
        }
        self.items.push((string_from_chars(&chars_of(key)), v));
        assert(self.entries() =~= s.push((key@, v)));
        assert forall|a: int, b: int|
            0 <= a < self.entries().len() && 0 <= b < self.entries().len() && a != b implies self.entries()[a].0
            != self.entries()[b].0 by {
            if a < s.len() {
                assert(self.entries()[a] == s[a]);
            }
            if b < s.len() {
                assert(self.entries()[b] == s[b]);
            }
        }
    }

    /// Stores `v` under `key`, replacing the value there if any.
    pub fn put(&mut self, key: &str, v: V)
        requires
            old(self).wf(),
        ensures
            final(self).wf(),
            final(self).entries() == (if key_index(old(self).entries(), key@) >= 0 {
                old(self).entries().update(key_index(old(self).entries(), key@), (key@, v))
            } else {
                old(self).entries().push((key@, v))
            }),
    {
        proof {
            lemma_key_index(self.entries(), key@);
        }
        match self.find(key) {
            Some(i) => self.set_value(i, v),
            None => self.push_new(key, v),
        }
    }

    /// A copy of the key at `i`.
    pub fn key_at(&self, i: usize) -> (r: String)
        requires
            i < self.entries().len(),
        ensures
            r@ == self.entries()[i as int].0,
    {
        self.items[i].0.clone()
    }

    /// Removes the entry at `i`.
    pub fn remove_at(&mut self, i: usize) -> (r: (String, V))
        requires
            old(self).wf(),
            i < old(self).entries().len(),
        ensures
            final(self).wf(),
            final(self).entries() == old(self).entries().remove(i as int),
            r.0@ == old(self).entries()[i as int].0,
            r.1 == old(self).entries()[i as int].1,
    {
        let ghost s = self.entries();
        let r = self.items.remove(i);
        assert(self.entries() =~= s.remove(i as int));
        assert forall|a: int, b: int|
            0 <= a < self.entries().len() && 0 <= b < self.entries().len() && a != b implies self.entries()[a].0
            != self.entries()[b].0 by {
            let a0 = if a < i { a } else { a + 1 };
            let b0 = if b < i { b } else { b + 1 };
            assert(self.entries()[a] == s[a0]);
            assert(self.entries()[b] == s[b0]);
        }
        r
    }
}

} // verus!
