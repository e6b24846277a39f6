//! A table of stored files, keyed by name, with the space they use.
use crate::text::{chars_of, string_from_chars};
use vstd::prelude::*;

verus! {

/// One stored file.
#[derive(Debug)]
pub struct FileEntry<M> {
    pub key: String,
    pub path: String,
    pub size: u64,
    /// Last access, in milliseconds on the caller's clock.
    pub last_access: u64,
    pub meta: M,
}

pub struct EntryView<M> {
    pub key: Seq<char>,
    pub path: Seq<char>,
    pub size: u64,
    pub last_access: u64,
    pub meta: M,
}

impl<M> FileEntry<M> {
    pub open spec fn view_entry(&self) -> EntryView<M> {
        EntryView {
            key: self.key@,
            path: self.path@,
            size: self.size,
            last_access: self.last_access,
            meta: self.meta,
        }
    }
}

pub open spec fn entries_view<M>(v: Seq<FileEntry<M>>) -> Seq<EntryView<M>> {
    v.map_values(|e: FileEntry<M>| e.view_entry())
}

/// No two entries share a key.
pub open spec fn unique_keys<M>(s: Seq<EntryView<M>>) -> bool {
    forall|i: int, j: int| 0 <= i < s.len() && 0 <= j < s.len() && i != j ==> s[i].key != s[j].key
}

/// The sizes of the entries, added up.
pub open spec fn sum_sizes<M>(s: Seq<EntryView<M>>) -> nat
    decreases s.len(),
{
    if s.len() == 0 {
        0
    } else {
        sum_sizes(s.drop_last()) + s.last().size as nat
    }
}

/// Index of the entry with key `k`, or -1.
pub open spec fn index_of_key<M>(s: Seq<EntryView<M>>, k: Seq<char>) -> int
    decreases s.len(),
{
    if s.len() == 0 {
        -1
    } else if s.last().key == k {
        s.len() - 1
    } else {
        index_of_key(s.drop_last(), k)
    }
}

/// `s` with the entry at `i` removed.
pub open spec fn remove_at<M>(s: Seq<EntryView<M>>, i: int) -> Seq<EntryView<M>> {
    s.take(i) + s.skip(i + 1)
}

/// Milliseconds from `since` to `now`, or 0 when `since` is later (as
/// `Instant::duration_since` saturates).
pub open spec fn elapsed(now: u64, since: u64) -> nat {
    if now >= since {
        (now - since) as nat
    } else {
        0
    }
}

/// Files stored, the space they are charged for and the space allowed.
///
/// The space charged grows by the size of each file stored, also when a file
/// replaces one with the same key, and shrinks only when the caller releases
/// the space of a file it removed. It never exceeds the space allowed, and it
/// is never less than the sizes of the files held.
#[derive(Debug)]
pub struct FileTable<M> {
    entries: Vec<FileEntry<M>>,
    used_space: u64,
    max_space: u64,
}

impl<M> FileTable<M> {
    pub closed spec fn entries(&self) -> Seq<EntryView<M>> {
        entries_view(self.entries@)
    }

    pub closed spec fn used(&self) -> u64 {
        self.used_space
    }

    pub closed spec fn max(&self) -> u64 {
        self.max_space
    }

    pub open spec fn wf(&self) -> bool {
        &&& unique_keys(self.entries())
        &&& self.used() <= self.max()
        &&& sum_sizes(self.entries()) <= self.used()
    }

    /// An empty table that allows `max_space` bytes.
    pub fn new(max_space: u64) -> (r: Self)
        ensures
            r.wf(),
            r.entries() == Seq::<EntryView<M>>::empty(),
            r.used() == 0,
            r.max() == max_space,
    {
        let r = FileTable { entries: Vec::new(), used_space: 0, max_space };
        assert(r.entries() =~= Seq::<EntryView<M>>::empty());
        r
    }

    pub fn used_space(&self) -> (r: u64)
        ensures
            r == self.used(),
    {
        self.used_space
    }

    pub fn max_space(&self) -> (r: u64)
        ensures
            r == self.max(),
    {
        self.max_space
    }

    pub fn len(&self) -> (r: usize)
        ensures
            r == self.entries().len(),
    {
        self.entries.len()
    }

    /// Whether `size` more bytes fit in the space allowed.
    pub fn admits(&self, size: u64) -> (r: bool)
        ensures
            r == (self.used() + size <= self.max()),
    {
        size <= self.max_space && self.used_space <= self.max_space - size
    }

    /// Index of the entry with key `key`.
    pub fn find(&self, key: &str) -> (r: Option<usize>)
        ensures
            match r {
                Some(i) => i < self.entries().len() && self.entries()[i as int].key == key@
                    && index_of_key(self.entries(), key@) == i,
                None => index_of_key(self.entries(), key@) == -1 && forall|i: int|
                    0 <= i < self.entries().len() ==> (#[trigger] self.entries()[i]).key != key@,
            },
    {
        let k = string_from_chars(&chars_of(key));
        let mut i: usize = self.entries.len();
        assert(self.entries().take(i as int) =~= self.entries());
        while i > 0
            invariant
                0 <= i <= self.entries@.len(),
                k@ == key@,
                self.entries() == entries_view(self.entries@),
                forall|j: int| i <= j < self.entries@.len() ==> (#[trigger] self.entries()[j]).key != key@,
                index_of_key(self.entries(), key@) == index_of_key(self.entries().take(i as int), key@),
            decreases i,
        {
            let ghost t = self.entries().take(i as int);
            assert(t.drop_last() =~= self.entries().take(i - 1));
            if self.entries[i - 1].key == k {
                return Some(i - 1);
            }
            i -= 1;
        }
        None
    }

    /// The entry at `i`.
    pub fn entry_at(&self, i: usize) -> (r: &FileEntry<M>)
        requires
            i < self.entries().len(),
        ensures
            r.view_entry() == self.entries()[i as int],
    {
        &self.entries[i]
    }

    /// Stores a file of `size` bytes under `key`, replacing an entry with the
    /// same key, and charges `size` bytes.
    pub fn insert(&mut self, key: String, path: String, size: u64, now: u64, meta: M)
        requires
            old(self).wf(),
            old(self).used() + size <= old(self).max(),
        ensures
            final(self).wf(),
            final(self).used() == old(self).used() + size,
            final(self).max() == old(self).max(),
            final(self).entries() == (if index_of_key(old(self).entries(), key@) >= 0 {
                old(self).entries().update(
                    index_of_key(old(self).entries(), key@),
                    EntryView { key: key@, path: path@, size, last_access: now, meta },
                )
            } else {
                old(self).entries().push(
                    EntryView { key: key@, path: path@, size, last_access: now, meta },
                )
            }),
    {
        let ghost s = self.entries();
        let e = FileEntry { key, path, size, last_access: now, meta };
        let ghost ev = e.view_entry();
        match self.find(e.key.as_str()) {
            Some(i) => {
                self.entries.set(i, e);
                assert(self.entries() =~= s.update(i as int, ev));
                proof {
                    lemma_sum_update(s, i as int, ev);
                    assert forall|a: int, b: int|
                        0 <= a < self.entries().len() && 0 <= b < self.entries().len() && a != b implies self.entries()[a].key
                        != self.entries()[b].key by {
                        if a != i && b != i {
                            assert(self.entries()[a] == s[a]);
                            assert(self.entries()[b] == s[b]);
                        } else if a == i {
                            assert(self.entries()[b] == s[b]);
                        } else {
                            assert(self.entries()[a] == s[a]);
                        }
                    }
                }
            },
            None => {
                self.entries.push(e);
                assert(self.entries() =~= s.push(ev));
                proof {
                    assert(self.entries().drop_last() =~= s);
                    assert forall|a: int, b: int|
                        0 <= a < self.entries().len() && 0 <= b < self.entries().len() && a != b implies self.entries()[a].key
                        != self.entries()[b].key by {
                        if a < s.len() {
                            assert(self.entries()[a] == s[a]);
                        }
                        if b < s.len() {
                            assert(self.entries()[b] == s[b]);
                        }
                    }
                }
            },
        }
        self.used_space = self.used_space + size;
    }

    /// Sets the last access of the entry at `i` to `now`.
    pub fn touch(&mut self, i: usize, now: u64)
        requires
            old(self).wf(),
            i < old(self).entries().len(),
        ensures
            final(self).wf(),
            final(self).used() == old(self).used(),
            final(self).max() == old(self).max(),
            final(self).entries() == old(self).entries().update(
                i as int,
                EntryView { last_access: now, ..old(self).entries()[i as int] },
            ),
    {
        let ghost s = self.entries();
        let mut e = self.entries.remove(i);
        e.last_access = now;
        let ghost ev = e.view_entry();
        self.entries.insert(i, e);
        assert(self.entries() =~= s.update(i as int, ev));
        proof {
            lemma_sum_update(s, i as int, ev);
            assert forall|a: int, b: int|
                0 <= a < self.entries().len() && 0 <= b < self.entries().len() && a != b implies self.entries()[a].key
                != self.entries()[b].key by {
                if a != i {
                    assert(self.entries()[a] == s[a]);
                }
                if b != i {
                    assert(self.entries()[b] == s[b]);
                }
            }
        }
    }

    /// Removes the entry at `i` and hands it back; the space charged stays
    /// until the caller releases it.
    pub fn remove_at(&mut self, i: usize) -> (r: FileEntry<M>)
        requires
            old(self).wf(),
            i < old(self).entries().len(),
        ensures
            final(self).wf(),
            r.view_entry() == old(self).entries()[i as int],
            final(self).entries() == remove_at(old(self).entries(), i as int),
            final(self).used() == old(self).used(),
            final(self).max() == old(self).max(),
            sum_sizes(final(self).entries()) + r.size <= final(self).used(),
    {
        let ghost s = self.entries();
        let e = self.entries.remove(i);
        assert(self.entries() =~= remove_at(s, i as int));
        proof {
            lemma_sum_remove(s, i as int);
            assert forall|a: int, b: int|
                0 <= a < self.entries().len() && 0 <= b < self.entries().len() && a != b implies self.entries()[a].key
                != self.entries()[b].key by {
                let a2 = if a < i { a } else { a + 1 };
                let b2 = if b < i { b } else { b + 1 };
                assert(self.entries()[a] == s[a2]);
                assert(self.entries()[b] == s[b2]);
            }
        }
        e
    }

    /// Stops charging `size` bytes, which the caller no longer holds.
    pub fn release(&mut self, size: u64)
        requires
            old(self).wf(),
            sum_sizes(old(self).entries()) + size <= old(self).used(),
        ensures
            final(self).wf(),
            final(self).used() == old(self).used() - size,
            final(self).max() == old(self).max(),
            final(self).entries() == old(self).entries(),
    {
        self.used_space = self.used_space - size;
    }
}

/// The keys of the entries whose last access lies more than `ttl`
/// milliseconds before `now`, in table order.
pub open spec fn expired_keys_spec<M>(s: Seq<EntryView<M>>, now: u64, ttl: u64) -> Seq<Seq<char>>
    decreases s.len(),
{
    if s.len() == 0 {
        Seq::empty()
    } else {
        let r = expired_keys_spec(s.drop_last(), now, ttl);
        if elapsed(now, s.last().last_access) > ttl {
            r.push(s.last().key)
        } else {
            r
        }
    }
}

impl<M> FileTable<M> {
    /// The keys of the entries not accessed for more than `ttl` milliseconds.
    pub fn expired_keys(&self, now: u64, ttl: u64) -> (r: Vec<String>)
        ensures
            r@.map_values(|k: String| k@) == expired_keys_spec(self.entries(), now, ttl),
    {
        let mut r: Vec<String> = Vec::new();
        let mut i: usize = 0;
        while i < self.entries.len()
            invariant
                0 <= i <= self.entries@.len(),
                self.entries() == entries_view(self.entries@),
                r@.map_values(|k: String| k@) == expired_keys_spec(self.entries().take(i as int), now, ttl),
            decreases self.entries@.len() - i,
        {
            let e = &self.entries[i];
            proof {
                assert(self.entries().take(i + 1).drop_last() =~= self.entries().take(i as int));
            }
            let age: u64 = if now >= e.last_access {
                now - e.last_access
            } else {
                0
            };
            if age > ttl {
                let ghost before = r@;
                r.push(string_from_chars(&chars_of(e.key.as_str())));
                assert(r@.map_values(|k: String| k@) =~= before.map_values(|k: String| k@).push(e.key@));
            }
            i += 1;
        }
        assert(self.entries().take(i as int) =~= self.entries());
        r
    }
}

/// The entries of `s` whose mark is false, in order.
pub open spec fn unmarked<M>(s: Seq<EntryView<M>>, marks: Seq<bool>) -> Seq<EntryView<M>>
    decreases s.len(),
{
    if s.len() == 0 {
        Seq::empty()
    } else {
        let r = unmarked(s.drop_last(), marks);
        if marks[s.len() - 1] {
            r
        } else {
            r.push(s.last())
        }
    }
}

/// The entries of `s` whose mark is true, in order.
pub open spec fn marked<M>(s: Seq<EntryView<M>>, marks: Seq<bool>) -> Seq<EntryView<M>>
    decreases s.len(),
{
    if s.len() == 0 {
        Seq::empty()
    } else {
        let r = marked(s.drop_last(), marks);
        if marks[s.len() - 1] {
            r.push(s.last())
        } else {
            r
        }
    }
}

/// For each entry, whether its last access lies more than `ttl`
/// milliseconds before `now`.
pub open spec fn stale_marks<M>(s: Seq<EntryView<M>>, now: u64, ttl: u64) -> Seq<bool> {
    Seq::new(s.len(), |i: int| elapsed(now, s[i].last_access) > ttl)
}

impl<M> FileTable<M> {
    /// For each entry, in table order, whether it was last accessed more than
    /// `ttl` milliseconds before `now`.
    pub fn stale_marks(&self, now: u64, ttl: u64) -> (r: Vec<bool>)
        ensures
            r@ == stale_marks(self.entries(), now, ttl),
    {
        let mut r: Vec<bool> = Vec::new();
        let mut i: usize = 0;
        while i < self.entries.len()
            invariant
                0 <= i <= self.entries@.len(),
                self.entries() == entries_view(self.entries@),
                r@ == stale_marks(self.entries(), now, ttl).take(i as int),
            decreases self.entries@.len() - i,
        {
            let e = &self.entries[i];
            assert(self.entries()[i as int] == e.view_entry());
            let age: u64 = if now >= e.last_access {
                now - e.last_access
            } else {
                0
            };
            r.push(age > ttl);
            assert(r@ =~= stale_marks(self.entries(), now, ttl).take(i + 1));
            i += 1;
        }
        assert(r@ =~= stale_marks(self.entries(), now, ttl));
        r
    }

    /// Takes the entries whose mark is set out of the table and hands them
    /// back in table order; the others stay, in order. The space charged
    /// stays until the caller releases it.
    pub fn take_marked(&mut self, marks: &Vec<bool>) -> (r: Vec<FileEntry<M>>)
        requires
            old(self).wf(),
            marks@.len() == old(self).entries().len(),
        ensures
            final(self).wf(),
            final(self).used() == old(self).used(),
            final(self).max() == old(self).max(),
            final(self).entries() == unmarked(old(self).entries(), marks@),
            entries_view(r@) == marked(old(self).entries(), marks@),
            sum_sizes(final(self).entries()) + sum_sizes(entries_view(r@)) <= final(self).used(),
    {
        let ghost s = self.entries();
        let ghost u = self.used_space;
        let ghost mx = self.max_space;
        let mut rest: Vec<FileEntry<M>> = Vec::new();
        std::mem::swap(&mut rest, &mut self.entries);
        let mut keep: Vec<FileEntry<M>> = Vec::new();
        let mut taken: Vec<FileEntry<M>> = Vec::new();
        let mut i: usize = 0;
        assert(entries_view(rest@) =~= s.skip(0));
        while i < marks.len()
            invariant
                0 <= i <= s.len(),
                marks@.len() == s.len(),
                unique_keys(s),
                sum_sizes(s) <= u,
                u <= mx,
                self.used_space == u,
                self.max_space == mx,
                entries_view(rest@) == s.skip(i as int),
                entries_view(keep@) == unmarked(s.take(i as int), marks@),
                entries_view(taken@) == marked(s.take(i as int), marks@),
                unique_keys(entries_view(keep@)),
                forall|a: int, j: int|
                    0 <= a < keep@.len() && i <= j < s.len() ==> (#[trigger] entries_view(keep@)[a]).key
                        != (#[trigger] s[j]).key,
            decreases s.len() - i,
        {
            let ghost before_rest = rest@;
            assert(entries_view(before_rest).len() == before_rest.len());
            let e = rest.remove(0);
            assert(e.view_entry() == s[i as int]) by {
                assert(entries_view(before_rest)[0] == s.skip(i as int)[0]);
            }
            assert(entries_view(rest@) =~= s.skip(i + 1)) by {
                assert forall|k: int| 0 <= k < rest@.len() implies #[trigger] entries_view(rest@)[k] == s.skip(i + 1)[k] by {
                    assert(entries_view(rest@).len() == rest@.len());
                    assert(rest@[k] == before_rest[k + 1]);
                    assert(entries_view(before_rest)[k + 1] == s.skip(i as int)[k + 1]);
                }
            }
            assert(s.take(i + 1).drop_last() =~= s.take(i as int));
            assert(s.take(i + 1).last() == s[i as int]);
            let ghost kv = entries_view(keep@);
            if marks[i] {
                let ghost tv = entries_view(taken@);
                taken.push(e);
                assert(entries_view(taken@) =~= tv.push(s[i as int]));
                assert forall|a: int, j: int|
                    0 <= a < keep@.len() && i + 1 <= j < s.len() implies (#[trigger] entries_view(keep@)[a]).key
                        != (#[trigger] s[j]).key by {
                    assert(entries_view(keep@)[a] == kv[a]);
                }
            } else {
                keep.push(e);
                assert(entries_view(keep@) =~= kv.push(s[i as int]));
                assert forall|a: int, b: int|
                    0 <= a < entries_view(keep@).len() && 0 <= b < entries_view(keep@).len() && a != b implies entries_view(keep@)[a].key
                        != entries_view(keep@)[b].key by {
                    if a < kv.len() && b < kv.len() {
                        assert(entries_view(keep@)[a] == kv[a]);
                        assert(entries_view(keep@)[b] == kv[b]);
                    } else if a == kv.len() {
                        assert(entries_view(keep@)[b] == kv[b]);
                        assert(kv[b].key != s[i as int].key);
                    } else {
                        assert(entries_view(keep@)[a] == kv[a]);
                        assert(kv[a].key != s[i as int].key);
                    }
                }
                assert forall|a: int, j: int|
                    0 <= a < keep@.len() && i + 1 <= j < s.len() implies (#[trigger] entries_view(keep@)[a]).key
                        != (#[trigger] s[j]).key by {
                    if a < kv.len() {
                        assert(entries_view(keep@)[a] == kv[a]);
                    } else {
                        assert(entries_view(keep@)[a] == s[i as int]);
                    }
                }
            }
            i += 1;
        }
        assert(s.take(i as int) =~= s);
        self.entries = keep;
        proof {
            lemma_sum_marked(s, marks@);
        }
        taken
    }
}

/// Splitting the entries by their marks splits the total of their sizes.
pub proof fn lemma_sum_marked<M>(s: Seq<EntryView<M>>, marks: Seq<bool>)
    ensures
        sum_sizes(unmarked(s, marks)) + sum_sizes(marked(s, marks)) == sum_sizes(s),
    decreases s.len(),
{
    if s.len() > 0 {
        lemma_sum_marked(s.drop_last(), marks);
        let k = unmarked(s.drop_last(), marks);
        let t = marked(s.drop_last(), marks);
        assert(k.push(s.last()).drop_last() =~= k);
        assert(t.push(s.last()).drop_last() =~= t);
    }
}

impl<M> FileTable<M> {
    /// Stops charging the sizes of the taken entries whose file was removed
    /// (`removed` at the same position); the others stay charged.
    pub fn release_marked(&mut self, taken: &Vec<FileEntry<M>>, removed: &Vec<bool>)
        requires
            old(self).wf(),
            removed@.len() == taken@.len(),
            sum_sizes(old(self).entries()) + sum_sizes(entries_view(taken@)) <= old(self).used(),
        ensures
            final(self).wf(),
            final(self).entries() == old(self).entries(),
            final(self).max() == old(self).max(),
            final(self).used() == old(self).used() - sum_sizes(marked(entries_view(taken@), removed@)),
    {
        let ghost tv = entries_view(taken@);
        let ghost u = self.used_space;
        let mut i: usize = 0;
        while i < taken.len()
            invariant
                0 <= i <= taken@.len(),
                removed@.len() == taken@.len(),
                tv == entries_view(taken@),
                self.wf(),
                sum_sizes(self.entries()) + sum_sizes(tv) <= u,
                self.used() == u - sum_sizes(marked(tv.take(i as int), removed@)),
                self.entries() == old(self).entries(),
                self.max() == old(self).max(),
            decreases taken@.len() - i,
        {
            let ghost before = marked(tv.take(i as int), removed@);
            assert(tv.take(i + 1).drop_last() =~= tv.take(i as int));
            assert(tv.take(i + 1).last() == tv[i as int]);
            assert(tv[i as int] == taken@[i as int].view_entry());
            if removed[i] {
                proof {
                    assert(marked(tv.take(i + 1), removed@).drop_last() =~= before);
                    lemma_sum_marked(tv.take(i + 1), removed@);
                    lemma_sum_prefix(tv, i + 1);
                }
                self.release(taken[i].size);
            }
            i += 1;
        }
        assert(tv.take(i as int) =~= tv);
    }
}

/// A prefix of the entries holds no more than all of them.
pub proof fn lemma_sum_prefix<M>(s: Seq<EntryView<M>>, j: int)
    requires
        0 <= j <= s.len(),
    ensures
        sum_sizes(s.take(j)) <= sum_sizes(s),
    decreases s.len() - j,
{
    if j < s.len() {
        lemma_sum_prefix(s, j + 1);
        assert(s.take(j + 1).drop_last() =~= s.take(j));
    } else {
        assert(s.take(j) =~= s);
    }
}

/// Marking every entry takes them all.
pub proof fn lemma_marked_all<M>(s: Seq<EntryView<M>>, marks: Seq<bool>)
    requires
        marks.len() >= s.len(),
        forall|i: int| 0 <= i < s.len() ==> marks[i],
    ensures
        marked(s, marks) == s,
    decreases s.len(),
{
    if s.len() > 0 {
        lemma_marked_all(s.drop_last(), marks);
        assert(s.drop_last().push(s.last()) =~= s);
    }
}

/// A property that every unmarked entry has holds of every entry that
/// `unmarked` keeps.
pub proof fn lemma_unmarked_holds<M>(s: Seq<EntryView<M>>, marks: Seq<bool>, p: spec_fn(EntryView<M>) -> bool)
    requires
        marks.len() >= s.len(),
        forall|j: int| 0 <= j < s.len() && !marks[j] ==> p(#[trigger] s[j]),
    ensures
        forall|k: int| 0 <= k < unmarked(s, marks).len() ==> p(#[trigger] unmarked(s, marks)[k]),
    decreases s.len(),
{
    if s.len() > 0 {
        let t = s.drop_last();
        assert forall|j: int| 0 <= j < t.len() && !marks[j] implies p(#[trigger] t[j]) by {
            assert(t[j] == s[j]);
        }
        lemma_unmarked_holds(t, marks, p);
        let r = unmarked(t, marks);
        if !marks[s.len() - 1] {
            assert(p(s[s.len() - 1]));
            assert forall|k: int| 0 <= k < r.push(s.last()).len() implies p(#[trigger] r.push(s.last())[k]) by {
                if k < r.len() {
                    assert(r.push(s.last())[k] == r[k]);
                }
            }
        }
    }
}

/// Where the space charged was exactly the sizes held, taking out the marked
/// entries and then releasing the space of every one of them leaves it
/// exactly the sizes of the entries that remain.
pub proof fn lemma_cleanup_sum<M>(before: Seq<EntryView<M>>, used: int, marks: Seq<bool>, removed: Seq<bool>)
    requires
        used == sum_sizes(before),
        marks.len() >= before.len(),
        removed.len() >= marked(before, marks).len(),
        forall|i: int| 0 <= i < marked(before, marks).len() ==> removed[i],
    ensures
        used - sum_sizes(marked(marked(before, marks), removed)) == sum_sizes(unmarked(before, marks)),
{
    lemma_marked_all(marked(before, marks), removed);
    lemma_sum_marked(before, marks);
}

/// Replacing one entry changes the total by the difference of the sizes.
pub proof fn lemma_sum_update<M>(s: Seq<EntryView<M>>, i: int, e: EntryView<M>)
    requires
        0 <= i < s.len(),
    ensures
        sum_sizes(s.update(i, e)) == sum_sizes(s) - s[i].size + e.size,
    decreases s.len(),
{
    if i < s.len() - 1 {
        lemma_sum_update(s.drop_last(), i, e);
        assert(s.update(i, e).drop_last() =~= s.drop_last().update(i, e));
    } else {
        assert(s.update(i, e).drop_last() =~= s.drop_last());
    }
}

/// Removing one entry takes its size off the total.
pub proof fn lemma_sum_remove<M>(s: Seq<EntryView<M>>, i: int)
    requires
        0 <= i < s.len(),
    ensures
        sum_sizes(remove_at(s, i)) + s[i].size == sum_sizes(s),
    decreases s.len(),
{
    if i < s.len() - 1 {
        lemma_sum_remove(s.drop_last(), i);
        assert(remove_at(s, i).drop_last() =~= remove_at(s.drop_last(), i));
        assert(remove_at(s, i).last() == s.last());
    } else {
        assert(remove_at(s, i) =~= s.drop_last());
    }
}

/// What a store holds after `e` is stored: `e` in place of the entry with
/// its key, or appended.
pub open spec fn stored<M>(s: Seq<EntryView<M>>, e: EntryView<M>) -> Seq<EntryView<M>> {
    if index_of_key(s, e.key) >= 0 {
        s.update(index_of_key(s, e.key), e)
    } else {
        s.push(e)
    }
}

pub proof fn lemma_index_of_key<M>(s: Seq<EntryView<M>>, k: Seq<char>)
    ensures
        -1 <= index_of_key(s, k) < s.len(),
        index_of_key(s, k) >= 0 ==> s[index_of_key(s, k)].key == k,
        index_of_key(s, k) < 0 ==> forall|i: int| 0 <= i < s.len() ==> (#[trigger] s[i]).key != k,
    decreases s.len(),
{
    if s.len() > 0 && s.last().key != k {
        lemma_index_of_key(s.drop_last(), k);
        if index_of_key(s, k) < 0 {
            assert forall|i: int| 0 <= i < s.len() implies (#[trigger] s[i]).key != k by {
                if i < s.len() - 1 {
                    assert(s[i] == s.drop_last()[i]);
                }
            }
        }
    }
}

/// In a store whose keys are unique, the entry with key `k` is the one
/// found.
pub proof fn lemma_index_of_key_at<M>(s: Seq<EntryView<M>>, k: Seq<char>, i: int)
    requires
        unique_keys(s),
        0 <= i < s.len(),
        s[i].key == k,
    ensures
        index_of_key(s, k) == i,
{
    lemma_index_of_key(s, k);
}

/// A read gives back what was last stored under its key: after `e` is
/// stored, looking up `e`'s key finds `e`, keys stay unique, and any other
/// key finds what it found before.
pub proof fn lemma_store_then_find<M>(s: Seq<EntryView<M>>, e: EntryView<M>, other: Seq<char>)
    requires
        unique_keys(s),
    ensures
        unique_keys(stored(s, e)),
        index_of_key(stored(s, e), e.key) >= 0,
        stored(s, e)[index_of_key(stored(s, e), e.key)] == e,
        other != e.key ==> index_of_key(stored(s, e), other) == index_of_key(s, other),
        other != e.key && index_of_key(s, other) >= 0 ==> stored(s, e)[index_of_key(stored(s, e), other)] == s[index_of_key(s, other)],
{
    lemma_index_of_key(s, e.key);
    lemma_index_of_key(s, other);
    let t = stored(s, e);
    let i = index_of_key(s, e.key);
    if i >= 0 {
        assert forall|a: int, b: int| 0 <= a < t.len() && 0 <= b < t.len() && a != b implies t[a].key != t[b].key by {
            if a != i && b != i {
                assert(t[a] == s[a] && t[b] == s[b]);
            } else if a == i {
                assert(t[b] == s[b]);
            } else {
                assert(t[a] == s[a]);
            }
        }
        lemma_index_of_key_at(t, e.key, i);
        if other != e.key {
            let j = index_of_key(s, other);
            if j >= 0 {
                assert(t[j] == s[j]);
                lemma_index_of_key_at(t, other, j);
            } else {
                lemma_index_of_key(t, other);
                if index_of_key(t, other) >= 0 {
                    let m = index_of_key(t, other);
                    assert(m != i);
                    assert(t[m] == s[m]);
                }
            }
        }
    } else {
        assert forall|a: int, b: int| 0 <= a < t.len() && 0 <= b < t.len() && a != b implies t[a].key != t[b].key by {
            if a < s.len() && b < s.len() {
                assert(t[a] == s[a] && t[b] == s[b]);
            } else if a == s.len() {
                assert(t[b] == s[b]);
            } else {
                assert(t[a] == s[a]);
            }
        }
        lemma_index_of_key_at(t, e.key, s.len() as int);
        if other != e.key {
            assert(t.drop_last() =~= s);
        }
    }
}

} // verus!
