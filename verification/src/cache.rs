//! The response cache: which entries are kept, for how long, and the space
//! they use.
use crate::error::PluginError;
use crate::file_table::{
    elapsed, entries_view, index_of_key, lemma_cleanup_sum, lemma_unmarked_holds, marked,
    remove_at, sum_sizes, unmarked, EntryView, FileEntry, FileTable,
};
use crate::plugins::hls::types::copy_string;
use crate::text::{chars_of, join_path, path_join, string_from_chars};
use vstd::prelude::*;

verus! {

/// Counts of the cache. (The share of space used is computed by the caller.)
#[derive(Debug, Clone, Copy)]
pub struct CacheStats {
    pub total_entries: usize,
    pub used_space: u64,
    pub max_space: u64,
}

/// For each entry, whether it was last accessed longer ago than its own time
/// to live.
pub open spec fn own_ttl_marks(s: Seq<EntryView<u64>>, now: u64) -> Seq<bool> {
    Seq::new(s.len(), |i: int| elapsed(now, s[i].last_access) > s[i].meta)
}

/// Entries stored under a root directory, each with its time to live.
#[derive(Debug)]
pub struct Cache {
    root_path: String,
    table: FileTable<u64>,
}

impl Cache {
    pub closed spec fn root(&self) -> Seq<char> {
        self.root_path@
    }

    /// The entries; each entry's metadata is its time to live in milliseconds.
    pub closed spec fn entries(&self) -> Seq<EntryView<u64>> {
        self.table.entries()
    }

    pub closed spec fn used(&self) -> u64 {
        self.table.used()
    }

    pub closed spec fn max(&self) -> u64 {
        self.table.max()
    }

    pub closed spec fn wf(&self) -> bool {
        self.table.wf()
    }

    /// Holds at all times: the space used never exceeds the space allowed,
    /// and is never less than the sizes of the entries held.
    pub proof fn lemma_space_bounds(&self)
        requires
            self.wf(),
        ensures
            self.used() <= self.max(),
            sum_sizes(self.entries()) <= self.used(),
    {
    }

    /// An empty cache under `root_path` that allows `max_space` bytes.
    pub fn new(root_path: &str, max_space: u64) -> (r: Self)
        ensures
            r.wf(),
            r.root() == root_path@,
            r.entries() == Seq::<EntryView<u64>>::empty(),
            r.used() == 0,
            r.max() == max_space,
    {
        Cache { root_path: string_from_chars(&chars_of(root_path)), table: FileTable::new(max_space) }
    }

    /// Where the entry with key `key` is written.
    pub fn entry_path(&self, key: &str) -> (r: String)
        ensures
            r@ == path_join(self.root(), key@),
    {
        let r = join_path(&chars_of(self.root_path.as_str()), &chars_of(key));
        string_from_chars(&r)
    }

    /// Whether an entry of `size` bytes may be stored: refused with
    /// "Cache space exceeded" when it does not fit.
    pub fn check_space(&self, size: u64) -> (r: Result<(), PluginError>)
        ensures
            r is Ok <==> self.used() + size <= self.max(),
            r matches Err(e) ==> e matches PluginError::Storage(m) && m@ == "Cache space exceeded"@,
    {
        if self.table.admits(size) {
            Ok(())
        } else {
            Err(PluginError::Storage(string_from_chars(&chars_of("Cache space exceeded"))))
        }
    }

    /// Records an entry of `size` bytes written under `key` at `now`, to live
    /// `ttl` milliseconds after its last access.
    pub fn record(&mut self, key: &str, size: u64, now: u64, ttl: u64)
        requires
            old(self).wf(),
            old(self).used() + size <= old(self).max(),
        ensures
            final(self).wf(),
            final(self).root() == old(self).root(),
            final(self).used() == old(self).used() + size,
            final(self).max() == old(self).max(),
            final(self).entries() == (if index_of_key(old(self).entries(), key@) >= 0 {
                old(self).entries().update(
                    index_of_key(old(self).entries(), key@),
                    EntryView { key: key@, path: path_join(old(self).root(), key@), size, last_access: now, meta: ttl },
                )
            } else {
                old(self).entries().push(
                    EntryView { key: key@, path: path_join(old(self).root(), key@), size, last_access: now, meta: ttl },
                )
            }),
    {
        let path = self.entry_path(key);
        self.table.insert(string_from_chars(&chars_of(key)), path, size, now, ttl);
    }

    /// Looks up the entry under `key` at `now`. A live entry is marked
    /// accessed and its path returned; an expired one is dropped (and its
    /// space released) with "Cache entry expired"; a missing one gives
    /// "Cache miss".
    pub fn get(&mut self, key: &str, now: u64) -> (r: Result<String, PluginError>)
        requires
            old(self).wf(),
        ensures
            final(self).wf(),
            final(self).root() == old(self).root(),
            final(self).max() == old(self).max(),
            ({
                let i = index_of_key(old(self).entries(), key@);
                if i < 0 {
                    &&& final(self).entries() == old(self).entries()
                    &&& final(self).used() == old(self).used()
                    &&& r matches Err(e) && e matches PluginError::Storage(m) && m@ == "Cache miss"@
                } else if elapsed(now, old(self).entries()[i].last_access) > old(self).entries()[i].meta {
                    &&& final(self).entries() == remove_at(old(self).entries(), i)
                    &&& final(self).used() == old(self).used() - old(self).entries()[i].size
                    &&& r matches Err(e) && e matches PluginError::Storage(m) && m@ == "Cache entry expired"@
                } else {
                    &&& final(self).entries() == old(self).entries().update(
                        i,
                        EntryView { last_access: now, ..old(self).entries()[i] },
                    )
                    &&& final(self).used() == old(self).used()
                    &&& r matches Ok(p) && p@ == old(self).entries()[i].path
                }
            }),
    {
        match self.table.find(key) {
            None => Err(PluginError::Storage(string_from_chars(&chars_of("Cache miss")))),
            Some(i) => {
                let e = self.table.entry_at(i);
                let age: u64 = if now >= e.last_access {
                    now - e.last_access
                } else {
                    0
                };
                if age > e.meta {
                    let removed = self.table.remove_at(i);
                    self.table.release(removed.size);
                    Err(PluginError::Storage(string_from_chars(&chars_of("Cache entry expired"))))
                } else {
                    let p = copy_string(&e.path);
                    self.table.touch(i, now);
                    Ok(p)
                }
            },
        }
    }

    /// Takes every entry past its own time to live at `now` out of the cache
    /// and hands them back in cache order; the others stay, in order. Their
    /// space stays charged until `release_space`.
    pub fn take_expired(&mut self, now: u64) -> (r: Vec<FileEntry<u64>>)
        requires
            old(self).wf(),
        ensures
            final(self).wf(),
            final(self).root() == old(self).root(),
            final(self).used() == old(self).used(),
            final(self).max() == old(self).max(),
            final(self).entries() == unmarked(old(self).entries(), own_ttl_marks(old(self).entries(), now)),
            entries_view(r@) == marked(old(self).entries(), own_ttl_marks(old(self).entries(), now)),
            sum_sizes(final(self).entries()) + sum_sizes(entries_view(r@)) <= final(self).used(),
    {
        let mut marks: Vec<bool> = Vec::new();
        let mut i: usize = 0;
        while i < self.table.len()
            invariant
                0 <= i <= self.entries().len(),
                marks@ == own_ttl_marks(self.entries(), now).take(i as int),
            decreases self.entries().len() - i,
        {
            let e = self.table.entry_at(i);
            let age: u64 = if now >= e.last_access {
                now - e.last_access
            } else {
                0
            };
            marks.push(age > e.meta);
            assert(marks@ =~= own_ttl_marks(self.entries(), now).take(i + 1));
            i += 1;
        }
        assert(marks@ =~= own_ttl_marks(self.entries(), now));
        self.table.take_marked(&marks)
    }

    /// Stops charging the space of the taken entries whose file was removed
    /// (`removed` at the same position); a file that could not be removed
    /// stays charged.
    pub fn release_removed(&mut self, taken: &Vec<FileEntry<u64>>, removed: &Vec<bool>)
        requires
            old(self).wf(),
            removed@.len() == taken@.len(),
            sum_sizes(old(self).entries()) + sum_sizes(entries_view(taken@)) <= old(self).used(),
        ensures
            final(self).wf(),
            final(self).root() == old(self).root(),
            final(self).entries() == old(self).entries(),
            final(self).max() == old(self).max(),
            final(self).used() == old(self).used() - sum_sizes(marked(entries_view(taken@), removed@)),
    {
        self.table.release_marked(taken, removed);
    }

    /// Removes the entry under `key` and hands it back; its space stays
    /// charged until `release_space`.
    pub fn remove_entry(&mut self, key: &str) -> (r: Option<FileEntry<u64>>)
        requires
            old(self).wf(),
        ensures
            final(self).wf(),
            final(self).root() == old(self).root(),
            final(self).used() == old(self).used(),
            final(self).max() == old(self).max(),
            match r {
                Some(e) => {
                    let i = index_of_key(old(self).entries(), key@);
                    &&& i >= 0
                    &&& e.view_entry() == old(self).entries()[i]
                    &&& final(self).entries() == remove_at(old(self).entries(), i)
                    &&& sum_sizes(final(self).entries()) + e.size <= final(self).used()
                },
                None => index_of_key(old(self).entries(), key@) == -1 && final(self).entries()
                    == old(self).entries(),
            },
    {
        match self.table.find(key) {
            Some(i) => Some(self.table.remove_at(i)),
            None => None,
        }
    }

    /// Stops charging the space of a removed entry.
    pub fn release_space(&mut self, size: u64)
        requires
            old(self).wf(),
            sum_sizes(old(self).entries()) + size <= old(self).used(),
        ensures
            final(self).wf(),
            final(self).root() == old(self).root(),
            final(self).used() == old(self).used() - size,
            final(self).max() == old(self).max(),
            final(self).entries() == old(self).entries(),
    {
        self.table.release(size);
    }

    /// The number of entries and the space used and allowed.
    pub fn get_stats(&self) -> (r: CacheStats)
        ensures
            r.total_entries == self.entries().len(),
            r.used_space == self.used(),
            r.max_space == self.max(),
    {
        CacheStats {
            total_entries: self.table.len(),
            used_space: self.table.used_space(),
            max_space: self.table.max_space(),
        }
    }
}

/// A cleanup at `now` (`take_expired`, then `release_removed` with every
/// file removed) leaves no entry past its time to live, keeps the others as
/// they were and in order, and, where the space charged was exactly the sizes
/// held, leaves it exactly the sizes of the entries that remain.
pub proof fn lemma_cleanup_accounting(before: Seq<EntryView<u64>>, used: u64, now: u64, removed: Seq<bool>)
    requires
        used == sum_sizes(before),
        removed.len() == marked(before, own_ttl_marks(before, now)).len(),
        forall|i: int| 0 <= i < removed.len() ==> removed[i],
    ensures
        forall|k: int|
            0 <= k < unmarked(before, own_ttl_marks(before, now)).len() ==> elapsed(
                now,
                (#[trigger] unmarked(before, own_ttl_marks(before, now))[k]).last_access,
            ) <= unmarked(before, own_ttl_marks(before, now))[k].meta,
        used - sum_sizes(marked(marked(before, own_ttl_marks(before, now)), removed)) == sum_sizes(
            unmarked(before, own_ttl_marks(before, now)),
        ),
{
    let marks = own_ttl_marks(before, now);
    let p = |e: EntryView<u64>| elapsed(now, e.last_access) <= e.meta;
    assert forall|j: int| 0 <= j < before.len() && !marks[j] implies p(#[trigger] before[j]) by {}
    lemma_unmarked_holds(before, marks, p);
    lemma_cleanup_sum(before, used as int, marks, removed);
}

} // verus!
