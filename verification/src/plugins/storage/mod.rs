//! The storage plugin: files under a root directory within a space limit.
use crate::error::PluginError;
use crate::file_table::{expired_keys_spec, index_of_key, remove_at, sum_sizes, EntryView, FileEntry, FileTable};
use crate::plugin::Plugin;
use crate::plugins::hls::types::copy_string;
use crate::text::{chars_of, join_path, path_join, string_from_chars};
use vstd::prelude::*;

verus! {

/// Files stored under a root directory, within a space limit.
#[derive(Debug)]
pub struct StoragePlugin {
    root_path: String,
    state: FileTable<()>,
}

impl StoragePlugin {
    pub closed spec fn root(&self) -> Seq<char> {
        self.root_path@
    }

    pub closed spec fn files(&self) -> Seq<EntryView<()>> {
        self.state.entries()
    }

    pub closed spec fn used(&self) -> u64 {
        self.state.used()
    }

    pub closed spec fn max(&self) -> u64 {
        self.state.max()
    }

    pub closed spec fn wf(&self) -> bool {
        self.state.wf()
    }

    /// Holds at all times: the space used never exceeds the space allowed,
    /// and is never less than the sizes of the files held.
    pub proof fn lemma_space_bounds(&self)
        requires
            self.wf(),
        ensures
            self.used() <= self.max(),
            sum_sizes(self.files()) <= self.used(),
    {
    }

    /// A plugin with no files under `root_path`, allowing `max_space` bytes.
    pub fn new(root_path: &str, max_space: u64) -> (r: Self)
        ensures
            r.wf(),
            r.root() == root_path@,
            r.files() == Seq::<EntryView<()>>::empty(),
            r.used() == 0,
            r.max() == max_space,
    {
        StoragePlugin { root_path: string_from_chars(&chars_of(root_path)), state: FileTable::new(max_space) }
    }

    /// The root directory.
    pub fn root_path(&self) -> (r: &str)
        ensures
            r@ == self.root(),
    {
        self.root_path.as_str()
    }

    /// Where the file with key `key` is written.
    pub fn file_path(&self, key: &str) -> (r: String)
        ensures
            r@ == path_join(self.root(), key@),
    {
        let r = join_path(&chars_of(self.root_path.as_str()), &chars_of(key));
        string_from_chars(&r)
    }

    /// Whether a file of `size` bytes may be stored: refused with "Storage
    /// space exceeded" when it does not fit.
    pub fn check_space(&self, size: u64) -> (r: Result<(), PluginError>)
        ensures
            r is Ok <==> self.used() + size <= self.max(),
            r matches Err(e) ==> e matches PluginError::Storage(m) && m@ == "Storage space exceeded"@,
    {
        if self.state.admits(size) {
            Ok(())
        } else {
            Err(PluginError::Storage(string_from_chars(&chars_of("Storage space exceeded"))))
        }
    }

    /// Records a file of `size` bytes written under `key` at `now`.
    pub fn record_file(&mut self, key: &str, size: u64, now: u64)
        requires
            old(self).wf(),
            old(self).used() + size <= old(self).max(),
        ensures
            final(self).wf(),
            final(self).root() == old(self).root(),
            final(self).used() == old(self).used() + size,
            final(self).max() == old(self).max(),
            final(self).files() == (if index_of_key(old(self).files(), key@) >= 0 {
                old(self).files().update(
                    index_of_key(old(self).files(), key@),
                    EntryView { key: key@, path: path_join(old(self).root(), key@), size, last_access: now, meta: () },
                )
            } else {
                old(self).files().push(
                    EntryView { key: key@, path: path_join(old(self).root(), key@), size, last_access: now, meta: () },
                )
            }),
    {
        let path = self.file_path(key);
        self.state.insert(string_from_chars(&chars_of(key)), path, size, now, ());
    }

    /// Marks the file under `key` accessed at `now` and gives its path, or
    /// "File not found".
    pub fn get_file(&mut self, key: &str, now: u64) -> (r: Result<String, PluginError>)
        requires
            old(self).wf(),
        ensures
            final(self).wf(),
            final(self).root() == old(self).root(),
            final(self).used() == old(self).used(),
            final(self).max() == old(self).max(),
            match r {
                Ok(p) => {
                    let i = index_of_key(old(self).files(), key@);
                    &&& i >= 0
                    &&& p@ == old(self).files()[i].path
                    &&& final(self).files() == old(self).files().update(
                        i,
                        EntryView { last_access: now, ..old(self).files()[i] },
                    )
                },
                Err(e) => {
                    &&& index_of_key(old(self).files(), key@) == -1
                    &&& final(self).files() == old(self).files()
                    &&& e matches PluginError::Storage(m) && m@ == "File not found"@
                },
            },
    {
        match self.state.find(key) {
            Some(i) => {
                self.state.touch(i, now);
                Ok(copy_string(&self.state.entry_at(i).path))
            },
            None => Err(PluginError::Storage(string_from_chars(&chars_of("File not found")))),
        }
    }

    /// The keys of the files not accessed for more than `max_age`
    /// milliseconds.
    pub fn old_files(&self, now: u64, max_age: u64) -> (r: Vec<String>)
        ensures
            r@.map_values(|k: String| k@) == expired_keys_spec(self.files(), now, max_age),
    {
        self.state.expired_keys(now, max_age)
    }

    /// Removes the file under `key` and hands it back; its space stays
    /// charged until `release_space`.
    pub fn remove_file(&mut self, key: &str) -> (r: Option<FileEntry<()>>)
        requires
            old(self).wf(),
        ensures
            final(self).wf(),
            final(self).root() == old(self).root(),
            final(self).used() == old(self).used(),
            final(self).max() == old(self).max(),
            match r {
                Some(e) => {
                    let i = index_of_key(old(self).files(), key@);
                    &&& i >= 0
                    &&& e.view_entry() == old(self).files()[i]
                    &&& final(self).files() == remove_at(old(self).files(), i)
                    &&& sum_sizes(final(self).files()) + e.size <= final(self).used()
                },
                None => index_of_key(old(self).files(), key@) == -1 && final(self).files() == old(self).files(),
            },
    {
        match self.state.find(key) {
            Some(i) => Some(self.state.remove_at(i)),
            None => None,
        }
    }

    /// Stops charging the space of a removed file.
    pub fn release_space(&mut self, size: u64)
        requires
            old(self).wf(),
            sum_sizes(old(self).files()) + size <= old(self).used(),
        ensures
            final(self).wf(),
            final(self).root() == old(self).root(),
            final(self).used() == old(self).used() - size,
            final(self).max() == old(self).max(),
            final(self).files() == old(self).files(),
    {
        self.state.release(size);
    }

    /// Healthy while some space is left.
    pub fn health_check(&self) -> (r: bool)
        ensures
            r == (self.used() < self.max()),
    {
        self.state.used_space() < self.state.max_space()
    }
}

impl Plugin for StoragePlugin {
    fn name(&self) -> (r: &str)
        ensures
            r@ == "storage"@,
    {
        proof {
            reveal_strlit("storage");
        }
        "storage"
    }

    fn version(&self) -> (r: &str)
        ensures
            r@ == "1.0.0"@,
    {
        proof {
            reveal_strlit("1.0.0");
        }
        "1.0.0"
    }
}

} // verus!
