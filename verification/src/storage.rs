//! The file store: which files are kept, with what metadata, and the space
//! they use.
use crate::error::PluginError;
use crate::file_table::{
    elapsed, entries_view, expired_keys_spec, index_of_key, lemma_cleanup_sum,
    lemma_unmarked_holds, marked, remove_at, stale_marks, sum_sizes, unmarked, EntryView,
    FileEntry, FileTable,
};
use crate::text::{chars_of, join_path, path_join, string_from_chars};
use crate::plugins::hls::types::copy_string;
use vstd::prelude::*;

verus! {

/// What is known of a stored file.
#[derive(Debug, Clone)]
pub struct FileMetadata {
    pub content_type: String,
    pub etag: Option<String>,
    pub last_modified: Option<String>,
    /// Creation time in milliseconds since the Unix epoch.
    pub created_at: i64,
}

impl FileMetadata {
    /// A copy of the metadata.
    pub fn duplicate(&self) -> (r: FileMetadata)
        ensures
            r == *self,
    {
        let r = FileMetadata {
            content_type: self.content_type.clone(),
            etag: match &self.etag {
                Some(e) => Some(e.clone()),
                None => None,
            },
            last_modified: match &self.last_modified {
                Some(e) => Some(e.clone()),
                None => None,
            },
            created_at: self.created_at,
        };
        r
    }
}

/// How the store is run. Durations are in milliseconds.
#[derive(Debug, Clone, Copy)]
pub struct StorageConfig {
    pub max_space: u64,
    pub cleanup_interval: u64,
    pub file_ttl: u64,
    pub min_free_space: u64,
}

impl Default for StorageConfig {
    /// 1 GiB of space, cleanup every hour, files kept for 24 hours, 100 MiB
    /// kept free.
    fn default() -> (r: Self)
        ensures
            r.max_space == 1024 * 1024 * 1024,
            r.cleanup_interval == 3_600_000,
            r.file_ttl == 86_400_000,
            r.min_free_space == 1024 * 1024 * 100,
    {
        StorageConfig {
            max_space: 1024 * 1024 * 1024,
            cleanup_interval: 3_600_000,
            file_ttl: 86_400_000,
            min_free_space: 1024 * 1024 * 100,
        }
    }
}

/// Space and files of the store.
#[derive(Debug, Clone, Copy)]
pub struct StorageStats {
    pub total_space: u64,
    pub used_space: u64,
    pub free_space: u64,
    pub file_count: usize,
    /// Time of the last cleanup, in milliseconds on the caller's clock.
    pub last_cleanup: u64,
}

/// What to do with a file that is about to be stored.
#[derive(Debug)]
pub enum StoreAdmission {
    /// It fits: write it.
    Write,
    /// It does not fit yet: clean up expired files, then ask again.
    CleanUpFirst,
    /// It does not fit even after a cleanup: refuse it with this error.
    Refuse(PluginError),
}

/// Keeps track of the stored files under a root directory.
#[derive(Debug)]
pub struct StorageManager {
    root_path: String,
    table: FileTable<FileMetadata>,
    config: StorageConfig,
    last_cleanup: u64,
}

impl StorageManager {
    pub closed spec fn root(&self) -> Seq<char> {
        self.root_path@
    }

    pub closed spec fn files(&self) -> Seq<EntryView<FileMetadata>> {
        self.table.entries()
    }

    pub closed spec fn used(&self) -> u64 {
        self.table.used()
    }

    pub closed spec fn max(&self) -> u64 {
        self.table.max()
    }

    pub closed spec fn config_spec(&self) -> StorageConfig {
        self.config
    }

    pub closed spec fn last_cleanup_spec(&self) -> u64 {
        self.last_cleanup
    }

    pub closed spec fn wf(&self) -> bool {
        self.table.wf()
    }

    /// Holds at all times: the space used never exceeds the space allowed,
    /// and is never less than the sizes of the files held.
    pub proof fn lemma_space_bounds(&self)
        requires
            self.wf(),
        ensures
            self.used() <= self.max(),
            sum_sizes(self.files()) <= self.used(),
    {
    }

    /// A store under `root_path` with no files; `now` is the time of the last
    /// cleanup.
    pub fn new(root_path: &str, config: StorageConfig, now: u64) -> (r: Self)
        ensures
            r.wf(),
            r.root() == root_path@,
            r.files() == Seq::<EntryView<FileMetadata>>::empty(),
            r.used() == 0,
            r.max() == config.max_space,
            r.config_spec() == config,
            r.last_cleanup_spec() == now,
    {
        StorageManager {
            root_path: string_from_chars(&chars_of(root_path)),
            table: FileTable::new(config.max_space),
            config,
            last_cleanup: now,
        }
    }

    /// Where the file with key `key` is written: the root joined with the key.
    pub fn file_path(&self, key: &str) -> (r: String)
        ensures
            r@ == path_join(self.root(), key@),
    {
        let r = join_path(&chars_of(self.root_path.as_str()), &chars_of(key));
        string_from_chars(&r)
    }

    /// Whether a file of `size` bytes fits in the space allowed.
    pub fn has_space(&self, size: u64) -> (r: bool)
        ensures
            r == (self.used() + size <= self.max()),
    {
        self.table.admits(size)
    }

    /// The refusal of a file that does not fit.
    pub fn space_exceeded_error() -> (e: PluginError)
        ensures
            e matches PluginError::Storage(m) && m@ == "Storage space exceeded"@,
    {
        PluginError::Storage(string_from_chars(&chars_of("Storage space exceeded")))
    }

    /// Whether a file of `size` bytes may be written now: it is written when
    /// it fits; when it does not, expired files are cleaned up first, and if
    /// it still does not fit after that (`cleaned`) it is refused with
    /// "Storage space exceeded".
    pub fn admission(&self, size: u64, cleaned: bool) -> (r: StoreAdmission)
        ensures
            match r {
                StoreAdmission::Write => self.used() + size <= self.max(),
                StoreAdmission::CleanUpFirst => self.used() + size > self.max() && !cleaned,
                StoreAdmission::Refuse(e) => {
                    &&& self.used() + size > self.max()
                    &&& cleaned
                    &&& e matches PluginError::Storage(m) && m@ == "Storage space exceeded"@
                },
            },
    {
        if self.has_space(size) {
            StoreAdmission::Write
        } else if !cleaned {
            StoreAdmission::CleanUpFirst
        } else {
            StoreAdmission::Refuse(Self::space_exceeded_error())
        }
    }

    /// Records a file of `size` bytes written under `key` at time `now`.
    pub fn record_file(&mut self, key: &str, size: u64, now: u64, metadata: FileMetadata)
        requires
            old(self).wf(),
            old(self).used() + size <= old(self).max(),
        ensures
            final(self).wf(),
            final(self).used() == old(self).used() + size,
            final(self).max() == old(self).max(),
            final(self).root() == old(self).root(),
            final(self).config_spec() == old(self).config_spec(),
            final(self).last_cleanup_spec() == old(self).last_cleanup_spec(),
            final(self).files() == (if index_of_key(old(self).files(), key@) >= 0 {
                old(self).files().update(
                    index_of_key(old(self).files(), key@),
                    EntryView { key: key@, path: path_join(old(self).root(), key@), size, last_access: now, meta: metadata },
                )
            } else {
                old(self).files().push(
                    EntryView { key: key@, path: path_join(old(self).root(), key@), size, last_access: now, meta: metadata },
                )
            }),
    {
        let path = self.file_path(key);
        let k = string_from_chars(&chars_of(key));
        self.table.insert(k, path, size, now, metadata);
    }

    /// Looks up the file under `key`, marking it accessed at `now`: its path
    /// and metadata, or the error for a missing file.
    pub fn get_file(&mut self, key: &str, now: u64) -> (r: Result<(String, FileMetadata), PluginError>)
        requires
            old(self).wf(),
        ensures
            final(self).wf(),
            final(self).used() == old(self).used(),
            final(self).max() == old(self).max(),
            final(self).root() == old(self).root(),
            final(self).config_spec() == old(self).config_spec(),
            final(self).last_cleanup_spec() == old(self).last_cleanup_spec(),
            match r {
                Ok((path, meta)) => {
                    let i = index_of_key(old(self).files(), key@);
                    &&& i >= 0
                    &&& path@ == old(self).files()[i].path
                    &&& meta == old(self).files()[i].meta
                    &&& final(self).files() == old(self).files().update(
                        i,
                        EntryView { last_access: now, ..old(self).files()[i] },
                    )
                },
                Err(e) => {
                    &&& index_of_key(old(self).files(), key@) == -1
                    &&& final(self).files() == old(self).files()
                    &&& e matches PluginError::Storage(m) && m@ == "File not found"@
                },
            },
    {
        match self.table.find(key) {
            Some(i) => {
                self.table.touch(i, now);
                let e = self.table.entry_at(i);
                Ok((copy_string(&e.path), e.meta.duplicate()))
            },
            None => Err(PluginError::Storage(string_from_chars(&chars_of("File not found")))),
        }
    }

    /// The keys of the files not accessed for longer than the configured
    /// time to live.
    pub fn expired_files(&self, now: u64) -> (r: Vec<String>)
        ensures
            r@.map_values(|k: String| k@) == expired_keys_spec(self.files(), now, self.config_spec().file_ttl),
    {
        self.table.expired_keys(now, self.config.file_ttl)
    }

    /// Removes the file under `key` from the store and hands it back; its
    /// space stays charged until `release_space`.
    pub fn remove_file(&mut self, key: &str) -> (r: Option<FileEntry<FileMetadata>>)
        requires
            old(self).wf(),
        ensures
            final(self).wf(),
            final(self).used() == old(self).used(),
            final(self).max() == old(self).max(),
            final(self).root() == old(self).root(),
            final(self).config_spec() == old(self).config_spec(),
            final(self).last_cleanup_spec() == old(self).last_cleanup_spec(),
            match r {
                Some(e) => {
                    let i = index_of_key(old(self).files(), key@);
                    &&& i >= 0
                    &&& e.view_entry() == old(self).files()[i]
                    &&& final(self).files() == remove_at(old(self).files(), i)
                    &&& sum_sizes(final(self).files()) + e.size <= final(self).used()
                },
                None => index_of_key(old(self).files(), key@) == -1 && final(self).files() == old(self).files(),
            },
    {
        match self.table.find(key) {
            Some(i) => Some(self.table.remove_at(i)),
            None => None,
        }
    }

    /// Takes every file not accessed for longer than the configured time to
    /// live at `now` out of the store and hands them back in store order; the
    /// others stay, in order. Their space stays charged until `release_space`.
    pub fn take_expired(&mut self, now: u64) -> (r: Vec<FileEntry<FileMetadata>>)
        requires
            old(self).wf(),
        ensures
            final(self).wf(),
            final(self).used() == old(self).used(),
            final(self).max() == old(self).max(),
            final(self).root() == old(self).root(),
            final(self).config_spec() == old(self).config_spec(),
            final(self).last_cleanup_spec() == old(self).last_cleanup_spec(),
            final(self).files() == unmarked(
                old(self).files(),
                stale_marks(old(self).files(), now, old(self).config_spec().file_ttl),
            ),
            entries_view(r@) == marked(
                old(self).files(),
                stale_marks(old(self).files(), now, old(self).config_spec().file_ttl),
            ),
            sum_sizes(final(self).files()) + sum_sizes(entries_view(r@)) <= final(self).used(),
    {
        let marks = self.table.stale_marks(now, self.config.file_ttl);
        self.table.take_marked(&marks)
    }

    /// Stops charging the space of the taken files that were removed
    /// (`removed` at the same position); a file that could not be removed
    /// stays charged.
    pub fn release_removed(&mut self, taken: &Vec<FileEntry<FileMetadata>>, removed: &Vec<bool>)
        requires
            old(self).wf(),
            removed@.len() == taken@.len(),
            sum_sizes(old(self).files()) + sum_sizes(entries_view(taken@)) <= old(self).used(),
        ensures
            final(self).wf(),
            final(self).files() == old(self).files(),
            final(self).max() == old(self).max(),
            final(self).root() == old(self).root(),
            final(self).config_spec() == old(self).config_spec(),
            final(self).last_cleanup_spec() == old(self).last_cleanup_spec(),
            final(self).used() == old(self).used() - sum_sizes(marked(entries_view(taken@), removed@)),
    {
        self.table.release_marked(taken, removed);
    }

    /// Stops charging the space of a removed file.
    pub fn release_space(&mut self, size: u64)
        requires
            old(self).wf(),
            sum_sizes(old(self).files()) + size <= old(self).used(),
        ensures
            final(self).wf(),
            final(self).used() == old(self).used() - size,
            final(self).max() == old(self).max(),
            final(self).files() == old(self).files(),
            final(self).root() == old(self).root(),
            final(self).config_spec() == old(self).config_spec(),
            final(self).last_cleanup_spec() == old(self).last_cleanup_spec(),
    {
        self.table.release(size);
    }

    /// Notes that a cleanup ran at `now`.
    pub fn mark_cleanup(&mut self, now: u64)
        requires
            old(self).wf(),
        ensures
            final(self).wf(),
            final(self).last_cleanup_spec() == now,
            final(self).files() == old(self).files(),
            final(self).used() == old(self).used(),
            final(self).max() == old(self).max(),
            final(self).root() == old(self).root(),
            final(self).config_spec() == old(self).config_spec(),
    {
        self.last_cleanup = now;
    }

    /// The space and files of the store.
    pub fn get_storage_stats(&self) -> (r: StorageStats)
        requires
            self.wf(),
        ensures
            r.total_space == self.max(),
            r.used_space == self.used(),
            r.free_space == self.max() - self.used(),
            r.file_count == self.files().len(),
            r.last_cleanup == self.last_cleanup_spec(),
    {
        StorageStats {
            total_space: self.table.max_space(),
            used_space: self.table.used_space(),
            free_space: self.table.max_space() - self.table.used_space(),
            file_count: self.table.len(),
            last_cleanup: self.last_cleanup,
        }
    }

    /// The configuration.
    pub fn config(&self) -> (r: StorageConfig)
        ensures
            r == self.config_spec(),
    {
        self.config
    }
}

/// A cleanup at `now` with time to live `ttl` (`take_expired`, then
/// `release_removed` with every file removed) leaves no file unread for longer
/// than `ttl`, keeps the others as they were and in order, and, where the
/// space charged was exactly the sizes held, leaves it exactly the sizes of
/// the files that remain.
pub proof fn lemma_cleanup_accounting(
    before: Seq<EntryView<FileMetadata>>,
    used: u64,
    now: u64,
    ttl: u64,
    removed: Seq<bool>,
)
    requires
        used == sum_sizes(before),
        removed.len() == marked(before, stale_marks(before, now, ttl)).len(),
        forall|i: int| 0 <= i < removed.len() ==> removed[i],
    ensures
        forall|k: int|
            0 <= k < unmarked(before, stale_marks(before, now, ttl)).len() ==> elapsed(
                now,
                (#[trigger] unmarked(before, stale_marks(before, now, ttl))[k]).last_access,
            ) <= ttl,
        used - sum_sizes(marked(marked(before, stale_marks(before, now, ttl)), removed)) == sum_sizes(
            unmarked(before, stale_marks(before, now, ttl)),
        ),
{
    let marks = stale_marks(before, now, ttl);
    let p = |e: EntryView<FileMetadata>| elapsed(now, e.last_access) <= ttl;
    assert forall|j: int| 0 <= j < before.len() && !marks[j] implies p(#[trigger] before[j]) by {}
    lemma_unmarked_holds(before, marks, p);
    lemma_cleanup_sum(before, used as int, marks, removed);
}

} // verus!
