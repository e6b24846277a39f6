//! The record of what a size-bounded cache holds, and which entries to drop
//! to make room for a new one.
use crate::cache_cleaner::strs_view;
use crate::keyed::{key_index, lemma_key_index, KeyedVec};
use vstd::prelude::*;

verus! {

/// What is recorded of a cached entry: its size, its last use
/// (milliseconds) and its content type.
#[derive(Debug)]
pub struct StoredEntry {
    pub size: u64,
    pub last_access: u64,
    pub content_type: String,
}

pub struct StoredView {
    pub size: u64,
    pub last_access: u64,
    pub content_type: Seq<char>,
}

pub open spec fn stored_view(e: StoredEntry) -> StoredView {
    StoredView { size: e.size, last_access: e.last_access, content_type: e.content_type@ }
}

pub open spec fn stored_entries(s: Seq<(Seq<char>, StoredEntry)>) -> Seq<(Seq<char>, StoredView)> {
    s.map_values(|p: (Seq<char>, StoredEntry)| (p.0, stored_view(p.1)))
}

/// The space all entries take.
pub open spec fn total_size(s: Seq<(Seq<char>, StoredView)>) -> nat
    decreases s.len(),
{
    if s.len() == 0 {
        0
    } else {
        total_size(s.drop_last()) + s.last().1.size as nat
    }
}

/// Walking the entries in order while `current + required` exceeds `max`:
/// each entry older than `max_age` at `now` is dropped and its size taken
/// off.
pub open spec fn space_walk(
    s: Seq<(Seq<char>, StoredView)>,
    current: int,
    required: int,
    max: int,
    now: u64,
    max_age: u64,
) -> Seq<Seq<char>>
    decreases s.len(),
{
    if s.len() == 0 || current + required <= max {
        Seq::empty()
    } else if now - s[0].1.last_access > max_age {
        seq![s[0].0] + space_walk(s.drop_first(), current - s[0].1.size, required, max, now, max_age)
    } else {
        space_walk(s.drop_first(), current, required, max, now, max_age)
    }
}

/// Records the entries of a cache of at most `max_size` bytes, whose
/// entries may go once unused for `max_age` milliseconds.
#[derive(Debug)]
pub struct CacheManager {
    entries: KeyedVec<StoredEntry>,
    max_size: u64,
    max_age: u64,
}

impl CacheManager {
    pub closed spec fn entries_spec(&self) -> Seq<(Seq<char>, StoredView)> {
        stored_entries(self.entries.entries())
    }

    pub closed spec fn max_size_spec(&self) -> u64 {
        self.max_size
    }

    pub closed spec fn max_age_spec(&self) -> u64 {
        self.max_age
    }

    pub closed spec fn wf(&self) -> bool {
        self.entries.wf()
    }

    /// An empty cache.
    pub fn new(max_size: u64, max_age: u64) -> (r: Self)
        ensures
            r.wf(),
            r.entries_spec() == Seq::<(Seq<char>, StoredView)>::empty(),
            r.max_size_spec() == max_size,
            r.max_age_spec() == max_age,
    {
        let r = CacheManager { entries: KeyedVec::new(), max_size, max_age };
        assert(r.entries_spec() =~= Seq::<(Seq<char>, StoredView)>::empty());
        r
    }

    /// Whether every recorded use is no later than `now`.
    pub fn all_used_by(&self, now: u64) -> (r: bool)
        ensures
            r == forall|i: int| 0 <= i < self.entries_spec().len() ==> (#[trigger] self.entries_spec()[i]).1.last_access <= now,
    {
        let ghost s = self.entries_spec();
        let n = self.entries.len();
        proof {
            assert(s.len() == n);
        }
        let mut i: usize = 0;
        while i < n
            invariant
                0 <= i <= n,
                s == self.entries_spec(),
                s.len() == n,
                forall|j: int| 0 <= j < i ==> (#[trigger] s[j]).1.last_access <= now,
            decreases n - i,
        {
            if self.entries.value_at(i).last_access > now {
                assert(s[i as int].1.last_access > now);
                return false;
            }
            i += 1;
        }
        true
    }

    /// Which entries to drop, in order, to make room for `required` more
    /// bytes at `now` (see `space_walk`); none when there is room. `None`
    /// when the space in use plus `required` does not fit in 64 bits.
    pub fn plan_space(&self, required: u64, now: u64) -> (r: Option<Vec<String>>)
        requires
            forall|i: int| 0 <= i < self.entries_spec().len() ==> (#[trigger] self.entries_spec()[i]).1.last_access <= now,
        ensures
            match r {
                Some(v) => total_size(self.entries_spec()) + required <= u64::MAX && strs_view(v@) == space_walk(
                    self.entries_spec(),
                    total_size(self.entries_spec()) as int,
                    required as int,
                    self.max_size_spec() as int,
                    now,
                    self.max_age_spec(),
                ),
                None => total_size(self.entries_spec()) + required > u64::MAX,
            },
    {
        let ghost s = self.entries_spec();
        let n = self.entries.len();
        proof {
            assert(s.len() == n);
        }
        let mut total: u64 = 0;
        let mut i: usize = 0;
        while i < n
            invariant
                0 <= i <= n,
                s == self.entries_spec(),
                s.len() == n,
                n == self.entries.entries().len(),
                total == total_size(s.take(i as int)),
            decreases n - i,
        {
            assert(s.take(i + 1).drop_last() =~= s.take(i as int));
            let sz = self.entries.value_at(i).size;
            assert(sz == s[i as int].1.size);
            if sz > u64::MAX - total {
                proof {
                    lemma_total_grows(s, i as int + 1);
                }
                return None;
            }
            total = total + sz;
            i += 1;
        }
        assert(s.take(i as int) =~= s);
        if required > u64::MAX - total {
            return None;
        }
        let mut out: Vec<String> = Vec::new();
        let mut current: u64 = total;
        let mut k: usize = 0;
        proof {
            assert(s.skip(0) =~= s);
            assert(Seq::<Seq<char>>::empty() + space_walk(s, total as int, required as int, self.max_size as int, now, self.max_age) =~= space_walk(s, total as int, required as int, self.max_size as int, now, self.max_age));
            lemma_walk_suffix_total(s, 0);
        }
        while k < n && current + required > self.max_size
            invariant
                0 <= k <= n,
                s == self.entries_spec(),
                s.len() == n,
                n == self.entries.entries().len(),
                total + required <= u64::MAX,
                current <= total,
                current >= total_size(s.skip(k as int)),
                forall|j: int| 0 <= j < s.len() ==> (#[trigger] s[j]).1.last_access <= now,
                space_walk(s, total as int, required as int, self.max_size as int, now, self.max_age) == strs_view(out@)
                    + space_walk(s.skip(k as int), current as int, required as int, self.max_size as int, now, self.max_age),
            decreases n - k,
        {
            let ghost rest = s.skip(k as int);
            assert(rest.drop_first() =~= s.skip(k + 1));
            assert(rest[0] == s[k as int]);
            let e = self.entries.value_at(k);
            assert(stored_view(*e) == s[k as int].1);
            proof {
                lemma_skip_total(s, k as int);
            }
            if now - e.last_access > self.max_age {
                let ghost o0 = strs_view(out@);
                let key = self.entries.key_at(k);
                out.push(key);
                assert(strs_view(out@) =~= o0.push(s[k as int].0));
                current = current - e.size;
                assert(o0 + (seq![s[k as int].0] + space_walk(s.skip(k + 1), current as int, required as int, self.max_size as int, now, self.max_age)) =~= strs_view(out@) + space_walk(s.skip(k + 1), current as int, required as int, self.max_size as int, now, self.max_age));
            }
            k += 1;
        }
        proof {
            let rest = s.skip(k as int);
            if k == n {
                assert(rest.len() == 0);
            }
            assert(strs_view(out@) + Seq::<Seq<char>>::empty() =~= strs_view(out@));
        }
        Some(out)
    }

    /// Records `key` as just stored at `now`: `size` bytes of
    /// `content_type`, in place of any earlier entry under that key.
    pub fn record(&mut self, key: &str, size: u64, content_type: String, now: u64)
        requires
            old(self).wf(),
        ensures
            final(self).wf(),
            final(self).entries_spec() == ({
                let s = old(self).entries_spec();
                let e = StoredView { size, last_access: now, content_type: content_type@ };
                if key_index(s, key@) >= 0 {
                    s.update(key_index(s, key@), (key@, e))
                } else {
                    s.push((key@, e))
                }
            }),
            final(self).max_size_spec() == old(self).max_size_spec(),
            final(self).max_age_spec() == old(self).max_age_spec(),
    {
        let ghost s0 = self.entries.entries();
        let ghost ct = content_type@;
        proof {
            lemma_key_index(s0, key@);
            lemma_key_index_view(s0, key@);
        }
        self.entries.put(key, StoredEntry { size, last_access: now, content_type });
        assert(self.entries_spec() =~= ({
            let s = stored_entries(s0);
            let e = StoredView { size, last_access: now, content_type: ct };
            if key_index(s, key@) >= 0 {
                s.update(key_index(s, key@), (key@, e))
            } else {
                s.push((key@, e))
            }
        }));
    }

    /// Notes a use of `key` at `now` and gives its content type; `None`
    /// when nothing is recorded under `key`.
    pub fn touch(&mut self, key: &str, now: u64) -> (r: Option<String>)
        requires
            old(self).wf(),
        ensures
            final(self).wf(),
            match r {
                Some(ct) => {
                    let s = old(self).entries_spec();
                    let i = key_index(s, key@);
                    &&& i >= 0
                    &&& ct@ == s[i].1.content_type
                    &&& final(self).entries_spec() == s.update(
                        i,
                        (key@, StoredView { last_access: now, ..s[i].1 }),
                    )
                },
                None => key_index(old(self).entries_spec(), key@) < 0 && final(self).entries_spec() == old(
                    self,
                ).entries_spec(),
            },
            final(self).max_size_spec() == old(self).max_size_spec(),
            final(self).max_age_spec() == old(self).max_age_spec(),
    {
        let ghost s0 = self.entries.entries();
        proof {
            lemma_key_index(s0, key@);
            lemma_key_index_view(s0, key@);
        }
        match self.entries.find(key) {
            None => None,
            Some(i) => {
                let e = self.entries.value_at(i);
                let ct = e.content_type.clone();
                let size = e.size;
                let ct2 = e.content_type.clone();
                self.entries.set_value(i, StoredEntry { size, last_access: now, content_type: ct2 });
                assert(self.entries_spec() =~= stored_entries(s0).update(
                    i as int,
                    (key@, StoredView { last_access: now, ..stored_entries(s0)[i as int].1 }),
                ));
                Some(ct)
            },
        }
    }

    /// Forgets the entry under `key`, whose file was removed.
    pub fn forget(&mut self, key: &str)
        requires
            old(self).wf(),
        ensures
            final(self).wf(),
            key_index(old(self).entries_spec(), key@) >= 0 ==> final(self).entries_spec() == old(
                self,
            ).entries_spec().remove(key_index(old(self).entries_spec(), key@)),
            key_index(old(self).entries_spec(), key@) < 0 ==> final(self).entries_spec() == old(self).entries_spec(),
            final(self).max_size_spec() == old(self).max_size_spec(),
            final(self).max_age_spec() == old(self).max_age_spec(),
    {
        let ghost s0 = self.entries.entries();
        proof {
            lemma_key_index(s0, key@);
            lemma_key_index_view(s0, key@);
        }
        match self.entries.find(key) {
            Some(i) => {
                self.entries.remove_at(i);
                assert(self.entries_spec() =~= stored_entries(s0).remove(i as int));
            },
            None => {},
        }
    }
}

/// The view keeps keys and positions.
pub proof fn lemma_key_index_view(s: Seq<(Seq<char>, StoredEntry)>, k: Seq<char>)
    ensures
        key_index(stored_entries(s), k) == key_index(s, k),
    decreases s.len(),
{
    if s.len() > 0 {
        assert(stored_entries(s).drop_last() =~= stored_entries(s.drop_last()));
        lemma_key_index_view(s.drop_last(), k);
    }
}

proof fn lemma_total_grows(s: Seq<(Seq<char>, StoredView)>, k: int)
    requires
        0 <= k <= s.len(),
    ensures
        total_size(s.take(k)) <= total_size(s),
    decreases s.len() - k,
{
    if k < s.len() {
        lemma_total_grows(s, k + 1);
        assert(s.take(k + 1).drop_last() =~= s.take(k));
    } else {
        assert(s.take(k) =~= s);
    }
}

/// Splitting off the first entry of a suffix splits off its size.
proof fn lemma_skip_total(s: Seq<(Seq<char>, StoredView)>, k: int)
    requires
        0 <= k < s.len(),
    ensures
        total_size(s.skip(k)) == s[k].1.size + total_size(s.skip(k + 1)),
{
    lemma_total_front(s.skip(k));
    assert(s.skip(k).drop_first() =~= s.skip(k + 1));
}

proof fn lemma_total_front(s: Seq<(Seq<char>, StoredView)>)
    requires
        s.len() > 0,
    ensures
        total_size(s) == s[0].1.size + total_size(s.drop_first()),
    decreases s.len(),
{
    if s.len() > 1 {
        lemma_total_front(s.drop_last());
        assert(s.drop_last().drop_first() =~= s.drop_first().drop_last());
        assert(s.drop_first().last() == s.last());
        assert(s.drop_last()[0] == s[0]);
        assert(total_size(s.drop_first()) == total_size(s.drop_first().drop_last()) + s.drop_first().last().1.size);
    } else {
        assert(s.drop_first().len() == 0);
        assert(s.drop_last().len() == 0);
        assert(total_size(s.drop_first()) == 0);
        assert(total_size(s.drop_last()) == 0);
        assert(s.last() == s[0]);
    }
}

/// The whole is at least any suffix.
proof fn lemma_walk_suffix_total(s: Seq<(Seq<char>, StoredView)>, k: int)
    requires
        0 <= k <= s.len(),
    ensures
        total_size(s.skip(k)) <= total_size(s),
    decreases k,
{
    if k > 0 {
        lemma_walk_suffix_total(s, k - 1);
        lemma_skip_total(s, k - 1);
    } else {
        assert(s.skip(0) =~= s);
    }
}

/// Making room drops only entries past their age: every key the walk
/// names is the key of an entry unused for longer than `max_age` at `now`.
pub proof fn lemma_space_walk_only_old(
    s: Seq<(Seq<char>, StoredView)>,
    current: int,
    required: int,
    max: int,
    now: u64,
    max_age: u64,
)
    ensures
        forall|x: Seq<char>|
            #[trigger] space_walk(s, current, required, max, now, max_age).contains(x) ==> exists|i: int|
                0 <= i < s.len() && s[i].0 == x && now - s[i].1.last_access > max_age,
    decreases s.len(),
{
    if s.len() > 0 && current + required > max {
        let rest = s.drop_first();
        if now - s[0].1.last_access > max_age {
            lemma_space_walk_only_old(rest, current - s[0].1.size, required, max, now, max_age);
        } else {
            lemma_space_walk_only_old(rest, current, required, max, now, max_age);
        }
        assert forall|x: Seq<char>|
            #[trigger] space_walk(s, current, required, max, now, max_age).contains(x) implies exists|i: int|
                0 <= i < s.len() && s[i].0 == x && now - s[i].1.last_access > max_age by {
            let w = space_walk(s, current, required, max, now, max_age);
            let j = choose|j: int| 0 <= j < w.len() && w[j] == x;
            if now - s[0].1.last_access > max_age {
                let tail = space_walk(rest, current - s[0].1.size, required, max, now, max_age);
                if j == 0 {
                    assert(s[0].0 == x);
                } else {
                    assert(w[j] == tail[j - 1]);
                    assert(tail.contains(x));
                    let k = choose|k: int| 0 <= k < rest.len() && rest[k].0 == x && now - rest[k].1.last_access > max_age;
                    assert(s[k + 1] == rest[k]);
                }
            } else {
                let tail = space_walk(rest, current, required, max, now, max_age);
                assert(tail.contains(x));
                let k = choose|k: int| 0 <= k < rest.len() && rest[k].0 == x && now - rest[k].1.last_access > max_age;
                assert(s[k + 1] == rest[k]);
            }
        }
    }
}

} // verus!
