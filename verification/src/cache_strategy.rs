//! A cleaning strategy that combines three rules: drop what was not used
//! for too long, drop the least recently used while too much space is in
//! use, and drop what was used too seldom.
use crate::cache_cleaner::{idx_view, is_oldest_first, oldest_first, strs_view};
use crate::keyed::{key_index, lemma_key_index, KeyedVec};
use vstd::prelude::*;

verus! {

/// When a key was last used (milliseconds) and how often.
#[derive(Debug, Clone, Copy)]
pub struct AccessStat {
    pub last_access: u64,
    pub count: u64,
}

pub open spec fn stat_keys(s: Seq<(Seq<char>, AccessStat)>) -> Seq<Seq<char>> {
    s.map_values(|p: (Seq<char>, AccessStat)| p.0)
}

pub open spec fn stat_times(s: Seq<(Seq<char>, AccessStat)>) -> Seq<u64> {
    s.map_values(|p: (Seq<char>, AccessStat)| p.1.last_access)
}

/// The keys not used for longer than `max_age` at `now`, in order.
pub open spec fn old_keys(s: Seq<(Seq<char>, AccessStat)>, now: u64, max_age: u64) -> Seq<Seq<char>>
    decreases s.len(),
{
    if s.len() == 0 {
        Seq::empty()
    } else {
        let prev = old_keys(s.drop_last(), now, max_age);
        if now - s.last().1.last_access > max_age {
            prev.push(s.last().0)
        } else {
            prev
        }
    }
}

/// The keys used fewer than `min` times, in order.
pub open spec fn rare_keys(s: Seq<(Seq<char>, AccessStat)>, min: u64) -> Seq<Seq<char>>
    decreases s.len(),
{
    if s.len() == 0 {
        Seq::empty()
    } else {
        let prev = rare_keys(s.drop_last(), min);
        if s.last().1.count < min {
            prev.push(s.last().0)
        } else {
            prev
        }
    }
}

/// Walking `order`, each key whose size is known is dropped and its size
/// counted as freed, until `target` is freed. `None` when the count of freed
/// space would not fit in 64 bits.
pub open spec fn size_walk(
    keys: Seq<Seq<char>>,
    sizes: Seq<Option<u64>>,
    order: Seq<int>,
    freed: int,
    target: int,
) -> Option<Seq<Seq<char>>>
    decreases order.len(),
{
    if order.len() == 0 {
        Some(Seq::empty())
    } else {
        match sizes[order[0]] {
            None => size_walk(keys, sizes, order.drop_first(), freed, target),
            Some(s) => if freed + s > u64::MAX {
                None
            } else if freed + s >= target {
                Some(seq![keys[order[0]]])
            } else {
                match size_walk(keys, sizes, order.drop_first(), freed + s, target) {
                    Some(v) => Some(seq![keys[order[0]]] + v),
                    None => None,
                }
            },
        }
    }
}

/// Keeps what it needs to choose what to clean: each key's last use and use
/// count, and the space recorded as in use.
#[derive(Debug)]
pub struct CacheStrategy {
    stats: KeyedVec<AccessStat>,
    max_age: u64,
    max_size: u64,
    min_access_count: u64,
    current_size: u64,
}

impl CacheStrategy {
    pub closed spec fn stats_spec(&self) -> Seq<(Seq<char>, AccessStat)> {
        self.stats.entries()
    }

    pub closed spec fn current_size_spec(&self) -> u64 {
        self.current_size
    }

    pub closed spec fn max_age_spec(&self) -> u64 {
        self.max_age
    }

    pub closed spec fn max_size_spec(&self) -> u64 {
        self.max_size
    }

    pub closed spec fn min_count_spec(&self) -> u64 {
        self.min_access_count
    }

    pub closed spec fn wf(&self) -> bool {
        self.stats.wf()
    }

    /// A strategy that has seen no use yet. `max_age` is in milliseconds.
    pub fn new(max_age: u64, max_size: u64, min_access_count: u64) -> (r: Self)
        ensures
            r.wf(),
            r.stats_spec() == Seq::<(Seq<char>, AccessStat)>::empty(),
            r.current_size_spec() == 0,
            r.max_age_spec() == max_age,
            r.max_size_spec() == max_size,
            r.min_count_spec() == min_access_count,
    {
        CacheStrategy { stats: KeyedVec::new(), max_age, max_size, min_access_count, current_size: 0 }
    }

    /// Notes a use of `key` at `now` that brought in `size` bytes: its last
    /// use becomes `now`, its count goes up by one (from 0 for a new key) and
    /// the space in use grows by `size`.
    pub fn record_access(&mut self, key: &str, size: u64, now: u64)
        requires
            old(self).wf(),
            old(self).current_size_spec() + size <= u64::MAX,
            key_index(old(self).stats_spec(), key@) >= 0 ==> old(self).stats_spec()[key_index(
                old(self).stats_spec(),
                key@,
            )].1.count < u64::MAX,
        ensures
            final(self).wf(),
            final(self).current_size_spec() == old(self).current_size_spec() + size,
            final(self).stats_spec() == ({
                let s = old(self).stats_spec();
                let i = key_index(s, key@);
                if i >= 0 {
                    s.update(i, (key@, AccessStat { last_access: now, count: (s[i].1.count + 1) as u64 }))
                } else {
                    s.push((key@, AccessStat { last_access: now, count: 1 }))
                }
            }),
            final(self).max_age_spec() == old(self).max_age_spec(),
            final(self).max_size_spec() == old(self).max_size_spec(),
            final(self).min_count_spec() == old(self).min_count_spec(),
    {
        proof {
            lemma_key_index(self.stats.entries(), key@);
        }
        match self.stats.find(key) {
            Some(i) => {
                let c = self.stats.value_at(i).count;
                self.stats.set_value(i, AccessStat { last_access: now, count: c + 1 });
            },
            None => {
                self.stats.push_new(key, AccessStat { last_access: now, count: 1 });
            },
        }
        self.current_size = self.current_size + size;
    }

    /// The keys, in the order the rules see them.
    pub fn keys(&self) -> (r: Vec<String>)
        ensures
            strs_view(r@) == stat_keys(self.stats_spec()),
    {
        let ghost s = self.stats.entries();
        let mut out: Vec<String> = Vec::new();
        let n = self.stats.len();
        let mut i: usize = 0;
        while i < n
            invariant
                0 <= i <= n,
                n == s.len(),
                s == self.stats.entries(),
                strs_view(out@) == stat_keys(s).take(i as int),
            decreases n - i,
        {
            let k = self.stats.key_at(i);
            let ghost o0 = strs_view(out@);
            assert(k@ == stat_keys(s)[i as int]);
            out.push(k);
            assert(strs_view(out@) =~= o0.push(k@));
            assert(stat_keys(s).take(i + 1) =~= stat_keys(s).take(i as int).push(k@));
            i += 1;
        }
        assert(stat_keys(s).take(i as int) =~= stat_keys(s));
        out
    }

    /// Whether every recorded use is no later than `now` (the rules measure
    /// ages up to `now`).
    pub fn all_used_by(&self, now: u64) -> (r: bool)
        ensures
            r == forall|i: int| 0 <= i < self.stats_spec().len() ==> (#[trigger] self.stats_spec()[i]).1.last_access <= now,
    {
        let ghost s = self.stats.entries();
        let n = self.stats.len();
        let mut i: usize = 0;
        while i < n
            invariant
                0 <= i <= n,
                n == s.len(),
                s == self.stats.entries(),
                forall|j: int| 0 <= j < i ==> (#[trigger] s[j]).1.last_access <= now,
            decreases n - i,
        {
            if self.stats.value_at(i).last_access > now {
                assert(s[i as int].1.last_access > now);
                assert(self.stats_spec()[i as int] == s[i as int]);
                return false;
            }
            i += 1;
        }
        true
    }

    /// The keys not used for longer than the maximum age at `now`.
    pub fn clean_by_time(&self, now: u64) -> (r: Vec<String>)
        requires
            forall|i: int| 0 <= i < self.stats_spec().len() ==> (#[trigger] self.stats_spec()[i]).1.last_access <= now,
        ensures
            strs_view(r@) == old_keys(self.stats_spec(), now, self.max_age_spec()),
    {
        let ghost s = self.stats.entries();
        assert forall|j: int| 0 <= j < s.len() implies (#[trigger] s[j]).1.last_access <= now by {
            assert(s[j] == self.stats_spec()[j]);
        }
        let mut out: Vec<String> = Vec::new();
        let n = self.stats.len();
        let mut i: usize = 0;
        while i < n
            invariant
                0 <= i <= n,
                n == s.len(),
                s == self.stats.entries(),
                forall|j: int| 0 <= j < s.len() ==> (#[trigger] s[j]).1.last_access <= now,
                strs_view(out@) == old_keys(s.take(i as int), now, self.max_age),
            decreases n - i,
        {
            assert(s.take(i + 1).drop_last() =~= s.take(i as int));
            let st = *self.stats.value_at(i);
            if now - st.last_access > self.max_age {
                let k = self.stats.key_at(i);
                let ghost o0 = strs_view(out@);
                out.push(k);
                assert(strs_view(out@) =~= o0.push(s[i as int].0));
            }
            i += 1;
        }
        assert(s.take(i as int) =~= s);
        out
    }

    /// The keys used fewer than the minimum number of times.
    pub fn clean_by_frequency(&self) -> (r: Vec<String>)
        ensures
            strs_view(r@) == rare_keys(self.stats_spec(), self.min_count_spec()),
    {
        let ghost s = self.stats.entries();
        let mut out: Vec<String> = Vec::new();
        let n = self.stats.len();
        let mut i: usize = 0;
        while i < n
            invariant
                0 <= i <= n,
                n == s.len(),
                s == self.stats.entries(),
                strs_view(out@) == rare_keys(s.take(i as int), self.min_access_count),
            decreases n - i,
        {
            assert(s.take(i + 1).drop_last() =~= s.take(i as int));
            if self.stats.value_at(i).count < self.min_access_count {
                let k = self.stats.key_at(i);
                let ghost o0 = strs_view(out@);
                out.push(k);
                assert(strs_view(out@) =~= o0.push(s[i as int].0));
            }
            i += 1;
        }
        assert(s.take(i as int) =~= s);
        out
    }

    /// When more space is in use than allowed: the least recently used keys
    /// whose sizes (`sizes`, by entry; `None` where unknown) add up to the
    /// excess, oldest first; else none. `None` when the sizes add up past 64
    /// bits.
    pub fn clean_by_size(&self, sizes: &Vec<Option<u64>>) -> (r: Option<Vec<String>>)
        requires
            sizes@.len() == self.stats_spec().len(),
        ensures
            exists|order: Seq<int>|
                #![trigger is_oldest_first(stat_times(self.stats_spec()), order)]
                is_oldest_first(stat_times(self.stats_spec()), order) && (if self.current_size_spec()
                    <= self.max_size_spec() {
                    r matches Some(v) && v@.len() == 0
                } else {
                    match r {
                        Some(v) => size_walk(
                            stat_keys(self.stats_spec()),
                            sizes@,
                            order,
                            0,
                            self.current_size_spec() - self.max_size_spec(),
                        ) == Some(strs_view(v@)),
                        None => size_walk(
                            stat_keys(self.stats_spec()),
                            sizes@,
                            order,
                            0,
                            self.current_size_spec() - self.max_size_spec(),
                        ) is None,
                    }
                }),
    {
        let ghost s = self.stats.entries();
        let n = self.stats.len();
        let mut times: Vec<u64> = Vec::new();
        let mut i: usize = 0;
        while i < n
            invariant
                0 <= i <= n,
                n == s.len(),
                s == self.stats.entries(),
                times@ == stat_times(s).take(i as int),
            decreases n - i,
        {
            times.push(self.stats.value_at(i).last_access);
            assert(times@ =~= stat_times(s).take(i + 1));
            i += 1;
        }
        assert(times@ =~= stat_times(s));
        let order = oldest_first(&times);
        assert(is_oldest_first(stat_times(s), idx_view(order@)));
        if self.current_size <= self.max_size {
            let v: Vec<String> = Vec::new();
            return Some(v);
        }
        let target = self.current_size - self.max_size;
        self.walk_sizes(sizes, &order, target)
    }

    fn walk_sizes(&self, sizes: &Vec<Option<u64>>, order: &Vec<usize>, target: u64) -> (r: Option<Vec<String>>)
        requires
            sizes@.len() == self.stats_spec().len(),
            is_oldest_first(stat_times(self.stats_spec()), idx_view(order@)),
        ensures
            match r {
                Some(v) => size_walk(stat_keys(self.stats_spec()), sizes@, idx_view(order@), 0, target as int)
                    == Some(strs_view(v@)),
                None => size_walk(stat_keys(self.stats_spec()), sizes@, idx_view(order@), 0, target as int) is None,
            },
    {
        let ghost keys = stat_keys(self.stats.entries());
        let ghost ord = idx_view(order@);
        proof {
            assert forall|k: int| 0 <= k < order@.len() implies (#[trigger] order@[k]) < self.stats.entries().len() by {
                assert(ord[k] == order@[k] as int);
            }
        }
        let mut out: Vec<String> = Vec::new();
        let mut freed: u64 = 0;
        let mut k: usize = 0;
        assert(ord.skip(0) =~= ord);
        proof {
            let w = size_walk(keys, sizes@, ord, 0, target as int);
            if w is Some {
                assert(Seq::<Seq<char>>::empty() + w->Some_0 =~= w->Some_0);
            }
        }
        while k < order.len()
            invariant
                0 <= k <= order@.len(),
                sizes@.len() == self.stats.entries().len(),
                keys == stat_keys(self.stats.entries()),
                ord == idx_view(order@),
                forall|j: int| 0 <= j < order@.len() ==> (#[trigger] order@[j]) < self.stats.entries().len(),
                size_walk(keys, sizes@, ord, 0, target as int) == match size_walk(
                    keys,
                    sizes@,
                    ord.skip(k as int),
                    freed as int,
                    target as int,
                ) {
                    Some(rest) => Some(strs_view(out@) + rest),
                    None => None::<Seq<Seq<char>>>,
                },
            decreases order@.len() - k,
        {
            let ghost rest = ord.skip(k as int);
            assert(rest.drop_first() =~= ord.skip(k + 1));
            assert(rest[0] == order@[k as int] as int);
            let idx = order[k];
            match sizes[idx] {
                None => {},
                Some(sz) => {
                    if sz > u64::MAX - freed {
                        return None;
                    }
                    freed = freed + sz;
                    let ghost o0 = strs_view(out@);
                    let key = self.stats.key_at(idx);
                    out.push(key);
                    assert(strs_view(out@) =~= o0.push(keys[idx as int]));
                    if freed >= target {
                        assert(o0 + seq![keys[idx as int]] =~= strs_view(out@));
                        return Some(out);
                    }
                    proof {
                        let later = size_walk(keys, sizes@, ord.skip(k + 1), freed as int, target as int);
                        if later is Some {
                            assert(o0 + (seq![keys[idx as int]] + later->Some_0) =~= strs_view(out@)
                                + later->Some_0);
                        }
                    }
                },
            }
            k += 1;
        }
        assert(ord.skip(k as int).len() == 0);
        assert(strs_view(out@) + Seq::<Seq<char>>::empty() =~= strs_view(out@));
        Some(out)
    }

    /// Forgets `key` after its file, of `size` bytes, was removed: its
    /// statistics go and the space in use shrinks by `size`.
    pub fn forget(&mut self, key: &str, size: u64)
        requires
            old(self).wf(),
            size <= old(self).current_size_spec(),
        ensures
            final(self).wf(),
            final(self).current_size_spec() == old(self).current_size_spec() - size,
            key_index(old(self).stats_spec(), key@) >= 0 ==> final(self).stats_spec() == old(
                self,
            ).stats_spec().remove(key_index(old(self).stats_spec(), key@)),
            key_index(old(self).stats_spec(), key@) < 0 ==> final(self).stats_spec() == old(self).stats_spec(),
            final(self).max_age_spec() == old(self).max_age_spec(),
            final(self).max_size_spec() == old(self).max_size_spec(),
            final(self).min_count_spec() == old(self).min_count_spec(),
    {
        proof {
            lemma_key_index(self.stats.entries(), key@);
        }
        match self.stats.find(key) {
            Some(i) => {
                self.stats.remove_at(i);
            },
            None => {},
        }
        self.current_size = self.current_size - size;
    }

    /// Every key that one of the three rules picks at `now`, each once
    /// (`sizes` as for `clean_by_size`). `None` when the sizes add up past 64
    /// bits.
    pub fn keys_to_clean(&self, now: u64, sizes: &Vec<Option<u64>>) -> (r: Option<Vec<String>>)
        requires
            sizes@.len() == self.stats_spec().len(),
            forall|i: int| 0 <= i < self.stats_spec().len() ==> (#[trigger] self.stats_spec()[i]).1.last_access <= now,
        ensures
            match r {
                Some(v) => strs_view(v@).no_duplicates() && exists|by_size: Seq<Seq<char>>|
                    strs_view(v@).to_set() == old_keys(self.stats_spec(), now, self.max_age_spec()).to_set().union(
                        by_size.to_set(),
                    ).union(rare_keys(self.stats_spec(), self.min_count_spec()).to_set()) && exists|order: Seq<int>|
                        #![trigger is_oldest_first(stat_times(self.stats_spec()), order)]
                        is_oldest_first(stat_times(self.stats_spec()), order) && (if self.current_size_spec()
                            <= self.max_size_spec() {
                            by_size.len() == 0
                        } else {
                            size_walk(
                                stat_keys(self.stats_spec()),
                                sizes@,
                                order,
                                0,
                                self.current_size_spec() - self.max_size_spec(),
                            ) == Some(by_size)
                        }),
                None => self.current_size_spec() > self.max_size_spec() && exists|order: Seq<int>|
                    #![trigger is_oldest_first(stat_times(self.stats_spec()), order)]
                    is_oldest_first(stat_times(self.stats_spec()), order) && size_walk(
                        stat_keys(self.stats_spec()),
                        sizes@,
                        order,
                        0,
                        self.current_size_spec() - self.max_size_spec(),
                    ) is None,
            },
    {
        let by_time = self.clean_by_time(now);
        let by_size = match self.clean_by_size(sizes) {
            Some(v) => v,
            None => {
                return None;
            },
        };
        let by_count = self.clean_by_frequency();
        let mut out: Vec<String> = Vec::new();
        assert(strs_view(out@).to_set() =~= Set::<Seq<char>>::empty());
        add_unique(&mut out, &by_time);
        add_unique(&mut out, &by_size);
        add_unique(&mut out, &by_count);
        assert(strs_view(out@).to_set() =~= strs_view(by_time@).to_set().union(strs_view(by_size@).to_set()).union(
            strs_view(by_count@).to_set(),
        ));
        Some(out)
    }
}

/// Appends each of `items` that `out` does not yet hold.
pub fn add_unique(out: &mut Vec<String>, items: &Vec<String>)
    requires
        strs_view(old(out)@).no_duplicates(),
    ensures
        strs_view(final(out)@).no_duplicates(),
        strs_view(final(out)@).to_set() == strs_view(old(out)@).to_set().union(strs_view(items@).to_set()),
{
    let ghost o0 = strs_view(out@);
    let mut j: usize = 0;
    while j < items.len()
        invariant
            0 <= j <= items@.len(),
            strs_view(out@).no_duplicates(),
            strs_view(out@).to_set() == o0.to_set().union(strs_view(items@).take(j as int).to_set()),
        decreases items@.len() - j,
    {
        let ghost cur = strs_view(out@);
        let x = items[j].clone();
        assert(x@ == strs_view(items@)[j as int]);
        assert(strs_view(items@).take(j + 1) =~= strs_view(items@).take(j as int).push(x@));
        let mut found = false;
        let mut k: usize = 0;
        while k < out.len()
            invariant
                0 <= k <= out@.len(),
                cur == strs_view(out@),
                found <==> exists|m: int| 0 <= m < k && cur[m] == x@,
            decreases out@.len() - k,
        {
            assert(cur[k as int] == out@[k as int]@);
            if out[k] == x {
                found = true;
            }
            k += 1;
        }
        if !found {
            out.push(x);
            assert(strs_view(out@) =~= cur.push(x@));
            proof {
                cur.lemma_push_to_set_commute(x@);
            }
            assert(strs_view(out@).to_set() =~= cur.to_set().insert(x@));
        } else {
            assert(cur.contains(x@));
        }
        proof {
            strs_view(items@).take(j as int).lemma_push_to_set_commute(x@);
        }
        assert(strs_view(items@).take(j + 1).to_set() =~= strs_view(items@).take(j as int).to_set().insert(x@));
        assert(strs_view(out@).to_set() =~= o0.to_set().union(strs_view(items@).take(j + 1).to_set()));
        j += 1;
    }
    assert(strs_view(items@).take(j as int) =~= strs_view(items@));
}

} // verus!
