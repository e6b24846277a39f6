//! Which cached files to drop: those not used for longer than a time to
//! live, then, while the rest take more than the allowed space, the least
//! recently used.
use crate::external::{
    access_log, insert_access, list_access, new_access_log, now_millis, remove_access, AccessLog,
};
use crate::text::{chars_of, string_from_chars};
use vstd::prelude::*;

verus! {

/// Whether an entry last used at `t` is past its time to live at `now`
/// (an entry from the future is not).
pub open spec fn is_stale(now: u64, t: u64, ttl: u64) -> bool {
    now >= t && now - t > ttl
}

/// Whether an entry last used at `t` counts towards the space in use: it is
/// not from the future and not stale.
pub open spec fn is_live(now: u64, t: u64, ttl: u64) -> bool {
    now >= t && now - t <= ttl
}

/// The keys of the stale entries, in order.
pub open spec fn stale_keys(e: Seq<(Seq<char>, u64)>, now: u64, ttl: u64) -> Seq<Seq<char>>
    decreases e.len(),
{
    if e.len() == 0 {
        Seq::empty()
    } else {
        let prev = stale_keys(e.drop_last(), now, ttl);
        if is_stale(now, e.last().1, ttl) {
            prev.push(e.last().0)
        } else {
            prev
        }
    }
}

/// The space the live entries take, counting those whose size is known.
pub open spec fn live_total(e: Seq<(Seq<char>, u64)>, sizes: Seq<Option<u64>>, now: u64, ttl: u64) -> nat
    decreases e.len(),
{
    if e.len() == 0 {
        0
    } else {
        let i = e.len() - 1;
        let prev = live_total(e.drop_last(), sizes, now, ttl);
        if is_live(now, e[i].1, ttl) && sizes[i] is Some {
            prev + (sizes[i]->Some_0) as nat
        } else {
            prev
        }
    }
}

/// `order` lists every index of `times` once, oldest first, and equal times
/// in index order.
pub open spec fn is_oldest_first(times: Seq<u64>, order: Seq<int>) -> bool {
    &&& order.len() == times.len()
    &&& forall|k: int| 0 <= k < order.len() ==> 0 <= #[trigger] order[k] < times.len()
    &&& order.no_duplicates()
    &&& forall|k: int|
        0 <= k < order.len() - 1 ==> times[#[trigger] order[k]] < times[order[k + 1]] || (times[order[k]]
            == times[order[k + 1]] && order[k] < order[k + 1])
}

/// Walking `order` while `current` exceeds `max`: each entry whose size is
/// known is dropped and its size taken off. `None` when a size exceeds what
/// is left (the count would go below zero).
pub open spec fn lru_walk(
    keys: Seq<Seq<char>>,
    sizes: Seq<Option<u64>>,
    order: Seq<int>,
    current: int,
    max: int,
) -> Option<Seq<Seq<char>>>
    decreases order.len(),
{
    if order.len() == 0 || current <= max {
        Some(Seq::empty())
    } else {
        match sizes[order[0]] {
            None => lru_walk(keys, sizes, order.drop_first(), current, max),
            Some(s) => if s > current {
                None
            } else {
                match lru_walk(keys, sizes, order.drop_first(), current - s, max) {
                    Some(v) => Some(seq![keys[order[0]]] + v),
                    None => None,
                }
            },
        }
    }
}

pub open spec fn idx_view(v: Seq<usize>) -> Seq<int> {
    v.map_values(|i: usize| i as int)
}

pub open spec fn times_of(e: Seq<(Seq<char>, u64)>) -> Seq<u64> {
    e.map_values(|p: (Seq<char>, u64)| p.1)
}

pub open spec fn keys_of(e: Seq<(Seq<char>, u64)>) -> Seq<Seq<char>> {
    e.map_values(|p: (Seq<char>, u64)| p.0)
}

pub open spec fn entries_view(v: Seq<(String, u64)>) -> Seq<(Seq<char>, u64)> {
    v.map_values(|p: (String, u64)| (p.0@, p.1))
}

pub open spec fn strs_view(v: Seq<String>) -> Seq<Seq<char>> {
    v.map_values(|s: String| s@)
}

/// What to drop, taking the entries in `order`: the stale ones, then, when
/// the live ones take more than `max`, those the walk drops. `None` when the
/// space in use does not fit in 64 bits or the walk would count below zero.
pub open spec fn cleanup_spec(
    e: Seq<(Seq<char>, u64)>,
    sizes: Seq<Option<u64>>,
    order: Seq<int>,
    now: u64,
    ttl: u64,
    max: u64,
) -> Option<Seq<Seq<char>>> {
    let total = live_total(e, sizes, now, ttl);
    if total > u64::MAX {
        None
    } else if total > max {
        match lru_walk(keys_of(e), sizes, order, total as int, max as int) {
            Some(v) => Some(stale_keys(e, now, ttl) + v),
            None => None,
        }
    } else {
        Some(stale_keys(e, now, ttl))
    }
}

/// The indices below `i`, sorted oldest first.
pub open spec fn sorted_below(times: Seq<u64>, r: Seq<usize>, i: int) -> bool {
    &&& forall|k: int| 0 <= k < r.len() ==> (#[trigger] r[k]) < i
    &&& r.no_duplicates()
    &&& forall|k: int|
        0 <= k < r.len() - 1 ==> times[#[trigger] r[k] as int] < times[r[k + 1] as int] || (times[r[k] as int]
            == times[r[k + 1] as int] && r[k] < r[k + 1])
}

/// Putting index `i` after the entries no newer than it keeps the order.
proof fn lemma_insert_oldest(times: Seq<u64>, r0: Seq<usize>, p: int, i: usize)
    requires
        0 <= i < times.len(),
        0 <= p <= r0.len(),
        sorted_below(times, r0, i as int),
        forall|k: int| 0 <= k < p ==> times[#[trigger] r0[k] as int] <= times[i as int],
        p < r0.len() ==> times[r0[p] as int] > times[i as int],
    ensures
        sorted_below(times, r0.insert(p, i), i + 1),
{
    let r = r0.insert(p, i);
    assert forall|k: int| 0 <= k < r.len() implies (#[trigger] r[k]) < i + 1 by {
        if k < p {
            assert(r[k] == r0[k]);
        } else if k > p {
            assert(r[k] == r0[k - 1]);
        }
    }
    assert forall|a: int, b: int| 0 <= a < b < r.len() implies r[a] != r[b] by {
        if a != p && b != p {
            let a0 = if a < p { a } else { a - 1 };
            let b0 = if b < p { b } else { b - 1 };
            assert(r[a] == r0[a0]);
            assert(r[b] == r0[b0]);
        } else if a == p {
            assert(r[b] == r0[b - 1]);
        } else {
            assert(r[a] == r0[a]);
        }
    }
    assert forall|k: int|
        0 <= k < r.len() - 1 implies times[#[trigger] r[k] as int] < times[r[k + 1] as int] || (
    times[r[k] as int] == times[r[k + 1] as int] && r[k] < r[k + 1]) by {
        if k + 1 < p {
            assert(r[k] == r0[k] && r[k + 1] == r0[k + 1]);
        } else if k + 1 == p {
            assert(r[k] == r0[k]);
        } else if k == p {
            assert(r[k + 1] == r0[p]);
        } else {
            assert(r[k] == r0[k - 1] && r[k + 1] == r0[k]);
        }
    }
}

/// The indices of `times`, oldest first (equal times in index order).
pub fn oldest_first(times: &Vec<u64>) -> (r: Vec<usize>)
    ensures
        is_oldest_first(times@, idx_view(r@)),
{
    let mut r: Vec<usize> = Vec::new();
    let mut i: usize = 0;
    while i < times.len()
        invariant
            0 <= i <= times@.len(),
            r@.len() == i,
            sorted_below(times@, r@, i as int),
        decreases times@.len() - i,
    {
        let t = times[i];
        let mut p: usize = 0;
        while p < r.len() && times[r[p]] <= t
            invariant
                0 <= p <= r@.len(),
                r@.len() == i,
                i < times@.len(),
                t == times@[i as int],
                sorted_below(times@, r@, i as int),
                forall|k: int| 0 <= k < p ==> times@[#[trigger] r@[k] as int] <= t,
            decreases r@.len() - p,
        {
            p += 1;
        }
        let ghost r0 = r@;
        r.insert(p, i);
        proof {
            lemma_insert_oldest(times@, r0, p as int, i);
        }
        i += 1;
    }
    proof {
        let m = idx_view(r@);
        assert forall|a: int, b: int| 0 <= a < b < m.len() implies m[a] != m[b] by {
            assert(r@[a] != r@[b]);
        }
        assert forall|k: int|
            0 <= k < m.len() - 1 implies times@[#[trigger] m[k]] < times@[m[k + 1]] || (times@[m[k]] == times@[m[k
            + 1]] && m[k] < m[k + 1]) by {
            assert(m[k] == r@[k] as int);
            assert(m[k + 1] == r@[k + 1] as int);
        }
    }
    r
}

/// The stale keys and the space the live entries take; `None` when that
/// space does not fit in 64 bits.
pub fn stale_and_total(entries: &Vec<(String, u64)>, sizes: &Vec<Option<u64>>, now: u64, ttl: u64) -> (r:
    Option<(Vec<String>, u64)>)
    requires
        sizes@.len() == entries@.len(),
    ensures
        match r {
            Some((keys, total)) => strs_view(keys@) == stale_keys(entries_view(entries@), now, ttl) && total
                == live_total(entries_view(entries@), sizes@, now, ttl),
            None => live_total(entries_view(entries@), sizes@, now, ttl) > u64::MAX,
        },
{
    let ghost e = entries_view(entries@);
    let mut keys: Vec<String> = Vec::new();
    let mut total: u64 = 0;
    let mut i: usize = 0;
    while i < entries.len()
        invariant
            0 <= i <= entries@.len(),
            sizes@.len() == entries@.len(),
            e == entries_view(entries@),
            strs_view(keys@) == stale_keys(e.take(i as int), now, ttl),
            total == live_total(e.take(i as int), sizes@, now, ttl),
        decreases entries@.len() - i,
    {
        let ghost k0 = strs_view(keys@);
        assert(e.take(i + 1).drop_last() =~= e.take(i as int));
        assert(e.take(i + 1).last() == e[i as int]);
        let t = entries[i].1;
        if now >= t && now - t > ttl {
            keys.push(entries[i].0.clone());
            assert(strs_view(keys@) =~= k0.push(e[i as int].0));
        }
        if now >= t && now - t <= ttl {
            match sizes[i] {
                Some(sz) => {
                    if sz > u64::MAX - total {
                        proof {
                            lemma_live_total_grows(e, sizes@, now, ttl, i as int + 1);
                        }
                        return None;
                    }
                    total = total + sz;
                },
                None => {},
            }
        }
        i += 1;
    }
    assert(e.take(i as int) =~= e);
    Some((keys, total))
}

/// The space in use only grows as entries are added.
proof fn lemma_live_total_grows(e: Seq<(Seq<char>, u64)>, sizes: Seq<Option<u64>>, now: u64, ttl: u64, k: int)
    requires
        0 <= k <= e.len(),
    ensures
        live_total(e.take(k), sizes, now, ttl) <= live_total(e, sizes, now, ttl),
    decreases e.len() - k,
{
    if k < e.len() {
        lemma_live_total_grows(e, sizes, now, ttl, k + 1);
        assert(e.take(k + 1).drop_last() =~= e.take(k));
    } else {
        assert(e.take(k) =~= e);
    }
}

/// The keys the walk over `order` drops (see `lru_walk`); `None` when it
/// would count below zero.
pub fn lru_victims(
    entries: &Vec<(String, u64)>,
    sizes: &Vec<Option<u64>>,
    order: &Vec<usize>,
    total: u64,
    max: u64,
) -> (r: Option<Vec<String>>)
    requires
        sizes@.len() == entries@.len(),
        forall|k: int| 0 <= k < order@.len() ==> (#[trigger] order@[k]) < entries@.len(),
    ensures
        match r {
            Some(v) => lru_walk(
                keys_of(entries_view(entries@)),
                sizes@,
                idx_view(order@),
                total as int,
                max as int,
            ) == Some(strs_view(v@)),
            None => lru_walk(
                keys_of(entries_view(entries@)),
                sizes@,
                idx_view(order@),
                total as int,
                max as int,
            ) is None,
        },
{
    let ghost keys = keys_of(entries_view(entries@));
    let ghost ord = idx_view(order@);
    let mut out: Vec<String> = Vec::new();
    let mut current: u64 = total;
    let mut k: usize = 0;
    assert(ord.skip(0) =~= ord);
    assert(strs_view(out@) =~= Seq::<Seq<char>>::empty());
    proof {
        let w = lru_walk(keys, sizes@, ord, total as int, max as int);
        if w is Some {
            assert(Seq::<Seq<char>>::empty() + w->Some_0 =~= w->Some_0);
        }
    }
    while k < order.len() && current > max
        invariant
            0 <= k <= order@.len(),
            sizes@.len() == entries@.len(),
            keys == keys_of(entries_view(entries@)),
            ord == idx_view(order@),
            forall|j: int| 0 <= j < order@.len() ==> (#[trigger] order@[j]) < entries@.len(),
            lru_walk(keys, sizes@, ord, total as int, max as int) == match lru_walk(
                keys,
                sizes@,
                ord.skip(k as int),
                current as int,
                max as int,
            ) {
                Some(rest) => Some(strs_view(out@) + rest),
                None => None::<Seq<Seq<char>>>,
            },
        decreases order@.len() - k,
    {
        let ghost rest = ord.skip(k as int);
        assert(rest.drop_first() =~= ord.skip(k + 1));
        assert(rest[0] == order@[k as int] as int);
        let idx = order[k];
        match sizes[idx] {
            None => {},
            Some(sz) => {
                if sz > current {
                    return None;
                }
                current = current - sz;
                let ghost o0 = strs_view(out@);
                let key = entries[idx].0.clone();
                assert(key@ == keys[idx as int]);
                out.push(key);
                assert(strs_view(out@) =~= o0.push(keys[idx as int]));
                proof {
                    let later = lru_walk(keys, sizes@, ord.skip(k + 1), current as int, max as int);
                    if later is Some {
                        assert(o0 + (seq![keys[idx as int]] + later->Some_0) =~= strs_view(out@) + later->Some_0);
                    }
                }
            },
        }
        k += 1;
    }
    proof {
        let rest = ord.skip(k as int);
        if k == order@.len() {
            assert(rest.len() == 0);
        }
        assert(lru_walk(keys, sizes@, rest, current as int, max as int) == Some(Seq::<Seq<char>>::empty()));
        assert(strs_view(out@) + Seq::<Seq<char>>::empty() =~= strs_view(out@));
    }
    Some(out)
}

/// Appends copies of `b` to `a`.
pub fn append_strings(a: &mut Vec<String>, b: &Vec<String>)
    ensures
        strs_view(final(a)@) == strs_view(old(a)@) + strs_view(b@),
{
    let ghost s0 = strs_view(a@);
    let mut j: usize = 0;
    while j < b.len()
        invariant
            0 <= j <= b@.len(),
            strs_view(a@) == s0 + strs_view(b@).take(j as int),
        decreases b@.len() - j,
    {
        let x = b[j].clone();
        assert(x@ == strs_view(b@)[j as int]);
        let ghost a0 = strs_view(a@);
        a.push(x);
        assert(strs_view(a@) =~= a0.push(x@));
        assert(strs_view(b@).take(j + 1) =~= strs_view(b@).take(j as int).push(x@));
        assert(strs_view(a@) =~= s0 + strs_view(b@).take(j + 1));
        j += 1;
    }
    assert(strs_view(b@).take(j as int) =~= strs_view(b@));
}

/// What to drop from `entries` (keys with their last use), given what each
/// file's size was found to be (`None` where it could not be read): the
/// stale ones, then, while the live ones take more than `max`, the least
/// recently used (see `cleanup_spec`). `None` where the count of space
/// would overflow or go below zero.
pub fn plan_cleanup(entries: &Vec<(String, u64)>, sizes: &Vec<Option<u64>>, now: u64, ttl: u64, max: u64) -> (r:
    Option<Vec<String>>)
    requires
        sizes@.len() == entries@.len(),
    ensures
        exists|order: Seq<int>|
            #![trigger is_oldest_first(times_of(entries_view(entries@)), order)]
            is_oldest_first(times_of(entries_view(entries@)), order) && match r {
                Some(v) => cleanup_spec(entries_view(entries@), sizes@, order, now, ttl, max) == Some(
                    strs_view(v@),
                ),
                None => cleanup_spec(entries_view(entries@), sizes@, order, now, ttl, max) is None,
            },
{
    let mut times: Vec<u64> = Vec::new();
    let mut i: usize = 0;
    while i < entries.len()
        invariant
            0 <= i <= entries@.len(),
            times@ == times_of(entries_view(entries@)).take(i as int),
        decreases entries@.len() - i,
    {
        times.push(entries[i].1);
        assert(times@ =~= times_of(entries_view(entries@)).take(i + 1));
        i += 1;
    }
    assert(times@ =~= times_of(entries_view(entries@)));
    let order = oldest_first(&times);
    plan_with_order(entries, sizes, &order, now, ttl, max)
}

/// `plan_cleanup` with the oldest-first order worked out.
fn plan_with_order(
    entries: &Vec<(String, u64)>,
    sizes: &Vec<Option<u64>>,
    order: &Vec<usize>,
    now: u64,
    ttl: u64,
    max: u64,
) -> (r: Option<Vec<String>>)
    requires
        sizes@.len() == entries@.len(),
        is_oldest_first(times_of(entries_view(entries@)), idx_view(order@)),
    ensures
        exists|order: Seq<int>|
            #![trigger is_oldest_first(times_of(entries_view(entries@)), order)]
            is_oldest_first(times_of(entries_view(entries@)), order) && match r {
                Some(v) => cleanup_spec(entries_view(entries@), sizes@, order, now, ttl, max) == Some(
                    strs_view(v@),
                ),
                None => cleanup_spec(entries_view(entries@), sizes@, order, now, ttl, max) is None,
            },
{
    let ghost ord = idx_view(order@);
    assert(is_oldest_first(times_of(entries_view(entries@)), ord));
    assert forall|k: int| 0 <= k < order@.len() implies (#[trigger] order@[k]) < entries@.len() by {
        assert(ord[k] == order@[k] as int);
    }
    let r = match stale_and_total(entries, sizes, now, ttl) {
        None => None,
        Some((stale, total)) => {
            if total > max {
                match lru_victims(entries, sizes, order, total, max) {
                    None => None,
                    Some(v) => {
                        let mut all = stale;
                        append_strings(&mut all, &v);
                        Some(all)
                    },
                }
            } else {
                Some(stale)
            }
        },
    };
    assert(is_oldest_first(times_of(entries_view(entries@)), ord));
    r
}

/// Remembers when each cached file was last used, and works out what to
/// drop (times in milliseconds).
pub struct CacheCleaner {
    cache_ttl: u64,
    max_size: u64,
    access_times: AccessLog,
}

impl CacheCleaner {
    pub closed spec fn accesses(&self) -> Map<Seq<char>, u64> {
        access_log(self.access_times)
    }

    pub closed spec fn ttl_spec(&self) -> u64 {
        self.cache_ttl
    }

    pub closed spec fn max_size_spec(&self) -> u64 {
        self.max_size
    }

    /// A cleaner that has seen no use yet.
    pub fn new(cache_ttl: u64, max_size: u64) -> (r: Self)
        ensures
            r.accesses() == Map::<Seq<char>, u64>::empty(),
            r.ttl_spec() == cache_ttl,
            r.max_size_spec() == max_size,
    {
        CacheCleaner { cache_ttl, max_size, access_times: new_access_log() }
    }

    /// Notes that `key` was used at `now`.
    pub fn record_access_at(&mut self, key: &str, now: u64)
        ensures
            final(self).accesses() == old(self).accesses().insert(key@, now),
            final(self).ttl_spec() == old(self).ttl_spec(),
            final(self).max_size_spec() == old(self).max_size_spec(),
    {
        let k = string_from_chars(&chars_of(key));
        insert_access(&mut self.access_times, k, now);
    }

    /// Notes that `key` was used now (by the system clock).
    pub fn record_access(&mut self, key: &str)
        ensures
            exists|t: u64| final(self).accesses() == old(self).accesses().insert(key@, t),
            final(self).ttl_spec() == old(self).ttl_spec(),
            final(self).max_size_spec() == old(self).max_size_spec(),
    {
        let now = now_millis();
        self.record_access_at(key, now);
    }

    /// Every key with its last use, in no stated order.
    pub fn entries(&self) -> (r: Vec<(String, u64)>)
        ensures
            r@.len() == self.accesses().dom().len(),
            forall|i: int|
                0 <= i < r@.len() ==> self.accesses().contains_key((#[trigger] r@[i]).0@)
                    && self.accesses()[r@[i].0@] == r@[i].1,
            forall|i: int, j: int| 0 <= i < j < r@.len() ==> (#[trigger] r@[i]).0@ != (#[trigger] r@[j]).0@,
            forall|k: Seq<char>|
                #[trigger] self.accesses().contains_key(k) ==> exists|i: int|
                    0 <= i < r@.len() && (#[trigger] r@[i]).0@ == k,
    {
        list_access(&self.access_times)
    }

    /// What to drop at `now`, given the entries and the size found for each
    /// (see `plan_cleanup`).
    pub fn plan(&self, entries: &Vec<(String, u64)>, sizes: &Vec<Option<u64>>, now: u64) -> (r: Option<
        Vec<String>,
    >)
        requires
            sizes@.len() == entries@.len(),
        ensures
            exists|order: Seq<int>|
                #![trigger is_oldest_first(times_of(entries_view(entries@)), order)]
                is_oldest_first(times_of(entries_view(entries@)), order) && match r {
                    Some(v) => cleanup_spec(
                        entries_view(entries@),
                        sizes@,
                        order,
                        now,
                        self.ttl_spec(),
                        self.max_size_spec(),
                    ) == Some(strs_view(v@)),
                    None => cleanup_spec(
                        entries_view(entries@),
                        sizes@,
                        order,
                        now,
                        self.ttl_spec(),
                        self.max_size_spec(),
                    ) is None,
                },
    {
        plan_cleanup(entries, sizes, now, self.cache_ttl, self.max_size)
    }

    /// Forgets `key` (its file is being dropped).
    pub fn forget(&mut self, key: &str)
        ensures
            final(self).accesses() == old(self).accesses().remove(key@),
            final(self).ttl_spec() == old(self).ttl_spec(),
            final(self).max_size_spec() == old(self).max_size_spec(),
    {
        remove_access(&mut self.access_times, key);
    }
}

/// The stale keys are keys of entries.
pub proof fn lemma_stale_known(e: Seq<(Seq<char>, u64)>, now: u64, ttl: u64)
    ensures
        forall|x: Seq<char>| stale_keys(e, now, ttl).contains(x) ==> #[trigger] keys_of(e).contains(x),
    decreases e.len(),
{
    if e.len() > 0 {
        lemma_stale_known(e.drop_last(), now, ttl);
        assert(keys_of(e).drop_last() =~= keys_of(e.drop_last()));
        assert forall|x: Seq<char>| stale_keys(e, now, ttl).contains(x) implies #[trigger] keys_of(e).contains(x) by {
            let prev = stale_keys(e.drop_last(), now, ttl);
            if prev.contains(x) {
                assert(keys_of(e.drop_last()).contains(x));
                let j = choose|j: int| 0 <= j < keys_of(e.drop_last()).len() && keys_of(e.drop_last())[j] == x;
                assert(keys_of(e)[j] == keys_of(e.drop_last())[j]);
                assert(keys_of(e)[j] == x);
            } else {
                assert(x == e.last().0);
                assert(keys_of(e)[e.len() - 1] == x);
            }
        }
    }
}

/// The keys a walk drops are keys of entries.
pub proof fn lemma_walk_known(keys: Seq<Seq<char>>, sizes: Seq<Option<u64>>, order: Seq<int>, current: int, max: int)
    requires
        forall|k: int| 0 <= k < order.len() ==> 0 <= #[trigger] order[k] < keys.len(),
    ensures
        lru_walk(keys, sizes, order, current, max) matches Some(v) ==> forall|x: Seq<char>|
            v.contains(x) ==> #[trigger] keys.contains(x),
    decreases order.len(),
{
    if order.len() > 0 && current > max {
        assert forall|k: int| 0 <= k < order.drop_first().len() implies 0 <= #[trigger] order.drop_first()[k] < keys.len() by {
            assert(order.drop_first()[k] == order[k + 1]);
        }
        match sizes[order[0]] {
            None => {
                lemma_walk_known(keys, sizes, order.drop_first(), current, max);
            },
            Some(sz) => {
                lemma_walk_known(keys, sizes, order.drop_first(), current - sz, max);
                if let Some(v) = lru_walk(keys, sizes, order, current, max) {
                    let rest = lru_walk(keys, sizes, order.drop_first(), current - sz, max)->Some_0;
                    assert forall|x: Seq<char>| v.contains(x) implies #[trigger] keys.contains(x) by {
                        let j = choose|j: int| 0 <= j < v.len() && v[j] == x;
                        if j == 0 {
                            assert(keys[order[0]] == x);
                        } else {
                            assert(v[j] == rest[j - 1]);
                            assert(rest.contains(x));
                        }
                    }
                }
            },
        }
    }
}

/// Cleaning drops only what is there: every key a plan names is the key of
/// an entry.
pub proof fn lemma_cleanup_known(
    e: Seq<(Seq<char>, u64)>,
    sizes: Seq<Option<u64>>,
    order: Seq<int>,
    now: u64,
    ttl: u64,
    max: u64,
)
    requires
        is_oldest_first(times_of(e), order),
    ensures
        cleanup_spec(e, sizes, order, now, ttl, max) matches Some(v) ==> forall|x: Seq<char>|
            v.contains(x) ==> #[trigger] keys_of(e).contains(x),
{
    lemma_stale_known(e, now, ttl);
    assert forall|k: int| 0 <= k < order.len() implies 0 <= #[trigger] order[k] < keys_of(e).len() by {}
    let total = live_total(e, sizes, now, ttl);
    lemma_walk_known(keys_of(e), sizes, order, total as int, max as int);
    if let Some(v) = cleanup_spec(e, sizes, order, now, ttl, max) {
        let st = stale_keys(e, now, ttl);
        assert forall|x: Seq<char>| v.contains(x) implies #[trigger] keys_of(e).contains(x) by {
            let j = choose|j: int| 0 <= j < v.len() && v[j] == x;
            if total > max {
                let w = lru_walk(keys_of(e), sizes, order, total as int, max as int)->Some_0;
                if j < st.len() {
                    assert(v[j] == st[j]);
                    assert(st.contains(x));
                } else {
                    assert(v[j] == w[j - st.len()]);
                    assert(w.contains(x));
                }
            } else {
                assert(st.contains(x));
            }
        }
    }
}

} // verus!
