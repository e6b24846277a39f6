//! The one-second accounting windows by which transfers are throttled.
use vstd::prelude::*;

verus! {

/// The bytes let through in the current one-second window, which began at
/// `start` (milliseconds).
#[derive(Debug, Clone, Copy)]
pub struct BandwidthWindow {
    start: u64,
    used: u64,
}

/// What a window becomes when `bytes` pass at `now`: a window a second or
/// more old starts afresh at `now`.
pub open spec fn window_after(start: u64, used: u64, now: u64, bytes: u64) -> (u64, int) {
    if now >= start && now - start >= 1000 {
        (now, bytes as int)
    } else {
        (start, used + bytes)
    }
}

impl BandwidthWindow {
    pub closed spec fn start_spec(&self) -> u64 {
        self.start
    }

    pub closed spec fn used_spec(&self) -> u64 {
        self.used
    }

    /// A window opened at `now` with nothing through yet.
    pub fn new(now: u64) -> (r: Self)
        ensures
            r.start_spec() == now,
            r.used_spec() == 0,
    {
        BandwidthWindow { start: now, used: 0 }
    }

    /// When the window began.
    pub fn start(&self) -> (r: u64)
        ensures
            r == self.start_spec(),
    {
        self.start
    }

    /// The bytes let through in the window so far.
    pub fn used(&self) -> (r: u64)
        ensures
            r == self.used_spec(),
    {
        self.used
    }

    /// Counts `bytes` passing at `now` (see `window_after`); the result says
    /// whether the window is now over `limit` bytes, and so the transfer must
    /// wait.
    pub fn record(&mut self, now: u64, bytes: u64, limit: u64) -> (over: bool)
        requires
            window_after(old(self).start_spec(), old(self).used_spec(), now, bytes).1 <= u64::MAX,
        ensures
            (final(self).start_spec() as int, final(self).used_spec() as int) == ({
                let w = window_after(old(self).start_spec(), old(self).used_spec(), now, bytes);
                (w.0 as int, w.1)
            }),
            over == (final(self).used_spec() > limit),
    {
        if now >= self.start && now - self.start >= 1000 {
            self.start = now;
            self.used = 0;
        }
        self.used = self.used + bytes;
        self.used > limit
    }
}

/// When a token bucket was last refilled (milliseconds).
#[derive(Debug, Clone, Copy)]
pub struct RefillClock {
    last_refill: u64,
}

impl RefillClock {
    pub closed spec fn last_spec(&self) -> u64 {
        self.last_refill
    }

    pub fn new(now: u64) -> (r: Self)
        ensures
            r.last_spec() == now,
    {
        RefillClock { last_refill: now }
    }

    /// Whether the bucket is due a refill at `now` (a second or more since
    /// the last); if so, `now` becomes the last refill.
    pub fn refill_due(&mut self, now: u64) -> (due: bool)
        ensures
            due == (now >= old(self).last_spec() && now - old(self).last_spec() >= 1000),
            final(self).last_spec() == if due {
                now
            } else {
                old(self).last_spec()
            },
    {
        if now >= self.last_refill && now - self.last_refill >= 1000 {
            self.last_refill = now;
            true
        } else {
            false
        }
    }
}

/// The sizes in which `bytes` are taken from a bucket of `per_second`
/// tokens: `per_second` at a time, the rest last.
pub open spec fn token_chunks(bytes: nat, per_second: nat) -> Seq<nat>
    decreases bytes,
{
    if bytes == 0 || per_second == 0 {
        Seq::empty()
    } else if bytes <= per_second {
        seq![bytes]
    } else {
        seq![per_second] + token_chunks((bytes - per_second) as nat, per_second)
    }
}

/// The sizes in which `bytes` are taken from a bucket that holds
/// `per_second` tokens. (With `per_second` 0 and some bytes to take, the
/// bucket never yields them; callers do not ask that.)
pub fn chunk_sizes(bytes: usize, per_second: usize) -> (r: Vec<usize>)
    requires
        bytes > 0 ==> per_second > 0,
    ensures
        r@.map_values(|x: usize| x as nat) == token_chunks(bytes as nat, per_second as nat),
{
    let mut out: Vec<usize> = Vec::new();
    let mut remaining: usize = bytes;
    assert(out@.map_values(|x: usize| x as nat) + token_chunks(bytes as nat, per_second as nat) =~= token_chunks(
        bytes as nat,
        per_second as nat,
    ));
    while remaining > 0
        invariant
            remaining > 0 ==> per_second > 0,
            out@.map_values(|x: usize| x as nat) + token_chunks(remaining as nat, per_second as nat)
                == token_chunks(bytes as nat, per_second as nat),
        decreases remaining,
    {
        let take = if remaining < per_second {
            remaining
        } else {
            per_second
        };
        let ghost o0 = out@.map_values(|x: usize| x as nat);
        out.push(take);
        assert(out@.map_values(|x: usize| x as nat) =~= o0.push(take as nat));
        let ghost rest = token_chunks((remaining - take) as nat, per_second as nat);
        assert(o0.push(take as nat) + rest =~= o0 + (seq![take as nat] + rest));
        remaining = remaining - take;
    }
    assert(out@.map_values(|x: usize| x as nat) + Seq::<nat>::empty() =~= out@.map_values(|x: usize| x as nat));
    out
}

} // verus!
