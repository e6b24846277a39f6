//! When to try a failed operation again, and how long to wait first.
use vstd::arithmetic::power2::{lemma2_to64, lemma_pow2_unfold, pow2};
use vstd::prelude::*;

verus! {

/// Counts the failed attempts of an operation that is tried again after a
/// fixed pause: it gives up once `limit` attempts have failed (and so after
/// the first failure when `limit` is 0 or 1).
#[derive(Debug, Clone, Copy)]
pub struct Attempts {
    attempts: u32,
    limit: u32,
}

impl Attempts {
    pub closed spec fn attempts_spec(&self) -> u32 {
        self.attempts
    }

    pub closed spec fn limit_spec(&self) -> u32 {
        self.limit
    }

    /// Attempts that go on never reach the limit.
    pub open spec fn wf(&self) -> bool {
        self.attempts_spec() == 0 || self.attempts_spec() < self.limit_spec()
    }

    /// No attempt has failed yet.
    pub fn new(limit: u32) -> (r: Self)
        ensures
            r.wf(),
            r.attempts_spec() == 0,
            r.limit_spec() == limit,
    {
        Attempts { attempts: 0, limit }
    }

    /// How many attempts have failed.
    pub fn attempts(&self) -> (r: u32)
        ensures
            r == self.attempts_spec(),
    {
        self.attempts
    }

    /// Notes a failed attempt; the result says whether to give up.
    pub fn on_failure(&mut self) -> (give_up: bool)
        requires
            old(self).wf(),
        ensures
            final(self).attempts_spec() == old(self).attempts_spec() + 1,
            final(self).limit_spec() == old(self).limit_spec(),
            give_up == (old(self).attempts_spec() + 1 >= old(self).limit_spec()),
            !give_up ==> final(self).wf(),
    {
        self.attempts = self.attempts + 1;
        self.attempts >= self.limit
    }
}

/// The pause before retry number `k + 1`, in milliseconds: 100, doubled
/// after each retry.
pub open spec fn backoff_ms(k: nat) -> nat
    decreases k,
{
    if k == 0 {
        100
    } else {
        2 * backoff_ms((k - 1) as nat)
    }
}

/// What to do after a failure.
#[derive(Debug, Clone, Copy, PartialEq, Eq)]
pub enum RetryStep {
    /// Stop and report the failure.
    GiveUp,
    /// Wait this long, then try again.
    Wait { secs: u64, millis: u32 },
}

/// Exponential back-off: up to `max_retries` retries, the first after 100
/// milliseconds, each later one after twice the pause before.
#[derive(Debug, Clone, Copy)]
pub struct Backoff {
    retries: u32,
    max_retries: u32,
    delay_ms: u128,
}

impl Backoff {
    pub closed spec fn retries_spec(&self) -> u32 {
        self.retries
    }

    pub closed spec fn max_retries_spec(&self) -> u32 {
        self.max_retries
    }

    pub closed spec fn wf(&self) -> bool {
        &&& self.retries <= 67
        &&& self.delay_ms == backoff_ms(self.retries as nat)
    }

    /// No retry yet.
    pub fn new(max_retries: u32) -> (r: Self)
        ensures
            r.wf(),
            r.retries_spec() == 0,
            r.max_retries_spec() == max_retries,
    {
        Backoff { retries: 0, max_retries, delay_ms: 100 }
    }

    /// Notes a failure. With retries left, it counts one more and says to
    /// wait `backoff_ms` of the retries so far; else it says to give up. (The
    /// pause is kept as a `Duration`, which cannot hold the pause after 67
    /// retries: the caller allows no more.)
    pub fn on_failure(&mut self) -> (r: RetryStep)
        requires
            old(self).wf(),
            old(self).retries_spec() < old(self).max_retries_spec() ==> old(self).retries_spec() < 67,
        ensures
            final(self).max_retries_spec() == old(self).max_retries_spec(),
            old(self).retries_spec() >= old(self).max_retries_spec() ==> r == RetryStep::GiveUp
                && final(self).retries_spec() == old(self).retries_spec(),
            old(self).retries_spec() < old(self).max_retries_spec() ==> (final(self).retries_spec()
                == old(self).retries_spec() + 1 && (r matches RetryStep::Wait { secs, millis } && secs
                * 1000 + millis == backoff_ms(old(self).retries_spec() as nat) && millis < 1000)),
            final(self).wf(),
    {
        if self.retries >= self.max_retries {
            return RetryStep::GiveUp;
        }
        let d = self.delay_ms;
        proof {
            lemma_backoff_bound(self.retries as nat);
        }
        let secs: u64 = (d / 1000) as u64;
        let millis: u32 = (d % 1000) as u32;
        self.retries = self.retries + 1;
        self.delay_ms = d * 2;
        RetryStep::Wait { secs, millis }
    }
}

/// The pauses stay small enough: after at most 67 retries the pause, even
/// doubled, fits in 128 bits, and its whole seconds fit in 64.
pub proof fn lemma_backoff_bound(k: nat)
    requires
        k <= 67,
    ensures
        backoff_ms(k) <= 14757395258967641292800,
        backoff_ms(k) * 2 <= u128::MAX,
        backoff_ms(k) / 1000 <= u64::MAX,
    decreases 67 - k,
{
    if k < 67 {
        lemma_backoff_bound(k + 1);
        assert(backoff_ms(k + 1) == 2 * backoff_ms(k));
    } else {
        lemma_backoff_pow2(67);
        lemma2_to64();
        lemma_pow2_unfold(65);
        lemma_pow2_unfold(66);
        lemma_pow2_unfold(67);
    }
}

/// The pause before retry `k + 1` is 100 times 2 to the power `k`.
pub proof fn lemma_backoff_pow2(k: nat)
    ensures
        backoff_ms(k) == 100 * pow2(k),
    decreases k,
{
    if k == 0 {
        lemma2_to64();
    } else {
        lemma_backoff_pow2((k - 1) as nat);
        lemma_pow2_unfold(k);
    }
}

} // verus!
