//! Bandwidth estimation over a window of samples, and the choice of a variant
//! stream that the bandwidth can carry.
use crate::plugins::hls::types::{Variant, VariantView};
use vstd::prelude::*;

verus! {

/// Bandwidth figures in bits per second.
#[derive(Debug, Clone, Copy)]
pub struct Bandwidth {
    pub current: u64,
    pub min: u64,
    pub max: u64,
    pub average: u64,
}

pub open spec fn seq_sum(s: Seq<u64>) -> nat
    decreases s.len(),
{
    if s.len() == 0 {
        0
    } else {
        seq_sum(s.drop_last()) + s.last() as nat
    }
}

pub open spec fn seq_min(s: Seq<u64>) -> u64
    recommends
        s.len() > 0,
    decreases s.len(),
{
    if s.len() <= 1 {
        s[0]
    } else {
        let m = seq_min(s.drop_last());
        if s.last() < m {
            s.last()
        } else {
            m
        }
    }
}

pub open spec fn seq_max(s: Seq<u64>) -> u64
    recommends
        s.len() > 0,
    decreases s.len(),
{
    if s.len() <= 1 {
        s[0]
    } else {
        let m = seq_max(s.drop_last());
        if s.last() > m {
            s.last()
        } else {
            m
        }
    }
}

/// The samples after one more: the oldest is dropped once there are more
/// than `window`.
pub open spec fn next_window(samples: Seq<u64>, bps: u64, window: nat) -> Seq<u64> {
    let s = samples.push(bps);
    if s.len() > window {
        s.skip(1)
    } else {
        s
    }
}

/// The bits per second of `bytes` bytes moved in `duration_ms` milliseconds.
pub open spec fn bps_spec(bytes: u64, duration_ms: u64) -> nat {
    (bytes * 8 * 1000) as nat / duration_ms as nat
}

/// Index of the last variant whose bandwidth is at most `limit`, or -1.
pub open spec fn last_fitting(vs: Seq<VariantView>, limit: nat) -> int
    decreases vs.len(),
{
    if vs.len() == 0 {
        -1
    } else if vs.last().bandwidth <= limit {
        vs.len() - 1
    } else {
        last_fitting(vs.drop_last(), limit)
    }
}

/// The variant to play at an average bandwidth of `average`: the last one
/// (in playlist order) whose bandwidth is at most 80% of it, else the first,
/// else none.
pub open spec fn choose_variant_spec(vs: Seq<VariantView>, average: u64) -> int {
    let i = last_fitting(vs, (average * 8 / 10) as nat);
    if i >= 0 {
        i
    } else if vs.len() > 0 {
        0
    } else {
        -1
    }
}

/// Bandwidth measured over the last `window_size` samples.
#[derive(Debug)]
pub struct AdaptiveStream {
    bandwidth: Bandwidth,
    window_size: usize,
    samples: Vec<u64>,
}

impl AdaptiveStream {
    pub closed spec fn bandwidth_spec(&self) -> Bandwidth {
        self.bandwidth
    }

    pub closed spec fn samples_spec(&self) -> Seq<u64> {
        self.samples@
    }

    pub closed spec fn window(&self) -> nat {
        self.window_size as nat
    }

    /// Holds after every update: at most `window` samples; the figures are the
    /// last sample, the least, the greatest and the mean of the samples.
    pub open spec fn wf(&self) -> bool {
        &&& self.window() == 10
        &&& self.samples_spec().len() <= self.window()
        &&& self.samples_spec().len() > 0 ==> {
            &&& self.bandwidth_spec().current == self.samples_spec().last()
            &&& self.bandwidth_spec().min == seq_min(self.samples_spec())
            &&& self.bandwidth_spec().max == seq_max(self.samples_spec())
            &&& self.bandwidth_spec().average == seq_sum(self.samples_spec()) / self.samples_spec().len()
        }
    }

    /// A stream whose figures all start at `initial_bandwidth`, with no samples.
    pub fn new(initial_bandwidth: u64) -> (r: Self)
        ensures
            r.wf(),
            r.samples_spec() == Seq::<u64>::empty(),
            r.bandwidth_spec() == (Bandwidth {
                current: initial_bandwidth,
                min: initial_bandwidth,
                max: initial_bandwidth,
                average: initial_bandwidth,
            }),
    {
        AdaptiveStream {
            bandwidth: Bandwidth {
                current: initial_bandwidth,
                min: initial_bandwidth,
                max: initial_bandwidth,
                average: initial_bandwidth,
            },
            window_size: 10,
            samples: Vec::new(),
        }
    }

    /// The current figures.
    pub fn bandwidth(&self) -> (r: Bandwidth)
        ensures
            r == self.bandwidth_spec(),
    {
        self.bandwidth
    }

    /// Adds the sample of `bytes` bytes moved in `duration_ms` milliseconds.
    pub fn update_bandwidth(&mut self, bytes: u64, duration_ms: u64)
        requires
            old(self).wf(),
            duration_ms > 0,
            bytes * 8 * 1000 <= u64::MAX,
            seq_sum(next_window(old(self).samples_spec(), bps_spec(bytes, duration_ms) as u64, old(self).window()))
                <= u64::MAX,
        ensures
            final(self).wf(),
            final(self).samples_spec() == next_window(
                old(self).samples_spec(),
                bps_spec(bytes, duration_ms) as u64,
                old(self).window(),
            ),
            final(self).bandwidth_spec().current == bps_spec(bytes, duration_ms),
    {
        let bps = (bytes * 8 * 1000) / duration_ms;
        self.samples.push(bps);
        if self.samples.len() > self.window_size {
            self.samples.remove(0);
        }
        let ghost s = self.samples@;
        assert(s =~= next_window(old(self).samples_spec(), bps, old(self).window()));
        assert(s.len() > 0);
        assert(s.last() == bps);
        let mut mn = self.samples[0];
        let mut mx = self.samples[0];
        let mut sum: u64 = self.samples[0];
        let mut i: usize = 1;
        assert(s.take(1).drop_last() =~= Seq::<u64>::empty());
        assert(seq_sum(Seq::<u64>::empty()) == 0);
        assert(s.take(1).last() == s[0]);
        assert(seq_sum(s.take(1)) == s[0]);
        while i < self.samples.len()
            invariant
                1 <= i <= s.len(),
                s == self.samples@,
                seq_sum(s) <= u64::MAX,
                mn == seq_min(s.take(i as int)),
                mx == seq_max(s.take(i as int)),
                sum == seq_sum(s.take(i as int)),
            decreases s.len() - i,
        {
            proof {
                assert(s.take(i + 1).drop_last() =~= s.take(i as int));
                lemma_sum_prefix(s, i + 1);
            }
            let x = self.samples[i];
            if x < mn {
                mn = x;
            }
            if x > mx {
                mx = x;
            }
            sum = sum + x;
            i += 1;
        }
        assert(s.take(i as int) =~= s);
        self.bandwidth = Bandwidth {
            current: bps,
            min: mn,
            max: mx,
            average: sum / (self.samples.len() as u64),
        };
    }

    /// The variant to play at the average bandwidth (see `choose_variant_spec`).
    pub fn select_variant<'a>(&self, variants: &'a [Variant]) -> (r: Option<&'a Variant>)
        requires
            self.bandwidth_spec().average * 8 <= u64::MAX,
        ensures
            ({
                let i = choose_variant_spec(variants@.map_values(|v: Variant| v@), self.bandwidth_spec().average);
                match r {
                    Some(v) => i >= 0 && *v == variants@[i],
                    None => i < 0,
                }
            }),
    {
        let limit = self.bandwidth.average * 8 / 10;
        match last_fitting_index(variants, limit) {
            Some(i) => Some(&variants[i]),
            None => {
                if variants.len() > 0 {
                    Some(&variants[0])
                } else {
                    None
                }
            },
        }
    }
}

/// Index of the last variant whose bandwidth is at most `limit`.
pub fn last_fitting_index(variants: &[Variant], limit: u64) -> (r: Option<usize>)
    ensures
        match r {
            Some(i) => i < variants@.len() && last_fitting(variants@.map_values(|v: Variant| v@), limit as nat) == i,
            None => last_fitting(variants@.map_values(|v: Variant| v@), limit as nat) == -1,
        },
{
    let ghost vs = variants@.map_values(|v: Variant| v@);
    let mut i: usize = variants.len();
    assert(vs.take(i as int) =~= vs);
    while i > 0
        invariant
            0 <= i <= variants@.len(),
            vs == variants@.map_values(|v: Variant| v@),
            last_fitting(vs, limit as nat) == last_fitting(vs.take(i as int), limit as nat),
        decreases i,
    {
        assert(vs.take(i as int).drop_last() =~= vs.take(i - 1));
        if variants[i - 1].bandwidth <= limit {
            return Some(i - 1);
        }
        i -= 1;
    }
    None
}

pub proof fn lemma_sum_prefix(s: Seq<u64>, i: int)
    requires
        0 <= i <= s.len(),
    ensures
        seq_sum(s.take(i)) <= seq_sum(s),
    decreases s.len(),
{
    if i < s.len() {
        lemma_sum_prefix(s.drop_last(), i);
        assert(s.drop_last().take(i) =~= s.take(i));
    } else {
        assert(s.take(i) =~= s);
    }
}

/// The least sample is at most the mean, which is at most the greatest.
pub proof fn lemma_min_avg_max(s: Seq<u64>)
    requires
        s.len() > 0,
    ensures
        seq_min(s) <= seq_sum(s) / s.len(),
        seq_sum(s) / s.len() <= seq_max(s),
{
    lemma_sum_bounds(s);
    let n = s.len();
    let t = seq_sum(s);
    let lo = seq_min(s) as nat;
    let hi = seq_max(s) as nat;
    assert(lo * n <= t);
    assert(t <= hi * n);
    assert(lo <= t / n) by (nonlinear_arith)
        requires
            lo * n <= t,
            n > 0,
    ;
    assert(t / n <= hi) by (nonlinear_arith)
        requires
            t <= hi * n,
            n > 0,
    ;
}

/// The sum lies between `len * min` and `len * max`.
pub proof fn lemma_sum_bounds(s: Seq<u64>)
    requires
        s.len() > 0,
    ensures
        (seq_min(s) as nat) * s.len() <= seq_sum(s),
        seq_sum(s) <= (seq_max(s) as nat) * s.len(),
    decreases s.len(),
{
    if s.len() == 1 {
        assert(s.drop_last() =~= Seq::<u64>::empty());
        assert(seq_sum(s.drop_last()) == 0);
        assert(seq_sum(s) == s[0]);
    } else {
        let d = s.drop_last();
        lemma_sum_bounds(d);
        let lo = seq_min(s) as nat;
        let hi = seq_max(s) as nat;
        let dlo = seq_min(d) as nat;
        let dhi = seq_max(d) as nat;
        let n = d.len();
        assert(lo <= dlo);
        assert(hi >= dhi);
        assert(lo * n <= dlo * n) by (nonlinear_arith)
            requires
                lo <= dlo,
        ;
        assert(dhi * n <= hi * n) by (nonlinear_arith)
            requires
                dhi <= hi,
        ;
        assert(lo * (n + 1) == lo * n + lo) by (nonlinear_arith);
        assert(hi * (n + 1) == hi * n + hi) by (nonlinear_arith);
        assert(seq_sum(s) == seq_sum(d) + s.last() as nat);
        assert(s.last() as nat <= hi);
        assert(s.last() as nat >= lo);
    }
}

/// `last_fitting` finds the last variant within the limit, or -1 when none
/// is within it.
pub proof fn lemma_last_fitting(vs: Seq<VariantView>, limit: nat)
    ensures
        -1 <= last_fitting(vs, limit) < vs.len(),
        last_fitting(vs, limit) >= 0 ==> vs[last_fitting(vs, limit)].bandwidth <= limit,
        forall|j: int| last_fitting(vs, limit) < j < vs.len() ==> (#[trigger] vs[j]).bandwidth > limit,
    decreases vs.len(),
{
    if vs.len() > 0 && vs.last().bandwidth > limit {
        lemma_last_fitting(vs.drop_last(), limit);
        assert forall|j: int| last_fitting(vs, limit) < j < vs.len() implies (#[trigger] vs[j]).bandwidth > limit by {
            if j < vs.len() - 1 {
                assert(vs[j] == vs.drop_last()[j]);
            }
        }
    }
}

/// The variant chosen for an average bandwidth: among the variants whose
/// bandwidth is at most 80% of the average, the last in playlist order, and
/// no later variant fits; when none fits, the first variant; none only when
/// there are no variants.
pub proof fn lemma_choice_is_last_fitting_else_first(vs: Seq<VariantView>, average: u64)
    ensures
        (choose_variant_spec(vs, average) < 0) <==> vs.len() == 0,
        vs.len() > 0 ==> 0 <= choose_variant_spec(vs, average) < vs.len(),
        (exists|j: int| 0 <= j < vs.len() && (#[trigger] vs[j]).bandwidth <= average * 8 / 10) ==> {
            &&& vs[choose_variant_spec(vs, average)].bandwidth <= average * 8 / 10
            &&& forall|j: int|
                choose_variant_spec(vs, average) < j < vs.len() ==> (#[trigger] vs[j]).bandwidth > average * 8
                    / 10
        },
        vs.len() > 0 && (forall|j: int| 0 <= j < vs.len() ==> (#[trigger] vs[j]).bandwidth > average * 8 / 10)
            ==> choose_variant_spec(vs, average) == 0,
{
    let limit = (average * 8 / 10) as nat;
    lemma_last_fitting(vs, limit);
}

} // verus!
