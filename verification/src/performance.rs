//! Response-time and error statistics per resource, and the limits chosen
//! when a resource needs tuning.
use crate::keyed::{key_index, lemma_key_index, lemma_key_index_at, KeyedVec};
use vstd::prelude::*;

verus! {

/// When a resource needs tuning. Times are in nanoseconds. (The load
/// threshold, a fraction, is applied by the caller.)
#[derive(Debug, Clone, Copy)]
pub struct OptimizerConfig {
    pub max_response_time: u64,
    pub error_threshold: usize,
    pub optimization_interval: u64,
}

impl Default for OptimizerConfig {
    /// Two seconds, five errors, five minutes.
    fn default() -> (r: Self)
        ensures
            r.max_response_time == 2_000_000_000,
            r.error_threshold == 5,
            r.optimization_interval == 300_000_000_000,
    {
        OptimizerConfig { max_response_time: 2_000_000_000, error_threshold: 5, optimization_interval: 300_000_000_000 }
    }
}

/// Limits chosen for a resource. The timeout is in nanoseconds.
#[derive(Debug, Clone, Copy)]
pub struct ThresholdSnapshot {
    pub max_concurrent: usize,
    pub rate_limit: u32,
    pub timeout: u64,
}

/// Statistics of one resource: the last (at most 100) response times in
/// nanoseconds, the errors since the last tuning, and when that was
/// (milliseconds on the caller's clock).
#[derive(Debug)]
pub struct ResourceMetrics {
    pub response_times: Vec<u64>,
    pub error_count: usize,
    pub last_optimized: u64,
}

/// What is handed out about a resource. (The error rate is computed by the
/// caller from the counts.)
#[derive(Debug, Clone, Copy)]
pub struct MetricsSnapshot {
    pub avg_response_time: u64,
    pub error_count: usize,
    pub response_count: usize,
    pub last_optimized: u64,
}

pub struct MetricsView {
    pub times: Seq<u64>,
    pub errors: nat,
    pub last_optimized: u64,
}

impl ResourceMetrics {
    pub open spec fn view_metrics(&self) -> MetricsView {
        MetricsView { times: self.response_times@, errors: self.error_count as nat, last_optimized: self.last_optimized }
    }
}

pub open spec fn sum_times(s: Seq<u64>) -> nat
    decreases s.len(),
{
    if s.len() == 0 {
        0
    } else {
        sum_times(s.drop_last()) + s.last() as nat
    }
}

/// The mean response time, rounded down to the nanosecond.
pub open spec fn avg_time(s: Seq<u64>) -> nat {
    if s.len() == 0 {
        0
    } else {
        sum_times(s) / s.len()
    }
}

/// The response times after one more: only the last 100 are kept.
pub open spec fn push_time(s: Seq<u64>, t: u64) -> Seq<u64> {
    let r = s.push(t);
    if r.len() > 100 {
        r.skip(1)
    } else {
        r
    }
}

/// A resource needs tuning when its mean response time exceeds the maximum,
/// its errors reach the threshold, or (as the caller judges) its load is over
/// the threshold.
pub open spec fn should_optimize_spec(m: MetricsView, config: OptimizerConfig, over_load: bool) -> bool {
    avg_time(m.times) > config.max_response_time || m.errors >= config.error_threshold || over_load
}

/// The limits for a resource: 20 connections when slow (else 50), 100
/// requests when errors exceed the threshold (else 200), a 30-second timeout
/// when over loaded (else 10 seconds).
pub open spec fn thresholds_spec(m: MetricsView, config: OptimizerConfig, over_load: bool) -> ThresholdSnapshot {
    ThresholdSnapshot {
        max_concurrent: if avg_time(m.times) > config.max_response_time {
            20
        } else {
            50
        },
        rate_limit: if m.errors > config.error_threshold {
            100
        } else {
            200
        },
        timeout: if over_load {
            30_000_000_000
        } else {
            10_000_000_000
        },
    }
}

/// The statistics of a resource after one more request.
pub open spec fn recorded(m: MetricsView, t: u64, success: bool) -> MetricsView {
    MetricsView { times: push_time(m.times, t), errors: if success { m.errors } else { m.errors + 1 }, ..m }
}

pub open spec fn new_metrics(now: u64) -> MetricsView {
    MetricsView { times: Seq::empty(), errors: 0, last_optimized: now }
}

/// Keeps statistics per resource and the limits chosen for them.
#[derive(Debug)]
pub struct PerformanceOptimizer {
    metrics: KeyedVec<ResourceMetrics>,
    thresholds: KeyedVec<ThresholdSnapshot>,
    config: OptimizerConfig,
}

impl PerformanceOptimizer {
    pub closed spec fn metrics_spec(&self) -> Seq<(Seq<char>, MetricsView)> {
        self.metrics.entries().map_values(|p: (Seq<char>, ResourceMetrics)| (p.0, p.1.view_metrics()))
    }

    pub closed spec fn thresholds_spec_of(&self) -> Seq<(Seq<char>, ThresholdSnapshot)> {
        self.thresholds.entries()
    }

    pub closed spec fn config_spec(&self) -> OptimizerConfig {
        self.config
    }

    pub closed spec fn wf(&self) -> bool {
        &&& self.metrics.wf()
        &&& self.thresholds.wf()
        &&& forall|i: int|
            0 <= i < self.metrics.entries().len() ==> (#[trigger] self.metrics.entries()[i]).1.response_times@.len()
                <= 100
    }

    /// An optimizer with no statistics yet.
    pub fn new(config: OptimizerConfig) -> (r: Self)
        ensures
            r.wf(),
            r.metrics_spec() == Seq::<(Seq<char>, MetricsView)>::empty(),
            r.thresholds_spec_of() == Seq::<(Seq<char>, ThresholdSnapshot)>::empty(),
            r.config_spec() == config,
    {
        let r = PerformanceOptimizer { metrics: KeyedVec::new(), thresholds: KeyedVec::new(), config };
        assert(r.metrics_spec() =~= Seq::<(Seq<char>, MetricsView)>::empty());
        r
    }

    /// Records a request to `resource_id` that took `response_time`
    /// nanoseconds and did or did not succeed, at `now`. When the resource
    /// then needs tuning (`over_load` says whether its load is over the
    /// threshold), its limits are chosen, its error count is reset and `now`
    /// is noted; the result says whether that happened.
    pub fn record_request(
        &mut self,
        resource_id: &str,
        response_time: u64,
        success: bool,
        over_load: bool,
        now: u64,
    ) -> (r: bool)
        requires
            old(self).wf(),
            !success && key_index(old(self).metrics_spec(), resource_id@) >= 0 ==> old(self).metrics_spec()[key_index(
                old(self).metrics_spec(),
                resource_id@,
            )].1.errors < usize::MAX,
        ensures
            final(self).wf(),
            final(self).config_spec() == old(self).config_spec(),
            ({
                let i = key_index(old(self).metrics_spec(), resource_id@);
                let before = if i >= 0 {
                    old(self).metrics_spec()[i].1
                } else {
                    new_metrics(now)
                };
                let m = recorded(before, response_time, success);
                let tuned = should_optimize_spec(m, old(self).config_spec(), over_load);
                let after = if tuned {
                    MetricsView { errors: 0, last_optimized: now, ..m }
                } else {
                    m
                };
                &&& r == tuned
                &&& key_index(final(self).metrics_spec(), resource_id@) >= 0
                &&& final(self).metrics_spec()[key_index(final(self).metrics_spec(), resource_id@)].1 == after
                &&& final(self).metrics_spec().len() == old(self).metrics_spec().len() + (if i >= 0 {
                    0int
                } else {
                    1int
                })
                &&& tuned ==> {
                    let j = key_index(final(self).thresholds_spec_of(), resource_id@);
                    &&& j >= 0
                    &&& final(self).thresholds_spec_of()[j].1 == thresholds_spec(m, old(self).config_spec(), over_load)
                }
                &&& !tuned ==> final(self).thresholds_spec_of() == old(self).thresholds_spec_of()
            }),
    {
        metrics_view_facts(self);
        let ghost s0 = self.metrics_spec();
        let ghost i0 = key_index(s0, resource_id@);
        let ghost before = if i0 >= 0 {
            s0[i0].1
        } else {
            new_metrics(now)
        };
        proof {
            lemma_key_index(self.metrics.entries(), resource_id@);
        }
        let i = match self.metrics.find(resource_id) {
            Some(i) => i,
            None => {
                self.metrics.push_new(
                    resource_id,
                    ResourceMetrics { response_times: Vec::new(), error_count: 0, last_optimized: now },
                );
                self.metrics.len() - 1
            },
        };
        metrics_view_facts(self);
        let ghost mid = self.metrics.entries();
        assert forall|q: int| 0 <= q < mid.len() implies (#[trigger] mid[q]).1.response_times@.len() <= 100 by {
            if q < old(self).metrics.entries().len() {
                assert(mid[q] == old(self).metrics.entries()[q]);
            }
        }
        assert(self.metrics.entries()[i as int].0 == resource_id@);
        assert(self.metrics.entries()[i as int].1.view_metrics() == before) by {
            if i0 < 0 {
                assert(self.metrics.entries()[i as int].1.response_times@ =~= Seq::<u64>::empty());
            }
        }
        let old_m = self.metrics.value_at(i);
        let mut times: Vec<u64> = Vec::new();
        let mut k: usize = 0;
        while k < old_m.response_times.len()
            invariant
                0 <= k <= old_m.response_times@.len(),
                times@ == old_m.response_times@.take(k as int),
            decreases old_m.response_times@.len() - k,
        {
            times.push(old_m.response_times[k]);
            k += 1;
            assert(times@ =~= old_m.response_times@.take(k as int));
        }
        assert(old_m.response_times@.take(k as int) =~= old_m.response_times@);
        times.push(response_time);
        if times.len() > 100 {
            times.remove(0);
        }
        assert(times@ =~= push_time(before.times, response_time));
        assert(times@.len() <= 100);
        let errors = if success {
            old_m.error_count
        } else {
            old_m.error_count + 1
        };
        let ghost m = recorded(before, response_time, success);
        assert(errors as nat == m.errors);
        let avg = average(&times);
        let tuned = avg > self.config.max_response_time as u128 || errors >= self.config.error_threshold
            || over_load;
        assert(tuned == should_optimize_spec(m, self.config, over_load));
        let ghost len0 = self.metrics.entries().len();
        if tuned {
            let t = ThresholdSnapshot {
                max_concurrent: if avg > self.config.max_response_time as u128 {
                    20
                } else {
                    50
                },
                rate_limit: if errors > self.config.error_threshold {
                    100
                } else {
                    200
                },
                timeout: if over_load {
                    30_000_000_000
                } else {
                    10_000_000_000
                },
            };
            assert(t == thresholds_spec(m, self.config, over_load));
            self.thresholds.put(resource_id, t);
            proof {
                lemma_key_index(old(self).thresholds.entries(), resource_id@);
                let te = self.thresholds.entries();
                let j0 = key_index(old(self).thresholds.entries(), resource_id@);
                if j0 >= 0 {
                    assert(te[j0].0 == resource_id@);
                    lemma_key_index_at(te, resource_id@, j0);
                } else {
                    assert(te[te.len() - 1].0 == resource_id@);
                    lemma_key_index_at(te, resource_id@, te.len() - 1);
                }
            }
            self.metrics.set_value(
                i,
                ResourceMetrics { response_times: times, error_count: 0, last_optimized: now },
            );
        } else {
            let lo = old_m.last_optimized;
            self.metrics.set_value(
                i,
                ResourceMetrics { response_times: times, error_count: errors, last_optimized: lo },
            );
        }
        metrics_view_facts(self);
        proof {
            lemma_key_index_at(self.metrics.entries(), resource_id@, i as int);
            assert(self.metrics.entries().len() == len0);
            assert forall|q: int|
                0 <= q < self.metrics.entries().len() implies (#[trigger] self.metrics.entries()[q]).1.response_times@.len()
                <= 100 by {
                if q != i {
                    assert(self.metrics.entries()[q] == mid[q]);
                }
            }
        }
        tuned
    }

    /// Counts of the resource `resource_id`, if it has any.
    pub fn get_resource_metrics(&self, resource_id: &str) -> (r: Option<MetricsSnapshot>)
        requires
            self.wf(),
        ensures
            ({
                let i = key_index(self.metrics_spec(), resource_id@);
                match r {
                    Some(s) => i >= 0 && s.avg_response_time == avg_time(self.metrics_spec()[i].1.times)
                        && s.error_count == self.metrics_spec()[i].1.errors && s.response_count
                        == self.metrics_spec()[i].1.times.len() && s.last_optimized
                        == self.metrics_spec()[i].1.last_optimized,
                    None => i < 0,
                }
            }),
    {
        metrics_view_facts(self);
        proof {
            lemma_key_index(self.metrics.entries(), resource_id@);
        }
        match self.metrics.find(resource_id) {
            Some(i) => {
                let m = self.metrics.value_at(i);
                let avg = average(&m.response_times);
                proof {
                    lemma_avg_bounded(m.response_times@);
                }
                Some(
                    MetricsSnapshot {
                        avg_response_time: avg as u64,
                        error_count: m.error_count,
                        response_count: m.response_times.len(),
                        last_optimized: m.last_optimized,
                    },
                )
            },
            None => None,
        }
    }

    /// Whether statistics are kept for `resource_id`.
    pub fn has_resource(&self, resource_id: &str) -> (r: bool)
        ensures
            r == (key_index(self.metrics_spec(), resource_id@) >= 0),
    {
        metrics_view_facts(self);
        self.metrics.find(resource_id).is_some()
    }

    /// The limits chosen for `resource_id`, if any.
    pub fn get_thresholds(&self, resource_id: &str) -> (r: Option<ThresholdSnapshot>)
        ensures
            ({
                let i = key_index(self.thresholds_spec_of(), resource_id@);
                match r {
                    Some(t) => i >= 0 && t == self.thresholds_spec_of()[i].1,
                    None => i < 0,
                }
            }),
    {
        proof {
            lemma_key_index(self.thresholds.entries(), resource_id@);
        }
        match self.thresholds.find(resource_id) {
            Some(i) => Some(*self.thresholds.value_at(i)),
            None => None,
        }
    }
}

/// The metrics seen through their views keep the same keys and indices.
fn metrics_view_facts(o: &PerformanceOptimizer)
    ensures
        forall|k: Seq<char>| key_index(o.metrics_spec(), k) == key_index(o.metrics.entries(), k),
        o.metrics_spec().len() == o.metrics.entries().len(),
        forall|i: int|
            0 <= i < o.metrics.entries().len() ==> (#[trigger] o.metrics_spec()[i]) == (
                o.metrics.entries()[i].0,
                o.metrics.entries()[i].1.view_metrics(),
            ),
{
    proof {
        assert forall|k: Seq<char>| key_index(o.metrics_spec(), k) == key_index(o.metrics.entries(), k) by {
            lemma_key_index_map(o.metrics.entries(), k);
        }
    }
}

pub proof fn lemma_key_index_map(s: Seq<(Seq<char>, ResourceMetrics)>, k: Seq<char>)
    ensures
        key_index(s.map_values(|p: (Seq<char>, ResourceMetrics)| (p.0, p.1.view_metrics())), k) == key_index(s, k),
    decreases s.len(),
{
    let t = s.map_values(|p: (Seq<char>, ResourceMetrics)| (p.0, p.1.view_metrics()));
    if s.len() > 0 {
        assert(t.drop_last() =~= s.drop_last().map_values(|p: (Seq<char>, ResourceMetrics)| (p.0, p.1.view_metrics())));
        lemma_key_index_map(s.drop_last(), k);
    }
}

/// The mean of the times, rounded down; 0 for none.
pub fn average(times: &Vec<u64>) -> (r: u128)
    ensures
        r == avg_time(times@),
{
    if times.len() == 0 {
        return 0;
    }
    let mut sum: u128 = 0;
    let mut i: usize = 0;
    while i < times.len()
        invariant
            0 <= i <= times@.len(),
            sum == sum_times(times@.take(i as int)),
            sum <= i * 0xffff_ffff_ffff_ffff,
            times@.len() <= usize::MAX,
        decreases times@.len() - i,
    {
        assert(times@.take(i + 1).drop_last() =~= times@.take(i as int));
        sum = sum + times[i] as u128;
        i += 1;
    }
    assert(times@.take(i as int) =~= times@);
    sum / (times.len() as u128)
}

pub proof fn lemma_avg_bounded(s: Seq<u64>)
    ensures
        avg_time(s) <= u64::MAX,
    decreases s.len(),
{
    if s.len() > 0 {
        lemma_sum_times_bounded(s);
        let n = s.len();
        let t = sum_times(s);
        assert(t / n <= u64::MAX) by (nonlinear_arith)
            requires
                t <= n * 0xffff_ffff_ffff_ffff,
                n > 0,
        ;
    }
}

pub proof fn lemma_sum_times_bounded(s: Seq<u64>)
    ensures
        sum_times(s) <= s.len() * 0xffff_ffff_ffff_ffff,
    decreases s.len(),
{
    if s.len() > 0 {
        lemma_sum_times_bounded(s.drop_last());
    }
}

/// A resource whose load is over the threshold is always tuned, and is given
/// a 30-second timeout; a resource tuned for another reason is given a
/// 10-second one. It gets 20 connections exactly when its mean response time
/// is over the maximum (else 50), and a rate of 100 exactly when its errors
/// are over the threshold (else 200).
pub proof fn lemma_tuning_limits(m: MetricsView, config: OptimizerConfig)
    ensures
        should_optimize_spec(m, config, true),
        thresholds_spec(m, config, true).timeout == 30_000_000_000,
        thresholds_spec(m, config, false).timeout == 10_000_000_000,
        thresholds_spec(m, config, true).timeout > thresholds_spec(m, config, false).timeout,
        forall|over_load: bool|
            (#[trigger] thresholds_spec(m, config, over_load)).max_concurrent == (if avg_time(m.times)
                > config.max_response_time {
                20usize
            } else {
                50usize
            }),
        forall|over_load: bool|
            (#[trigger] thresholds_spec(m, config, over_load)).rate_limit == (if m.errors
                > config.error_threshold {
                100u32
            } else {
                200u32
            }),
{
}

} // verus!
