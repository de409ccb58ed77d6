use vstd::prelude::*;

use crate::server::Server;
use std::collections::HashMap;
use std::time::{Duration, Instant};

verus! {

broadcast use vstd::std_specs::hash::group_hash_axioms;

#[verifier::external_type_specification]
#[verifier::external_body]
pub struct ExInstant(Instant);

/// Relies on std::time::Instant::now: a reading of a monotonic clock.
#[verifier::external_body]
fn clock_now() -> (r: Instant) {
    Instant::now()
}

/// Relies on std::time::Instant::elapsed: the time since `start`, whatever
/// the clock says (zero rather than a panic if the clock went back).
#[verifier::external_body]
fn time_since(start: &Instant) -> (r: Duration) {
    start.elapsed()
}

/// Relies on std::time::Duration::as_nanos: the whole nanoseconds of `d`.
#[verifier::external_body]
fn whole_nanos(d: &Duration) -> (r: u128) {
    d.as_nanos()
}

/// A set of interchangeable variants of one operation, each producing the
/// same effect, and one of them designated as the fallback that always applies.
pub trait AutotuneOperationSet {
    /// The key this set reports.
    spec fn key_view(&self) -> u64;

    /// The number of variants this set reports.
    spec fn count_view(&self) -> usize;

    /// The fallback this set reports.
    spec fn fallback_view(&self) -> usize;

    /// The shape class of the operation: equal keys share a winner.
    fn key(&self) -> (r: u64)
        ensures
            r == self.key_view(),
    ;

    /// Number of variants.
    fn variant_count(&self) -> (r: usize)
        ensures
            r == self.count_view(),
    ;

    /// The variant run when no variant could be measured.
    fn fallback_index(&self) -> (r: usize)
        ensures
            r == self.fallback_view(),
    ;

    /// Runs variant `index`; false when it does not apply to these inputs.
    fn execute_variant(&self, index: usize, server: &mut Server) -> (ok: bool)
        requires
            old(server).wf(),
        ensures
            final(server).wf(),
    ;
}

/// Whether `i` is the first index of a smallest measured time in `times`.
pub open spec fn is_fastest(times: Seq<Option<u128>>, i: int) -> bool {
    &&& 0 <= i < times.len()
    &&& times[i] is Some
    &&& forall|j: int| 0 <= j < times.len() && #[trigger] times[j] is Some ==> times[i]->0 <= times[j]->0
    &&& forall|j: int| 0 <= j < i && #[trigger] times[j] is Some ==> times[i]->0 < times[j]->0
}

/// The first index of a smallest measured time; `None` when no variant was measured.
pub fn fastest(times: &Vec<Option<u128>>) -> (r: Option<usize>)
    ensures
        r is Some ==> is_fastest(times@, r->0 as int),
        r is None ==> forall|j: int| 0 <= j < times@.len() ==> times@[j] is None,
{
    let mut best: Option<usize> = None;
    let mut i: usize = 0;
    while i < times.len()
        invariant
            i <= times@.len(),
            best is Some ==> is_fastest(times@.subrange(0, i as int), best->0 as int),
            best is None ==> forall|j: int| 0 <= j < i ==> times@[j] is None,
        decreases times@.len() - i,
    {
        let ghost prefix = times@.subrange(0, i as int);
        let ghost next = times@.subrange(0, i + 1);
        proof {
            assert forall|j: int| 0 <= j < i implies next[j] == prefix[j] by {}
        }
        match times[i] {
            Some(t) => {
                match best {
                    None => {
                        best = Some(i);
                    },
                    Some(b) => {
                        let tb = times[b].unwrap();
                        if t < tb {
                            best = Some(i);
                        }
                    },
                }
            },
            None => {},
        }
        i = i + 1;
        proof {
            assert(next =~= times@.subrange(0, i as int));
        }
    }
    proof {
        assert(times@.subrange(0, i as int) =~= times@);
    }
    best
}

/// Whether some variant was measured.
pub open spec fn any_measured(times: Seq<Option<u128>>) -> bool {
    exists|i: int| 0 <= i < times.len() && #[trigger] times[i] is Some
}

/// The indices `0..count`, in order.
pub open spec fn all_variants(count: usize) -> Seq<usize> {
    Seq::new(count as nat, |i: int| i as usize)
}

/// The state of a tuner as its contracts see it: the cached winners, the
/// number of benchmarking passes, every variant index run so far in order,
/// and the times measured by the latest pass (`None` where the variant did
/// not apply).
pub type TunerView = (Map<u64, usize>, nat, Seq<usize>, Seq<Option<u128>>);

/// What one autotuned execution for `key` does, where `r` is the variant
/// that produced the result. On a cache hit, the cached variant runs once
/// and nothing else changes. On a miss, every variant runs once in order
/// and is timed, then the fastest that applied is cached and runs again;
/// when none applied, the fallback runs and nothing is cached.
pub open spec fn autotune_step(
    t0: TunerView,
    t1: TunerView,
    key: u64,
    r: usize,
    count: usize,
    fallback: usize,
) -> bool {
    if t0.0.contains_key(key) {
        &&& t1.0 == t0.0
        &&& t1.1 == t0.1
        &&& r == t0.0[key]
        &&& t1.2 == t0.2.push(r)
        &&& t1.3 == t0.3
    } else {
        &&& t1.1 == t0.1 + 1
        &&& t1.3.len() == count
        &&& t1.2 == t0.2 + all_variants(count).push(r)
        &&& any_measured(t1.3) ==> is_fastest(t1.3, r as int) && t1.0 == t0.0.insert(key, r)
        &&& !any_measured(t1.3) ==> r == fallback && t1.0 == t0.0
    }
}

/// Benchmarks the variants of an operation once per key and remembers the
/// fastest.
pub struct Tuner {
    cache: HashMap<u64, usize>,
    runs: u64,
    device_id: String,
    trace: Ghost<Seq<usize>>,
    measured: Ghost<Seq<Option<u128>>>,
}

impl Tuner {
    /// Winners by key.
    pub closed spec fn cache_view(&self) -> Map<u64, usize> {
        self.cache@
    }

    /// Number of benchmarking passes made so far.
    pub closed spec fn runs_view(&self) -> nat {
        self.runs as nat
    }

    /// The device whose kernels this tuner measures.
    pub closed spec fn device_id_view(&self) -> Seq<char> {
        self.device_id@
    }

    /// Every variant index run so far, in order.
    pub closed spec fn trace_view(&self) -> Seq<usize> {
        self.trace@
    }

    /// The times of the latest benchmarking pass.
    pub closed spec fn measured_view(&self) -> Seq<Option<u128>> {
        self.measured@
    }

    pub open spec fn view(&self) -> TunerView {
        (self.cache_view(), self.runs_view(), self.trace_view(), self.measured_view())
    }

    /// A tuner with nothing cached, for the device named `device_id`.
    pub fn new(device_id: String) -> (r: Tuner)
        ensures
            r.device_id_view() == device_id@,
            r.cache_view() == Map::<u64, usize>::empty(),
            r.runs_view() == 0,
            r.trace_view() == Seq::<usize>::empty(),
            r.measured_view() == Seq::<Option<u128>>::empty(),
    {
        Tuner {
            cache: HashMap::new(),
            runs: 0,
            device_id,
            trace: Ghost(Seq::empty()),
            measured: Ghost(Seq::empty()),
        }
    }

    /// The device whose kernels this tuner measures.
    pub fn device_id(&self) -> (r: &String)
        ensures
            r@ == self.device_id_view(),
    {
        &self.device_id
    }

    /// The cached winner for `key`, if any.
    pub fn autotune_fastest(&self, key: u64) -> (r: Option<usize>)
        ensures
            r == (if self.cache_view().contains_key(key) {
                Some(self.cache_view()[key])
            } else {
                None
            }),
    {
        match self.cache.get(&key) {
            Some(i) => Some(*i),
            None => None,
        }
    }

    /// Number of benchmarking passes made so far.
    pub fn benchmark_runs(&self) -> (r: u64)
        ensures
            r == self.runs_view(),
    {
        self.runs
    }

    /// Runs the operation with the variant cached for `key`. Without one,
    /// runs and times every variant (each followed by a sync, so the time
    /// covers the device's work), caches the fastest that applied and runs
    /// it once more to produce the result; when none applied, runs the
    /// fallback and caches nothing, so a later call measures again.
    /// Returns the index of the variant that produced the result. `key`,
    /// `count` and `fallback` are what the operation set reports.
    pub fn execute_autotune<O: AutotuneOperationSet>(
        &mut self,
        key: u64,
        count: usize,
        fallback: usize,
        op: &O,
        server: &mut Server,
    ) -> (r: usize)
        requires
            old(server).wf(),
            old(self).runs_view() < u64::MAX,
        ensures
            final(server).wf(),
            autotune_step(old(self).view(), final(self).view(), key, r, count, fallback),
            final(self).device_id_view() == old(self).device_id_view(),
    {
        if let Some(i) = self.autotune_fastest(key) {
            op.execute_variant(i, server);
            self.trace = Ghost(self.trace@.push(i));
            return i;
        }
        self.runs = self.runs + 1;
        let ghost trace0 = self.trace@;
        let mut times: Vec<Option<u128>> = Vec::new();
        let mut i: usize = 0;
        while i < count
            invariant
                server.wf(),
                i <= count,
                times@.len() == i,
                self.trace@ == trace0 + all_variants(count).subrange(0, i as int),
                self.cache@ == old(self).cache@,
                self.runs == old(self).runs + 1,
                self.device_id@ == old(self).device_id@,
            decreases count - i,
        {
            let start = clock_now();
            let ok = op.execute_variant(i, server);
            proof {
                assert(all_variants(count).subrange(0, i + 1) =~= all_variants(count).subrange(
                    0,
                    i as int,
                ).push(i));
                assert(trace0 + all_variants(count).subrange(0, i + 1) =~= (trace0 + all_variants(
                    count,
                ).subrange(0, i as int)).push(i));
            }
            self.trace = Ghost(self.trace@.push(i));
            server.sync();
            let elapsed = time_since(&start);
            let t = whole_nanos(&elapsed);
            times.push(
                if ok {
                    Some(t)
                } else {
                    None
                },
            );
            i = i + 1;
        }
        proof {
            assert(all_variants(count).subrange(0, count as int) =~= all_variants(count));
        }
        self.measured = Ghost(times@);
        match fastest(&times) {
            Some(w) => {
                self.cache.insert(key, w);
                op.execute_variant(w, server);
                self.trace = Ghost(self.trace@.push(w));
                w
            },
            None => {
                op.execute_variant(fallback, server);
                self.trace = Ghost(self.trace@.push(fallback));
                fallback
            },
        }
    }
}

/// Once a call has cached a winner for a key, a second call with an equal
/// key measures nothing, runs exactly the cached variant once, and leaves the
/// cache as it was: over both calls there is one benchmarking pass at most.
pub proof fn lemma_cache_hit_is_idempotent(
    t0: TunerView,
    t1: TunerView,
    t2: TunerView,
    key: u64,
    r1: usize,
    r2: usize,
    count: usize,
    fallback: usize,
)
    requires
        autotune_step(t0, t1, key, r1, count, fallback),
        autotune_step(t1, t2, key, r2, count, fallback),
        t1.0.contains_key(key),
    ensures
        t2.1 == t1.1,
        t1.1 <= t0.1 + 1,
        t2.0 == t1.0,
        r2 == r1,
        t2.2 == t1.2.push(r1),
{
}

/// A call on an uncached key in which some variant applied caches the
/// fastest of them, which is also the variant that produced the result.
pub proof fn lemma_miss_caches_fastest(
    t0: TunerView,
    t1: TunerView,
    key: u64,
    r: usize,
    count: usize,
    fallback: usize,
)
    requires
        autotune_step(t0, t1, key, r, count, fallback),
        !t0.0.contains_key(key),
        any_measured(t1.3),
    ensures
        t1.0.contains_key(key),
        t1.0[key] == r,
        is_fastest(t1.3, r as int),
        r < count,
        t1.2.last() == r,
{
}

/// A key that a call leaves cached, having found it uncached, was cached by
/// a benchmarking pass in which some variant applied, and it names the
/// fastest of that pass; a call in which no variant applied caches nothing.
pub proof fn lemma_entry_comes_from_measured_pass(
    t0: TunerView,
    t1: TunerView,
    key: u64,
    r: usize,
    count: usize,
    fallback: usize,
)
    requires
        autotune_step(t0, t1, key, r, count, fallback),
        !t0.0.contains_key(key),
    ensures
        t1.0.contains_key(key) <==> any_measured(t1.3),
        t1.0.contains_key(key) ==> is_fastest(t1.3, t1.0[key] as int),
        t1.1 == t0.1 + 1,
{
}

} // verus!
