//! Per-worker statistics and their merge.
//!
//! Each worker records into its own histograms — no contention on the hot path.
//! Histograms merge associatively at the end of the run.
//!
//! We track latencies **per [`OpKind`]** in addition to overall, because GET and
//! SET have completely different cost models and averaging them together hides
//! exactly the things you'd want to compare.
//!
//! Two distributions per op:
//!
//! - **service time** — how long the server took once the request was on the
//!   wire. The server-internal cost.
//! - **response time** — how long since the request was *scheduled to be sent*.
//!   Includes any time the client spent backed up.
//!
//! The gap between them is the queueing penalty.
use hdrhistogram::Histogram;
use vstd::multiset::Multiset;
use vstd::prelude::*;

use crate::bench::workload::{OpKind, KIND_COUNT};

verus! {

/// What is stored of a run besides its numbers.
#[derive(Debug)]
pub struct RunMetadata {
    /// RFC3339 UTC timestamp.
    pub timestamp: String,
    /// User-supplied label.
    pub label: Option<String>,
    /// Short commit hash at the time of the run, if available.
    pub git_sha: Option<String>,
    /// `uname -srm` from inside the bench container.
    pub kernel: Option<String>,
    pub cpu_count: usize,
    /// Memory budget shared by both servers.
    pub memory_bytes: Option<u64>,
    /// Verbatim `redis-server --version` output.
    pub redis_version: Option<String>,
}

/// A setting that is given and not empty.
pub fn given(v: Option<String>) -> (r: Option<String>)
    ensures
        r == (match v {
            Some(s) => if s@.len() > 0 {
                Some(s)
            } else {
                None
            },
            None => None,
        }),
{
    match v {
        Some(s) => if s.as_str().is_empty() {
            None
        } else {
            Some(s)
        },
        None => None,
    }
}

/// The value of a setting that is given and not empty, or else the fallback.
pub fn env_or(v: Option<String>, fallback: String) -> (r: String)
    ensures
        r == (match v {
            Some(s) => if s@.len() > 0 {
                s
            } else {
                fallback
            },
            None => fallback,
        }),
{
    match given(v) {
        Some(s) => s,
        None => fallback,
    }
}

/// The lowest value that a histogram with three significant digits counts together with `v`:
/// values below 2048 stand alone, each doubling of that halves the resolution.
pub open spec fn bucket(v: nat) -> nat
    decreases v,
{
    if v < 2048 {
        v
    } else {
        2 * bucket(v / 2)
    }
}

/// The lowest latency that a histogram tells from others, in microseconds.
pub const HIST_LO: u64 = 1;

/// How many significant digits of a latency count.
pub const HIST_DIGITS: u8 = 3;

/// The highest latency that is sure to be counted, in microseconds: 60 s.
pub const HIST_HI: u64 = 60_000_000;

/// A latency histogram from 1 µs to 60 s with three significant digits — covers everything from
/// in-memory hits to pathological tail events without losing precision.
#[verifier::external_body]
pub struct Latencies {
    h: Histogram<u64>,
}

/// The latencies that a histogram counts, each as the lowest value of its bucket.
pub uninterp spec fn samples(l: Latencies) -> Multiset<nat>;

/// How often `b` occurs in a list of values with their counts.
pub open spec fn listed(pairs: Seq<(u64, u64)>, b: nat) -> nat
    decreases pairs.len(),
{
    if pairs.len() == 0 {
        0
    } else {
        listed(pairs.drop_last(), b) + (if pairs.last().0 == b {
            pairs.last().1 as nat
        } else {
            0
        })
    }
}

/// `Histogram::new_with_bounds`: a histogram with these bounds and this many significant digits
/// that counts nothing. It fails on other bounds than sensible ones, and only these are handed in.
#[verifier::external_body]
fn histogram_with_bounds(low: u64, high: u64, digits: u8) -> (r: Latencies)
    requires
        low == HIST_LO,
        high == HIST_HI,
        digits == HIST_DIGITS,
    ensures
        samples(r) == Multiset::<nat>::empty(),
        samples(r).len() == 0,
{
    Latencies {
        h: Histogram::<u64>::new_with_bounds(low, high, digits).expect("histogram bounds are valid"),
    }
}

/// A histogram that counts nothing.
pub fn new_histogram() -> (r: Latencies)
    ensures
        samples(r) == Multiset::<nat>::empty(),
        samples(r).len() == 0,
{
    histogram_with_bounds(HIST_LO, HIST_HI, HIST_DIGITS)
}

/// `Histogram::record`: counts one latency. One of up to 60 s is always counted; a longer one may
/// be refused, and then nothing changes.
#[verifier::external_body]
fn histogram_record(l: &mut Latencies, us: u64) -> (counted: bool)
    requires
        samples(*old(l)).len() < u64::MAX,
    ensures
        us <= HIST_HI ==> counted,
        samples(*final(l)) == (if counted {
            samples(*old(l)).insert(bucket(us as nat))
        } else {
            samples(*old(l))
        }),
{
    l.h.record(us).is_ok()
}

/// `Histogram::add`: counts what the other histogram counts, too. Both have the same bounds, so
/// the addition cannot fail.
#[verifier::external_body]
fn histogram_add(l: &mut Latencies, other: &Latencies)
    requires
        samples(*old(l)).len() + samples(*other).len() <= u64::MAX,
    ensures
        samples(*final(l)) == samples(*old(l)).add(samples(*other)),
{
    l.h.add(&other.h).expect("compatible histograms");
}

/// `Histogram::iter_recorded`: the buckets that count something, each by its lowest value and its
/// count.
#[verifier::external_body]
fn histogram_counts(l: &Latencies) -> (r: Vec<(u64, u64)>)
    ensures
        forall|b: nat| samples(*l).count(b) == #[trigger] listed(r@, b),
{
    l.h.iter_recorded()
        .map(|v| (l.h.lowest_equivalent(v.value_iterated_to()), v.count_at_value()))
        .collect()
}

impl Latencies {
    /// The buckets that count something, each by its lowest value and its count: what percentiles
    /// and means are made of.
    pub fn counts(&self) -> (r: Vec<(u64, u64)>)
        ensures
            forall|b: nat| samples(*self).count(b) == #[trigger] listed(r@, b),
    {
        histogram_counts(self)
    }
}

/// Latency record for a single op kind on one worker.
pub struct KindStats {
    pub service: Latencies,
    pub response: Latencies,
    /// Number of *calls* completed (one per network round-trip).
    pub completed: u64,
    /// Number of *logical keys* served. For single-key ops this equals
    /// `completed`; for MGET/MSET it's the sum of batch sizes.
    pub keys: u64,
}

impl KindStats {
    /// No more latencies are counted than calls were completed.
    pub open spec fn wf(&self) -> bool {
        samples(self.service).len() <= self.completed && samples(self.response).len()
            <= self.completed
    }

    /// Nothing was recorded.
    pub open spec fn is_new(&self) -> bool {
        &&& samples(self.service) == Multiset::<nat>::empty()
        &&& samples(self.response) == Multiset::<nat>::empty()
        &&& self.completed == 0
        &&& self.keys == 0
    }

    /// `self` is `before` with one call more.
    pub open spec fn recorded(&self, before: KindStats, service_us: u64, response_us: u64, keys: u64) -> bool {
        &&& self.completed == before.completed + 1
        &&& self.keys == before.keys + keys
        &&& counts_one(before.service, self.service, service_us)
        &&& counts_one(before.response, self.response, response_us)
    }

    /// `self` is `before` with what `other` has.
    pub open spec fn merged(&self, before: KindStats, other: KindStats) -> bool {
        &&& self.completed == before.completed + other.completed
        &&& self.keys == before.keys + other.keys
        &&& samples(self.service) == samples(before.service).add(samples(other.service))
        &&& samples(self.response) == samples(before.response).add(samples(other.response))
    }

    pub fn new() -> (r: Self)
        ensures
            r.wf(),
            r.is_new(),
    {
        KindStats { service: new_histogram(), response: new_histogram(), completed: 0, keys: 0 }
    }

    pub fn record(&mut self, service_us: u64, response_us: u64, keys: u64)
        requires
            old(self).wf(),
            old(self).completed < u64::MAX,
            old(self).keys + keys <= u64::MAX,
        ensures
            final(self).wf(),
            final(self).recorded(*old(self), service_us, response_us, keys),
    {
        histogram_record(&mut self.service, service_us);
        histogram_record(&mut self.response, response_us);
        self.completed = self.completed + 1;
        self.keys = self.keys + keys;
    }

    pub fn merge_into(&self, into: &mut KindStats)
        requires
            self.wf(),
            old(into).wf(),
            old(into).completed + self.completed <= u64::MAX,
            old(into).keys + self.keys <= u64::MAX,
        ensures
            final(into).wf(),
            final(into).merged(*old(into), *self),
    {
        histogram_add(&mut into.service, &self.service);
        histogram_add(&mut into.response, &self.response);
        into.completed = into.completed + self.completed;
        into.keys = into.keys + self.keys;
    }
}

impl Default for KindStats {
    fn default() -> (r: Self)
        ensures
            r.wf(),
            r.is_new(),
    {
        KindStats::new()
    }
}

/// `after` counts what `before` does and one latency more; one above 60 s may not be counted.
pub open spec fn counts_one(before: Latencies, after: Latencies, us: u64) -> bool {
    ||| samples(after) == samples(before).insert(bucket(us as nat))
    ||| us > HIST_HI && samples(after) == samples(before)
}

/// What one worker has recorded.
pub struct WorkerStats {
    /// One for each kind, in the order of their places.
    pub by_kind: Vec<KindStats>,
    pub errors: u64,
}

impl WorkerStats {
    pub open spec fn wf(&self) -> bool {
        &&& self.by_kind@.len() == KIND_COUNT
        &&& forall|i: int| 0 <= i < KIND_COUNT ==> (#[trigger] self.by_kind@[i]).wf()
    }

    /// One more outcome can be counted.
    pub open spec fn has_room(&self, keys: u64) -> bool {
        &&& self.errors < u64::MAX
        &&& forall|i: int|
            0 <= i < KIND_COUNT ==> (#[trigger] self.by_kind@[i]).completed < u64::MAX
                && self.by_kind@[i].keys + keys <= u64::MAX
    }

    /// `self` is `before` with one call of this kind more.
    pub open spec fn recorded(
        &self,
        before: WorkerStats,
        kind: OpKind,
        service_us: u64,
        response_us: u64,
        keys: u64,
    ) -> bool {
        &&& self.errors == before.errors
        &&& self.by_kind@.len() == before.by_kind@.len()
        &&& self.by_kind@[kind.place()].recorded(
            before.by_kind@[kind.place()],
            service_us,
            response_us,
            keys,
        )
        &&& forall|i: int|
            0 <= i < before.by_kind@.len() && i != kind.place() ==> #[trigger] self.by_kind@[i]
                == before.by_kind@[i]
    }

    /// `self` is `before` with one failed call more.
    pub open spec fn failed(&self, before: WorkerStats) -> bool {
        self.errors == before.errors + 1 && self.by_kind@ == before.by_kind@
    }

    pub fn new() -> (r: Self)
        ensures
            r.wf(),
            r.errors == 0,
            forall|i: int| 0 <= i < KIND_COUNT ==> (#[trigger] r.by_kind@[i]).is_new(),
    {
        WorkerStats { by_kind: new_kinds(), errors: 0 }
    }

    pub fn record(&mut self, kind: OpKind, service_us: u64, response_us: u64, keys: u64)
        requires
            old(self).wf(),
            old(self).has_room(keys),
        ensures
            final(self).wf(),
            final(self).recorded(*old(self), kind, service_us, response_us, keys),
    {
        let i: usize = kind.index();
        let ghost was = self.by_kind@;
        assert(was[i as int].wf());
        self.by_kind[i].record(service_us, response_us, keys);
        proof {
            assert forall|j: int| 0 <= j < KIND_COUNT implies (#[trigger] self.by_kind@[j]).wf() by {
                if j != i {
                    assert(self.by_kind@[j] == was[j]);
                    assert(was[j].wf());
                }
            }
        }
    }

    /// Counts a failed call.
    pub fn record_error(&mut self)
        requires
            old(self).wf(),
            old(self).errors < u64::MAX,
        ensures
            final(self).wf(),
            final(self).failed(*old(self)),
    {
        self.errors = self.errors + 1;
    }
}

impl Default for WorkerStats {
    fn default() -> (r: Self)
        ensures
            r.wf(),
            r.errors == 0,
            forall|i: int| 0 <= i < KIND_COUNT ==> (#[trigger] r.by_kind@[i]).is_new(),
    {
        WorkerStats::new()
    }
}

/// Statistics of all kinds that count nothing.
fn new_kinds() -> (r: Vec<KindStats>)
    ensures
        r@.len() == KIND_COUNT,
        forall|i: int| 0 <= i < KIND_COUNT ==> (#[trigger] r@[i]).wf() && r@[i].is_new(),
{
    let mut out: Vec<KindStats> = Vec::new();
    let mut i: usize = 0;
    while i < KIND_COUNT
        invariant
            i <= KIND_COUNT,
            out@.len() == i,
            forall|j: int| 0 <= j < i ==> (#[trigger] out@[j]).wf() && out@[j].is_new(),
        decreases KIND_COUNT - i,
    {
        out.push(KindStats::new());
        i = i + 1;
    }
    out
}

/// The service latencies of a kind that the first `n` workers have recorded.
pub open spec fn service_of(workers: Seq<WorkerStats>, kind: int, n: int) -> Multiset<nat>
    decreases n,
{
    if n <= 0 {
        Multiset::empty()
    } else {
        service_of(workers, kind, n - 1).add(samples(workers[n - 1].by_kind@[kind].service))
    }
}

/// The response latencies of a kind that the first `n` workers have recorded.
pub open spec fn response_of(workers: Seq<WorkerStats>, kind: int, n: int) -> Multiset<nat>
    decreases n,
{
    if n <= 0 {
        Multiset::empty()
    } else {
        response_of(workers, kind, n - 1).add(samples(workers[n - 1].by_kind@[kind].response))
    }
}

/// The calls of a kind that the first `n` workers have completed.
pub open spec fn completed_of(workers: Seq<WorkerStats>, kind: int, n: int) -> nat
    decreases n,
{
    if n <= 0 {
        0
    } else {
        completed_of(workers, kind, n - 1) + workers[n - 1].by_kind@[kind].completed as nat
    }
}

/// The keys of a kind that the first `n` workers have served.
pub open spec fn keys_of(workers: Seq<WorkerStats>, kind: int, n: int) -> nat
    decreases n,
{
    if n <= 0 {
        0
    } else {
        keys_of(workers, kind, n - 1) + workers[n - 1].by_kind@[kind].keys as nat
    }
}

/// The failed calls of the first `n` workers.
pub open spec fn errors_of(workers: Seq<WorkerStats>, n: int) -> nat
    decreases n,
{
    if n <= 0 {
        0
    } else {
        errors_of(workers, n - 1) + workers[n - 1].errors as nat
    }
}

/// The statistics of a kind are those of the first `n` workers together.
pub open spec fn is_sum(k: KindStats, workers: Seq<WorkerStats>, kind: int, n: int) -> bool {
    &&& k.completed == completed_of(workers, kind, n)
    &&& k.keys == keys_of(workers, kind, n)
    &&& samples(k.service) == service_of(workers, kind, n)
    &&& samples(k.response) == response_of(workers, kind, n)
}

/// The sums stay within 64 bits.
pub open spec fn sums_fit(workers: Seq<WorkerStats>) -> bool {
    &&& errors_of(workers, workers.len() as int) <= u64::MAX
    &&& forall|k: int|
        0 <= k < KIND_COUNT ==> #[trigger] completed_of(workers, k, workers.len() as int)
            <= u64::MAX && keys_of(workers, k, workers.len() as int) <= u64::MAX
}

proof fn lemma_sums_grow(workers: Seq<WorkerStats>, kind: int, n: int, m: int)
    requires
        n <= m,
    ensures
        completed_of(workers, kind, n) <= completed_of(workers, kind, m),
        keys_of(workers, kind, n) <= keys_of(workers, kind, m),
        errors_of(workers, n) <= errors_of(workers, m),
    decreases m - n,
{
    if n < m {
        lemma_sums_grow(workers, kind, n, m - 1);
    }
}

/// Merges the statistics of all workers, kind by kind; the second result is the number of failed
/// calls.
pub fn merge_workers(workers: &Vec<WorkerStats>) -> (r: (Vec<KindStats>, u64))
    requires
        forall|i: int| 0 <= i < workers@.len() ==> (#[trigger] workers@[i]).wf(),
        sums_fit(workers@),
    ensures
        r.0@.len() == KIND_COUNT,
        forall|k: int|
            0 <= k < KIND_COUNT ==> (#[trigger] r.0@[k]).wf() && is_sum(
                r.0@[k],
                workers@,
                k,
                workers@.len() as int,
            ),
        r.1 == errors_of(workers@, workers@.len() as int),
{
    let mut merged = new_kinds();
    let mut errors: u64 = 0;
    let mut w: usize = 0;
    while w < workers.len()
        invariant
            forall|i: int| 0 <= i < workers@.len() ==> (#[trigger] workers@[i]).wf(),
            sums_fit(workers@),
            w <= workers@.len(),
            merged@.len() == KIND_COUNT,
            forall|k: int|
                0 <= k < KIND_COUNT ==> (#[trigger] merged@[k]).wf() && is_sum(
                    merged@[k],
                    workers@,
                    k,
                    w as int,
                ),
            errors == errors_of(workers@, w as int),
        decreases workers@.len() - w,
    {
        assert(workers@[w as int].wf());
        let mut k: usize = 0;
        while k < KIND_COUNT
            invariant
                sums_fit(workers@),
                w < workers@.len(),
                workers@[w as int].wf(),
                k <= KIND_COUNT,
                merged@.len() == KIND_COUNT,
                forall|j: int|
                    0 <= j < k ==> (#[trigger] merged@[j]).wf() && is_sum(
                        merged@[j],
                        workers@,
                        j,
                        w + 1,
                    ),
                forall|j: int|
                    k <= j < KIND_COUNT ==> (#[trigger] merged@[j]).wf() && is_sum(
                        merged@[j],
                        workers@,
                        j,
                        w as int,
                    ),
            decreases KIND_COUNT - k,
        {
            proof {
                lemma_sums_grow(workers@, k as int, w + 1, workers@.len() as int);
                assert(completed_of(workers@, k as int, workers@.len() as int) <= u64::MAX);
                assert(merged@[k as int].wf());
                assert(workers@[w as int].by_kind@[k as int].wf());
            }
            let ghost was = merged@;
            workers[w].by_kind[k].merge_into(&mut merged[k]);
            proof {
                assert forall|j: int| 0 <= j < k + 1 implies (#[trigger] merged@[j]).wf() && is_sum(
                    merged@[j],
                    workers@,
                    j,
                    w + 1,
                ) by {
                    if j < k {
                        assert(merged@[j] == was[j]);
                    }
                }
                assert forall|j: int| k + 1 <= j < KIND_COUNT implies (
                #[trigger] merged@[j]).wf() && is_sum(merged@[j], workers@, j, w as int) by {
                    assert(merged@[j] == was[j]);
                }
            }
            k = k + 1;
        }
        proof {
            lemma_sums_grow(workers@, 0, w + 1, workers@.len() as int);
        }
        errors = errors + workers[w].errors;
        w = w + 1;
    }
    (merged, errors)
}

/// The calls of the first `n` kinds.
pub open spec fn all_completed(kinds: Seq<KindStats>, n: int) -> nat
    decreases n,
{
    if n <= 0 {
        0
    } else {
        all_completed(kinds, n - 1) + kinds[n - 1].completed as nat
    }
}

/// The keys of the first `n` kinds.
pub open spec fn all_keys(kinds: Seq<KindStats>, n: int) -> nat
    decreases n,
{
    if n <= 0 {
        0
    } else {
        all_keys(kinds, n - 1) + kinds[n - 1].keys as nat
    }
}

/// The service latencies of the first `n` kinds.
pub open spec fn all_service(kinds: Seq<KindStats>, n: int) -> Multiset<nat>
    decreases n,
{
    if n <= 0 {
        Multiset::empty()
    } else {
        all_service(kinds, n - 1).add(samples(kinds[n - 1].service))
    }
}

/// The response latencies of the first `n` kinds.
pub open spec fn all_response(kinds: Seq<KindStats>, n: int) -> Multiset<nat>
    decreases n,
{
    if n <= 0 {
        Multiset::empty()
    } else {
        all_response(kinds, n - 1).add(samples(kinds[n - 1].response))
    }
}

proof fn lemma_all_grow(kinds: Seq<KindStats>, n: int, m: int)
    requires
        n <= m,
    ensures
        all_completed(kinds, n) <= all_completed(kinds, m),
        all_keys(kinds, n) <= all_keys(kinds, m),
    decreases m - n,
{
    if n < m {
        lemma_all_grow(kinds, n, m - 1);
    }
}

/// The statistics over all kinds.
pub fn overall(kinds: &Vec<KindStats>) -> (r: KindStats)
    requires
        forall|i: int| 0 <= i < kinds@.len() ==> (#[trigger] kinds@[i]).wf(),
        all_completed(kinds@, kinds@.len() as int) <= u64::MAX,
        all_keys(kinds@, kinds@.len() as int) <= u64::MAX,
    ensures
        r.wf(),
        r.completed == all_completed(kinds@, kinds@.len() as int),
        r.keys == all_keys(kinds@, kinds@.len() as int),
        samples(r.service) == all_service(kinds@, kinds@.len() as int),
        samples(r.response) == all_response(kinds@, kinds@.len() as int),
{
    let mut sum = KindStats::new();
    let mut i: usize = 0;
    while i < kinds.len()
        invariant
            forall|j: int| 0 <= j < kinds@.len() ==> (#[trigger] kinds@[j]).wf(),
            all_completed(kinds@, kinds@.len() as int) <= u64::MAX,
            all_keys(kinds@, kinds@.len() as int) <= u64::MAX,
            i <= kinds@.len(),
            sum.wf(),
            sum.completed == all_completed(kinds@, i as int),
            sum.keys == all_keys(kinds@, i as int),
            samples(sum.service) == all_service(kinds@, i as int),
            samples(sum.response) == all_response(kinds@, i as int),
        decreases kinds@.len() - i,
    {
        proof {
            lemma_all_grow(kinds@, i + 1, kinds@.len() as int);
            assert(kinds@[i as int].wf());
        }
        kinds[i].merge_into(&mut sum);
        i = i + 1;
    }
    sum
}

/// The kinds that saw traffic, in the order of their places.
pub open spec fn seen(kinds: Seq<KindStats>, n: int) -> Seq<int>
    decreases n,
{
    if n <= 0 {
        seq![]
    } else if kinds[n - 1].completed > 0 {
        seen(kinds, n - 1).push(n - 1)
    } else {
        seen(kinds, n - 1)
    }
}

/// The kinds that saw traffic: a report has one entry for each of them.
pub fn kinds_seen(kinds: &Vec<KindStats>) -> (r: Vec<OpKind>)
    requires
        kinds@.len() == KIND_COUNT,
    ensures
        r@.map_values(|k: OpKind| k.place()) == seen(kinds@, kinds@.len() as int),
{
    let all = OpKind::all();
    let mut out: Vec<OpKind> = Vec::new();
    let mut i: usize = 0;
    while i < KIND_COUNT
        invariant
            i <= KIND_COUNT,
            kinds@.len() == KIND_COUNT,
            all@.len() == KIND_COUNT,
            forall|j: int| 0 <= j < KIND_COUNT ==> (#[trigger] all@[j]).place() == j,
            out@.map_values(|k: OpKind| k.place()) == seen(kinds@, i as int),
        decreases KIND_COUNT - i,
    {
        if kinds[i].completed > 0 {
            let kind = all[i];
            assert(all@[i as int].place() == i);
            let ghost was = out@;
            out.push(kind);
            assert(out@.map_values(|k: OpKind| k.place()) =~= was.map_values(
                |k: OpKind| k.place(),
            ).push(i as int));
        }
        i = i + 1;
    }
    out
}

/// Statistics merge associatively: what two groups of workers have recorded together is what the
/// first has and what the second has.
pub proof fn lemma_merge_groups(a: Seq<WorkerStats>, b: Seq<WorkerStats>, kind: int)
    ensures
        completed_of(a + b, kind, (a + b).len() as int) == completed_of(a, kind, a.len() as int)
            + completed_of(b, kind, b.len() as int),
        keys_of(a + b, kind, (a + b).len() as int) == keys_of(a, kind, a.len() as int) + keys_of(
            b,
            kind,
            b.len() as int,
        ),
        errors_of(a + b, (a + b).len() as int) == errors_of(a, a.len() as int) + errors_of(
            b,
            b.len() as int,
        ),
        service_of(a + b, kind, (a + b).len() as int) == service_of(a, kind, a.len() as int).add(
            service_of(b, kind, b.len() as int),
        ),
        response_of(a + b, kind, (a + b).len() as int) == response_of(a, kind, a.len() as int).add(
            response_of(b, kind, b.len() as int),
        ),
{
    lemma_merge_prefix(a, b, kind, b.len() as int);
}

proof fn lemma_merge_prefix(a: Seq<WorkerStats>, b: Seq<WorkerStats>, kind: int, n: int)
    requires
        0 <= n <= b.len(),
    ensures
        completed_of(a + b, kind, a.len() + n) == completed_of(a, kind, a.len() as int)
            + completed_of(b, kind, n),
        keys_of(a + b, kind, a.len() + n) == keys_of(a, kind, a.len() as int) + keys_of(b, kind, n),
        errors_of(a + b, a.len() + n) == errors_of(a, a.len() as int) + errors_of(b, n),
        service_of(a + b, kind, a.len() + n) == service_of(a, kind, a.len() as int).add(
            service_of(b, kind, n),
        ),
        response_of(a + b, kind, a.len() + n) == response_of(a, kind, a.len() as int).add(
            response_of(b, kind, n),
        ),
    decreases n,
{
    if n == 0 {
        lemma_sums_same(a + b, a, kind, a.len() as int);
        assert(service_of(a, kind, a.len() as int).add(Multiset::empty()) =~= service_of(
            a,
            kind,
            a.len() as int,
        ));
        assert(response_of(a, kind, a.len() as int).add(Multiset::empty()) =~= response_of(
            a,
            kind,
            a.len() as int,
        ));
    } else {
        lemma_merge_prefix(a, b, kind, n - 1);
        assert((a + b)[a.len() + n - 1] == b[n - 1]);
        assert(service_of(a + b, kind, a.len() + n) =~= service_of(a, kind, a.len() as int).add(
            service_of(b, kind, n),
        ));
        assert(response_of(a + b, kind, a.len() + n) =~= response_of(a, kind, a.len() as int).add(
            response_of(b, kind, n),
        ));
    }
}

proof fn lemma_sums_same(x: Seq<WorkerStats>, y: Seq<WorkerStats>, kind: int, n: int)
    requires
        forall|i: int| 0 <= i < n ==> x[i] == y[i],
    ensures
        completed_of(x, kind, n) == completed_of(y, kind, n),
        keys_of(x, kind, n) == keys_of(y, kind, n),
        errors_of(x, n) == errors_of(y, n),
        service_of(x, kind, n) == service_of(y, kind, n),
        response_of(x, kind, n) == response_of(y, kind, n),
    decreases n,
{
    if n > 0 {
        lemma_sums_same(x, y, kind, n - 1);
    }
}

} // verus!
