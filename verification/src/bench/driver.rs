//! What the driver of a benchmark decides: schedules, shares and outcomes.
//!
//! In the open loop, when a worker falls behind, the next scheduled time is *not*
//! shifted forward — so response time is measured from the *intended* send time,
//! not the *actual* one. This is coordinated-omission correction, and without it
//! tail latencies under load are systematically understated.
use vstd::prelude::*;

use crate::bench::metrics::WorkerStats;
use crate::bench::workload::OpKind;

verus! {

/// A time span in whole microseconds, at least one.
pub open spec fn clamped_us(micros: u128) -> u64 {
    if micros == 0 {
        1
    } else {
        (micros % 0x1_0000_0000_0000_0000) as u64
    }
}

/// The microseconds of a time span. Sub-microsecond ops still need a positive bucket; clamp to 1µs.
pub fn us(micros: u128) -> (r: u64)
    ensures
        r == clamped_us(micros),
{
    if micros == 0 {
        1
    } else {
        (micros % 0x1_0000_0000_0000_0000) as u64
    }
}

/// The seed of a worker.
pub fn worker_seed(seed: u64, worker: u64) -> (r: u64)
    ensures
        r == (seed + worker) % 0x1_0000_0000_0000_0000,
{
    seed.wrapping_add(worker)
}

/// The first key index of a worker's share.
pub open spec fn share_start(worker: int, n: int, concurrency: int) -> int {
    worker * n / concurrency
}

/// The share of the keys that a worker populates: from the first index up to, not with, the second.
pub fn populate_share(worker: u64, n: u64, concurrency: u64) -> (r: (u64, u64))
    requires
        concurrency > 0,
        worker < concurrency,
    ensures
        r.0 == share_start(worker as int, n as int, concurrency as int),
        r.1 == share_start(worker + 1, n as int, concurrency as int),
        r.0 <= r.1 <= n,
{
    proof {
        let (w, k, c) = (worker as int, n as int, concurrency as int);
        lemma_share_bounds(w, k, c);
        lemma_share_bounds(w + 1, k, c);
        lemma_share_grows(w, k, c);
        assert(w * k <= 0xffff_ffff_ffff_ffff * 0xffff_ffff_ffff_ffff) by (nonlinear_arith)
            requires
                0 <= w <= 0xffff_ffff_ffff_ffff,
                0 <= k <= 0xffff_ffff_ffff_ffff,
        ;
        assert((w + 1) * k <= 0xffff_ffff_ffff_ffff * 0xffff_ffff_ffff_ffff) by (nonlinear_arith)
            requires
                0 <= w + 1 <= 0xffff_ffff_ffff_ffff,
                0 <= k <= 0xffff_ffff_ffff_ffff,
        ;
        assert(0 <= w * k) by (nonlinear_arith)
            requires
                0 <= w,
                0 <= k,
        ;
        assert(0 <= (w + 1) * k) by (nonlinear_arith)
            requires
                0 <= w,
                0 <= k,
        ;
    }
    let start: u128 = worker as u128 * n as u128 / concurrency as u128;
    let end: u128 = (worker as u128 + 1) * n as u128 / concurrency as u128;
    (start as u64, end as u64)
}

proof fn lemma_share_bounds(w: int, n: int, c: int)
    requires
        0 <= w <= c,
        c > 0,
        n >= 0,
    ensures
        0 <= share_start(w, n, c) <= n,
{
    assert(0 <= w * n <= c * n) by (nonlinear_arith)
        requires
            0 <= w <= c,
            n >= 0,
    ;
    assert(0 <= (w * n) / c <= n) by (nonlinear_arith)
        requires
            0 <= w * n <= c * n,
            c > 0,
            n >= 0,
    ;
}

proof fn lemma_share_grows(w: int, n: int, c: int)
    requires
        c > 0,
        n >= 0,
        w >= 0,
    ensures
        share_start(w, n, c) <= share_start(w + 1, n, c),
{
    assert(w * n <= (w + 1) * n) by (nonlinear_arith)
        requires
            n >= 0,
    ;
    vstd::arithmetic::div_mod::lemma_div_is_ordered(w * n, (w + 1) * n, c);
}

/// The shares of the workers cover the keys: the first begins at the first key, the last ends
/// behind the last one, and each begins where the one before it ends.
pub proof fn lemma_shares_cover(n: int, concurrency: int)
    requires
        concurrency > 0,
        n >= 0,
    ensures
        share_start(0, n, concurrency) == 0,
        share_start(concurrency, n, concurrency) == n,
{
    assert(0 * n == 0) by (nonlinear_arith);
    assert(0int / concurrency == 0) by (nonlinear_arith)
        requires
            concurrency > 0,
    ;
    assert((concurrency * n) / concurrency == n) by (nonlinear_arith)
        requires
            concurrency > 0,
    ;
}

/// Every key is in the share of a worker.
pub proof fn lemma_every_key_has_a_worker(n: int, concurrency: int, key: int) -> (worker: int)
    requires
        concurrency > 0,
        0 <= key < n,
    ensures
        0 <= worker < concurrency,
        share_start(worker, n, concurrency) <= key < share_start(worker + 1, n, concurrency),
{
    lemma_shares_cover(n, concurrency);
    lemma_find_share(n, concurrency, key, concurrency)
}

proof fn lemma_find_share(n: int, c: int, key: int, upto: int) -> (w: int)
    requires
        c > 0,
        0 <= key,
        0 <= upto <= c,
        key < share_start(upto, n, c),
        share_start(0, n, c) == 0,
    ensures
        0 <= w < upto,
        share_start(w, n, c) <= key < share_start(w + 1, n, c),
    decreases upto,
{
    if upto == 0 {
        0
    } else if share_start(upto - 1, n, c) <= key {
        upto - 1
    } else {
        lemma_find_share(n, c, key, upto - 1)
    }
}

/// Takes in the outcome of one operation. `service` is the time that it took, `since_scheduled` the
/// time since it was to be sent; `None` stands for the closed loop, where there is no schedule and
/// the response time is the service time. A failed operation has no times.
pub fn execute_one(
    stats: &mut WorkerStats,
    kind: OpKind,
    keys: u64,
    service: Option<u128>,
    since_scheduled: Option<u128>,
)
    requires
        old(stats).wf(),
        old(stats).has_room(keys),
    ensures
        final(stats).wf(),
        match service {
            Some(s) => {
                let service_us = clamped_us(s);
                let response_us = match since_scheduled {
                    Some(r) => clamped_us(r),
                    None => service_us,
                };
                final(stats).recorded(*old(stats), kind, service_us, response_us, keys)
            },
            None => final(stats).failed(*old(stats)),
        },
{
    match service {
        Some(s) => {
            let service_us: u64 = us(s);
            let response_us: u64 = match since_scheduled {
                Some(r) => us(r),
                None => service_us,
            };
            stats.record(kind, service_us, response_us, keys);
        },
        None => {
            stats.record_error();
        },
    }
}

} // verus!
