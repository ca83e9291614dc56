//! The log worker: it takes events off the queue in batches, and samples the counters once a
//! second.

use crate::querylog::ring::{
    newest, EventRing, QpsRing, StatsRing, StatsSample, QPS_RING_LEN, STATS_RING_LEN,
    STATS_SAMPLE_SECS,
};
use crate::querylog::{QueryLogCounters, QueryLogEvent, QueryLogFileConfig, QueryLogHandle};
use crate::stats::bumped;
use std::sync::Arc;
use vstd::prelude::*;
verus! {

// Settings.

/// Batch size without a file.
pub const DEFAULT_BATCH: usize = 256;

/// Time between two flushes without a file, in milliseconds.
pub const DEFAULT_FLUSH_MS: u64 = 500;

/// Least time between two flushes.
pub const MIN_FLUSH_MS: u64 = 50;

/// The batch size and the time between two flushes that a configuration leads to.
pub open spec fn settings_of(file_cfg: Option<QueryLogFileConfig>) -> (usize, u64) {
    let batch = match file_cfg {
        Some(c) => c.batch_size,
        None => DEFAULT_BATCH,
    };
    let flush = match file_cfg {
        Some(c) => c.flush_interval_ms,
        None => DEFAULT_FLUSH_MS,
    };
    (
        if batch >= 1 {
            batch
        } else {
            1
        },
        if flush >= MIN_FLUSH_MS {
            flush
        } else {
            MIN_FLUSH_MS
        },
    )
}

/// Events taken off the queue at once, and the time between two flushes in milliseconds.
pub fn worker_settings(file_cfg: &Option<QueryLogFileConfig>) -> (r: (usize, u64))
    ensures
        r == settings_of(*file_cfg),
{
    let (batch, flush): (usize, u64) = match file_cfg {
        Some(c) => (c.batch_size, c.flush_interval_ms),
        None => (DEFAULT_BATCH, DEFAULT_FLUSH_MS),
    };
    (
        if batch >= 1 {
            batch
        } else {
            1
        },
        if flush >= MIN_FLUSH_MS {
            flush
        } else {
            MIN_FLUSH_MS
        },
    )
}

// Batches.

/// The counters after `n` events were worked off, of which the ring lost `evicted`.
pub open spec fn counted_batch(c: QueryLogCounters, n: u64, evicted: u64) -> QueryLogCounters {
    QueryLogCounters {
        events_processed: bumped(c.events_processed, n),
        ring_evictions: bumped(c.ring_evictions, evicted),
        ..c
    }
}

/// Events that a ring loses when `n` are added to the `held` ones.
pub open spec fn lost(limit: nat, held: nat, n: nat) -> nat {
    if limit == 0 || held + n <= limit {
        0
    } else {
        (held + n - limit) as nat
    }
}

/// The shared events are the given ones.
pub open spec fn shares(shared: Seq<Arc<QueryLogEvent>>, events: Seq<QueryLogEvent>) -> bool {
    &&& shared.len() == events.len()
    &&& forall|i: int| 0 <= i < events.len() ==> *(#[trigger] shared[i]) == events[i]
}

/// Works off a batch: counts it and puts it into the ring. Returns the events for the file.
pub fn process_batch(
    batch: Vec<QueryLogEvent>,
    ring: &mut EventRing,
    counters: &mut QueryLogCounters,
) -> (r: Vec<Arc<QueryLogEvent>>)
    requires
        old(ring).wf(),
    ensures
        final(ring).wf(),
        final(ring).limit() == old(ring).limit(),
        shares(r@, batch@),
        final(ring)@ == newest(old(ring)@ + r@, old(ring).limit()),
        *final(counters) == counted_batch(
            *old(counters),
            batch@.len() as u64,
            lost(old(ring).limit(), old(ring)@.len(), batch@.len()) as u64,
        ),
{
    let ghost all = batch@;
    let n: u64 = batch.len() as u64;
    let mut rest = batch;
    let mut shared: Vec<Arc<QueryLogEvent>> = Vec::new();
    let mut reversed: Vec<QueryLogEvent> = Vec::new();
    while rest.len() > 0
        invariant
            rest@.len() + reversed@.len() == all.len(),
            rest@ == all.take(rest@.len() as int),
            forall|i: int|
                0 <= i < reversed@.len() ==> (#[trigger] reversed@[i]) == all[all.len() - 1 - i],
        decreases rest@.len(),
    {
        let ghost k = rest@.len() as int;
        match rest.pop() {
            Some(ev) => {
                reversed.push(ev);
                proof {
                    assert(rest@ =~= all.take(k - 1));
                }
            },
            None => {},
        }
    }
    while reversed.len() > 0
        invariant
            shared@.len() + reversed@.len() == all.len(),
            forall|i: int|
                0 <= i < reversed@.len() ==> (#[trigger] reversed@[i]) == all[all.len() - 1 - i],
            forall|i: int| 0 <= i < shared@.len() ==> *(#[trigger] shared@[i]) == all[i],
        decreases reversed@.len(),
    {
        match reversed.pop() {
            Some(ev) => {
                shared.push(Arc::new(ev));
            },
            None => {},
        }
    }
    counters.events_processed = counters.events_processed.wrapping_add(n);
    let evicted: u64 = ring.push_batch(&shared);
    counters.ring_evictions = counters.ring_evictions.wrapping_add(evicted);
    shared
}

proof fn lemma_bumped_twice(c: u64, a: u64, b: u64)
    requires
        a + b <= u64::MAX,
    ensures
        bumped(bumped(c, a), b) == bumped(c, (a + b) as u64),
{
}

proof fn lemma_newest_twice<T>(a: Seq<T>, b: Seq<T>, c: Seq<T>, n: nat)
    ensures
        newest(newest(a + b, n) + c, n) == newest(a + (b + c), n),
{
    let x = newest(a + b, n);
    assert(newest(x + c, n) =~= newest(a + (b + c), n));
}

/// The events of batches, one batch behind the other.
pub open spec fn joined(batches: Seq<Vec<Arc<QueryLogEvent>>>) -> Seq<Arc<QueryLogEvent>>
    decreases batches.len(),
{
    if batches.len() == 0 {
        Seq::empty()
    } else {
        joined(batches.drop_last()) + batches.last()@
    }
}

/// Every batch but the last is full, and the last is not empty.
pub open spec fn batched(batches: Seq<Vec<Arc<QueryLogEvent>>>, batch_size: usize) -> bool {
    &&& forall|i: int|
        0 <= i < batches.len() - 1 ==> (#[trigger] batches[i])@.len() == batch_size
    &&& batches.len() > 0 ==> 0 < batches.last()@.len() <= batch_size
}

/// Works off everything in the queue, as at shutdown, in batches of at most `batch_size`. Returns
/// the batches, each to be written to the file on its own.
pub fn drain_events(handle: &mut QueryLogHandle, ring: &mut EventRing, batch_size: usize) -> (r: Vec<
    Vec<Arc<QueryLogEvent>>,
>)
    requires
        old(handle).wf(),
        old(ring).wf(),
        batch_size > 0,
    ensures
        final(handle).wf(),
        final(ring).wf(),
        final(ring).limit() == old(ring).limit(),
        batched(r@, batch_size),
        ({
            let queued = old(handle).queued();
            &&& shares(joined(r@), queued)
            &&& final(ring)@ == newest(old(ring)@ + joined(r@), old(ring).limit())
            &&& final(handle).counters == counted_batch(
                old(handle).counters,
                queued.len() as u64,
                lost(old(ring).limit(), old(ring)@.len(), queued.len()) as u64,
            )
        }),
        final(handle).seq == old(handle).seq,
        final(handle).answer_ips == old(handle).answer_ips,
        match old(handle).queue {
            Some(q) => final(handle).queue is Some && final(handle).queue->0.events@.len() == 0
                && final(handle).queue->0.capacity == q.capacity && final(handle).queue->0.closed
                == q.closed,
            None => final(handle).queue is None,
        },
{
    let ghost queued = handle.queued();
    let ghost start = ring@;
    let ghost limit = ring.limit();
    let ghost counters0 = handle.counters;
    let mut out: Vec<Vec<Arc<QueryLogEvent>>> = Vec::new();
    proof {
        assert(queued.skip(0) =~= queued);
        assert(start + joined(out@) =~= start);
    }
    while handle.queue_depth() > 0
        invariant
            handle.wf(),
            ring.wf(),
            batch_size > 0,
            ring.limit() == limit,
            limit == old(ring).limit(),
            start == old(ring)@,
            start.len() <= limit,
            counters0 == old(handle).counters,
            queued == old(handle).queued(),
            queued.len() <= usize::MAX,
            joined(out@).len() <= queued.len(),
            batched(out@, batch_size),
            out@.len() > 0 && joined(out@).len() < queued.len() ==> out@.last()@.len()
                == batch_size,
            shares(joined(out@), queued.take(joined(out@).len() as int)),
            ring@ == newest(start + joined(out@), limit),
            handle.counters == counted_batch(
                counters0,
                joined(out@).len() as u64,
                lost(limit, start.len(), joined(out@).len()) as u64,
            ),
            handle.seq == old(handle).seq,
            handle.answer_ips == old(handle).answer_ips,
            match old(handle).queue {
                Some(q) => handle.queue is Some && handle.queue->0.events@ == queued.skip(
                    joined(out@).len() as int,
                ) && handle.queue->0.capacity == q.capacity && handle.queue->0.closed == q.closed,
                None => handle.queue is None,
            },
        decreases queued.len() - joined(out@).len(),
    {
        let ghost seen = joined(out@);
        let ghost done = seen.len() as int;
        let ghost earlier = out@;
        let ghost ring0 = ring@;
        let batch = handle.take_events(batch_size);
        let ghost part = batch@;
        proof {
            assert(part =~= queued.subrange(done, done + part.len()));
            assert(handle.queue->0.events@ =~= queued.skip(done + part.len()));
        }
        let mut counters = handle.counters;
        let shared = process_batch(batch, ring, &mut counters);
        handle.counters = counters;
        let ghost added = shared@;
        out.push(shared);
        let ghost now = joined(out@);
        proof {
            assert(out@.drop_last() =~= earlier);
            assert(now =~= seen + added);
            lemma_newest_twice(start, seen, added, limit);
            assert(shares(now, queued.take(now.len() as int))) by {
                assert forall|i: int| 0 <= i < now.len() implies *(#[trigger] now[i])
                    == queued.take(now.len() as int)[i] by {
                    if i < done {
                        assert(*seen[i] == queued.take(done)[i]);
                    } else {
                        assert(*added[i - done] == part[i - done]);
                    }
                }
            }
            let l1 = lost(limit, start.len(), seen.len());
            let l2 = lost(limit, ring0.len(), added.len());
            let l = lost(limit, start.len(), now.len());
            assert(l == l1 + l2);
            lemma_bumped_twice(counters0.events_processed, seen.len() as u64, added.len() as u64);
            lemma_bumped_twice(counters0.ring_evictions, l1 as u64, l2 as u64);
        }
    }
    proof {
        assert(queued.take(queued.len() as int) =~= queued);
        if old(handle).queue is Some {
            assert(joined(out@).len() == queued.len());
        }
    }
    out
}

// Sampling.

/// The sampler's memory: the counters at the last second, and the sums since the last sample.
pub struct Sampler {
    pub prev: QueryLogCounters,
    pub folded: StatsSample,
    /// Seconds in the sums.
    pub seconds: usize,
}

/// The increase of a counter; none when it wrapped around.
pub open spec fn increase(now: u64, before: u64) -> u64 {
    if now >= before {
        (now - before) as u64
    } else {
        0
    }
}

/// The increases of the counters over a second, dated `unix_secs`.
pub open spec fn increases(now: QueryLogCounters, before: QueryLogCounters, unix_secs: u64) -> StatsSample {
    StatsSample {
        unix_secs,
        queries: increase(now.queries_total, before.queries_total),
        cache_hits: increase(now.cache_hits, before.cache_hits),
        upstream_ok: increase(now.upstream_ok, before.upstream_ok),
        upstream_err: increase(now.upstream_err, before.upstream_err),
        filtered: increase(now.filtered, before.filtered),
    }
}

/// Sums with one more second.
pub open spec fn folded_with(sum: StatsSample, sec: StatsSample) -> StatsSample {
    StatsSample {
        unix_secs: sec.unix_secs,
        queries: bumped(sum.queries, sec.queries),
        cache_hits: bumped(sum.cache_hits, sec.cache_hits),
        upstream_ok: bumped(sum.upstream_ok, sec.upstream_ok),
        upstream_err: bumped(sum.upstream_err, sec.upstream_err),
        filtered: bumped(sum.filtered, sec.filtered),
    }
}

/// The second behind so many ends a sampling period.
pub open spec fn period_ends(seconds: usize) -> bool {
    seconds + 1 == STATS_SAMPLE_SECS
}

/// The sums and seconds that are carried on behind a second, after which the sums are `sum`.
pub open spec fn carried_on(seconds: usize, sum: StatsSample) -> (StatsSample, int) {
    if period_ends(seconds) {
        (crate::querylog::ring::zero_sample(), 0)
    } else {
        (sum, seconds + 1)
    }
}

/// Counters after the peaks of the last second were published.
pub open spec fn published(c: QueryLogCounters) -> QueryLogCounters {
    QueryLogCounters {
        udp_rmem_pct: c.udp_rmem_pct_acc,
        udp_rmem_pct_acc: 0,
        udp_recv_lat_us: c.udp_recv_lat_us_acc,
        udp_recv_lat_us_acc: 0,
        ..c
    }
}

fn increase_of(now: u64, before: u64) -> (r: u64)
    ensures
        r == increase(now, before),
{
    if now >= before {
        now - before
    } else {
        0
    }
}

impl Sampler {
    pub open spec fn wf(self) -> bool {
        self.seconds < STATS_SAMPLE_SECS
    }

    /// A sampler that starts from these counters.
    pub fn new(counters: &QueryLogCounters) -> (r: Self)
        ensures
            r.wf(),
            r.prev == *counters,
            r.folded == crate::querylog::ring::zero_sample(),
            r.seconds == 0,
    {
        Sampler { prev: *counters, folded: StatsSample::default(), seconds: 0 }
    }

    /// A second has passed: records the queries of that second, publishes its peaks, and once a
    /// minute records the sums of that minute.
    pub fn tick(
        &mut self,
        counters: &mut QueryLogCounters,
        now_secs: u64,
        qps_ring: &mut QpsRing,
        stats_ring: &mut StatsRing,
    )
        requires
            old(self).wf(),
            old(qps_ring).wf(),
            old(stats_ring).wf(),
        ensures
            final(self).wf(),
            final(qps_ring).wf(),
            final(stats_ring).wf(),
            *final(counters) == published(*old(counters)),
            final(self).prev == *old(counters),
            ({
                let sec = increases(*old(counters), old(self).prev, now_secs);
                let sum = folded_with(old(self).folded, sec);
                &&& final(qps_ring)@ == newest(old(qps_ring)@.push(sec.queries), QPS_RING_LEN as nat)
                &&& final(stats_ring)@ == (if period_ends(old(self).seconds) {
                    newest(old(stats_ring)@.push(sum), STATS_RING_LEN as nat)
                } else {
                    old(stats_ring)@
                })
                &&& (final(self).folded, final(self).seconds as int) == carried_on(
                    old(self).seconds,
                    sum,
                )
            }),
    {
        let sec = StatsSample {
            unix_secs: now_secs,
            queries: increase_of(counters.queries_total, self.prev.queries_total),
            cache_hits: increase_of(counters.cache_hits, self.prev.cache_hits),
            upstream_ok: increase_of(counters.upstream_ok, self.prev.upstream_ok),
            upstream_err: increase_of(counters.upstream_err, self.prev.upstream_err),
            filtered: increase_of(counters.filtered, self.prev.filtered),
        };
        qps_ring.push(sec.queries);
        let sum = StatsSample {
            unix_secs: now_secs,
            queries: self.folded.queries.wrapping_add(sec.queries),
            cache_hits: self.folded.cache_hits.wrapping_add(sec.cache_hits),
            upstream_ok: self.folded.upstream_ok.wrapping_add(sec.upstream_ok),
            upstream_err: self.folded.upstream_err.wrapping_add(sec.upstream_err),
            filtered: self.folded.filtered.wrapping_add(sec.filtered),
        };
        if self.seconds + 1 == STATS_SAMPLE_SECS {
            stats_ring.push(sum);
            self.folded = StatsSample::default();
            self.seconds = 0;
        } else {
            self.folded = sum;
            self.seconds = self.seconds + 1;
        }
        self.prev = *counters;
        counters.udp_rmem_pct = counters.udp_rmem_pct_acc;
        counters.udp_rmem_pct_acc = 0;
        counters.udp_recv_lat_us = counters.udp_recv_lat_us_acc;
        counters.udp_recv_lat_us_acc = 0;
    }
}

// What work leaves behind.

/// A ring loses exactly what does not fit: what it held and got is what it holds afterwards and
/// what it lost. A ring without room holds nothing and loses nothing.
pub proof fn law_ring_loses_what_does_not_fit<T>(held: Seq<T>, got: Seq<T>, limit: nat)
    requires
        held.len() <= limit,
    ensures
        limit > 0 ==> newest(held + got, limit).len() + lost(limit, held.len(), got.len())
            == held.len() + got.len(),
        newest(held + got, limit).len() <= limit,
        limit == 0 ==> lost(limit, held.len(), got.len()) == 0,
        held.len() + got.len() <= limit ==> newest(held + got, limit) == held + got && lost(
            limit,
            held.len(),
            got.len(),
        ) == 0,
{
}

/// The increase of a counter is what was added to it; a counter that wrapped around shows none.
/// Each figure of a second comes from the counter of its own.
pub proof fn law_seconds_show_increases(
    now: QueryLogCounters,
    before: QueryLogCounters,
    unix_secs: u64,
    c: u64,
    n: u64,
)
    requires
        c + n <= u64::MAX,
    ensures
        increase((c + n) as u64, c) == n,
        n > 0 ==> increase(c, (c + n) as u64) == 0,
        increases(now, before, unix_secs).unix_secs == unix_secs,
        now.queries_total >= before.queries_total ==> increases(now, before, unix_secs).queries
            == now.queries_total - before.queries_total,
        now.cache_hits >= before.cache_hits ==> increases(now, before, unix_secs).cache_hits
            == now.cache_hits - before.cache_hits,
        now.upstream_ok >= before.upstream_ok ==> increases(now, before, unix_secs).upstream_ok
            == now.upstream_ok - before.upstream_ok,
        now.upstream_err >= before.upstream_err ==> increases(now, before, unix_secs).upstream_err
            == now.upstream_err - before.upstream_err,
        now.filtered >= before.filtered ==> increases(now, before, unix_secs).filtered
            == now.filtered - before.filtered,
{
}

/// Two seconds in a row show together what one period of both would: no query is counted twice and
/// none is lost.
pub proof fn law_seconds_add_up(
    first: QueryLogCounters,
    second: QueryLogCounters,
    third: QueryLogCounters,
    then: u64,
    now: u64,
)
    requires
        first.queries_total <= second.queries_total <= third.queries_total,
        first.cache_hits <= second.cache_hits <= third.cache_hits,
        first.upstream_ok <= second.upstream_ok <= third.upstream_ok,
        first.upstream_err <= second.upstream_err <= third.upstream_err,
        first.filtered <= second.filtered <= third.filtered,
    ensures
        folded_with(increases(second, first, then), increases(third, second, now)) == increases(
            third,
            first,
            now,
        ),
{
}

/// Publishing shows the peaks of the second and starts them over; everything else stays.
pub proof fn law_peaks_start_over(c: QueryLogCounters)
    ensures
        published(c).udp_rmem_pct == c.udp_rmem_pct_acc,
        published(c).udp_recv_lat_us == c.udp_recv_lat_us_acc,
        published(c).udp_rmem_pct_acc == 0,
        published(c).udp_recv_lat_us_acc == 0,
        published(c).queries_total == c.queries_total,
        published(published(c)).udp_rmem_pct == 0,
        published(published(c)).udp_recv_lat_us == 0,
{
}

/// The worker does as its file is configured, in batches of at least one event and with no less than
/// fifty milliseconds between two flushes; without a file, in batches of 256 twice a second.
pub proof fn law_worker_keeps_to_its_settings(c: QueryLogFileConfig)
    ensures
        settings_of(None) == (256usize, 500u64),
        c.batch_size >= 1 ==> settings_of(Some(c)).0 == c.batch_size,
        c.batch_size == 0 ==> settings_of(Some(c)).0 == 1,
        c.flush_interval_ms >= 50 ==> settings_of(Some(c)).1 == c.flush_interval_ms,
        c.flush_interval_ms < 50 ==> settings_of(Some(c)).1 == 50,
{
}

/// Sums are recorded once a minute: with the sixtieth second, after which they start over at zero.
/// Before that they are carried on with one second more.
pub proof fn law_sums_are_recorded_every_minute(seconds: usize, sum: StatsSample)
    requires
        seconds < 60,
    ensures
        period_ends(seconds) <==> seconds == 59,
        seconds < 59 ==> carried_on(seconds, sum) == (sum, seconds + 1),
        seconds == 59 ==> carried_on(seconds, sum).1 == 0 && carried_on(seconds, sum).0.queries == 0
            && carried_on(seconds, sum).0.cache_hits == 0 && carried_on(
            seconds,
            sum,
        ).0.upstream_ok == 0 && carried_on(seconds, sum).0.upstream_err == 0 && carried_on(
            seconds,
            sum,
        ).0.filtered == 0,
{
}

} // verus!
