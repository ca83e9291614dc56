//! Query log: counters, and the bounded queue of detailed events.
//!
//! Counters are always kept. Detailed events are collected only when the configuration asks for
//! them; an event that finds the queue full is dropped and counted, and nobody waits.

pub mod api;
pub mod calendar;
pub mod dispatch;
pub mod gzip;
pub mod history;
pub mod ring;
pub mod segments;
pub mod worker;

use crate::clock::{
    clock_reading, is_reading, micros_of_time, since_epoch, time_to_micros, unix_time,
};
use crate::iprange::IpAddr;
use crate::querylog::ring::{EventRing, QpsRing, StatsRing};
use crate::stats::bumped;
use std::collections::VecDeque;
use std::time::SystemTime;
use vstd::prelude::*;

verus! {

/// One answered query.
pub struct QueryLogEvent {
    pub seq: u64,
    /// Microseconds since the Unix epoch.
    pub unix_micros: u64,
    pub client: IpAddr,
    pub client_port: u16,
    pub qname: String,
    pub qtype: u16,
    pub rcode: u8,
    pub elapsed_us: u64,
    pub response_bytes: u32,
    /// Where the answer came from.
    pub source: &'static str,
    pub rule: Option<String>,
    pub answer_ips: Vec<IpAddr>,
}

/// An event as it is read back from a log file.
pub struct DecodedEvent {
    pub seq: u64,
    pub unix_micros: u64,
    pub client: String,
    pub client_port: u16,
    pub qname: String,
    pub qtype: u16,
    pub rcode: u8,
    pub elapsed_us: u64,
    pub response_bytes: u32,
    pub source: String,
    pub rule: Option<String>,
    pub answer_ips: Vec<String>,
}

/// Microseconds since the Unix epoch.
pub fn unix_micros_now() -> (r: u64)
    ensures
        exists|at: SystemTime|
            is_reading(#[trigger] clock_reading(at)) && r == micros_of_time(
                since_epoch(clock_reading(at)).0,
                since_epoch(clock_reading(at)).1,
            ),
{
    let (secs, nanos) = unix_time();
    time_to_micros(secs, nanos)
}

/// Counters of the whole server. They wrap around at the end of their range.
#[derive(Clone, Copy, Debug, PartialEq, Eq, Structural)]
pub struct QueryLogCounters {
    pub queries_total: u64,
    pub queries_udp: u64,
    pub queries_tcp: u64,
    pub cache_hits: u64,
    pub upstream_ok: u64,
    pub upstream_err: u64,
    pub inflight_queued: u64,
    pub inflight_drops: u64,
    /// Failures because an upstream had too many queries in flight.
    pub upstream_inflight_drops: u64,
    /// Datagrams dropped because they were too long.
    pub udp_truncated: u64,
    /// Replies dropped because they could not be sent.
    pub udp_send_drops: u64,
    pub udp_send_errors: u64,
    /// Datagrams that the kernel dropped before they were read.
    pub udp_rx_overflow: u64,
    /// Highest fill of a receive buffer in this second, in percent.
    pub udp_rmem_pct_acc: u32,
    /// Highest fill of a receive buffer in the last whole second.
    pub udp_rmem_pct: u32,
    /// Longest receive latency in this second, in microseconds.
    pub udp_recv_lat_us_acc: u32,
    /// Longest receive latency in the last whole second.
    pub udp_recv_lat_us: u32,
    pub rtt_sum_us: u64,
    pub rtt_count: u64,
    pub singleflight_hits: u64,
    pub hedged_queries: u64,
    pub filtered: u64,
    pub local_responses: u64,
    pub events_enqueued: u64,
    pub events_processed: u64,
    pub events_dropped_full: u64,
    pub events_dropped_closed: u64,
    pub queue_high_watermark: u64,
    pub ring_evictions: u64,
    pub file_write_errors: u64,
}

impl QueryLogCounters {
    pub open spec fn zero() -> QueryLogCounters {
        QueryLogCounters {
            queries_total: 0,
            queries_udp: 0,
            queries_tcp: 0,
            cache_hits: 0,
            upstream_ok: 0,
            upstream_err: 0,
            inflight_queued: 0,
            inflight_drops: 0,
            upstream_inflight_drops: 0,
            udp_truncated: 0,
            udp_send_drops: 0,
            udp_send_errors: 0,
            udp_rx_overflow: 0,
            udp_rmem_pct_acc: 0,
            udp_rmem_pct: 0,
            udp_recv_lat_us_acc: 0,
            udp_recv_lat_us: 0,
            rtt_sum_us: 0,
            rtt_count: 0,
            singleflight_hits: 0,
            hedged_queries: 0,
            filtered: 0,
            local_responses: 0,
            events_enqueued: 0,
            events_processed: 0,
            events_dropped_full: 0,
            events_dropped_closed: 0,
            queue_high_watermark: 0,
            ring_evictions: 0,
            file_write_errors: 0,
        }
    }

    /// All counters at zero.
    pub fn new() -> (r: Self)
        ensures
            r == QueryLogCounters::zero(),
    {
        QueryLogCounters {
            queries_total: 0,
            queries_udp: 0,
            queries_tcp: 0,
            cache_hits: 0,
            upstream_ok: 0,
            upstream_err: 0,
            inflight_queued: 0,
            inflight_drops: 0,
            upstream_inflight_drops: 0,
            udp_truncated: 0,
            udp_send_drops: 0,
            udp_send_errors: 0,
            udp_rx_overflow: 0,
            udp_rmem_pct_acc: 0,
            udp_rmem_pct: 0,
            udp_recv_lat_us_acc: 0,
            udp_recv_lat_us: 0,
            rtt_sum_us: 0,
            rtt_count: 0,
            singleflight_hits: 0,
            hedged_queries: 0,
            filtered: 0,
            local_responses: 0,
            events_enqueued: 0,
            events_processed: 0,
            events_dropped_full: 0,
            events_dropped_closed: 0,
            queue_high_watermark: 0,
            ring_evictions: 0,
            file_write_errors: 0,
        }
    }
}

/// The bounded queue between the query path and the log worker.
pub struct EventQueue {
    pub events: VecDeque<QueryLogEvent>,
    pub capacity: usize,
    /// The worker is gone.
    pub closed: bool,
}

/// What the query path holds of the log.
pub struct QueryLogHandle {
    pub counters: QueryLogCounters,
    pub seq: u64,
    pub queue: Option<EventQueue>,
    pub answer_ips: bool,
}

pub open spec fn max_u64(a: u64, b: u64) -> u64 {
    if a >= b {
        a
    } else {
        b
    }
}

/// What offering an event does to the log: without a queue nothing happens; an event that finds no
/// place is counted; any other takes the next number and its place behind the others. `fits` says
/// which events may be built of a number.
pub open spec fn offered(
    before: QueryLogHandle,
    after: QueryLogHandle,
    fits: spec_fn(u64, QueryLogEvent) -> bool,
) -> bool {
    match before.queue {
        None => after == before,
        Some(q) => {
            let queue = after.queue->0;
            &&& after.queue is Some
            &&& after.answer_ips == before.answer_ips
            &&& queue.capacity == q.capacity
            &&& queue.closed == q.closed
            &&& if q.closed {
                &&& queue.events@ == q.events@
                &&& after.seq == before.seq
                &&& after.counters == (QueryLogCounters {
                    events_dropped_closed: bumped(before.counters.events_dropped_closed, 1),
                    ..before.counters
                })
            } else if q.events@.len() >= q.capacity {
                &&& queue.events@ == q.events@
                &&& after.seq == before.seq
                &&& after.counters == (QueryLogCounters {
                    events_dropped_full: bumped(before.counters.events_dropped_full, 1),
                    ..before.counters
                })
            } else {
                &&& queue.events@.len() == q.events@.len() + 1
                &&& queue.events@.drop_last() == q.events@
                &&& fits(before.seq, queue.events@.last())
                &&& after.seq == bumped(before.seq, 1)
                &&& after.counters == (QueryLogCounters {
                    events_enqueued: bumped(before.counters.events_enqueued, 1),
                    queue_high_watermark: max_u64(
                        before.counters.queue_high_watermark,
                        (q.events@.len() + 1) as u64,
                    ),
                    ..before.counters
                })
            }
        },
    }
}

impl QueryLogHandle {
    /// The queue holds no more than it has room for.
    pub open spec fn wf(self) -> bool {
        match self.queue {
            Some(q) => q.events@.len() <= q.capacity,
            None => true,
        }
    }

    /// The events in the queue, oldest first.
    pub open spec fn queued(self) -> Seq<QueryLogEvent> {
        match self.queue {
            Some(q) => q.events@,
            None => Seq::empty(),
        }
    }

    /// A handle that keeps counters only.
    pub fn disabled() -> (r: Self)
        ensures
            r.counters == QueryLogCounters::zero(),
            r.seq == 0,
            r.queue is None,
            !r.answer_ips,
    {
        QueryLogHandle {
            counters: QueryLogCounters::new(),
            seq: 0,
            queue: None,
            answer_ips: false,
        }
    }

    /// The next sequence number.
    pub fn next_seq(&mut self) -> (r: u64)
        ensures
            r == old(self).seq,
            *final(self) == (QueryLogHandle { seq: bumped(old(self).seq, 1), ..*old(self) }),
    {
        let seq: u64 = self.seq;
        self.seq = self.seq.wrapping_add(1);
        seq
    }

    /// Queues the event that `build` makes of the next sequence number. Nothing is built, and no
    /// number is used up, when the event would be dropped.
    pub fn try_emit_with<F: FnOnce(u64) -> QueryLogEvent>(&mut self, build: F)
        requires
            old(self).wf(),
            forall|seq: u64| #[trigger] call_requires(build, (seq,)),
        ensures
            final(self).wf(),
            offered(
                *old(self),
                *final(self),
                |seq: u64, ev: QueryLogEvent| call_ensures(build, (seq,), ev),
            ),
    {
        match self.queue.take() {
            None => {},
            Some(mut queue) => {
                if queue.closed {
                    self.counters.events_dropped_closed =
                    self.counters.events_dropped_closed.wrapping_add(1);
                } else if queue.events.len() == queue.capacity {
                    self.counters.events_dropped_full =
                    self.counters.events_dropped_full.wrapping_add(1);
                } else {
                    let seq: u64 = self.next_seq();
                    let event = build(seq);
                    let ghost before = queue.events@;
                    queue.events.push_back(event);
                    proof {
                        assert(queue.events@.drop_last() =~= before);
                    }
                    let depth: u64 = queue.events.len() as u64;
                    if depth > self.counters.queue_high_watermark {
                        self.counters.queue_high_watermark = depth;
                    }
                    self.counters.events_enqueued = self.counters.events_enqueued.wrapping_add(1);
                }
                self.queue = Some(queue);
            },
        }
    }

    /// Whether detailed events are collected.
    pub fn collecting(&self) -> (r: bool)
        ensures
            r == (self.queue is Some),
    {
        self.queue.is_some()
    }

    /// Whether events carry the addresses of the answer.
    pub fn collect_answer_ips(&self) -> (r: bool)
        ensures
            r == self.answer_ips,
    {
        self.answer_ips
    }

    /// Events in the queue.
    pub fn queue_depth(&self) -> (r: usize)
        ensures
            r == (match self.queue {
                Some(q) => q.events@.len(),
                None => 0,
            }),
    {
        match &self.queue {
            Some(q) => q.events.len(),
            None => 0,
        }
    }

    /// Takes up to `max` events off the queue, oldest first.
    pub fn take_events(&mut self, max: usize) -> (r: Vec<QueryLogEvent>)
        requires
            old(self).wf(),
        ensures
            final(self).wf(),
            final(self).counters == old(self).counters,
            final(self).seq == old(self).seq,
            final(self).answer_ips == old(self).answer_ips,
            match old(self).queue {
                None => r@.len() == 0 && final(self).queue is None,
                Some(q) => {
                    let n = if max <= q.events@.len() {
                        max as int
                    } else {
                        q.events@.len() as int
                    };
                    &&& r@ == q.events@.take(n)
                    &&& final(self).queue is Some
                    &&& final(self).queue->0.events@ == q.events@.skip(n)
                    &&& final(self).queue->0.capacity == q.capacity
                    &&& final(self).queue->0.closed == q.closed
                },
            },
    {
        let mut out: Vec<QueryLogEvent> = Vec::new();
        match self.queue.take() {
            None => {},
            Some(mut queue) => {
                let ghost all = queue.events@;
                let ghost room = queue.capacity;
                let ghost closed = queue.closed;
                proof {
                    assert(all.skip(0) =~= all);
                    assert(out@ =~= all.take(0));
                }
                while out.len() < max && queue.events.len() > 0
                    invariant
                        out@.len() <= max,
                        out@.len() <= all.len(),
                        all.len() <= room,
                        out@ == all.take(out@.len() as int),
                        queue.events@ == all.skip(out@.len() as int),
                        queue.capacity == room,
                        queue.closed == closed,
                    decreases queue.events@.len(),
                {
                    let ghost k = out@.len() as int;
                    match queue.events.pop_front() {
                        Some(ev) => {
                            out.push(ev);
                            proof {
                                assert(out@ =~= all.take(k + 1));
                                assert(queue.events@ =~= all.skip(k + 1));
                            }
                        },
                        None => {},
                    }
                }
                self.queue = Some(queue);
            },
        }
        out
    }
}

/// What is logged and kept.
pub struct QueryLogConfig {
    pub enabled: bool,
    /// Events kept in memory; zero for none.
    pub memory: usize,
    /// Room in the event queue.
    pub channel: usize,
    pub answer_ips: bool,
    pub file: Option<QueryLogFileConfig>,
}

/// How events are written to files.
pub struct QueryLogFileConfig {
    pub dir: Vec<u8>,
    /// Size at which a segment is closed, in MiB.
    pub max_mb: u64,
    /// Closed segments kept.
    pub max_segments: usize,
    /// Events written at once.
    pub batch_size: usize,
    pub flush_interval_ms: u64,
    /// Age at which closed segments are removed, in days.
    pub retention_days: Option<u32>,
    /// Compress closed segments.
    pub compress: bool,
}

/// What the log worker starts with.
pub struct WorkerState {
    pub ring: EventRing,
    pub file_cfg: Option<QueryLogFileConfig>,
}

/// Smallest room in the event queue.
pub const MIN_CHANNEL: usize = 64;

/// Events are collected: the log is on, and keeps them in memory or in files.
pub open spec fn collects(cfg: QueryLogConfig) -> bool {
    cfg.enabled && (cfg.memory > 0 || cfg.file is Some)
}

/// Room in the event queue.
pub open spec fn queue_room(cfg: QueryLogConfig) -> usize {
    if cfg.channel >= MIN_CHANNEL {
        cfg.channel
    } else {
        MIN_CHANNEL
    }
}

/// Sets up the log. Without collection there is neither a queue nor a worker. The last part of the
/// result is the shutdown flag, not yet raised.
pub fn build(cfg: QueryLogConfig) -> (r: (
    QueryLogHandle,
    Option<WorkerState>,
    QpsRing,
    StatsRing,
    bool,
))
    ensures
        r.0.wf(),
        r.0.counters == QueryLogCounters::zero(),
        r.0.seq == 0,
        r.2@ == Seq::<u64>::empty(),
        r.3@ == Seq::<crate::querylog::ring::StatsSample>::empty(),
        !r.4,
        if collects(cfg) {
            &&& r.0.queue is Some
            &&& r.0.queue->0.events@.len() == 0
            &&& !r.0.queue->0.closed
            &&& r.0.queue->0.capacity == queue_room(cfg)
            &&& r.0.answer_ips == cfg.answer_ips
            &&& r.1 is Some
            &&& r.1->0.ring.wf()
            &&& r.1->0.ring.limit() == cfg.memory
            &&& r.1->0.ring@.len() == 0
            &&& r.1->0.file_cfg == cfg.file
        } else {
            r.0.queue is None && !r.0.answer_ips && r.1 is None
        },
{
    let qps_ring = QpsRing::new();
    let stats_ring = StatsRing::new();
    let collect = cfg.enabled && (cfg.memory > 0 || cfg.file.is_some());
    if !collect {
        return (QueryLogHandle::disabled(), None, qps_ring, stats_ring, false);
    }
    let capacity: usize = if cfg.channel >= MIN_CHANNEL {
        cfg.channel
    } else {
        MIN_CHANNEL
    };
    let handle = QueryLogHandle {
        counters: QueryLogCounters::new(),
        seq: 0,
        queue: Some(EventQueue { events: VecDeque::new(), capacity, closed: false }),
        answer_ips: cfg.answer_ips,
    };
    let worker = WorkerState { ring: EventRing::new(cfg.memory), file_cfg: cfg.file };
    (handle, Some(worker), qps_ring, stats_ring, false)
}

/// An event that is offered to a log with a queue is kept or counted as dropped, once: exactly one
/// of the three counters moves, and a number is used up only by an event that is kept. The queue
/// keeps to its room, and what was in it stays in front.
pub proof fn law_offered_event_is_kept_or_counted(
    before: QueryLogHandle,
    after: QueryLogHandle,
    fits: spec_fn(u64, QueryLogEvent) -> bool,
)
    requires
        before.wf(),
        offered(before, after, fits),
        before.queue is Some,
        before.counters.events_enqueued < u64::MAX,
        before.counters.events_dropped_full < u64::MAX,
        before.counters.events_dropped_closed < u64::MAX,
        before.seq < u64::MAX,
    ensures
        after.wf(),
        after.queue is Some,
        after.counters.events_enqueued + after.counters.events_dropped_full
            + after.counters.events_dropped_closed == before.counters.events_enqueued
            + before.counters.events_dropped_full + before.counters.events_dropped_closed + 1,
        after.seq - before.seq == after.counters.events_enqueued - before.counters.events_enqueued,
        after.queued().len() - before.queued().len() == after.counters.events_enqueued
            - before.counters.events_enqueued,
        before.queued().is_prefix_of(after.queued()),
        after.counters.events_enqueued > before.counters.events_enqueued <==> !before.queue->0.closed
            && before.queued().len() < before.queue->0.capacity,
        after.counters.events_enqueued > before.counters.events_enqueued ==> fits(
            before.seq,
            after.queued().last(),
        ) && after.counters.queue_high_watermark >= after.queued().len(),
        after.counters.events_dropped_closed > before.counters.events_dropped_closed
            <==> before.queue->0.closed,
{
    let q = before.queued();
    let r = after.queued();
    if r.len() == q.len() + 1 {
        assert(r.drop_last() == q);
        assert forall|i: int| 0 <= i < q.len() implies q[i] == r[i] by {
            assert(r.drop_last()[i] == r[i]);
        }
    }
}

/// Events are collected where the log is on and has somewhere to keep them, and nowhere else. The
/// queue has the room that is configured, and room for 64 events at least.
pub proof fn law_events_are_collected_where_kept(cfg: QueryLogConfig)
    ensures
        !cfg.enabled ==> !collects(cfg),
        cfg.memory == 0 && cfg.file is None ==> !collects(cfg),
        cfg.enabled && cfg.memory > 0 ==> collects(cfg),
        cfg.enabled && cfg.file is Some ==> collects(cfg),
        cfg.channel >= 64 ==> queue_room(cfg) == cfg.channel,
        cfg.channel < 64 ==> queue_room(cfg) == 64,
{
}

} // verus!
