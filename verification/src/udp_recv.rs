//! Receiving datagrams in batches: which of them are queries to process, what their control
//! messages add to the figures, and what happens to a query when all permits are taken.

use crate::config::UdpDiagnostics;
use crate::dns::{local_reply, servfail_reply, FastQueryInfo, RCODE_SERVFAIL};
use crate::querylog::QueryLogCounters;
use crate::stats::bumped;
use crate::sys::{
    control_from, nanos_between, no_control, parse_control, recv_latency_us, SockAddr, Timespec,
};
use vstd::prelude::*;
use vstd::wrapping::u32_specs;

verus! {

/// Longest query taken.
pub const MAX_PKT: usize = 2048;

/// Room for the control messages of a datagram.
pub const CONTROL_LEN: usize = 128;

/// Queries of one socket that may wait for a permit.
pub const ADMISSION_QUEUE_CAP: usize = 1024;

/// Replies that may wait to be flushed together.
pub const SLOW_REPLY_CAP: usize = 1024;

/// A datagram as it was received.
pub struct Datagram {
    /// Where it came from, where that could be told.
    pub peer: Option<SockAddr>,
    /// Its bytes; `None` when it was too long.
    pub payload: Option<Vec<u8>>,
    pub control: Vec<u8>,
}

/// Figures of a batch of datagrams.
#[derive(Clone, Copy, Debug, PartialEq, Eq, Structural)]
pub struct DrainStats {
    /// Datagrams to process.
    pub packets: usize,
    /// Datagrams that were too long.
    pub truncated: usize,
    /// The latest count of dropped datagrams.
    pub rx_overflow: Option<u32>,
    /// The longest time from receipt to here.
    pub recv_lat_us: u32,
}

pub open spec fn no_stats() -> DrainStats {
    DrainStats { packets: 0, truncated: 0, rx_overflow: None, recv_lat_us: 0 }
}

impl Default for DrainStats {
    fn default() -> (r: Self)
        ensures
            r == no_stats(),
    {
        DrainStats { packets: 0, truncated: 0, rx_overflow: None, recv_lat_us: 0 }
    }
}

/// Room for control messages at this level of diagnostics.
pub fn control_len(diagnostics: UdpDiagnostics) -> (r: usize)
    ensures
        r == (if diagnostics.level() >= UdpDiagnostics::Basic.level() {
            CONTROL_LEN
        } else {
            0
        }),
{
    if diagnostics.at_least(UdpDiagnostics::Basic) {
        CONTROL_LEN
    } else {
        0
    }
}

/// Microseconds from one time to a later one, as far as they fit in 32 bits.
pub open spec fn latency_of(ts: Timespec, now: Timespec) -> u32 {
    let us = nanos_between(ts, now) / 1000;
    if nanos_between(ts, now) <= 0 {
        0
    } else if us > u32::MAX {
        u32::MAX
    } else {
        us as u32
    }
}

/// The figures with the control messages of one more datagram.
pub open spec fn with_control(s: DrainStats, control: Seq<u8>, now: Timespec) -> DrainStats {
    let info = control_from(control, 0, no_control());
    DrainStats {
        rx_overflow: if info.rxq_overflow is Some {
            info.rxq_overflow
        } else {
            s.rx_overflow
        },
        recv_lat_us: match info.timestamp {
            Some(ts) => if latency_of(ts, now) > s.recv_lat_us {
                latency_of(ts, now)
            } else {
                s.recv_lat_us
            },
            None => s.recv_lat_us,
        },
        ..s
    }
}

/// Takes in the control messages of a datagram.
pub fn fold_control(stats: &mut DrainStats, control: &[u8], now: &Timespec)
    ensures
        *final(stats) == with_control(*old(stats), control@, *now),
{
    let info = parse_control(control);
    if info.rxq_overflow.is_some() {
        stats.rx_overflow = info.rxq_overflow;
    }
    if let Some(ts) = info.timestamp {
        let us: u32 = recv_latency_us(now, &ts);
        if us > stats.recv_lat_us {
            stats.recv_lat_us = us;
        }
    }
}

/// A datagram that is processed: it came from somewhere, was not too long, and is not empty.
pub open spec fn is_processed(d: Datagram) -> bool {
    d.peer is Some && match d.payload {
        Some(b) => b@.len() > 0,
        None => false,
    }
}

/// The figures with one more datagram.
pub open spec fn with_datagram(
    s: DrainStats,
    d: Datagram,
    diagnostics: UdpDiagnostics,
    now: Timespec,
) -> DrainStats {
    let c = if diagnostics.level() >= UdpDiagnostics::Basic.level() {
        with_control(s, d.control@, now)
    } else {
        s
    };
    if is_processed(d) {
        DrainStats { packets: (c.packets + 1) as usize, ..c }
    } else if d.peer is Some && d.payload is None {
        DrainStats { truncated: (c.truncated + 1) as usize, ..c }
    } else {
        c
    }
}

/// Figures of the datagrams of a batch.
pub open spec fn batch_stats(
    batch: Seq<Datagram>,
    diagnostics: UdpDiagnostics,
    now: Timespec,
) -> DrainStats
    decreases batch.len(),
{
    if batch.len() == 0 {
        no_stats()
    } else {
        with_datagram(
            batch_stats(batch.drop_last(), diagnostics, now),
            batch.last(),
            diagnostics,
            now,
        )
    }
}

/// Positions of the datagrams that are processed.
pub open spec fn processed(batch: Seq<Datagram>) -> Seq<usize>
    decreases batch.len(),
{
    if batch.len() == 0 {
        Seq::empty()
    } else if is_processed(batch.last()) {
        processed(batch.drop_last()).push((batch.len() - 1) as usize)
    } else {
        processed(batch.drop_last())
    }
}

/// Looks through a batch: its figures, and the positions of the datagrams to process.
pub fn process_batch(batch: &Vec<Datagram>, diagnostics: UdpDiagnostics, now: &Timespec) -> (r: (
    DrainStats,
    Vec<usize>,
))
    ensures
        r.0 == batch_stats(batch@, diagnostics, *now),
        r.1@ == processed(batch@),
{
    let mut stats = DrainStats::default();
    let mut wanted: Vec<usize> = Vec::new();
    let mut i: usize = 0;
    proof {
        assert(batch@.take(0).len() == 0);
    }
    while i < batch.len()
        invariant
            i <= batch@.len(),
            stats == batch_stats(batch@.take(i as int), diagnostics, *now),
            wanted@ == processed(batch@.take(i as int)),
            stats.packets <= i,
            stats.truncated <= i,
        decreases batch@.len() - i,
    {
        let d = &batch[i];
        proof {
            assert(batch@.take(i + 1).drop_last() =~= batch@.take(i as int));
            assert(batch@.take(i + 1).last() == *d);
        }
        if diagnostics.at_least(UdpDiagnostics::Basic) {
            fold_control(&mut stats, d.control.as_slice(), now);
        }
        if d.peer.is_some() {
            match &d.payload {
                Some(b) => {
                    if b.len() > 0 {
                        stats.packets = stats.packets + 1;
                        wanted.push(i);
                    }
                },
                None => {
                    stats.truncated = stats.truncated + 1;
                },
            }
        }
        i += 1;
    }
    proof {
        assert(batch@.take(batch@.len() as int) =~= batch@);
    }
    (stats, wanted)
}

/// Counters with the figures of a batch. `last` is the count of dropped datagrams at the batch
/// before.
pub open spec fn with_stats(c: QueryLogCounters, s: DrainStats, last: u32) -> QueryLogCounters {
    QueryLogCounters {
        udp_truncated: bumped(c.udp_truncated, s.truncated as u64),
        udp_rx_overflow: match s.rx_overflow {
            Some(cur) => bumped(c.udp_rx_overflow, u32_specs::wrapping_sub(cur, last) as u64),
            None => c.udp_rx_overflow,
        },
        udp_recv_lat_us_acc: if s.recv_lat_us > c.udp_recv_lat_us_acc {
            s.recv_lat_us
        } else {
            c.udp_recv_lat_us_acc
        },
        ..c
    }
}

/// Adds the figures of a batch to the counters. Returns the count of dropped datagrams to compare
/// the next one with.
pub fn record_drain(counters: &mut QueryLogCounters, stats: &DrainStats, last: u32) -> (r: u32)
    ensures
        *final(counters) == with_stats(*old(counters), *stats, last),
        r == (match stats.rx_overflow {
            Some(cur) => cur,
            None => last,
        }),
{
    counters.udp_truncated = counters.udp_truncated.wrapping_add(stats.truncated as u64);
    if stats.recv_lat_us > counters.udp_recv_lat_us_acc {
        counters.udp_recv_lat_us_acc = stats.recv_lat_us;
    }
    match stats.rx_overflow {
        Some(cur) => {
            let delta: u32 = cur.wrapping_sub(last);
            counters.udp_rx_overflow = counters.udp_rx_overflow.wrapping_add(delta as u64);
            cur
        },
        None => last,
    }
}

/// Takes in the fill of a receive buffer: the greatest of this second counts.
pub fn record_rmem(counters: &mut QueryLogCounters, pct: u32)
    ensures
        *final(counters) == (QueryLogCounters {
            udp_rmem_pct_acc: if pct > old(counters).udp_rmem_pct_acc {
                pct
            } else {
                old(counters).udp_rmem_pct_acc
            },
            ..*old(counters)
        }),
{
    if pct > counters.udp_rmem_pct_acc {
        counters.udp_rmem_pct_acc = pct;
    }
}

/// A query that found no permit waits.
pub open spec fn may_wait(queue_ms: u64, queued: bool) -> bool {
    queue_ms > 0 && queued
}

/// Counters after a query found no permit.
pub open spec fn counted_no_permit(
    c: QueryLogCounters,
    queue_ms: u64,
    queued: bool,
) -> QueryLogCounters {
    if may_wait(queue_ms, queued) {
        QueryLogCounters { inflight_queued: bumped(c.inflight_queued, 1), ..c }
    } else {
        QueryLogCounters { inflight_drops: bumped(c.inflight_drops, 1), ..c }
    }
}

/// A query found no permit. Where waiting is configured and the waiting queue took it, it waits;
/// otherwise it is rejected. Returns the rejection to send.
pub fn on_no_permit(
    packet: &[u8],
    info: &FastQueryInfo,
    queue_ms: u64,
    queued: bool,
    counters: &mut QueryLogCounters,
) -> (r: Option<Vec<u8>>)
    ensures
        *final(counters) == counted_no_permit(*old(counters), queue_ms, queued),
        if may_wait(queue_ms, queued) {
            r is None
        } else {
            match r {
                Some(m) => crate::dns::question_fits(packet@, info.question_end as int) && m@
                    == local_reply(packet@, info.question_end as int, RCODE_SERVFAIL, None),
                None => !crate::dns::question_fits(packet@, info.question_end as int),
            }
        },
{
    if queue_ms > 0 && queued {
        counters.inflight_queued = counters.inflight_queued.wrapping_add(1);
        return None;
    }
    counters.inflight_drops = counters.inflight_drops.wrapping_add(1);
    servfail_reply(packet, info.question_end)
}

/// Whether another batch is read at once: a full one may have left more behind.
pub fn read_again(received: usize, capacity: usize) -> (r: bool)
    ensures
        r == (received >= capacity),
{
    received >= capacity
}

// What a batch comes to.

/// The datagrams that are processed are those with a sender and at least one byte, each once and in
/// their order.
pub proof fn law_datagrams_are_processed(batch: Seq<Datagram>, i: int)
    requires
        batch.len() <= usize::MAX,
        0 <= i < batch.len(),
    ensures
        processed(batch).contains(i as usize) <==> batch[i].peer is Some && batch[i].payload is Some
            && batch[i].payload->0@.len() > 0,
        forall|k: int|
            0 <= k < processed(batch).len() ==> (#[trigger] processed(batch)[k]) < batch.len(),
        forall|a: int, b: int|
            0 <= a < b < processed(batch).len() ==> #[trigger] processed(batch)[a]
                < #[trigger] processed(batch)[b],
    decreases batch.len(),
{
    let front = batch.drop_last();
    let p = processed(batch);
    let before = processed(front);
    if front.len() > 0 {
        law_datagrams_are_processed(front, if i < front.len() { i } else { 0 });
    }
    assert forall|k: int| 0 <= k < p.len() implies (#[trigger] p[k]) < batch.len() by {
        if k < before.len() {
            assert(p[k] == before[k]);
        }
    }
    assert forall|a: int, b: int| 0 <= a < b < p.len() implies #[trigger] p[a] < #[trigger] p[b] by {
        assert(p[a] == before[a]);
        if b < before.len() {
            assert(p[b] == before[b]);
        }
    }
    if i < front.len() {
        assert(front[i] == batch[i]);
        if before.contains(i as usize) {
            let k = choose|k: int| 0 <= k < before.len() && before[k] == i as usize;
            assert(p[k] == i as usize);
        }
        if p.contains(i as usize) {
            let k = choose|k: int| 0 <= k < p.len() && p[k] == i as usize;
            if k < before.len() {
                assert(before[k] == i as usize);
            }
        }
    } else {
        if is_processed(batch[i]) {
            assert(p[before.len() as int] == i as usize);
        } else if p.contains(i as usize) {
            let k = choose|k: int| 0 <= k < p.len() && p[k] == i as usize;
            assert(before[k] < front.len());
        }
    }
}

/// The figures of a batch: as many datagrams as are processed, and those that came from somewhere
/// but were too long. Without diagnostics nothing else is measured.
pub proof fn law_batch_is_counted(batch: Seq<Datagram>, now: Timespec, diagnostics: UdpDiagnostics)
    requires
        batch.len() <= usize::MAX,
    ensures
        batch_stats(batch, diagnostics, now).packets == processed(batch).len(),
        batch_stats(batch, diagnostics, now).truncated == batch.filter(
            |d: Datagram| d.peer is Some && d.payload is None,
        ).len(),
        processed(batch).len() <= batch.len(),
        diagnostics is Off ==> batch_stats(batch, diagnostics, now).rx_overflow is None
            && batch_stats(batch, diagnostics, now).recv_lat_us == 0,
    decreases batch.len(),
{
    reveal(Seq::filter);
    if batch.len() > 0 {
        law_batch_is_counted(batch.drop_last(), now, diagnostics);
        batch.drop_last().lemma_filter_len(|d: Datagram| d.peer is Some && d.payload is None);
    }
}

/// The latency is the time that passed in whole microseconds; none where the receipt lies ahead,
/// and the greatest number where it does not fit.
pub proof fn law_latency_is_time_passed(ts: Timespec, now: Timespec)
    ensures
        ({
            let passed = (now.secs - ts.secs) * 1_000_000_000 + now.nanos - ts.nanos;
            let lat = latency_of(ts, now);
            &&& passed <= 0 ==> lat == 0
            &&& 0 < passed < 4_294_967_296_000 ==> lat * 1000 <= passed < lat * 1000 + 1000
            &&& passed >= 4_294_967_296_000 ==> lat == 4_294_967_295
        }),
{
}

/// The counters take over what a batch says: too long datagrams, the datagrams dropped since the
/// batch before, and the greatest latency.
pub proof fn law_batch_moves_its_counters(c: QueryLogCounters, s: DrainStats, last: u32)
    requires
        c.udp_truncated + s.truncated <= u64::MAX,
        c.udp_rx_overflow + u32::MAX <= u64::MAX,
    ensures
        with_stats(c, s, last).udp_truncated == c.udp_truncated + s.truncated,
        s.rx_overflow is None ==> with_stats(c, s, last).udp_rx_overflow == c.udp_rx_overflow,
        s.rx_overflow matches Some(cur) && cur >= last ==> with_stats(c, s, last).udp_rx_overflow
            == c.udp_rx_overflow + (s.rx_overflow->0 - last),
        with_stats(c, s, last).udp_recv_lat_us_acc >= s.recv_lat_us,
        with_stats(c, s, last).udp_recv_lat_us_acc >= c.udp_recv_lat_us_acc,
        with_stats(c, s, last).udp_recv_lat_us_acc == s.recv_lat_us || with_stats(
            c,
            s,
            last,
        ).udp_recv_lat_us_acc == c.udp_recv_lat_us_acc,
{
}

/// A query without a permit waits only where waiting is configured and there is a place for it, and
/// is counted once: as waiting or as dropped.
pub proof fn law_query_without_permit_counts_once(
    c: QueryLogCounters,
    queue_ms: u64,
    queued: bool,
)
    requires
        c.inflight_queued < u64::MAX,
        c.inflight_drops < u64::MAX,
    ensures
        queue_ms == 0 || !queued ==> !may_wait(queue_ms, queued),
        queue_ms > 0 && queued ==> may_wait(queue_ms, queued),
        ({
            let after = counted_no_permit(c, queue_ms, queued);
            &&& after.inflight_queued + after.inflight_drops == c.inflight_queued
                + c.inflight_drops + 1
            &&& after.inflight_drops == c.inflight_drops <==> may_wait(queue_ms, queued)
        }),
{
}

} // verus!
