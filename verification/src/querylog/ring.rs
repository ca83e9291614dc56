//! Rings of recent events, of queries per second and of periodic totals.

use crate::querylog::QueryLogEvent;
use crate::text::{contains_bytes, occurs, occurs_at};
use std::collections::VecDeque;
use std::sync::Arc;
use crate::outside::share;
use vstd::prelude::*;
use vstd::string::StringSliceAdditionalSpecFns;
use vstd::utf8::encode_utf8;

verus! {

/// The last `n` elements, or all when there are fewer.
pub open spec fn newest<T>(s: Seq<T>, n: nat) -> Seq<T> {
    if s.len() <= n {
        s
    } else {
        s.skip(s.len() - n)
    }
}

// Events.

/// Recent events, up to a fixed number.
pub struct EventRing {
    buf: VecDeque<Arc<QueryLogEvent>>,
    capacity: usize,
}

/// An event passes the bounds and the substring of a query.
pub open spec fn event_passes(
    ev: QueryLogEvent,
    before_seq: Option<u64>,
    after_seq: Option<u64>,
    filter: Option<Seq<u8>>,
) -> bool {
    &&& before_seq is Some ==> ev.seq < before_seq->0
    &&& after_seq is Some ==> ev.seq > after_seq->0
    &&& filter is Some ==> filter->0.len() == 0 || occurs(encode_utf8(ev.qname@), filter->0)
}

/// The newest `limit` events that pass, newest first.
pub open spec fn passing(
    events: Seq<Arc<QueryLogEvent>>,
    before_seq: Option<u64>,
    after_seq: Option<u64>,
    filter: Option<Seq<u8>>,
    limit: nat,
) -> Seq<Arc<QueryLogEvent>>
    decreases events.len(),
{
    if events.len() == 0 || limit == 0 {
        Seq::empty()
    } else if event_passes(*events.last(), before_seq, after_seq, filter) {
        seq![events.last()] + passing(
            events.drop_last(),
            before_seq,
            after_seq,
            filter,
            (limit - 1) as nat,
        )
    } else {
        passing(events.drop_last(), before_seq, after_seq, filter, limit)
    }
}

/// Bytes of an optional text.
pub open spec fn filter_bytes(filter: Option<&str>) -> Option<Seq<u8>> {
    match filter {
        Some(f) => Some(f.spec_bytes()),
        None => None,
    }
}

/// A number of events to return, at most a thousand.
pub open spec fn clamped_limit(limit: usize) -> nat {
    if limit > 1000 {
        1000
    } else {
        limit as nat
    }
}

impl View for EventRing {
    type V = Seq<Arc<QueryLogEvent>>;

    /// The events, oldest first.
    closed spec fn view(&self) -> Seq<Arc<QueryLogEvent>> {
        self.buf@
    }
}

impl EventRing {
    /// The greatest number of events kept.
    pub closed spec fn limit(self) -> nat {
        self.capacity as nat
    }

    pub open spec fn wf(self) -> bool {
        self@.len() <= self.limit()
    }

    pub fn new(capacity: usize) -> (r: Self)
        ensures
            r.wf(),
            r.limit() == capacity,
            r@ == Seq::<Arc<QueryLogEvent>>::empty(),
    {
        EventRing { buf: VecDeque::new(), capacity }
    }

    /// Appends events; the oldest leave when there are too many. Returns how many left. A ring
    /// without room keeps nothing and counts nothing.
    pub fn push_batch(&mut self, events: &Vec<Arc<QueryLogEvent>>) -> (r: u64)
        requires
            old(self).wf(),
        ensures
            final(self).wf(),
            final(self).limit() == old(self).limit(),
            final(self)@ == newest(old(self)@ + events@, old(self).limit()),
            r == (if old(self).limit() == 0 {
                0
            } else {
                old(self)@.len() + events@.len() - final(self)@.len()
            }),
    {
        if self.capacity == 0 || events.len() == 0 {
            proof {
                if self.capacity == 0 {
                    assert(self@ =~= newest(self@ + events@, 0));
                } else {
                    assert(self@ + events@ =~= self@);
                }
            }
            return 0;
        }
        let ghost start = self@;
        let mut evicted: u64 = 0;
        let mut i: usize = 0;
        proof {
            assert(start + events@.take(0) =~= start);
        }
        while i < events.len()
            invariant
                i <= events@.len(),
                self.capacity == old(self).capacity,
                self.capacity > 0,
                start == old(self)@,
                start.len() <= self.capacity,
                self.buf@.len() <= self.capacity,
                self.buf@ == newest(start + events@.take(i as int), self.capacity as nat),
                evicted + self.buf@.len() == start.len() + i,
                evicted <= i,
            decreases events@.len() - i,
        {
            let ghost so_far = start + events@.take(i as int);
            let ghost wider = start + events@.take(i + 1);
            let ghost before = self.buf@;
            proof {
                assert(wider =~= so_far.push(events@[i as int]));
            }
            if self.buf.len() >= self.capacity {
                let _oldest = self.buf.pop_front();
                evicted += 1;
            }
            self.buf.push_back(share(&events[i]));
            proof {
                assert(self.buf@ =~= newest(wider, self.capacity as nat));
            }
            i += 1;
        }
        proof {
            assert(events@.take(events@.len() as int) =~= events@);
        }
        evicted
    }

    /// The events of a batch that go to the clients of the event stream, in the order in which they
    /// are sent: all of them where the ring keeps events and a client listens, otherwise none.
    pub fn live_events(&self, events: &Vec<Arc<QueryLogEvent>>, clients: usize) -> (r: Vec<
        Arc<QueryLogEvent>,
    >)
        ensures
            r@ == (if self.limit() > 0 && clients > 0 {
                events@
            } else {
                Seq::<Arc<QueryLogEvent>>::empty()
            }),
    {
        let mut out: Vec<Arc<QueryLogEvent>> = Vec::new();
        if self.capacity == 0 || clients == 0 {
            return out;
        }
        let mut i: usize = 0;
        while i < events.len()
            invariant
                i <= events@.len(),
                out@ == events@.take(i as int),
            decreases events@.len() - i,
        {
            out.push(share(&events[i]));
            i += 1;
            proof {
                assert(out@ =~= events@.take(i as int));
            }
        }
        proof {
            assert(events@.take(i as int) =~= events@);
        }
        out
    }

    /// Up to `limit` events, newest first: those numbered below `before_seq` and above `after_seq`
    /// whose name holds `filter`. More than a thousand never come.
    pub fn query(
        &self,
        before_seq: Option<u64>,
        after_seq: Option<u64>,
        limit: usize,
        filter: Option<&str>,
    ) -> (r: Vec<Arc<QueryLogEvent>>)
        ensures
            r@ == passing(
                self@,
                before_seq,
                after_seq,
                filter_bytes(filter),
                clamped_limit(limit),
            ),
    {
        let limit: usize = if limit > 1000 {
            1000
        } else {
            limit
        };
        let ghost wanted = filter_bytes(filter);
        let ghost whole = passing(self@, before_seq, after_seq, wanted, limit as nat);
        let mut out: Vec<Arc<QueryLogEvent>> = Vec::new();
        let mut n: usize = self.buf.len();
        proof {
            assert(self.buf@.take(n as int) =~= self.buf@);
            assert(out@ + whole =~= whole);
        }
        while n > 0 && out.len() < limit
            invariant
                n <= self.buf@.len(),
                out@.len() <= limit,
                wanted == filter_bytes(filter),
                whole == passing(self.buf@, before_seq, after_seq, wanted, limit as nat),
                out@ + passing(
                    self.buf@.take(n as int),
                    before_seq,
                    after_seq,
                    wanted,
                    (limit - out@.len()) as nat,
                ) == whole,
            decreases n,
        {
            let ghost cur = self.buf@.take(n as int);
            let ghost left = (limit - out@.len()) as nat;
            proof {
                assert(cur.drop_last() =~= self.buf@.take(n - 1));
                assert(cur.last() == self.buf@[n - 1]);
            }
            let ev = &self.buf[n - 1];
            let low_ok = match before_seq {
                Some(seq) => ev.seq < seq,
                None => true,
            };
            let high_ok = match after_seq {
                Some(seq) => ev.seq > seq,
                None => true,
            };
            let text_ok = match filter {
                Some(f) => f.as_bytes().len() == 0 || contains_bytes(
                    ev.qname.as_str().as_bytes(),
                    f.as_bytes(),
                ),
                None => true,
            };
            if low_ok && high_ok && text_ok {
                let ghost out0 = out@;
                let ghost rest = passing(
                    cur.drop_last(),
                    before_seq,
                    after_seq,
                    wanted,
                    (left - 1) as nat,
                );
                out.push(share(ev));
                proof {
                    assert(out@ + rest =~= out0 + (seq![cur.last()] + rest));
                }
            }
            n -= 1;
        }
        proof {
            assert(out@ =~= whole);
        }
        out
    }

    /// Forgets all events.
    pub fn clear(&mut self)
        ensures
            final(self)@ == Seq::<Arc<QueryLogEvent>>::empty(),
            final(self).limit() == old(self).limit(),
    {
        self.buf.clear();
    }

    pub fn len(&self) -> (r: usize)
        ensures
            r == self@.len(),
    {
        self.buf.len()
    }

    pub fn is_empty(&self) -> (r: bool)
        ensures
            r == (self@.len() == 0),
    {
        self.buf.len() == 0
    }

    /// Whether the ring keeps events at all.
    pub fn enabled(&self) -> (r: bool)
        ensures
            r == (self.limit() > 0),
    {
        self.capacity > 0
    }
}

// Queries per second.

/// Seconds kept.
pub const QPS_RING_LEN: usize = 3600;

/// Query counts of the last hour, one per second.
pub struct QpsRing {
    data: VecDeque<u64>,
}

impl View for QpsRing {
    type V = Seq<u64>;

    /// The counts, oldest first.
    closed spec fn view(&self) -> Seq<u64> {
        self.data@
    }
}

impl QpsRing {
    pub open spec fn wf(self) -> bool {
        self@.len() <= QPS_RING_LEN
    }

    pub fn new() -> (r: Self)
        ensures
            r.wf(),
            r@ == Seq::<u64>::empty(),
    {
        QpsRing { data: VecDeque::new() }
    }

    /// Adds the count of one second; the oldest leaves after an hour.
    pub fn push(&mut self, count: u64)
        requires
            old(self).wf(),
        ensures
            final(self).wf(),
            final(self)@ == newest(old(self)@.push(count), QPS_RING_LEN as nat),
    {
        let ghost before = self.data@;
        if self.data.len() == QPS_RING_LEN {
            let _oldest = self.data.pop_front();
        }
        self.data.push_back(count);
        proof {
            assert(self.data@ =~= newest(before.push(count), QPS_RING_LEN as nat));
        }
    }

    /// The last `n` counts, oldest first.
    pub fn snapshot(&self, n: usize) -> (r: Vec<u64>)
        requires
            self.wf(),
        ensures
            r@ == newest(self@, n as nat),
    {
        let have: usize = self.data.len();
        let take: usize = if n < have {
            n
        } else {
            have
        };
        let start: usize = have - take;
        let mut out: Vec<u64> = Vec::new();
        let mut i: usize = start;
        while i < have
            invariant
                start <= i <= have,
                have == self.data@.len(),
                out@ == self.data@.subrange(start as int, i as int),
            decreases have - i,
        {
            out.push(self.data[i]);
            i += 1;
            proof {
                assert(out@ =~= self.data@.subrange(start as int, i as int));
            }
        }
        proof {
            assert(out@ =~= newest(self@, n as nat));
        }
        out
    }
}

impl Default for QpsRing {
    fn default() -> (r: Self)
        ensures
            r.wf(),
            r@ == Seq::<u64>::empty(),
    {
        Self::new()
    }
}

// Periodic totals.

/// Counter increments over one sampling period.
#[derive(Clone, Copy, Debug, PartialEq, Eq, Structural)]
pub struct StatsSample {
    pub unix_secs: u64,
    pub queries: u64,
    pub cache_hits: u64,
    pub upstream_ok: u64,
    pub upstream_err: u64,
    pub filtered: u64,
}

/// Length of a sampling period in seconds.
pub const STATS_SAMPLE_SECS: usize = 60;

/// Samples kept: a day.
pub const STATS_RING_LEN: usize = 1440;

pub open spec fn zero_sample() -> StatsSample {
    StatsSample {
        unix_secs: 0,
        queries: 0,
        cache_hits: 0,
        upstream_ok: 0,
        upstream_err: 0,
        filtered: 0,
    }
}

impl Default for StatsSample {
    fn default() -> (r: Self)
        ensures
            r == zero_sample(),
    {
        StatsSample {
            unix_secs: 0,
            queries: 0,
            cache_hits: 0,
            upstream_ok: 0,
            upstream_err: 0,
            filtered: 0,
        }
    }
}

/// Sums of each counter over samples.
pub ghost struct Sums {
    pub queries: nat,
    pub cache_hits: nat,
    pub upstream_ok: nat,
    pub upstream_err: nat,
    pub filtered: nat,
}

pub open spec fn sums(s: Seq<StatsSample>) -> Sums
    decreases s.len(),
{
    if s.len() == 0 {
        Sums { queries: 0, cache_hits: 0, upstream_ok: 0, upstream_err: 0, filtered: 0 }
    } else {
        let front = sums(s.drop_last());
        let last = s.last();
        Sums {
            queries: front.queries + last.queries as nat,
            cache_hits: front.cache_hits + last.cache_hits as nat,
            upstream_ok: front.upstream_ok + last.upstream_ok as nat,
            upstream_err: front.upstream_err + last.upstream_err as nat,
            filtered: front.filtered + last.filtered as nat,
        }
    }
}

/// The sums fit in 64 bits.
pub open spec fn sums_fit(s: Seq<StatsSample>) -> bool {
    let t = sums(s);
    &&& t.queries <= u64::MAX
    &&& t.cache_hits <= u64::MAX
    &&& t.upstream_ok <= u64::MAX
    &&& t.upstream_err <= u64::MAX
    &&& t.filtered <= u64::MAX
}

/// One sample that stands for several: their sums, dated `unix_secs`.
pub open spec fn total_of(s: Seq<StatsSample>, unix_secs: u64) -> StatsSample {
    let t = sums(s);
    StatsSample {
        unix_secs,
        queries: t.queries as u64,
        cache_hits: t.cache_hits as u64,
        upstream_ok: t.upstream_ok as u64,
        upstream_err: t.upstream_err as u64,
        filtered: t.filtered as u64,
    }
}

/// Date of the first sample; zero when there is none.
pub open spec fn first_date(s: Seq<StatsSample>) -> u64 {
    if s.len() == 0 {
        0
    } else {
        s[0].unix_secs
    }
}

proof fn lemma_sums_part(s: Seq<StatsSample>, a: int, b: int)
    requires
        0 <= a <= b <= s.len(),
    ensures
        sums(s.subrange(a, b)).queries <= sums(s).queries,
        sums(s.subrange(a, b)).cache_hits <= sums(s).cache_hits,
        sums(s.subrange(a, b)).upstream_ok <= sums(s).upstream_ok,
        sums(s.subrange(a, b)).upstream_err <= sums(s).upstream_err,
        sums(s.subrange(a, b)).filtered <= sums(s).filtered,
    decreases s.len(),
{
    if s.len() == 0 {
        assert(s.subrange(a, b) =~= s);
    } else if b == s.len() && a < b {
        lemma_sums_part(s.drop_last(), a, b - 1);
        assert(s.subrange(a, b).drop_last() =~= s.drop_last().subrange(a, b - 1));
        assert(s.subrange(a, b).last() == s.last());
    } else if a == b {
        assert(s.subrange(a, b).len() == 0);
    } else {
        lemma_sums_part(s.drop_last(), a, b);
        assert(s.subrange(a, b) =~= s.drop_last().subrange(a, b));
    }
}

/// Samples of the last day.
pub struct StatsRing {
    data: VecDeque<StatsSample>,
}

impl View for StatsRing {
    type V = Seq<StatsSample>;

    /// The samples, oldest first.
    closed spec fn view(&self) -> Seq<StatsSample> {
        self.data@
    }
}

/// The samples of the last `seconds`, as far as there are any.
pub open spec fn window(samples: Seq<StatsSample>, seconds: usize) -> Seq<StatsSample> {
    newest(samples, (seconds / STATS_SAMPLE_SECS) as nat)
}

/// Bounds of bucket `b` of `buckets` over `n` samples.
pub open spec fn bucket_start(b: int, n: int, buckets: int) -> int {
    b * n / buckets
}

/// The samples of bucket `b`.
pub open spec fn bucket_samples(w: Seq<StatsSample>, b: int, buckets: int) -> Seq<StatsSample> {
    w.subrange(
        bucket_start(b, w.len() as int, buckets),
        bucket_start(b + 1, w.len() as int, buckets),
    )
}

proof fn lemma_bucket_bounds(b: int, n: int, buckets: int)
    requires
        0 <= b < buckets,
        0 <= n,
    ensures
        0 <= bucket_start(b, n, buckets) <= bucket_start(b + 1, n, buckets) <= n,
        bucket_start(buckets, n, buckets) == n,
        bucket_start(0, n, buckets) == 0,
{
    assert(0 <= b * n) by (nonlinear_arith)
        requires
            0 <= b,
            0 <= n,
    ;
    assert(b * n <= (b + 1) * n) by (nonlinear_arith)
        requires
            0 <= n,
    ;
    assert((b + 1) * n <= buckets * n) by (nonlinear_arith)
        requires
            0 <= n,
            b + 1 <= buckets,
    ;
    assert(buckets * n / buckets == n) by (nonlinear_arith)
        requires
            0 < buckets,
    ;
    vstd::arithmetic::div_mod::lemma_div_is_ordered(b * n, (b + 1) * n, buckets);
    vstd::arithmetic::div_mod::lemma_div_is_ordered((b + 1) * n, buckets * n, buckets);
    vstd::arithmetic::div_mod::lemma_div_pos_is_pos(b * n, buckets);
    assert(0 * n == 0) by (nonlinear_arith);
}

impl StatsRing {
    pub open spec fn wf(self) -> bool {
        self@.len() <= STATS_RING_LEN
    }

    pub fn new() -> (r: Self)
        ensures
            r.wf(),
            r@ == Seq::<StatsSample>::empty(),
    {
        StatsRing { data: VecDeque::new() }
    }

    /// Adds a sample; the oldest leaves after a day.
    pub fn push(&mut self, snap: StatsSample)
        requires
            old(self).wf(),
        ensures
            final(self).wf(),
            final(self)@ == newest(old(self)@.push(snap), STATS_RING_LEN as nat),
    {
        let ghost before = self.data@;
        if self.data.len() == STATS_RING_LEN {
            let _oldest = self.data.pop_front();
        }
        self.data.push_back(snap);
        proof {
            assert(self.data@ =~= newest(before.push(snap), STATS_RING_LEN as nat));
        }
    }

    /// Sums over a range of samples, dated zero.
    fn total(&self, from: usize, to: usize) -> (r: StatsSample)
        requires
            from <= to <= self@.len(),
            sums_fit(self@.subrange(from as int, to as int)),
        ensures
            r == total_of(self@.subrange(from as int, to as int), 0),
    {
        let ghost whole = self@.subrange(from as int, to as int);
        let mut agg = StatsSample::default();
        let mut i: usize = from;
        while i < to
            invariant
                from <= i <= to <= self.data@.len(),
                whole == self.data@.subrange(from as int, to as int),
                sums_fit(whole),
                sums_fit(self.data@.subrange(from as int, i as int)),
                agg == total_of(self.data@.subrange(from as int, i as int), 0),
            decreases to - i,
        {
            let ghost cur = self.data@.subrange(from as int, i as int);
            let ghost next = self.data@.subrange(from as int, i + 1);
            proof {
                assert(next.drop_last() =~= cur);
                assert(next.last() == self.data@[i as int]);
                lemma_sums_part(whole, 0, i + 1 - from);
                assert(whole.subrange(0, i + 1 - from) =~= next);
            }
            let snap = self.data[i];
            agg.queries = agg.queries + snap.queries;
            agg.cache_hits = agg.cache_hits + snap.cache_hits;
            agg.upstream_ok = agg.upstream_ok + snap.upstream_ok;
            agg.upstream_err = agg.upstream_err + snap.upstream_err;
            agg.filtered = agg.filtered + snap.filtered;
            i += 1;
        }
        agg
    }

    fn window_len(&self, seconds: usize) -> (r: usize)
        requires
            self.wf(),
        ensures
            r == window(self@, seconds).len(),
            r <= self@.len(),
    {
        let wanted: usize = seconds / STATS_SAMPLE_SECS;
        if wanted < self.data.len() {
            wanted
        } else {
            self.data.len()
        }
    }

    /// Totals of the last `seconds`, and the date of the first sample among them.
    pub fn aggregate(&self, seconds: usize) -> (r: (StatsSample, u64))
        requires
            self.wf(),
            sums_fit(window(self@, seconds)),
        ensures
            r.0 == total_of(window(self@, seconds), 0),
            r.1 == first_date(window(self@, seconds)),
    {
        let take: usize = self.window_len(seconds);
        let skip: usize = self.data.len() - take;
        let ghost w = window(self@, seconds);
        proof {
            assert(w =~= self@.subrange(skip as int, self@.len() as int));
        }
        let agg = self.total(skip, self.data.len());
        let from_secs: u64 = if take > 0 {
            self.data[skip].unix_secs
        } else {
            0
        };
        (agg, from_secs)
    }

    /// The last `seconds` in `buckets` groups of equal width, oldest first. Each group is summed
    /// and dated by its first sample; a group without samples is zero.
    pub fn bucket_aggregate(&self, seconds: usize, buckets: usize) -> (r: Vec<StatsSample>)
        requires
            self.wf(),
            sums_fit(window(self@, seconds)),
            buckets > 0 ==> (buckets - 1) * window(self@, seconds).len() <= usize::MAX,
        ensures
            r@.len() == buckets,
            forall|b: int|
                0 <= b < buckets ==> #[trigger] r@[b] == total_of(
                    bucket_samples(window(self@, seconds), b, buckets as int),
                    first_date(bucket_samples(window(self@, seconds), b, buckets as int)),
                ),
    {
        let n: usize = self.window_len(seconds);
        let skip: usize = self.data.len() - n;
        let ghost w = window(self@, seconds);
        proof {
            assert(w =~= self@.subrange(skip as int, self@.len() as int));
        }
        let mut result: Vec<StatsSample> = Vec::new();
        let mut b: usize = 0;
        while b < buckets
            invariant
                b <= buckets,
                buckets > 0 ==> (buckets - 1) * n <= usize::MAX,
                n == w.len(),
                skip + n == self@.len(),
                self@.len() <= STATS_RING_LEN,
                w == self@.subrange(skip as int, self@.len() as int),
                sums_fit(w),
                self@ == self.data@,
                result@.len() == b,
                forall|c: int|
                    0 <= c < b ==> #[trigger] result@[c] == total_of(
                        bucket_samples(w, c, buckets as int),
                        first_date(bucket_samples(w, c, buckets as int)),
                    ),
            decreases buckets - b,
        {
            proof {
                lemma_bucket_bounds(b as int, n as int, buckets as int);
                assert(b * n <= (buckets - 1) * n) by (nonlinear_arith)
                    requires
                        b <= buckets - 1,
                        0 <= n,
                ;
                if b + 1 < buckets {
                    assert((b + 1) * n <= (buckets - 1) * n) by (nonlinear_arith)
                        requires
                            b + 1 <= buckets - 1,
                            0 <= n,
                    ;
                }
            }
            let start: usize = b * n / buckets;
            let end: usize = if b + 1 == buckets {
                n
            } else {
                (b + 1) * n / buckets
            };
            let ghost part = bucket_samples(w, b as int, buckets as int);
            proof {
                assert(part =~= self@.subrange(skip + start, skip + end));
                lemma_sums_part(w, start as int, end as int);
            }
            let mut agg = self.total(skip + start, skip + end);
            if start < end {
                agg.unix_secs = self.data[skip + start].unix_secs;
            }
            result.push(agg);
            b += 1;
        }
        result
    }

    /// Whether the sums over the last `seconds` fit in 64 bits.
    pub fn window_fits(&self, seconds: usize) -> (r: bool)
        requires
            self.wf(),
        ensures
            r == sums_fit(window(self@, seconds)),
    {
        let skip: usize = self.data.len() - self.window_len(seconds);
        let ghost w = window(self@, seconds);
        proof {
            assert(w =~= self@.subrange(skip as int, self@.len() as int));
        }
        let mut agg = StatsSample::default();
        let mut i: usize = skip;
        while i < self.data.len()
            invariant
                skip <= i <= self.data@.len(),
                w == window(self@, seconds),
                w == self.data@.subrange(skip as int, self.data@.len() as int),
                sums_fit(self.data@.subrange(skip as int, i as int)),
                agg == total_of(self.data@.subrange(skip as int, i as int), 0),
            decreases self.data@.len() - i,
        {
            let ghost cur = self.data@.subrange(skip as int, i as int);
            let ghost next = self.data@.subrange(skip as int, i + 1);
            proof {
                assert(next.drop_last() =~= cur);
                assert(next.last() == self.data@[i as int]);
                lemma_sums_part(w, 0, i + 1 - skip);
                assert(w.subrange(0, i + 1 - skip) =~= next);
            }
            let snap = self.data[i];
            if u64::MAX - agg.queries < snap.queries || u64::MAX - agg.cache_hits < snap.cache_hits
                || u64::MAX - agg.upstream_ok < snap.upstream_ok || u64::MAX - agg.upstream_err
                < snap.upstream_err || u64::MAX - agg.filtered < snap.filtered {
                return false;
            }
            agg.queries = agg.queries + snap.queries;
            agg.cache_hits = agg.cache_hits + snap.cache_hits;
            agg.upstream_ok = agg.upstream_ok + snap.upstream_ok;
            agg.upstream_err = agg.upstream_err + snap.upstream_err;
            agg.filtered = agg.filtered + snap.filtered;
            i += 1;
        }
        true
    }
}

impl Default for StatsRing {
    fn default() -> (r: Self)
        ensures
            r.wf(),
            r@ == Seq::<StatsSample>::empty(),
    {
        Self::new()
    }
}

/// Sums taken together.
pub open spec fn plus(a: Sums, b: Sums) -> Sums {
    Sums {
        queries: a.queries + b.queries,
        cache_hits: a.cache_hits + b.cache_hits,
        upstream_ok: a.upstream_ok + b.upstream_ok,
        upstream_err: a.upstream_err + b.upstream_err,
        filtered: a.filtered + b.filtered,
    }
}

proof fn lemma_sums_join(a: Seq<StatsSample>, b: Seq<StatsSample>)
    ensures
        sums(a + b) == plus(sums(a), sums(b)),
    decreases b.len(),
{
    if b.len() == 0 {
        assert(a + b =~= a);
    } else {
        lemma_sums_join(a, b.drop_last());
        assert((a + b).drop_last() =~= a + b.drop_last());
        assert((a + b).last() == b.last());
    }
}

/// The sums of the first `n` buckets, taken together.
pub open spec fn bucket_sums(w: Seq<StatsSample>, buckets: int, n: int) -> Sums
    decreases n,
{
    if n <= 0 {
        sums(Seq::<StatsSample>::empty())
    } else {
        plus(bucket_sums(w, buckets, n - 1), sums(bucket_samples(w, n - 1, buckets)))
    }
}

proof fn lemma_bucket_sums(w: Seq<StatsSample>, buckets: int, n: int)
    requires
        0 <= n <= buckets,
        0 < buckets,
    ensures
        bucket_sums(w, buckets, n) == sums(w.take(bucket_start(n, w.len() as int, buckets))),
        0 <= bucket_start(n, w.len() as int, buckets) <= w.len(),
    decreases n,
{
    let len = w.len() as int;
    if n == 0 {
        lemma_bucket_bounds(0, len, buckets);
        assert(w.take(0) =~= Seq::<StatsSample>::empty());
    } else {
        lemma_bucket_sums(w, buckets, n - 1);
        lemma_bucket_bounds(n - 1, len, buckets);
        let a = bucket_start(n - 1, len, buckets);
        let b = bucket_start(n, len, buckets);
        lemma_sums_join(w.take(a), w.subrange(a, b));
        assert(w.take(a) + w.subrange(a, b) =~= w.take(b));
    }
}

/// The buckets of a window cover it: no count is added twice and none is left out.
pub proof fn law_buckets_cover_window(w: Seq<StatsSample>, buckets: int)
    requires
        0 < buckets,
    ensures
        bucket_sums(w, buckets, buckets) == sums(w),
{
    lemma_bucket_sums(w, buckets, buckets);
    lemma_bucket_bounds(buckets - 1, w.len() as int, buckets);
    assert(w.take(w.len() as int) =~= w);
}

// What is read of a ring.

/// What is read of a ring are the events that pass, the newest first, as many as are wanted.
pub proof fn law_newest_passing_events_come(
    events: Seq<Arc<QueryLogEvent>>,
    before_seq: Option<u64>,
    after_seq: Option<u64>,
    filter: Option<Seq<u8>>,
    limit: nat,
)
    ensures
        ({
            let all = events.filter(
                |e: Arc<QueryLogEvent>| event_passes(*e, before_seq, after_seq, filter),
            ).reverse();
            passing(events, before_seq, after_seq, filter, limit) == (if all.len() <= limit {
                all
            } else {
                all.take(limit as int)
            })
        }),
    decreases events.len(),
{
    reveal(Seq::filter);
    let f = |e: Arc<QueryLogEvent>| event_passes(*e, before_seq, after_seq, filter);
    let all = events.filter(f).reverse();
    let got = passing(events, before_seq, after_seq, filter, limit);
    if events.len() == 0 {
        assert(all =~= Seq::empty());
    } else if limit == 0 {
        assert(got =~= Seq::empty());
        assert(all.take(0) =~= Seq::empty());
        assert(all.len() == 0 ==> all =~= Seq::empty());
    } else {
        let front = events.drop_last();
        let rest = front.filter(f).reverse();
        if f(events.last()) {
            law_newest_passing_events_come(
                front,
                before_seq,
                after_seq,
                filter,
                (limit - 1) as nat,
            );
            assert(all =~= seq![events.last()] + rest);
            if all.len() > limit {
                assert(seq![events.last()] + rest.take(limit - 1) =~= all.take(limit as int));
            }
        } else {
            law_newest_passing_events_come(front, before_seq, after_seq, filter, limit);
        }
    }
}

/// An event passes exactly when its number lies strictly between the bounds that are set and its
/// name holds the wanted text somewhere, where one is wanted.
pub proof fn law_events_pass_bounds_and_text(
    ev: QueryLogEvent,
    low: u64,
    high: u64,
    text: Seq<u8>,
    at: int,
)
    ensures
        event_passes(ev, None, None, None),
        event_passes(ev, Some(high), None, None) <==> ev.seq < high,
        event_passes(ev, None, Some(low), None) <==> ev.seq > low,
        event_passes(ev, Some(high), Some(low), None) <==> low < ev.seq < high,
        event_passes(ev, None, None, Some(Seq::empty())),
        0 <= at && at + text.len() <= encode_utf8(ev.qname@).len() && encode_utf8(
            ev.qname@,
        ).subrange(at, at + text.len()) == text ==> event_passes(ev, None, None, Some(text)),
        event_passes(ev, None, None, Some(text)) && text.len() > 0 ==> exists|i: int|
            0 <= i && i + text.len() <= encode_utf8(ev.qname@).len() && #[trigger] encode_utf8(
                ev.qname@,
            ).subrange(i, i + text.len()) == text,
{
    let name = encode_utf8(ev.qname@);
    if 0 <= at && at + text.len() <= name.len() && name.subrange(at, at + text.len()) == text {
        assert(occurs_at(name, text, at));
    }
    if event_passes(ev, None, None, Some(text)) && text.len() > 0 {
        let i = choose|i: int| occurs_at(name, text, i);
        assert(name.subrange(i, i + text.len()) == text);
    }
}

/// The newest part of a sequence is its end, as long as wanted or as long as there is.
pub proof fn law_newest_is_the_end<T>(s: Seq<T>, n: nat)
    ensures
        newest(s, n).len() == (if s.len() < n {
            s.len()
        } else {
            n
        }),
        s.take(s.len() - newest(s, n).len()) + newest(s, n) == s,
{
    assert(s.take(s.len() - newest(s, n).len()) + newest(s, n) =~= s);
}

/// A window holds a sample for each whole minute of it, as far as there are samples. Its buckets
/// have equal widths, up to one sample.
pub proof fn law_buckets_have_equal_widths(
    samples: Seq<StatsSample>,
    seconds: usize,
    b: int,
    buckets: int,
)
    requires
        0 <= b < buckets,
    ensures
        window(samples, seconds).len() <= seconds / 60,
        window(samples, seconds).len() == seconds / 60 || window(samples, seconds) == samples,
        ({
            let n = window(samples, seconds).len() as int;
            let width = bucket_start(b + 1, n, buckets) - bucket_start(b, n, buckets);
            n / buckets <= width <= n / buckets + 1
        }),
        bucket_start(0, window(samples, seconds).len() as int, buckets) == 0,
{
    let n = window(samples, seconds).len() as int;
    let x = b * n;
    let q = x / buckets;
    let w = n / buckets;
    assert((b + 1) * n == x + n) by (nonlinear_arith)
        requires
            x == b * n,
    ;
    assert(x == buckets * q + x % buckets && 0 <= x % buckets < buckets) by (nonlinear_arith)
        requires
            buckets > 0,
            q == x / buckets,
    ;
    assert(n == buckets * w + n % buckets && 0 <= n % buckets < buckets) by (nonlinear_arith)
        requires
            buckets > 0,
            w == n / buckets,
    ;
    let r = x % buckets + n % buckets;
    let e = (x + n) / buckets;
    assert(x + n == buckets * e + (x + n) % buckets && 0 <= (x + n) % buckets < buckets)
        by (nonlinear_arith)
        requires
            buckets > 0,
            e == (x + n) / buckets,
    ;
    assert(q + w <= e <= q + w + 1) by (nonlinear_arith)
        requires
            buckets > 0,
            x + n == buckets * e + (x + n) % buckets,
            0 <= (x + n) % buckets < buckets,
            x + n == buckets * q + buckets * w + r,
            0 <= r < 2 * buckets,
    ;
    assert(0 * n / buckets == 0) by (nonlinear_arith)
        requires
            buckets > 0,
    ;
}

/// Totals grow by each sample, figure by figure, and are dated as wanted; a thousand events at most
/// are read at once.
pub proof fn law_totals_add_up(s: Seq<StatsSample>, x: StatsSample, unix_secs: u64, limit: usize)
    requires
        sums_fit(s.push(x)),
    ensures
        total_of(s.push(x), unix_secs).unix_secs == unix_secs,
        total_of(s.push(x), unix_secs).queries == total_of(s, unix_secs).queries + x.queries,
        total_of(s.push(x), unix_secs).cache_hits == total_of(s, unix_secs).cache_hits
            + x.cache_hits,
        total_of(s.push(x), unix_secs).upstream_ok == total_of(s, unix_secs).upstream_ok
            + x.upstream_ok,
        total_of(s.push(x), unix_secs).upstream_err == total_of(s, unix_secs).upstream_err
            + x.upstream_err,
        total_of(s.push(x), unix_secs).filtered == total_of(s, unix_secs).filtered + x.filtered,
        first_date(s.push(x)) == (if s.len() == 0 {
            x.unix_secs
        } else {
            s[0].unix_secs
        }),
        total_of(Seq::empty(), unix_secs) == (StatsSample { unix_secs, ..zero_sample() }),
        limit <= 1000 ==> clamped_limit(limit) == limit,
        limit > 1000 ==> clamped_limit(limit) == 1000,
{
    assert(s.push(x).drop_last() =~= s);
}

} // verus!
