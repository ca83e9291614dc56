//! What a request asks for, and the figures that answers are made of.

use crate::querylog::api::{
    bytes_of, ct_str_eq, law_token_is_accepted, number_param, param, parse_query_param,
    query_param, query_param_opt,
    safe_history_filename, safe_name, same_token, HttpRequest,
};
use crate::querylog::history::{HistoryQuery, HISTORY_PAGE_MAX};
use crate::querylog::ring::{passing, EventRing, QpsRing, QPS_RING_LEN};
use crate::querylog::{QueryLogEvent, QueryLogHandle};
use crate::response_filter::FilterAction;
use crate::server::{Server, ServerKind};
use crate::stats::NodeStatsSnapshot;
use crate::text::{bytes_eq, decimal, decimal_text, number_text, parse_u64, str_eq};
use std::sync::Arc;
use vstd::prelude::*;
use vstd::string::{StringExecFns, StringSliceAdditionalSpecFns};
use vstd::utf8::encode_utf8;
verus! {

/// What a request asks for.
pub enum Route {
    /// The dashboard itself.
    Page,
    /// The token is wrong.
    Unauthorized,
    Stats,
    /// Queries of the last seconds.
    StatsHistory(usize),
    /// Recent events.
    Log(LogQuery),
    ClearLog,
    /// The list of segments.
    Files,
    /// A page of a segment.
    History(String, HistoryQuery, EventParams),
    /// Segments are asked for, but none are written.
    HistoryDisabled,
    BadFileName,
    Buckets(usize, usize),
    Aggregate(usize),
    Rules,
    Upstreams,
    NotFound,
}

/// What else a request for a page says of the events: which upstream, client and query type. A
/// segment is read without regard to it.
pub struct EventParams {
    pub upstream: Option<String>,
    pub client: Option<String>,
    pub qtype: Option<u16>,
}

/// A query for recent events.
pub struct LogQuery {
    pub limit: usize,
    pub before_seq: Option<u64>,
    pub after_seq: Option<u64>,
    pub filter: Option<String>,
}

/// A number within bounds.
pub open spec fn clamped(n: int, low: int, high: int) -> int {
    if n < low {
        low
    } else if n > high {
        high
    } else {
        n
    }
}

fn clamp_to(n: u64, low: u64, high: u64) -> (r: u64)
    requires
        low <= high,
    ensures
        r == clamped(n as int, low as int, high as int),
{
    if n < low {
        low
    } else if n > high {
        high
    } else {
        n
    }
}

/// The number that a parameter gives, or else the default.
pub open spec fn number_or(query: Seq<u8>, key: Seq<char>, default: u64) -> u64 {
    match number_param(query, encode_utf8(key), usize::MAX as u64) {
        Some(n) => n,
        None => default,
    }
}

/// The text that a parameter gives.
pub open spec fn text_param(query: Seq<u8>, key: Seq<char>) -> Option<Seq<u8>> {
    param(query, encode_utf8(key))
}

/// The number of 64 bits that a parameter gives.
pub open spec fn long_param(query: Seq<u8>, key: Seq<char>) -> Option<u64> {
    number_param(query, encode_utf8(key), u64::MAX)
}

/// The query for recent events that the parameters make.
pub open spec fn asks_log(l: LogQuery, query: Seq<u8>) -> bool {
    &&& l.limit == number_or(query, "limit"@, 100)
    &&& l.before_seq == long_param(query, "before_seq"@)
    &&& l.after_seq == long_param(query, "after_seq"@)
    &&& bytes_of(l.filter) == text_param(query, "q"@)
}

/// The query for a page of a segment that the parameters make.
pub open spec fn asks_history(h: HistoryQuery, query: Seq<u8>) -> bool {
    &&& h.limit == clamped(number_or(query, "limit"@, 100) as int, 1, HISTORY_PAGE_MAX as int)
    &&& h.cursor == long_param(query, "cursor"@)
    &&& h.from_micros == long_param(query, "from"@)
    &&& h.to_micros == long_param(query, "to"@)
    &&& bytes_of(h.qname) == text_param(query, "q"@)
    &&& match number_param(query, encode_utf8("rcode"@), 255) {
        Some(n) => h.rcode == Some(n as u8),
        None => h.rcode is None,
    }
    &&& bytes_of(h.source) == text_param(query, "source"@)
}

/// What else the parameters say of the events.
pub open spec fn asks_events(p: EventParams, query: Seq<u8>) -> bool {
    &&& bytes_of(p.upstream) == text_param(query, "upstream"@)
    &&& bytes_of(p.client) == text_param(query, "client"@)
    &&& match number_param(query, encode_utf8("type"@), 65535) {
        Some(n) => p.qtype == Some(n as u16),
        None => p.qtype is None,
    }
}

/// The name of the segment that the parameters ask for.
pub open spec fn asked_file(query: Seq<u8>) -> Seq<u8> {
    match text_param(query, "file"@) {
        Some(f) => f,
        None => Seq::empty(),
    }
}

/// The request is for this method and path.
pub open spec fn asks(req: HttpRequest, method: Seq<char>, path: Seq<char>) -> bool {
    req.method@ == method && req.path@ == path
}

/// The request carries the right token, where one is needed.
pub open spec fn authorized(req: HttpRequest, token: Option<&str>) -> bool {
    match token {
        Some(t) => same_token(
            match req.auth {
                Some(a) => encode_utf8(a@),
                None => Seq::empty(),
            },
            t.spec_bytes(),
        ),
        None => true,
    }
}

/// The route is what the request asks for. The dashboard itself needs no token.
pub open spec fn routes(r: Route, req: HttpRequest, token: Option<&str>, has_files: bool) -> bool {
    let query = encode_utf8(req.query@);
    if asks(req, "GET"@, "/"@) || asks(req, "GET"@, "/index.html"@) {
        r is Page
    } else if !authorized(req, token) {
        r is Unauthorized
    } else if asks(req, "GET"@, "/api/stats"@) {
        r is Stats
    } else if asks(req, "GET"@, "/api/stats/history"@) {
        r == Route::StatsHistory(
            clamped(
                number_or(query, "n"@, QPS_RING_LEN as u64) as int,
                0,
                QPS_RING_LEN as int,
            ) as usize,
        )
    } else if asks(req, "GET"@, "/api/querylog"@) {
        match r {
            Route::Log(l) => asks_log(l, query),
            _ => false,
        }
    } else if asks(req, "DELETE"@, "/api/querylog"@) {
        r is ClearLog
    } else if asks(req, "GET"@, "/api/querylog/files"@) {
        r is Files
    } else if asks(req, "GET"@, "/api/querylog/history"@) {
        if !has_files {
            r is HistoryDisabled
        } else if !safe_name(asked_file(query)) {
            r is BadFileName
        } else {
            match r {
                Route::History(file, h, p) => encode_utf8(file@) == asked_file(query)
                    && asks_history(h, query) && asks_events(p, query),
                _ => false,
            }
        }
    } else if asks(req, "GET"@, "/api/stats/buckets"@) {
        r == Route::Buckets(
            clamped(number_or(query, "seconds"@, 3600) as int, 1, 86400) as usize,
            clamped(number_or(query, "buckets"@, 12) as int, 1, 1440) as usize,
        )
    } else if asks(req, "GET"@, "/api/stats/aggregate"@) {
        r == Route::Aggregate(
            clamped(number_or(query, "seconds"@, 3600) as int, 1, 86400) as usize,
        )
    } else if asks(req, "GET"@, "/api/rules"@) {
        r is Rules
    } else if asks(req, "GET"@, "/api/upstreams"@) {
        r is Upstreams
    } else {
        r is NotFound
    }
}

fn is_for(req: &HttpRequest, method: &str, path: &str) -> (r: bool)
    ensures
        r == asks(*req, method@, path@),
{
    str_eq(req.method.as_str(), method) && str_eq(req.path.as_str(), path)
}

fn size_param(query: &str, key: &str, default: u64) -> (r: u64)
    requires
        default <= usize::MAX,
    ensures
        r == number_or(query.spec_bytes(), key@, default),
        r <= usize::MAX,
{
    query_param(query, key, usize::MAX as u64, default)
}

fn log_query(query: &str) -> (r: LogQuery)
    ensures
        asks_log(r, query.spec_bytes()),
{
    LogQuery {
        limit: size_param(query, "limit", 100) as usize,
        before_seq: query_param_opt(query, "before_seq", u64::MAX),
        after_seq: query_param_opt(query, "after_seq", u64::MAX),
        filter: parse_query_param(query, "q"),
    }
}

fn history_query(query: &str) -> (r: HistoryQuery)
    ensures
        asks_history(r, query.spec_bytes()),
{
    HistoryQuery {
        limit: clamp_to(size_param(query, "limit", 100), 1, HISTORY_PAGE_MAX as u64) as usize,
        cursor: query_param_opt(query, "cursor", u64::MAX),
        from_micros: query_param_opt(query, "from", u64::MAX),
        to_micros: query_param_opt(query, "to", u64::MAX),
        qname: parse_query_param(query, "q"),
        rcode: match query_param_opt(query, "rcode", 255) {
            Some(n) => Some(n as u8),
            None => None,
        },
        source: parse_query_param(query, "source"),
    }
}

fn event_params(query: &str) -> (r: EventParams)
    ensures
        asks_events(r, query.spec_bytes()),
{
    EventParams {
        upstream: parse_query_param(query, "upstream"),
        client: parse_query_param(query, "client"),
        qtype: match query_param_opt(query, "type", 65535) {
            Some(n) => Some(n as u16),
            None => None,
        },
    }
}

fn empty_text() -> (r: String)
    ensures
        encode_utf8(r@) == Seq::<u8>::empty(),
        r@ == Seq::<char>::empty(),
{
    let t = "".to_owned();
    proof {
        reveal_strlit("");
        reveal_with_fuel(encode_utf8, 2);
        assert(t@ =~= Seq::<char>::empty());
        assert(encode_utf8(t@) =~= Seq::<u8>::empty());
    }
    t
}

fn is_authorized(req: &HttpRequest, token: Option<&str>) -> (r: bool)
    ensures
        r == authorized(*req, token),
{
    match token {
        Some(expected) => match &req.auth {
            Some(a) => ct_str_eq(a.as_str(), expected),
            None => {
                let none = empty_text();
                ct_str_eq(none.as_str(), expected)
            },
        },
        None => true,
    }
}

/// What a request asks for. `has_files` says whether segments are written.
pub fn dispatch(req: &HttpRequest, token: Option<&str>, has_files: bool) -> (r: Route)
    ensures
        routes(r, *req, token, has_files),
{
    let query = req.query.as_str();
    if is_for(req, "GET", "/") || is_for(req, "GET", "/index.html") {
        return Route::Page;
    }
    if !is_authorized(req, token) {
        return Route::Unauthorized;
    }
    if is_for(req, "GET", "/api/stats") {
        return Route::Stats;
    }
    if is_for(req, "GET", "/api/stats/history") {
        let n: u64 = clamp_to(
            size_param(query, "n", QPS_RING_LEN as u64),
            0,
            QPS_RING_LEN as u64,
        );
        return Route::StatsHistory(n as usize);
    }
    if is_for(req, "GET", "/api/querylog") {
        return Route::Log(log_query(query));
    }
    if is_for(req, "DELETE", "/api/querylog") {
        return Route::ClearLog;
    }
    if is_for(req, "GET", "/api/querylog/files") {
        return Route::Files;
    }
    if is_for(req, "GET", "/api/querylog/history") {
        if !has_files {
            return Route::HistoryDisabled;
        }
        let file = match parse_query_param(query, "file") {
            Some(f) => f,
            None => empty_text(),
        };
        if !safe_history_filename(file.as_str()) {
            return Route::BadFileName;
        }
        return Route::History(file, history_query(query), event_params(query));
    }
    if is_for(req, "GET", "/api/stats/buckets") {
        let seconds: u64 = clamp_to(size_param(query, "seconds", 3600), 1, 86400);
        let buckets: u64 = clamp_to(size_param(query, "buckets", 12), 1, 1440);
        return Route::Buckets(seconds as usize, buckets as usize);
    }
    if is_for(req, "GET", "/api/stats/aggregate") {
        let seconds: u64 = clamp_to(size_param(query, "seconds", 3600), 1, 86400);
        return Route::Aggregate(seconds as usize);
    }
    if is_for(req, "GET", "/api/rules") {
        return Route::Rules;
    }
    if is_for(req, "GET", "/api/upstreams") {
        return Route::Upstreams;
    }
    Route::NotFound
}

/// Without the right token nothing but the dashboard itself is served.
pub proof fn law_token_guards_everything(r: Route, req: HttpRequest, token: Option<&str>, has_files: bool)
    requires
        routes(r, req, token, has_files),
        !authorized(req, token),
    ensures
        r is Page || r is Unauthorized,
{
}

// Answers.

/// The head of an answer.
pub fn response_head(status: &str, content_type: &str, body_len: usize) -> (r: String)
    ensures
        r@ == "HTTP/1.1 "@ + status@ + "\r\nContent-Type: "@ + content_type@
            + "\r\nContent-Length: "@ + decimal_text(body_len as nat)
            + "\r\nCache-Control: no-store\r\nConnection: close\r\n\r\n"@,
{
    let mut out = "HTTP/1.1 ".to_owned();
    out.append(status);
    out.append("\r\nContent-Type: ");
    out.append(content_type);
    out.append("\r\nContent-Length: ");
    out.append(decimal(body_len as u64).as_str());
    out.append("\r\nCache-Control: no-store\r\nConnection: close\r\n\r\n");
    out
}

/// A client of the event stream may pass the token as a parameter too.
pub open spec fn stream_authorized(req: HttpRequest, token: Option<&str>) -> bool {
    authorized(req, token) || match token {
        Some(t) => same_token(
            match text_param(encode_utf8(req.query@), "token"@) {
                Some(p) => p,
                None => Seq::empty(),
            },
            t.spec_bytes(),
        ),
        None => true,
    }
}

/// Whether a client may have the event stream.
pub fn may_stream(req: &HttpRequest, token: Option<&str>) -> (r: bool)
    ensures
        r == stream_authorized(*req, token),
{
    if is_authorized(req, token) {
        return true;
    }
    match token {
        Some(expected) => {
            let given = match parse_query_param(req.query.as_str(), "token") {
                Some(p) => p,
                None => empty_text(),
            };
            ct_str_eq(given.as_str(), expected)
        },
        None => true,
    }
}

/// The number that a text gives.
pub open spec fn number_of(s: Seq<u8>) -> Option<u64> {
    match number_text(s) {
        Some(n) => if n <= u64::MAX {
            Some(n as u64)
        } else {
            None
        },
        None => None,
    }
}

/// The last event that a client of the stream has: by its header, or else by a parameter.
pub open spec fn last_seen(req: HttpRequest) -> Option<u64> {
    let by_header = match req.last_event_id {
        Some(id) => number_of(encode_utf8(id@)),
        None => None,
    };
    match by_header {
        Some(n) => Some(n),
        None => long_param(encode_utf8(req.query@), "last_seq"@),
    }
}

/// The last event that a client of the stream has.
pub fn last_seen_event(req: &HttpRequest) -> (r: Option<u64>)
    ensures
        r == last_seen(*req),
{
    let by_header: Option<u64> = match &req.last_event_id {
        Some(id) => parse_u64(id.as_str().as_bytes()),
        None => None,
    };
    match by_header {
        Some(n) => Some(n),
        None => query_param_opt(req.query.as_str(), "last_seq", u64::MAX),
    }
}

/// Most events sent to a client that reconnects.
pub const BACKFILL_MAX: usize = 1000;

/// The events that a client missed, oldest first.
pub fn backfill(ring: &EventRing, after: u64) -> (r: Vec<Arc<QueryLogEvent>>)
    ensures
        r@ == passing(ring@, None, Some(after), None, BACKFILL_MAX as nat).reverse(),
{
    let mut events = ring.query(None, Some(after), BACKFILL_MAX, None);
    let ghost all = events@;
    let mut out: Vec<Arc<QueryLogEvent>> = Vec::new();
    proof {
        assert(all.take(all.len() as int) =~= all);
    }
    while events.len() > 0
        invariant
            events@.len() + out@.len() == all.len(),
            events@ == all.take(events@.len() as int),
            forall|i: int| 0 <= i < out@.len() ==> (#[trigger] out@[i]) == all.reverse()[i],
        decreases events@.len(),
    {
        let ghost k = events@.len() as int;
        match events.pop() {
            Some(ev) => {
                out.push(ev);
                proof {
                    assert(events@ =~= all.take(k - 1));
                }
            },
            None => {},
        }
    }
    proof {
        assert(out@ =~= all.reverse());
    }
    out
}

// Figures.

/// Figures of the statistics page that follow from others.
#[derive(Clone, Copy, Debug, PartialEq, Eq, Structural)]
pub struct StatsFigures {
    pub avg_resolution_us: u64,
    pub qps_now: u64,
    pub ring_len: usize,
    pub queue_depth: usize,
}

/// The mean; zero of nothing.
pub open spec fn mean(sum: u64, count: u64) -> u64 {
    if count > 0 {
        sum / count
    } else {
        0
    }
}

/// Figures of the statistics page that follow from others.
pub fn stats_figures(handle: &QueryLogHandle, qps_ring: &QpsRing, ring: &EventRing) -> (r: StatsFigures)
    requires
        qps_ring.wf(),
    ensures
        r.avg_resolution_us == mean(handle.counters.rtt_sum_us, handle.counters.rtt_count),
        r.qps_now == (if qps_ring@.len() > 0 {
            qps_ring@.last()
        } else {
            0
        }),
        r.ring_len == ring@.len(),
        r.queue_depth == handle.queued().len(),
{
    let last = qps_ring.snapshot(1);
    StatsFigures {
        avg_resolution_us: if handle.counters.rtt_count > 0 {
            handle.counters.rtt_sum_us / handle.counters.rtt_count
        } else {
            0
        },
        qps_now: if last.len() > 0 {
            last[0]
        } else {
            0
        },
        ring_len: ring.len(),
        queue_depth: handle.queue_depth(),
    }
}

/// The mean round-trip time of a node.
pub fn avg_rtt_us(s: &NodeStatsSnapshot) -> (r: u64)
    ensures
        r == mean(s.rtt_sum_us, s.queries_ok),
{
    let n: u64 = s.rtt_count();
    if n > 0 {
        s.rtt_sum_us / n
    } else {
        0
    }
}

/// The positions of the servers that ask upstream; fixed answers have no nodes to show.
pub open spec fn upstream_positions(servers: Seq<Server>) -> Seq<usize>
    decreases servers.len(),
{
    if servers.len() == 0 {
        Seq::empty()
    } else {
        let front = upstream_positions(servers.drop_last());
        match servers.last().kind {
            ServerKind::Upstream(_) => front.push((servers.len() - 1) as usize),
            ServerKind::Fixed(_) => front,
        }
    }
}

/// The positions of the servers that ask upstream.
pub fn shown_servers(servers: &Vec<Server>) -> (r: Vec<usize>)
    ensures
        r@ == upstream_positions(servers@),
{
    let mut out: Vec<usize> = Vec::new();
    let mut i: usize = 0;
    proof {
        assert(servers@.take(0).len() == 0);
    }
    while i < servers.len()
        invariant
            i <= servers@.len(),
            out@ == upstream_positions(servers@.take(i as int)),
        decreases servers@.len() - i,
    {
        proof {
            assert(servers@.take(i + 1).drop_last() =~= servers@.take(i as int));
            assert(servers@.take(i + 1).last() == servers@[i as int]);
        }
        match &servers[i].kind {
            ServerKind::Upstream(_) => {
                out.push(i);
            },
            ServerKind::Fixed(_) => {},
        }
        i += 1;
    }
    proof {
        assert(servers@.take(servers@.len() as int) =~= servers@);
    }
    out
}

/// What a filter does, as it is shown.
pub open spec fn action_text(action: FilterAction, servers: Seq<Server>) -> Seq<char> {
    match action {
        FilterAction::Accept => "accept"@,
        FilterAction::Drop => "drop"@,
        FilterAction::Forward(i) => "forward:"@ + if i < servers.len() {
            servers[i as int].name@
        } else {
            "?"@
        },
    }
}

/// What a filter does, as it is shown.
pub fn filter_action_text(action: FilterAction, servers: &Vec<Server>) -> (r: String)
    ensures
        r@ == action_text(action, servers@),
{
    match action {
        FilterAction::Accept => "accept".to_owned(),
        FilterAction::Drop => "drop".to_owned(),
        FilterAction::Forward(i) => {
            let mut out = "forward:".to_owned();
            if i < servers.len() {
                out.append(servers[i].name.as_str());
            } else {
                out.append("?");
            }
            out
        },
    }
}

/// The number of patterns or ranges of a tag; zero of one that is not loaded.
pub fn tag_count(counts: &Vec<(Vec<u8>, usize)>, tag: &str) -> (r: usize)
    ensures
        (exists|i: int|
            0 <= i < counts@.len() && (#[trigger] counts@[i]).0@ == tag.spec_bytes() && r
                == counts@[i].1) || (r == 0 && forall|i: int|
            0 <= i < counts@.len() ==> (#[trigger] counts@[i]).0@ != tag.spec_bytes()),
{
    let mut i: usize = 0;
    while i < counts.len()
        invariant
            i <= counts@.len(),
            forall|k: int| 0 <= k < i ==> (#[trigger] counts@[k]).0@ != tag.spec_bytes(),
        decreases counts@.len() - i,
    {
        if bytes_eq(counts[i].0.as_slice(), tag.as_bytes()) {
            assert(counts@[i as int].0@ == tag.spec_bytes());
            return counts[i].1;
        }
        i += 1;
    }
    0
}

/// Numbers in rising order.
pub open spec fn is_rising(s: Seq<u16>) -> bool {
    forall|i: int, j: int| 0 <= i < j < s.len() ==> s[i] <= s[j]
}

/// The numbers in rising order, as they are shown.
pub fn sorted_numbers(list: &Vec<u16>) -> (r: Vec<u16>)
    ensures
        is_rising(r@),
        r@.to_multiset() == list@.to_multiset(),
{
    let mut out: Vec<u16> = Vec::new();
    let mut i: usize = 0;
    proof {
        assert(list@.take(0) =~= out@);
    }
    while i < list.len()
        invariant
            i <= list@.len(),
            is_rising(out@),
            out@.to_multiset() == list@.take(i as int).to_multiset(),
        decreases list@.len() - i,
    {
        let x: u16 = list[i];
        let ghost before = out@;
        let mut p: usize = 0;
        while p < out.len() && out[p] <= x
            invariant
                p <= out@.len(),
                out@ == before,
                forall|k: int| 0 <= k < p ==> before[k] <= x,
            ensures
                p <= out@.len(),
                forall|k: int| 0 <= k < p ==> before[k] <= x,
                p < out@.len() ==> before[p as int] > x,
            decreases out@.len() - p,
        {
            p += 1;
        }
        out.insert(p, x);
        proof {
            vstd::seq_lib::to_multiset_insert(before, p as int, x);
            assert(list@.take(i + 1) =~= list@.take(i as int).push(x));
            list@.take(i as int).to_multiset_ensures();
        }
        i += 1;
    }
    proof {
        assert(list@.take(list@.len() as int) =~= list@);
    }
    out
}

// What requests may ask for.

/// Numbers out of requests keep to their bounds: seconds of a statistic to a day, its groups to as
/// many as it has samples, and the queries per second to an hour.
pub proof fn law_asked_numbers_are_bounded(
    r: Route,
    req: HttpRequest,
    token: Option<&str>,
    has_files: bool,
)
    requires
        routes(r, req, token, has_files),
    ensures
        match r {
            Route::StatsHistory(n) => n <= 3600,
            Route::Buckets(seconds, buckets) => 1 <= seconds <= 86400 && 1 <= buckets <= 1440,
            Route::Aggregate(seconds) => 1 <= seconds <= 86400,
            Route::History(file, h, _) => has_files && safe_name(encode_utf8(file@)) && 1 <= h.limit
                <= 200,
            Route::HistoryDisabled => !has_files,
            Route::BadFileName => has_files,
            _ => true,
        },
{
}

/// A number within its bounds stays as it is, and any other goes to the nearer one.
pub proof fn law_clamping_keeps_bounds(n: int, low: int, high: int)
    requires
        low <= high,
    ensures
        low <= clamped(n, low, high) <= high,
        low <= n <= high ==> clamped(n, low, high) == n,
        n < low ==> clamped(n, low, high) == low,
        n > high ==> clamped(n, low, high) == high,
{
}

/// What is not asked for in a known way is not found: a request with the right token for another
/// path, or for a known path by another method.
pub proof fn law_unknown_requests_find_nothing(
    r: Route,
    req: HttpRequest,
    token: Option<&str>,
    has_files: bool,
)
    requires
        routes(r, req, token, has_files),
        authorized(req, token),
        req.method@ != "GET"@,
        req.method@ != "DELETE"@ || req.path@ != "/api/querylog"@,
    ensures
        r is NotFound,
{
}

/// Without a configured token everybody may ask; with one, those may who give it, and nobody who
/// gives none or another of the same length, or one of another length.
pub proof fn law_token_must_be_given(req: HttpRequest, token: &str)
    ensures
        authorized(req, None),
        stream_authorized(req, None),
        req.auth matches Some(a) && encode_utf8(a@) == token.spec_bytes() ==> authorized(
            req,
            Some(token),
        ) && stream_authorized(req, Some(token)),
        req.auth is None && token.spec_bytes().len() > 0 ==> !authorized(req, Some(token)),
        req.auth matches Some(a) && token.spec_bytes().len() <= 4096 && encode_utf8(a@)
            != token.spec_bytes() ==> !authorized(req, Some(token)),
        text_param(encode_utf8(req.query@), "token"@) == Some(token.spec_bytes())
            ==> stream_authorized(req, Some(token)),
        !authorized(req, Some(token)) && text_param(encode_utf8(req.query@), "token"@) is None
            && token.spec_bytes().len() > 0 ==> !stream_authorized(req, Some(token)),
{
    if let Some(a) = req.auth {
        law_token_is_accepted(token.spec_bytes(), encode_utf8(a@));
    }
    law_token_is_accepted(token.spec_bytes(), token.spec_bytes());
}

/// The last event that a client has is what its header says, or else its parameter; a header that
/// is no number says nothing.
pub proof fn law_header_tells_last_event(req: HttpRequest)
    ensures
        req.last_event_id is None ==> last_seen(req) == long_param(
            encode_utf8(req.query@),
            "last_seq"@,
        ),
        req.last_event_id matches Some(id) && number_text(encode_utf8(id@)) is None ==> last_seen(
            req,
        ) == long_param(encode_utf8(req.query@), "last_seq"@),
        req.last_event_id matches Some(id) && number_text(encode_utf8(id@)) matches Some(n) && n
            <= u64::MAX ==> last_seen(req) == Some(
            number_text(encode_utf8(req.last_event_id->0@))->0 as u64,
        ),
{
}

/// The mean lies at the quotient of sum and count, rounded down.
pub proof fn law_mean_is_the_quotient(sum: u64, count: u64)
    ensures
        count == 0 ==> mean(sum, count) == 0,
        count > 0 ==> mean(sum, count) * count <= sum < mean(sum, count) * count + count,
{
    if count > 0 {
        let q = sum / count;
        assert(q * count <= sum < q * count + count) by (nonlinear_arith)
            requires
                count > 0,
                q == sum / count,
        ;
    }
}

/// The servers that are shown are those that ask upstream, all of them and in their order.
pub proof fn law_shown_servers_ask_upstream(servers: Seq<Server>, i: int)
    requires
        servers.len() <= usize::MAX,
        0 <= i < servers.len(),
    ensures
        upstream_positions(servers).contains(i as usize) <==> servers[i].kind is Upstream,
        forall|k: int|
            0 <= k < upstream_positions(servers).len() ==> (#[trigger] upstream_positions(
                servers,
            )[k]) < servers.len(),
    decreases servers.len(),
{
    let front = servers.drop_last();
    let all = upstream_positions(servers);
    let before = upstream_positions(front);
    if front.len() > 0 {
        law_shown_servers_ask_upstream(
            front,
            if i < front.len() {
                i
            } else {
                0
            },
        );
    }
    assert forall|k: int| 0 <= k < all.len() implies (#[trigger] all[k]) < servers.len() by {
        if k < before.len() {
            assert(all[k] == before[k]);
        }
    }
    if i < front.len() {
        assert(front[i] == servers[i]);
        if before.contains(i as usize) {
            let k = choose|k: int| 0 <= k < before.len() && before[k] == i as usize;
            assert(all[k] == i as usize);
        }
        if all.contains(i as usize) {
            let k = choose|k: int| 0 <= k < all.len() && all[k] == i as usize;
            if k < before.len() {
                assert(before[k] == i as usize);
            }
        }
    } else if servers[i].kind is Upstream {
        assert(all[before.len() as int] == i as usize);
    } else if all.contains(i as usize) {
        let k = choose|k: int| 0 <= k < all.len() && all[k] == i as usize;
        assert(before[k] < front.len());
    }
}

/// What is asked for with the right token is served: each known path by its method.
pub proof fn law_known_requests_are_served(
    r: Route,
    req: HttpRequest,
    token: Option<&str>,
    has_files: bool,
)
    requires
        routes(r, req, token, has_files),
        authorized(req, token),
    ensures
        ({
            let get = req.method@ == "GET"@;
            let path = req.path@;
            &&& get && (path == "/"@ || path == "/index.html"@) ==> r is Page
            &&& get && path == "/api/stats"@ ==> r is Stats
            &&& get && path == "/api/stats/history"@ ==> r is StatsHistory
            &&& get && path == "/api/querylog"@ ==> r is Log
            &&& req.method@ == "DELETE"@ && path == "/api/querylog"@ ==> r is ClearLog
            &&& get && path == "/api/querylog/files"@ ==> r is Files
            &&& get && path == "/api/querylog/history"@ ==> {
                ||| r is History && has_files
                ||| r is BadFileName && has_files
                ||| r is HistoryDisabled && !has_files
            }
            &&& get && path == "/api/stats/buckets"@ ==> r is Buckets
            &&& get && path == "/api/stats/aggregate"@ ==> r is Aggregate
            &&& get && path == "/api/rules"@ ==> r is Rules
            &&& get && path == "/api/upstreams"@ ==> r is Upstreams
        }),
{
    reveal_strlit("GET");
    reveal_strlit("DELETE");
    reveal_strlit("/");
    reveal_strlit("/index.html");
    reveal_strlit("/api/stats");
    reveal_strlit("/api/stats/history");
    reveal_strlit("/api/querylog");
    reveal_strlit("/api/querylog/files");
    reveal_strlit("/api/querylog/history");
    reveal_strlit("/api/stats/buckets");
    reveal_strlit("/api/stats/aggregate");
    reveal_strlit("/api/rules");
    reveal_strlit("/api/upstreams");
    assert("GET"@.len() == 3 && "DELETE"@.len() == 6);
    assert("/"@.len() == 1 && "/index.html"@.len() == 11 && "/api/stats"@.len() == 10
        && "/api/stats/history"@.len() == 18 && "/api/querylog"@.len() == 13
        && "/api/querylog/files"@.len() == 19 && "/api/querylog/history"@.len() == 21
        && "/api/stats/buckets"@.len() == 18 && "/api/stats/aggregate"@.len() == 20
        && "/api/rules"@.len() == 10 && "/api/upstreams"@.len() == 14);
    assert("/api/stats"@[5] == 's' && "/api/rules"@[5] == 'r');
    assert("/api/stats/history"@[11] == 'h' && "/api/stats/buckets"@[11] == 'b');
}

/// What a request for events asks for comes from its parameters: the text and the bounds as they
/// are given, and a hundred events where no number is.
pub proof fn law_log_query_follows_parameters(l: LogQuery, query: Seq<u8>)
    requires
        asks_log(l, query),
    ensures
        number_param(query, encode_utf8("limit"@), usize::MAX as u64) is None ==> l.limit == 100,
        number_param(query, encode_utf8("limit"@), usize::MAX as u64) matches Some(n) ==> l.limit
            == n,
        l.before_seq == number_param(query, encode_utf8("before_seq"@), u64::MAX),
        l.after_seq == number_param(query, encode_utf8("after_seq"@), u64::MAX),
        bytes_of(l.filter) == param(query, encode_utf8("q"@)),
{
}

/// So does what a request for a page asks for; its page holds a hundred events where no number is
/// given, and between one and two hundred in any case.
pub proof fn law_history_query_follows_parameters(h: HistoryQuery, query: Seq<u8>)
    requires
        asks_history(h, query),
    ensures
        number_param(query, encode_utf8("limit"@), usize::MAX as u64) is None ==> h.limit == 100,
        number_param(query, encode_utf8("limit"@), usize::MAX as u64) matches Some(n) ==> {
            &&& 1 <= n <= 200 ==> h.limit == n
            &&& n < 1 ==> h.limit == 1
            &&& n > 200 ==> h.limit == 200
        },
        h.cursor == number_param(query, encode_utf8("cursor"@), u64::MAX),
        h.from_micros == number_param(query, encode_utf8("from"@), u64::MAX),
        h.to_micros == number_param(query, encode_utf8("to"@), u64::MAX),
        bytes_of(h.qname) == param(query, encode_utf8("q"@)),
        bytes_of(h.source) == param(query, encode_utf8("source"@)),
        h.rcode is Some <==> number_param(query, encode_utf8("rcode"@), 255) is Some,
        h.rcode is Some ==> h.rcode->0 == number_param(query, encode_utf8("rcode"@), 255)->0,
{
    assert(number_param(query, encode_utf8("rcode"@), 255) is Some ==> number_param(
        query,
        encode_utf8("rcode"@),
        255,
    )->0 <= 255);
}

} // verus!
