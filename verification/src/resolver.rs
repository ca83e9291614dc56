//! Query pipeline: the fast path from a packet to the cache, and the slow path from a cache miss
//! over routing, deduplication, upstream exchange and response filters to the reply.
//!
//! The slow path is a sequence of decisions. The caller performs the work between them: it waits,
//! asks upstream servers and looks into the cache, and hands the outcome to the next decision.

use crate::arena::ResponseArena;
use crate::dns::{
    answer_ips, answer_ips_of, be16, dotted, fast_query, fit_labels, law_header_bits,
    law_local_reply_header, law_question_is_read, lemma_question_end_bound, local_reply, name_text,
    notimp_opcode_reply, notimp_reply, opcode, opcode_of, parse_query_fast, qname_from_question,
    question_fits, question_qclass, rcode, rcode_of, wire_name, FastQueryInfo, HEADER_LEN,
    RCODE_NOTIMP, RCODE_SERVFAIL,
};
use crate::iprange::IpAddr;
use crate::outside::shared_bytes;
use crate::querylog::{offered, QueryLogCounters, QueryLogEvent, QueryLogHandle};
use crate::router::final_arc;
use crate::server::RoutingConfig;
use crate::stats::bumped;
use crate::upstream::ClientProto;
use bytes::Bytes;
use vstd::prelude::*;
use vstd::utf8::{encode_utf8, valid_utf8};
verus! {

// Attribution of cache entries.

/// What a cached response came from.
#[derive(Clone, Copy, Debug, PartialEq, Eq, Structural)]
pub enum RuleAttribution {
    /// A rule, by its position.
    Rule(usize),
    /// A server of the final fallback, by its position.
    Final(usize),
    /// The final fallback, when it is not known which server answered.
    FinalUnknown,
    /// No rule.
    NoRule,
}

/// Number that stands for an unknown server of the final fallback.
pub const FINAL_UNKNOWN_WIRE: u16 = 65534;

/// Number that stands for no rule.
pub const NO_RULE_WIRE: u16 = 65535;

/// Bit that marks a server of the final fallback.
pub const FINAL_FLAG: u16 = 0x8000;

/// The number that stands for an attribution.
pub open spec fn wire_of(a: RuleAttribution) -> u16 {
    match a {
        RuleAttribution::Rule(idx) => idx as u16,
        RuleAttribution::Final(idx) => FINAL_FLAG | (idx as u16),
        RuleAttribution::FinalUnknown => FINAL_UNKNOWN_WIRE,
        RuleAttribution::NoRule => NO_RULE_WIRE,
    }
}

/// The attribution that a number stands for.
pub open spec fn attribution_of(rule_id: u16) -> RuleAttribution {
    if rule_id == NO_RULE_WIRE {
        RuleAttribution::NoRule
    } else if rule_id == FINAL_UNKNOWN_WIRE {
        RuleAttribution::FinalUnknown
    } else if rule_id >= FINAL_FLAG {
        RuleAttribution::Final((rule_id - FINAL_FLAG) as usize)
    } else {
        RuleAttribution::Rule(rule_id as usize)
    }
}

impl RuleAttribution {
    /// The number kept with a cache entry.
    pub fn to_wire(self) -> (r: u16)
        ensures
            r == wire_of(self),
    {
        match self {
            RuleAttribution::Rule(idx) => #[verifier::truncate] (idx as u16),
            RuleAttribution::Final(idx) => FINAL_FLAG | #[verifier::truncate] (idx as u16),
            RuleAttribution::FinalUnknown => FINAL_UNKNOWN_WIRE,
            RuleAttribution::NoRule => NO_RULE_WIRE,
        }
    }

    /// Reads the number kept with a cache entry.
    pub fn from_wire(rule_id: u16) -> (r: Self)
        ensures
            r == attribution_of(rule_id),
    {
        if rule_id == NO_RULE_WIRE {
            RuleAttribution::NoRule
        } else if rule_id == FINAL_UNKNOWN_WIRE {
            RuleAttribution::FinalUnknown
        } else if rule_id >= FINAL_FLAG {
            RuleAttribution::Final((rule_id - FINAL_FLAG) as usize)
        } else {
            RuleAttribution::Rule(rule_id as usize)
        }
    }
}

/// An attribution is read back as it was written, up to rule position 32767 and server position
/// 32765.
pub proof fn law_attribution_roundtrip(a: RuleAttribution)
    requires
        match a {
            RuleAttribution::Rule(i) => i <= 32767,
            RuleAttribution::Final(i) => i <= 32765,
            _ => true,
        },
    ensures
        attribution_of(wire_of(a)) == a,
{
    match a {
        RuleAttribution::Final(i) => {
            let x = i as u16;
            assert(0x8000u16 | x == 0x8000u16 + x) by (bit_vector)
                requires
                    x <= 32765u16,
            ;
        },
        _ => {},
    }
}

/// Text of the server that a cached response came from.
pub open spec fn attributed_text(rule_id: u16, routing: RoutingConfig) -> Option<Seq<char>> {
    match attribution_of(rule_id) {
        RuleAttribution::NoRule => None,
        RuleAttribution::FinalUnknown => Some("final"@),
        RuleAttribution::Final(i) => if i < routing.servers@.len() {
            Some(routing.servers@[i as int].final_name@)
        } else {
            Some("final"@)
        },
        RuleAttribution::Rule(i) => if i < routing.rules@.len() {
            Some(routing.rules@[i as int].server@)
        } else {
            None
        },
    }
}

/// Text of an optional string.
pub open spec fn text_of(s: Option<String>) -> Option<Seq<char>> {
    match s {
        Some(t) => Some(t@),
        None => None,
    }
}

/// Name of the server that a cached response came from.
pub fn upstream_name_for_rule_id(rule_id: u16, routing: &RoutingConfig) -> (r: Option<String>)
    ensures
        text_of(r) == attributed_text(rule_id, *routing),
{
    match RuleAttribution::from_wire(rule_id) {
        RuleAttribution::NoRule => None,
        RuleAttribution::FinalUnknown => Some(final_arc()),
        RuleAttribution::Final(i) => if i < routing.servers.len() {
            Some(routing.servers[i].final_name.clone())
        } else {
            Some(final_arc())
        },
        RuleAttribution::Rule(i) => if i < routing.rules.len() {
            Some(routing.rules[i].server.clone())
        } else {
            None
        },
    }
}

// Queries.

/// Address of a client.
#[derive(Clone, Copy, Debug, PartialEq, Eq, Structural)]
pub struct Peer {
    pub ip: IpAddr,
    pub port: u16,
}

/// What is known of a query beyond its bytes.
#[derive(Clone, Copy, Debug, PartialEq, Eq, Structural)]
pub struct QueryInfo {
    pub id: u16,
    pub qtype: u16,
    pub question_end: usize,
    /// The query carries a client subnet.
    pub has_ecs: bool,
    /// Cache key of the query as it is.
    pub regular_key: u64,
    /// Cache key of the query without its client subnet.
    pub stripped_key: Option<u64>,
}

/// A query on its way to a reply.
pub struct QueryContext {
    pub packet: Vec<u8>,
    pub info: QueryInfo,
    /// Name of the question, once something needed it.
    pub qname: Option<String>,
    pub peer: Peer,
    pub proto: ClientProto,
}

/// Bytes of the name asked for; empty when they are no text.
pub open spec fn asked_name(packet: Seq<u8>) -> Seq<u8> {
    match name_text(packet, HEADER_LEN as int) {
        Some(n) => if valid_utf8(n) {
            n
        } else {
            Seq::empty()
        },
        None => Seq::empty(),
    }
}

impl QueryContext {
    /// The packet is a query with one question, and what is known of it is true.
    pub open spec fn wf(self) -> bool {
        &&& fast_query(self.packet@) == Some(
            FastQueryInfo {
                id: self.info.id,
                qtype: self.info.qtype,
                question_end: self.info.question_end,
            },
        )
        &&& question_fits(self.packet@, self.info.question_end as int)
        &&& self.qname is Some ==> encode_utf8(self.qname->0@) == asked_name(self.packet@)
    }

    /// Bytes of the question.
    pub open spec fn question_bytes(self) -> Seq<u8> {
        self.packet@.subrange(HEADER_LEN as int, self.info.question_end as int)
    }

    /// A server-failure reply to the query.
    pub open spec fn servfail(self) -> Seq<u8> {
        local_reply(self.packet@, self.info.question_end as int, RCODE_SERVFAIL, None)
    }

    /// Name of the question.
    pub fn qname_owned(&self) -> (r: String)
        requires
            self.wf(),
        ensures
            encode_utf8(r@) == asked_name(self.packet@),
    {
        match &self.qname {
            Some(q) => q.clone(),
            None => question_name(self.packet.as_slice()),
        }
    }

    /// Makes sure that the name of the question is at hand.
    pub fn ensure_qname(&mut self)
        requires
            old(self).wf(),
        ensures
            final(self).wf(),
            final(self).qname is Some,
            final(self).packet == old(self).packet,
            final(self).info == old(self).info,
            final(self).peer == old(self).peer,
            final(self).proto == old(self).proto,
    {
        if self.qname.is_none() {
            self.qname = Some(question_name(self.packet.as_slice()));
        }
    }
}

fn question_name(packet: &[u8]) -> (r: String)
    ensures
        encode_utf8(r@) == asked_name(packet@),
{
    match qname_from_question(packet) {
        Some(q) => q,
        None => {
            let empty = "".to_owned();
            proof {
                reveal_strlit("");
                reveal_with_fuel(encode_utf8, 2);
                assert(encode_utf8(empty@) =~= Seq::<u8>::empty());
            }
            empty
        },
    }
}

// Counting and logging.

/// Counters after a query came in.
pub open spec fn counted_query(c: QueryLogCounters, proto: ClientProto) -> QueryLogCounters {
    match proto {
        ClientProto::Udp => QueryLogCounters {
            queries_total: bumped(c.queries_total, 1),
            queries_udp: bumped(c.queries_udp, 1),
            ..c
        },
        ClientProto::Tcp => QueryLogCounters {
            queries_total: bumped(c.queries_total, 1),
            queries_tcp: bumped(c.queries_tcp, 1),
            ..c
        },
    }
}

/// Counts a query that came in.
pub fn record_query_received(ql: &mut QueryLogHandle, proto: ClientProto)
    ensures
        *final(ql) == (QueryLogHandle {
            counters: counted_query(old(ql).counters, proto),
            ..*old(ql)
        }),
{
    ql.counters.queries_total = ql.counters.queries_total.wrapping_add(1);
    match proto {
        ClientProto::Udp => {
            ql.counters.queries_udp = ql.counters.queries_udp.wrapping_add(1);
        },
        ClientProto::Tcp => {
            ql.counters.queries_tcp = ql.counters.queries_tcp.wrapping_add(1);
        },
    }
}

/// Counters after a client was served within `elapsed_us`.
pub open spec fn counted_latency(c: QueryLogCounters, elapsed_us: u64) -> QueryLogCounters {
    QueryLogCounters {
        rtt_sum_us: bumped(c.rtt_sum_us, elapsed_us),
        rtt_count: bumped(c.rtt_count, 1),
        ..c
    }
}

pub(crate) fn record_client_latency(ql: &mut QueryLogHandle, elapsed_us: u64)
    ensures
        *final(ql) == (QueryLogHandle {
            counters: counted_latency(old(ql).counters, elapsed_us),
            ..*old(ql)
        }),
{
    ql.counters.rtt_sum_us = ql.counters.rtt_sum_us.wrapping_add(elapsed_us);
    ql.counters.rtt_count = ql.counters.rtt_count.wrapping_add(1);
}

/// What a logged event says besides its number.
pub ghost struct EventFacts {
    pub now_micros: u64,
    pub peer: Peer,
    pub qname: Seq<u8>,
    pub qtype: u16,
    pub question_end: int,
    pub reply: Seq<u8>,
    pub source: Seq<char>,
    pub upstream: Option<Seq<char>>,
    pub elapsed_us: u64,
    /// The event lists the addresses of the reply.
    pub with_ips: bool,
}

/// The event numbered `seq` says these facts.
pub open spec fn says(ev: QueryLogEvent, seq: u64, f: EventFacts) -> bool {
    &&& ev.seq == seq
    &&& ev.unix_micros == f.now_micros
    &&& ev.client == f.peer.ip
    &&& ev.client_port == f.peer.port
    &&& encode_utf8(ev.qname@) == f.qname
    &&& ev.qtype == f.qtype
    &&& ev.rcode == rcode_of(f.reply)
    &&& ev.elapsed_us == f.elapsed_us
    &&& ev.response_bytes == f.reply.len() as u32
    &&& ev.source@ == f.source
    &&& text_of(ev.rule) == f.upstream
    &&& ev.answer_ips@ == (if f.with_ips {
        answer_ips_of(f.reply, f.question_end)
    } else {
        Seq::empty()
    })
}

/// The log after an event with these facts was offered to it.
pub open spec fn logged(before: QueryLogHandle, after: QueryLogHandle, f: EventFacts) -> bool {
    offered(before, after, |seq: u64, ev: QueryLogEvent| says(ev, seq, f))
}

fn offer_event(
    ql: &mut QueryLogHandle,
    peer: Peer,
    qname: String,
    qtype: u16,
    question_end: usize,
    reply: &[u8],
    source: &'static str,
    upstream: Option<String>,
    elapsed_us: u64,
    now_micros: u64,
)
    requires
        old(ql).wf(),
    ensures
        final(ql).wf(),
        logged(
            *old(ql),
            *final(ql),
            EventFacts {
                now_micros,
                peer,
                qname: encode_utf8(qname@),
                qtype,
                question_end: question_end as int,
                reply: reply@,
                source: source@,
                upstream: text_of(upstream),
                elapsed_us,
                with_ips: old(ql).answer_ips,
            },
        ),
{
    let ghost f = EventFacts {
        now_micros,
        peer,
        qname: encode_utf8(qname@),
        qtype,
        question_end: question_end as int,
        reply: reply@,
        source: source@,
        upstream: text_of(upstream),
        elapsed_us,
        with_ips: ql.answer_ips,
    };
    let ips: Vec<IpAddr> = if ql.collect_answer_ips() {
        answer_ips(reply, question_end)
    } else {
        Vec::new()
    };
    let code: u8 = rcode(reply);
    let len: u32 = #[verifier::truncate] (reply.len() as u32);
    let build = move |seq: u64| -> (ev: QueryLogEvent)
        ensures
            says(ev, seq, f),
        {
            QueryLogEvent {
                seq,
                unix_micros: now_micros,
                client: peer.ip,
                client_port: peer.port,
                qname,
                qtype,
                rcode: code,
                elapsed_us,
                response_bytes: len,
                source,
                rule: upstream,
                answer_ips: ips,
            }
        };
    ql.try_emit_with(build);
}

impl QueryContext {
    /// What the log says of a reply to this query.
    pub open spec fn facts(
        self,
        reply: Seq<u8>,
        source: Seq<char>,
        upstream: Option<Seq<char>>,
        elapsed_us: u64,
        now_micros: u64,
        with_ips: bool,
    ) -> EventFacts {
        EventFacts {
            now_micros,
            peer: self.peer,
            qname: asked_name(self.packet@),
            qtype: self.info.qtype,
            question_end: self.info.question_end as int,
            reply,
            source,
            upstream,
            elapsed_us,
            with_ips,
        }
    }
}

/// Logs a reply of the slow path.
pub(crate) fn emit_slow_event(
    ctx: &QueryContext,
    ql: &mut QueryLogHandle,
    reply: &[u8],
    source: &'static str,
    upstream: Option<String>,
    elapsed_us: u64,
    now_micros: u64,
)
    requires
        ctx.wf(),
        old(ql).wf(),
    ensures
        final(ql).wf(),
        logged(
            *old(ql),
            *final(ql),
            ctx.facts(
                reply@,
                source@,
                text_of(upstream),
                elapsed_us,
                now_micros,
                old(ql).answer_ips,
            ),
        ),
{
    if !ql.collecting() {
        return;
    }
    offer_event(
        ql,
        ctx.peer,
        ctx.qname_owned(),
        ctx.info.qtype,
        ctx.info.question_end,
        reply,
        source,
        upstream,
        elapsed_us,
        now_micros,
    );
}

// Fast path.

/// What the first look at a packet decides.
pub enum FastPath {
    /// Not a query: no reply.
    Drop,
    /// A reply that needs no lookup.
    Reply(Vec<u8>),
    /// Look into the cache.
    Lookup(FastQueryInfo),
}

/// Meaning of a first look.
pub ghost enum FastDecision {
    Drop,
    Reply(Seq<u8>),
    Lookup(FastQueryInfo),
}

impl View for FastPath {
    type V = FastDecision;

    open spec fn view(&self) -> FastDecision {
        match self {
            FastPath::Drop => FastDecision::Drop,
            FastPath::Reply(b) => FastDecision::Reply(b@),
            FastPath::Lookup(i) => FastDecision::Lookup(*i),
        }
    }
}

/// Bytes of a bare not-implemented header for this query.
pub open spec fn bare_notimp(query: Seq<u8>) -> Seq<u8> {
    query.take(2) + seq![
        0x80u8 | (query[2] & 0x79u8),
        0x80u8 | RCODE_NOTIMP,
        0u8,
        0u8,
        0u8,
        0u8,
        0u8,
        0u8,
        0u8,
        0u8,
    ]
}

/// A complete header of a query for an operation other than lookup.
pub open spec fn other_operation(p: Seq<u8>) -> bool {
    p.len() >= HEADER_LEN && p[2] & 0x80 == 0 && opcode_of(p) != 0
}

/// The first look: operations other than lookup, and classes other than Internet and any, are not
/// implemented; anything that is no query with one question is dropped.
pub open spec fn fast_decision(p: Seq<u8>) -> FastDecision {
    if other_operation(p) {
        FastDecision::Reply(bare_notimp(p))
    } else {
        match fast_query(p) {
            None => FastDecision::Drop,
            Some(info) => {
                let qclass = be16(p, info.question_end - 2);
                if qclass != 1 && qclass != 255 {
                    FastDecision::Reply(
                        local_reply(p, info.question_end as int, RCODE_NOTIMP, None),
                    )
                } else {
                    FastDecision::Lookup(info)
                }
            },
        }
    }
}

/// Takes a first look at a packet and counts it, unless it is dropped.
pub fn try_fast_path(packet: &[u8], proto: ClientProto, ql: &mut QueryLogHandle) -> (r: FastPath)
    ensures
        r@ == fast_decision(packet@),
        *final(ql) == (if r is Drop {
            *old(ql)
        } else {
            QueryLogHandle { counters: counted_query(old(ql).counters, proto), ..*old(ql) }
        }),
        r is Lookup ==> HEADER_LEN + 5 <= r->Lookup_0.question_end <= packet@.len(),
{
    if packet.len() >= HEADER_LEN && packet[2] & 0x80 == 0 && opcode(packet) != 0 {
        record_query_received(ql, proto);
        let reply = notimp_opcode_reply(packet);
        proof {
            assert(reply@ =~= bare_notimp(packet@));
        }
        return FastPath::Reply(reply);
    }
    let info = match parse_query_fast(packet) {
        Some(info) => info,
        None => {
            return FastPath::Drop;
        },
    };
    record_query_received(ql, proto);
    let qclass: u16 = match question_qclass(packet, info.question_end) {
        Some(c) => c,
        None => 0,
    };
    if qclass != 1 && qclass != 255 {
        let reply = match notimp_reply(packet, info.question_end) {
            Some(m) => m,
            None => Vec::new(),
        };
        return FastPath::Reply(reply);
    }
    FastPath::Lookup(info)
}

/// Counters after a cache hit.
pub open spec fn counted_hit(c: QueryLogCounters) -> QueryLogCounters {
    QueryLogCounters { cache_hits: bumped(c.cache_hits, 1), ..c }
}

/// Hands out the response that a cache hit wrote into `arena`, counts the hit, and logs it when
/// the entry's name was asked for.
pub fn serve_cache_hit(
    ql: &mut QueryLogHandle,
    routing: &RoutingConfig,
    info: FastQueryInfo,
    peer: Peer,
    qname: Option<String>,
    rule_id: u16,
    arena: &mut ResponseArena,
    elapsed_us: u64,
    now_micros: u64,
) -> (r: Bytes)
    requires
        old(ql).wf(),
        old(arena).wf(),
    ensures
        final(ql).wf(),
        final(arena).wf(),
        final(arena)@ == Seq::<u8>::empty(),
        shared_bytes(r) == old(arena)@,
        ({
            let counted = QueryLogHandle {
                counters: counted_hit(old(ql).counters),
                ..*old(ql)
            };
            match qname {
                Some(q) => logged(
                    counted,
                    *final(ql),
                    EventFacts {
                        now_micros,
                        peer,
                        qname: encode_utf8(q@),
                        qtype: info.qtype,
                        question_end: info.question_end as int,
                        reply: old(arena)@,
                        source: "cache"@,
                        upstream: attributed_text(rule_id, *routing),
                        elapsed_us,
                        with_ips: old(ql).answer_ips,
                    },
                ),
                None => *final(ql) == counted,
            }
        }),
{
    ql.counters.cache_hits = ql.counters.cache_hits.wrapping_add(1);
    match qname {
        Some(q) => {
            let upstream = upstream_name_for_rule_id(rule_id, routing);
            offer_event(
                ql,
                peer,
                q,
                info.qtype,
                info.question_end,
                arena.buf(),
                "cache",
                upstream,
                elapsed_us,
                now_micros,
            );
        },
        None => {},
    }
    arena.take()
}

// What the first look comes to.

/// The first look at any packet: one without a complete header, and one that is marked as a
/// response, is dropped. One for another operation than lookup is answered by a bare header with
/// its identifier, operation and recursion wish, and the code for not implemented.
pub proof fn law_first_look_at_headers(p: Seq<u8>)
    ensures
        p.len() < 12 ==> fast_decision(p) == FastDecision::Drop,
        p.len() >= 12 && p[2] >= 128 ==> fast_decision(p) == FastDecision::Drop,
        p.len() >= 12 && p[2] < 128 && (p[2] / 8) % 16 != 0 ==> {
            let m = fast_decision(p)->Reply_0;
            &&& fast_decision(p) is Reply
            &&& m.len() == 12
            &&& m[0] == p[0] && m[1] == p[1]
            &&& m[2] == 128 + (p[2] / 8) % 16 * 8 + p[2] % 2
            &&& m[3] == 128 + 4
            &&& forall|i: int| 4 <= i < 12 ==> #[trigger] m[i] == 0
        },
{
    if p.len() >= 12 {
        law_header_bits(p);
        let b = p[2];
        assert((b & 0x80 == 0) == (b < 128)) by (bit_vector);
        assert(b < 128 ==> (0x80u8 | (b & 0x79u8)) == 128 + (b / 8) % 16 * 8 + b % 2) by (bit_vector);
        assert(0x80u8 | 4u8 == 132u8) by (bit_vector);
    }
}

/// The first look at a lookup with one question: the Internet class and any class are looked up, by
/// the identifier, the type and the question's end as they stand in the packet. Every other class
/// is answered as not implemented, with the question repeated.
pub proof fn law_first_look_at_questions(
    header: Seq<u8>,
    labels: Seq<Seq<u8>>,
    qtype: u16,
    qclass: u16,
    tail: Seq<u8>,
)
    requires
        header.len() == 12,
        header[2] < 8,
        header[4] == 0,
        header[5] == 1,
        fit_labels(labels),
        12 + wire_name(labels).len() + 4 + tail.len() <= usize::MAX,
    ensures
        ({
            let question = wire_name(labels) + seq![
                (qtype / 256) as u8,
                (qtype % 256) as u8,
                (qclass / 256) as u8,
                (qclass % 256) as u8,
            ];
            let p = header + question + tail;
            let end = 12 + question.len();
            if qclass == 1 || qclass == 255 {
                fast_decision(p) == FastDecision::Lookup(
                    FastQueryInfo {
                        id: (header[0] * 256 + header[1]) as u16,
                        qtype,
                        question_end: end as usize,
                    },
                )
            } else {
                let m = fast_decision(p)->Reply_0;
                &&& fast_decision(p) is Reply
                &&& m.len() == end
                &&& m[0] == header[0] && m[1] == header[1]
                &&& m[2] >= 128
                &&& m[3] == 128 + 4
                &&& m.skip(12) == question
            }
        }),
{
    let fixed = seq![
        (qtype / 256) as u8,
        (qtype % 256) as u8,
        (qclass / 256) as u8,
        (qclass % 256) as u8,
    ];
    let question = wire_name(labels) + fixed;
    let p = header + question + tail;
    let end = (12 + question.len()) as int;
    assert(p =~= header + wire_name(labels) + fixed + tail);
    law_question_is_read(header, labels, qtype, qclass, tail);
    law_header_bits(p);
    assert(p[2] == header[2]);
    law_local_reply_header(p, end, RCODE_NOTIMP, None);
    let m = local_reply(p, end, RCODE_NOTIMP, None);
    assert(m.skip(12) =~= m.subrange(12, end));
    assert(p.subrange(12, end) =~= question);
}

/// A packet that is looked up holds exactly one question, and it is of the Internet class or any.
pub proof fn law_lookups_hold_one_question(p: Seq<u8>)
    requires
        p.len() <= usize::MAX,
        fast_decision(p) is Lookup,
    ensures
        p.len() >= 12,
        p[2] < 8,
        p[4] == 0,
        p[5] == 1,
        ({
            let info = fast_decision(p)->Lookup_0;
            &&& 17 <= info.question_end <= p.len()
            &&& info.id == p[0] * 256 + p[1]
            &&& info.qtype == p[info.question_end - 4] * 256 + p[info.question_end - 3]
            &&& be16(p, info.question_end - 2) == 1 || be16(p, info.question_end - 2) == 255
        }),
{
    law_header_bits(p);
    lemma_question_end_bound(p);
    let b = p[2];
    assert((b & 0x80 == 0) == (b < 128)) by (bit_vector);
    assert(b < 128 && (b / 8) % 16 == 0 ==> b < 8) by (bit_vector);
}

/// The name that is asked for is that of the question, in lower case with dots between its labels,
/// whatever follows the question.
pub proof fn law_asked_name_is_that_of_the_question(
    header: Seq<u8>,
    labels: Seq<Seq<u8>>,
    qtype: u16,
    qclass: u16,
    tail: Seq<u8>,
)
    requires
        header.len() == 12,
        fit_labels(labels),
        valid_utf8(dotted(labels)),
        12 + wire_name(labels).len() + 4 + tail.len() <= usize::MAX,
    ensures
        asked_name(
            header + wire_name(labels) + seq![
                (qtype / 256) as u8,
                (qtype % 256) as u8,
                (qclass / 256) as u8,
                (qclass % 256) as u8,
            ] + tail,
        ) == dotted(labels),
{
    law_question_is_read(header, labels, qtype, qclass, tail);
}

/// A cached response is attributed to whatever it was kept for: to the server of its rule, to the
/// server of the final fallback that answered, to the fallback as such, or to nothing.
pub proof fn law_cached_response_is_attributed(routing: RoutingConfig, i: usize)
    ensures
        i < routing.rules@.len() && i <= 32767 ==> attributed_text(
            wire_of(RuleAttribution::Rule(i)),
            routing,
        ) == Some(routing.rules@[i as int].server@),
        i < routing.servers@.len() && i <= 32765 ==> attributed_text(
            wire_of(RuleAttribution::Final(i)),
            routing,
        ) == Some(routing.servers@[i as int].final_name@),
        attributed_text(wire_of(RuleAttribution::FinalUnknown), routing) == Some("final"@),
        attributed_text(wire_of(RuleAttribution::NoRule), routing) is None,
        routing.rules@.len() <= i <= 32767 ==> attributed_text(
            wire_of(RuleAttribution::Rule(i)),
            routing,
        ) is None,
{
    if i <= 32767 {
        law_attribution_roundtrip(RuleAttribution::Rule(i));
    }
    if i <= 32765 {
        law_attribution_roundtrip(RuleAttribution::Final(i));
    }
    law_attribution_roundtrip(RuleAttribution::FinalUnknown);
    law_attribution_roundtrip(RuleAttribution::NoRule);
}

/// A query counts once as a query and once under its transport, a hit once as a hit, and a latency
/// once with its time; no other counter moves.
pub proof fn law_each_event_counts_once(c: QueryLogCounters, elapsed_us: u64)
    requires
        c.queries_total < u64::MAX,
        c.queries_udp < u64::MAX,
        c.queries_tcp < u64::MAX,
        c.cache_hits < u64::MAX,
        c.rtt_count < u64::MAX,
        c.rtt_sum_us + elapsed_us <= u64::MAX,
    ensures
        counted_query(c, ClientProto::Udp) == (QueryLogCounters {
            queries_total: (c.queries_total + 1) as u64,
            queries_udp: (c.queries_udp + 1) as u64,
            ..c
        }),
        counted_query(c, ClientProto::Tcp) == (QueryLogCounters {
            queries_total: (c.queries_total + 1) as u64,
            queries_tcp: (c.queries_tcp + 1) as u64,
            ..c
        }),
        counted_hit(c) == (QueryLogCounters { cache_hits: (c.cache_hits + 1) as u64, ..c }),
        counted_latency(c, elapsed_us) == (QueryLogCounters {
            rtt_sum_us: (c.rtt_sum_us + elapsed_us) as u64,
            rtt_count: (c.rtt_count + 1) as u64,
            ..c
        }),
{
}

/// What the log says of a reply to a query: the client and the question of the query, the response
/// code and the length of the reply, its addresses where they are wanted, and when and from where
/// it came.
pub proof fn law_event_tells_of_the_reply(
    ctx: QueryContext,
    reply: Seq<u8>,
    source: Seq<char>,
    upstream: Option<Seq<char>>,
    elapsed_us: u64,
    now_micros: u64,
    with_ips: bool,
    seq: u64,
    ev: QueryLogEvent,
)
    requires
        ctx.wf(),
        reply.len() <= u32::MAX,
        says(ev, seq, ctx.facts(reply, source, upstream, elapsed_us, now_micros, with_ips)),
    ensures
        ev.seq == seq,
        ev.unix_micros == now_micros,
        ev.client == ctx.peer.ip,
        ev.client_port == ctx.peer.port,
        encode_utf8(ev.qname@) == asked_name(ctx.packet@),
        ev.qtype == be16(ctx.packet@, ctx.info.question_end - 4),
        reply.len() > 3 ==> ev.rcode == reply[3] % 16,
        ev.elapsed_us == elapsed_us,
        ev.response_bytes == reply.len(),
        ev.source@ == source,
        text_of(ev.rule) == upstream,
        with_ips ==> ev.answer_ips@ == answer_ips_of(reply, ctx.info.question_end as int),
        !with_ips ==> ev.answer_ips@.len() == 0,
{
    if reply.len() > 3 {
        let c = reply[3];
        assert(c & 0x0f == c % 16) by (bit_vector);
    }
    assert(ctx.packet.len() == ctx.packet@.len());
    lemma_question_end_bound(ctx.packet@);
}

} // verus!
