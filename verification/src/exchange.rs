//! The slow path: admission, routing, deduplication, the upstream exchange with its response
//! filters, and the choice between the two servers of a fallback.

use crate::config::{AnswerIpMatcher, CacheConfig, FallbackTarget, FixedAnswer, FixedAnswerSet};
use crate::config::{merged_policy, ResolvedCachePolicy};
use crate::dns::{
    a_reply, aaaa_reply, answer_ips, answer_ips_of, answers_of, be128_bytes, be32, be32_bytes,
    empty_reply, law_local_reply_answers_query, law_local_reply_carries_its_record,
    lemma_question_end_bound, local_reply, question_end, question_end_of, question_fits,
    questions_match, rcode, rcode_of, rcode_reply, servfail_reply, set_id, with_id, LocalRecord,
    HEADER_LEN, RCODE_SERVFAIL, TYPE_A, TYPE_AAAA,
};
use crate::edns::{
    carries_ecs, ecs_stripped, has_options, opt_emptied, strip_edns_ecs, strip_opt_rdata,
};
use crate::iprange::IpAddr;
use crate::querylog::{QueryLogCounters, QueryLogHandle};
use crate::resolver::{
    asked_name, attributed_text, counted_latency, emit_slow_event, law_attribution_roundtrip,
    logged, record_client_latency, wire_of, QueryContext, QueryInfo, RuleAttribution,
};
use crate::response_filter::{first_match, first_met, law_first_met, FilterAction};
use crate::route_index::{constant_decision, first_rule, law_constant_route, law_first_rule};
use crate::router::{classify_target, fallback_target, RouteTarget};
use crate::ruleset::RuleSetDb;
use crate::server::{HotState, RoutingConfig, Rule, Server, ServerKind};
use crate::singleflight::{
    publish_bytes, publish_drop, register, registered, role_in, waiting, InflightTable, Outcome, Role,
};
use crate::stats::bumped;
use crate::text::same_ignoring_case;
use crate::verdict_cache::{verdict_at, VerdictCache};
use vstd::prelude::*;
use vstd::slice::{slice_subrange, slice_to_vec};
use vstd::utf8::encode_utf8;
use vstd::wrapping::u64_specs;
verus! {

// Admission.

/// What to do with a query, given whether it got one of the permits.
#[derive(Clone, Copy, Debug, PartialEq, Eq, Structural)]
pub enum Admission {
    Go,
    /// Wait for a permit for so many milliseconds, then decide.
    Wait(u64),
    /// Too many queries: reject.
    Overload,
}

/// What becomes of a query that tried to get a permit.
pub open spec fn admission_of(acquired: bool, queue_ms: u64) -> Admission {
    if acquired {
        Admission::Go
    } else if queue_ms > 0 {
        Admission::Wait(queue_ms)
    } else {
        Admission::Overload
    }
}

/// Decides on a query that tried to get a permit. One without a permit waits, where waiting is
/// configured.
pub fn admission_for(acquired: bool, queue_ms: u64, ql: &mut QueryLogHandle) -> (r: Admission)
    ensures
        r == admission_of(acquired, queue_ms),
        *final(ql) == (if r is Wait {
            QueryLogHandle {
                counters: QueryLogCounters {
                    inflight_queued: bumped(old(ql).counters.inflight_queued, 1),
                    ..old(ql).counters
                },
                ..*old(ql)
            }
        } else {
            *old(ql)
        }),
{
    if acquired {
        Admission::Go
    } else if queue_ms > 0 {
        ql.counters.inflight_queued = ql.counters.inflight_queued.wrapping_add(1);
        Admission::Wait(queue_ms)
    } else {
        Admission::Overload
    }
}

/// Counters after a query was rejected for want of a permit.
pub open spec fn counted_overload(c: QueryLogCounters) -> QueryLogCounters {
    QueryLogCounters { inflight_drops: bumped(c.inflight_drops, 1), ..c }
}

/// Rejects a query for want of a permit.
pub fn refuse_overload(ctx: &QueryContext, ql: &mut QueryLogHandle, now_micros: u64) -> (r: Vec<u8>)
    requires
        ctx.wf(),
        old(ql).wf(),
    ensures
        final(ql).wf(),
        r@ == ctx.servfail(),
        logged(
            QueryLogHandle { counters: counted_overload(old(ql).counters), ..*old(ql) },
            *final(ql),
            ctx.facts(ctx.servfail(), "overload"@, None, 0, now_micros, old(ql).answer_ips),
        ),
{
    ql.counters.inflight_drops = ql.counters.inflight_drops.wrapping_add(1);
    let reply = servfail_for(ctx);
    emit_slow_event(ctx, ql, reply.as_slice(), "overload", None, 0, now_micros);
    reply
}

fn servfail_for(ctx: &QueryContext) -> (r: Vec<u8>)
    requires
        ctx.wf(),
    ensures
        r@ == ctx.servfail(),
{
    match servfail_reply(ctx.packet.as_slice(), ctx.info.question_end) {
        Some(m) => m,
        None => Vec::new(),
    }
}

// Routing.

/// Position of the rule that a query is routed to. Afterwards the name of the question is at hand
/// when the routing depends on it or `keep_name` asks for it.
pub fn choose_rule(hot: &mut HotState, ctx: &mut QueryContext, keep_name: bool) -> (r: Option<
    usize,
>)
    requires
        old(hot).wf(),
        old(ctx).wf(),
    ensures
        final(hot).wf(),
        final(hot).routing == old(hot).routing,
        final(hot).ruleset == old(hot).ruleset,
        final(hot).generation == old(hot).generation,
        final(ctx).wf(),
        final(ctx).packet == old(ctx).packet,
        final(ctx).info == old(ctx).info,
        final(ctx).peer == old(ctx).peer,
        final(ctx).proto == old(ctx).proto,
        keep_name || constant_decision(old(hot).routing.rules@) is None ==> final(ctx).qname
            is Some,
        match first_rule(
            old(hot).routing.rules@,
            asked_name(old(ctx).packet@),
            old(hot).db(),
        ) {
            Some(i) => r == Some(i as usize) && 0 <= i < old(hot).routing.rules@.len(),
            None => r is None,
        },
{
    let ghost rules = hot.routing.rules@;
    let ghost name = asked_name(ctx.packet@);
    proof {
        law_first_rule(rules, name, hot.db());
        assert(hot.routing_index.describes(rules));
    }
    match hot.routing_index.constant_target() {
        Some(constant) => {
            proof {
                law_constant_route(rules, name, hot.db());
            }
            if keep_name {
                ctx.ensure_qname();
            }
            constant
        },
        None => {
            ctx.ensure_qname();
            let qname: String = ctx.qname_owned();
            hot.route(qname.as_str())
        },
    }
}

/// The target of a query: the rule at this position, or else the fallback.
pub open spec fn target_of<'a>(
    routing: &'a RoutingConfig,
    rule: Option<usize>,
    qtype: u16,
) -> RouteTarget<'a> {
    match rule {
        Some(i) => RouteTarget::Rule(&routing.rules@[i as int], i),
        None => fallback_target(routing, qtype),
    }
}

/// The target of a query that is routed to the rule at this position.
pub fn target_at<'a>(routing: &'a RoutingConfig, rule: Option<usize>, qtype: u16) -> (r: RouteTarget<
    'a,
>)
    requires
        routing.wf(),
        rule is Some ==> rule->0 < routing.rules@.len(),
    ensures
        r == target_of(routing, rule, qtype),
{
    match rule {
        Some(i) => routing.rules[i].target(),
        None => classify_target(routing, qtype),
    }
}

// Fixed answers.

/// The last IPv4 record, with its time to live.
pub open spec fn last_v4(answers: Seq<FixedAnswer>) -> Option<(u32, u32)>
    decreases answers.len(),
{
    if answers.len() == 0 {
        None
    } else {
        match answers.last() {
            FixedAnswer::A(addr, ttl) => Some((addr, ttl)),
            FixedAnswer::Aaaa(_, _) => last_v4(answers.drop_last()),
        }
    }
}

/// The last IPv6 record, with its time to live.
pub open spec fn last_v6(answers: Seq<FixedAnswer>) -> Option<(u128, u32)>
    decreases answers.len(),
{
    if answers.len() == 0 {
        None
    } else {
        match answers.last() {
            FixedAnswer::Aaaa(addr, ttl) => Some((addr, ttl)),
            FixedAnswer::A(_, _) => last_v6(answers.drop_last()),
        }
    }
}

/// The reply that a fixed answer gives: the address of the type asked for, or no record; a bare
/// response code where no address is configured.
pub open spec fn fixed_reply(
    query: Seq<u8>,
    question_end: int,
    qtype: u16,
    answers: Seq<FixedAnswer>,
    code: Option<u8>,
) -> Seq<u8> {
    if answers.len() > 0 {
        if qtype == TYPE_A && last_v4(answers) is Some {
            let (addr, ttl) = last_v4(answers)->0;
            local_reply(
                query,
                question_end,
                0,
                Some(LocalRecord { rtype: TYPE_A, ttl, data: be32_bytes(addr) }),
            )
        } else if qtype == TYPE_AAAA && last_v6(answers) is Some {
            let (addr, ttl) = last_v6(answers)->0;
            local_reply(
                query,
                question_end,
                0,
                Some(LocalRecord { rtype: TYPE_AAAA, ttl, data: be128_bytes(addr) }),
            )
        } else {
            local_reply(query, question_end, 0, None)
        }
    } else {
        local_reply(
            query,
            question_end,
            match code {
                Some(c) => c,
                None => 0,
            },
            None,
        )
    }
}

/// Makes the reply of a fixed answer; `None` when the question does not fit into the packet.
pub fn synth_fixed_answer(
    packet: &[u8],
    question_end: usize,
    qtype: u16,
    set: &FixedAnswerSet,
) -> (r: Option<Vec<u8>>)
    ensures
        match r {
            Some(m) => question_fits(packet@, question_end as int) && m@ == fixed_reply(
                packet@,
                question_end as int,
                qtype,
                set.answers@,
                set.rcode,
            ),
            None => !question_fits(packet@, question_end as int),
        },
{
    if set.answers.len() > 0 {
        let mut a: Option<(u32, u32)> = None;
        let mut aaaa: Option<(u128, u32)> = None;
        let mut i: usize = 0;
        while i < set.answers.len()
            invariant
                i <= set.answers@.len(),
                a == last_v4(set.answers@.take(i as int)),
                aaaa == last_v6(set.answers@.take(i as int)),
            decreases set.answers@.len() - i,
        {
            proof {
                assert(set.answers@.take(i + 1).drop_last() =~= set.answers@.take(i as int));
                assert(set.answers@.take(i + 1).last() == set.answers@[i as int]);
            }
            match set.answers[i] {
                FixedAnswer::A(addr, ttl) => {
                    a = Some((addr, ttl));
                },
                FixedAnswer::Aaaa(addr, ttl) => {
                    aaaa = Some((addr, ttl));
                },
            }
            i += 1;
        }
        proof {
            assert(set.answers@.take(set.answers@.len() as int) =~= set.answers@);
        }
        if qtype == TYPE_A {
            if let Some((addr, ttl)) = a {
                return a_reply(packet, question_end, addr, ttl);
            }
        }
        if qtype == TYPE_AAAA {
            if let Some((addr, ttl)) = aaaa {
                return aaaa_reply(packet, question_end, addr, ttl);
            }
        }
        return empty_reply(packet, question_end);
    }
    let code: u8 = match set.rcode {
        Some(c) => c,
        None => 0,
    };
    if code == 0 {
        empty_reply(packet, question_end)
    } else {
        rcode_reply(packet, question_end, code)
    }
}

// Deduplication.

/// Factor by which the routing generation enters the key of a flight.
pub const GENERATION_FACTOR: u64 = 0x9e3779b97f4a7c15;

/// How a query is looked up and deduplicated.
#[derive(Clone, Copy, Debug, PartialEq, Eq, Structural)]
pub struct ExchangePlan {
    /// Key of the cache entry.
    pub key: u64,
    /// Key of the exchange in flight.
    pub flight: u64,
    /// The client subnet does not matter to the target and is left out of the cache entry.
    pub strip: bool,
}

/// The key of the exchange for a cache key under a routing generation.
pub open spec fn flight_key(key: u64, generation: u64) -> u64 {
    key ^ u64_specs::wrapping_mul(generation, GENERATION_FACTOR)
}

pub open spec fn plan_of(info: QueryInfo, strips_ecs: bool, generation: u64) -> ExchangePlan {
    let strip = strips_ecs && info.has_ecs;
    let key = if strip && info.stripped_key is Some {
        info.stripped_key->0
    } else {
        info.regular_key
    };
    ExchangePlan { key, flight: flight_key(key, generation), strip }
}

/// Starts the exchange of a query: its keys, and whether it asks itself or waits for a query that
/// already does.
pub fn begin_exchange(
    table: &mut InflightTable,
    info: QueryInfo,
    target: &RouteTarget<'_>,
    generation: u64,
    ticket: u64,
) -> (r: (ExchangePlan, Role))
    requires
        old(table).wf(),
    ensures
        final(table).wf(),
        r.0 == plan_of(info, target.strips_ecs(), generation),
        r.1 == role_in(old(table)@, r.0.flight),
        final(table)@ == registered(old(table)@, r.0.flight, ticket),
{
    let strip = target.strip_ecs() && info.has_ecs;
    let key: u64 = if strip {
        match info.stripped_key {
            Some(k) => k,
            None => info.regular_key,
        }
    } else {
        info.regular_key
    };
    let flight: u64 = key ^ generation.wrapping_mul(GENERATION_FACTOR);
    let role = register(table, flight, ticket);
    (ExchangePlan { key, flight, strip }, role)
}

proof fn lemma_factor_is_injective(a: u64, b: u64)
    requires
        u64_specs::wrapping_mul(a, GENERATION_FACTOR) == u64_specs::wrapping_mul(
            b,
            GENERATION_FACTOR,
        ),
    ensures
        a == b,
{
    let m: int = 0x1_0000_0000_0000_0000;
    let f: int = 0x9e3779b97f4a7c15;
    let inverse: int = 17428512612931826493;
    let k: int = 10771413168148108919;
    let x = a as int;
    let y = b as int;
    assert(f * inverse == 1 + k * m) by (nonlinear_arith)
        requires
            m == 0x1_0000_0000_0000_0000int,
            f == 0x9e3779b97f4a7c15int,
            inverse == 17428512612931826493int,
            k == 10771413168148108919int,
    ;
    let qa = (x * f) / m;
    let qb = (y * f) / m;
    assert(x * f == m * qa + (x * f) % m) by {
        vstd::arithmetic::div_mod::lemma_fundamental_div_mod(x * f, m);
    }
    assert(y * f == m * qb + (y * f) % m) by {
        vstd::arithmetic::div_mod::lemma_fundamental_div_mod(y * f, m);
    }
    assert((x * f) % m == (y * f) % m);
    assert((x - y) * f == m * (qa - qb)) by (nonlinear_arith)
        requires
            x * f == m * qa + (x * f) % m,
            y * f == m * qb + (y * f) % m,
            (x * f) % m == (y * f) % m,
    ;
    let t = (qa - qb) * inverse - (x - y) * k;
    assert(x - y == m * t) by (nonlinear_arith)
        requires
            (x - y) * f == m * (qa - qb),
            f * inverse == 1 + k * m,
            t == (qa - qb) * inverse - (x - y) * k,
    ;
    assert(t == 0) by (nonlinear_arith)
        requires
            x - y == m * t,
            m == 0x1_0000_0000_0000_0000int,
            -m < x - y < m,
    ;
}

/// Queries of different routing generations never share an exchange, though they share a cache
/// key.
pub proof fn law_generations_do_not_share_flights(key: u64, a: u64, b: u64)
    requires
        a != b,
    ensures
        flight_key(key, a) != flight_key(key, b),
{
    let x = u64_specs::wrapping_mul(a, GENERATION_FACTOR);
    let y = u64_specs::wrapping_mul(b, GENERATION_FACTOR);
    if x == y {
        lemma_factor_is_injective(a, b);
    }
    assert(x != y ==> key ^ x != key ^ y) by (bit_vector);
}

/// Exchanges that one query can take at most: the first, and one more where a filter forwards.
pub const MAX_EXCHANGES_PER_QUERY: u64 = 2;

/// How long a follower waits for its leader, in microseconds.
pub open spec fn follower_wait_us(timeout_us: u64, hedge_delay_us: Option<u64>) -> int {
    MAX_EXCHANGES_PER_QUERY * timeout_us + (match hedge_delay_us {
        Some(d) => d as int,
        None => 0,
    }) + 1_000_000
}

/// How long a follower waits for its leader, in microseconds. It covers the longest exchange that
/// the leader can need.
pub fn follower_deadline_us(timeout_us: u64, hedge_delay_us: Option<u64>) -> (r: u64)
    requires
        follower_wait_us(timeout_us, hedge_delay_us) <= u64::MAX,
    ensures
        r == follower_wait_us(timeout_us, hedge_delay_us),
{
    let hedge: u64 = match hedge_delay_us {
        Some(d) => d,
        None => 0,
    };
    MAX_EXCHANGES_PER_QUERY * timeout_us + hedge + 1_000_000
}

/// A message with another question in the place of its own.
pub open spec fn with_question(resp: Seq<u8>, question: Seq<u8>) -> Seq<u8> {
    resp.take(HEADER_LEN as int) + question + resp.skip(HEADER_LEN + question.len())
}

/// Writes the question over that of a response.
fn restore_question(resp: &mut Vec<u8>, question: &[u8])
    requires
        HEADER_LEN + question@.len() <= old(resp)@.len(),
    ensures
        final(resp)@ == with_question(old(resp)@, question@),
{
    let ghost before = resp@;
    let mut i: usize = 0;
    assert(question.len() == question@.len());
    while i < question.len()
        invariant
            i <= question@.len(),
            question.len() == question@.len(),
            HEADER_LEN + question@.len() <= before.len(),
            resp@.len() == before.len(),
            resp@ =~= before.take(HEADER_LEN as int) + question@.take(i as int) + before.skip(
                HEADER_LEN + i,
            ),
        decreases question@.len() - i,
    {
        assert(resp.len() == resp@.len());
        resp[HEADER_LEN + i] = question[i];
        i += 1;
        proof {
            assert(resp@ =~= before.take(HEADER_LEN as int) + question@.take(i as int)
                + before.skip(HEADER_LEN + i));
        }
    }
    proof {
        assert(question@.take(question@.len() as int) =~= question@);
    }
}

impl QueryContext {
    /// Bytes of the question.
    pub fn question(&self) -> (r: &[u8])
        requires
            self.wf(),
        ensures
            r@ == self.question_bytes(),
    {
        slice_subrange(self.packet.as_slice(), HEADER_LEN, self.info.question_end)
    }

    /// A response to the same question, up to letter case.
    pub open spec fn same_question(self, resp: Seq<u8>) -> bool {
        &&& question_end_of(resp) == Some(self.info.question_end as int)
        &&& same_ignoring_case(
            resp.subrange(HEADER_LEN as int, self.info.question_end as int),
            self.question_bytes(),
        )
    }

    /// A response in the words of this query: its identifier and the spelling of its question.
    pub open spec fn own_reply(self, resp: Seq<u8>) -> Seq<u8> {
        with_question(with_id(resp, self.info.id), self.question_bytes())
    }
}

/// What a follower replies.
pub open spec fn follower_reply(ctx: QueryContext, outcome: Outcome) -> Option<Seq<u8>> {
    match outcome {
        Outcome::Reply(b) => if ctx.same_question(b@) {
            Some(ctx.own_reply(b@))
        } else {
            Some(ctx.servfail())
        },
        Outcome::NoReply => None,
        Outcome::Abandoned => Some(ctx.servfail()),
    }
}

/// Counters after a follower was served.
pub open spec fn counted_follower(c: QueryLogCounters, elapsed_us: u64) -> QueryLogCounters {
    let c = counted_latency(c, elapsed_us);
    QueryLogCounters { singleflight_hits: bumped(c.singleflight_hits, 1), ..c }
}

/// Ends the exchange of a follower with what its leader left it. A leader that left nothing, or a
/// response to another question under the same key, means server failure. A follower that gave up
/// waiting counts as abandoned.
pub fn finish_follower(
    ctx: &QueryContext,
    ql: &mut QueryLogHandle,
    target: &RouteTarget<'_>,
    outcome: Outcome,
    elapsed_us: u64,
    now_micros: u64,
) -> (r: Option<Vec<u8>>)
    requires
        ctx.wf(),
        old(ql).wf(),
    ensures
        final(ql).wf(),
        match r {
            Some(m) => follower_reply(*ctx, outcome) == Some(m@),
            None => follower_reply(*ctx, outcome) is None,
        },
        ({
            let counted = QueryLogHandle {
                counters: counted_follower(old(ql).counters, elapsed_us),
                ..*old(ql)
            };
            match follower_reply(*ctx, outcome) {
                Some(m) => logged(
                    counted,
                    *final(ql),
                    ctx.facts(
                        m,
                        "singleflight"@,
                        Some(target.report_text()),
                        elapsed_us,
                        now_micros,
                        old(ql).answer_ips,
                    ),
                ),
                None => *final(ql) == counted,
            }
        }),
{
    record_client_latency(ql, elapsed_us);
    ql.counters.singleflight_hits = ql.counters.singleflight_hits.wrapping_add(1);
    let reply: Vec<u8> = match outcome {
        Outcome::NoReply => {
            return None;
        },
        Outcome::Abandoned => servfail_for(ctx),
        Outcome::Reply(resp) => {
            let own_question = match question_end(resp.as_slice()) {
                Some(e) => e == ctx.info.question_end && questions_match(
                    slice_subrange(resp.as_slice(), HEADER_LEN, e),
                    ctx.question(),
                ),
                None => false,
            };
            if own_question {
                let mut mine = resp;
                let _had_header = set_id(&mut mine, ctx.info.id);
                restore_question(&mut mine, ctx.question());
                mine
            } else {
                servfail_for(ctx)
            }
        },
    };
    emit_slow_event(
        ctx,
        ql,
        reply.as_slice(),
        "singleflight",
        Some(target.upstream_name_arc()),
        elapsed_us,
        now_micros,
    );
    Some(reply)
}

/// A follower that is given a response replies to its own query: with its own identifier, and its
/// own question letter by letter; the rest is the leader's response.
pub proof fn law_follower_reply_is_its_own(ctx: QueryContext, resp: Seq<u8>)
    requires
        ctx.wf(),
        ctx.same_question(resp),
    ensures
        crate::dns::be16(ctx.own_reply(resp), 0) == ctx.info.id,
        ctx.own_reply(resp).len() == resp.len(),
        ctx.own_reply(resp).subrange(HEADER_LEN as int, ctx.info.question_end as int)
            == ctx.question_bytes(),
        ctx.own_reply(resp).skip(ctx.info.question_end as int) == resp.skip(
            ctx.info.question_end as int,
        ),
        ctx.own_reply(resp).subrange(2, HEADER_LEN as int) == resp.subrange(2, HEADER_LEN as int),
{
    crate::dns::lemma_question_end_bound(resp);
    crate::dns::law_set_id_reads_back(resp, ctx.info.id);
    let r = ctx.own_reply(resp);
    assert(r.take(2) =~= with_id(resp, ctx.info.id).take(2));
    assert(r[0] == with_id(resp, ctx.info.id)[0]);
    assert(r[1] == with_id(resp, ctx.info.id)[1]);
    assert(r.subrange(HEADER_LEN as int, ctx.info.question_end as int) =~= ctx.question_bytes());
    assert(r.skip(ctx.info.question_end as int) =~= resp.skip(ctx.info.question_end as int));
    assert(r.subrange(2, HEADER_LEN as int) =~= resp.subrange(2, HEADER_LEN as int));
}

// Exchange and response filters.

/// Why an exchange failed.
#[derive(Clone, Copy, Debug, PartialEq, Eq, Structural)]
pub enum ExchangeError {
    /// The upstream server has too many queries in flight.
    InflightCap,
    /// Anything else.
    Failed,
}

/// How a server resolves a query.
pub enum KindStep {
    /// It answers locally.
    Local(Vec<u8>),
    /// Ask the upstream pool of this number.
    Ask(usize),
}

/// How a server of this kind resolves a query.
pub fn exchange_kind(ctx: &QueryContext, kind: &ServerKind) -> (r: KindStep)
    requires
        ctx.wf(),
    ensures
        match *kind {
            ServerKind::Upstream(pool) => r == KindStep::Ask(pool),
            ServerKind::Fixed(set) => match r {
                KindStep::Local(m) => m@ == fixed_reply(
                    ctx.packet@,
                    ctx.info.question_end as int,
                    ctx.info.qtype,
                    set.answers@,
                    set.rcode,
                ),
                KindStep::Ask(_) => false,
            },
        },
{
    match kind {
        ServerKind::Upstream(pool) => KindStep::Ask(*pool),
        ServerKind::Fixed(set) => {
            let reply = synth_fixed_answer(
                ctx.packet.as_slice(),
                ctx.info.question_end,
                ctx.info.qtype,
                set,
            );
            KindStep::Local(
                match reply {
                    Some(m) => m,
                    None => Vec::new(),
                },
            )
        },
    }
}

/// Outcome of a target's exchange and filters.
pub enum StepOutcome {
    /// A response, where it came from, the winner of a pair of servers and the server that a
    /// filter forwarded to.
    Response(Vec<u8>, &'static str, Option<usize>, Option<usize>),
    /// Send no reply.
    Drop,
}

/// What follows an exchange.
pub enum FilterStep {
    Done(StepOutcome),
    /// Ask the server at this position; its response is the outcome.
    Forward(usize),
}

/// Addresses to put into the set of a filter.
pub struct AddIps {
    pub rule: usize,
    pub filter: usize,
    pub ips: Vec<IpAddr>,
}

/// The filter of the target that a response meets.
pub open spec fn met_filter(
    target: RouteTarget<'_>,
    ruleset: Option<&RuleSetDb>,
    resp: Seq<u8>,
    question_end: int,
) -> Option<int> {
    match target {
        RouteTarget::Rule(rule, _) => first_met(rule.filters@, ruleset, resp, question_end),
        _ => None,
    }
}

/// What the filter that a response meets does with it.
pub open spec fn met_action(
    target: RouteTarget<'_>,
    ruleset: Option<&RuleSetDb>,
    resp: Seq<u8>,
    question_end: int,
) -> FilterAction {
    match target {
        RouteTarget::Rule(rule, _) => match first_met(
            rule.filters@,
            ruleset,
            resp,
            question_end,
        ) {
            Some(i) => rule.filters@[i].action,
            None => FilterAction::Accept,
        },
        _ => FilterAction::Accept,
    }
}

/// What the filters of the target make of a response.
pub open spec fn filtered(
    target: RouteTarget<'_>,
    ruleset: Option<&RuleSetDb>,
    resp: Seq<u8>,
    question_end: int,
    winner: Option<usize>,
    has_ipset: bool,
    r: (FilterStep, Option<AddIps>),
) -> bool {
    match met_action(target, ruleset, resp, question_end) {
        FilterAction::Drop => r.0 == FilterStep::Done(StepOutcome::Drop) && r.1 is None,
        FilterAction::Forward(i) => r.0 == FilterStep::Forward(i) && r.1 is None,
        FilterAction::Accept => {
            &&& match r.0 {
                FilterStep::Done(StepOutcome::Response(b, source, w, f)) => b@ == resp && source@
                    == "upstream"@ && w == winner && f is None,
                _ => false,
            }
            &&& {
                let met = met_filter(target, ruleset, resp, question_end);
                let ips = answer_ips_of(resp, question_end);
                if has_ipset && met is Some && ips.len() > 0 {
                    match r.1 {
                        Some(add) => add.rule == target->Rule_1 && add.filter == met->0 && add.ips@
                            == ips,
                        None => false,
                    }
                } else {
                    r.1 is None
                }
            }
        },
    }
}

/// Applies the filters of a rule to its response. A filter that accepts may have addresses to add;
/// one that forwards names the server to ask, and the rule stays the one that is reported.
pub fn apply_filters(
    ctx: &QueryContext,
    target: &RouteTarget<'_>,
    ruleset: Option<&RuleSetDb>,
    resp: Vec<u8>,
    winner: Option<usize>,
    has_ipset: bool,
) -> (r: (FilterStep, Option<AddIps>))
    ensures
        filtered(
            *target,
            ruleset,
            resp@,
            ctx.info.question_end as int,
            winner,
            has_ipset,
            r,
        ),
{
    let mut add: Option<AddIps> = None;
    if let RouteTarget::Rule(rule, idx) = target {
        if let Some((filter_idx, filter)) = first_match(
            rule.filters.as_slice(),
            ruleset,
            resp.as_slice(),
            ctx.info.question_end,
        ) {
            match filter.action {
                FilterAction::Drop => {
                    return (FilterStep::Done(StepOutcome::Drop), None);
                },
                FilterAction::Forward(server) => {
                    return (FilterStep::Forward(server), None);
                },
                FilterAction::Accept => {
                    if has_ipset {
                        let ips = answer_ips(resp.as_slice(), ctx.info.question_end);
                        if ips.len() > 0 {
                            add = Some(AddIps { rule: *idx, filter: filter_idx, ips });
                        }
                    }
                },
            }
        }
    }
    (FilterStep::Done(StepOutcome::Response(resp, "upstream", winner, None)), add)
}

/// The outcome of asking the server that a filter forwarded to.
pub open spec fn forward_outcome(
    result: Result<Vec<u8>, ExchangeError>,
    server: usize,
    r: Result<StepOutcome, ExchangeError>,
) -> bool {
    match (result, r) {
        (Ok(b), Ok(StepOutcome::Response(m, source, winner, forwarded))) => m@ == b@ && source@
            == "forwarded"@ && winner is None && forwarded == Some(server),
        (Err(e), Err(f)) => e == f,
        _ => false,
    }
}

/// The outcome when a filter forwarded to the server at `server`.
pub fn after_forward(result: Result<Vec<u8>, ExchangeError>, server: usize) -> (r: Result<
    StepOutcome,
    ExchangeError,
>)
    ensures
        forward_outcome(result, server, r),
{
    match result {
        Ok(b) => Ok(StepOutcome::Response(b, "forwarded", None, Some(server))),
        Err(e) => Err(e),
    }
}

// End of a leader's exchange.

/// What is put into the cache.
pub struct CacheStore {
    pub key: u64,
    pub qname: String,
    pub question_end: usize,
    /// The query that the entry answers.
    pub query: Vec<u8>,
    /// The response, without options that belong to one connection.
    pub packet: Vec<u8>,
    pub policy: ResolvedCachePolicy,
    pub rule_id: u16,
}

/// What a leader leaves behind.
pub struct LeaderEnd {
    /// The reply to its client, if any.
    pub reply: Option<Vec<u8>>,
    /// What its followers are told, by ticket.
    pub deliveries: Vec<(u64, Outcome)>,
    pub store: Option<CacheStore>,
}

/// The server at a position.
pub open spec fn server_at(routing: RoutingConfig, idx: Option<usize>) -> Option<Server> {
    match idx {
        Some(i) => if i < routing.servers@.len() {
            Some(routing.servers@[i as int])
        } else {
            None
        },
        None => None,
    }
}

fn find_server<'a>(routing: &'a RoutingConfig, idx: Option<usize>) -> (r: Option<&'a Server>)
    ensures
        match r {
            Some(s) => server_at(*routing, idx) == Some(*s),
            None => server_at(*routing, idx) is None,
        },
{
    match idx {
        Some(i) => if i < routing.servers.len() {
            Some(&routing.servers[i])
        } else {
            None
        },
        None => None,
    }
}

/// What a response of the target is attributed to.
pub open spec fn attribution_for(target: RouteTarget<'_>, winner: Option<Server>) -> RuleAttribution {
    match target {
        RouteTarget::Rule(_, idx) => RuleAttribution::Rule(idx),
        RouteTarget::Server(_, idx) => RuleAttribution::Final(idx),
        _ => match winner {
            Some(w) => RuleAttribution::Final(w.index),
            None => RuleAttribution::FinalUnknown,
        },
    }
}

/// What answered the query: the server that was forwarded to, or else that of the target.
pub open spec fn answered_kind(
    target: RouteTarget<'_>,
    winner: Option<Server>,
    forwarded: Option<Server>,
) -> Option<ServerKind> {
    match forwarded {
        Some(s) => Some(s.kind),
        None => match target {
            RouteTarget::Rule(rule, _) => Some(rule.kind),
            RouteTarget::Server(s, _) => Some(s.kind),
            _ => match winner {
                Some(s) => Some(s.kind),
                None => None,
            },
        },
    }
}

/// The cache settings for a response of the target: those of the rule, or else the global ones.
/// A fixed answer without records brings its own lifetime.
pub open spec fn policy_for(
    target: RouteTarget<'_>,
    kind: Option<ServerKind>,
    cache: CacheConfig,
) -> ResolvedCachePolicy {
    let base = match target {
        RouteTarget::Rule(rule, _) => rule.cache_policy,
        _ => merged_policy(cache, None),
    };
    match kind {
        Some(ServerKind::Fixed(set)) => if set.answers@.len() == 0 {
            ResolvedCachePolicy { nodata_ttl: set.rcode_ttl, ..base }
        } else {
            base
        },
        _ => base,
    }
}

/// The entry keeps a response to the query.
pub open spec fn stores(
    entry: CacheStore,
    ctx: QueryContext,
    plan: ExchangePlan,
    target: RouteTarget<'_>,
    resp: Seq<u8>,
    winner: Option<Server>,
    forwarded: Option<Server>,
    cache: CacheConfig,
) -> bool {
    &&& entry.key == plan.key
    &&& encode_utf8(entry.qname@) == asked_name(ctx.packet@)
    &&& entry.question_end == ctx.info.question_end
    &&& entry.query@ == (if plan.strip && carries_ecs(ctx.packet@) {
        ecs_stripped(ctx.packet@)
    } else {
        ctx.packet@
    })
    &&& entry.packet@ == (if has_options(resp) {
        opt_emptied(resp)
    } else {
        resp
    })
    &&& entry.policy == policy_for(target, answered_kind(target, winner, forwarded), cache)
    &&& entry.rule_id == wire_of(attribution_for(target, winner))
}

fn build_store(
    ctx: &QueryContext,
    plan: ExchangePlan,
    target: &RouteTarget<'_>,
    resp: &[u8],
    winner: Option<&Server>,
    forwarded: Option<&Server>,
    cache: &CacheConfig,
) -> (r: CacheStore)
    requires
        ctx.wf(),
    ensures
        stores(
            r,
            *ctx,
            plan,
            *target,
            resp@,
            match winner {
                Some(s) => Some(*s),
                None => None,
            },
            match forwarded {
                Some(s) => Some(*s),
                None => None,
            },
            *cache,
        ),
{
    let attribution = match target {
        RouteTarget::Rule(_, idx) => RuleAttribution::Rule(*idx),
        RouteTarget::Server(_, idx) => RuleAttribution::Final(*idx),
        _ => match winner {
            Some(w) => RuleAttribution::Final(w.index),
            None => RuleAttribution::FinalUnknown,
        },
    };
    let mut policy: ResolvedCachePolicy = match target {
        RouteTarget::Rule(rule, _) => rule.cache_policy,
        _ => cache.resolve_policy(None),
    };
    let kind: Option<&ServerKind> = match forwarded {
        Some(s) => Some(&s.kind),
        None => target.resolved_kind(winner),
    };
    if let Some(ServerKind::Fixed(set)) = kind {
        if set.answers.len() == 0 {
            policy.nodata_ttl = set.rcode_ttl;
        }
    }
    let query: Vec<u8> = if plan.strip {
        match strip_edns_ecs(ctx.packet.as_slice()) {
            Some(stripped) => stripped,
            None => slice_to_vec(ctx.packet.as_slice()),
        }
    } else {
        slice_to_vec(ctx.packet.as_slice())
    };
    let packet: Vec<u8> = match strip_opt_rdata(resp) {
        Some(m) => m,
        None => slice_to_vec(resp),
    };
    CacheStore {
        key: plan.key,
        qname: ctx.qname_owned(),
        question_end: ctx.info.question_end,
        query,
        packet,
        policy,
        rule_id: attribution.to_wire(),
    }
}

/// Counters after a leader's exchange.
pub open spec fn counted_leader(
    c: QueryLogCounters,
    result: Result<StepOutcome, ExchangeError>,
    elapsed_us: u64,
) -> QueryLogCounters {
    let c = counted_latency(c, elapsed_us);
    match result {
        Ok(StepOutcome::Response(_, _, _, _)) => QueryLogCounters {
            upstream_ok: bumped(c.upstream_ok, 1),
            ..c
        },
        Ok(StepOutcome::Drop) => QueryLogCounters { filtered: bumped(c.filtered, 1), ..c },
        Err(ExchangeError::InflightCap) => QueryLogCounters {
            upstream_err: bumped(c.upstream_err, 1),
            upstream_inflight_drops: bumped(c.upstream_inflight_drops, 1),
            ..c
        },
        Err(ExchangeError::Failed) => QueryLogCounters {
            upstream_err: bumped(c.upstream_err, 1),
            ..c
        },
    }
}

/// What a leader replies: the response with the question as the client wrote it, nothing where a
/// filter dropped it, and server failure where the exchange failed.
pub open spec fn leader_reply(ctx: QueryContext, result: Result<StepOutcome, ExchangeError>) -> Option<
    Seq<u8>,
> {
    match result {
        Ok(StepOutcome::Response(resp, _, _, _)) => Some(
            with_question(resp@, ctx.question_bytes()),
        ),
        Ok(StepOutcome::Drop) => None,
        Err(_) => Some(ctx.servfail()),
    }
}

/// Name under which the outcome is reported.
pub open spec fn leader_name(
    routing: RoutingConfig,
    target: RouteTarget<'_>,
    result: Result<StepOutcome, ExchangeError>,
) -> Seq<char> {
    match result {
        Ok(StepOutcome::Response(_, _, winner, _)) => match server_at(routing, winner) {
            Some(s) => s.final_name@,
            None => target.report_text(),
        },
        _ => target.report_text(),
    }
}

/// Where the outcome came from.
pub open spec fn leader_source(result: Result<StepOutcome, ExchangeError>) -> Seq<char> {
    match result {
        Ok(StepOutcome::Response(_, source, _, _)) => source@,
        Ok(StepOutcome::Drop) => "filtered"@,
        Err(_) => "upstream"@,
    }
}

/// A leader's outcome may be kept: it is a response, the cache takes responses of this target, and
/// no reload has cleared the cache since the query began.
pub open spec fn may_store(
    target: RouteTarget<'_>,
    result: Result<StepOutcome, ExchangeError>,
    cache_enabled: bool,
    generation: u64,
    generation_now: u64,
) -> bool {
    &&& match result {
        Ok(StepOutcome::Response(_, _, _, _)) => true,
        _ => false,
    }
    &&& !target.skips_cache()
    &&& cache_enabled
    &&& generation == generation_now
}

/// A follower is told of the leader's reply, or that there is none.
pub open spec fn told(reply: Option<Seq<u8>>, outcome: Outcome) -> bool {
    match reply {
        Some(m) => outcome.reply() == Some(m),
        None => outcome is NoReply,
    }
}

/// Ends the exchange of a leader: publishes the outcome to its followers and frees the key, counts
/// and logs it, and says what to keep in the cache.
pub fn finish_leader(
    ctx: &QueryContext,
    table: &mut InflightTable,
    ql: &mut QueryLogHandle,
    routing: &RoutingConfig,
    target: &RouteTarget<'_>,
    plan: ExchangePlan,
    result: Result<StepOutcome, ExchangeError>,
    cache_enabled: bool,
    cache: &CacheConfig,
    generation: u64,
    generation_now: u64,
    elapsed_us: u64,
    now_micros: u64,
) -> (r: LeaderEnd)
    requires
        ctx.wf(),
        old(table).wf(),
        old(ql).wf(),
        match result {
            Ok(StepOutcome::Response(resp, _, _, _)) => ctx.info.question_end <= resp@.len(),
            _ => true,
        },
    ensures
        final(table).wf(),
        final(table)@ == old(table)@.remove(plan.flight),
        final(ql).wf(),
        match r.reply {
            Some(m) => leader_reply(*ctx, result) == Some(m@),
            None => leader_reply(*ctx, result) is None,
        },
        r.deliveries@.len() == waiting(old(table)@, plan.flight).len(),
        forall|i: int|
            0 <= i < r.deliveries@.len() ==> {
                let d = #[trigger] r.deliveries@[i];
                &&& d.0 == waiting(old(table)@, plan.flight)[i]
                &&& told(leader_reply(*ctx, result), d.1)
            },
        r.store is Some <==> may_store(
            *target,
            result,
            cache_enabled,
            generation,
            generation_now,
        ),
        match (r.store, result) {
            (Some(entry), Ok(StepOutcome::Response(resp, _, winner, forwarded))) => stores(
                entry,
                *ctx,
                plan,
                *target,
                resp@,
                server_at(*routing, winner),
                server_at(*routing, forwarded),
                *cache,
            ),
            _ => true,
        },
        logged(
            QueryLogHandle {
                counters: counted_leader(old(ql).counters, result, elapsed_us),
                ..*old(ql)
            },
            *final(ql),
            ctx.facts(
                match leader_reply(*ctx, result) {
                    Some(m) => m,
                    None => Seq::empty(),
                },
                leader_source(result),
                Some(leader_name(*routing, *target, result)),
                elapsed_us,
                now_micros,
                old(ql).answer_ips,
            ),
        ),
{
    record_client_latency(ql, elapsed_us);
    match result {
        Ok(StepOutcome::Response(resp, source, winner_idx, forwarded_idx)) => {
            let winner = find_server(routing, winner_idx);
            let forwarded = find_server(routing, forwarded_idx);
            let upstream: String = match winner {
                Some(s) => s.final_name.clone(),
                None => target.upstream_name_arc(),
            };
            let store: Option<CacheStore> = if !target.skip_cache() && cache_enabled && generation
                == generation_now {
                Some(
                    build_store(ctx, plan, target, resp.as_slice(), winner, forwarded, cache),
                )
            } else {
                None
            };
            let mut reply = resp;
            restore_question(&mut reply, ctx.question());
            let deliveries = publish_bytes(table, plan.flight, reply.as_slice());
            ql.counters.upstream_ok = ql.counters.upstream_ok.wrapping_add(1);
            emit_slow_event(
                ctx,
                ql,
                reply.as_slice(),
                source,
                Some(upstream),
                elapsed_us,
                now_micros,
            );
            LeaderEnd { reply: Some(reply), deliveries, store }
        },
        Ok(StepOutcome::Drop) => {
            let deliveries = publish_drop(table, plan.flight);
            ql.counters.filtered = ql.counters.filtered.wrapping_add(1);
            let nothing: Vec<u8> = Vec::new();
            emit_slow_event(
                ctx,
                ql,
                nothing.as_slice(),
                "filtered",
                Some(target.upstream_name_arc()),
                elapsed_us,
                now_micros,
            );
            proof {
                assert(nothing@ =~= Seq::<u8>::empty());
            }
            LeaderEnd { reply: None, deliveries, store: None }
        },
        Err(err) => {
            let reply = servfail_for(ctx);
            let deliveries = publish_bytes(table, plan.flight, reply.as_slice());
            ql.counters.upstream_err = ql.counters.upstream_err.wrapping_add(1);
            if err == ExchangeError::InflightCap {
                ql.counters.upstream_inflight_drops =
                ql.counters.upstream_inflight_drops.wrapping_add(1);
            }
            emit_slow_event(
                ctx,
                ql,
                reply.as_slice(),
                "upstream",
                Some(target.upstream_name_arc()),
                elapsed_us,
                now_micros,
            );
            LeaderEnd { reply: Some(reply), deliveries, store: None }
        },
    }
}

/// The clients of one exchange get the same outcome: what a leader hands to a follower that asked
/// the same question with the same identifier and spelling is, for that follower, the leader's own
/// reply.
pub proof fn law_followers_share_outcome(leader: QueryContext, follower: QueryContext, resp: Seq<u8>)
    requires
        leader.wf(),
        follower.wf(),
        follower.info.id == leader.info.id,
        follower.info.question_end == leader.info.question_end,
        follower.question_bytes() == leader.question_bytes(),
        leader.info.question_end <= resp.len(),
        crate::dns::be16(resp, 0) == leader.info.id,
        follower.same_question(with_question(resp, leader.question_bytes())),
    ensures
        follower.own_reply(with_question(resp, leader.question_bytes())) == with_question(
            resp,
            leader.question_bytes(),
        ),
{
    let m = with_question(resp, leader.question_bytes());
    assert(m[0] == resp[0]);
    assert(m[1] == resp[1]);
    crate::dns::law_set_id_reads_back(m, leader.info.id);
    assert(with_question(m, follower.question_bytes()) =~= m);
}

// Pairs of servers.

/// Result of an exchange with one server.
pub open spec fn clean(result: Result<Vec<u8>, ExchangeError>) -> bool {
    match result {
        Ok(r) => rcode_of(r@) != RCODE_SERVFAIL,
        Err(_) => false,
    }
}

/// Whether the first of two racing results wins without waiting for the other: a response other
/// than server failure does.
pub fn race_settled(first: &Result<Vec<u8>, ExchangeError>) -> (r: bool)
    ensures
        r == clean(*first),
{
    match first {
        Ok(m) => rcode(m.as_slice()) != RCODE_SERVFAIL,
        Err(_) => false,
    }
}

/// The winner of two results of which the first did not settle the race: the second when it is
/// clean; else a server-failure response before no response, the first before the second.
pub open spec fn race_winner(
    first: Result<Vec<u8>, ExchangeError>,
    first_idx: usize,
    second: Result<Vec<u8>, ExchangeError>,
    second_idx: usize,
) -> Result<(Seq<u8>, usize), ExchangeError> {
    match (first, second) {
        (Ok(a), Ok(b)) => if clean(second) {
            Ok((b@, second_idx))
        } else {
            Ok((a@, first_idx))
        },
        (Err(_), Ok(b)) => Ok((b@, second_idx)),
        (Ok(a), Err(_)) => Ok((a@, first_idx)),
        (Err(_), Err(_)) => Err(ExchangeError::Failed),
    }
}

/// A choice between two servers.
pub open spec fn chosen(r: Result<(Vec<u8>, usize), ExchangeError>) -> Result<
    (Seq<u8>, usize),
    ExchangeError,
> {
    match r {
        Ok((b, i)) => Ok((b@, i)),
        Err(e) => Err(e),
    }
}

/// Picks the winner of two results of which the first did not settle the race.
pub fn pick_race_winner(
    first: Result<Vec<u8>, ExchangeError>,
    first_idx: usize,
    second: Result<Vec<u8>, ExchangeError>,
    second_idx: usize,
) -> (r: Result<(Vec<u8>, usize), ExchangeError>)
    ensures
        chosen(r) == race_winner(first, first_idx, second, second_idx),
{
    if race_settled(&second) {
        return match second {
            Ok(b) => Ok((b, second_idx)),
            Err(e) => Err(e),
        };
    }
    match (first, second) {
        (Ok(a), _) => Ok((a, first_idx)),
        (Err(_), Ok(b)) => Ok((b, second_idx)),
        (Err(_), Err(_)) => Err(ExchangeError::Failed),
    }
}

/// A race fails only when both servers gave no response, and gives a clean response whenever the
/// second result is one.
pub proof fn law_race_prefers_clean(
    first: Result<Vec<u8>, ExchangeError>,
    second: Result<Vec<u8>, ExchangeError>,
    i: usize,
    j: usize,
)
    ensures
        race_winner(first, i, second, j) is Err <==> first is Err && second is Err,
        clean(second) ==> race_winner(first, i, second, j) == Ok::<(Seq<u8>, usize), ExchangeError>(
            (second->Ok_0@, j),
        ),
{
}

/// How to ask the two servers of a fallback that decides by addresses.
#[derive(Clone, Copy, Debug, PartialEq, Eq, Structural)]
pub enum DualPlan {
    /// Nothing to decide by: let them race.
    Race,
    /// Only the primary.
    Primary,
    /// Only the secondary.
    Secondary,
    /// Both; the primary's addresses decide.
    Both,
}

/// The matcher that decides between the two servers, when there is one.
pub open spec fn deciding_matcher(target: FallbackTarget) -> Option<AnswerIpMatcher> {
    match target {
        FallbackTarget::Dual { answer_ip, .. } => if answer_ip.names_no_tag() {
            None
        } else {
            Some(answer_ip)
        },
        _ => None,
    }
}

/// The matcher and the database that decide between the two servers.
fn deciding<'a>(hot: &'a HotState) -> (r: Option<(&'a AnswerIpMatcher, &'a RuleSetDb)>)
    ensures
        match r {
            Some((m, db)) => deciding_matcher(hot.routing.cfg.fallback.target) == Some(*m)
                && hot.ruleset == Some(*db),
            None => deciding_matcher(hot.routing.cfg.fallback.target) is None
                || hot.ruleset is None,
        },
{
    match &hot.routing.cfg.fallback.target {
        FallbackTarget::Dual { answer_ip, .. } => if answer_ip.is_empty() {
            None
        } else {
            match &hot.ruleset {
                Some(db) => Some((answer_ip, db)),
                None => None,
            }
        },
        _ => None,
    }
}

/// How to ask the two servers, given whether there is something to decide by and what was decided
/// before.
pub open spec fn dual_plan(decides: bool, verdict: Option<bool>) -> DualPlan {
    if decides {
        match verdict {
            Some(true) => DualPlan::Primary,
            Some(false) => DualPlan::Secondary,
            None => DualPlan::Both,
        }
    } else {
        DualPlan::Race
    }
}

/// Decides how to ask the two servers about a name: a verdict from before settles it.
pub fn plan_dual(hot: &HotState, verdicts: &VerdictCache, qname: &str, now: u64) -> (r: DualPlan)
    ensures
        r == dual_plan(
            deciding_matcher(hot.routing.cfg.fallback.target) is Some && hot.ruleset is Some,
            verdict_at(verdicts@, verdicts.ttl(), qname@, now),
        ),
{
    if deciding(hot).is_none() {
        return DualPlan::Race;
    }
    match verdicts.get_at(qname, now) {
        Some(is_primary) => if is_primary {
            DualPlan::Primary
        } else {
            DualPlan::Secondary
        },
        None => DualPlan::Both,
    }
}

/// What the primary's response says about the name: true for the primary, false for the secondary,
/// and nothing when it has no addresses.
pub open spec fn verdict_of(
    m: AnswerIpMatcher,
    db: RuleSetDb,
    resp: Seq<u8>,
    question_end: int,
) -> Option<bool> {
    let ips = answer_ips_of(resp, question_end);
    if ips.len() == 0 {
        None
    } else {
        Some(db.answer_meets(m, ips))
    }
}

/// Whether the primary's response is the answer, given what it says about the name.
pub open spec fn primary_answers(verdict: Option<bool>, noip_as_primary_ip: bool) -> bool {
    match verdict {
        Some(v) => v,
        None => noip_as_primary_ip,
    }
}

/// Looks at the primary's response when both servers were asked: whether it is the answer, without
/// waiting for the secondary. A verdict is kept, unless a reload came in between.
pub fn judge_primary(
    hot: &HotState,
    verdicts: &mut VerdictCache,
    qname: &str,
    resp: &[u8],
    question_end: usize,
    generation_now: u64,
    now: u64,
) -> (r: bool)
    requires
        deciding_matcher(hot.routing.cfg.fallback.target) is Some,
        hot.ruleset is Some,
    ensures
        final(verdicts).ttl() == old(verdicts).ttl(),
        final(verdicts).keeps() == old(verdicts).keeps(),
        final(verdicts).room() == old(verdicts).room(),
        match verdict_of(
            deciding_matcher(hot.routing.cfg.fallback.target)->0,
            hot.ruleset->0,
            resp@,
            question_end as int,
        ) {
            None => final(verdicts)@ == old(verdicts)@,
            Some(v) => if generation_now == hot.generation {
                &&& !old(verdicts).keeps() ==> final(verdicts)@ == old(verdicts)@
                &&& final(verdicts)@.submap_of(old(verdicts)@.insert(qname@, (v, now)))
                &&& old(verdicts)@.len() < old(verdicts).room() ==> final(verdicts)@ == old(
                    verdicts,
                )@.insert(qname@, (v, now))
            } else {
                final(verdicts)@ == old(verdicts)@
            },
        },
        r == primary_answers(
            verdict_of(
                deciding_matcher(hot.routing.cfg.fallback.target)->0,
                hot.ruleset->0,
                resp@,
                question_end as int,
            ),
            hot.routing.cfg.fallback.noip_as_primary_ip,
        ),
{
    let is_primary: bool = match deciding(hot) {
        Some((m, db)) => {
            let ips = answer_ips(resp, question_end);
            if ips.len() == 0 {
                return hot.routing.cfg.fallback.noip_as_primary_ip;
            }
            db.matches_answer_ip(m, ips.as_slice())
        },
        None => false,
    };
    if generation_now == hot.generation {
        verdicts.add_at(qname, is_primary, now);
    }
    is_primary
}

/// The answer when both servers were asked and the primary's response did not settle it.
pub open spec fn settled(
    primary: Result<Vec<u8>, ExchangeError>,
    primary_idx: usize,
    secondary: Result<Vec<u8>, ExchangeError>,
    secondary_idx: usize,
) -> Result<(Seq<u8>, usize), ExchangeError> {
    match (primary, secondary) {
        (_, Ok(b)) => Ok((b@, secondary_idx)),
        (Ok(a), Err(_)) => Ok((a@, primary_idx)),
        (Err(_), Err(_)) => Err(ExchangeError::Failed),
    }
}

/// The answer when both servers were asked and the primary's response did not settle it: the
/// secondary's where there is one, else the primary's.
pub fn settle_dual(
    primary: Result<Vec<u8>, ExchangeError>,
    primary_idx: usize,
    secondary: Result<Vec<u8>, ExchangeError>,
    secondary_idx: usize,
) -> (r: Result<(Vec<u8>, usize), ExchangeError>)
    ensures
        chosen(r) == settled(primary, primary_idx, secondary, secondary_idx),
{
    match (primary, secondary) {
        (_, Ok(b)) => Ok((b, secondary_idx)),
        (Ok(a), Err(_)) => Ok((a, primary_idx)),
        (Err(_), Err(_)) => Err(ExchangeError::Failed),
    }
}

// What the decisions mean.

proof fn lemma_last_v4(answers: Seq<FixedAnswer>)
    ensures
        match last_v4(answers) {
            Some((addr, ttl)) => answers.contains(FixedAnswer::A(addr, ttl)),
            None => forall|i: int| 0 <= i < answers.len() ==> !((#[trigger] answers[i]) is A),
        },
    decreases answers.len(),
{
    if answers.len() > 0 {
        let front = answers.drop_last();
        lemma_last_v4(front);
        assert(answers[answers.len() - 1] == answers.last());
        if let Some((addr, ttl)) = last_v4(front) {
            let i = choose|i: int| 0 <= i < front.len() && front[i] == FixedAnswer::A(addr, ttl);
            assert(answers[i] == front[i]);
        }
        assert forall|i: int| 0 <= i < front.len() implies front[i] == #[trigger] answers[i] by {}
    }
}

proof fn lemma_last_v6(answers: Seq<FixedAnswer>)
    ensures
        match last_v6(answers) {
            Some((addr, ttl)) => answers.contains(FixedAnswer::Aaaa(addr, ttl)),
            None => forall|i: int| 0 <= i < answers.len() ==> !((#[trigger] answers[i]) is Aaaa),
        },
    decreases answers.len(),
{
    if answers.len() > 0 {
        let front = answers.drop_last();
        lemma_last_v6(front);
        assert(answers[answers.len() - 1] == answers.last());
        if let Some((addr, ttl)) = last_v6(front) {
            let i = choose|i: int| 0 <= i < front.len() && front[i] == FixedAnswer::Aaaa(addr, ttl);
            assert(answers[i] == front[i]);
        }
        assert forall|i: int| 0 <= i < front.len() implies front[i] == #[trigger] answers[i] by {}
    }
}

/// A fixed IPv6 address is served to every AAAA query, whatever other records are configured: the
/// reply is without error and carries one address, which is a configured IPv6 address, with its
/// lifetime.
pub proof fn law_fixed_v6_is_served(
    query: Seq<u8>,
    question_end: int,
    answers: Seq<FixedAnswer>,
    code: Option<u8>,
    at: int,
)
    requires
        question_end_of(query) == Some(question_end),
        question_end + 28 <= usize::MAX,
        0 <= at < answers.len(),
        answers[at] is Aaaa,
    ensures
        ({
            let m = fixed_reply(query, question_end, 28, answers, code);
            &&& rcode_of(m) == 0
            &&& exists|addr: u128, ttl: u32|
                {
                    &&& #[trigger] answers.contains(FixedAnswer::Aaaa(addr, ttl))
                    &&& answer_ips_of(m, question_end) == seq![IpAddr::V6(addr)]
                    &&& be32(m, question_end + 6) == ttl
                }
        }),
{
    lemma_last_v6(answers);
    lemma_question_end_bound(query);
    let (addr, ttl) = last_v6(answers)->0;
    let rr = LocalRecord { rtype: TYPE_AAAA, ttl, data: be128_bytes(addr) };
    law_local_reply_carries_its_record(query, question_end, 0, 0, addr, ttl);
    law_local_reply_answers_query(query, question_end, 0, Some(rr));
    assert(0u8 & 0x0fu8 == 0u8) by (bit_vector);
    assert(answers.contains(FixedAnswer::Aaaa(addr, ttl)));
}

/// A fixed IPv4 address is served to every A query, whatever other records are configured: the
/// reply is without error and carries one address, which is a configured IPv4 address, with its
/// lifetime.
pub proof fn law_fixed_v4_is_served(
    query: Seq<u8>,
    question_end: int,
    answers: Seq<FixedAnswer>,
    code: Option<u8>,
    at: int,
)
    requires
        question_end_of(query) == Some(question_end),
        question_end + 28 <= usize::MAX,
        0 <= at < answers.len(),
        answers[at] is A,
    ensures
        ({
            let m = fixed_reply(query, question_end, 1, answers, code);
            &&& rcode_of(m) == 0
            &&& exists|addr: u32, ttl: u32|
                {
                    &&& #[trigger] answers.contains(FixedAnswer::A(addr, ttl))
                    &&& answer_ips_of(m, question_end) == seq![IpAddr::V4(addr)]
                    &&& be32(m, question_end + 6) == ttl
                }
        }),
{
    lemma_last_v4(answers);
    lemma_question_end_bound(query);
    let (addr, ttl) = last_v4(answers)->0;
    let rr = LocalRecord { rtype: TYPE_A, ttl, data: be32_bytes(addr) };
    law_local_reply_carries_its_record(query, question_end, 0, addr, 0, ttl);
    law_local_reply_answers_query(query, question_end, 0, Some(rr));
    assert(0u8 & 0x0fu8 == 0u8) by (bit_vector);
    assert(answers.contains(FixedAnswer::A(addr, ttl)));
}

/// A fixed answer says nothing that is not configured. Where addresses are configured, a query for
/// a type without one gets a reply without error and without records; of two addresses of a type
/// the later one counts. Where none is configured, every query gets the configured response code
/// and no record.
pub proof fn law_fixed_answer_says_no_more(
    query: Seq<u8>,
    question_end: int,
    qtype: u16,
    answers: Seq<FixedAnswer>,
    code: Option<u8>,
    addr: u128,
    v4: u32,
    ttl: u32,
)
    requires
        question_end_of(query) == Some(question_end),
        question_end + 28 <= usize::MAX,
    ensures
        answers.len() > 0 && (forall|i: int|
            0 <= i < answers.len() ==> match #[trigger] answers[i] {
                FixedAnswer::A(_, _) => qtype != 1,
                FixedAnswer::Aaaa(_, _) => qtype != 28,
            }) ==> {
            let m = fixed_reply(query, question_end, qtype, answers, code);
            rcode_of(m) == 0 && answers_of(m, question_end).len() == 0
        },
        answer_ips_of(
            fixed_reply(
                query,
                question_end,
                28,
                answers.push(FixedAnswer::Aaaa(addr, ttl)),
                code,
            ),
            question_end,
        ) == seq![IpAddr::V6(addr)],
        answer_ips_of(
            fixed_reply(query, question_end, 1, answers.push(FixedAnswer::A(v4, ttl)), code),
            question_end,
        ) == seq![IpAddr::V4(v4)],
        ({
            let m = fixed_reply(query, question_end, qtype, Seq::empty(), code);
            &&& rcode_of(m) == (match code {
                Some(c) => (c % 16) as u8,
                None => 0,
            })
            &&& answers_of(m, question_end).len() == 0
        }),
{
    lemma_question_end_bound(query);
    lemma_last_v4(answers);
    lemma_last_v6(answers);
    let c = match code {
        Some(c) => c,
        None => 0u8,
    };
    law_local_reply_answers_query(query, question_end, 0, None);
    law_local_reply_answers_query(query, question_end, c, None);
    law_local_reply_carries_its_record(query, question_end, 0, v4, addr, ttl);
    law_local_reply_carries_its_record(query, question_end, c, v4, addr, ttl);
    assert(0u8 & 0x0fu8 == 0u8) by (bit_vector);
    assert(c & 0x0fu8 == c % 16) by (bit_vector);
    if let Some((a, t)) = last_v4(answers) {
        let i = choose|i: int| 0 <= i < answers.len() && answers[i] == FixedAnswer::A(a, t);
        assert(answers[i] is A);
    }
    if let Some((a, t)) = last_v6(answers) {
        let i = choose|i: int| 0 <= i < answers.len() && answers[i] == FixedAnswer::Aaaa(a, t);
        assert(answers[i] is Aaaa);
    }
}

/// Where a server of the target sees the client subnet, a query is looked up under its own key and
/// kept as it is; so queries with different keys share neither a cache entry nor an exchange.
pub proof fn law_subnets_are_kept_apart(
    target: RouteTarget<'_>,
    a: QueryInfo,
    b: QueryInfo,
    generation: u64,
)
    requires
        match target {
            RouteTarget::Rule(rule, _) => !rule.strip_ecs,
            RouteTarget::Server(s, _) => !s.strip_ecs,
            RouteTarget::Race { primary, secondary } => !primary.strip_ecs
                || !secondary.strip_ecs,
            RouteTarget::CidrTest { primary, secondary } => !primary.strip_ecs
                || !secondary.strip_ecs,
        },
    ensures
        plan_of(a, target.strips_ecs(), generation).key == a.regular_key,
        !plan_of(a, target.strips_ecs(), generation).strip,
        a.regular_key != b.regular_key ==> plan_of(a, target.strips_ecs(), generation).key
            != plan_of(b, target.strips_ecs(), generation).key && plan_of(
            a,
            target.strips_ecs(),
            generation,
        ).flight != plan_of(b, target.strips_ecs(), generation).flight,
{
    let x = a.regular_key;
    let y = b.regular_key;
    let g = u64_specs::wrapping_mul(generation, GENERATION_FACTOR);
    assert(x != y ==> x ^ g != y ^ g) by (bit_vector);
}

/// Where every server of the target strips the client subnet, queries that differ only in it share
/// one cache entry and one exchange. A query without a subnet is kept as it is.
pub proof fn law_stripped_queries_share(
    target: RouteTarget<'_>,
    a: QueryInfo,
    b: QueryInfo,
    generation: u64,
)
    requires
        match target {
            RouteTarget::Rule(rule, _) => rule.strip_ecs,
            RouteTarget::Server(s, _) => s.strip_ecs,
            RouteTarget::Race { primary, secondary } => primary.strip_ecs && secondary.strip_ecs,
            RouteTarget::CidrTest { primary, secondary } => primary.strip_ecs
                && secondary.strip_ecs,
        },
    ensures
        a.has_ecs && a.stripped_key is Some ==> {
            &&& plan_of(a, target.strips_ecs(), generation).key == a.stripped_key->0
            &&& plan_of(a, target.strips_ecs(), generation).strip
        },
        a.has_ecs && b.has_ecs && a.stripped_key is Some && a.stripped_key == b.stripped_key
            ==> plan_of(a, target.strips_ecs(), generation) == plan_of(
            b,
            target.strips_ecs(),
            generation,
        ),
        !a.has_ecs ==> plan_of(a, target.strips_ecs(), generation).key == a.regular_key
            && !plan_of(a, target.strips_ecs(), generation).strip,
{
}

/// A server-failure reply says so to its own query: it has the query's identifier and question, the
/// response code of a server failure, and no records.
pub proof fn law_servfail_answers_query(ctx: QueryContext)
    requires
        ctx.wf(),
    ensures
        ctx.servfail().len() == ctx.info.question_end,
        crate::dns::be16(ctx.servfail(), 0) == ctx.info.id,
        ctx.servfail()[2] >= 128,
        ctx.servfail()[3] % 16 == 2,
        crate::dns::be16(ctx.servfail(), 6) == 0,
        ctx.servfail().skip(HEADER_LEN as int) == ctx.question_bytes(),
{
    let m = ctx.servfail();
    let e = ctx.info.question_end as int;
    assert(ctx.packet.len() == ctx.packet@.len());
    lemma_question_end_bound(ctx.packet@);
    law_local_reply_answers_query(ctx.packet@, e, RCODE_SERVFAIL, None);
    assert(m.len() == e);
    assert(m.skip(HEADER_LEN as int) =~= m.subrange(HEADER_LEN as int, e));
    let b2 = ctx.packet@[2];
    assert(0x80u8 | (b2 & 0x79u8) >= 128u8) by (bit_vector);
    assert((0x80u8 | (2u8 & 0x0fu8)) % 16 == 2u8) by (bit_vector);
    assert(m[6] == 0 && m[7] == 0);
}

/// What a follower replies depends on its leader alone: a response to its own question in its own
/// words, no reply where the leader sends none, and server failure in every other case. It never
/// passes on a response to another question.
pub proof fn law_follower_outcomes(ctx: QueryContext, outcome: Outcome)
    requires
        ctx.wf(),
    ensures
        match outcome {
            Outcome::Reply(b) => {
                &&& ctx.same_question(b@) ==> follower_reply(ctx, outcome) == Some(
                    ctx.own_reply(b@),
                )
                &&& !ctx.same_question(b@) ==> follower_reply(ctx, outcome) == Some(
                    ctx.servfail(),
                )
            },
            Outcome::NoReply => follower_reply(ctx, outcome) is None,
            Outcome::Abandoned => follower_reply(ctx, outcome) == Some(ctx.servfail()),
        },
        follower_reply(ctx, outcome) is Some ==> {
            let m = follower_reply(ctx, outcome)->0;
            &&& crate::dns::be16(m, 0) == ctx.info.id
            &&& m.subrange(HEADER_LEN as int, ctx.info.question_end as int)
                == ctx.question_bytes()
        },
{
    law_servfail_answers_query(ctx);
    let e = ctx.info.question_end as int;
    lemma_question_end_bound(ctx.packet@);
    assert(ctx.servfail().subrange(HEADER_LEN as int, e) =~= ctx.servfail().skip(
        HEADER_LEN as int,
    ));
    if let Outcome::Reply(b) = outcome {
        if ctx.same_question(b@) {
            law_follower_reply_is_its_own(ctx, b@);
        }
    }
}

/// The filters of a rule decide what becomes of its response, the first that the response meets
/// alone: a filter that drops ends without reply, one that forwards names its server, and one that
/// accepts, like no filter at all, leaves the response as it is.
pub proof fn law_first_met_filter_decides(
    target: RouteTarget<'_>,
    at: int,
    ruleset: Option<&RuleSetDb>,
    resp: Seq<u8>,
    question_end: int,
    winner: Option<usize>,
    has_ipset: bool,
    r: (FilterStep, Option<AddIps>),
)
    requires
        filtered(target, ruleset, resp, question_end, winner, has_ipset, r),
        target is Rule,
        0 <= at < (target->Rule_0).filters@.len(),
        (target->Rule_0).filters@[at].meets(ruleset, resp, question_end),
        forall|j: int|
            0 <= j < at ==> !(#[trigger] (target->Rule_0).filters@[j]).meets(
                ruleset,
                resp,
                question_end,
            ),
    ensures
        match (target->Rule_0).filters@[at].action {
            FilterAction::Drop => r.0 == FilterStep::Done(StepOutcome::Drop) && r.1 is None,
            FilterAction::Forward(server) => r.0 == FilterStep::Forward(server) && r.1 is None,
            FilterAction::Accept => {
                &&& r.0 matches FilterStep::Done(StepOutcome::Response(b, _, w, f)) && b@ == resp
                    && w == winner && f is None
                &&& has_ipset && answer_ips_of(resp, question_end).len() > 0 ==> (r.1 matches Some(
                    add,
                ) && add.rule == target->Rule_1 && add.filter == at && add.ips@ == answer_ips_of(
                    resp,
                    question_end,
                ))
                &&& !has_ipset || answer_ips_of(resp, question_end).len() == 0 ==> r.1 is None
            },
        },
{
    let filters = (target->Rule_0).filters@;
    law_first_met(filters, ruleset, resp, question_end);
    match first_met(filters, ruleset, resp, question_end) {
        Some(i) => {
            if i < at {
                assert(!filters[i].meets(ruleset, resp, question_end));
            } else if at < i {
                assert(!filters[at].meets(ruleset, resp, question_end));
            }
        },
        None => {
            assert(!filters[at].meets(ruleset, resp, question_end));
        },
    }
}

/// A response that no filter of the target meets is the outcome as it is; only rules have filters.
pub proof fn law_unfiltered_response_passes(
    target: RouteTarget<'_>,
    ruleset: Option<&RuleSetDb>,
    resp: Seq<u8>,
    question_end: int,
    winner: Option<usize>,
    has_ipset: bool,
    r: (FilterStep, Option<AddIps>),
)
    requires
        filtered(target, ruleset, resp, question_end, winner, has_ipset, r),
        target is Rule ==> forall|j: int|
            0 <= j < (target->Rule_0).filters@.len() ==> !(
            #[trigger] (target->Rule_0).filters@[j]).meets(ruleset, resp, question_end),
    ensures
        r.0 matches FilterStep::Done(StepOutcome::Response(b, _, w, f)) && b@ == resp && w == winner
            && f is None,
        r.1 is None,
{
    if target is Rule {
        law_first_met((target->Rule_0).filters@, ruleset, resp, question_end);
    }
}

/// A leader replies to its own client: a response comes with the question as the client wrote it
/// and is otherwise the response, a dropped one gives no reply, and a failed exchange gives server
/// failure.
pub proof fn law_leader_replies(ctx: QueryContext, result: Result<StepOutcome, ExchangeError>)
    requires
        ctx.wf(),
        result matches Ok(StepOutcome::Response(resp, _, _, _)) ==> ctx.info.question_end
            <= resp@.len(),
    ensures
        match result {
            Ok(StepOutcome::Response(resp, _, _, _)) => {
                &&& leader_reply(ctx, result) is Some
                &&& {
                    let m = leader_reply(ctx, result)->0;
                    let e = ctx.info.question_end as int;
                    &&& m.len() == resp@.len()
                    &&& m.take(HEADER_LEN as int) == resp@.take(HEADER_LEN as int)
                    &&& m.subrange(HEADER_LEN as int, e) == ctx.question_bytes()
                    &&& m.skip(e) == resp@.skip(e)
                }
            },
            Ok(StepOutcome::Drop) => leader_reply(ctx, result) is None,
            Err(_) => leader_reply(ctx, result) == Some(ctx.servfail()),
        },
{
    lemma_question_end_bound(ctx.packet@);
    if let Ok(StepOutcome::Response(resp, _, _, _)) = result {
        let m = leader_reply(ctx, result)->0;
        let e = ctx.info.question_end as int;
        assert(m.take(HEADER_LEN as int) =~= resp@.take(HEADER_LEN as int));
        assert(m.subrange(HEADER_LEN as int, e) =~= ctx.question_bytes());
        assert(m.skip(e) =~= resp@.skip(e));
    }
}

/// What is cached is a response of the routing that is in force, and only where the cache takes
/// responses of the rule: nothing dropped or failed, nothing of a rule that skips the cache, and
/// nothing that began before a reload. Everything else is cached.
pub proof fn law_only_current_responses_are_kept(
    target: RouteTarget<'_>,
    result: Result<StepOutcome, ExchangeError>,
    cache_enabled: bool,
    generation: u64,
    generation_now: u64,
)
    ensures
        generation != generation_now ==> !may_store(
            target,
            result,
            cache_enabled,
            generation,
            generation_now,
        ),
        !cache_enabled ==> !may_store(target, result, cache_enabled, generation, generation_now),
        result is Err || result == Ok::<StepOutcome, ExchangeError>(StepOutcome::Drop)
            ==> !may_store(target, result, cache_enabled, generation, generation_now),
        target is Rule && (target->Rule_0).cache_policy.skip ==> !may_store(
            target,
            result,
            cache_enabled,
            generation,
            generation_now,
        ),
        cache_enabled && generation == generation_now && (result matches Ok(s) && s is Response)
            && (target is Rule ==> !(target->Rule_0).cache_policy.skip) ==> may_store(
            target,
            result,
            cache_enabled,
            generation,
            generation_now,
        ),
{
}

/// A cache entry is kept under the key that the query was looked up under, with the name that was
/// asked for. Where the subnet does not matter, neither the query nor the key shows it. The lifetime
/// settings are those of the rule, or else the global ones; a fixed answer without records brings
/// its own.
pub proof fn law_cache_entry_fits_its_query(
    entry: CacheStore,
    ctx: QueryContext,
    plan: ExchangePlan,
    target: RouteTarget<'_>,
    resp: Seq<u8>,
    winner: Option<Server>,
    forwarded: Option<Server>,
    cache: CacheConfig,
)
    requires
        stores(entry, ctx, plan, target, resp, winner, forwarded, cache),
        ctx.wf(),
    ensures
        entry.key == plan.key,
        encode_utf8(entry.qname@) == asked_name(ctx.packet@),
        entry.question_end == ctx.info.question_end,
        plan.strip ==> !carries_ecs(entry.query@),
        !plan.strip ==> entry.query@ == ctx.packet@,
        !has_options(resp) ==> entry.packet@ == resp,
        target is Rule && !(forwarded is Some && forwarded->0.kind is Fixed) && !(forwarded is None
            && (target->Rule_0).kind is Fixed) ==> entry.policy == (target->Rule_0).cache_policy,
        forwarded matches Some(s) ==> (s.kind matches ServerKind::Fixed(set) ==> if set.answers@.len()
            == 0 {
            entry.policy.nodata_ttl == set.rcode_ttl
        } else {
            target is Rule ==> entry.policy == (target->Rule_0).cache_policy
        }),
{
    assert(ctx.packet.len() == ctx.packet@.len());
    if plan.strip && carries_ecs(ctx.packet@) {
        crate::edns::law_stripped_carries_no_subnet(ctx.packet@);
    }
}

/// A cached response is reported under the name of the server that it came from: what the cache
/// keeps of the source reads back as the name that the response was first reported under.
pub proof fn law_cached_response_keeps_its_name(
    routing: RoutingConfig,
    target: RouteTarget<'_>,
    winner: Option<Server>,
)
    requires
        match target {
            RouteTarget::Rule(rule, idx) => idx < routing.rules@.len() && idx < 32768 && *rule
                == routing.rules@[idx as int],
            RouteTarget::Server(s, idx) => idx < routing.servers@.len() && idx < 32766 && *s
                == routing.servers@[idx as int],
            _ => winner matches Some(w) ==> w.index < routing.servers@.len() && w.index < 32766
                && w == routing.servers@[w.index as int],
        },
    ensures
        attributed_text(wire_of(attribution_for(target, winner)), routing) == Some(
            match target {
                RouteTarget::Rule(rule, _) => rule.server@,
                RouteTarget::Server(s, _) => s.final_name@,
                _ => match winner {
                    Some(w) => w.final_name@,
                    None => "final"@,
                },
            },
        ),
        target is Rule || target is Server || winner is None ==> attributed_text(
            wire_of(attribution_for(target, winner)),
            routing,
        ) == Some(target.report_text()),
{
    law_attribution_roundtrip(attribution_for(target, winner));
}

/// An exchange is counted once: as answered, as failed or as filtered, and its latency once in
/// every case.
pub proof fn law_exchange_is_counted_once(
    c: QueryLogCounters,
    result: Result<StepOutcome, ExchangeError>,
    elapsed_us: u64,
)
    requires
        c.upstream_ok < u64::MAX,
        c.upstream_err < u64::MAX,
        c.filtered < u64::MAX,
        c.rtt_count < u64::MAX,
        c.rtt_sum_us + elapsed_us <= u64::MAX,
    ensures
        ({
            let d = counted_leader(c, result, elapsed_us);
            &&& d.upstream_ok + d.upstream_err + d.filtered == c.upstream_ok + c.upstream_err
                + c.filtered + 1
            &&& result is Err <==> d.upstream_err == c.upstream_err + 1
            &&& (result matches Ok(s) && s is Drop) <==> d.filtered == c.filtered + 1
            &&& (result matches Ok(s) && s is Response) <==> d.upstream_ok == c.upstream_ok + 1
            &&& d.rtt_count == c.rtt_count + 1
            &&& d.rtt_sum_us == c.rtt_sum_us + elapsed_us
        }),
{
}

/// The first of two racing results settles the race exactly when it is a response with another code
/// than that of a server failure.
pub proof fn law_clean_responses_settle(result: Result<Vec<u8>, ExchangeError>)
    ensures
        result is Err ==> !clean(result),
        result matches Ok(m) ==> (m@.len() >= 4 ==> (clean(result) <==> m@[3] % 16 != 2)),
{
    if let Ok(m) = result {
        if m@.len() >= 4 {
            let b = m@[3];
            assert(b & 0x0f == b % 16) by (bit_vector);
        }
    }
}

/// A race goes to a clean result before any other, to a server-failure response before none, and
/// among equals to the first; it fails only when both fail. The index that comes out is that of the
/// server whose response comes out.
pub proof fn law_race_goes_to_the_better(
    first: Result<Vec<u8>, ExchangeError>,
    i: usize,
    second: Result<Vec<u8>, ExchangeError>,
    j: usize,
)
    requires
        !clean(first),
    ensures
        match race_winner(first, i, second, j) {
            Ok((m, k)) => {
                &&& (first matches Ok(a) && a@ == m && k == i) || (second matches Ok(b) && b@ == m
                    && k == j)
                &&& clean(second) ==> second->Ok_0@ == m && k == j
                &&& !clean(second) && first is Ok ==> first->Ok_0@ == m && k == i
            },
            Err(_) => first is Err && second is Err,
        },
{
}

/// Of a pair of servers that addresses decide between, the secondary answers whenever it has a
/// response and the primary was not accepted; the primary's response stands in for a failure of the
/// secondary, and only two failures fail.
pub proof fn law_secondary_answers_otherwise(
    primary: Result<Vec<u8>, ExchangeError>,
    i: usize,
    secondary: Result<Vec<u8>, ExchangeError>,
    j: usize,
)
    ensures
        secondary matches Ok(b) ==> settled(primary, i, secondary, j) == Ok::<
            (Seq<u8>, usize),
            ExchangeError,
        >((b@, j)),
        secondary is Err ==> (primary matches Ok(a) ==> settled(primary, i, secondary, j) == Ok::<
            (Seq<u8>, usize),
            ExchangeError,
        >((a@, i))),
        settled(primary, i, secondary, j) is Err <==> primary is Err && secondary is Err,
{
}

/// A name that was decided once is asked of the same server from then on: what is concluded from
/// the primary's addresses is what the next query for the name is planned by.
pub proof fn law_verdict_steers_next_query(
    m: AnswerIpMatcher,
    db: RuleSetDb,
    resp: Seq<u8>,
    question_end: int,
)
    ensures
        verdict_of(m, db, resp, question_end) is None <==> answer_ips_of(resp, question_end).len()
            == 0,
        answer_ips_of(resp, question_end).len() > 0 ==> {
            let v = verdict_of(m, db, resp, question_end);
            &&& dual_plan(true, v) == DualPlan::Primary <==> db.answer_meets(
                m,
                answer_ips_of(resp, question_end),
            )
            &&& dual_plan(true, v) == DualPlan::Secondary <==> !db.answer_meets(
                m,
                answer_ips_of(resp, question_end),
            )
        },
        dual_plan(true, None) == DualPlan::Both,
        forall|v: Option<bool>| #[trigger] dual_plan(false, v) == DualPlan::Race,
{
}

/// Addresses decide between the two servers exactly where tags are configured for it.
pub proof fn law_tags_make_the_decision(target: FallbackTarget)
    ensures
        deciding_matcher(target) is Some <==> (target matches FallbackTarget::Dual {
            answer_ip,
            ..
        } && (answer_ip.includes@.len() > 0 || answer_ip.excludes@.len() > 0)),
        deciding_matcher(target) matches Some(m) ==> (target matches FallbackTarget::Dual {
            answer_ip,
            ..
        } && m == answer_ip),
{
}

/// A query with a permit goes on at once. One without waits as long as is configured, and is
/// rejected where nothing is.
pub proof fn law_permits_admit(queue_ms: u64)
    ensures
        admission_of(true, queue_ms) == Admission::Go,
        queue_ms > 0 ==> admission_of(false, queue_ms) == Admission::Wait(queue_ms),
        queue_ms == 0 ==> admission_of(false, queue_ms) == Admission::Overload,
{
}

/// A follower outwaits its leader: two exchanges of the longest duration and the delay of a second
/// node end before it gives up, with a second to spare.
pub proof fn law_follower_outwaits_its_leader(timeout_us: u64, delay_us: u64)
    ensures
        follower_wait_us(timeout_us, None) == timeout_us + timeout_us + 1_000_000,
        follower_wait_us(timeout_us, Some(delay_us)) == timeout_us + timeout_us + delay_us
            + 1_000_000,
{
}

/// A forwarded query is answered by the server that it was forwarded to and reported as forwarded;
/// where that fails, so does the query.
pub proof fn law_forwarding_has_one_outcome(
    result: Result<Vec<u8>, ExchangeError>,
    server: usize,
    r: Result<StepOutcome, ExchangeError>,
)
    requires
        forward_outcome(result, server, r),
    ensures
        result is Ok <==> r is Ok,
        result matches Ok(b) ==> {
            &&& r->Ok_0 is Response
            &&& r->Ok_0->Response_0@ == b@
            &&& r->Ok_0->Response_1@ == "forwarded"@
            &&& r->Ok_0->Response_2 is None
            &&& r->Ok_0->Response_3 == Some(server)
        },
        result matches Err(e) ==> r == Err::<StepOutcome, ExchangeError>(e),
{
}

/// The primary answers where its addresses say so. Where it has none, the setting for answers
/// without addresses decides, and nothing else does.
pub proof fn law_answers_without_addresses_go_by_setting(
    m: AnswerIpMatcher,
    db: RuleSetDb,
    resp: Seq<u8>,
    question_end: int,
    noip: bool,
)
    ensures
        ({
            let ips = answer_ips_of(resp, question_end);
            let r = primary_answers(verdict_of(m, db, resp, question_end), noip);
            &&& ips.len() == 0 ==> r == noip
            &&& ips.len() > 0 ==> r == db.answer_meets(m, ips)
        }),
{
}

/// A cached response carries no options of the connection that it came over, and answers the same
/// question.
pub proof fn law_cached_response_has_no_options(
    entry: CacheStore,
    ctx: QueryContext,
    plan: ExchangePlan,
    target: RouteTarget<'_>,
    resp: Seq<u8>,
    winner: Option<Server>,
    forwarded: Option<Server>,
    cache: CacheConfig,
)
    requires
        stores(entry, ctx, plan, target, resp, winner, forwarded, cache),
        resp.len() <= usize::MAX,
    ensures
        !has_options(entry.packet@),
        question_end_of(entry.packet@) == question_end_of(resp),
        has_options(resp) ==> entry.packet@.take(crate::edns::opt_of(resp)->0.data - 2)
            == resp.take(crate::edns::opt_of(resp)->0.data - 2) && entry.packet@.skip(
            crate::edns::opt_of(resp)->0.data as int,
        ) == resp.skip(crate::edns::opt_of(resp)->0.end as int),
{
    if has_options(resp) {
        crate::edns::law_emptied_record_stays(resp);
    }
}

/// The cache settings of a response are those of its rule, and the global ones where no rule
/// matched. Only an answer of a fixed server without records brings a lifetime of its own: that of
/// the server that was forwarded to, or else of the target's.
pub proof fn law_settings_follow_the_rule(
    target: RouteTarget<'_>,
    winner: Option<Server>,
    forwarded: Option<Server>,
    cache: CacheConfig,
)
    ensures
        ({
            let p = policy_for(target, answered_kind(target, winner, forwarded), cache);
            let rule = target->Rule_0;
            &&& target is Rule ==> p.skip == rule.cache_policy.skip && p.min_ttl
                == rule.cache_policy.min_ttl && p.max_ttl == rule.cache_policy.max_ttl
            &&& !(target is Rule) ==> !p.skip && p.min_ttl == cache.min_ttl && p.max_ttl
                == cache.max_ttl
            &&& match answered_kind(target, winner, forwarded) {
                Some(ServerKind::Fixed(set)) => set.answers@.len() == 0 ==> p.nodata_ttl
                    == set.rcode_ttl,
                Some(ServerKind::Upstream(_)) => target is Rule ==> p == rule.cache_policy,
                None => true,
            }
            &&& forwarded is Some ==> answered_kind(target, winner, forwarded) == Some(
                forwarded->0.kind,
            )
            &&& forwarded is None && target is Rule ==> answered_kind(target, winner, forwarded)
                == Some(rule.kind)
            &&& forwarded is None && target is Server ==> answered_kind(target, winner, forwarded)
                == Some((target->Server_0).kind)
            &&& forwarded is None && !(target is Rule) && !(target is Server) && winner is Some
                ==> answered_kind(target, winner, forwarded) == Some(winner->0.kind)
        }),
{
}

/// An outcome is reported under the final name of the server that won, where one of a pair did, and
/// else under the name of its target; a failed or dropped one always under that of its target.
pub proof fn law_winner_is_reported(
    routing: RoutingConfig,
    target: RouteTarget<'_>,
    result: Result<StepOutcome, ExchangeError>,
    i: usize,
)
    ensures
        result is Err ==> leader_name(routing, target, result) == target.report_text(),
        result is Err ==> leader_source(result) == "upstream"@,
        result == Ok::<StepOutcome, ExchangeError>(StepOutcome::Drop) ==> leader_name(
            routing,
            target,
            result,
        ) == target.report_text() && leader_source(result) == "filtered"@,
        (result matches Ok(s) && s is Response) ==> {
            let s = result->Ok_0;
            &&& leader_source(result) == s->Response_1@
            &&& s->Response_2 is None ==> leader_name(routing, target, result)
                == target.report_text()
            &&& s->Response_2 == Some(i) && i < routing.servers@.len() ==> leader_name(
                routing,
                target,
                result,
            ) == routing.servers@[i as int].final_name@
        },
{
}

/// A routed query goes to its rule, and any other to the fallback.
pub proof fn law_rule_comes_before_fallback(routing: &RoutingConfig, i: usize, qtype: u16)
    requires
        i < routing.rules@.len(),
    ensures
        target_of(routing, Some(i), qtype) is Rule,
        *(target_of(routing, Some(i), qtype)->Rule_0) == routing.rules@[i as int],
        target_of(routing, Some(i), qtype)->Rule_1 == i,
        target_of(routing, None, qtype) == fallback_target(routing, qtype),
{
}

/// A follower that is served counts once as such, and a rejected query once as dropped; no other
/// counter moves but those of the follower's latency.
pub proof fn law_followers_and_rejections_count_once(c: QueryLogCounters, elapsed_us: u64)
    requires
        c.singleflight_hits < u64::MAX,
        c.inflight_drops < u64::MAX,
        c.rtt_count < u64::MAX,
        c.rtt_sum_us + elapsed_us <= u64::MAX,
    ensures
        counted_follower(c, elapsed_us) == (QueryLogCounters {
            singleflight_hits: (c.singleflight_hits + 1) as u64,
            rtt_count: (c.rtt_count + 1) as u64,
            rtt_sum_us: (c.rtt_sum_us + elapsed_us) as u64,
            ..c
        }),
        counted_overload(c) == (QueryLogCounters {
            inflight_drops: (c.inflight_drops + 1) as u64,
            ..c
        }),
{
}

/// What a leader's exchange came to is what its followers reply: nothing where a filter dropped the
/// response, server failure where the exchange failed, and the response in their own words where
/// there is one to their question. Each replies under its own identifier.
pub proof fn law_followers_reply_as_their_leader(
    leader: QueryContext,
    follower: QueryContext,
    result: Result<StepOutcome, ExchangeError>,
    outcome: Outcome,
)
    requires
        leader.wf(),
        follower.wf(),
        told(leader_reply(leader, result), outcome),
    ensures
        result == Ok::<StepOutcome, ExchangeError>(StepOutcome::Drop) ==> follower_reply(
            follower,
            outcome,
        ) is None,
        result is Err ==> {
            let m = follower_reply(follower, outcome)->0;
            &&& follower_reply(follower, outcome) is Some
            &&& m[2] >= 128
            &&& m[3] % 16 == 2
            &&& crate::dns::be16(m, 0) == follower.info.id
        },
        (result matches Ok(s) && s is Response) ==> {
            let resp = result->Ok_0->Response_0@;
            let sent = resp.take(12) + leader.question_bytes() + resp.skip(
                (12 + leader.question_bytes().len()) as int,
            );
            let m = follower_reply(follower, outcome)->0;
            &&& follower_reply(follower, outcome) is Some
            &&& follower.same_question(sent) ==> m.skip(follower.info.question_end as int)
                == sent.skip(follower.info.question_end as int) && m.subrange(2, 12)
                == sent.subrange(2, 12)
            &&& !follower.same_question(sent) ==> m == follower.servfail()
            &&& crate::dns::be16(m, 0) == follower.info.id
        },
{
    law_follower_outcomes(follower, outcome);
    law_servfail_answers_query(leader);
    law_servfail_answers_query(follower);
    if let Outcome::Reply(b) = outcome {
        if follower.same_question(b@) {
            law_follower_reply_is_its_own(follower, b@);
            let m = follower.own_reply(b@);
            assert(m.subrange(2, HEADER_LEN as int)[0] == m[2]);
            assert(m.subrange(2, HEADER_LEN as int)[1] == m[3]);
            assert(b@.subrange(2, HEADER_LEN as int)[0] == b@[2]);
            assert(b@.subrange(2, HEADER_LEN as int)[1] == b@[3]);
        }
    }
}

} // verus!
