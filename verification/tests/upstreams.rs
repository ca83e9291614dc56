use bytes::{Bytes, BytesMut};
use pathdns::config::{EcsMode, EcsSubnet, UpstreamEndpoint, UpstreamProto};
use pathdns::edns::has_ecs;
use pathdns::exchange::ExchangeError;
use pathdns::iprange::IpAddr;
use pathdns::upstream::health::{
    band_limit, HealthStats, RefreshGuard, FAILURE_RTT_CAP_US, FAILURE_RTT_FLOOR_US,
    SELECT_BAND_FLOOR_US,
};
use pathdns::upstream::http::{h3_url, https_url, status_ok, take_chunk, MAX_HTTP_BODY};
use pathdns::upstream::inflight::{Completion, InflightRegistry, RegisterError};
use pathdns::upstream::pool::{
    pool_summary, settle_hedge, HedgeStep, NodeAction, NodeResult, TransportKind, UpstreamPool,
    SELECT_BAND_FACTOR,
};
use pathdns::upstream::tcp_mux::{
    coalesce, frame_length_ok, push_framed, reconnect_backoff_ms, Reconnect,
};
use pathdns::upstream::udp::{
    count_delivered, is_icmp_unreachable, needs_tcp_retry, next_recv_delay_ms, next_socket,
};
use pathdns::upstream::{
    apply_ecs_mode, finalize_response, format_upstream_addr, frame_message, mix16, prepare_query,
    question_of, random_id_seed, seed_from_time, validate_upstream_response, ResponseError,
};

/// "a." A IN — 7 bytes
fn q() -> Vec<u8> {
    vec![0x01, b'a', 0x00, 0x00, 0x01, 0x00, 0x01]
}

/// A DNS response with the given upstream ID, opcode, and QDCOUNT.
/// When qdcount > 0, `question` is repeated that many times in the question section.
fn build_response(upstream_id: u16, opcode: u8, qdcount: u16, question: &[u8]) -> Vec<u8> {
    let mut pkt = Vec::new();
    pkt.extend_from_slice(&upstream_id.to_be_bytes());
    pkt.extend_from_slice(&[0x80 | (opcode << 3), 0x80]); // QR=1, opcode, RA=1
    pkt.extend_from_slice(&qdcount.to_be_bytes());
    pkt.extend_from_slice(&[0x00, 0x00, 0x00, 0x00, 0x00, 0x00]); // AN/NS/AR=0
    for _ in 0..qdcount {
        pkt.extend_from_slice(question);
    }
    pkt
}

#[test]
fn valid_response_delivered() {
    let mut reg = InflightRegistry::new(0);
    let question = q();
    let uid = reg.register(1, 0x9999, question.clone()).unwrap();
    let mut buf = build_response(uid, 0, 1, &question);
    assert!(matches!(reg.complete(&mut buf), Completion::Delivered(1)));
    assert_eq!(&buf[..2], &[0x99, 0x99]);
}

#[test]
fn response_qdcount_zero_rejected() {
    let mut reg = InflightRegistry::new(0);
    let question = q();
    let uid = reg.register(1, 0x9999, question.clone()).unwrap();
    let mut buf = build_response(uid, 0, 0, &question);
    assert!(matches!(reg.complete(&mut buf), Completion::NoWaiter));
}

#[test]
fn response_qdcount_two_rejected() {
    let mut reg = InflightRegistry::new(0);
    let question = q();
    let uid = reg.register(1, 0x9999, question.clone()).unwrap();
    let mut buf = build_response(uid, 0, 2, &question);
    assert!(matches!(reg.complete(&mut buf), Completion::NoWaiter));
}

#[test]
fn response_non_query_opcode_rejected() {
    let mut reg = InflightRegistry::new(0);
    let question = q();
    let uid = reg.register(1, 0x9999, question.clone()).unwrap();
    // opcode=4 (NOTIFY)
    let mut buf = build_response(uid, 4, 1, &question);
    assert!(matches!(reg.complete(&mut buf), Completion::NoWaiter));
}

#[test]
fn inflight_cap_blocks_and_releases() {
    let mut reg = InflightRegistry::new(2);
    let q = q();
    let r1 = reg.register(1, 1, q.clone()).unwrap();
    let r2 = reg.register(2, 2, q.clone()).unwrap();
    // Cap reached: third registration must fail.
    assert_eq!(reg.register(3, 3, q.clone()), Err(RegisterError::CapReached));
    // Release one; its place is free again.
    reg.release(r1);
    let r3 = reg.register(4, 4, q.clone()).unwrap();
    // Still at cap: another must fail.
    assert!(reg.register(5, 5, q.clone()).is_err());
    reg.release(r2);
    reg.release(r3);
    // All released: should accept again.
    assert!(reg.register(6, 6, q.clone()).is_ok());
}

#[test]
fn another_question_is_not_delivered() {
    let mut reg = InflightRegistry::with_seed(0, 77);
    let uid = reg.register(9, 5, q()).unwrap();
    let other = vec![0x01, b'b', 0x00, 0x00, 0x01, 0x00, 0x01];
    let mut buf = build_response(uid, 0, 1, &other);
    assert_eq!(reg.complete(&mut buf), Completion::Mismatch(uid));
    // The right answer still arrives, once.
    let mut buf = build_response(uid, 0, 1, &q());
    assert_eq!(reg.complete(&mut buf), Completion::Delivered(9));
    assert!(reg.is_empty());
    let mut buf = build_response(uid, 0, 1, &q());
    assert_eq!(reg.complete(&mut buf), Completion::NoWaiter);
}

#[test]
fn cleared_registry_has_no_waiters() {
    let mut reg = InflightRegistry::with_seed(0, 1);
    let uid = reg.register(9, 5, q()).unwrap();
    assert!(!reg.is_empty());
    reg.clear();
    assert!(reg.is_empty());
    let mut buf = build_response(uid, 0, 1, &q());
    assert_eq!(reg.complete(&mut buf), Completion::NoWaiter);
}

#[test]
fn full_table_is_reported() {
    let mut reg = InflightRegistry::with_seed(0, 3);
    let mut taken = 0u64;
    let error = loop {
        match reg.register(taken, 1, Vec::new()) {
            Ok(id) => {
                assert_ne!(id, 0);
                taken += 1;
            }
            Err(e) => break e,
        }
    };
    assert_eq!(error, RegisterError::TableFull);
    assert!(taken <= 65535);
}

#[test]
fn icmp_unreachable_classification() {

    let errno = |e: i32| std::io::Error::from_raw_os_error(e).raw_os_error();
    assert!(is_icmp_unreachable(errno(libc::ECONNREFUSED)));
    assert!(is_icmp_unreachable(errno(libc::EHOSTUNREACH)));
    assert!(is_icmp_unreachable(errno(libc::ENETUNREACH)));
    assert!(!is_icmp_unreachable(errno(libc::EAGAIN)));
    assert!(!is_icmp_unreachable(errno(libc::ECONNRESET)));
    assert!(!is_icmp_unreachable(None));
}

fn default_health() -> HealthStats {
    HealthStats::new(0)
}

#[test]
fn failure_inflates_rtt_estimate() {
    let mut h = default_health();
    h.record_success(20_000);
    assert_eq!(h.ewma_rtt_us, 20_000);

    // First failure: 20_000 * 2 = 40_000 < floor, so the floor applies.
    h.record_failure(false);
    assert_eq!(h.ewma_rtt_us, FAILURE_RTT_FLOOR_US);

    // Subsequent failures double the estimate.
    h.record_failure(false);
    assert_eq!(h.ewma_rtt_us, FAILURE_RTT_FLOOR_US * 2);
}

#[test]
fn failure_inflation_is_capped() {
    let mut h = default_health();
    h.record_success(8_000_000);
    h.record_failure(false);
    assert_eq!(h.ewma_rtt_us, FAILURE_RTT_CAP_US);
    h.record_failure(false);
    assert_eq!(h.ewma_rtt_us, FAILURE_RTT_CAP_US);
}

#[test]
fn failure_with_no_data_uses_floor() {
    let mut h = default_health();
    h.record_failure(false);
    assert_eq!(h.ewma_rtt_us, FAILURE_RTT_FLOOR_US);
}

#[test]
fn success_after_failure_adopts_fresh_sample() {
    let mut h = default_health();
    h.record_success(20_000);
    h.record_failure(false);
    h.record_failure(false);
    // Recovery: fresh sample replaces the inflated estimate outright.
    h.record_success(22_000);
    assert_eq!(h.ewma_rtt_us, 22_000);
    assert_eq!(h.consecutive_failures, 0);
}

#[test]
fn steady_state_success_blends_ewma() {
    let mut h = default_health();
    h.record_success(20_000);
    h.record_success(40_000);
    // 0.75 * 20_000 + 0.25 * 40_000 = 25_000
    assert_eq!(h.ewma_rtt_us, 25_000);
}

#[test]
fn band_limit_floor_and_factor() {
    // No data / zero best: floor only.
    assert_eq!(
        band_limit(0, SELECT_BAND_FACTOR, SELECT_BAND_FLOOR_US),
        SELECT_BAND_FLOOR_US
    );
    // Sub-millisecond best: additive floor dominates (500*2 < 500+2000).
    assert_eq!(
        band_limit(500, SELECT_BAND_FACTOR, SELECT_BAND_FLOOR_US),
        500 + SELECT_BAND_FLOOR_US
    );
    // Above the floor crossover: multiplicative factor dominates.
    assert_eq!(
        band_limit(10_000, SELECT_BAND_FACTOR, SELECT_BAND_FLOOR_US),
        20_000
    );
}

#[test]
fn refresh_runs_once_and_then_waits() {
    let mut g = RefreshGuard::new();
    assert!(g.try_begin(1_000, 30_000));
    assert!(!g.try_begin(40_000, 30_000));
    g.finish();
    assert!(!g.try_begin(30_999, 30_000));
    assert!(g.try_begin(31_000, 30_000));
}

fn endpoint(proto: UpstreamProto, ip: &str, port: u16, addr: &str) -> UpstreamEndpoint {
    UpstreamEndpoint {
        proto,
        ip: ip.to_string(),
        port,
        addr: addr.to_string(),
        server_name: None,
        path: None,
        no_sni: false,
        ecs_mode: None,
        mark: None,
    }
}

fn two_nodes(hedge: Option<u64>) -> UpstreamPool {
    let eps = vec![
        endpoint(UpstreamProto::Udp, "1.1.1.1", 53, "1.1.1.1:53"),
        endpoint(UpstreamProto::Udp, "8.8.8.8", 53, "8.8.8.8:53"),
    ];
    let (pool, plans) = UpstreamPool::new("main", &eps, 100, hedge);
    assert_eq!(plans.len(), 2);
    assert_eq!(plans[0].transport, TransportKind::Udp);
    pool
}

#[test]
fn faster_node_is_asked() {
    let mut pool = two_nodes(None);
    pool.nodes[0].health.record_success(100_000);
    pool.nodes[1].health.record_success(5_000);
    assert_eq!(pool.select_primary_idx(1), Some(1));
    assert_eq!(pool.select_secondary_idx(1), Some(0));
    assert_eq!(pool.select_secondary_idx(0), Some(1));
}

#[test]
fn empty_pool_has_no_node() {
    let (mut pool, plans) = UpstreamPool::new("none", &Vec::new(), 0, None);
    assert_eq!(plans.len(), 0);
    assert_eq!(pool.select_primary_idx(0), None);
    assert!(pool.begin_exchange().is_none());
}

#[test]
fn hedge_has_a_budget() {
    let mut pool = two_nodes(Some(10_000));
    let start = pool.begin_exchange().unwrap();
    assert!(start.primary < 2);
    assert!(start.hedge_after_us.is_some());
    let mut hedged = 0u64;
    let other = 1 - start.primary;
    let mut asked = 0;
    loop {
        match pool.on_hedge_timer(start.primary, &mut hedged) {
            HedgeStep::Ask(i) => {
                assert_eq!(i, other);
                asked += 1;
                assert!(asked < 100);
            }
            HedgeStep::OverBudget => break,
            HedgeStep::NoOther => panic!("there is another node"),
        }
    }
    assert_eq!(hedged, asked);
    assert_eq!(asked, 4);
    pool.end_hedge();
    assert_eq!(pool.on_hedge_timer(start.primary, &mut hedged), HedgeStep::Ask(other));
}

#[test]
fn hedge_succeeds_with_either_answer() {
    let ok = vec![1u8];
    let late = vec![2u8];
    let err = ExchangeError::Failed;
    assert_eq!(settle_hedge(Ok(ok.clone()), Err(err), true), Ok(ok.clone()));
    assert_eq!(settle_hedge(Err(err), Ok(late.clone()), true), Ok(late.clone()));
    assert_eq!(settle_hedge(Ok(ok.clone()), Ok(late.clone()), true), Ok(ok.clone()));
    assert_eq!(settle_hedge(Ok(ok), Ok(late.clone()), false), Ok(late));
    assert!(settle_hedge(Err(err), Err(err), false).is_err());
}

#[test]
fn repeated_failures_refresh_the_transport() {
    let mut pool = two_nodes(None);
    let node = &mut pool.nodes[0];
    let mut seen = Vec::new();
    for _ in 0..6 {
        node.begin_exchange();
        seen.push(node.end_exchange(NodeResult::Timeout));
    }
    assert_eq!(seen[..5], [NodeAction::Nothing; 5]);
    assert_eq!(seen[5], NodeAction::RefreshSockets);
    assert_eq!(node.stats.queries_timeout, 6);
    assert_eq!(node.stats.active_inflight, 0);
    node.begin_exchange();
    assert_eq!(node.stats.active_inflight, 1);
    assert_eq!(node.end_exchange(NodeResult::Answered(1_000)), NodeAction::ReportRecovery);
    assert_eq!(node.stats.queries_ok, 1);
    node.begin_exchange();
    node.end_exchange(NodeResult::Cancelled);
    assert_eq!(node.stats.queries_cancelled, 0);
    assert!(pool.on_first_result(true, 0));
    assert!(!pool.on_first_result(false, 1));
    let snaps = pool.node_snapshots("main");
    assert_eq!(snaps.len(), 2);
    assert_eq!(snaps[0].queries_timeout, 6);
    assert_eq!(snaps[0].queries_cancelled, 1);
    assert_eq!(snaps[1].queries_cancelled, 0);
    assert_eq!(snaps[0].rtt_count(), 1);
    assert_eq!(snaps[0].rtt_sum_us, 1_000);
}

#[test]
fn addresses_are_shown_with_their_protocol() {
    assert_eq!(
        format_upstream_addr(&endpoint(UpstreamProto::Udp, "1.1.1.1", 53, "1.1.1.1:53")),
        "udp://1.1.1.1"
    );
    assert_eq!(
        format_upstream_addr(&endpoint(UpstreamProto::H3, "1.1.1.1", 8443, "1.1.1.1:8443")),
        "h3://1.1.1.1:8443/dns-query"
    );
    let text = pool_summary(
        "main",
        &vec![endpoint(UpstreamProto::Udp, "1.1.1.1", 53, "1.1.1.1:53")],
        4,
    );
    assert_eq!(text, "upstream main udp=1 udp_pool=4");
}

/// A query for "a." with an OPT record that carries the given options.
fn query_with_options(options: &[u8]) -> Vec<u8> {
    let mut p = vec![0x12, 0x34, 0x01, 0x00, 0, 1, 0, 0, 0, 0, 0, 1];
    p.extend_from_slice(&q());
    p.extend_from_slice(&[0, 0, 41, 0x04, 0xd0, 0, 0, 0, 0]);
    p.extend_from_slice(&(options.len() as u16).to_be_bytes());
    p.extend_from_slice(options);
    p
}

#[test]
fn subnets_are_treated_as_configured() {
    let ecs = [0, 8, 0, 7, 0, 1, 24, 0, 10, 1, 2];
    let cookie = [0, 10, 0, 2, 9, 9];
    let both: Vec<u8> = [&ecs[..], &cookie[..]].concat();
    let query = query_with_options(&both);
    assert_eq!(apply_ecs_mode(&query, &EcsMode::Forward), query);
    let stripped = apply_ecs_mode(&query, &EcsMode::Strip);
    assert_eq!(stripped, query_with_options(&cookie));
    assert!(!has_ecs(&stripped));
    let subnet = EcsSubnet { addr: IpAddr::V4(0xc0a8_01ff), prefix_len: 20 };
    let fixed = apply_ecs_mode(&query, &EcsMode::Fixed(subnet));
    let want = [&cookie[..], &[0, 8, 0, 7, 0, 1, 20, 0, 192, 168, 0][..]].concat();
    assert_eq!(fixed, query_with_options(&want));

    let sent = prepare_query(&query, &EcsMode::Forward, 0xbeef).unwrap();
    assert_eq!(&sent[..2], &[0xbe, 0xef]);
    assert_eq!(&sent[2..], &query[2..]);
    assert!(prepare_query(&[1], &EcsMode::Forward, 1).is_none());
}

#[test]
fn responses_are_validated() {
    let good = build_response(7, 0, 1, &q());
    assert_eq!(question_of(&good), q());
    assert_eq!(validate_upstream_response(&good, 7, &q()), Ok(()));
    assert_eq!(
        validate_upstream_response(&good, 8, &q()),
        Err(ResponseError::IdMismatch)
    );
    assert_eq!(
        validate_upstream_response(&good, 7, &[1, b'b', 0, 0, 1, 0, 1]),
        Err(ResponseError::QuestionMismatch)
    );
    let mut query = good.clone();
    query[2] = 0;
    assert_eq!(
        validate_upstream_response(&query, 7, &q()),
        Err(ResponseError::NotReply)
    );
    let done = finalize_response(good.clone(), 7, &q(), 0x4242).unwrap();
    assert_eq!(&done[..2], &[0x42, 0x42]);
    assert_eq!(&done[2..], &good[2..]);
}

#[test]
fn frames_start_with_their_length() {
    assert_eq!(frame_message(&[5, 6, 7]), Some(vec![0, 3, 5, 6, 7]));
    assert!(frame_message(&vec![0; 65536]).is_none());
    let mut buf = BytesMut::new();
    push_framed(&mut buf, &[5, 6, 7]);
    assert_eq!(&buf[..], &[0, 3, 5, 6, 7]);
    let n = coalesce(&mut buf, &vec![vec![1], vec![2, 3]]);
    assert_eq!(n, 2);
    assert_eq!(&buf[..], &[0, 1, 1, 0, 2, 2, 3]);
    let taken: Bytes = buf.freeze();
    assert_eq!(taken.len(), 7);
    assert!(frame_length_ok(12, 65535));
    assert!(!frame_length_ok(11, 65535));
    assert!(!frame_length_ok(101, 100));
}

#[test]
fn coalescing_stops_at_the_batch_size() {
    let mut buf = BytesMut::new();
    let packets = vec![vec![0u8; 40_000], vec![0u8; 40_000], vec![0u8; 10]];
    let n = coalesce(&mut buf, &packets);
    assert!(n < packets.len());
    assert!(n >= 1);
}

#[test]
fn reconnects_back_off() {
    assert_eq!(reconnect_backoff_ms(3), 400);
    assert_eq!(reconnect_backoff_ms(6), 3_200);
    assert_eq!(reconnect_backoff_ms(1000), 5_000);
    let mut r = Reconnect::new();
    assert_eq!(r.wait_ms(10), None);
    r.on_failed(10);
    assert!(r.wait_ms(10).is_some());
    let mine = r.on_connected();
    assert_eq!(r.wait_ms(10), None);
    assert!(r.is_current(mine));
    r.on_connected();
    assert!(!r.is_current(mine));
}

#[test]
fn receive_errors_back_off() {
    assert_eq!(next_recv_delay_ms(50), 100);
    assert_eq!(next_recv_delay_ms(4_000), 5_000);
    assert_eq!(next_socket(5, 4), (1, 6));
    assert_eq!(next_socket(usize::MAX, 4), (3, 0));
    let mut truncated = build_response(1, 0, 1, &q());
    assert!(!needs_tcp_retry(&truncated));
    truncated[2] |= 0x02;
    assert!(needs_tcp_retry(&truncated));
    assert_eq!(count_delivered(0), (false, 1));
    assert_eq!(count_delivered(99), (true, 0));
}

#[test]
fn urls_and_bodies() {
    assert_eq!(https_url("dns.example", "/dns-query"), "https://dns.example/dns-query");
    assert_eq!(h3_url("dns.example", 443, "/dns-query"), "https://dns.example:443/dns-query");
    assert_eq!(h3_url("dns.example", 8443, "/q"), "https://dns.example:8443/q");
    assert!(status_ok(200));
    assert!(!status_ok(404));
    let mut body = Vec::new();
    assert!(take_chunk(&mut body, &[1, 2]));
    assert!(take_chunk(&mut body, &[3]));
    assert_eq!(body, vec![1, 2, 3]);
    assert!(!take_chunk(&mut body, &vec![0; MAX_HTTP_BODY]));
}

#[test]
fn identifiers_are_scattered() {
    assert_ne!(mix16(1), mix16(2));
    assert_eq!(seed_from_time(Some((3, 4))), 7);
    assert_eq!(seed_from_time(None), 0xdead_beef);
    let _ = random_id_seed();
}
