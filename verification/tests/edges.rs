use pathdns::config::VerdictCacheConfig;
use pathdns::querylog::api::{hex, parse_http_request, parse_query_param, percent_decode};
use pathdns::querylog::history::{event_matches, read_history_page, HistoryQuery, Segment};
use pathdns::querylog::DecodedEvent;
use pathdns::querylog::calendar::micros_to_rfc3339;
use pathdns::text::{decimal, padded, parse_u64};
use pathdns::upstream::health::HealthStats;
use pathdns::upstream::pool::UpstreamPool;
use pathdns::config::{UpstreamEndpoint, UpstreamProto};
use pathdns::verdict_cache::VerdictCache;

#[test]
fn odd_requests_are_read_leniently() {
    let empty = parse_http_request("");
    assert_eq!(empty.method, "");
    assert_eq!(empty.path, "/");
    assert_eq!(empty.query, "");
    let bare = parse_http_request("GET");
    assert_eq!(bare.method, "GET");
    assert_eq!(bare.path, "/");
    let two = parse_http_request("GET /a?b?c HTTP/1.1\n");
    assert_eq!(two.path, "/a");
    assert_eq!(two.query, "b?c");
    assert!(two.auth.is_none());
    assert_eq!(parse_http_request("pOst / HTTP/1.1").method, "POST");
    assert_eq!(parse_http_request("stra\u{df}e / HTTP/1.1").method, "STRASSE");
}

#[test]
fn header_names_have_no_case_but_the_scheme_has() {
    let req = parse_http_request("GET / HTTP/1.1\r\nAUTHORIZATION:Bearer  x \r\n\r\n");
    assert_eq!(req.auth.as_deref(), Some("x"));
    let other = parse_http_request("GET / HTTP/1.1\r\nAuthorization: bearer x\r\n\r\n");
    assert_eq!(other.auth, None);
    let last = parse_http_request("GET / HTTP/1.1\r\nlast-event-id:  7 \r\n\r\n");
    assert_eq!(last.last_event_id.as_deref(), Some("7"));
}

#[test]
fn escapes_at_the_end_stand_for_themselves() {
    assert_eq!(percent_decode(b"%41"), Some("A".to_string()));
    assert_eq!(percent_decode(b"a%4"), Some("a%4".to_string()));
    assert_eq!(percent_decode(b"%"), Some("%".to_string()));
    assert_eq!(hex(b'f'), Some(15));
    assert_eq!(hex(b'F'), Some(15));
    assert_eq!(hex(b'g'), None);
}

#[test]
fn the_first_parameter_of_a_name_counts() {
    assert_eq!(parse_query_param("a&b=2", "b").as_deref(), Some("2"));
    assert_eq!(parse_query_param("b=1&b=2", "b").as_deref(), Some("1"));
    assert_eq!(parse_query_param("q=%zz&q=ok", "q"), None);
    assert_eq!(parse_query_param("q", "q"), None);
    assert_eq!(parse_query_param("q=a=b", "q").as_deref(), Some("a=b"));
}

fn event(n: u64, rcode: u8) -> DecodedEvent {
    DecodedEvent {
        seq: n,
        unix_micros: n,
        client: "::1".to_string(),
        client_port: 1,
        qname: "a.test".to_string(),
        qtype: 1,
        rcode,
        elapsed_us: 0,
        response_bytes: 0,
        source: "cache".to_string(),
        rule: None,
        answer_ips: Vec::new(),
    }
}

fn open_query() -> HistoryQuery {
    HistoryQuery {
        limit: 100,
        cursor: None,
        from_micros: None,
        to_micros: None,
        qname: None,
        rcode: None,
        source: None,
    }
}

#[test]
fn empty_filters_match_everything() {
    let q = HistoryQuery {
        qname: Some(String::new()),
        source: Some(String::new()),
        ..open_query()
    };
    assert!(event_matches(&event(1, 0), &q));
}

#[test]
fn scan_without_an_index_is_bounded_for_filters() {
    let events = |n: u64| -> Vec<DecodedEvent> {
        (0..n).map(|i| event(i, if i == n - 1 { 5 } else { 0 })).collect()
    };
    let q = HistoryQuery { rcode: Some(5), ..open_query() };
    let found = read_history_page(Segment::Plain(events(9_000)), &q);
    assert_eq!(found.events.len(), 1);
    let missed = read_history_page(Segment::Plain(events(10_050)), &q);
    assert_eq!(missed.events.len(), 0);
    assert!(!missed.has_more);
    assert_eq!(missed.next_cursor, None);
    let page = read_history_page(Segment::Plain(events(150)), &open_query());
    assert_eq!(page.events.len(), 100);
    assert_eq!(page.next_cursor, Some(100));
    assert_eq!(page.total_entries, None);
}

#[test]
fn page_size_is_bounded() {
    let events: Vec<DecodedEvent> = (0..500).map(|i| event(i, 0)).collect();
    let page = read_history_page(
        Segment::Plain(events),
        &HistoryQuery { limit: 1_000, ..open_query() },
    );
    assert_eq!(page.events.len(), 200);
    let one = read_history_page(
        Segment::Plain(vec![event(0, 0), event(1, 0)]),
        &HistoryQuery { limit: 0, ..open_query() },
    );
    assert_eq!(one.events.len(), 1);
    assert!(one.has_more);
}

#[test]
fn window_stays_between_one_and_the_bound() {
    let mut h = HealthStats::new(4);
    assert_eq!(h.concurrency_window, 4);
    for _ in 0..10 {
        h.record_failure(true);
        assert!(h.concurrency_window >= 1);
    }
    assert_eq!(h.concurrency_window, 1);
    for _ in 0..10 {
        h.record_success(1_000);
    }
    assert_eq!(h.concurrency_window, 4);
    h.record_failure(false);
    assert_eq!(h.concurrency_window, 4);
}

#[test]
fn busy_nodes_score_higher() {
    let ep = UpstreamEndpoint {
        proto: UpstreamProto::Tcp,
        ip: "1.1.1.1".to_string(),
        port: 53,
        addr: "1.1.1.1:53".to_string(),
        server_name: None,
        path: None,
        no_sni: false,
        ecs_mode: None,
        mark: None,
    };
    let (mut pool, _) = UpstreamPool::new("p", &vec![ep], 2, None);
    let node = &mut pool.nodes[0];
    assert_eq!(node.selection_score(), 0);
    node.health.record_success(1_000);
    assert_eq!(node.selection_score(), 1_000);
    node.begin_exchange();
    assert_eq!(node.selection_score(), 2_000);
    node.begin_exchange();
    // As many queries in flight as the window allows.
    assert_eq!(node.selection_score(), 12_000);
    assert_eq!(node.hedge_delay(9_999), 3_000);
    node.health.record_failure(true);
    assert_eq!(node.hedge_delay(9_999), 9_999);
}

#[test]
fn few_verdicts_never_push_each_other_out() {
    let mut c = VerdictCache::new(Some(&VerdictCacheConfig { capacity: 5_000, ttl_secs: 0 }));
    for i in 0..32 {
        c.add_at(&format!("host{i}.test"), i % 2 == 0, 1);
    }
    for i in 0..32 {
        assert_eq!(c.get_at(&format!("host{i}.test"), 2), Some(i % 2 == 0));
    }
    let mut small = VerdictCache::new(Some(&VerdictCacheConfig { capacity: 3, ttl_secs: 0 }));
    for i in 0..3 {
        small.add_at(&format!("host{i}.test"), true, 1);
    }
    assert_eq!(small.alive_at(2).len(), 3);
    for i in 3..100 {
        small.add_at(&format!("host{i}.test"), true, 1);
    }
    assert!(small.alive_at(2).len() <= 3);
}

#[test]
fn numbers_are_written_and_read() {
    assert_eq!(decimal(0), "0");
    assert_eq!(decimal(u64::MAX), "18446744073709551615");
    assert_eq!(padded(7, 4), "0007");
    assert_eq!(padded(12_345, 4), "12345");
    assert_eq!(parse_u64(b"+7"), Some(7));
    assert_eq!(parse_u64(b"18446744073709551616"), None);
    assert_eq!(parse_u64(b""), None);
}

#[test]
fn different_times_have_different_texts() {
    assert_ne!(micros_to_rfc3339(1), micros_to_rfc3339(2));
    assert_eq!(micros_to_rfc3339(951_782_400_000_000), "2000-02-29T00:00:00.000000Z");
}
