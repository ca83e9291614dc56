use pathdns::clock::now_unix;
use pathdns::iprange::IpAddr;
use pathdns::querylog::api::{
    ct_str_eq, parse_http_request, parse_query_param, percent_decode, query_param, query_param_opt,
    request_complete, safe_history_filename,
};
use pathdns::querylog::calendar::{days_to_ymd, micros_to_rfc3339};
use pathdns::querylog::dispatch::{
    avg_rtt_us, backfill, dispatch, filter_action_text, last_seen_event, may_stream, response_head,
    shown_servers, sorted_numbers, stats_figures, tag_count, Route,
};
use pathdns::querylog::ring::{EventRing, QpsRing, StatsRing, StatsSample};
use pathdns::querylog::segments::{
    extract_file_timestamp, index_path, is_full, is_segment_name, list_history_files, newest_plain,
    plan_prune, segment_name, segment_name_at,
};
use pathdns::querylog::worker::{drain_events, worker_settings, Sampler};
use pathdns::querylog::{
    build, unix_micros_now, QueryLogConfig, QueryLogCounters, QueryLogEvent, QueryLogFileConfig,
    QueryLogHandle,
};
use pathdns::response_filter::FilterAction;
use pathdns::server::build_servers;
use pathdns::config::{FixedAnswerSet, ServerSpec};
use pathdns::stats::NodeStats;
use std::sync::Arc;
use std::time::{SystemTime, UNIX_EPOCH};

#[test]
fn query_params_are_percent_decoded() {
    assert_eq!(
        parse_query_param("q=hello%20world", "q").as_deref(),
        Some("hello world")
    );
    assert_eq!(
        parse_query_param("q=%E4%BE%8B%E5%AD%90", "q").as_deref(),
        Some("例子")
    );
}

#[test]
fn invalid_percent_encoding_is_rejected() {
    assert!(parse_query_param("q=%zz", "q").is_none());
}

#[test]
fn safe_filename_rejects_path_traversal() {
    assert!(!safe_history_filename("../etc/passwd"));
    assert!(!safe_history_filename("other-1234.msgpack.gz")); // wrong prefix
    assert!(!safe_history_filename("querylog-1234/x.msgpack.gz")); // slash
    assert!(safe_history_filename(
        "querylog-00001749000000000000.msgpack.gz"
    ));
    assert!(safe_history_filename(
        "querylog-00001749000000000000.msgpack"
    ));
}

fn event(seq: u64) -> QueryLogEvent {
    QueryLogEvent {
        seq,
        unix_micros: 0,
        client: IpAddr::V4(0x7f00_0001),
        client_port: 53,
        qname: "example.com".to_string(),
        qtype: 1,
        rcode: 0,
        elapsed_us: 1,
        response_bytes: 32,
        source: "cache",
        rule: None,
        answer_ips: Vec::new(),
    }
}

#[test]
fn disabled_config_has_no_event_channel() {
    let (handle, worker, _, _, _) = build(QueryLogConfig {
        enabled: false,
        memory: 1000,
        channel: 4096,
        answer_ips: false,
        file: None,
    });
    assert!(!handle.collecting());
    assert!(worker.is_none());
}

#[test]
fn full_channel_is_counted_without_blocking() {
    let (mut handle, worker, _, _, _) = build(QueryLogConfig {
        enabled: true,
        memory: 1,
        channel: 1,
        answer_ips: false,
        file: None,
    });
    let _worker = worker.unwrap();
    for _ in 0..65 {
        handle.try_emit_with(event);
    }
    assert_eq!(handle.counters.events_enqueued, 64);
    assert_eq!(handle.counters.events_dropped_full, 1);
}

#[test]
fn worker_drains_events_during_shutdown() {
    let (mut handle, worker, _, _, _) = build(QueryLogConfig {
        enabled: true,
        memory: 4,
        channel: 64,
        answer_ips: false,
        file: None,
    });
    let worker = worker.unwrap();
    let mut ring = worker.ring;
    let (batch_size, _) = worker_settings(&worker.file_cfg);
    handle.try_emit_with(event);
    handle.try_emit_with(event);
    handle.try_emit_with(event);
    let written = drain_events(&mut handle, &mut ring, batch_size);
    assert_eq!(written.iter().map(Vec::len).sum::<usize>(), 3);
    assert_eq!(ring.len(), 3);
    assert_eq!(handle.counters.events_processed, 3);
    assert_eq!(handle.queue_depth(), 0);
}

#[test]
fn zero_capacity_ring_discards_events() {
    let mut ring = EventRing::new(0);
    assert_eq!(ring.len(), 0);
    ring.push_batch(&vec![Arc::new(event(1))]);
    assert_eq!(ring.len(), 0);
    assert!(!ring.enabled());
}

#[test]
fn queue_is_worked_off_in_full_batches() {
    let (mut handle, worker, _, _, _) = build(QueryLogConfig {
        enabled: true,
        memory: 2,
        channel: 64,
        answer_ips: false,
        file: None,
    });
    let mut ring = worker.unwrap().ring;
    for _ in 0..5 {
        handle.try_emit_with(event);
    }
    let written = drain_events(&mut handle, &mut ring, 2);
    assert_eq!(written.iter().map(Vec::len).collect::<Vec<usize>>(), vec![2, 2, 1]);
    assert_eq!(ring.len(), 2);
    assert_eq!(handle.counters.ring_evictions, 3);
}

#[test]
fn live_events_need_a_ring_and_a_client() {
    let batch: Vec<Arc<QueryLogEvent>> = (0..3).map(|n| Arc::new(event(n))).collect();
    let ring = EventRing::new(1);
    let sent = ring.live_events(&batch, 1);
    assert_eq!(sent.iter().map(|e| e.seq).collect::<Vec<u64>>(), vec![0, 1, 2]);
    assert!(ring.live_events(&batch, 0).is_empty());
    assert!(EventRing::new(0).live_events(&batch, 1).is_empty());
}

#[test]
fn nothing_asked_for_gives_nothing() {
    let mut ring = EventRing::new(3);
    ring.push_batch(&vec![Arc::new(event(1))]);
    assert!(ring.query(None, None, 0, None).is_empty());
    assert!(StatsRing::new().bucket_aggregate(60, 0).is_empty());
}

#[test]
fn only_the_window_has_to_fit() {
    let mut ring = StatsRing::new();
    for queries in [u64::MAX, 1, 2] {
        ring.push(StatsSample { queries, ..StatsSample::default() });
    }
    assert!(!ring.window_fits(180));
    assert!(ring.window_fits(120));
    assert_eq!(ring.aggregate(120).0.queries, 3);
    let parts: Vec<u64> =
        ring.bucket_aggregate(120, 4).iter().map(|s| s.queries).collect();
    assert_eq!(parts, vec![0, 1, 0, 2]);
}

#[test]
fn qps_snapshot_returns_newest_window_in_order() {
    let mut ring = QpsRing::new();
    ring.push(1);
    ring.push(2);
    ring.push(3);
    assert_eq!(ring.snapshot(2), vec![2, 3]);
}

#[test]
fn ring_keeps_the_newest_events() {
    let mut ring = EventRing::new(3);
    let batch: Vec<Arc<QueryLogEvent>> = (0..5).map(|n| Arc::new(event(n))).collect();
    assert_eq!(ring.push_batch(&batch), 2);
    let all = ring.query(None, None, 10, None);
    assert_eq!(all.iter().map(|e| e.seq).collect::<Vec<u64>>(), vec![4, 3, 2]);
    let some = ring.query(Some(4), None, 1, None);
    assert_eq!(some.iter().map(|e| e.seq).collect::<Vec<u64>>(), vec![3]);
    assert!(ring.query(None, None, 10, Some("other")).is_empty());
    assert_eq!(ring.query(None, None, 10, Some("example")).len(), 3);
    let after = backfill(&ring, 2);
    assert_eq!(after.iter().map(|e| e.seq).collect::<Vec<u64>>(), vec![3, 4]);
    ring.clear();
    assert!(ring.is_empty());
}

#[test]
fn closed_queue_counts_events() {
    let (mut handle, _worker, _, _, _) = build(QueryLogConfig {
        enabled: true,
        memory: 4,
        channel: 64,
        answer_ips: true,
        file: None,
    });
    assert!(handle.collect_answer_ips());
    handle.queue.as_mut().unwrap().closed = true;
    handle.try_emit_with(event);
    assert_eq!(handle.counters.events_dropped_closed, 1);
    assert_eq!(handle.counters.events_enqueued, 0);
    assert_eq!(handle.seq, 0);
    assert_eq!(handle.next_seq(), 0);
    assert_eq!(handle.next_seq(), 1);
}

#[test]
fn worker_settings_come_from_the_file_settings() {
    assert_eq!(worker_settings(&None), (256, 500));
    let cfg = QueryLogFileConfig {
        dir: b"/log".to_vec(),
        max_mb: 64,
        max_segments: 3,
        batch_size: 300,
        flush_interval_ms: 10,
        retention_days: None,
        compress: true,
    };
    assert_eq!(worker_settings(&Some(cfg)), (300, 50));
}

fn sample(n: u64) -> StatsSample {
    StatsSample {
        unix_secs: n,
        queries: n,
        cache_hits: 1,
        upstream_ok: 2,
        upstream_err: 3,
        filtered: 4,
    }
}

#[test]
fn aggregate_and_buckets_cover_the_same_samples() {
    let mut ring = StatsRing::new();
    for n in 1..=6 {
        ring.push(sample(n));
    }
    let (sum, from_secs) = ring.aggregate(360);
    assert_eq!(sum.queries, 21);
    assert_eq!(sum.filtered, 24);
    assert_eq!(from_secs, 1);
    let buckets = ring.bucket_aggregate(360, 3);
    assert_eq!(buckets.len(), 3);
    assert_eq!(buckets.iter().map(|b| b.queries).collect::<Vec<u64>>(), vec![3, 7, 11]);
}

#[test]
fn sampler_takes_differences_and_folds_a_minute() {
    let mut counters = QueryLogCounters::new();
    let mut qps = QpsRing::new();
    let mut stats = StatsRing::new();
    let mut sampler = Sampler::new(&counters);
    for second in 0..60 {
        counters.queries_total += 5;
        counters.cache_hits += 2;
        sampler.tick(&mut counters, 1_000 + second, &mut qps, &mut stats);
    }
    assert_eq!(qps.snapshot(3), vec![5, 5, 5]);
    let (sum, _) = stats.aggregate(60);
    assert_eq!(sum.queries, 300);
    assert_eq!(sum.cache_hits, 120);
}

#[test]
fn requests_are_parsed() {
    let req = parse_http_request(
        "get /api/log?limit=5&q=a%20b HTTP/1.1\r\nHost: x\r\nAuthorization: Bearer t0k\r\nLast-Event-ID: 17\r\n\r\n",
    );
    assert_eq!(req.method, "GET");
    assert_eq!(req.path, "/api/log");
    assert_eq!(req.query, "limit=5&q=a%20b");
    assert!(req.auth.is_some());
    assert_eq!(last_seen_event(&req), Some(17));
    assert!(request_complete(b"GET / HTTP/1.1\r\n\r\n"));
    assert!(!request_complete(b"GET / HTTP/1.1\r\n"));
    assert!(may_stream(&req, None));
    assert!(!may_stream(&req, Some("other")));
}

#[test]
fn numbers_in_queries_have_bounds() {
    assert_eq!(query_param("limit=5", "limit", u64::MAX, 9), 5);
    assert_eq!(query_param("limit=x", "limit", u64::MAX, 9), 9);
    assert_eq!(query_param_opt("a=1&b=300", "b", 255), None);
    assert_eq!(query_param_opt("a=1&b=255", "b", 255), Some(255));
    assert_eq!(percent_decode(b"a+b%2B"), Some("a b+".to_string()));
    assert_eq!(percent_decode(b"%ff"), None);
}

#[test]
fn token_comparison() {
    assert!(ct_str_eq("secret", "secret"));
    assert!(!ct_str_eq("secret", "secreT"));
    assert!(!ct_str_eq("secret", "secre"));
    assert!(ct_str_eq("", ""));
}

fn get(path: &str) -> Route {
    dispatch(&parse_http_request(&format!("GET {path} HTTP/1.1\r\n\r\n")), None, true)
}

#[test]
fn requests_find_their_route() {
    assert!(matches!(get("/"), Route::Page));
    assert!(matches!(get("/api/stats"), Route::Stats));
    assert!(matches!(get("/api/upstreams"), Route::Upstreams));
    assert!(matches!(get("/api/rules"), Route::Rules));
    assert!(matches!(get("/nowhere"), Route::NotFound));
    match get("/api/querylog?limit=7&q=abc") {
        Route::Log(q) => {
            assert_eq!(q.limit, 7);
            assert_eq!(q.filter.as_deref(), Some("abc"));
        }
        _ => panic!("log expected"),
    }
}

#[test]
fn token_guards_the_routes() {
    let plain = parse_http_request("GET /api/stats HTTP/1.1\r\n\r\n");
    assert!(matches!(dispatch(&plain, Some("t0k"), true), Route::Unauthorized));
    let with = parse_http_request("GET /api/stats HTTP/1.1\r\nAuthorization: Bearer t0k\r\n\r\n");
    assert!(matches!(dispatch(&with, Some("t0k"), true), Route::Stats));
}

#[test]
fn replies_have_a_head() {
    let head = response_head("200 OK", "text/plain", 3);
    assert!(head.starts_with("HTTP/1.1 200 OK\r\n"));
    assert!(head.contains("Content-Length: 3\r\n"));
    assert!(head.ends_with("\r\n\r\n"));
}

#[test]
fn figures_of_the_dashboard() {
    let mut handle = QueryLogHandle::disabled();
    handle.counters.rtt_sum_us = 900;
    handle.counters.rtt_count = 3;
    let mut qps = QpsRing::new();
    qps.push(4);
    let ring = EventRing::new(2);
    let f = stats_figures(&handle, &qps, &ring);
    assert_eq!(f.avg_resolution_us, 300);
    assert_eq!(f.qps_now, 4);
    assert_eq!(f.ring_len, 0);
    let mut n = NodeStats::new();
    n.record_ok(100);
    n.record_ok(300);
    assert_eq!(avg_rtt_us(&n.snapshot("a", "b")), 200);
    assert_eq!(sorted_numbers(&vec![28, 1, 5]), vec![1, 5, 28]);
    assert_eq!(tag_count(&vec![(b"cn".to_vec(), 7)], "cn"), 7);
    assert_eq!(tag_count(&vec![(b"cn".to_vec(), 7)], "us"), 0);
    let servers = build_servers(&vec![
        ("a".to_string(), ServerSpec::Fixed(FixedAnswerSet::default())),
        ("b".to_string(), ServerSpec::Upstream(Vec::new())),
    ]);
    assert_eq!(shown_servers(&servers), vec![1]);
    assert_eq!(filter_action_text(FilterAction::Drop, &servers), "drop");
    assert_eq!(filter_action_text(FilterAction::Forward(1), &servers), "forward:b");
}

#[test]
fn dates_follow_the_calendar() {
    assert_eq!(days_to_ymd(0), (1970, 1, 1));
    assert_eq!(days_to_ymd(59), (1970, 3, 1));
    assert_eq!(days_to_ymd(11_016), (2000, 2, 29));
    assert_eq!(days_to_ymd(19_723), (2024, 1, 1));
    assert_eq!(micros_to_rfc3339(1_704_067_199_123_456), "2023-12-31T23:59:59.123456Z");
    assert_eq!(micros_to_rfc3339(0), "1970-01-01T00:00:00.000000Z");
}

#[test]
fn segment_names_carry_their_time() {
    let name = segment_name_at(1_749_000_000_000);
    assert_eq!(name, "querylog-00000001749000000000.msgpack");
    assert!(is_segment_name(&name));
    assert_eq!(extract_file_timestamp(&name), Some(1_749_000_000_000));
    assert_eq!(extract_file_timestamp("querylog-x.msgpack"), None);
    assert!(!is_segment_name("notes.txt"));
    assert!(is_segment_name(&segment_name()));
    assert!(unix_micros_now() > 1_600_000_000_000_000);
    assert_eq!(index_path(b"/d/querylog-1.msgpack"), b"/d/querylog-1.msgpack.index.json".to_vec());
}

#[test]
fn old_segments_are_pruned() {
    let day = 86_400_000_000u64;
    let names: Vec<String> = (0..5).map(|n| segment_name_at(n * day + 1)).collect();
    // Two newest stay by number.
    assert_eq!(plan_prune(&names, None, 2, 10 * day), vec![3, 4]);
    // Those of the last two days stay by age.
    assert_eq!(plan_prune(&names, Some(2), 10, 5 * day), vec![3, 4]);
    assert_eq!(newest_plain(&names), Some(4));
    assert_eq!(list_history_files(&names), vec![0, 1, 2, 3, 4]);
    assert!(is_full(1024 * 1024, 1));
    assert!(!is_full(1024 * 1024 - 1, 1));
}

#[test]
fn history_requests_keep_all_parameters() {
    let name = segment_name();
    let path = format!(
        "/api/querylog/history?file={name}&limit=900&rcode=3&upstream=a%20b&client=10.0.0.1&type=28"
    );
    match get(&path) {
        Route::History(file, query, params) => {
            assert_eq!(file, name);
            assert_eq!(query.limit, 200);
            assert_eq!(query.rcode, Some(3));
            assert_eq!(params.upstream.as_deref(), Some("a b"));
            assert_eq!(params.client.as_deref(), Some("10.0.0.1"));
            assert_eq!(params.qtype, Some(28));
        }
        _ => panic!("page expected"),
    }
    let path = format!("/api/querylog/history?file={name}&type=70000");
    match get(&path) {
        Route::History(_, _, params) => assert_eq!(params.qtype, None),
        _ => panic!("page expected"),
    }
}

#[test]
fn the_clock_is_that_of_the_system() {
    let before = SystemTime::now().duration_since(UNIX_EPOCH).unwrap();
    let micros = unix_micros_now();
    let secs = now_unix();
    let name = segment_name();
    let after = SystemTime::now().duration_since(UNIX_EPOCH).unwrap();
    assert!(before.as_micros() as u64 <= micros && micros <= after.as_micros() as u64);
    assert!(before.as_secs() <= secs && secs <= after.as_secs());
    assert!(segment_name_at(before.as_micros() as u64) <= name);
    assert!(name <= segment_name_at(after.as_micros() as u64));
}
