use pathdns::app_state::{restore_filter_ips, AppState, CachedEntry};
use pathdns::config::{
    AnswerIpMatcher, BindEndpoint, CacheConfig, Config, EcsMode, FallbackConfig, FallbackTarget,
    FixedAnswer, FixedAnswerSet, InterfaceFilter, RuleCachePolicy, RuleFilterActionSpec,
    RuleFilterSpec, RuleMatcher, RuleSpec, ServerSpec, UdpDiagnostics, UpstreamEndpoint,
    UpstreamProto, VerdictCacheConfig,
};
use pathdns::exchange::{
    admission_for, after_forward, apply_filters, begin_exchange, choose_rule, exchange_kind,
    finish_follower, finish_leader, follower_deadline_us, judge_primary, pick_race_winner,
    plan_dual, race_settled, refuse_overload, settle_dual, synth_fixed_answer, target_at,
    Admission, DualPlan, ExchangeError, FilterStep, KindStep, StepOutcome,
};
use pathdns::iprange::IpAddr;
use pathdns::querylog::{build, QueryLogConfig, QueryLogHandle};
use pathdns::reload::{
    after_attempt, collect_changed_paths, debounce_wait, next_backoff, reload_config,
    reload_ruleset, restart_fields, watched_dirs, ConfigReload, ReloadStats, ReloadWatcher,
    StartupField, WatchEvent, WatchStep,
};
use pathdns::resolver::{
    record_query_received, serve_cache_hit, try_fast_path, upstream_name_for_rule_id, FastPath,
    Peer, QueryContext, QueryInfo, RuleAttribution,
};
use pathdns::response_filter::{first_match, FilterAction};
use pathdns::router::{classify_target, final_arc, RouteTarget};
use pathdns::ruleset::{RuleSetBehavior, RuleSetFile, RuleSetFormat, RuleSetSpec};
use pathdns::server::{
    build_hot_state, build_rules, build_servers, choose_interfaces, file_name, listeners_summary,
    location_eq,
    needed_ruleset_domain_tags, needed_ruleset_ipcidr_tags, normalized_watch_path,
    resolve_fallback, unique_names, watch_parent, BuildError, FallbackError, HotState,
    HotStateError, LoadRulesetError, ServeError, ServerKind,
};
use pathdns::arena::ResponseArena;
use pathdns::dns::{a_reply, answer_ips, parse_query_fast, rcode};
use pathdns::singleflight::{register, InflightTable, Outcome, Role};
use pathdns::upstream::ClientProto;
use pathdns::verdict_cache::VerdictCache;

fn endpoint(ip: &str) -> UpstreamEndpoint {
    UpstreamEndpoint {
        proto: UpstreamProto::Udp,
        ip: ip.to_string(),
        port: 53,
        addr: format!("{ip}:53"),
        server_name: None,
        path: None,
        no_sni: false,
        ecs_mode: None,
        mark: None,
    }
}

fn fixed(rcode: u8) -> ServerSpec {
    ServerSpec::Fixed(FixedAnswerSet { answers: Vec::new(), rcode: Some(rcode), rcode_ttl: 60 })
}

fn rule_spec(server: &str, matcher: Vec<RuleMatcher>) -> RuleSpec {
    RuleSpec { server: server.to_string(), matcher, cache_policy: None, filters: Vec::new() }
}

fn tag(name: &str) -> RuleMatcher {
    RuleMatcher::Tag { includes: vec![name.to_string()], excludes: Vec::new() }
}

fn list(name: &str) -> RuleSetSpec {
    RuleSetSpec {
        tag: name.to_string(),
        format: RuleSetFormat::Text,
        behavior: RuleSetBehavior::Domain,
        path: format!("/tmp/rules/{name}.list").into_bytes(),
    }
}

fn text(s: &str) -> RuleSetFile {
    RuleSetFile::Text(s.as_bytes().to_vec())
}

fn config(
    servers: Vec<(String, ServerSpec)>,
    rules: Vec<RuleSpec>,
    target: FallbackTarget,
    ruleset_specs: Vec<RuleSetSpec>,
) -> Config {
    Config {
        bind: vec![BindEndpoint { addr: "0.0.0.0:53".to_string(), udp: true, tcp: true }],
        interface: InterfaceFilter::All,
        servers,
        rules,
        fallback: FallbackConfig { target, noip_as_primary_ip: false },
        ruleset_specs,
        cache_size: 1000,
        cache_min_ttl: 0,
        cache_max_ttl: 86_400,
        cache_persist_path: None,
        cache_persist_interval_ms: 60_000,
        worker_threads: 2,
        udp_buf_size: 0,
        uring_recv_buffers: 0,
        udp_diagnostics: UdpDiagnostics::Off,
        udp_recv_batch: 32,
        max_inflight: 100,
        inflight_queue_ms: 0,
        tcp_max_connections: 0,
        timeout_us: 2_000_000,
        hedge_delay_us: None,
        verdict_cache: None,
        ipset: None,
        dashboard: None,
    }
}

fn blocked(tags: &[&str], lists: &[&str]) -> Config {
    config(
        vec![("blocked".to_string(), fixed(3))],
        tags.iter().map(|t| rule_spec("blocked", vec![tag(t)])).collect(),
        FallbackTarget::Server("blocked".to_string()),
        lists.iter().map(|l| list(l)).collect(),
    )
}

fn state(cfg: Config, files: Vec<RuleSetFile>) -> HotState {
    build_hot_state(cfg, &files, 1).ok().unwrap()
}

#[test]
fn received_queries_are_counted_once_by_protocol() {
    let mut ql = QueryLogHandle::disabled();
    record_query_received(&mut ql, ClientProto::Udp);
    record_query_received(&mut ql, ClientProto::Tcp);
    assert_eq!(ql.counters.queries_total, 2);
    assert_eq!(ql.counters.queries_udp, 1);
    assert_eq!(ql.counters.queries_tcp, 1);
}

/// The packed `u16` stored in the cache decodes back to exactly the attribution that was encoded.
#[test]
fn rule_attribution_wire_roundtrip() {
    // 32765 is the largest server index that roundtrips.
    for idx in [0usize, 1, 7, 1000, 32765] {
        match RuleAttribution::from_wire(RuleAttribution::Rule(idx).to_wire()) {
            RuleAttribution::Rule(decoded) => assert_eq!(decoded, idx),
            _ => panic!("Rule({idx}) did not roundtrip"),
        }
    }
    for idx in [0usize, 1, 7, 1000, 32765] {
        match RuleAttribution::from_wire(RuleAttribution::Final(idx).to_wire()) {
            RuleAttribution::Final(decoded) => assert_eq!(decoded, idx),
            _ => panic!("Final({idx}) did not roundtrip"),
        }
    }
    assert!(matches!(
        RuleAttribution::from_wire(RuleAttribution::FinalUnknown.to_wire()),
        RuleAttribution::FinalUnknown
    ));
    // u16::MAX stands for "no rule", and no other value collides with it.
    assert!(matches!(
        RuleAttribution::from_wire(u16::MAX),
        RuleAttribution::NoRule
    ));
    assert_ne!(RuleAttribution::FinalUnknown.to_wire(), u16::MAX);
}

/// A ruleset file change after a configuration reload loads the tags of the new configuration.
#[test]
fn ruleset_reload_uses_tags_from_the_current_config() {
    let hot = state(
        blocked(&["a"], &["a", "b"]),
        vec![text("+.aaa.test\n"), text("+.bbb.test\n")],
    );
    assert!(hot.ruleset.as_ref().unwrap().matches("a", "x.aaa.test"));

    // The configuration switches the rule from tag a to tag b.
    let applied = reload_config(
        &hot,
        blocked(&["b"], &["a", "b"]),
        &vec![text("+.aaa.test\n"), text("+.bbb.test\n")],
    );
    let hot = match applied {
        ConfigReload::Applied(next) => next,
        _ => panic!("must apply"),
    };
    assert!(hot.ruleset.as_ref().unwrap().matches("b", "x.bbb.test"));

    // File b changes afterwards.
    let changed = vec![normalized_watch_path(b"/tmp/rules/b.list")];
    let files = vec![RuleSetFile::Unread, text("+.bbb.test\n+.newly-added.test\n")];
    let hot = match reload_ruleset(&hot, &changed, &files) {
        Ok(Some(next)) => next,
        _ => panic!("must reload"),
    };
    assert!(
        hot.ruleset.as_ref().unwrap().matches("b", "x.newly-added.test"),
        "tag introduced by a config reload must survive a ruleset reload"
    );
}

/// Ruleset files are watched even while no rule names a tag.
#[test]
fn ruleset_watcher_created_without_startup_tag_references() {
    let cfg = config(
        vec![("blocked".to_string(), fixed(3))],
        vec![rule_spec("blocked", vec![RuleMatcher::Domain("example.com".to_string())])],
        FallbackTarget::Server("blocked".to_string()),
        vec![list("a")],
    );
    let watchers = ReloadWatcher::for_state(&cfg.ruleset_specs, &Some(b"/etc/config.json".to_vec()));
    let hot = state(cfg, vec![text("+.aaa.test\n")]);
    assert!(hot.ruleset.is_none(), "no tags referenced at startup");
    assert!(
        watchers
            .iter()
            .any(|w| matches!(w, ReloadWatcher::RuleSet { .. })),
        "ruleset watcher must exist whenever ruleset files are configured"
    );
    assert_eq!(watchers.len(), 2);
    assert_eq!(watchers[1].paths(), vec![b"/etc/config.json".to_vec()]);
}

/// A bare file name is watched in the current directory.
#[test]
fn bare_relative_paths_watch_the_current_directory() {
    let dirs = watched_dirs(&vec![b"config.json".to_vec()]);
    assert_eq!(dirs.len(), 1);
    let (dir, files) = &dirs[0];
    assert_eq!(dir, b".");
    assert_eq!(files, &vec![b"config.json".to_vec()]);
}

#[test]
fn paths_group_by_parent_directory() {
    let dirs = watched_dirs(&vec![
        b"/etc/pathdns/a.list".to_vec(),
        b"/etc/pathdns/b.list".to_vec(),
        b"rel/c.list".to_vec(),
    ]);
    let of = |d: &[u8]| {
        let found: Vec<&Vec<Vec<u8>>> =
            dirs.iter().filter(|(dir, _)| dir.as_slice() == d).map(|(_, files)| files).collect();
        assert_eq!(found.len(), 1);
        found[0].clone()
    };
    assert_eq!(dirs.len(), 2);
    assert_eq!(of(b"/etc/pathdns").len(), 2);
    assert_eq!(of(b"rel"), vec![b"c.list".to_vec()]);
}

#[test]
fn paths_are_taken_apart() {
    assert_eq!(file_name(b"/a/b.json"), b"b.json".to_vec());
    assert_eq!(watch_parent(b"/a/b.json"), b"/a".to_vec());
    assert_eq!(watch_parent(b"b.json"), b".".to_vec());
    assert_eq!(normalized_watch_path(b"b.json"), b"./b.json".to_vec());
}

#[test]
fn startup_settings_need_a_restart() {
    let hot = state(blocked(&[], &[]), Vec::new());
    let mut cfg = blocked(&[], &[]);
    cfg.worker_threads = 9;
    cfg.cache_size = 5;
    assert_eq!(
        restart_fields(&hot.routing.cfg, &cfg),
        vec![StartupField::WorkerThreads, StartupField::Cache]
    );
    let mut stats = ReloadStats::new();
    match reload_config(&hot, cfg, &Vec::new()) {
        ConfigReload::RestartRequired(fields) => stats.record_restart_required(&fields),
        _ => panic!("restart expected"),
    }
    assert_eq!(stats.restart_required, 1);
    assert_eq!(
        stats.last_error().as_deref(),
        Some("config change not applied; restart required for: runtime.worker-threads,cache")
    );
    assert_eq!(hot.generation, 1);
    stats.record_failed_attempt("broken");
    assert_eq!(stats.last_error().as_deref(), Some("broken"));
    stats.record_applied(77);
    assert_eq!(stats.last_error(), None);
    assert_eq!(stats.last_applied_unix, 77);
    assert!(ReloadStats::now_unix() > 1_600_000_000);
}

#[test]
fn applied_configuration_has_a_new_generation() {
    let hot = state(blocked(&[], &[]), Vec::new());
    let mut cfg = blocked(&[], &[]);
    cfg.timeout_us = 1;
    match reload_config(&hot, cfg, &Vec::new()) {
        ConfigReload::Applied(next) => {
            assert_eq!(next.generation, 2);
            assert_eq!(next.routing.cfg.timeout_us, 1);
        }
        _ => panic!("must apply"),
    }
    // A query that began before goes on with what it began with.
    assert_eq!(hot.generation, 1);
    assert_ne!(hot.routing.cfg.timeout_us, 1);
}

#[test]
fn a_path_written_otherwise_needs_no_restart() {
    let mut old_cfg = blocked(&[], &["a"]);
    old_cfg.cache_persist_path = Some(b"/var/lib/cache.bin".to_vec());
    let mut cfg = blocked(&[], &["a"]);
    cfg.cache_persist_path = Some(b"/var//lib/./cache.bin".to_vec());
    assert!(restart_fields(&old_cfg, &cfg).is_empty());
    cfg.cache_persist_path = Some(b"var/lib/cache.bin".to_vec());
    assert_eq!(restart_fields(&old_cfg, &cfg), vec![StartupField::Cache]);
    assert!(location_eq(b"./a", b"./a/") && !location_eq(b"./a", b"a"));
}

#[test]
fn failed_reload_keeps_the_state() {
    let hot = state(blocked(&[], &[]), Vec::new());
    let mut cfg = blocked(&[], &[]);
    cfg.fallback.target = FallbackTarget::Server("nobody".to_string());
    match reload_config(&hot, cfg, &Vec::new()) {
        ConfigReload::Failed(HotStateError::Fallback(FallbackError::ServerNotFound(name))) => {
            assert_eq!(name, "nobody")
        }
        _ => panic!("must fail"),
    }
    assert_eq!(hot.generation, 1);
}

#[test]
fn watch_events_mark_files() {
    let dirs = vec![(1, b"/etc/pathdns".to_vec())];
    let targets = vec![b"/etc/pathdns/a.list".to_vec()];
    let mut changed = Vec::new();
    let other = WatchEvent { overflow: false, name: Some(b"b.list".to_vec()), watch: 1 };
    assert!(!collect_changed_paths(&vec![other], &dirs, &targets, &mut changed));
    assert!(changed.is_empty());
    let hit = WatchEvent { overflow: false, name: Some(b"a.list".to_vec()), watch: 1 };
    assert!(collect_changed_paths(&vec![hit], &dirs, &targets, &mut changed));
    assert_eq!(changed, targets);
    let mut all = Vec::new();
    let lost = WatchEvent { overflow: true, name: None, watch: -1 };
    assert!(collect_changed_paths(&vec![lost], &dirs, &targets, &mut all));
    assert_eq!(all, targets);
    assert_eq!(after_attempt(true, 5), WatchStep::Applied);
    assert_eq!(after_attempt(false, 5), WatchStep::Retry { left: 4 });
    assert_eq!(after_attempt(false, 1), WatchStep::GiveUp);
    assert_eq!(debounce_wait(100), 400);
    assert_eq!(next_backoff(4, 10), 8);
    assert_eq!(next_backoff(40, 10), 60);
    assert_eq!(next_backoff(40, 61_000), 1);
}

#[test]
fn listeners_are_described() {
    let bind = vec![BindEndpoint { addr: "0.0.0.0:53".to_string(), udp: true, tcp: true }];
    assert_eq!(listeners_summary(&bind, &InterfaceFilter::All), "udp+tcp://0.0.0.0:53");
    assert_eq!(
        listeners_summary(&bind, &InterfaceFilter::Except(vec!["lo".to_string(), "wg".to_string()])),
        "udp+tcp://0.0.0.0:53 (iface=!lo,!wg)"
    );
    let names = vec!["lo".to_string(), "eth0".to_string(), "lo".to_string()];
    assert_eq!(unique_names(&names), vec!["lo".to_string(), "eth0".to_string()]);
    assert_eq!(choose_interfaces(&bind, &InterfaceFilter::All, &names), Ok(None));
    assert_eq!(
        choose_interfaces(&bind, &InterfaceFilter::Except(vec!["lo".to_string()]), &names),
        Ok(Some(vec!["eth0".to_string()]))
    );
    assert_eq!(
        choose_interfaces(&bind, &InterfaceFilter::Except(names.clone()), &names),
        Err(ServeError::NoInterface)
    );
    let silent = vec![BindEndpoint { addr: "a".to_string(), udp: false, tcp: false }];
    assert_eq!(
        choose_interfaces(&silent, &InterfaceFilter::All, &names),
        Err(ServeError::NoProtocol)
    );
}

#[test]
fn build_errors_name_their_rule() {
    let servers = build_servers(&vec![("blocked".to_string(), fixed(3))]);
    let cache = CacheConfig { capacity: 10, min_ttl: 100, max_ttl: 200 };
    let mut spec = rule_spec("blocked", Vec::new());
    spec.filters.push(RuleFilterSpec {
        answer_ip: AnswerIpMatcher { includes: Vec::new(), excludes: Vec::new() },
        response_type: Vec::new(),
        response_rcode: Vec::new(),
        response_qclass: Vec::new(),
        action: RuleFilterActionSpec::Forward("nobody".to_string()),
    });
    assert!(matches!(
        build_rules(&vec![rule_spec("blocked", Vec::new()), spec], &servers, &cache),
        Err(BuildError::NoForwardTarget { rule: 1, filter: 0 })
    ));
    let mut crossed = rule_spec("blocked", Vec::new());
    crossed.cache_policy = Some(RuleCachePolicy { skip: false, min_ttl: Some(900), max_ttl: Some(800) });
    assert!(matches!(
        build_rules(&vec![crossed], &servers, &cache),
        Err(BuildError::TtlBoundsCross { rule: 0 })
    ));
    assert!(matches!(
        resolve_fallback(&FallbackTarget::LastRule, &[], &servers),
        Err(FallbackError::NoRules)
    ));
    assert!(matches!(
        build_hot_state(blocked(&["a"], &[]), &Vec::new(), 0),
        Err(HotStateError::Ruleset(LoadRulesetError::NoEntries))
    ));
}

#[test]
fn needed_tags_are_collected() {
    let rules = vec![rule_spec("s", vec![tag("a")]), rule_spec("s", vec![tag("b"), tag("a")])];
    let mut tags = needed_ruleset_domain_tags(&rules);
    tags.sort();
    assert_eq!(tags, vec!["a".to_string(), "b".to_string()]);
    let dual = FallbackTarget::Dual {
        primary: "p".to_string(),
        secondary: "s".to_string(),
        answer_ip: AnswerIpMatcher { includes: vec!["cn".to_string()], excludes: Vec::new() },
    };
    assert_eq!(needed_ruleset_ipcidr_tags(&rules, &dual), vec!["cn".to_string()]);
}

/// A query for "a.test" of type A.
fn query() -> Vec<u8> {
    vec![
        0x12, 0x34, 0x01, 0x00, 0, 1, 0, 0, 0, 0, 0, 0, 1, b'a', 4, b't', b'e', b's', b't', 0, 0, 1,
        0, 1,
    ]
}

const PEER: Peer = Peer { ip: IpAddr::V4(0x7f00_0001), port: 4000 };

fn context() -> QueryContext {
    QueryContext {
        packet: query(),
        info: QueryInfo {
            id: 0x1234,
            qtype: 1,
            question_end: 24,
            has_ecs: false,
            regular_key: 55,
            stripped_key: None,
        },
        qname: Some("a.test".to_string()),
        peer: PEER,
        proto: ClientProto::Udp,
    }
}

fn log() -> QueryLogHandle {
    let (handle, _, _, _, _) = build(QueryLogConfig {
        enabled: true,
        memory: 10,
        channel: 64,
        answer_ips: true,
        file: None,
    });
    handle
}

#[test]
fn first_look_at_a_query() {
    let mut ql = log();
    assert!(matches!(try_fast_path(&query()[..5], ClientProto::Udp, &mut ql), FastPath::Drop));
    let mut reply = query();
    reply[2] |= 0x80;
    assert!(matches!(try_fast_path(&reply, ClientProto::Udp, &mut ql), FastPath::Drop));
    let mut notify = query();
    notify[2] |= 4 << 3;
    match try_fast_path(&notify, ClientProto::Udp, &mut ql) {
        FastPath::Reply(m) => assert_eq!(rcode(&m), 4),
        _ => panic!("reply expected"),
    }
    match try_fast_path(&query(), ClientProto::Tcp, &mut ql) {
        FastPath::Lookup(info) => {
            assert_eq!(info.qtype, 1);
            assert_eq!(info.question_end, 24);
        }
        _ => panic!("lookup expected"),
    }
    assert_eq!(ql.counters.queries_tcp, 1);
}

#[test]
fn cache_hits_are_served_and_logged() {
    let hot = state(blocked(&[], &[]), Vec::new());
    let mut ql = log();
    let mut arena = ResponseArena::new(8192);
    let reply = a_reply(&query(), 24, 0x0101_0101, 30).unwrap();
    arena.write(&reply);
    let info = parse_query_fast(&query()).unwrap();
    let id = RuleAttribution::Final(0).to_wire();
    let served = serve_cache_hit(
        &mut ql,
        &hot.routing,
        info,
        PEER,
        Some("a.test".to_string()),
        id,
        &mut arena,
        12,
        1_000_000,
    );
    assert_eq!(&served[..], reply.as_slice());
    assert_eq!(ql.counters.cache_hits, 1);
    let events = ql.take_events(10);
    assert_eq!(events.len(), 1);
    assert_eq!(events[0].source, "cache");
    assert_eq!(events[0].answer_ips, vec![IpAddr::V4(0x0101_0101)]);
    assert_eq!(events[0].rule, upstream_name_for_rule_id(id, &hot.routing));
}

#[test]
fn overload_is_answered_with_servfail() {
    let mut ql = log();
    assert_eq!(admission_for(true, 50, &mut ql), Admission::Go);
    assert_eq!(admission_for(false, 50, &mut ql), Admission::Wait(50));
    assert_eq!(admission_for(false, 0, &mut ql), Admission::Overload);
    let refused = refuse_overload(&context(), &mut ql, 5);
    assert_eq!(rcode(&refused), 2);
    assert_eq!(ql.counters.inflight_queued, 1);
}

#[test]
fn rules_choose_the_target() {
    let cfg = config(
        vec![("blocked".to_string(), fixed(3)), ("up".to_string(), ServerSpec::Upstream(vec![endpoint("1.1.1.1")]))],
        vec![rule_spec("blocked", vec![RuleMatcher::Domain("a.test".to_string())])],
        FallbackTarget::Server("up".to_string()),
        Vec::new(),
    );
    let mut hot = state(cfg, Vec::new());
    let mut ctx = context();
    assert_eq!(choose_rule(&mut hot, &mut ctx, true), Some(0));
    match target_at(&hot.routing, Some(0), 1) {
        RouteTarget::Rule(rule, i) => {
            assert_eq!(i, 0);
            match exchange_kind(&ctx, &rule.kind) {
                KindStep::Local(m) => assert_eq!(rcode(&m), 3),
                KindStep::Ask(_) => panic!("local answer expected"),
            }
        }
        _ => panic!("rule expected"),
    }
    match classify_target(&hot.routing, 1) {
        RouteTarget::Server(server, i) => {
            assert_eq!(server.name, "up");
            assert_eq!(i, 1);
            assert!(matches!(exchange_kind(&ctx, &server.kind), KindStep::Ask(_)));
        }
        _ => panic!("server expected"),
    }
    assert_eq!(target_at(&hot.routing, None, 1).upstream_name(), "up");
    assert_eq!(target_at(&hot.routing, None, 1).upstream_name_arc(), "final->up");
    assert_eq!(final_arc(), "final");
    assert_eq!(hot.route("other.test"), None);
}

#[test]
fn fixed_answers_fit_the_type() {
    let set = FixedAnswerSet {
        answers: vec![FixedAnswer::A(0x0a00_0001, 20)],
        rcode: None,
        rcode_ttl: 0,
    };
    let m = synth_fixed_answer(&query(), 24, 1, &set).unwrap();
    assert_eq!(answer_ips(&m, 24), vec![IpAddr::V4(0x0a00_0001)]);
    let none = synth_fixed_answer(&query(), 24, 28, &set).unwrap();
    assert_eq!(answer_ips(&none, 24), Vec::new());
    assert_eq!(rcode(&none), 0);
}

#[test]
fn leader_and_followers_share_the_answer() {
    let cfg = config(
        vec![("up".to_string(), ServerSpec::Upstream(vec![endpoint("1.1.1.1")]))],
        Vec::new(),
        FallbackTarget::Server("up".to_string()),
        Vec::new(),
    );
    let hot = state(cfg, Vec::new());
    let ctx = context();
    let target = classify_target(&hot.routing, 1);
    let mut table = InflightTable::new();
    let (plan, role) = begin_exchange(&mut table, ctx.info, &target, 1, 0);
    assert_eq!(role, Role::Leader);
    assert_eq!(plan.key, 55);
    assert_eq!(begin_exchange(&mut table, ctx.info, &target, 1, 9).1, Role::Follower);
    // Another generation does not share.
    assert_eq!(begin_exchange(&mut table, ctx.info, &target, 2, 3).1, Role::Leader);

    let resp = a_reply(&query(), 24, 0x0808_0808, 60).unwrap();
    let (step, _) = apply_filters(&ctx, &target, None, resp.clone(), Some(0), false);
    let outcome = match step {
        FilterStep::Done(o) => o,
        FilterStep::Forward(_) => panic!("no filter forwards"),
    };
    let mut ql = log();
    let end = finish_leader(
        &ctx,
        &mut table,
        &mut ql,
        &hot.routing,
        &target,
        plan,
        Ok(outcome),
        true,
        &hot.routing.cfg.cache_config(),
        1,
        1,
        500,
        1_000,
    );
    assert_eq!(end.reply.as_deref(), Some(resp.as_slice()));
    assert!(end.store.is_some());
    assert_eq!(end.deliveries.len(), 1);
    assert_eq!(end.deliveries[0].0, 9);
    let mut other = context();
    other.info.id = 0x9999;
    other.packet[0] = 0x99;
    other.packet[1] = 0x99;
    let followed = finish_follower(
        &other,
        &mut ql,
        &target,
        Outcome::Reply(resp.clone()),
        600,
        1_000,
    )
    .unwrap();
    assert_eq!(&followed[..2], &[0x99, 0x99]);
    assert_eq!(&followed[2..], &resp[2..]);
    assert_eq!(ql.counters.singleflight_hits, 1);
    let failed = finish_follower(&other, &mut ql, &target, Outcome::Abandoned, 600, 1_000).unwrap();
    assert_eq!(rcode(&failed), 2);
    assert!(finish_follower(&other, &mut ql, &target, Outcome::NoReply, 600, 1_000).is_none());
    assert_eq!(follower_deadline_us(1_000_000, None), 3_000_000);
}

#[test]
fn failed_exchange_is_answered_with_servfail_and_not_kept() {
    let cfg = config(
        vec![("up".to_string(), ServerSpec::Upstream(vec![endpoint("1.1.1.1")]))],
        Vec::new(),
        FallbackTarget::Server("up".to_string()),
        Vec::new(),
    );
    let hot = state(cfg, Vec::new());
    let ctx = context();
    let target = classify_target(&hot.routing, 1);
    let mut table = InflightTable::new();
    let (plan, _) = begin_exchange(&mut table, ctx.info, &target, 1, 0);
    let mut ql = log();
    let end = finish_leader(
        &ctx,
        &mut table,
        &mut ql,
        &hot.routing,
        &target,
        plan,
        Err(ExchangeError::Failed),
        true,
        &hot.routing.cfg.cache_config(),
        1,
        1,
        500,
        1_000,
    );
    assert_eq!(rcode(&end.reply.unwrap()), 2);
    assert!(end.store.is_none());
    assert_eq!(ql.counters.upstream_err, 1);
    assert_eq!(register(&mut table, plan.flight, 1), Role::Leader);
}

fn filtered(action: RuleFilterActionSpec) -> Config {
    let mut spec = rule_spec("up", Vec::new());
    spec.filters.push(RuleFilterSpec {
        answer_ip: AnswerIpMatcher { includes: Vec::new(), excludes: Vec::new() },
        response_type: vec![1],
        response_rcode: Vec::new(),
        response_qclass: Vec::new(),
        action,
    });
    config(
        vec![("up".to_string(), ServerSpec::Upstream(vec![endpoint("1.1.1.1")]))],
        vec![spec],
        FallbackTarget::LastRule,
        Vec::new(),
    )
}

#[test]
fn filters_act_on_responses() {
    let resp = a_reply(&query(), 24, 0x0808_0808, 60).unwrap();
    let hot = state(filtered(RuleFilterActionSpec::Drop), Vec::new());
    let target = target_at(&hot.routing, Some(0), 1);
    let (step, _) = apply_filters(&context(), &target, None, resp.clone(), Some(0), false);
    assert!(matches!(step, FilterStep::Done(StepOutcome::Drop)));
    let found = first_match(&hot.routing.rules[0].filters, None, &resp, 24).unwrap();
    assert_eq!(found.0, 0);
    assert_eq!(found.1.action, FilterAction::Drop);

    let hot = state(filtered(RuleFilterActionSpec::Forward("up".to_string())), Vec::new());
    let target = target_at(&hot.routing, Some(0), 1);
    let (step, _) = apply_filters(&context(), &target, None, resp.clone(), Some(0), false);
    assert!(matches!(step, FilterStep::Forward(0)));
    assert!(matches!(
        after_forward(Ok(resp.clone()), 0),
        Ok(StepOutcome::Response(_, _, _, _))
    ));
    assert!(after_forward(Err(ExchangeError::InflightCap), 0).is_err());

    let hot = state(filtered(RuleFilterActionSpec::Accept), Vec::new());
    let target = target_at(&hot.routing, Some(0), 1);
    let (step, add) = apply_filters(&context(), &target, None, resp.clone(), Some(0), true);
    assert!(matches!(step, FilterStep::Done(StepOutcome::Response(_, _, _, _))));
    let add = add.unwrap();
    assert_eq!((add.rule, add.filter), (0, 0));
    assert_eq!(add.ips, vec![IpAddr::V4(0x0808_0808)]);

    // The addresses of a saved answer are added again at the next start.
    let entry = CachedEntry {
        rule_id: RuleAttribution::Rule(0).to_wire(),
        packet: resp,
        question_end: 24,
    };
    let restored = restore_filter_ips(&vec![entry], &hot.routing, None);
    assert_eq!(restored.len(), 1);
    assert_eq!(restored[0].ips, vec![IpAddr::V4(0x0808_0808)]);
}

#[test]
fn races_prefer_a_clean_answer() {
    let good = a_reply(&query(), 24, 1, 60).unwrap();
    let mut bad = good.clone();
    bad[3] = bad[3] & 0xf0 | 2;
    assert!(race_settled(&Ok(good.clone())));
    assert!(!race_settled(&Err(ExchangeError::Failed)));
    let (won, by) = pick_race_winner(Err(ExchangeError::Failed), 0, Ok(good.clone()), 1).unwrap();
    assert_eq!((won, by), (good.clone(), 1));
    let (won, by) = pick_race_winner(Ok(bad.clone()), 0, Ok(good.clone()), 1).unwrap();
    assert_eq!((won, by), (good.clone(), 1));
    assert!(pick_race_winner(Err(ExchangeError::Failed), 0, Err(ExchangeError::Failed), 1).is_err());
    let (won, by) = settle_dual(Ok(good.clone()), 0, Ok(bad.clone()), 1).unwrap();
    assert!((won == good && by == 0) || (won == bad && by == 1));
}

#[test]
fn primary_addresses_decide_and_the_verdict_is_kept() {
    let mut cfg = config(
        vec![
            ("p".to_string(), ServerSpec::Upstream(vec![endpoint("1.1.1.1")])),
            ("s".to_string(), ServerSpec::Upstream(vec![endpoint("8.8.8.8")])),
        ],
        Vec::new(),
        FallbackTarget::Dual {
            primary: "p".to_string(),
            secondary: "s".to_string(),
            answer_ip: AnswerIpMatcher { includes: vec!["cn".to_string()], excludes: Vec::new() },
        },
        vec![RuleSetSpec {
            tag: "cn".to_string(),
            format: RuleSetFormat::Text,
            behavior: RuleSetBehavior::IpCidr,
            path: b"/r/cn".to_vec(),
        }],
    );
    cfg.verdict_cache = Some(VerdictCacheConfig { capacity: 100, ttl_secs: 60 });
    let hot = state(cfg, vec![text("10.0.0.0/8\n")]);
    let mut verdicts = VerdictCache::new(Some(&VerdictCacheConfig { capacity: 100, ttl_secs: 60 }));
    assert_eq!(plan_dual(&hot, &verdicts, "a.test", 1_000), DualPlan::Both);
    let home = a_reply(&query(), 24, 0x0a00_0001, 60).unwrap();
    assert!(judge_primary(&hot, &mut verdicts, "a.test", &home, 24, 1, 1_000));
    assert_eq!(plan_dual(&hot, &verdicts, "a.test", 1_001), DualPlan::Primary);
    let abroad = a_reply(&query(), 24, 0x0b00_0001, 60).unwrap();
    assert!(!judge_primary(&hot, &mut verdicts, "b.test", &abroad, 24, 1, 1_000));
    assert_eq!(plan_dual(&hot, &verdicts, "b.test", 1_001), DualPlan::Secondary);
    assert_eq!(plan_dual(&hot, &verdicts, "b.test", 5_000), DualPlan::Both);
}

#[test]
fn application_state_starts_from_a_configuration() {
    let mut cfg = blocked(&["a"], &["a"]);
    cfg.verdict_cache = Some(VerdictCacheConfig { capacity: 100, ttl_secs: 0 });
    let mut saved = VerdictCache::new(Some(&VerdictCacheConfig { capacity: 100, ttl_secs: 0 }));
    saved.add_at("a.test", true, 1_000);
    let (bytes, _) = saved.save_at(7, 1_000).unwrap();
    let app = AppState::new(
        cfg,
        Some(b"/etc/config.json".to_vec()),
        QueryLogHandle::disabled(),
        &vec![text("+.a.test\n")],
        Some(bytes),
        7,
        1_000,
    )
    .ok()
    .unwrap();
    assert_eq!(app.max_inflight, 100);
    assert_eq!(app.tcp_conn_limit, None);
    assert_eq!(app.verdict_cache.get_at("a.test", 2_000), Some(true));
    assert_eq!(app.hot_generation(), app.hot.generation);
    assert!(app.hot.ruleset.is_some());
}

#[test]
fn subnet_treatment_marks_servers() {
    let mut strip = endpoint("1.1.1.1");
    strip.ecs_mode = Some(EcsMode::Strip);
    let servers = build_servers(&vec![
        ("s".to_string(), ServerSpec::Upstream(vec![strip])),
        ("f".to_string(), fixed(3)),
    ]);
    assert!(servers[0].strip_ecs);
    assert!(matches!(servers[0].kind, ServerKind::Upstream(0)));
    assert!(matches!(servers[1].kind, ServerKind::Fixed(_)));
}
