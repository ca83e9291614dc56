use pathdns::config::{FixedAnswerSet, ResolvedCachePolicy, RuleMatcher};
use pathdns::geosite::GeoSiteDb;
use pathdns::domain::DomainMatcher;
use pathdns::route_index::RouteIndex;
use pathdns::route_table::{CustomGroup, RouteIndex as GroupIndex};
use pathdns::ruleset::{RuleSetBehavior, RuleSetDb, RuleSetError, RuleSetFile, RuleSetFormat, RuleSetSpec};
use pathdns::server::{normalized_watch_path, Rule, ServerKind};
use pathdns::tag_memo::{TagMemo, TagMemoChunk};

fn rule(idx: usize, matcher: Vec<RuleMatcher>) -> Rule {
    Rule {
        index: idx,
        server: "s".to_string(),
        kind: ServerKind::Fixed(FixedAnswerSet::default()),
        cache_policy: ResolvedCachePolicy::default(),
        filters: Vec::new(),
        matcher,
        strip_ecs: false,
    }
}

fn domain(pattern: &str) -> RuleMatcher {
    RuleMatcher::Domain(pattern.to_string())
}

#[test]
fn catch_all_matches_everything() {
    let rules = vec![rule(0, Vec::new())];
    let mut idx = RouteIndex::build(&rules, 0);
    let r = idx.route(&rules, "anything.example", None).unwrap();
    assert_eq!(r.index, 0);
}

#[test]
fn domain_pattern_matches_without_ruleset() {
    let rules = vec![
        rule(0, vec![domain("example.com")]),
        rule(1, Vec::new()), // catch-all
    ];
    let mut idx = RouteIndex::build(&rules, 0);
    assert_eq!(
        idx.route(&rules, "example.com", None).unwrap().index,
        0,
        "exact match"
    );
    assert_eq!(
        idx.route(&rules, "other.example", None).unwrap().index,
        1,
        "falls through to catch-all"
    );
}

#[test]
fn earlier_rule_wins_regardless_of_pattern_specificity() {
    // Rule 0 has a wildcard (less specific); rule 1 has an exact match for
    // the same name. Declaration order must win, not pattern specificity.
    let rules = vec![
        rule(0, vec![domain("*.example.com")]),
        rule(1, vec![domain("a.example.com")]),
    ];
    let mut idx = RouteIndex::build(&rules, 0);
    assert_eq!(idx.route(&rules, "a.example.com", None).unwrap().index, 0);
}

#[test]
fn catch_all_before_a_later_rule_wins() {
    let rules = vec![
        rule(0, Vec::new()), // catch-all, declared first
        rule(1, vec![domain("example.com")]),
    ];
    let mut idx = RouteIndex::build(&rules, 0);
    assert_eq!(idx.route(&rules, "example.com", None).unwrap().index, 0);
}

#[test]
fn multiple_matcher_entries_are_ored() {
    let rules = vec![rule(0, vec![domain("a.example"), domain("b.example")])];
    let mut idx = RouteIndex::build(&rules, 0);
    assert!(idx.route(&rules, "a.example", None).is_some());
    assert!(idx.route(&rules, "b.example", None).is_some());
    assert!(idx.route(&rules, "c.example", None).is_none());
}

/// Pure-forwarding shapes resolve as a constant, without the route cache.
#[test]
fn constant_route_shapes_resolve_without_cache() {
    // Single catch-all rule (pure forwarder).
    let rules = vec![rule(0, Vec::new())];
    let mut idx = RouteIndex::build(&rules, 0);
    assert!(idx.constant_target().is_some());
    assert_eq!(idx.route(&rules, "a.example", None).unwrap().index, 0);

    // Catch-all first + a later (unreachable) conditional rule.
    let rules = vec![rule(0, Vec::new()), rule(1, vec![domain("x.example")])];
    let mut idx = RouteIndex::build(&rules, 0);
    assert!(idx.constant_target().is_some());
    assert_eq!(
        idx.route(&rules, "x.example", None).unwrap().index,
        0,
        "catch-all at index 0 shadows the later rule"
    );

    // No rules at all (route.final only): constant no-match.
    let rules: Vec<Rule> = Vec::new();
    let mut idx = RouteIndex::build(&rules, 0);
    assert!(idx.constant_target().is_some());
    assert!(idx.route(&rules, "x.example", None).is_none());

    // A conditional rule before the catch-all: NOT constant.
    let rules = vec![rule(0, vec![domain("x.example")]), rule(1, Vec::new())];
    let mut idx = RouteIndex::build(&rules, 0);
    assert!(idx.constant_target().is_none());
    assert_eq!(idx.route(&rules, "x.example", None).unwrap().index, 0);
    assert_eq!(idx.route(&rules, "y.example", None).unwrap().index, 1);
}

fn tag(includes: &[&str], excludes: &[&str]) -> RuleMatcher {
    RuleMatcher::Tag {
        includes: includes.iter().map(|s| s.to_string()).collect(),
        excludes: excludes.iter().map(|s| s.to_string()).collect(),
    }
}

#[test]
fn tag_only_rule_never_matches_without_ruleset() {
    let rules = vec![rule(0, vec![tag(&["cn"], &[])])];
    let mut idx = RouteIndex::build(&rules, 0);
    assert!(idx.route(&rules, "example.com", None).is_none());
}

fn spec(tag: &str, behavior: RuleSetBehavior, path: &str) -> RuleSetSpec {
    RuleSetSpec {
        tag: tag.to_string(),
        format: RuleSetFormat::Text,
        behavior,
        path: path.as_bytes().to_vec(),
    }
}

fn text(s: &str) -> RuleSetFile {
    RuleSetFile::Text(s.as_bytes().to_vec())
}

fn names(list: &[&str]) -> Vec<String> {
    list.iter().map(|s| s.to_string()).collect()
}

#[test]
fn excluded_tags_take_names_out_and_routes_are_remembered() {
    let specs = vec![
        spec("all", RuleSetBehavior::Domain, "/r/all.list"),
        spec("cn", RuleSetBehavior::Domain, "/r/cn.list"),
    ];
    let files = vec![text("+.test\n"), text("+.cn.test\n")];
    let db = RuleSetDb::load(&specs, &names(&["all", "cn"]), &Vec::new(), None, &files).ok().unwrap();
    let rules = vec![rule(0, vec![tag(&["all"], &["cn"])]), rule(1, Vec::new())];
    let mut idx = RouteIndex::build(&rules, 100);
    for _ in 0..3 {
        assert_eq!(idx.route(&rules, "a.test", Some(&db)).unwrap().index, 0);
        assert_eq!(idx.route(&rules, "a.cn.test", Some(&db)).unwrap().index, 1);
        assert_eq!(idx.route(&rules, "a.other", Some(&db)).unwrap().index, 1);
    }
}

fn check_packing() {
    let empty = TagMemo::new(0);
    assert!(empty.chunks.is_empty());

    let inline = TagMemo::new(64);
    assert_eq!(inline.chunks.len(), 1);
    assert!(!inline.chunks.spilled());

    let two_chunks = TagMemo::new(65);
    assert_eq!(two_chunks.chunks.len(), 2);
}

fn check_independent_bits() {
    let mut memo = TagMemo::new(64);
    let false_bit = 1u64 << 7;
    let true_bit = 1u64 << 42;

    let chunk = memo.chunks.get(0).unwrap();
    memo.chunks.set(
        0,
        TagMemoChunk {
            seen: chunk.seen | false_bit | true_bit,
            matched: chunk.matched | true_bit,
        },
    );

    assert_ne!(memo.chunks.get(0).unwrap().seen & false_bit, 0);
    assert_eq!(memo.chunks.get(0).unwrap().matched & false_bit, 0);
    assert_ne!(memo.chunks.get(0).unwrap().matched & true_bit, 0);
    assert_eq!(memo.get(7), Some(false));
    assert_eq!(memo.get(42), Some(true));
    assert_eq!(memo.get(8), None);
}

#[test]
fn route_table_tag_memo_packs_sixty_four_tags_per_chunk() {
    check_packing();
}

#[test]
fn route_table_tag_memo_chunk_tracks_seen_and_matched_independently() {
    check_independent_bits();
}

#[test]
fn route_index_tag_memo_packs_sixty_four_tags_per_chunk() {
    check_packing();
}

#[test]
fn route_index_tag_memo_chunk_tracks_seen_and_matched_independently() {
    check_independent_bits();
}

#[test]
fn memo_keeps_results_of_tags_in_many_chunks() {
    let mut memo = TagMemo::new(400);
    assert!(memo.chunks.spilled());
    assert_eq!(memo.chunks.len(), 7);
    memo.put(399, true);
    memo.put(0, false);
    assert_eq!(memo.get(399), Some(true));
    assert_eq!(memo.get(0), Some(false));
    assert_eq!(memo.get(398), None);
}

/// Files that did not change keep their tags without being read again.
#[test]
fn reuse_skips_unchanged_file_entirely() {
    let specs = vec![
        spec("cn", RuleSetBehavior::Domain, "/tmp/rules/cn.list"),
        spec("gfw", RuleSetBehavior::Domain, "/tmp/rules/gfw.list"),
    ];
    let tags = names(&["cn", "gfw"]);
    let files = vec![text("+.bilibili.com\n"), text("+.blocked.com\n")];
    let first = RuleSetDb::load(&specs, &tags, &Vec::new(), None, &files).ok().unwrap();
    assert!(first.matches("cn", "a.bilibili.com"));
    assert!(first.matches("gfw", "a.blocked.com"));

    // gfw.list changes and cn.list is gone.
    let files = vec![
        RuleSetFile::Unread,
        text("+.blocked.com\n+.newly-blocked.test\n"),
    ];
    let changed = vec![normalized_watch_path(b"/tmp/rules/gfw.list")];
    let second = RuleSetDb::load(&specs, &tags, &Vec::new(), Some((&first, &changed)), &files)
        .ok()
        .expect("reused cn tag must not trigger a re-read of the now-missing file");

    assert!(second.matches("gfw", "a.blocked.com"));
    assert!(second.matches("gfw", "newly-blocked.test"));
    assert!(second.matches("cn", "a.bilibili.com"));
}

/// Without reuse every referenced tag is read fresh.
#[test]
fn no_reuse_reads_every_file_fresh() {
    let specs = vec![spec("cn", RuleSetBehavior::Domain, "/tmp/rules/cn.list")];
    let tags = names(&["cn"]);

    let first = RuleSetDb::load(&specs, &tags, &Vec::new(), None, &vec![text("+.bilibili.com\n")])
        .ok()
        .unwrap();
    assert!(first.matches("cn", "a.bilibili.com"));
    assert!(!first.matches("cn", "a.other.test"));

    let second = RuleSetDb::load(&specs, &tags, &Vec::new(), None, &vec![text("+.other.test\n")])
        .ok()
        .unwrap();
    assert!(second.matches("cn", "a.other.test"));
    assert!(!second.matches("cn", "a.bilibili.com"));
}

#[test]
fn ruleset_errors_name_their_place() {
    let dom = vec![spec("d", RuleSetBehavior::Domain, "/r/d")];
    let ips = vec![spec("i", RuleSetBehavior::IpCidr, "/r/i")];
    let none: Vec<String> = Vec::new();
    let load = |specs: &Vec<RuleSetSpec>, d: &Vec<String>, i: &Vec<String>, f: RuleSetFile| {
        RuleSetDb::load(specs, d, i, None, &vec![f])
    };
    assert!(matches!(
        load(&dom, &names(&["d"]), &none, RuleSetFile::Unread),
        Err(RuleSetError::Unreadable(0))
    ));
    assert!(matches!(
        load(&dom, &names(&["d"]), &none, RuleSetFile::Text(vec![0xff, 0xfe])),
        Err(RuleSetError::NotText(0))
    ));
    assert!(matches!(
        load(&ips, &none, &names(&["i"]), text("10.0.0.0/8\n# x\nnonsense\n")),
        Err(RuleSetError::InvalidCidr(0, 3))
    ));
    assert!(matches!(
        load(&dom, &names(&["x"]), &none, text("a\n")),
        Err(RuleSetError::TagNotFound(_))
    ));
    assert!(matches!(
        load(&ips, &names(&["i"]), &none, text("10.0.0.0/8\n")),
        Err(RuleSetError::NotADomainTag(_))
    ));
    assert!(matches!(
        load(&dom, &none, &names(&["d"]), text("a\n")),
        Err(RuleSetError::NotAnAddressTag(_))
    ));
}

fn group(name: &str, with: &[&str], without: &[&str]) -> CustomGroup {
    CustomGroup {
        name: name.to_string(),
        geosite_include: names(with),
        geosite_exclude: names(without),
    }
}

#[test]
fn first_group_with_the_site_is_taken() {
    let mut cn: DomainMatcher<()> = DomainMatcher::new();
    cn.insert_suffix("cn.test".to_string(), ());
    let mut all: DomainMatcher<()> = DomainMatcher::new();
    all.insert_suffix("test".to_string(), ());
    let mut db = GeoSiteDb::new();
    db.insert("cn", cn);
    db.insert("all", all);

    let groups = vec![
        group("abroad", &["all"], &["cn"]),
        group("home", &["cn"], &[]),
        group("rest", &[], &[]),
    ];
    let mut idx = GroupIndex::build(&groups);
    for _ in 0..2 {
        assert_eq!(idx.route(&groups, "a.test", Some(&db)).unwrap().name, "abroad");
        assert_eq!(idx.route(&groups, "a.cn.test", Some(&db)).unwrap().name, "home");
        assert_eq!(idx.route(&groups, "a.org", Some(&db)).unwrap().name, "rest");
    }
    idx.invalidate();
    assert_eq!(idx.route(&groups, "a.org", Some(&db)).unwrap().name, "rest");
    assert_eq!(idx.route(&groups, "a.cn.test", Some(&db)).unwrap().name, "home");
}

#[test]
fn calls_without_a_database_leave_the_cache_alone() {
    let specs = vec![RuleSetSpec {
        tag: "cn".to_string(),
        format: RuleSetFormat::Text,
        behavior: RuleSetBehavior::Domain,
        path: b"/r/cn".to_vec(),
    }];
    let files = vec![RuleSetFile::Text(b"+.example\n".to_vec())];
    let db = RuleSetDb::load(&specs, &vec!["cn".to_string()], &Vec::new(), None, &files)
        .ok()
        .unwrap();
    let tagged = RuleMatcher::Tag { includes: vec!["cn".to_string()], excludes: Vec::new() };
    let rules = vec![rule(0, vec![tagged]), rule(1, Vec::new())];
    let mut idx = RouteIndex::build(&rules, 0);
    assert_eq!(idx.route(&rules, "a.example", None).unwrap().index, 1);
    assert_eq!(idx.route(&rules, "a.example", Some(&db)).unwrap().index, 0);
    assert_eq!(idx.route(&rules, "a.example", None).unwrap().index, 1);
    assert_eq!(idx.route(&rules, "a.example", Some(&db)).unwrap().index, 0);
}
