use pathdns::domain::{add_pattern, classify_pattern, normalize_domain, DomainMatcher, PatternKind};
use pathdns::geosite::{split_tag_attr, GeoSiteDb};

fn suffix_set(suffixes: &[&str]) -> DomainMatcher<()> {
    let mut m = DomainMatcher::default();
    for &s in suffixes {
        m.insert_suffix(s.to_string(), ());
    }
    m
}

#[test]
fn suffix_matches_name_and_subdomains() {
    let m = suffix_set(&["example.com"]);
    assert!(m.lookup_specific("example.com").is_some());
    assert!(m.lookup_specific("www.example.com").is_some());
    assert!(m.lookup_specific("a.b.example.com").is_some());
    assert!(m.lookup_specific("notexample.com").is_none());
    assert!(m.lookup_specific("com").is_none());
}

#[test]
fn single_label_suffix_matches_only_trailing_label() {
    let m = suffix_set(&["local"]);
    assert!(m.lookup_specific("local").is_some());
    assert!(m.lookup_specific("test.local").is_some());
    assert!(m.lookup_specific("foo.bar.local").is_some());
    assert!(m.lookup_specific("local.a.b").is_none());
    assert!(m.lookup_specific("net").is_none());
}

#[test]
fn no_false_positives_across_tlds() {
    let m = suffix_set(&["google.com"]);
    assert!(m.lookup_specific("google.net").is_none());
    assert!(m.lookup_specific("notgoogle.com").is_none());
    assert!(m.lookup_specific("com").is_none());
}

#[test]
fn empty_matcher() {
    let m: DomainMatcher<()> = DomainMatcher::default();
    assert!(m.is_empty());
    assert!(m.lookup_specific("example.com").is_none());
    assert!(m.lookup_fuzzy("example.com").is_none());
}

#[test]
fn lookup_priority_full_then_suffix_then_fuzzy() {
    let mut m: DomainMatcher<u8> = DomainMatcher::default();
    m.insert_suffix("example.com".into(), 1);
    m.insert_full("api.example.com".into(), 2);
    m.insert_keyword("ads".into(), 3);
    // specific tier (full + suffix) is consulted before the fuzzy tier
    let combined = |m: &DomainMatcher<u8>, q: &str| -> Option<u8> {
        m.lookup_specific(q).or_else(|| m.lookup_fuzzy(q)).copied()
    };
    // full wins over suffix for the exact name
    assert_eq!(combined(&m, "api.example.com"), Some(2));
    // suffix covers other subdomains
    assert_eq!(combined(&m, "www.example.com"), Some(1));
    // specific tier (suffix) beats fuzzy (keyword) when both could match
    m.insert_suffix("ads.net".into(), 9);
    assert_eq!(combined(&m, "x.ads.net"), Some(9));
    // keyword only when nothing specific matches
    assert_eq!(combined(&m, "my-ads-host.org"), Some(3));
}

#[test]
fn normalize_domain_basic() {
    assert_eq!(normalize_domain("Example.COM."), Some("example.com".into()));
    assert_eq!(normalize_domain(""), None);
    assert_eq!(normalize_domain("."), None);
    assert_eq!(normalize_domain("a..b"), None);
    assert_eq!(normalize_domain("a"), Some("a".into()));
}

#[test]
fn normal_form_is_its_own_normal_form() {
    let once = normalize_domain("WWW.Example.Org.").unwrap();
    assert_eq!(once, "www.example.org");
    assert_eq!(normalize_domain(&once), Some(once.clone()));
}

#[test]
fn patterns_are_told_apart() {
    match classify_pattern("+.Example.com") {
        PatternKind::Suffix(s) => assert_eq!(s, "example.com"),
        _ => panic!("suffix expected"),
    }
    match classify_pattern("*.example.com") {
        PatternKind::Wildcard(s) => assert_eq!(s, "example.com"),
        _ => panic!("wildcard expected"),
    }
    match classify_pattern("example.com") {
        PatternKind::Full(s) => assert_eq!(s, "example.com"),
        _ => panic!("full name expected"),
    }
    assert!(matches!(classify_pattern("+."), PatternKind::Invalid));
    assert!(matches!(classify_pattern("a..b"), PatternKind::Invalid));
}

#[test]
fn wildcard_covers_one_label_only() {
    let mut m: DomainMatcher<()> = DomainMatcher::new();
    assert!(add_pattern(&mut m, "*.example.com"));
    assert!(!add_pattern(&mut m, ""));
    assert!(m.is_hit("a.example.com"));
    assert!(!m.is_hit("example.com"));
    assert!(!m.is_hit("a.b.example.com"));
}

#[test]
fn a_zone_respects_label_boundaries() {
    let m = suffix_set(&["example.com"]);
    assert!(m.is_hit("x.example.com"));
    assert!(!m.is_hit("xexample.com"));
    assert_eq!(m.len(), 1);
}

#[test]
fn split_tag_attr_no_at() {
    assert_eq!(split_tag_attr("cn"), ("cn", None));
}

#[test]
fn split_tag_attr_with_attr() {
    assert_eq!(split_tag_attr("steam@cn"), ("steam", Some("cn")));
}

#[test]
fn split_tag_attr_empty_attr_treated_as_no_filter() {
    // "steam@" — an empty attribute is no attribute
    assert_eq!(split_tag_attr("steam@"), ("steam@", None));
}

#[test]
fn site_tags_are_looked_up_by_name() {
    let mut db = GeoSiteDb::new();
    db.insert("cn", suffix_set(&["example.cn"]));
    assert!(db.matches("cn", "www.example.cn"));
    assert!(!db.matches("cn", "www.example.com"));
    assert!(!db.matches("us", "www.example.cn"));
}
