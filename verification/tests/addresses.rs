use pathdns::config::AnswerIpMatcher;
use pathdns::iprange::{parse_cidr, parse_ip, parse_v4, parse_v6, IpAddr, IpRangeSet, RangeList};
use pathdns::ruleset::{RuleSetBehavior, RuleSetDb, RuleSetFile, RuleSetFormat, RuleSetSpec};

#[test]
fn addresses_are_parsed() {
    assert_eq!(parse_v4(b"127.0.0.1"), Some(0x7f00_0001));
    assert_eq!(parse_v4(b"256.0.0.1"), None);
    assert_eq!(parse_v4(b"1.2.3"), None);
    assert_eq!(parse_v6(b"::1"), Some(1));
    assert_eq!(parse_v6(b"2001:db8::ff"), Some(0x2001_0db8_0000_0000_0000_0000_0000_00ff));
    assert_eq!(parse_v6(b"::ffff:1.2.3.4"), Some(0xffff_0102_0304));
    assert_eq!(parse_v6(b"1::2::3"), None);
    assert_eq!(parse_ip(b"10.0.0.1"), Some(IpAddr::V4(0x0a00_0001)));
    assert_eq!(parse_ip(b"fe80::1"), Some(IpAddr::V6(0xfe80 << 112 | 1)));
    assert_eq!(parse_ip(b"example"), None);
}

#[test]
fn blocks_are_ranges() {
    assert_eq!(
        parse_cidr(b"10.1.2.3/8"),
        Some((IpAddr::V4(0x0a00_0000), IpAddr::V4(0x0aff_ffff)))
    );
    assert_eq!(
        parse_cidr(b"10.1.2.3"),
        Some((IpAddr::V4(0x0a01_0203), IpAddr::V4(0x0a01_0203)))
    );
    assert_eq!(parse_cidr(b"10.1.2.3/33"), None);
    assert_eq!(
        parse_cidr(b"::/0"),
        Some((IpAddr::V6(0), IpAddr::V6(u128::MAX)))
    );
}

#[test]
fn ranges_join() {
    let list = RangeList::new().with(10, 20).with(30, 40);
    assert_eq!(list.len(), 2);
    assert!(!list.contains(25));
    let list = list.with(15, 35);
    assert_eq!(list.len(), 1);
    assert!(list.contains(10) && list.contains(25) && list.contains(40));
    assert!(!list.contains(9) && !list.contains(41));
}

#[test]
fn families_are_kept_apart() {
    let mut set = IpRangeSet::new();
    set.push_range(IpAddr::V4(0), IpAddr::V4(u32::MAX));
    assert!(set.contains(IpAddr::V4(7)));
    assert!(!set.contains(IpAddr::V6(7)));
    assert_eq!(set.len(), 1);
}

#[test]
fn negated_tags_match_the_rest() {
    let specs = vec![RuleSetSpec {
        tag: "cn".to_string(),
        format: RuleSetFormat::Text,
        behavior: RuleSetBehavior::IpCidr,
        path: b"/r/cn".to_vec(),
    }];
    let files = vec![RuleSetFile::Text(b"10.0.0.0/8\n".to_vec())];
    let tags = vec!["cn".to_string()];
    let db = RuleSetDb::load(&specs, &Vec::new(), &tags, None, &files).ok().unwrap();
    let inside = IpAddr::V4(0x0a00_0001);
    let outside = IpAddr::V4(0x0b00_0001);
    assert!(db.matches_ip("cn", inside));
    assert!(!db.matches_ip("cn", outside));
    assert!(db.matches_any_ip("cn", &[outside, inside]));
    let m = AnswerIpMatcher { includes: vec!["cn".to_string()], excludes: Vec::new() };
    assert!(db.matches_answer_ip(&m, &[inside]));
    assert!(!db.matches_answer_ip(&m, &[outside]));
    let other = AnswerIpMatcher { includes: Vec::new(), excludes: vec!["cn".to_string()] };
    assert!(!db.matches_answer_ip(&other, &[inside]));
    assert!(db.matches_answer_ip(&other, &[outside]));
    assert_eq!(db.tag_counts(), vec![(b"cn".to_vec(), 1)]);
}

#[test]
fn tags_count_what_is_kept_of_their_files() {
    let spec = |tag: &str, behavior: RuleSetBehavior| RuleSetSpec {
        tag: tag.to_string(),
        format: RuleSetFormat::Text,
        behavior,
        path: format!("/r/{tag}").into_bytes(),
    };
    let specs = vec![
        spec("names", RuleSetBehavior::Domain),
        spec("nets", RuleSetBehavior::IpCidr),
    ];
    let files = vec![
        RuleSetFile::Text(
            b"a.test\nA.test.\n+.a.test\n*.w.test\n*.w.test\n\n# c\n*bad*\n".to_vec(),
        ),
        RuleSetFile::Text(b"10.0.0.0/9\n10.128.0.0/9\n10.1.0.0/16\r\n::1/128\n::3/128\n".to_vec()),
    ];
    let db = RuleSetDb::load(
        &specs,
        &vec!["names".to_string()],
        &vec!["nets".to_string()],
        None,
        &files,
    )
    .ok()
    .unwrap();
    let mut counts = db.tag_counts();
    counts.sort();
    // One name, one zone and two wildcards; one joined range and two single addresses.
    assert_eq!(counts, vec![(b"names".to_vec(), 4), (b"nets".to_vec(), 3)]);
}
