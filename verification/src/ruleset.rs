//! Ruleset database: domain and address sets that rules refer to by tag.
//!
//! A ruleset entry binds a tag to a file with a declared format and behavior. Only the files of
//! tags that some rule refers to are read. A text file holds one pattern per line; blank lines and
//! lines that begin with `#` or `//` are skipped.
//!
//! Domain patterns are those of [`crate::domain`]. A malformed domain pattern is skipped, a
//! malformed address block fails the whole file.

use crate::config::{has_text, texts, AnswerIpMatcher};
use crate::domain::{
    add_pattern, meets, pattern_meaning, with_pattern, DomainMatcher, PatternMeaning,
};
use crate::iprange::{cidr_value, in_range, parse_cidr, range_count, IpAddr, IpRangeSet};
use crate::lines::{line_views, lines_of, split_lines, trim_chars, trimmed};
use crate::server::{normalized_watch_path, watch_text};
use crate::table::NameTable;
use crate::text::{byte_views, bytes_eq, chars_of, string_from_chars, text_from_bytes};
use std::sync::Arc;
use crate::outside::share;
use vstd::prelude::*;
use vstd::string::StringSliceAdditionalSpecFns;
use vstd::utf8::{decode_utf8, encode_utf8, valid_utf8};

verus! {

/// File format of a ruleset entry.
#[derive(Clone, Copy, Debug, PartialEq, Eq, Structural)]
pub enum RuleSetFormat {
    Text,
    Mrs,
}

/// What a ruleset entry is matched against.
#[derive(Clone, Copy, Debug, PartialEq, Eq, Structural)]
pub enum RuleSetBehavior {
    Domain,
    IpCidr,
}

/// One ruleset entry: a tag bound to a file.
pub struct RuleSetSpec {
    pub tag: String,
    pub format: RuleSetFormat,
    pub behavior: RuleSetBehavior,
    pub path: Vec<u8>,
}

/// What was read of a ruleset file.
pub enum RuleSetFile {
    /// Not read, or not readable.
    Unread,
    /// The bytes of a text file.
    Text(Vec<u8>),
    /// The patterns of a decoded binary domain set.
    Domains(Vec<String>),
    /// The ranges of a decoded binary address set.
    Ranges(Vec<(IpAddr, IpAddr)>),
}

/// Why a ruleset database could not be loaded. Entries are named by their position.
pub enum RuleSetError {
    /// The file of an entry was not read, or holds another kind of data than the entry declares.
    Unreadable(usize),
    /// The text file of an entry is not UTF-8.
    NotText(usize),
    /// A line of an entry's text file is no address block; lines are counted from one.
    InvalidCidr(usize, usize),
    /// No entry has this tag.
    TagNotFound(String),
    /// An address tag was used where a domain tag is wanted.
    NotADomainTag(String),
    /// A domain tag was used where an address tag is wanted.
    NotAnAddressTag(String),
}

// Text files.

/// A trimmed line that holds a pattern.
pub open spec fn is_pattern_line(line: Seq<char>) -> bool {
    &&& line.len() > 0
    &&& line[0] != '#'
    &&& !(line.len() >= 2 && line[0] == '/' && line[1] == '/')
}

/// The pattern lines among `lines`, trimmed.
pub open spec fn pattern_lines(lines: Seq<Seq<char>>) -> Seq<Seq<char>>
    decreases lines.len(),
{
    if lines.len() == 0 {
        Seq::empty()
    } else if is_pattern_line(trimmed(lines.last())) {
        pattern_lines(lines.drop_last()).push(trimmed(lines.last()))
    } else {
        pattern_lines(lines.drop_last())
    }
}

fn keeps_line(line: &Vec<char>) -> (r: bool)
    ensures
        r == is_pattern_line(line@),
{
    line.len() > 0 && line[0] != '#' && !(line.len() >= 2 && line[0] == '/' && line[1] == '/')
}

/// The pattern lines of a text file: trimmed, without blank lines and comments.
pub fn parse_text_lines(text: &str) -> (r: Vec<String>)
    ensures
        texts(r@) == pattern_lines(lines_of(text@)),
{
    let lines = split_lines(&chars_of(text));
    let ghost all = line_views(lines@);
    let mut out: Vec<String> = Vec::new();
    let mut i: usize = 0;
    proof {
        assert(texts(out@) =~= pattern_lines(all.take(0)));
    }
    while i < lines.len()
        invariant
            all == line_views(lines@),
            i <= lines@.len(),
            texts(out@) == pattern_lines(all.take(i as int)),
        decreases lines@.len() - i,
    {
        proof {
            assert(all.take(i + 1).drop_last() =~= all.take(i as int));
            assert(all.take(i + 1).last() == lines@[i as int]@);
        }
        let line = trim_chars(&lines[i]);
        if keeps_line(&line) {
            let ghost before = out@;
            out.push(string_from_chars(&line));
            proof {
                assert(texts(out@) =~= texts(before).push(line@));
            }
        }
        i += 1;
    }
    proof {
        assert(all.take(all.len() as int) =~= all);
    }
    out
}

/// Adds one domain pattern; `false` when it is malformed and was skipped.
pub fn apply_domain_pattern(matchers: &mut DomainMatcher<()>, pattern: &str) -> (r: bool)
    ensures
        r == !(pattern_meaning(pattern.spec_bytes()) is Malformed),
        with_pattern(*old(matchers), *final(matchers), pattern_meaning(pattern.spec_bytes())),
        forall|name: Seq<u8>| #[trigger]
            final(matchers).hits(name) <==> old(matchers).hits(name) || meets(
                pattern_meaning(pattern.spec_bytes()),
                name,
            ),
{
    add_pattern(matchers, pattern)
}

// Entries.

/// The compiled form of one ruleset file.
pub enum TagEntry {
    Domain(DomainMatcher<()>),
    IpCidr(IpRangeSet),
}

/// The behavior that an entry serves.
pub open spec fn entry_kind(entry: TagEntry) -> RuleSetBehavior {
    match entry {
        TagEntry::Domain(_) => RuleSetBehavior::Domain,
        TagEntry::IpCidr(_) => RuleSetBehavior::IpCidr,
    }
}

/// One of the patterns means `name`.
pub open spec fn some_pattern_meets(patterns: Seq<Seq<char>>, name: Seq<u8>) -> bool {
    exists|i: int|
        0 <= i < patterns.len() && meets(
            pattern_meaning(encode_utf8(#[trigger] patterns[i])),
            name,
        )
}

/// One of the ranges holds `ip`.
pub open spec fn some_range_holds(ranges: Seq<(IpAddr, IpAddr)>, ip: IpAddr) -> bool {
    exists|i: int|
        0 <= i < ranges.len() && in_range((#[trigger] ranges[i]).0, ranges[i].1, ip)
}

/// Position, counted from one, of the first line that should be an address block and is none.
pub open spec fn first_bad_line(lines: Seq<Seq<char>>) -> Option<nat>
    decreases lines.len(),
{
    if lines.len() == 0 {
        None
    } else {
        match first_bad_line(lines.drop_last()) {
            Some(n) => Some(n),
            None => {
                let line = trimmed(lines.last());
                if is_pattern_line(line) && cidr_value(encode_utf8(line)) is None {
                    Some(lines.len())
                } else {
                    None
                }
            },
        }
    }
}

/// A line is an address block that holds `ip`.
pub open spec fn line_holds(line: Seq<char>, ip: IpAddr) -> bool {
    &&& is_pattern_line(trimmed(line))
    &&& match cidr_value(encode_utf8(trimmed(line))) {
        Some((from, to)) => in_range(from, to, ip),
        None => false,
    }
}

/// One of the lines is an address block that holds `ip`.
pub open spec fn some_line_holds(lines: Seq<Seq<char>>, ip: IpAddr) -> bool {
    exists|i: int| 0 <= i < lines.len() && line_holds(#[trigger] lines[i], ip)
}

/// Why a file cannot become the entry it is declared to be; `None` when it can.
pub open spec fn file_fault(
    format: RuleSetFormat,
    behavior: RuleSetBehavior,
    file: RuleSetFile,
) -> Option<FileFault> {
    match (format, behavior, file) {
        (RuleSetFormat::Text, RuleSetBehavior::Domain, RuleSetFile::Text(b)) => if valid_utf8(b@) {
            None
        } else {
            Some(FileFault::NotText)
        },
        (RuleSetFormat::Text, RuleSetBehavior::IpCidr, RuleSetFile::Text(b)) => if valid_utf8(b@) {
            match first_bad_line(lines_of(decode_utf8(b@))) {
                Some(n) => Some(FileFault::BadLine(n)),
                None => None,
            }
        } else {
            Some(FileFault::NotText)
        },
        (RuleSetFormat::Mrs, RuleSetBehavior::Domain, RuleSetFile::Domains(_)) => None,
        (RuleSetFormat::Mrs, RuleSetBehavior::IpCidr, RuleSetFile::Ranges(_)) => None,
        _ => Some(FileFault::Unreadable),
    }
}

pub ghost enum FileFault {
    Unreadable,
    NotText,
    BadLine(nat),
}

/// One of the patterns has the meaning.
pub open spec fn some_pattern_means(patterns: Seq<Seq<char>>, meaning: PatternMeaning) -> bool {
    exists|i: int|
        0 <= i < patterns.len() && pattern_meaning(encode_utf8(#[trigger] patterns[i])) == meaning
}

/// How many patterns a matcher of these keeps: names and zones once each, one-label wildcards as
/// often as they occur, malformed ones not at all.
pub open spec fn pattern_count(patterns: Seq<Seq<char>>) -> nat
    decreases patterns.len(),
{
    if patterns.len() == 0 {
        0
    } else {
        let front = patterns.drop_last();
        let meaning = pattern_meaning(encode_utf8(patterns.last()));
        pattern_count(front) + (match meaning {
            PatternMeaning::Malformed => 0nat,
            PatternMeaning::OneBelow(_) => 1,
            _ => if some_pattern_means(front, meaning) {
                0
            } else {
                1
            },
        })
    }
}

/// `entry` is of the declared kind and holds what a faultless file says.
pub open spec fn entry_of_file(
    behavior: RuleSetBehavior,
    file: RuleSetFile,
    entry: TagEntry,
) -> bool {
    &&& entry_kind(entry) == behavior
    &&& match (entry, file) {
        (TagEntry::Domain(m), RuleSetFile::Text(b)) => {
            let patterns = pattern_lines(lines_of(decode_utf8(b@)));
            &&& m.count() == pattern_count(patterns)
            &&& forall|name: Seq<u8>| #[trigger]
                m.hits(name) <==> some_pattern_meets(patterns, name)
        },
        (TagEntry::Domain(m), RuleSetFile::Domains(p)) => {
            &&& m.count() == pattern_count(texts(p@))
            &&& forall|name: Seq<u8>| #[trigger]
                m.hits(name) <==> some_pattern_meets(texts(p@), name)
        },
        (TagEntry::IpCidr(s), RuleSetFile::Text(b)) => {
            let lines = lines_of(decode_utf8(b@));
            &&& s.count() == range_count(|ip: IpAddr| some_line_holds(lines, ip))
            &&& forall|ip: IpAddr| #[trigger] s.holds(ip) <==> some_line_holds(lines, ip)
        },
        (TagEntry::IpCidr(s), RuleSetFile::Ranges(r)) => {
            &&& s.count() == range_count(|ip: IpAddr| some_range_holds(r@, ip))
            &&& forall|ip: IpAddr| #[trigger] s.holds(ip) <==> some_range_holds(r@, ip)
        },
        _ => false,
    }
}

proof fn lemma_one_more_pattern(
    patterns: Seq<Seq<char>>,
    pattern: Seq<char>,
    meaning: PatternMeaning,
)
    ensures
        some_pattern_means(patterns.push(pattern), meaning) <==> some_pattern_means(
            patterns,
            meaning,
        ) || pattern_meaning(encode_utf8(pattern)) == meaning,
{
    let more = patterns.push(pattern);
    if some_pattern_means(patterns, meaning) {
        let k = choose|k: int|
            0 <= k < patterns.len() && pattern_meaning(encode_utf8(#[trigger] patterns[k]))
                == meaning;
        assert(more[k] == patterns[k]);
    }
    if pattern_meaning(encode_utf8(pattern)) == meaning {
        assert(more[patterns.len() as int] == pattern);
    }
    if some_pattern_means(more, meaning) {
        let k = choose|k: int|
            0 <= k < more.len() && pattern_meaning(encode_utf8(#[trigger] more[k])) == meaning;
        if k < patterns.len() {
            assert(patterns[k] == more[k]);
        }
    }
}

/// The matcher holds the names and zones of the patterns, and as many patterns as are counted.
spec fn holds_patterns(m: DomainMatcher<()>, patterns: Seq<Seq<char>>) -> bool {
    &&& m.count() == pattern_count(patterns)
    &&& forall|n: Seq<u8>| #[trigger]
        m.full().contains_key(n) <==> some_pattern_means(patterns, PatternMeaning::Name(n))
    &&& forall|z: Seq<u8>| #[trigger]
        m.zones().contains_key(z) <==> some_pattern_means(patterns, PatternMeaning::Zone(z))
}

proof fn lemma_holds_more(
    before: DomainMatcher<()>,
    after: DomainMatcher<()>,
    patterns: Seq<Seq<char>>,
    pattern: Seq<char>,
)
    requires
        holds_patterns(before, patterns),
        with_pattern(before, after, pattern_meaning(encode_utf8(pattern))),
    ensures
        holds_patterns(after, patterns.push(pattern)),
{
    let more = patterns.push(pattern);
    assert(more.drop_last() =~= patterns);
    assert forall|n: Seq<u8>| #[trigger]
        after.full().contains_key(n) <==> some_pattern_means(more, PatternMeaning::Name(n)) by {
        lemma_one_more_pattern(patterns, pattern, PatternMeaning::Name(n));
        assert(before.full().contains_key(n) <==> some_pattern_means(
            patterns,
            PatternMeaning::Name(n),
        ));
    }
    assert forall|z: Seq<u8>| #[trigger]
        after.zones().contains_key(z) <==> some_pattern_means(more, PatternMeaning::Zone(z)) by {
        lemma_one_more_pattern(patterns, pattern, PatternMeaning::Zone(z));
        assert(before.zones().contains_key(z) <==> some_pattern_means(
            patterns,
            PatternMeaning::Zone(z),
        ));
    }
}

fn matcher_of(patterns: &Vec<String>) -> (r: DomainMatcher<()>)
    ensures
        r.count() == pattern_count(texts(patterns@)),
        forall|name: Seq<u8>| #[trigger]
            r.hits(name) <==> some_pattern_meets(texts(patterns@), name),
{
    let mut m: DomainMatcher<()> = DomainMatcher::new();
    let mut i: usize = 0;
    let ghost all = texts(patterns@);
    proof {
        assert forall|name: Seq<u8>| #[trigger]
            m.hits(name) <==> some_pattern_meets(all.take(0), name) by {
            crate::domain::law_hits_by_pattern(m, name);
        }
        assert(holds_patterns(m, all.take(0)));
    }
    while i < patterns.len()
        invariant
            all == texts(patterns@),
            i <= patterns@.len(),
            forall|name: Seq<u8>| #[trigger]
                m.hits(name) <==> some_pattern_meets(all.take(i as int), name),
            holds_patterns(m, all.take(i as int)),
        decreases patterns@.len() - i,
    {
        let ghost before = m;
        let _kept = apply_domain_pattern(&mut m, patterns[i].as_str());
        proof {
            let p = patterns@[i as int]@;
            assert(all[i as int] == p);
            assert(all.take(i + 1) =~= all.take(i as int).push(p));
            lemma_holds_more(before, m, all.take(i as int), p);
            assert forall|name: Seq<u8>| #[trigger]
                m.hits(name) <==> some_pattern_meets(all.take(i + 1), name) by {
                let fewer = all.take(i as int);
                let more = all.take(i + 1);
                assert(more[i as int] == p);
                assert(before.hits(name) <==> some_pattern_meets(fewer, name));
                if some_pattern_meets(fewer, name) {
                    let k = choose|k: int|
                        0 <= k < fewer.len() && meets(
                            pattern_meaning(encode_utf8(#[trigger] fewer[k])),
                            name,
                        );
                    assert(more[k] == fewer[k]);
                }
                if some_pattern_meets(more, name) {
                    let k = choose|k: int|
                        0 <= k < more.len() && meets(
                            pattern_meaning(encode_utf8(#[trigger] more[k])),
                            name,
                        );
                    if k < i {
                        assert(more[k] == fewer[k]);
                    }
                }
            }
        }
        i += 1;
    }
    proof {
        assert(all.take(all.len() as int) =~= all);
    }
    m
}

fn set_of_ranges(ranges: &Vec<(IpAddr, IpAddr)>) -> (r: IpRangeSet)
    ensures
        r.count() == range_count(|ip: IpAddr| some_range_holds(ranges@, ip)),
        forall|ip: IpAddr| #[trigger] r.holds(ip) <==> some_range_holds(ranges@, ip),
{
    let mut s = IpRangeSet::new();
    let mut i: usize = 0;
    while i < ranges.len()
        invariant
            i <= ranges@.len(),
            forall|ip: IpAddr| #[trigger]
                s.holds(ip) <==> some_range_holds(ranges@.take(i as int), ip),
        decreases ranges@.len() - i,
    {
        let (from, to) = ranges[i];
        let ghost before = s;
        s.push_range(from, to);
        proof {
            let fewer = ranges@.take(i as int);
            let more = ranges@.take(i + 1);
            assert forall|ip: IpAddr| #[trigger] s.holds(ip) <==> some_range_holds(more, ip) by {
                assert(more[i as int] == (from, to));
                assert(before.holds(ip) <==> some_range_holds(fewer, ip));
                if some_range_holds(fewer, ip) {
                    let k = choose|k: int|
                        0 <= k < fewer.len() && in_range((#[trigger] fewer[k]).0, fewer[k].1, ip);
                    assert(more[k] == fewer[k]);
                }
                if some_range_holds(more, ip) {
                    let k = choose|k: int|
                        0 <= k < more.len() && in_range((#[trigger] more[k]).0, more[k].1, ip);
                    if k < i {
                        assert(more[k] == fewer[k]);
                    }
                }
            }
        }
        i += 1;
    }
    proof {
        assert(ranges@.take(ranges@.len() as int) =~= ranges@);
        assert((|ip: IpAddr| s.holds(ip)) =~= (|ip: IpAddr| some_range_holds(ranges@, ip)));
    }
    s
}

proof fn lemma_bad_line_stays(lines: Seq<Seq<char>>, n: int)
    requires
        0 <= n <= lines.len(),
        first_bad_line(lines.take(n)) is Some,
    ensures
        first_bad_line(lines) == first_bad_line(lines.take(n)),
    decreases lines.len() - n,
{
    if n < lines.len() {
        assert(lines.take(n + 1).drop_last() =~= lines.take(n));
        lemma_bad_line_stays(lines, n + 1);
    } else {
        assert(lines.take(n) =~= lines);
    }
}

proof fn lemma_one_more_line(lines: Seq<Seq<char>>, line: Seq<char>, ip: IpAddr)
    ensures
        some_line_holds(lines.push(line), ip) <==> some_line_holds(lines, ip) || line_holds(
            line,
            ip,
        ),
{
    let more = lines.push(line);
    if some_line_holds(lines, ip) {
        let k = choose|k: int| 0 <= k < lines.len() && line_holds(#[trigger] lines[k], ip);
        assert(more[k] == lines[k]);
    }
    if line_holds(line, ip) {
        assert(more[lines.len() as int] == line);
    }
    if some_line_holds(more, ip) {
        let k = choose|k: int| 0 <= k < more.len() && line_holds(#[trigger] more[k], ip);
        if k < lines.len() {
            assert(lines[k] == more[k]);
        }
    }
}

/// The set that the address blocks of a text file make; `Err` with the number of the first bad
/// line.
pub fn build_ipcidr_set(text: &str) -> (r: Result<IpRangeSet, usize>)
    ensures
        match r {
            Ok(s) => {
                &&& first_bad_line(lines_of(text@)) is None
                &&& s.count() == range_count(|ip: IpAddr| some_line_holds(lines_of(text@), ip))
                &&& forall|ip: IpAddr| #[trigger]
                    s.holds(ip) <==> some_line_holds(lines_of(text@), ip)
            },
            Err(n) => first_bad_line(lines_of(text@)) == Some(n as nat),
        },
{
    let lines = split_lines(&chars_of(text));
    let ghost all = line_views(lines@);
    let mut s = IpRangeSet::new();
    let mut i: usize = 0;
    while i < lines.len()
        invariant
            all == line_views(lines@),
            all == lines_of(text@),
            i <= lines@.len(),
            first_bad_line(all.take(i as int)) is None,
            forall|ip: IpAddr| #[trigger]
                s.holds(ip) <==> some_line_holds(all.take(i as int), ip),
        decreases lines@.len() - i,
    {
        let ghost before = s;
        let ghost fewer = all.take(i as int);
        let ghost more = all.take(i + 1);
        proof {
            assert(more.drop_last() =~= fewer);
            assert(more.last() == lines@[i as int]@);
        }
        let line = trim_chars(&lines[i]);
        if keeps_line(&line) {
            let line_text = string_from_chars(&line);
            match parse_cidr(line_text.as_str().as_bytes()) {
                Some((from, to)) => {
                    s.push_range(from, to);
                },
                None => {
                    proof {
                        lemma_bad_line_stays(all, i + 1);
                    }
                    return Err(i + 1);
                },
            }
        }
        proof {
            assert(more =~= fewer.push(lines@[i as int]@));
            assert forall|ip: IpAddr| #[trigger] s.holds(ip) <==> some_line_holds(more, ip) by {
                lemma_one_more_line(fewer, lines@[i as int]@, ip);
                assert(before.holds(ip) <==> some_line_holds(fewer, ip));
            }
        }
        i += 1;
    }
    proof {
        assert(all.take(all.len() as int) =~= all);
        assert((|ip: IpAddr| s.holds(ip)) =~= (|ip: IpAddr| some_line_holds(lines_of(text@), ip)));
    }
    Ok(s)
}

// Database.

/// Compiled entries of the tags that were asked for.
pub struct RuleSetDb {
    tags: NameTable<Arc<TagEntry>>,
}

/// What a load is asked for: the tags wanted for names, those wanted for addresses, and, when an
/// earlier database may be reused, that database and the files that changed since.
pub ghost struct LoadRequest {
    pub domain_tags: Seq<Seq<char>>,
    pub ipcidr_tags: Seq<Seq<char>>,
    pub reuse: Option<(RuleSetDb, Seq<Seq<u8>>)>,
}

impl LoadRequest {
    /// The entry's tag is asked for.
    pub open spec fn wants(self, spec: RuleSetSpec) -> bool {
        self.domain_tags.contains(spec.tag@) || self.ipcidr_tags.contains(spec.tag@)
    }

    /// The entry is taken over from the earlier database: its file did not change and its tag was
    /// loaded before.
    pub open spec fn reuses(self, spec: RuleSetSpec) -> bool {
        match self.reuse {
            Some((prev, changed)) => !changed.contains(watch_text(spec.path@))
                && prev@.contains_key(encode_utf8(spec.tag@)),
            None => false,
        }
    }

    /// What keeps an entry from being loaded.
    pub open spec fn fault(self, spec: RuleSetSpec, file: RuleSetFile) -> Option<FileFault> {
        if self.wants(spec) && !self.reuses(spec) {
            file_fault(spec.format, spec.behavior, file)
        } else {
            None
        }
    }

    /// The kind of entry that a wanted spec leads to.
    pub open spec fn kind(self, spec: RuleSetSpec) -> RuleSetBehavior {
        if self.reuses(spec) {
            entry_kind(*(self.reuse->0).0@[encode_utf8(spec.tag@)])
        } else {
            spec.behavior
        }
    }

    /// `entry` is what a wanted spec leads to.
    pub open spec fn yields(self, spec: RuleSetSpec, file: RuleSetFile, entry: TagEntry) -> bool {
        if self.reuses(spec) {
            entry == *(self.reuse->0).0@[encode_utf8(spec.tag@)]
        } else {
            entry_of_file(spec.behavior, file, entry)
        }
    }

    /// The last of the first `n` specs that is wanted and has the tag `k`.
    pub open spec fn source(self, specs: Seq<RuleSetSpec>, n: int, k: Seq<u8>) -> Option<int>
        decreases n,
    {
        if n <= 0 {
            None
        } else if self.wants(specs[n - 1]) && encode_utf8(specs[n - 1].tag@) == k {
            Some(n - 1)
        } else {
            self.source(specs, n - 1, k)
        }
    }

    /// The kind of entry loaded under a tag.
    pub open spec fn loaded_kind(self, specs: Seq<RuleSetSpec>, tag: Seq<char>) -> Option<
        RuleSetBehavior,
    > {
        match self.source(specs, specs.len() as int, encode_utf8(tag)) {
            Some(i) => Some(self.kind(specs[i])),
            None => None,
        }
    }

    /// No wanted file is at fault before position `n`.
    pub open spec fn faultless(
        self,
        specs: Seq<RuleSetSpec>,
        files: Seq<RuleSetFile>,
        n: int,
    ) -> bool {
        forall|i: int| 0 <= i < n ==> self.fault(#[trigger] specs[i], files[i]) is None
    }

    /// `db` holds what the first `n` specs lead to, and nothing else.
    pub open spec fn holds(
        self,
        specs: Seq<RuleSetSpec>,
        files: Seq<RuleSetFile>,
        n: int,
        db: Map<Seq<u8>, Arc<TagEntry>>,
    ) -> bool {
        forall|k: Seq<u8>|
            (#[trigger] db.contains_key(k) <==> self.source(specs, n, k) is Some) && (
            db.contains_key(k) ==> self.yields(
                specs[self.source(specs, n, k)->0],
                files[self.source(specs, n, k)->0],
                *db[k],
            ))
    }

    pub open spec fn all_of_kind(
        self,
        specs: Seq<RuleSetSpec>,
        tags: Seq<Seq<char>>,
        kind: RuleSetBehavior,
    ) -> bool {
        forall|i: int|
            0 <= i < tags.len() ==> self.loaded_kind(specs, #[trigger] tags[i]) == Some(kind)
    }
}

impl View for RuleSetDb {
    type V = Map<Seq<u8>, Arc<TagEntry>>;

    closed spec fn view(&self) -> Map<Seq<u8>, Arc<TagEntry>> {
        self.tags@
    }
}

/// A path is in a list of paths.
fn has_path(paths: &Vec<Vec<u8>>, path: &Vec<u8>) -> (r: bool)
    ensures
        r == byte_views(paths@).contains(path@),
{
    let mut i: usize = 0;
    while i < paths.len()
        invariant
            i <= paths@.len(),
            forall|j: int| 0 <= j < i ==> byte_views(paths@)[j] != path@,
        decreases paths@.len() - i,
    {
        proof {
            assert(byte_views(paths@)[i as int] == paths@[i as int]@);
        }
        if bytes_eq(paths[i].as_slice(), path.as_slice()) {
            return true;
        }
        i += 1;
    }
    false
}

fn entry_from_file(spec: &RuleSetSpec, file: &RuleSetFile, at: usize) -> (r: Result<
    TagEntry,
    RuleSetError,
>)
    ensures
        match r {
            Ok(e) => file_fault(spec.format, spec.behavior, *file) is None && entry_of_file(
                spec.behavior,
                *file,
                e,
            ),
            Err(e) => fault_error(file_fault(spec.format, spec.behavior, *file), at as int, e),
        },
{
    match (spec.format, spec.behavior, file) {
        (RuleSetFormat::Text, RuleSetBehavior::Domain, RuleSetFile::Text(bytes)) => {
            match text_from_bytes(vstd::slice::slice_to_vec(bytes.as_slice())) {
                Some(text) => {
                    let patterns = parse_text_lines(text.as_str());
                    Ok(TagEntry::Domain(matcher_of(&patterns)))
                },
                None => Err(RuleSetError::NotText(at)),
            }
        },
        (RuleSetFormat::Text, RuleSetBehavior::IpCidr, RuleSetFile::Text(bytes)) => {
            match text_from_bytes(vstd::slice::slice_to_vec(bytes.as_slice())) {
                Some(text) => match build_ipcidr_set(text.as_str()) {
                    Ok(set) => Ok(TagEntry::IpCidr(set)),
                    Err(line) => Err(RuleSetError::InvalidCidr(at, line)),
                },
                None => Err(RuleSetError::NotText(at)),
            }
        },
        (RuleSetFormat::Mrs, RuleSetBehavior::Domain, RuleSetFile::Domains(patterns)) => Ok(
            TagEntry::Domain(matcher_of(patterns)),
        ),
        (RuleSetFormat::Mrs, RuleSetBehavior::IpCidr, RuleSetFile::Ranges(ranges)) => Ok(
            TagEntry::IpCidr(set_of_ranges(ranges)),
        ),
        _ => Err(RuleSetError::Unreadable(at)),
    }
}

/// `error` reports the fault of the file at position `at`.
pub open spec fn fault_error(fault: Option<FileFault>, at: int, error: RuleSetError) -> bool {
    match (fault, error) {
        (Some(FileFault::Unreadable), RuleSetError::Unreadable(i)) => i == at,
        (Some(FileFault::NotText), RuleSetError::NotText(i)) => i == at,
        (Some(FileFault::BadLine(n)), RuleSetError::InvalidCidr(i, line)) => i == at && line == n,
        _ => false,
    }
}

/// The position that an error about a file names.
pub open spec fn error_position(error: RuleSetError) -> Option<int> {
    match error {
        RuleSetError::Unreadable(i) => Some(i as int),
        RuleSetError::NotText(i) => Some(i as int),
        RuleSetError::InvalidCidr(i, _) => Some(i as int),
        _ => None,
    }
}

/// The request that the arguments of a load make.
pub open spec fn load_request(
    domain_tags: Seq<String>,
    ipcidr_tags: Seq<String>,
    reuse: Option<(&RuleSetDb, &Vec<Vec<u8>>)>,
) -> LoadRequest {
    LoadRequest {
        domain_tags: texts(domain_tags),
        ipcidr_tags: texts(ipcidr_tags),
        reuse: match reuse {
            Some((prev, changed)) => Some((*prev, byte_views(changed@))),
            None => None,
        },
    }
}

/// The outcome of a load.
pub open spec fn load_outcome(
    request: LoadRequest,
    specs: Seq<RuleSetSpec>,
    files: Seq<RuleSetFile>,
    outcome: Result<RuleSetDb, RuleSetError>,
) -> bool {
    let n = specs.len() as int;
    match outcome {
        Ok(db) => {
            &&& request.faultless(specs, files, n)
            &&& request.all_of_kind(specs, request.domain_tags, RuleSetBehavior::Domain)
            &&& request.all_of_kind(specs, request.ipcidr_tags, RuleSetBehavior::IpCidr)
            &&& request.holds(specs, files, n, db@)
        },
        Err(RuleSetError::TagNotFound(tag)) => {
            &&& request.faultless(specs, files, n)
            &&& request.loaded_kind(specs, tag@) is None
            &&& request.domain_tags.contains(tag@) || (request.ipcidr_tags.contains(tag@)
                && request.all_of_kind(specs, request.domain_tags, RuleSetBehavior::Domain))
        },
        Err(RuleSetError::NotADomainTag(tag)) => {
            &&& request.faultless(specs, files, n)
            &&& request.loaded_kind(specs, tag@) == Some(RuleSetBehavior::IpCidr)
            &&& request.domain_tags.contains(tag@)
        },
        Err(RuleSetError::NotAnAddressTag(tag)) => {
            &&& request.faultless(specs, files, n)
            &&& request.loaded_kind(specs, tag@) == Some(RuleSetBehavior::Domain)
            &&& request.ipcidr_tags.contains(tag@)
            &&& request.all_of_kind(specs, request.domain_tags, RuleSetBehavior::Domain)
        },
        Err(error) => {
            let at = error_position(error)->0;
            &&& 0 <= at < n
            &&& request.faultless(specs, files, at)
            &&& fault_error(request.fault(specs[at], files[at]), at, error)
        },
    }
}

proof fn lemma_loaded_kind(
    request: LoadRequest,
    specs: Seq<RuleSetSpec>,
    files: Seq<RuleSetFile>,
    db: Map<Seq<u8>, Arc<TagEntry>>,
    tag: Seq<char>,
)
    requires
        request.holds(specs, files, specs.len() as int, db),
    ensures
        request.loaded_kind(specs, tag) == (if db.contains_key(encode_utf8(tag)) {
            Some(entry_kind(*db[encode_utf8(tag)]))
        } else {
            None
        }),
{
    let k = encode_utf8(tag);
    let src = request.source(specs, specs.len() as int, k);
    lemma_source_tag(request, specs, specs.len() as int, k);
    assert(db.contains_key(k) <==> src is Some);
    if db.contains_key(k) {
        assert(request.yields(specs[src->0], files[src->0], *db[k]));
    }
}

proof fn lemma_source_tag(request: LoadRequest, specs: Seq<RuleSetSpec>, n: int, k: Seq<u8>)
    requires
        0 <= n <= specs.len(),
    ensures
        request.source(specs, n, k) is Some ==> {
            let i = request.source(specs, n, k)->0;
            0 <= i < n && encode_utf8(specs[i].tag@) == k && request.wants(specs[i])
        },
    decreases n,
{
    if n > 0 && !(request.wants(specs[n - 1]) && encode_utf8(specs[n - 1].tag@) == k) {
        lemma_source_tag(request, specs, n - 1, k);
    }
}

impl RuleSetDb {
    /// `name` is in the domain set of `tag`.
    pub open spec fn has_name(self, tag: Seq<u8>, name: Seq<u8>) -> bool {
        self@.contains_key(tag) && match *self@[tag] {
            TagEntry::Domain(m) => m.hits(name),
            TagEntry::IpCidr(_) => false,
        }
    }

    /// `ip` is in the address set of `tag`.
    pub open spec fn has_ip(self, tag: Seq<u8>, ip: IpAddr) -> bool {
        self@.contains_key(tag) && match *self@[tag] {
            TagEntry::Domain(_) => false,
            TagEntry::IpCidr(s) => s.holds(ip),
        }
    }

    /// One of `ips` is in the address set of `tag`.
    pub open spec fn has_any_ip(self, tag: Seq<u8>, ips: Seq<IpAddr>) -> bool {
        exists|i: int| 0 <= i < ips.len() && self.has_ip(tag, #[trigger] ips[i])
    }

    /// One of `ips` is in the address set of one of `tags`.
    pub open spec fn some_tag_has_ip(self, tags: Seq<String>, ips: Seq<IpAddr>) -> bool {
        exists|i: int|
            0 <= i < tags.len() && self.has_any_ip(encode_utf8((#[trigger] tags[i])@), ips)
    }

    /// Some address is in an include tag, when there are any, and none is in an exclude tag.
    pub open spec fn answer_meets(self, m: AnswerIpMatcher, ips: Seq<IpAddr>) -> bool {
        &&& m.includes@.len() == 0 || self.some_tag_has_ip(m.includes@, ips)
        &&& !self.some_tag_has_ip(m.excludes@, ips)
    }

    /// Loads the tags that are asked for.
    ///
    /// `files` holds, for each entry, what was read of its file. A file is looked at only when its
    /// tag is asked for and the entry is not taken over from an earlier database. The load fails
    /// on the first faulty file, and then on a tag that no entry has or whose entry is of the
    /// wrong kind.
    pub fn load(
        specs: &Vec<RuleSetSpec>,
        domain_tags: &Vec<String>,
        ipcidr_tags: &Vec<String>,
        reuse: Option<(&RuleSetDb, &Vec<Vec<u8>>)>,
        files: &Vec<RuleSetFile>,
    ) -> (r: Result<Self, RuleSetError>)
        requires
            files@.len() == specs@.len(),
        ensures
            load_outcome(
                load_request(domain_tags@, ipcidr_tags@, reuse),
                specs@,
                files@,
                r,
            ),
    {
        let ghost request = load_request(domain_tags@, ipcidr_tags@, reuse);
        let mut db = RuleSetDb { tags: NameTable::new() };
        let mut i: usize = 0;
        while i < specs.len()
            invariant
                i <= specs@.len(),
                files@.len() == specs@.len(),
                request == load_request(domain_tags@, ipcidr_tags@, reuse),
                request.faultless(specs@, files@, i as int),
                request.holds(specs@, files@, i as int, db@),
            decreases specs@.len() - i,
        {
            let spec = &specs[i];
            let ghost before = db@;
            let ghost k = encode_utf8(spec.tag@);
            if has_text(domain_tags, spec.tag.as_str()) || has_text(ipcidr_tags, spec.tag.as_str())
            {
                let mut taken: Option<Arc<TagEntry>> = None;
                match reuse {
                    Some((prev, changed_paths)) => {
                        let path = normalized_watch_path(spec.path.as_slice());
                        if !has_path(changed_paths, &path) {
                            match prev.tags.get(spec.tag.as_str().as_bytes()) {
                                Some(entry) => {
                                    taken = Some(share(entry));
                                },
                                None => {},
                            }
                        }
                    },
                    None => {},
                }
                proof {
                    assert(taken is Some <==> request.reuses(*spec));
                }
                let entry: Arc<TagEntry> = match taken {
                    Some(entry) => entry,
                    None => match entry_from_file(spec, &files[i], i) {
                        Ok(e) => Arc::new(e),
                        Err(e) => {
                            return Err(e);
                        },
                    },
                };
                proof {
                    assert(request.yields(*spec, files@[i as int], *entry));
                }
                db.tags.insert(vstd::slice::slice_to_vec(spec.tag.as_str().as_bytes()), entry);
            }
            proof {
                assert forall|q: Seq<u8>|
                    (#[trigger] db@.contains_key(q) <==> request.source(specs@, i + 1, q) is Some)
                        && (db@.contains_key(q) ==> request.yields(
                        specs@[request.source(specs@, i + 1, q)->0],
                        files@[request.source(specs@, i + 1, q)->0],
                        *db@[q],
                    )) by {
                    assert(before.contains_key(q) <==> request.source(specs@, i as int, q) is Some);
                }
            }
            i += 1;
        }
        let mut d: usize = 0;
        while d < domain_tags.len()
            invariant
                d <= domain_tags@.len(),
                files@.len() == specs@.len(),
                request == load_request(domain_tags@, ipcidr_tags@, reuse),
                request.faultless(specs@, files@, specs@.len() as int),
                request.holds(specs@, files@, specs@.len() as int, db@),
                forall|j: int|
                    0 <= j < d ==> request.loaded_kind(
                        specs@,
                        #[trigger] request.domain_tags[j],
                    ) == Some(RuleSetBehavior::Domain),
            decreases domain_tags@.len() - d,
        {
            let tag = &domain_tags[d];
            proof {
                assert(request.domain_tags[d as int] == tag@);
                lemma_loaded_kind(request, specs@, files@, db@, tag@);
            }
            match db.tags.get(tag.as_str().as_bytes()) {
                None => {
                    return Err(RuleSetError::TagNotFound(tag.clone()));
                },
                Some(entry) => match &**entry {
                    TagEntry::IpCidr(_) => {
                        return Err(RuleSetError::NotADomainTag(tag.clone()));
                    },
                    TagEntry::Domain(_) => {},
                },
            }
            d += 1;
        }
        let mut p: usize = 0;
        while p < ipcidr_tags.len()
            invariant
                p <= ipcidr_tags@.len(),
                files@.len() == specs@.len(),
                request == load_request(domain_tags@, ipcidr_tags@, reuse),
                request.faultless(specs@, files@, specs@.len() as int),
                request.holds(specs@, files@, specs@.len() as int, db@),
                request.all_of_kind(specs@, request.domain_tags, RuleSetBehavior::Domain),
                forall|j: int|
                    0 <= j < p ==> request.loaded_kind(
                        specs@,
                        #[trigger] request.ipcidr_tags[j],
                    ) == Some(RuleSetBehavior::IpCidr),
            decreases ipcidr_tags@.len() - p,
        {
            let tag = &ipcidr_tags[p];
            proof {
                assert(request.ipcidr_tags[p as int] == tag@);
                lemma_loaded_kind(request, specs@, files@, db@, tag@);
            }
            match db.tags.get(tag.as_str().as_bytes()) {
                None => {
                    return Err(RuleSetError::TagNotFound(tag.clone()));
                },
                Some(entry) => match &**entry {
                    TagEntry::Domain(_) => {
                        return Err(RuleSetError::NotAnAddressTag(tag.clone()));
                    },
                    TagEntry::IpCidr(_) => {},
                },
            }
            p += 1;
        }
        Ok(db)
    }

    /// Whether `domain`, a normalized name, is in the domain set of `tag`.
    pub fn matches(&self, tag: &str, domain: &str) -> (r: bool)
        ensures
            r == self.has_name(tag.spec_bytes(), domain.spec_bytes()),
    {
        match self.tags.get(tag.as_bytes()) {
            Some(entry) => match &**entry {
                TagEntry::Domain(m) => m.is_hit(domain),
                TagEntry::IpCidr(_) => false,
            },
            None => false,
        }
    }

    /// Whether `ip` is in the address set of `tag`.
    pub fn matches_ip(&self, tag: &str, ip: IpAddr) -> (r: bool)
        ensures
            r == self.has_ip(tag.spec_bytes(), ip),
    {
        match self.tags.get(tag.as_bytes()) {
            Some(entry) => match &**entry {
                TagEntry::IpCidr(set) => set.contains(ip),
                TagEntry::Domain(_) => false,
            },
            None => false,
        }
    }

    /// Whether one of `ips` is in the address set of `tag`.
    pub fn matches_any_ip(&self, tag: &str, ips: &[IpAddr]) -> (r: bool)
        ensures
            r == self.has_any_ip(tag.spec_bytes(), ips@),
    {
        let mut i: usize = 0;
        while i < ips.len()
            invariant
                i <= ips@.len(),
                forall|j: int| 0 <= j < i ==> !self.has_ip(tag.spec_bytes(), #[trigger] ips@[j]),
            decreases ips@.len() - i,
        {
            if self.matches_ip(tag, ips[i]) {
                assert(self.has_ip(tag.spec_bytes(), ips@[i as int]));
                return true;
            }
            i += 1;
        }
        false
    }

    fn matches_any_tag(&self, tags: &Vec<String>, ips: &[IpAddr]) -> (r: bool)
        ensures
            r == self.some_tag_has_ip(tags@, ips@),
    {
        let mut i: usize = 0;
        while i < tags.len()
            invariant
                i <= tags@.len(),
                forall|j: int|
                    0 <= j < i ==> !self.has_any_ip(encode_utf8((#[trigger] tags@[j])@), ips@),
            decreases tags@.len() - i,
        {
            if self.matches_any_ip(tags[i].as_str(), ips) {
                assert(self.has_any_ip(encode_utf8(tags@[i as int]@), ips@));
                return true;
            }
            i += 1;
        }
        false
    }

    /// Whether the addresses of an answer meet a matcher.
    pub fn matches_answer_ip(&self, m: &AnswerIpMatcher, ips: &[IpAddr]) -> (r: bool)
        ensures
            r == self.answer_meets(*m, ips@),
    {
        let include_ok = m.includes.len() == 0 || self.matches_any_tag(&m.includes, ips);
        let exclude_ok = !self.matches_any_tag(&m.excludes, ips);
        include_ok && exclude_ok
    }

    /// Every loaded tag with the number of its patterns or ranges.
    pub fn tag_counts(&self) -> (r: Vec<(Vec<u8>, usize)>)
        ensures
            forall|k: Seq<u8>| #[trigger]
                self@.contains_key(k) <==> exists|i: int| 0 <= i < r@.len() && (#[trigger] r@[i]).0@
                    == k,
            forall|i: int, j: int|
                0 <= i < j < r@.len() ==> (#[trigger] r@[i]).0@ != (#[trigger] r@[j]).0@,
            forall|i: int|
                0 <= i < r@.len() ==> (#[trigger] r@[i]).1 as nat == capped(
                    entry_size(*self@[r@[i].0@]),
                ),
    {
        let n: usize = self.tags.len();
        let mut out: Vec<(Vec<u8>, usize)> = Vec::new();
        let mut i: usize = 0;
        while i < n
            invariant
                i <= n,
                n == self.tags.names().len(),
                self.tags.names().no_duplicates(),
                out@.len() == i,
                forall|j: int|
                    0 <= j < i ==> (#[trigger] out@[j]).0@ == self.tags.names()[j]
                        && out@[j].1 as nat == capped(entry_size(*self@[out@[j].0@])),
            decreases n - i,
        {
            let (tag, entry) = self.tags.at(i);
            let count: usize = match &**entry {
                TagEntry::Domain(m) => m.len(),
                TagEntry::IpCidr(set) => set.len(),
            };
            out.push((vstd::slice::slice_to_vec(tag.as_slice()), count));
            i += 1;
        }
        proof {
            assert forall|k: Seq<u8>| #[trigger]
                self@.contains_key(k) <==> exists|i: int|
                    0 <= i < out@.len() && (#[trigger] out@[i]).0@ == k by {
                assert(self.tags@.contains_key(k) <==> self.tags.names().contains(k));
                if self.tags.names().contains(k) {
                    let p = choose|p: int|
                        0 <= p < self.tags.names().len() && self.tags.names()[p] == k;
                    assert(out@[p].0@ == k);
                }
                if exists|i: int| 0 <= i < out@.len() && (#[trigger] out@[i]).0@ == k {
                    let p = choose|p: int| 0 <= p < out@.len() && (#[trigger] out@[p]).0@ == k;
                    assert(self.tags.names()[p] == k);
                }
            }
        }
        out
    }
}

/// The number of patterns or ranges of an entry.
pub open spec fn entry_size(entry: TagEntry) -> nat {
    match entry {
        TagEntry::Domain(m) => m.count(),
        TagEntry::IpCidr(s) => s.count(),
    }
}

/// A count as far as it fits in a `usize`.
pub open spec fn capped(n: nat) -> nat {
    if n <= usize::MAX {
        n
    } else {
        usize::MAX as nat
    }
}

/// For a given answer exactly one of a tag and its negation holds.
pub proof fn law_negated_tag_is_complement(
    db: RuleSetDb,
    tag: String,
    plain: AnswerIpMatcher,
    negated: AnswerIpMatcher,
    ips: Seq<IpAddr>,
)
    requires
        plain.includes@ == seq![tag],
        plain.excludes@ == Seq::<String>::empty(),
        negated.includes@ == Seq::<String>::empty(),
        negated.excludes@ == seq![tag],
    ensures
        db.answer_meets(plain, ips) == !db.answer_meets(negated, ips),
{
    assert(!db.some_tag_has_ip(plain.excludes@, ips));
    assert(plain.includes@.len() == 1);
}

/// An entry whose file did not change is taken over whatever its file holds now: two loads that
/// differ only in the files of reused or unwanted entries load the same kinds of entries and are
/// at fault at the same places.
pub proof fn law_unchanged_files_are_not_read(
    request: LoadRequest,
    specs: Seq<RuleSetSpec>,
    files: Seq<RuleSetFile>,
    other: Seq<RuleSetFile>,
    db: RuleSetDb,
)
    requires
        files.len() == specs.len(),
        other.len() == specs.len(),
        forall|i: int|
            0 <= i < specs.len() && request.wants(specs[i]) && !request.reuses(specs[i])
                ==> #[trigger] files[i] == other[i],
    ensures
        load_outcome(request, specs, files, Ok(db)) <==> load_outcome(
            request,
            specs,
            other,
            Ok(db),
        ),
{
    let n = specs.len() as int;
    assert(request.faultless(specs, files, n) <==> request.faultless(specs, other, n)) by {
        assert forall|i: int| 0 <= i < n implies request.fault(#[trigger] specs[i], files[i])
            == request.fault(specs[i], other[i]) by {
            if request.wants(specs[i]) && !request.reuses(specs[i]) {
                assert(files[i] == other[i]);
            }
        }
    }
    assert forall|k: Seq<u8>| request.source(specs, n, k) is Some implies request.yields(
        specs[request.source(specs, n, k)->0],
        files[request.source(specs, n, k)->0],
        *db@[k],
    ) == request.yields(
        specs[request.source(specs, n, k)->0],
        other[request.source(specs, n, k)->0],
        *db@[k],
    ) by {
        lemma_source_tag(request, specs, n, k);
        let i = request.source(specs, n, k)->0;
        if !request.reuses(specs[i]) {
            assert(files[i] == other[i]);
        }
    }
    assert(request.holds(specs, files, n, db@) <==> request.holds(specs, other, n, db@));
}

// What a database means.

/// The pattern lines of a file are its lines, trimmed and in their order, without blank lines and
/// without those that begin with `#` or `//`.
pub proof fn law_comments_hold_no_pattern(lines: Seq<Seq<char>>, line: Seq<char>)
    ensures
        ({
            let t = trimmed(line);
            pattern_lines(lines.push(line)) == (if t.len() == 0 || t[0] == '#' || (t.len() >= 2
                && t[0] == '/' && t[1] == '/') {
                pattern_lines(lines)
            } else {
                pattern_lines(lines).push(t)
            })
        }),
        pattern_lines(Seq::empty()) == Seq::<Seq<char>>::empty(),
{
    assert(lines.push(line).drop_last() =~= lines);
}

/// A file of domain patterns fails on nothing but text that is none: malformed patterns are passed
/// over. A file of address blocks fails on the first line that is none.
pub proof fn law_what_fails_a_file(bytes: Vec<u8>, lines: Seq<Seq<char>>, line: Seq<char>)
    ensures
        file_fault(
            RuleSetFormat::Text,
            RuleSetBehavior::Domain,
            RuleSetFile::Text(bytes),
        ) is None <==> valid_utf8(bytes@),
        valid_utf8(bytes@) ==> (file_fault(
            RuleSetFormat::Text,
            RuleSetBehavior::IpCidr,
            RuleSetFile::Text(bytes),
        ) is None <==> first_bad_line(lines_of(decode_utf8(bytes@))) is None),
        first_bad_line(lines) is Some ==> first_bad_line(lines.push(line)) == first_bad_line(lines),
        first_bad_line(lines) is None ==> {
            let t = trimmed(line);
            &&& t.len() == 0 || t[0] == '#' ==> first_bad_line(lines.push(line)) is None
            &&& cidr_value(encode_utf8(t)) is Some ==> first_bad_line(lines.push(line)) is None
            &&& t.len() > 0 && t[0] != '#' && t[0] != '/' && cidr_value(encode_utf8(t)) is None
                ==> first_bad_line(lines.push(line)) == Some(lines.len() + 1)
        },
        first_bad_line(Seq::empty()) is None,
{
    assert(lines.push(line).drop_last() =~= lines);
}

/// A tag that was loaded from a text file of domain patterns holds exactly the names that one of
/// the file's patterns means.
pub proof fn law_loaded_names_are_those_of_the_file(
    request: LoadRequest,
    specs: Seq<RuleSetSpec>,
    files: Seq<RuleSetFile>,
    db: RuleSetDb,
    at: int,
    bytes: Vec<u8>,
    name: Seq<u8>,
)
    requires
        load_outcome(request, specs, files, Ok(db)),
        files.len() == specs.len(),
        0 <= at < specs.len(),
        request.domain_tags.contains(specs[at].tag@),
        request.reuse is None,
        specs[at].behavior == RuleSetBehavior::Domain,
        files[at] == RuleSetFile::Text(bytes),
        forall|j: int| at < j < specs.len() ==> (#[trigger] specs[j]).tag@ != specs[at].tag@,
    ensures
        db.has_name(encode_utf8(specs[at].tag@), name) <==> exists|i: int|
            0 <= i < pattern_lines(lines_of(decode_utf8(bytes@))).len() && meets(
                pattern_meaning(
                    encode_utf8(#[trigger] pattern_lines(lines_of(decode_utf8(bytes@)))[i]),
                ),
                name,
            ),
{
    let k = encode_utf8(specs[at].tag@);
    lemma_last_source(request, specs, specs.len() as int, at);
    assert(db@.contains_key(k));
}

/// A tag that was loaded from a text file of address blocks holds exactly the addresses of its
/// blocks.
pub proof fn law_loaded_addresses_are_those_of_the_file(
    request: LoadRequest,
    specs: Seq<RuleSetSpec>,
    files: Seq<RuleSetFile>,
    db: RuleSetDb,
    at: int,
    bytes: Vec<u8>,
    ip: IpAddr,
)
    requires
        load_outcome(request, specs, files, Ok(db)),
        files.len() == specs.len(),
        0 <= at < specs.len(),
        request.ipcidr_tags.contains(specs[at].tag@),
        request.reuse is None,
        specs[at].behavior == RuleSetBehavior::IpCidr,
        files[at] == RuleSetFile::Text(bytes),
        forall|j: int| at < j < specs.len() ==> (#[trigger] specs[j]).tag@ != specs[at].tag@,
    ensures
        db.has_ip(encode_utf8(specs[at].tag@), ip) <==> exists|i: int|
            {
                &&& 0 <= i < lines_of(decode_utf8(bytes@)).len()
                &&& {
                    let t = trimmed(#[trigger] lines_of(decode_utf8(bytes@))[i]);
                    &&& t.len() > 0 && t[0] != '#' && !(t.len() >= 2 && t[0] == '/' && t[1] == '/')
                    &&& cidr_value(encode_utf8(t)) matches Some((from, to)) && in_range(
                        from,
                        to,
                        ip,
                    )
                }
            },
{
    let k = encode_utf8(specs[at].tag@);
    let lines = lines_of(decode_utf8(bytes@));
    lemma_last_source(request, specs, specs.len() as int, at);
    assert(db@.contains_key(k));
    if some_line_holds(lines, ip) {
        let i = choose|i: int| 0 <= i < lines.len() && line_holds(#[trigger] lines[i], ip);
        assert(line_holds(lines[i], ip));
    }
    assert forall|i: int| 0 <= i < lines.len() implies line_holds(#[trigger] lines[i], ip) == ({
        let t = trimmed(lines[i]);
        &&& t.len() > 0 && t[0] != '#' && !(t.len() >= 2 && t[0] == '/' && t[1] == '/')
        &&& cidr_value(encode_utf8(t)) matches Some((from, to)) && in_range(from, to, ip)
    }) by {}
}

proof fn lemma_last_source(request: LoadRequest, specs: Seq<RuleSetSpec>, n: int, at: int)
    requires
        0 <= at < n <= specs.len(),
        request.wants(specs[at]),
        forall|j: int| at < j < n ==> (#[trigger] specs[j]).tag@ != specs[at].tag@,
    ensures
        request.source(specs, n, encode_utf8(specs[at].tag@)) == Some(at),
    decreases n,
{
    if n - 1 != at {
        assert(specs[n - 1].tag@ != specs[at].tag@);
        if encode_utf8(specs[n - 1].tag@) == encode_utf8(specs[at].tag@) {
            vstd::utf8::encode_utf8_decode_utf8(specs[n - 1].tag@);
            vstd::utf8::encode_utf8_decode_utf8(specs[at].tag@);
        }
        lemma_last_source(request, specs, n - 1, at);
    }
}

proof fn lemma_source(request: LoadRequest, specs: Seq<RuleSetSpec>, n: int, k: Seq<u8>)
    requires
        0 <= n <= specs.len(),
    ensures
        match request.source(specs, n, k) {
            Some(i) => 0 <= i < n && request.wants(specs[i]) && encode_utf8(specs[i].tag@) == k,
            None => forall|i: int|
                0 <= i < n && request.wants(#[trigger] specs[i]) ==> encode_utf8(specs[i].tag@)
                    != k,
        },
    decreases n,
{
    if n > 0 {
        lemma_source(request, specs, n - 1, k);
    }
}

/// A database holds no tag that was not asked for, and every tag that was: a load does not succeed
/// while a tag that is asked for is in no entry.
pub proof fn law_asked_tags_are_loaded(
    request: LoadRequest,
    specs: Seq<RuleSetSpec>,
    files: Seq<RuleSetFile>,
    db: RuleSetDb,
    tag: Seq<char>,
)
    requires
        load_outcome(request, specs, files, Ok(db)),
    ensures
        db@.contains_key(encode_utf8(tag)) <==> request.domain_tags.contains(tag)
            || request.ipcidr_tags.contains(tag),
        request.domain_tags.contains(tag) ==> *db@[encode_utf8(tag)] is Domain,
        request.ipcidr_tags.contains(tag) ==> *db@[encode_utf8(tag)] is IpCidr,
        request.domain_tags.contains(tag) || request.ipcidr_tags.contains(tag) ==> exists|i: int|
            0 <= i < specs.len() && (#[trigger] specs[i]).tag@ == tag,
{
    let k = encode_utf8(tag);
    let n = specs.len() as int;
    lemma_source(request, specs, n, k);
    assert(db@.contains_key(k) <==> request.source(specs, n, k) is Some);
    if let Some(i) = request.source(specs, n, k) {
        vstd::utf8::encode_utf8_decode_utf8(specs[i].tag@);
        vstd::utf8::encode_utf8_decode_utf8(tag);
        assert(specs[i].tag@ == tag);
    }
    if request.domain_tags.contains(tag) {
        let j = choose|j: int| 0 <= j < request.domain_tags.len() && request.domain_tags[j] == tag;
        assert(request.loaded_kind(specs, request.domain_tags[j]) == Some(RuleSetBehavior::Domain));
    }
    if request.ipcidr_tags.contains(tag) {
        let j = choose|j: int| 0 <= j < request.ipcidr_tags.len() && request.ipcidr_tags[j] == tag;
        assert(request.loaded_kind(specs, request.ipcidr_tags[j]) == Some(RuleSetBehavior::IpCidr));
    }
}

/// A load fails for a reason: where no file that is read is faulty and every tag that is asked for
/// is in an entry of its kind, the outcome is a database.
pub proof fn law_sound_files_load(
    request: LoadRequest,
    specs: Seq<RuleSetSpec>,
    files: Seq<RuleSetFile>,
    outcome: Result<RuleSetDb, RuleSetError>,
)
    requires
        load_outcome(request, specs, files, outcome),
        forall|i: int|
            0 <= i < specs.len() && request.wants(specs[i]) && !request.reuses(specs[i])
                ==> file_fault(
                (#[trigger] specs[i]).format,
                specs[i].behavior,
                files[i],
            ) is None,
        forall|i: int|
            0 <= i < request.domain_tags.len() ==> request.loaded_kind(
                specs,
                #[trigger] request.domain_tags[i],
            ) == Some(RuleSetBehavior::Domain),
        forall|i: int|
            0 <= i < request.ipcidr_tags.len() ==> request.loaded_kind(
                specs,
                #[trigger] request.ipcidr_tags[i],
            ) == Some(RuleSetBehavior::IpCidr),
    ensures
        outcome is Ok,
{
    if let Err(e) = outcome {
        match e {
            RuleSetError::TagNotFound(tag) => {
                assert(request.domain_tags.contains(tag@) || request.ipcidr_tags.contains(tag@));
            },
            RuleSetError::NotADomainTag(tag) => {
                assert(request.domain_tags.contains(tag@));
            },
            RuleSetError::NotAnAddressTag(tag) => {
                assert(request.ipcidr_tags.contains(tag@));
            },
            _ => {
                let at = error_position(e)->0;
                assert(request.fault(specs[at], files[at]) is None);
            },
        }
    }
}

/// One more included tag widens an address matcher, one more excluded tag narrows it; a matcher with
/// no included tag is met by every answer that is in no excluded set.
pub proof fn law_address_tags_widen_and_narrow(
    db: RuleSetDb,
    m: AnswerIpMatcher,
    wide: AnswerIpMatcher,
    narrow: AnswerIpMatcher,
    tag: String,
    ips: Seq<IpAddr>,
)
    requires
        wide.includes@ == m.includes@.push(tag) && wide.excludes@ == m.excludes@,
        narrow.includes@ == m.includes@ && narrow.excludes@ == m.excludes@.push(tag),
    ensures
        ({
            let hit = exists|i: int|
                0 <= i < ips.len() && db.has_ip(encode_utf8(tag@), #[trigger] ips[i]);
            &&& db.answer_meets(narrow, ips) <==> db.answer_meets(m, ips) && !hit
            &&& m.includes@.len() > 0 && m.excludes@.len() == 0 ==> (db.answer_meets(wide, ips)
                <==> db.answer_meets(m, ips) || hit)
            &&& m.includes@.len() == 0 && m.excludes@.len() == 0 ==> db.answer_meets(m, ips) && (
            db.answer_meets(wide, ips) <==> hit)
        }),
{
    let hit = exists|i: int| 0 <= i < ips.len() && db.has_ip(encode_utf8(tag@), #[trigger] ips[i]);
    lemma_one_more_tag(db, m.excludes@, tag, ips);
    lemma_one_more_tag(db, m.includes@, tag, ips);
    assert(hit == db.has_any_ip(encode_utf8(tag@), ips));
}

proof fn lemma_one_more_tag(db: RuleSetDb, tags: Seq<String>, tag: String, ips: Seq<IpAddr>)
    ensures
        db.some_tag_has_ip(tags.push(tag), ips) <==> db.some_tag_has_ip(tags, ips) || db.has_any_ip(
            encode_utf8(tag@),
            ips,
        ),
{
    let more = tags.push(tag);
    assert(more[tags.len() as int] == tag);
    if db.some_tag_has_ip(tags, ips) {
        let i = choose|i: int|
            0 <= i < tags.len() && db.has_any_ip(encode_utf8((#[trigger] tags[i])@), ips);
        assert(more[i] == tags[i]);
    }
    if db.some_tag_has_ip(more, ips) {
        let i = choose|i: int|
            0 <= i < more.len() && db.has_any_ip(encode_utf8((#[trigger] more[i])@), ips);
        if i < tags.len() {
            assert(more[i] == tags[i]);
        }
    }
}

/// A file serves an entry only in the form that the entry declares: a text for a text, patterns for
/// a decoded set of names, ranges for a decoded set of addresses. A file that was not read serves
/// none.
pub proof fn law_files_serve_their_own_kind(
    format: RuleSetFormat,
    behavior: RuleSetBehavior,
    text: Vec<u8>,
    names: Vec<String>,
    ranges: Vec<(IpAddr, IpAddr)>,
)
    ensures
        file_fault(format, behavior, RuleSetFile::Unread) == Some(FileFault::Unreadable),
        format is Mrs ==> file_fault(format, behavior, RuleSetFile::Text(text)) == Some(
            FileFault::Unreadable,
        ),
        format is Text && !valid_utf8(text@) ==> file_fault(
            format,
            behavior,
            RuleSetFile::Text(text),
        ) == Some(FileFault::NotText),
        file_fault(format, behavior, RuleSetFile::Domains(names)) is None <==> format is Mrs
            && behavior is Domain,
        file_fault(format, behavior, RuleSetFile::Ranges(ranges)) is None <==> format is Mrs
            && behavior is IpCidr,
{
}

/// A database that was loaded has no faulty file behind it: every file of a wanted entry that was
/// not taken over is sound.
pub proof fn law_faulty_files_do_not_load(
    request: LoadRequest,
    specs: Seq<RuleSetSpec>,
    files: Seq<RuleSetFile>,
    db: RuleSetDb,
    i: int,
)
    requires
        load_outcome(request, specs, files, Ok(db)),
        0 <= i < specs.len(),
        request.domain_tags.contains(specs[i].tag@) || request.ipcidr_tags.contains(specs[i].tag@),
        !request.reuses(specs[i]),
    ensures
        file_fault(specs[i].format, specs[i].behavior, files[i]) is None,
        !(files[i] is Unread),
{
    assert(request.fault(specs[i], files[i]) is None);
}

/// A failed load names the first file at fault, and that file is one that was to be read.
pub proof fn law_first_faulty_file_is_named(
    request: LoadRequest,
    specs: Seq<RuleSetSpec>,
    files: Seq<RuleSetFile>,
    error: RuleSetError,
    at: usize,
    line: usize,
)
    requires
        load_outcome(request, specs, files, Err(error)),
    ensures
        error == RuleSetError::Unreadable(at) || error == RuleSetError::NotText(at) || error
            == RuleSetError::InvalidCidr(at, line) ==> {
            &&& at < specs.len()
            &&& request.wants(specs[at as int])
            &&& !request.reuses(specs[at as int])
            &&& file_fault(specs[at as int].format, specs[at as int].behavior, files[at as int])
                is Some
            &&& forall|i: int|
                0 <= i < at && request.wants(specs[i]) && !request.reuses(specs[i]) ==> file_fault(
                    (#[trigger] specs[i]).format,
                    specs[i].behavior,
                    files[i],
                ) is None
        },
{
    if error_position(error) is Some {
        let p = error_position(error)->0;
        assert forall|i: int|
            0 <= i < p && request.wants(specs[i]) && !request.reuses(specs[i]) implies file_fault(
            (#[trigger] specs[i]).format,
            specs[i].behavior,
            files[i],
        ) is None by {
            assert(request.fault(specs[i], files[i]) is None);
        }
    }
}

/// Each pattern counts once more where it is new: a malformed one never, a wildcard always, and a
/// name or a zone where none before it means the same.
pub proof fn law_patterns_are_counted(patterns: Seq<Seq<char>>, more: Seq<char>)
    ensures
        ({
            let meaning = pattern_meaning(encode_utf8(more));
            let known = exists|i: int|
                0 <= i < patterns.len() && pattern_meaning(encode_utf8(#[trigger] patterns[i]))
                    == meaning;
            let added = pattern_count(patterns.push(more)) - pattern_count(patterns);
            &&& meaning is Malformed ==> added == 0
            &&& meaning is OneBelow ==> added == 1
            &&& meaning is Name || meaning is Zone ==> added == (if known {
                0int
            } else {
                1
            })
        }),
        pattern_count(Seq::empty()) == 0,
{
    assert(patterns.push(more).drop_last() =~= patterns);
}

} // verus!
