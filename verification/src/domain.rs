//! Domain names, domain patterns and the matcher that holds them.
//!
//! A normalized name is lower case, has no trailing dot and no empty label.
//! Pattern text takes one of these forms:
//!
//! - `example.com`: that name only;
//! - `+.example.com` and `.example.com`: the name and every name below it;
//! - `*.example.com`: the names exactly one label below it.

use crate::table::NameTable;
use crate::text::{
    contains_byte, contains_bytes, has_byte, has_suffix, lemma_ascii_boundary,
    lemma_lower_keeps_utf8, lower_byte, lower_bytes, occurs, sub_str, text_from_bytes, to_lower,
};
use vstd::prelude::*;
use vstd::slice::slice_subrange;
use vstd::string::StringSliceAdditionalSpecFns;
use vstd::utf8::encode_utf8;

verus! {

/// The byte between two labels.
pub const DOT: u8 = 46;

pub const STAR: u8 = 42;

pub const PLUS: u8 = 43;

/// A label of the dotted text `s` is empty.
pub open spec fn has_empty_label(s: Seq<u8>) -> bool {
    ||| s.len() == 0
    ||| s[0] == DOT
    ||| s.last() == DOT
    ||| exists|i: int| 0 <= i && i + 1 < s.len() && #[trigger] s[i] == DOT && s[i + 1] == DOT
}

/// Text without its one trailing dot.
pub open spec fn without_root_dot(s: Seq<u8>) -> Seq<u8> {
    if s.len() > 0 && s.last() == DOT {
        s.drop_last()
    } else {
        s
    }
}

/// Normalized form of a written name; `None` when a label is empty.
pub open spec fn normal_form(s: Seq<u8>) -> Option<Seq<u8>> {
    if has_empty_label(without_root_dot(s)) {
        None
    } else {
        Some(lower_bytes(without_root_dot(s)))
    }
}

/// `name` is `zone` or stands below it.
pub open spec fn in_zone(name: Seq<u8>, zone: Seq<u8>) -> bool {
    name == zone || (seq![DOT] + zone).is_suffix_of(name)
}

/// `name` stands exactly one label below `zone`.
pub open spec fn one_below(name: Seq<u8>, zone: Seq<u8>) -> bool {
    &&& name.len() > zone.len() + 1
    &&& (seq![DOT] + zone).is_suffix_of(name)
    &&& !has_byte(name.take(name.len() - zone.len() - 1), DOT)
}

/// What a pattern text stands for.
pub ghost enum PatternMeaning {
    Zone(Seq<u8>),
    Name(Seq<u8>),
    OneBelow(Seq<u8>),
    Malformed,
}

/// Meaning of a pattern text.
pub open spec fn pattern_meaning(p: Seq<u8>) -> PatternMeaning {
    if p.len() >= 2 && p[0] == PLUS && p[1] == DOT {
        zone_meaning(p.skip(2))
    } else if p.len() >= 1 && p[0] == DOT {
        zone_meaning(p.skip(1))
    } else if p.len() >= 2 && p[0] == STAR && p[1] == DOT {
        match plain_name(p.skip(2)) {
            Some(n) => PatternMeaning::OneBelow(n),
            None => PatternMeaning::Malformed,
        }
    } else {
        match plain_name(p) {
            Some(n) => PatternMeaning::Name(n),
            None => PatternMeaning::Malformed,
        }
    }
}

pub open spec fn zone_meaning(rest: Seq<u8>) -> PatternMeaning {
    match plain_name(rest) {
        Some(n) => PatternMeaning::Zone(n),
        None => PatternMeaning::Malformed,
    }
}

/// Normalized form of a written name that holds no `*`.
pub open spec fn plain_name(s: Seq<u8>) -> Option<Seq<u8>> {
    if has_byte(s, STAR) {
        None
    } else {
        normal_form(s)
    }
}

/// A parsed domain pattern.
pub enum PatternKind {
    /// The name and everything below it.
    Suffix(String),
    /// The name only.
    Full(String),
    /// Exactly one label below the name.
    Wildcard(String),
    /// Not a pattern.
    Invalid,
}

impl PatternKind {
    pub open spec fn meaning(self) -> PatternMeaning {
        match self {
            PatternKind::Suffix(n) => PatternMeaning::Zone(encode_utf8(n@)),
            PatternKind::Full(n) => PatternMeaning::Name(encode_utf8(n@)),
            PatternKind::Wildcard(n) => PatternMeaning::OneBelow(encode_utf8(n@)),
            PatternKind::Invalid => PatternMeaning::Malformed,
        }
    }
}

fn any_empty_label(s: &[u8]) -> (r: bool)
    ensures
        r == has_empty_label(s@),
{
    if s.len() == 0 || s[0] == DOT || s[s.len() - 1] == DOT {
        return true;
    }
    let mut i: usize = 0;
    while i < s.len() - 1
        invariant
            0 < s@.len(),
            i < s@.len(),
            s@[0] != DOT,
            s@.last() != DOT,
            forall|j: int|
                0 <= j < i && j + 1 < s@.len() ==> !(#[trigger] s@[j] == DOT && s@[j + 1] == DOT),
        decreases s@.len() - i,
    {
        if s[i] == DOT && s[i + 1] == DOT {
            assert(s@[i as int] == DOT && s@[i + 1] == DOT);
            return true;
        }
        i += 1;
    }
    false
}

/// Normalized form of a written name.
pub fn normalize_domain(name: &str) -> (r: Option<String>)
    ensures
        match r {
            Some(n) => normal_form(name.spec_bytes()) == Some(encode_utf8(n@)),
            None => normal_form(name.spec_bytes()) is None,
        },
{
    let b = name.as_bytes();
    let end: usize = if b.len() > 0 && b[b.len() - 1] == DOT {
        b.len() - 1
    } else {
        b.len()
    };
    let body = slice_subrange(b, 0, end);
    proof {
        assert(body@ =~= without_root_dot(b@));
    }
    if any_empty_label(body) {
        return None;
    }
    proof {
        vstd::utf8::encode_utf8_valid_utf8(name@);
        if end < b@.len() {
            lemma_ascii_boundary(b@, end as int);
        } else {
            vstd::utf8::is_char_boundary_start_end_of_seq(b@);
        }
        vstd::utf8::valid_utf8_split(b@, end as int);
        lemma_lower_keeps_utf8(body@);
    }
    text_from_bytes(to_lower(body))
}

fn normalize_plain(name: &str) -> (r: Option<String>)
    ensures
        match r {
            Some(n) => plain_name(name.spec_bytes()) == Some(encode_utf8(n@)),
            None => plain_name(name.spec_bytes()) is None,
        },
{
    if contains_byte(name.as_bytes(), STAR) {
        None
    } else {
        normalize_domain(name)
    }
}

fn after_prefix<'a>(s: &'a str, n: usize) -> (r: &'a str)
    requires
        n <= s.spec_bytes().len(),
        n >= 1,
        s.spec_bytes()[n - 1] < 128,
    ensures
        r.spec_bytes() == s.spec_bytes().skip(n as int),
{
    proof {
        vstd::utf8::encode_utf8_valid_utf8(s@);
        lemma_ascii_boundary(s.spec_bytes(), n - 1);
        vstd::utf8::is_char_boundary_start_end_of_seq(s.spec_bytes());
    }
    let len: usize = s.as_bytes().len();
    let r = sub_str(s, n, len);
    proof {
        assert(r.spec_bytes() =~= s.spec_bytes().skip(n as int));
    }
    r
}

/// Parses a domain pattern.
pub fn classify_pattern(pattern: &str) -> (r: PatternKind)
    ensures
        r.meaning() == pattern_meaning(pattern.spec_bytes()),
{
    let b = pattern.as_bytes();
    if b.len() >= 2 && b[0] == PLUS && b[1] == DOT {
        match normalize_plain(after_prefix(pattern, 2)) {
            Some(n) => PatternKind::Suffix(n),
            None => PatternKind::Invalid,
        }
    } else if b.len() >= 1 && b[0] == DOT {
        match normalize_plain(after_prefix(pattern, 1)) {
            Some(n) => PatternKind::Suffix(n),
            None => PatternKind::Invalid,
        }
    } else if b.len() >= 2 && b[0] == STAR && b[1] == DOT {
        match normalize_plain(after_prefix(pattern, 2)) {
            Some(n) => PatternKind::Wildcard(n),
            None => PatternKind::Invalid,
        }
    } else {
        match normalize_plain(pattern) {
            Some(n) => PatternKind::Full(n),
            None => PatternKind::Invalid,
        }
    }
}

/// `zone` is the longest key of `zones` that `name` belongs to.
pub open spec fn is_nearest_zone<T>(zones: Map<Seq<u8>, T>, name: Seq<u8>, zone: Seq<u8>) -> bool {
    &&& zones.contains_key(zone)
    &&& in_zone(name, zone)
    &&& forall|other: Seq<u8>|
        zones.contains_key(other) && in_zone(name, other) ==> other.len() <= zone.len()
}

/// Value of the longest zone that `name` belongs to.
pub open spec fn nearest_zone_value<T>(zones: Map<Seq<u8>, T>, name: Seq<u8>) -> Option<T> {
    if exists|zone: Seq<u8>| is_nearest_zone(zones, name, zone) {
        Some(zones[choose|zone: Seq<u8>| is_nearest_zone(zones, name, zone)])
    } else {
        None
    }
}

/// Value of the first entry whose key satisfies `hit`.
pub open spec fn first_hit<T>(
    entries: Seq<(String, T)>,
    hit: spec_fn(Seq<u8>) -> bool,
) -> Option<T>
    decreases entries.len(),
{
    if entries.len() == 0 {
        None
    } else if hit(encode_utf8(entries[0].0@)) {
        Some(entries[0].1)
    } else {
        first_hit(entries.skip(1), hit)
    }
}

proof fn lemma_zone_by_position(name: Seq<u8>, zone: Seq<u8>)
    ensures
        in_zone(name, zone) <==> exists|p: int|
            #![trigger name.skip(p)]
            0 <= p <= name.len() && zone == name.skip(p) && (p == 0 || name[p - 1] == DOT),
{
    if name == zone {
        assert(zone =~= name.skip(0));
    } else if (seq![DOT] + zone).is_suffix_of(name) {
        let p = name.len() - zone.len();
        let t = seq![DOT] + zone;
        assert(t =~= name.subrange(name.len() - t.len(), name.len() as int));
        assert(zone =~= name.skip(p)) by {
            assert forall|i: int| 0 <= i < zone.len() implies zone[i] == name.skip(p)[i] by {
                assert(t[i + 1] == zone[i]);
            }
        }
        assert(name[p - 1] == t[0]);
    }
    if exists|p: int|
        #![trigger name.skip(p)]
        0 <= p <= name.len() && zone == name.skip(p) && (p == 0 || name[p - 1] == DOT) {
        let p = choose|p: int|
            #![trigger name.skip(p)]
            0 <= p <= name.len() && zone == name.skip(p) && (p == 0 || name[p - 1] == DOT);
        if p == 0 {
            assert(name.skip(0) =~= name);
        } else {
            assert(seq![DOT] + zone =~= name.subrange(p - 1, name.len() as int));
        }
    }
}

/// Two zones of one name with the same length are the same zone.
proof fn lemma_zones_by_length(name: Seq<u8>, a: Seq<u8>, b: Seq<u8>)
    requires
        in_zone(name, a),
        in_zone(name, b),
        a.len() == b.len(),
    ensures
        a == b,
{
    lemma_zone_by_position(name, a);
    lemma_zone_by_position(name, b);
}

proof fn lemma_nearest_zone_value<T>(zones: Map<Seq<u8>, T>, name: Seq<u8>, zone: Seq<u8>)
    requires
        is_nearest_zone(zones, name, zone),
    ensures
        nearest_zone_value(zones, name) == Some(zones[zone]),
{
    let other = choose|z: Seq<u8>| is_nearest_zone(zones, name, z);
    lemma_zones_by_length(name, zone, other);
}

/// Domain patterns with a value each.
pub struct DomainMatcher<T> {
    full: NameTable<T>,
    suffix: NameTable<T>,
    keyword: Vec<(String, T)>,
    wildcard: Vec<(String, T)>,
}

impl<T> DomainMatcher<T> {
    /// Exact names.
    pub closed spec fn full(self) -> Map<Seq<u8>, T> {
        self.full@
    }

    /// Zones: names that stand for everything below them too.
    pub closed spec fn zones(self) -> Map<Seq<u8>, T> {
        self.suffix@
    }

    /// Substring patterns, in insertion order.
    pub closed spec fn keywords(self) -> Seq<(String, T)> {
        self.keyword@
    }

    /// One-label wildcards, in insertion order.
    pub closed spec fn wildcards(self) -> Seq<(String, T)> {
        self.wildcard@
    }

    /// Number of patterns held.
    pub closed spec fn count(self) -> nat {
        self.full.names().len() + self.suffix.names().len() + self.keyword@.len()
            + self.wildcard@.len()
    }

    /// The exact entry of `name`, or else that of its nearest zone.
    pub open spec fn specific(self, name: Seq<u8>) -> Option<T> {
        if self.full().contains_key(name) {
            Some(self.full()[name])
        } else {
            nearest_zone_value(self.zones(), name)
        }
    }

    /// The first substring pattern in `name`, or else the first wildcard it meets.
    pub open spec fn fuzzy(self, name: Seq<u8>) -> Option<T> {
        match first_hit(self.keywords(), |k: Seq<u8>| occurs(name, k)) {
            Some(v) => Some(v),
            None => first_hit(self.wildcards(), |z: Seq<u8>| one_below(name, z)),
        }
    }

    /// Some pattern meets `name`.
    #[verifier::opaque]
    pub open spec fn hits(self, name: Seq<u8>) -> bool {
        self.specific(name) is Some || self.fuzzy(name) is Some
    }

    pub fn new() -> (r: Self)
        ensures
            r.full() == Map::<Seq<u8>, T>::empty(),
            r.zones() == Map::<Seq<u8>, T>::empty(),
            r.keywords() == Seq::<(String, T)>::empty(),
            r.wildcards() == Seq::<(String, T)>::empty(),
            r.count() == 0,
    {
        DomainMatcher {
            full: NameTable::new(),
            suffix: NameTable::new(),
            keyword: Vec::new(),
            wildcard: Vec::new(),
        }
    }

    pub fn insert_full(&mut self, name: String, value: T)
        ensures
            final(self).full() == old(self).full().insert(encode_utf8(name@), value),
            final(self).zones() == old(self).zones(),
            final(self).keywords() == old(self).keywords(),
            final(self).wildcards() == old(self).wildcards(),
            final(self).count() == old(self).count() + (if old(self).full().contains_key(
                encode_utf8(name@),
            ) {
                0int
            } else {
                1
            }),
    {
        self.full.insert(vstd::slice::slice_to_vec(name.as_str().as_bytes()), value);
    }

    pub fn insert_suffix(&mut self, name: String, value: T)
        ensures
            final(self).full() == old(self).full(),
            final(self).zones() == old(self).zones().insert(encode_utf8(name@), value),
            final(self).keywords() == old(self).keywords(),
            final(self).wildcards() == old(self).wildcards(),
            final(self).count() == old(self).count() + (if old(self).zones().contains_key(
                encode_utf8(name@),
            ) {
                0int
            } else {
                1
            }),
    {
        self.suffix.insert(vstd::slice::slice_to_vec(name.as_str().as_bytes()), value);
    }

    pub fn insert_keyword(&mut self, keyword: String, value: T)
        ensures
            final(self).full() == old(self).full(),
            final(self).zones() == old(self).zones(),
            final(self).keywords() == old(self).keywords().push((keyword, value)),
            final(self).wildcards() == old(self).wildcards(),
            final(self).count() == old(self).count() + 1,
    {
        self.keyword.push((keyword, value));
    }

    pub fn insert_wildcard(&mut self, zone: String, value: T)
        ensures
            final(self).full() == old(self).full(),
            final(self).zones() == old(self).zones(),
            final(self).keywords() == old(self).keywords(),
            final(self).wildcards() == old(self).wildcards().push((zone, value)),
            final(self).count() == old(self).count() + 1,
    {
        self.wildcard.push((zone, value));
    }

    /// The number of patterns held, or `usize::MAX` when it does not fit.
    pub fn len(&self) -> (r: usize)
        ensures
            r == (if self.count() <= usize::MAX {
                self.count()
            } else {
                usize::MAX as nat
            }),
    {
        self.full.len().saturating_add(self.suffix.len()).saturating_add(
            self.keyword.len(),
        ).saturating_add(self.wildcard.len())
    }

    pub fn is_empty(&self) -> (r: bool)
        ensures
            r == (self.count() == 0),
    {
        self.full.len() == 0 && self.suffix.len() == 0 && self.keyword.len() == 0
            && self.wildcard.len() == 0
    }

    /// The exact entry of `name`, or else that of its nearest zone.
    pub fn lookup_specific(&self, name: &str) -> (r: Option<&T>)
        ensures
            match r {
                Some(v) => self.specific(name.spec_bytes()) == Some(*v),
                None => self.specific(name.spec_bytes()) is None,
            },
    {
        let b = name.as_bytes();
        match self.full.get(b) {
            Some(v) => {
                return Some(v);
            },
            None => {},
        }
        let ghost zones = self.suffix@;
        let mut p: usize = 0;
        while p <= b.len()
            invariant
                b@ == name.spec_bytes(),
                p <= b@.len(),
                zones == self.zones(),
                zones == self.suffix@,
                !self.full().contains_key(b@),
                forall|q: int|
                    #![trigger b@.skip(q)]
                    0 <= q < p && (q == 0 || b@[q - 1] == DOT) ==> !zones.contains_key(b@.skip(q)),
            decreases b@.len() + 1 - p,
        {
            if p == 0 || b[p - 1] == DOT {
                let candidate = slice_subrange(b, p, b.len());
                proof {
                    assert(candidate@ =~= b@.skip(p as int));
                }
                match self.suffix.get(candidate) {
                    Some(v) => {
                        proof {
                            let zone = b@.skip(p as int);
                            lemma_zone_by_position(b@, zone);
                            assert forall|other: Seq<u8>|
                                zones.contains_key(other) && in_zone(b@, other) implies other.len()
                                <= zone.len() by {
                                lemma_zone_by_position(b@, other);
                                let q = choose|q: int|
                                    #![trigger b@.skip(q)]
                                    0 <= q <= b@.len() && other == b@.skip(q) && (q == 0 || b@[q
                                        - 1] == DOT);
                                assert(q >= p);
                            }
                            lemma_nearest_zone_value(zones, b@, zone);
                        }
                        return Some(v);
                    },
                    None => {},
                }
            }
            if p == b.len() {
                proof {
                    assert forall|zone: Seq<u8>| !is_nearest_zone(zones, b@, zone) by {
                        if zones.contains_key(zone) && in_zone(b@, zone) {
                            lemma_zone_by_position(b@, zone);
                            let q = choose|q: int|
                                #![trigger b@.skip(q)]
                                0 <= q <= b@.len() && zone == b@.skip(q) && (q == 0 || b@[q - 1]
                                    == DOT);
                            assert(!zones.contains_key(b@.skip(q)));
                        }
                    }
                }
                return None;
            }
            p += 1;
        }
        None
    }

    /// Whether some pattern meets `name`.
    pub fn is_hit(&self, name: &str) -> (r: bool)
        ensures
            r == self.hits(name.spec_bytes()),
    {
        proof {
            reveal(DomainMatcher::hits);
        }
        self.lookup_specific(name).is_some() || self.lookup_fuzzy(name).is_some()
    }

    /// The first substring pattern in `name`, or else the first wildcard it meets.
    pub fn lookup_fuzzy(&self, name: &str) -> (r: Option<&T>)
        ensures
            match r {
                Some(v) => self.fuzzy(name.spec_bytes()) == Some(*v),
                None => self.fuzzy(name.spec_bytes()) is None,
            },
    {
        let b = name.as_bytes();
        let ghost by_keyword = |k: Seq<u8>| occurs(b@, k);
        let ghost by_wildcard = |z: Seq<u8>| one_below(b@, z);
        let mut i: usize = 0;
        proof {
            assert(self.keyword@.skip(0) =~= self.keyword@);
        }
        while i < self.keyword.len()
            invariant
                b@ == name.spec_bytes(),
                i <= self.keyword@.len(),
                by_keyword == (|k: Seq<u8>| occurs(b@, k)),
                first_hit(self.keyword@, by_keyword) == first_hit(
                    self.keyword@.skip(i as int),
                    by_keyword,
                ),
            decreases self.keyword@.len() - i,
        {
            proof {
                assert(self.keyword@.skip(i as int)[0] == self.keyword@[i as int]);
                assert(self.keyword@.skip(i as int).skip(1) =~= self.keyword@.skip(i + 1));
            }
            let e = &self.keyword[i];
            if contains_bytes(b, e.0.as_str().as_bytes()) {
                return Some(&e.1);
            }
            i += 1;
        }
        let mut j: usize = 0;
        proof {
            assert(self.wildcard@.skip(0) =~= self.wildcard@);
        }
        while j < self.wildcard.len()
            invariant
                b@ == name.spec_bytes(),
                j <= self.wildcard@.len(),
                by_wildcard == (|z: Seq<u8>| one_below(b@, z)),
                by_keyword == (|k: Seq<u8>| occurs(b@, k)),
                first_hit(self.keyword@, by_keyword) is None,
                first_hit(self.wildcard@, by_wildcard) == first_hit(
                    self.wildcard@.skip(j as int),
                    by_wildcard,
                ),
            decreases self.wildcard@.len() - j,
        {
            proof {
                assert(self.wildcard@.skip(j as int)[0] == self.wildcard@[j as int]);
                assert(self.wildcard@.skip(j as int).skip(1) =~= self.wildcard@.skip(j + 1));
            }
            let e = &self.wildcard[j];
            if is_one_below(b, e.0.as_str().as_bytes()) {
                return Some(&e.1);
            }
            j += 1;
        }
        None
    }
}

impl<T> Default for DomainMatcher<T> {
    fn default() -> (r: Self)
        ensures
            r.full() == Map::<Seq<u8>, T>::empty(),
            r.zones() == Map::<Seq<u8>, T>::empty(),
            r.keywords() == Seq::<(String, T)>::empty(),
            r.wildcards() == Seq::<(String, T)>::empty(),
            r.count() == 0,
    {
        Self::new()
    }
}

fn is_one_below(name: &[u8], zone: &[u8]) -> (r: bool)
    ensures
        r == one_below(name@, zone@),
{
    if name.len() <= zone.len() || name.len() - zone.len() <= 1 {
        return false;
    }
    let cut: usize = name.len() - zone.len() - 1;
    let tail_ok = name[cut] == DOT && has_suffix(name, zone);
    proof {
        let t = seq![DOT] + zone@;
        let end = name@.subrange(cut as int, name@.len() as int);
        if tail_ok {
            assert(t =~= end);
        }
        if t.is_suffix_of(name@) {
            assert(t =~= end);
            assert(end[0] == t[0]);
            assert(zone@ =~= name@.subrange(name@.len() - zone@.len(), name@.len() as int)) by {
                assert forall|i: int| 0 <= i < zone@.len() implies zone@[i] == name@.subrange(
                    name@.len() - zone@.len(),
                    name@.len() as int,
                )[i] by {
                    assert(t[i + 1] == end[i + 1]);
                }
            }
        }
        assert(name@.take(cut as int) =~= name@.subrange(0, cut as int));
    }
    tail_ok && !contains_byte(slice_subrange(name, 0, cut), DOT)
}

/// A name that a pattern means.
pub open spec fn meets(meaning: PatternMeaning, name: Seq<u8>) -> bool {
    match meaning {
        PatternMeaning::Zone(z) => in_zone(name, z),
        PatternMeaning::Name(n) => name == n,
        PatternMeaning::OneBelow(z) => one_below(name, z),
        PatternMeaning::Malformed => false,
    }
}

/// A name is under some zone exactly when it has a nearest one.
pub proof fn lemma_nearest_zone_exists<T>(zones: Map<Seq<u8>, T>, name: Seq<u8>)
    ensures
        nearest_zone_value(zones, name) is Some <==> exists|z: Seq<u8>|
            zones.contains_key(z) && #[trigger] in_zone(name, z),
{
    if exists|z: Seq<u8>| zones.contains_key(z) && #[trigger] in_zone(name, z) {
        let z = choose|z: Seq<u8>| zones.contains_key(z) && #[trigger] in_zone(name, z);
        lemma_climb_to_nearest(zones, name, z);
    }
    if exists|z: Seq<u8>| is_nearest_zone(zones, name, z) {
        let z = choose|z: Seq<u8>| is_nearest_zone(zones, name, z);
        assert(zones.contains_key(z) && in_zone(name, z));
    }
}

proof fn lemma_climb_to_nearest<T>(zones: Map<Seq<u8>, T>, name: Seq<u8>, z: Seq<u8>)
    requires
        zones.contains_key(z),
        in_zone(name, z),
    ensures
        exists|n: Seq<u8>| is_nearest_zone(zones, name, n),
    decreases name.len() - z.len(),
{
    if !is_nearest_zone(zones, name, z) {
        let other = choose|other: Seq<u8>|
            zones.contains_key(other) && in_zone(name, other) && !(other.len() <= z.len());
        lemma_zone_by_position(name, other);
        lemma_climb_to_nearest(zones, name, other);
    }
}

/// Some entry is hit exactly when a first one is.
pub proof fn lemma_first_hit_exists<T>(entries: Seq<(String, T)>, hit: spec_fn(Seq<u8>) -> bool)
    ensures
        first_hit(entries, hit) is Some <==> exists|i: int|
            0 <= i < entries.len() && hit(encode_utf8((#[trigger] entries[i]).0@)),
    decreases entries.len(),
{
    if entries.len() > 0 {
        let rest = entries.skip(1);
        lemma_first_hit_exists(rest, hit);
        if hit(encode_utf8(entries[0].0@)) {
        } else {
            if first_hit(rest, hit) is Some {
                let i = choose|i: int|
                    0 <= i < rest.len() && hit(encode_utf8((#[trigger] rest[i]).0@));
                assert(entries[i + 1] == rest[i]);
            }
            if exists|i: int| 0 <= i < entries.len() && hit(encode_utf8((#[trigger] entries[i]).0@)) {
                let i = choose|i: int|
                    0 <= i < entries.len() && hit(encode_utf8((#[trigger] entries[i]).0@));
                assert(rest[i - 1] == entries[i]);
            }
        }
    }
}

/// A matcher hits a name exactly when one of its patterns means that name.
pub proof fn law_hits_by_pattern<T>(m: DomainMatcher<T>, name: Seq<u8>)
    ensures
        m.hits(name) <==> {
            ||| m.full().contains_key(name)
            ||| exists|z: Seq<u8>| m.zones().contains_key(z) && #[trigger] in_zone(name, z)
            ||| exists|i: int|
                0 <= i < m.keywords().len() && occurs(
                    name,
                    encode_utf8((#[trigger] m.keywords()[i]).0@),
                )
            ||| exists|i: int|
                0 <= i < m.wildcards().len() && one_below(
                    name,
                    encode_utf8((#[trigger] m.wildcards()[i]).0@),
                )
        },
{
    reveal(DomainMatcher::hits);
    lemma_nearest_zone_exists(m.zones(), name);
    lemma_first_hit_exists(m.keywords(), |k: Seq<u8>| occurs(name, k));
    lemma_first_hit_exists(m.wildcards(), |z: Seq<u8>| one_below(name, z));
}

/// `after` is `before` with one more pattern. A name or zone that was there already counts once.
pub open spec fn with_pattern(
    before: DomainMatcher<()>,
    after: DomainMatcher<()>,
    meaning: PatternMeaning,
) -> bool {
    &&& after.full() == (match meaning {
        PatternMeaning::Name(n) => before.full().insert(n, ()),
        _ => before.full(),
    })
    &&& after.zones() == (match meaning {
        PatternMeaning::Zone(z) => before.zones().insert(z, ()),
        _ => before.zones(),
    })
    &&& after.keywords() == before.keywords()
    &&& match meaning {
        PatternMeaning::OneBelow(z) => {
            &&& after.wildcards().len() == before.wildcards().len() + 1
            &&& after.wildcards().drop_last() == before.wildcards()
            &&& encode_utf8(after.wildcards().last().0@) == z
        },
        _ => after.wildcards() == before.wildcards(),
    }
    &&& after.count() == before.count() + (match meaning {
        PatternMeaning::Name(n) => if before.full().contains_key(n) {
            0int
        } else {
            1
        },
        PatternMeaning::Zone(z) => if before.zones().contains_key(z) {
            0int
        } else {
            1
        },
        PatternMeaning::OneBelow(_) => 1,
        PatternMeaning::Malformed => 0,
    })
}

/// Adds the meaning of a pattern to a matcher; `false` when the pattern is malformed.
pub fn add_pattern(m: &mut DomainMatcher<()>, pattern: &str) -> (r: bool)
    ensures
        r == !(pattern_meaning(pattern.spec_bytes()) is Malformed),
        with_pattern(*old(m), *final(m), pattern_meaning(pattern.spec_bytes())),
        forall|name: Seq<u8>| #[trigger]
            final(m).hits(name) <==> old(m).hits(name) || meets(
                pattern_meaning(pattern.spec_bytes()),
                name,
            ),
{
    let ghost before = *m;
    let kind = classify_pattern(pattern);
    let ghost meaning = kind.meaning();
    let r = match kind {
        PatternKind::Suffix(n) => {
            m.insert_suffix(n, ());
            true
        },
        PatternKind::Full(n) => {
            m.insert_full(n, ());
            true
        },
        PatternKind::Wildcard(n) => {
            m.insert_wildcard(n, ());
            true
        },
        PatternKind::Invalid => false,
    };
    proof {
        let after = *m;
        assert(meaning is OneBelow ==> after.wildcards().drop_last() =~= before.wildcards());
        assert forall|name: Seq<u8>| #[trigger]
            after.hits(name) <==> before.hits(name) || meets(meaning, name) by {
            law_hits_by_pattern(before, name);
            law_hits_by_pattern(after, name);
            match meaning {
                PatternMeaning::Zone(z) => {
                    assert(after.zones().contains_key(z));
                    assert forall|q: Seq<u8>|
                        before.zones().contains_key(q) implies after.zones().contains_key(q) by {}
                },
                PatternMeaning::OneBelow(z) => {
                    let w = before.wildcards();
                    let v = after.wildcards();
                    assert(v[w.len() as int].0@ == v.last().0@);
                    assert forall|i: int| 0 <= i < w.len() implies v[i] == #[trigger] w[i] by {}
                },
                _ => {},
            }
        }
    }
    r
}

/// A zone holds the name itself and every name made by putting labels in front of it.
pub proof fn law_zone_holds_subdomains(zone: Seq<u8>, labels: Seq<u8>)
    ensures
        in_zone(zone, zone),
        in_zone(labels + seq![DOT] + zone, zone),
{
    let name = labels + seq![DOT] + zone;
    assert(seq![DOT] + zone =~= name.subrange(
        name.len() - (zone.len() + 1),
        name.len() as int,
    ));
}

/// A name below a zone is one with a dot right in front of the zone: text that merely ends in
/// the same letters is not in the zone.
pub proof fn law_zone_respects_labels(zone: Seq<u8>, front: Seq<u8>)
    requires
        front.len() > 0,
        front.last() != DOT,
    ensures
        !in_zone(front + zone, zone),
{
    let name = front + zone;
    if (seq![DOT] + zone).is_suffix_of(name) {
        let t = seq![DOT] + zone;
        assert(name.subrange(name.len() - t.len(), name.len() as int)[0] == t[0]);
        assert(name[name.len() - t.len()] == front.last());
    }
    assert(name.len() > zone.len());
}

/// Normalizing a normalized name changes nothing.
pub proof fn law_normal_form_is_stable(s: Seq<u8>)
    requires
        normal_form(s) is Some,
    ensures
        normal_form(normal_form(s)->0) == normal_form(s),
{
    let t = without_root_dot(s);
    let n = lower_bytes(t);
    assert(forall|i: int| 0 <= i < t.len() ==> (#[trigger] n[i] == DOT <==> t[i] == DOT));
    assert(n.last() == n[n.len() - 1]);
    assert(t.last() == t[t.len() - 1]);
    assert(without_root_dot(n) == n);
    assert(lower_bytes(n) =~= n);
    if has_empty_label(n) {
        let i = choose|i: int| 0 <= i && i + 1 < n.len() && #[trigger] n[i] == DOT && n[i + 1] == DOT;
        assert(t[i] == DOT && t[i + 1] == DOT);
    }
}

// What patterns mean.

/// A name in lower case, without empty labels and without wildcards.
pub open spec fn is_plain(s: Seq<u8>) -> bool {
    &&& s.len() > 0
    &&& s[0] != 46
    &&& s[s.len() - 1] != 46
    &&& forall|i: int| 0 <= i < s.len() ==> {
        &&& #[trigger] s[i] != 42
        &&& !(65 <= s[i] <= 90)
        &&& s[i] == 46 && i + 1 < s.len() ==> s[i + 1] != 46
    }
}

proof fn lemma_plain_is_its_normal_form(z: Seq<u8>)
    requires
        is_plain(z),
    ensures
        plain_name(z) == Some(z),
{
    assert(!has_byte(z, STAR));
    assert(without_root_dot(z) == z);
    assert(!has_empty_label(z));
    assert(lower_bytes(z) =~= z);
}

/// A zone pattern, in either of its two forms, is met by the name and by everything that ends in a
/// dot and the name, and by nothing else.
pub proof fn law_zone_pattern(z: Seq<u8>, name: Seq<u8>)
    requires
        is_plain(z),
    ensures
        meets(pattern_meaning(seq![43u8, 46u8] + z), name) <==> name == z || exists|front: Seq<u8>|
            name == #[trigger] (front + seq![46u8] + z),
        meets(pattern_meaning(seq![46u8] + z), name) <==> meets(
            pattern_meaning(seq![43u8, 46u8] + z),
            name,
        ),
{
    let plus = seq![43u8, 46u8] + z;
    let dot = seq![46u8] + z;
    lemma_plain_is_its_normal_form(z);
    assert(plus.skip(2) =~= z);
    assert(dot.skip(1) =~= z);
    assert(plus[0] == PLUS && plus[1] == DOT && dot[0] == DOT);
    let tail = seq![DOT] + z;
    if tail.is_suffix_of(name) {
        let front = name.take(name.len() - tail.len());
        assert(name =~= front + seq![46u8] + z);
    }
    if exists|front: Seq<u8>| name == #[trigger] (front + seq![46u8] + z) {
        let front = choose|front: Seq<u8>| name == #[trigger] (front + seq![46u8] + z);
        assert(name.subrange(name.len() - tail.len(), name.len() as int) =~= tail);
        assert(tail.is_suffix_of(name));
    }
}

/// A wildcard pattern is met by exactly the names one label below: one non-empty label without
/// dots, a dot, and the name.
pub proof fn law_wildcard_pattern(z: Seq<u8>, label: Seq<u8>, name: Seq<u8>)
    requires
        is_plain(z),
    ensures
        meets(pattern_meaning(seq![42u8, 46u8] + z), label + seq![46u8] + z) <==> label.len() > 0
            && forall|i: int| 0 <= i < label.len() ==> #[trigger] label[i] != 46,
        meets(pattern_meaning(seq![42u8, 46u8] + z), name) ==> exists|front: Seq<u8>|
            name == #[trigger] (front + seq![46u8] + z),
{
    let star = seq![42u8, 46u8] + z;
    lemma_plain_is_its_normal_form(z);
    assert(star.skip(2) =~= z);
    assert(star[0] == STAR && star[1] == DOT);
    let tail = seq![DOT] + z;
    let below = label + seq![46u8] + z;
    assert(below.subrange(below.len() - tail.len(), below.len() as int) =~= tail);
    assert(tail.is_suffix_of(below));
    assert(below.take(below.len() - z.len() - 1) =~= label);
    if meets(pattern_meaning(star), name) {
        assert(one_below(name, z));
        let cut = name.len() - tail.len();
        let front = name.take(cut);
        assert(tail == name.subrange(cut, name.len() as int));
        assert(name =~= front + tail);
        assert(front + tail =~= front + seq![46u8] + z);
    }
}

/// A plain name as a pattern is met by that name alone.
pub proof fn law_exact_pattern(z: Seq<u8>, name: Seq<u8>)
    requires
        is_plain(z),
        !(z.len() >= 2 && z[0] == 43 && z[1] == 46),
    ensures
        meets(pattern_meaning(z), name) <==> name == z,
{
    lemma_plain_is_its_normal_form(z);
}

proof fn lemma_same_lower(p: Seq<u8>, q: Seq<u8>)
    requires
        lower_bytes(p) == lower_bytes(q),
    ensures
        p.len() == q.len(),
        forall|i: int| 0 <= i < p.len() ==> #[trigger] lower_byte(p[i]) == lower_byte(q[i]),
{
    let a = lower_bytes(p);
    let b = lower_bytes(q);
    assert(a.len() == p.len());
    assert(b.len() == q.len());
    assert forall|i: int| 0 <= i < p.len() implies #[trigger] lower_byte(p[i]) == lower_byte(
        q[i],
    ) by {
        assert(a[i] == lower_byte(p[i]));
        assert(b[i] == lower_byte(q[i]));
    }
}

proof fn lemma_case_keeps_marks(p: Seq<u8>, q: Seq<u8>)
    requires
        lower_bytes(p) == lower_bytes(q),
    ensures
        p.len() == q.len(),
        forall|i: int| 0 <= i < p.len() && (#[trigger] p[i] == 42 || p[i] == 43 || p[i] == 46)
            ==> q[i] == p[i],
        forall|i: int| 0 <= i < p.len() && (#[trigger] q[i] == 42 || q[i] == 43 || q[i] == 46)
            ==> q[i] == p[i],
{
    lemma_same_lower(p, q);
    assert forall|i: int| 0 <= i < p.len() && (#[trigger] p[i] == 42 || p[i] == 43 || p[i]
        == 46) implies q[i] == p[i] by {
        assert(lower_byte(p[i]) == lower_byte(q[i]));
    }
    assert forall|i: int| 0 <= i < p.len() && (#[trigger] q[i] == 42 || q[i] == 43 || q[i]
        == 46) implies q[i] == p[i] by {
        assert(lower_byte(p[i]) == lower_byte(q[i]));
    }
}

proof fn lemma_case_of_plain_name(p: Seq<u8>, q: Seq<u8>)
    requires
        lower_bytes(p) == lower_bytes(q),
    ensures
        plain_name(p) == plain_name(q),
{
    lemma_case_keeps_marks(p, q);
    if has_byte(p, STAR) {
        let i = choose|i: int| 0 <= i < p.len() && p[i] == STAR;
        assert(q[i] == STAR);
    }
    if has_byte(q, STAR) {
        let i = choose|i: int| 0 <= i < q.len() && q[i] == STAR;
        assert(p[i] == STAR);
    }
    let a = without_root_dot(p);
    let b = without_root_dot(q);
    assert(p.len() > 0 ==> (p[p.len() - 1] == 46 <==> q[q.len() - 1] == 46));
    assert(lower_bytes(a) =~= lower_bytes(b)) by {
        lemma_same_lower(p, q);
        assert forall|i: int| 0 <= i < a.len() implies lower_bytes(a)[i] == lower_bytes(b)[i] by {
            assert(a[i] == p[i] && b[i] == q[i]);
            assert(lower_byte(p[i]) == lower_byte(q[i]));
        }
    }
    lemma_case_keeps_marks(a, b);
    if has_empty_label(a) && a.len() > 0 && a[0] != DOT && a.last() != DOT {
        let i = choose|i: int|
            0 <= i && i + 1 < a.len() && #[trigger] a[i] == DOT && a[i + 1] == DOT;
        assert(b[i] == DOT && b[i + 1] == DOT);
    }
    if has_empty_label(b) && b.len() > 0 && b[0] != DOT && b.last() != DOT {
        let i = choose|i: int|
            0 <= i && i + 1 < b.len() && #[trigger] b[i] == DOT && b[i + 1] == DOT;
        assert(a[i] == DOT && a[i + 1] == DOT);
    }
    assert(has_empty_label(a) <==> has_empty_label(b));
}

/// The case of letters in a pattern makes no difference to what it means.
pub proof fn law_patterns_ignore_case(p: Seq<u8>, q: Seq<u8>)
    requires
        lower_bytes(p) == lower_bytes(q),
    ensures
        pattern_meaning(p) == pattern_meaning(q),
        normal_form(p) == normal_form(q) || has_byte(p, STAR),
{
    lemma_case_keeps_marks(p, q);
    lemma_case_of_plain_name(p, q);
    if p.len() >= 1 {
        assert(lower_bytes(p.skip(1)) =~= lower_bytes(q.skip(1))) by {
            lemma_same_lower(p, q);
            assert forall|i: int| 0 <= i < p.len() - 1 implies lower_bytes(p.skip(1))[i]
                == lower_bytes(q.skip(1))[i] by {
                assert(p.skip(1)[i] == p[i + 1] && q.skip(1)[i] == q[i + 1]);
                assert(lower_byte(p[i + 1]) == lower_byte(q[i + 1]));
            }
        }
        lemma_case_of_plain_name(p.skip(1), q.skip(1));
    }
    if p.len() >= 2 {
        assert(lower_bytes(p.skip(2)) =~= lower_bytes(q.skip(2))) by {
            lemma_same_lower(p, q);
            assert forall|i: int| 0 <= i < p.len() - 2 implies lower_bytes(p.skip(2))[i]
                == lower_bytes(q.skip(2))[i] by {
                assert(p.skip(2)[i] == p[i + 2] && q.skip(2)[i] == q[i + 2]);
                assert(lower_byte(p[i + 2]) == lower_byte(q[i + 2]));
            }
        }
        lemma_case_of_plain_name(p.skip(2), q.skip(2));
    }
}

/// A name is normalized to lower case without its root dot, whether it is written with one or not;
/// a text with an empty label, and the empty text, is no name.
pub proof fn law_root_dot_is_optional(s: Seq<u8>, i: int)
    ensures
        s.len() > 0 && s[s.len() - 1] != 46 ==> normal_form(s.push(46)) == normal_form(s),
        normal_form(s) matches Some(n) ==> {
            &&& n.len() > 0
            &&& n[0] != 46 && n[n.len() - 1] != 46
            &&& 0 <= i < n.len() ==> !(65 <= n[i] <= 90) && lower_byte(s[i]) == n[i]
            &&& 0 <= i && i + 1 < n.len() && n[i] == 46 ==> n[i + 1] != 46
            &&& n.len() == s.len() || (n.len() + 1 == s.len() && s[s.len() - 1] == 46)
        },
        normal_form(Seq::empty()) is None,
        normal_form(seq![46u8]) is None,
{
    assert(s.push(46).drop_last() =~= s);
    let w = without_root_dot(s);
    if let Some(n) = normal_form(s) {
        assert(n.len() == w.len());
        assert(n[0] == lower_byte(w[0]));
        assert(n[n.len() - 1] == lower_byte(w.last()));
        if 0 <= i < n.len() {
            assert(n[i] == lower_byte(w[i]) && w[i] == s[i]);
            if i + 1 < n.len() {
                assert(n[i + 1] == lower_byte(w[i + 1]));
                if w[i] == DOT && w[i + 1] == DOT {
                    assert(has_empty_label(w));
                }
            }
        }
    }
    assert(seq![46u8].drop_last() =~= Seq::<u8>::empty());
}

/// An exact entry comes before every zone, and of the zones that hold a name the longest counts.
pub proof fn law_most_specific_entry_counts<T>(m: DomainMatcher<T>, name: Seq<u8>, zone: Seq<u8>)
    ensures
        m.full().contains_key(name) ==> m.specific(name) == Some(m.full()[name]),
        !m.full().contains_key(name) && m.zones().contains_key(zone) && in_zone(name, zone)
            && (forall|other: Seq<u8>|
            #![trigger m.zones().contains_key(other)]
            m.zones().contains_key(other) && in_zone(name, other) ==> other.len() <= zone.len())
            ==> m.specific(name) == Some(m.zones()[zone]),
        !m.full().contains_key(name) && (forall|other: Seq<u8>| #[trigger]
            m.zones().contains_key(other) ==> !in_zone(name, other)) ==> m.specific(name) is None,
{
    lemma_nearest_zone_exists(m.zones(), name);
    if !m.full().contains_key(name) && m.zones().contains_key(zone) && in_zone(name, zone) && (
    forall|other: Seq<u8>|
        #![trigger m.zones().contains_key(other)]
        m.zones().contains_key(other) && in_zone(name, other) ==> other.len() <= zone.len()) {
        assert(is_nearest_zone(m.zones(), name, zone));
        lemma_nearest_zone_value(m.zones(), name, zone);
    }
}

/// Among entries that are tried in turn, an entry counts when it is hit and none before it is.
pub proof fn law_first_hit_counts<T>(
    entries: Seq<(String, T)>,
    hit: spec_fn(Seq<u8>) -> bool,
    at: int,
)
    requires
        0 <= at < entries.len(),
        hit(encode_utf8(entries[at].0@)),
        forall|i: int| 0 <= i < at ==> !hit(encode_utf8((#[trigger] entries[i]).0@)),
    ensures
        first_hit(entries, hit) == Some(entries[at].1),
    decreases at,
{
    if at > 0 {
        let rest = entries.skip(1);
        assert(!hit(encode_utf8(entries[0].0@)));
        assert forall|i: int| 0 <= i < at - 1 implies !hit(
            encode_utf8((#[trigger] rest[i]).0@),
        ) by {
            assert(rest[i] == entries[i + 1]);
        }
        law_first_hit_counts(rest, hit, at - 1);
    }
}

} // verus!
