//! Compiled routing index.
//!
//! A rule with an empty matcher list is a catch-all. Any other rule is compiled into a match
//! entry: its domain patterns become one [`DomainMatcher`] and its tag expressions become groups
//! of numbered tags. Routing a name gives the first rule, in order, whose matcher list holds an
//! entry that the name meets.
//!
//! Tag lookups are memoized per name, and decisions are cached per name.

use crate::config::RuleMatcher;
use crate::domain::{add_pattern, meets, pattern_meaning, DomainMatcher};
use crate::ruleset::RuleSetDb;
use crate::server::Rule;
use crate::small::IdList;
use crate::tag_ids::{intern_all, lemma_numbers_grow, lemma_prefix_trans, numbers};
use crate::tag_memo::TagMemo;
use quick_cache::sync::{Cache, DefaultLifecycle};
use quick_cache::UnitWeighter;
use rustc_hash::FxBuildHasher;
use vstd::prelude::*;
use vstd::string::StringSliceAdditionalSpecFns;
use vstd::utf8::encode_utf8;
verus! {

/// Smallest capacity of the decision cache.
pub const ROUTE_CACHE_MIN_CAPACITY: u64 = 4_096;

/// Cached stand-in for "no rule matches".
pub const NO_RULE: usize = usize::MAX;

// Tag memo.

impl TagMemo {
    /// Whether `qname` is in the domain set of a tag, from the memo when the tag was looked up
    /// before.
    pub fn check(&mut self, rs: &RuleSetDb, tag_id: usize, tag_name: &str, qname: &str) -> (r: bool)
        requires
            old(self).knows(tag_id as int) ==> old(self).recalls(tag_id as int) == rs.has_name(
                tag_name.spec_bytes(),
                qname.spec_bytes(),
            ),
        ensures
            r == rs.has_name(tag_name.spec_bytes(), qname.spec_bytes()),
            final(self).is_with(*old(self), tag_id as int, r),
    {
        match self.get(tag_id) {
            Some(v) => v,
            None => {
                let v = rs.matches(tag_name, qname);
                self.put(tag_id, v);
                v
            },
        }
    }
}

// Matching.

/// `qname` meets a tag expression.
pub open spec fn tags_meet(
    includes: Seq<String>,
    excludes: Seq<String>,
    name: Seq<u8>,
    db: RuleSetDb,
) -> bool {
    &&& includes.len() == 0 || exists|i: int|
        0 <= i < includes.len() && db.has_name(encode_utf8((#[trigger] includes[i])@), name)
    &&& forall|i: int|
        0 <= i < excludes.len() ==> !db.has_name(encode_utf8((#[trigger] excludes[i])@), name)
}

/// `name` meets one entry of a matcher list. Without a database no tag expression is met.
pub open spec fn matcher_meets(m: RuleMatcher, name: Seq<u8>, db: Option<&RuleSetDb>) -> bool {
    match m {
        RuleMatcher::Domain(p) => meets(pattern_meaning(encode_utf8(p@)), name),
        RuleMatcher::Tag { includes, excludes } => match db {
            Some(db) => tags_meet(includes@, excludes@, name, *db),
            None => false,
        },
    }
}

/// `name` meets a matcher list: an empty list, or one of its entries.
pub open spec fn list_meets(list: Seq<RuleMatcher>, name: Seq<u8>, db: Option<&RuleSetDb>) -> bool {
    list.len() == 0 || exists|i: int|
        0 <= i < list.len() && matcher_meets(#[trigger] list[i], name, db)
}

/// Position of the first rule that `name` meets, by a scan from the top.
pub open spec fn first_rule(rules: Seq<Rule>, name: Seq<u8>, db: Option<&RuleSetDb>) -> Option<
    int,
>
    decreases rules.len(),
{
    if rules.len() == 0 {
        None
    } else {
        match first_rule(rules.drop_last(), name, db) {
            Some(i) => Some(i),
            None => if list_meets(rules.last().matcher@, name, db) {
                Some(rules.len() - 1)
            } else {
                None
            },
        }
    }
}

/// A scan finds the rule that is met while none before it is.
pub proof fn law_first_rule(
    rules: Seq<Rule>,
    name: Seq<u8>,
    db: Option<&RuleSetDb>,
)
    ensures
        match first_rule(rules, name, db) {
            Some(i) => {
                &&& 0 <= i < rules.len()
                &&& list_meets(rules[i].matcher@, name, db)
                &&& forall|j: int| 0 <= j < i ==> !list_meets(#[trigger] rules[j].matcher@, name, db)
            },
            None => forall|j: int|
                0 <= j < rules.len() ==> !list_meets(#[trigger] rules[j].matcher@, name, db),
        },
    decreases rules.len(),
{
    if rules.len() > 0 {
        let front = rules.drop_last();
        law_first_rule(front, name, db);
        assert forall|j: int| 0 <= j < front.len() implies front[j] == #[trigger] rules[j] by {}
    }
}

proof fn lemma_first_rule_is(
    rules: Seq<Rule>,
    name: Seq<u8>,
    db: Option<&RuleSetDb>,
    i: int,
)
    requires
        0 <= i < rules.len(),
        list_meets(rules[i].matcher@, name, db),
        forall|j: int| 0 <= j < i ==> !list_meets(#[trigger] rules[j].matcher@, name, db),
    ensures
        first_rule(rules, name, db) == Some(i),
{
    law_first_rule(rules, name, db);
    match first_rule(rules, name, db) {
        Some(k) => {
            if k < i {
                assert(!list_meets(rules[k].matcher@, name, db));
            } else if i < k {
                assert(!list_meets(rules[i].matcher@, name, db));
            }
        },
        None => {
            assert(!list_meets(rules[i].matcher@, name, db));
        },
    }
}

// Index.

/// One tag expression, by tag numbers.
struct TagGroup {
    include_ids: IdList,
    exclude_ids: IdList,
}

/// A rule with a non-empty matcher list, compiled.
struct MatchEntry {
    rule_idx: usize,
    domains: DomainMatcher<()>,
    tags: Vec<TagGroup>,
}

/// The tag expressions among the first `n` entries of a matcher list, in order.
spec fn tag_lists(list: Seq<RuleMatcher>, n: int) -> Seq<(Seq<String>, Seq<String>)>
    decreases n,
{
    if n <= 0 {
        Seq::empty()
    } else {
        match list[n - 1] {
            RuleMatcher::Domain(_) => tag_lists(list, n - 1),
            RuleMatcher::Tag { includes, excludes } => tag_lists(list, n - 1).push(
                (includes@, excludes@),
            ),
        }
    }
}

/// One of the first `n` entries of a matcher list is a domain pattern that means `name`.
spec fn domain_meets(list: Seq<RuleMatcher>, n: int, name: Seq<u8>) -> bool {
    exists|i: int|
        0 <= i < n && (#[trigger] list[i]) is Domain && meets(
            pattern_meaning(encode_utf8(list[i]->Domain_0@)),
            name,
        )
}

/// The groups stand for the tag expressions, in order.
spec fn groups_stand_for(
    groups: Seq<TagGroup>,
    lists: Seq<(Seq<String>, Seq<String>)>,
    names: Seq<String>,
) -> bool {
    &&& groups.len() == lists.len()
    &&& forall|i: int|
        0 <= i < groups.len() ==> numbers((#[trigger] groups[i]).include_ids@, lists[i].0, names)
            && numbers(groups[i].exclude_ids@, lists[i].1, names)
}

/// `entry` is the compiled form of a matcher list.
spec fn compiles(entry: MatchEntry, list: Seq<RuleMatcher>, names: Seq<String>) -> bool {
    &&& forall|name: Seq<u8>| #[trigger]
        entry.domains.hits(name) <==> domain_meets(list, list.len() as int, name)
    &&& groups_stand_for(entry.tags@, tag_lists(list, list.len() as int), names)
}

/// Decision cache: name to rule position.
type RouteCache = Cache<
    String,
    usize,
    UnitWeighter,
    FxBuildHasher,
    DefaultLifecycle<String, usize>,
>;

/// The decisions that a cache holds.
pub uninterp spec fn cached_routes(
    cache: Cache<String, usize, UnitWeighter, FxBuildHasher, DefaultLifecycle<String, usize>>,
) -> Map<Seq<char>, usize>;

/// The capacity that a cache was made with.
pub uninterp spec fn route_cache_limit(
    cache: Cache<String, usize, UnitWeighter, FxBuildHasher, DefaultLifecycle<String, usize>>,
) -> u64;

/// `quick_cache::sync::Cache::with`: an empty cache for `capacity` entries of weight one.
#[verifier::external_body]
fn new_route_cache(capacity: u64) -> (r: RouteCache)
    ensures
        forall|k: Seq<char>| !cached_routes(r).contains_key(k),
        route_cache_limit(r) == capacity,
{
    Cache::with(
        capacity as usize,
        capacity,
        UnitWeighter,
        FxBuildHasher,
        DefaultLifecycle::default(),
    )
}

/// `quick_cache::sync::Cache::get`: the value held under the key.
#[verifier::external_body]
fn cached_route(cache: &RouteCache, name: &str) -> (r: Option<usize>)
    ensures
        r == (if cached_routes(*cache).contains_key(name@) {
            Some(cached_routes(*cache)[name@])
        } else {
            None
        }),
{
    cache.get(name)
}

/// `quick_cache::sync::Cache::insert`: afterwards the cache holds nothing but earlier entries
/// under other keys and the new entry. Which of them it keeps is up to its eviction, and is left
/// open.
#[verifier::external_body]
fn cache_route(cache: &mut RouteCache, name: String, idx: usize)
    ensures
        cached_routes(*final(cache)).submap_of(cached_routes(*old(cache)).insert(name@, idx)),
        route_cache_limit(*final(cache)) == route_cache_limit(*old(cache)),
{
    cache.insert(name, idx);
}

/// Compiled routing rules.
pub struct RouteIndex {
    match_entries: Vec<MatchEntry>,
    catch_all_idx: Option<usize>,
    needs_ruleset: bool,
    constant_route: Option<Option<usize>>,
    tag_names: Vec<String>,
    num_tags: usize,
    route_cache: RouteCache,
}

/// The rule is a catch-all.
pub open spec fn is_catch_all(rule: Rule) -> bool {
    rule.matcher@.len() == 0
}

/// Position of the first catch-all.
pub open spec fn first_catch_all(rules: Seq<Rule>) -> Option<int>
    decreases rules.len(),
{
    if rules.len() == 0 {
        None
    } else {
        match first_catch_all(rules.drop_last()) {
            Some(i) => Some(i),
            None => if is_catch_all(rules.last()) {
                Some(rules.len() - 1)
            } else {
                None
            },
        }
    }
}

proof fn lemma_first_catch_all(rules: Seq<Rule>)
    ensures
        match first_catch_all(rules) {
            Some(i) => {
                &&& 0 <= i < rules.len()
                &&& is_catch_all(rules[i])
                &&& forall|j: int| 0 <= j < i ==> !is_catch_all(#[trigger] rules[j])
            },
            None => forall|j: int| 0 <= j < rules.len() ==> !is_catch_all(#[trigger] rules[j]),
        },
    decreases rules.len(),
{
    if rules.len() > 0 {
        let front = rules.drop_last();
        lemma_first_catch_all(front);
        assert forall|j: int| 0 <= j < front.len() implies front[j] == #[trigger] rules[j] by {}
    }
}

/// Every name takes the same route: the first rule is a catch-all, or all of them are.
pub open spec fn constant_decision(rules: Seq<Rule>) -> Option<Option<int>> {
    if first_catch_all(rules) == Some(0int) || forall|i: int|
        0 <= i < rules.len() ==> is_catch_all(#[trigger] rules[i]) {
        Some(first_catch_all(rules))
    } else {
        None
    }
}

/// Some rule holds a tag expression.
pub open spec fn uses_tags(rules: Seq<Rule>) -> bool {
    exists|i: int, j: int|
        #![trigger rules[i].matcher@[j]]
        0 <= i < rules.len() && 0 <= j < rules[i].matcher@.len() && rules[i].matcher@[j] is Tag
}

/// A position in the form in which it is cached.
pub open spec fn route_number(r: Option<int>) -> usize {
    match r {
        Some(i) => i as usize,
        None => NO_RULE,
    }
}

impl RouteIndex {
    /// The entries are those of the first `n` rules that are no catch-all, in order.
    spec fn entries_cover(
        entries: Seq<MatchEntry>,
        rules: Seq<Rule>,
        n: int,
        names: Seq<String>,
    ) -> bool {
        &&& forall|e: int|
            0 <= e < entries.len() ==> {
                let idx = (#[trigger] entries[e]).rule_idx as int;
                &&& 0 <= idx < n
                &&& !is_catch_all(rules[idx])
                &&& compiles(entries[e], rules[idx].matcher@, names)
            }
        &&& forall|e: int, f: int|
            0 <= e < f < entries.len() ==> (#[trigger] entries[e]).rule_idx < (
            #[trigger] entries[f]).rule_idx
        &&& forall|i: int|
            0 <= i < n && !is_catch_all(#[trigger] rules[i]) ==> exists|e: int|
                0 <= e < entries.len() && (#[trigger] entries[e]).rule_idx == i
    }

    /// The index was built from these rules.
    pub closed spec fn describes(self, rules: Seq<Rule>) -> bool {
        &&& Self::entries_cover(
            self.match_entries@,
            rules,
            rules.len() as int,
            self.tag_names@,
        )
        &&& self.catch_all_idx == (match first_catch_all(rules) {
            Some(i) => Some(i as usize),
            None => None,
        })
        &&& self.needs_ruleset == uses_tags(rules)
        &&& self.constant_route == (match constant_decision(rules) {
            Some(Some(i)) => Some(Some(i as usize)),
            Some(None) => Some(None),
            None => None,
        })
        &&& self.num_tags == self.tag_names@.len()
        &&& rules.len() <= usize::MAX
    }

    /// Every cached decision is the one that a scan makes with this database.
    pub closed spec fn cache_agrees(self, rules: Seq<Rule>, db: Option<&RuleSetDb>) -> bool {
        db is Some || !uses_tags(rules) ==> forall|k: Seq<char>|
            #[trigger] cached_routes(self.route_cache).contains_key(k) ==> cached_routes(
                self.route_cache,
            )[k] == route_number(first_rule(rules, encode_utf8(k), db))
    }

    /// Capacity of the decision cache.
    pub closed spec fn cache_limit(self) -> u64 {
        route_cache_limit(self.route_cache)
    }
}

// Building.

proof fn lemma_groups_grow(
    groups: Seq<TagGroup>,
    lists: Seq<(Seq<String>, Seq<String>)>,
    a: Seq<String>,
    b: Seq<String>,
)
    requires
        groups_stand_for(groups, lists, a),
        a.is_prefix_of(b),
    ensures
        groups_stand_for(groups, lists, b),
{
    assert forall|i: int| 0 <= i < groups.len() implies numbers(
        (#[trigger] groups[i]).include_ids@,
        lists[i].0,
        b,
    ) && numbers(groups[i].exclude_ids@, lists[i].1, b) by {
        lemma_numbers_grow(groups[i].include_ids@, lists[i].0, a, b);
        lemma_numbers_grow(groups[i].exclude_ids@, lists[i].1, a, b);
    }
}

proof fn lemma_domain_step(list: Seq<RuleMatcher>, i: int, name: Seq<u8>)
    requires
        0 <= i < list.len(),
    ensures
        domain_meets(list, i + 1, name) <==> domain_meets(list, i, name) || (list[i] is Domain
            && meets(pattern_meaning(encode_utf8(list[i]->Domain_0@)), name)),
{
    if domain_meets(list, i + 1, name) {
        let k = choose|k: int|
            0 <= k < i + 1 && (#[trigger] list[k]) is Domain && meets(
                pattern_meaning(encode_utf8(list[k]->Domain_0@)),
                name,
            );
        assert(k < i || k == i);
    }
}

fn compile_list(rule_idx: usize, list: &Vec<RuleMatcher>, names: &mut Vec<String>) -> (r: MatchEntry)
    ensures
        old(names)@.is_prefix_of(final(names)@),
        r.rule_idx == rule_idx,
        compiles(r, list@, final(names)@),
{
    let mut domains: DomainMatcher<()> = DomainMatcher::new();
    let mut tags: Vec<TagGroup> = Vec::new();
    let mut i: usize = 0;
    proof {
        assert(old(names)@ =~= names@.subrange(0, old(names)@.len() as int));
        assert forall|name: Seq<u8>| #[trigger]
            domains.hits(name) <==> domain_meets(list@, 0, name) by {
            crate::domain::law_hits_by_pattern(domains, name);
        }
    }
    while i < list.len()
        invariant
            i <= list@.len(),
            old(names)@.is_prefix_of(names@),
            forall|name: Seq<u8>| #[trigger]
                domains.hits(name) <==> domain_meets(list@, i as int, name),
            groups_stand_for(tags@, tag_lists(list@, i as int), names@),
        decreases list@.len() - i,
    {
        let ghost domains0 = domains;
        let ghost names0 = names@;
        let ghost tags0 = tags@;
        let ghost lists0 = tag_lists(list@, i as int);
        match &list[i] {
            RuleMatcher::Domain(pattern) => {
                let _kept = add_pattern(&mut domains, pattern.as_str());
            },
            RuleMatcher::Tag { includes, excludes } => {
                let include_ids = intern_all(names, includes);
                let ghost names1 = names@;
                let exclude_ids = intern_all(names, excludes);
                proof {
                    lemma_numbers_grow(include_ids@, includes@, names1, names@);
                    lemma_prefix_trans(names0, names1, names@);
                    lemma_prefix_trans(old(names)@, names0, names@);
                    lemma_groups_grow(tags0, lists0, names0, names@);
                }
                tags.push(TagGroup { include_ids, exclude_ids });
            },
        }
        proof {
            assert forall|name: Seq<u8>| #[trigger]
                domains.hits(name) <==> domain_meets(list@, i + 1, name) by {
                assert(domains0.hits(name) <==> domain_meets(list@, i as int, name));
                lemma_domain_step(list@, i as int, name);
            }
        }
        i += 1;
    }
    MatchEntry { rule_idx, domains, tags }
}

proof fn lemma_tag_lists_nonempty(list: Seq<RuleMatcher>, n: int)
    requires
        0 <= n <= list.len(),
    ensures
        tag_lists(list, n).len() > 0 <==> exists|j: int| 0 <= j < n && (#[trigger] list[j]) is Tag,
    decreases n,
{
    if n > 0 {
        lemma_tag_lists_nonempty(list, n - 1);
        if list[n - 1] is Tag {
            assert(list[n - 1] is Tag);
        } else if exists|j: int| 0 <= j < n && (#[trigger] list[j]) is Tag {
            let j = choose|j: int| 0 <= j < n && (#[trigger] list[j]) is Tag;
            assert(j < n - 1);
        }
    }
}

proof fn lemma_first_catch_all_step(rules: Seq<Rule>, n: int)
    requires
        0 <= n < rules.len(),
    ensures
        first_catch_all(rules.take(n + 1)) == (match first_catch_all(rules.take(n)) {
            Some(i) => Some(i),
            None => if is_catch_all(rules[n]) {
                Some(n)
            } else {
                None
            },
        }),
{
    assert(rules.take(n + 1).drop_last() =~= rules.take(n));
    assert(rules.take(n + 1).last() == rules[n]);
}

fn any_tags(entries: &Vec<MatchEntry>) -> (r: bool)
    ensures
        r == exists|e: int| 0 <= e < entries@.len() && (#[trigger] entries@[e]).tags@.len() > 0,
{
    let mut i: usize = 0;
    while i < entries.len()
        invariant
            i <= entries@.len(),
            forall|e: int| 0 <= e < i ==> (#[trigger] entries@[e]).tags@.len() == 0,
        decreases entries@.len() - i,
    {
        if entries[i].tags.len() > 0 {
            assert(entries@[i as int].tags@.len() > 0);
            return true;
        }
        i += 1;
    }
    false
}

impl RouteIndex {
    proof fn lemma_entries_grow(
        entries: Seq<MatchEntry>,
        rules: Seq<Rule>,
        n: int,
        a: Seq<String>,
        b: Seq<String>,
    )
        requires
            Self::entries_cover(entries, rules, n, a),
            a.is_prefix_of(b),
        ensures
            Self::entries_cover(entries, rules, n, b),
    {
        assert forall|e: int| 0 <= e < entries.len() implies {
            let idx = (#[trigger] entries[e]).rule_idx as int;
            &&& 0 <= idx < n
            &&& !is_catch_all(rules[idx])
            &&& compiles(entries[e], rules[idx].matcher@, b)
        } by {
            let idx = entries[e].rule_idx as int;
            let list = rules[idx].matcher@;
            assert(compiles(entries[e], list, a));
            lemma_groups_grow(entries[e].tags@, tag_lists(list, list.len() as int), a, b);
        }
    }

    proof fn lemma_needs_ruleset(entries: Seq<MatchEntry>, rules: Seq<Rule>, names: Seq<String>)
        requires
            Self::entries_cover(entries, rules, rules.len() as int, names),
        ensures
            uses_tags(rules) <==> exists|e: int|
                0 <= e < entries.len() && (#[trigger] entries[e]).tags@.len() > 0,
    {
        if uses_tags(rules) {
            let (i, j) = choose|i: int, j: int|
                #![trigger rules[i].matcher@[j]]
                0 <= i < rules.len() && 0 <= j < rules[i].matcher@.len() && rules[i].matcher@[j]
                    is Tag;
            assert(!is_catch_all(rules[i]));
            let e = choose|e: int| 0 <= e < entries.len() && (#[trigger] entries[e]).rule_idx == i;
            let list = rules[i].matcher@;
            assert(compiles(entries[e], list, names));
            lemma_tag_lists_nonempty(list, list.len() as int);
            assert(list[j] is Tag);
            assert(entries[e].tags@.len() > 0);
        }
        if exists|e: int| 0 <= e < entries.len() && (#[trigger] entries[e]).tags@.len() > 0 {
            let e = choose|e: int|
                0 <= e < entries.len() && (#[trigger] entries[e]).tags@.len() > 0;
            let i = entries[e].rule_idx as int;
            let list = rules[i].matcher@;
            assert(compiles(entries[e], list, names));
            lemma_tag_lists_nonempty(list, list.len() as int);
            let j = choose|j: int| 0 <= j < list.len() && (#[trigger] list[j]) is Tag;
            assert(rules[i].matcher@[j] is Tag);
        }
    }

    proof fn lemma_no_entries(entries: Seq<MatchEntry>, rules: Seq<Rule>, names: Seq<String>)
        requires
            Self::entries_cover(entries, rules, rules.len() as int, names),
        ensures
            entries.len() == 0 <==> forall|i: int|
                0 <= i < rules.len() ==> is_catch_all(#[trigger] rules[i]),
    {
        if entries.len() > 0 {
            let i = entries[0].rule_idx as int;
            assert(!is_catch_all(rules[i]));
        }
        if !(forall|i: int| 0 <= i < rules.len() ==> is_catch_all(#[trigger] rules[i])) {
            let i = choose|i: int| 0 <= i < rules.len() && !is_catch_all(#[trigger] rules[i]);
            let e = choose|e: int| 0 <= e < entries.len() && (#[trigger] entries[e]).rule_idx == i;
            assert(entries.len() > e);
        }
    }

    /// Builds the index of a rule list. The decision cache starts empty, with room for as many
    /// names as the response cache, and for no fewer than a fixed minimum.
    pub fn build(rules: &[Rule], dns_cache_capacity: usize) -> (r: Self)
        ensures
            r.describes(rules@),
            forall|db: Option<&RuleSetDb>| #[trigger] r.cache_agrees(rules@, db),
            r.cache_limit() == (if dns_cache_capacity >= ROUTE_CACHE_MIN_CAPACITY {
                dns_cache_capacity as u64
            } else {
                ROUTE_CACHE_MIN_CAPACITY
            }),
    {
        let mut tag_names: Vec<String> = Vec::new();
        let mut match_entries: Vec<MatchEntry> = Vec::new();
        let mut catch_all_idx: Option<usize> = None;
        let mut idx: usize = 0;
        while idx < rules.len()
            invariant
                idx <= rules@.len(),
                Self::entries_cover(match_entries@, rules@, idx as int, tag_names@),
                catch_all_idx == (match first_catch_all(rules@.take(idx as int)) {
                    Some(i) => Some(i as usize),
                    None => None,
                }),
            decreases rules@.len() - idx,
        {
            let ghost entries0 = match_entries@;
            let ghost names0 = tag_names@;
            proof {
                lemma_first_catch_all_step(rules@, idx as int);
                lemma_first_catch_all(rules@.take(idx as int));
            }
            if rules[idx].matcher.len() == 0 {
                if catch_all_idx.is_none() {
                    catch_all_idx = Some(idx);
                }
                proof {
                    assert(is_catch_all(rules@[idx as int]));
                    assert(Self::entries_cover(match_entries@, rules@, idx + 1, tag_names@));
                }
            } else {
                let entry = compile_list(idx, &rules[idx].matcher, &mut tag_names);
                match_entries.push(entry);
                proof {
                    Self::lemma_entries_grow(entries0, rules@, idx as int, names0, tag_names@);
                    let after = match_entries@;
                    assert forall|e: int| 0 <= e < after.len() implies {
                        let i = (#[trigger] after[e]).rule_idx as int;
                        &&& 0 <= i < idx + 1
                        &&& !is_catch_all(rules@[i])
                        &&& compiles(after[e], rules@[i].matcher@, tag_names@)
                    } by {
                        if e < entries0.len() {
                            assert(after[e] == entries0[e]);
                        }
                    }
                    assert forall|e: int, f: int| 0 <= e < f < after.len() implies (
                    #[trigger] after[e]).rule_idx < (#[trigger] after[f]).rule_idx by {
                        if f < entries0.len() {
                            assert(after[e] == entries0[e] && after[f] == entries0[f]);
                        } else {
                            assert(after[e] == entries0[e]);
                        }
                    }
                    assert forall|i: int|
                        0 <= i < idx + 1 && !is_catch_all(#[trigger] rules@[i]) implies exists|e: int|
                        0 <= e < after.len() && (#[trigger] after[e]).rule_idx == i by {
                        if i < idx {
                            let e = choose|e: int|
                                0 <= e < entries0.len() && (#[trigger] entries0[e]).rule_idx == i;
                            assert(after[e] == entries0[e]);
                        } else {
                            assert(after[entries0.len() as int].rule_idx == i);
                        }
                    }
                }
            }
            idx += 1;
        }
        let needs_ruleset = any_tags(&match_entries);
        let first_is_catch_all = match catch_all_idx {
            Some(i) => i == 0,
            None => false,
        };
        let constant_route: Option<Option<usize>> = if first_is_catch_all || match_entries.len()
            == 0 {
            Some(catch_all_idx)
        } else {
            None
        };
        let num_tags: usize = tag_names.len();
        let wanted: u64 = dns_cache_capacity as u64;
        let route_cache_capacity: u64 = if wanted > ROUTE_CACHE_MIN_CAPACITY {
            wanted
        } else {
            ROUTE_CACHE_MIN_CAPACITY
        };
        let route_cache = new_route_cache(route_cache_capacity);
        proof {
            assert(rules@.take(rules@.len() as int) =~= rules@);
            lemma_first_catch_all(rules@);
            Self::lemma_needs_ruleset(match_entries@, rules@, tag_names@);
            Self::lemma_no_entries(match_entries@, rules@, tag_names@);
        }
        RouteIndex {
            match_entries,
            catch_all_idx,
            needs_ruleset,
            constant_route,
            tag_names,
            num_tags,
            route_cache,
        }
    }
}

// Routing.

/// What a lookup of tag number `id` finds for a name.
spec fn lookup(names: Seq<String>, rs: RuleSetDb, name: Seq<u8>) -> spec_fn(int) -> bool {
    |id: int| rs.has_name(encode_utf8(names[id]@), name)
}

/// Whether the name is in the domain set of one of the numbered tags.
fn any_tag_matches(
    ids: &IdList,
    qname: &str,
    rs: &RuleSetDb,
    memo: &mut TagMemo,
    tag_names: &Vec<String>,
) -> (r: bool)
    requires
        old(memo).agrees(lookup(tag_names@, *rs, qname.spec_bytes())),
        forall|i: int| 0 <= i < ids@.len() ==> (#[trigger] ids@[i]) < tag_names@.len(),
    ensures
        final(memo).agrees(lookup(tag_names@, *rs, qname.spec_bytes())),
        r == exists|i: int|
            0 <= i < ids@.len() && rs.has_name(
                encode_utf8(tag_names@[(#[trigger] ids@[i]) as int]@),
                qname.spec_bytes(),
            ),
{
    let ghost found = lookup(tag_names@, *rs, qname.spec_bytes());
    let mut i: usize = 0;
    while i < ids.len()
        invariant
            i <= ids@.len(),
            found == lookup(tag_names@, *rs, qname.spec_bytes()),
            memo.agrees(found),
            forall|k: int| 0 <= k < ids@.len() ==> (#[trigger] ids@[k]) < tag_names@.len(),
            forall|k: int|
                0 <= k < i ==> !rs.has_name(
                    encode_utf8(tag_names@[(#[trigger] ids@[k]) as int]@),
                    qname.spec_bytes(),
                ),
        decreases ids@.len() - i,
    {
        let id: usize = ids.at(i);
        let ghost before = *memo;
        proof {
            assert(before.knows(id as int) ==> before.recalls(id as int) == found(id as int));
        }
        let hit = memo.check(rs, id, tag_names[id].as_str(), qname);
        proof {
            before.lemma_with_agrees(*memo, id as int, hit, found);
        }
        if hit {
            assert(rs.has_name(
                encode_utf8(tag_names@[ids@[i as int] as int]@),
                qname.spec_bytes(),
            ));
            return true;
        }
        i += 1;
    }
    false
}

/// Whether the name meets one tag expression.
fn tag_group_matches(
    group: &TagGroup,
    qname: &str,
    rs: &RuleSetDb,
    memo: &mut TagMemo,
    tag_names: &Vec<String>,
    Ghost(lists): Ghost<(Seq<String>, Seq<String>)>,
) -> (r: bool)
    requires
        old(memo).agrees(lookup(tag_names@, *rs, qname.spec_bytes())),
        numbers(group.include_ids@, lists.0, tag_names@),
        numbers(group.exclude_ids@, lists.1, tag_names@),
    ensures
        final(memo).agrees(lookup(tag_names@, *rs, qname.spec_bytes())),
        r == tags_meet(lists.0, lists.1, qname.spec_bytes(), *rs),
{
    let ghost name = qname.spec_bytes();
    if group.include_ids.len() != 0 {
        let hit = any_tag_matches(&group.include_ids, qname, rs, memo, tag_names);
        proof {
            let ids = group.include_ids@;
            if hit {
                let i = choose|i: int|
                    0 <= i < ids.len() && rs.has_name(
                        encode_utf8(tag_names@[(#[trigger] ids[i]) as int]@),
                        name,
                    );
                assert(rs.has_name(encode_utf8(lists.0[i]@), name));
            } else {
                assert forall|i: int| 0 <= i < lists.0.len() implies !rs.has_name(
                    encode_utf8((#[trigger] lists.0[i])@),
                    name,
                ) by {
                    assert(tag_names@[ids[i] as int]@ == lists.0[i]@);
                }
            }
        }
        if !hit {
            return false;
        }
    }
    let blocked = any_tag_matches(&group.exclude_ids, qname, rs, memo, tag_names);
    proof {
        let ids = group.exclude_ids@;
        if blocked {
            let i = choose|i: int|
                0 <= i < ids.len() && rs.has_name(
                    encode_utf8(tag_names@[(#[trigger] ids[i]) as int]@),
                    name,
                );
            assert(rs.has_name(encode_utf8(lists.1[i]@), name));
        } else {
            assert forall|i: int| 0 <= i < lists.1.len() implies !rs.has_name(
                encode_utf8((#[trigger] lists.1[i])@),
                name,
            ) by {
                assert(tag_names@[ids[i] as int]@ == lists.1[i]@);
            }
        }
    }
    !blocked
}

proof fn lemma_list_meets(list: Seq<RuleMatcher>, n: int, name: Seq<u8>, db: Option<&RuleSetDb>)
    requires
        0 <= n <= list.len(),
    ensures
        (exists|i: int| 0 <= i < n && matcher_meets(#[trigger] list[i], name, db)) <==> {
            ||| domain_meets(list, n, name)
            ||| db is Some && exists|g: int|
                0 <= g < tag_lists(list, n).len() && tags_meet(
                    (#[trigger] tag_lists(list, n)[g]).0,
                    tag_lists(list, n)[g].1,
                    name,
                    *db->0,
                )
        },
    decreases n,
{
    if n > 0 {
        lemma_list_meets(list, n - 1, name, db);
        let less = tag_lists(list, n - 1);
        let more = tag_lists(list, n);
        let m = list[n - 1];
        if exists|i: int| 0 <= i < n && matcher_meets(#[trigger] list[i], name, db) {
            let i = choose|i: int| 0 <= i < n && matcher_meets(#[trigger] list[i], name, db);
            if i == n - 1 {
                if m is Domain {
                    assert(domain_meets(list, n, name));
                } else {
                    assert(more[less.len() as int] == (m->includes@, m->excludes@));
                }
            } else {
                assert(exists|k: int| 0 <= k < n - 1 && matcher_meets(#[trigger] list[k], name, db));
                if domain_meets(list, n - 1, name) {
                    assert(domain_meets(list, n, name));
                } else {
                    let g = choose|g: int|
                        0 <= g < less.len() && tags_meet(
                            (#[trigger] less[g]).0,
                            less[g].1,
                            name,
                            *db->0,
                        );
                    assert(more[g] == less[g]);
                }
            }
        }
        if domain_meets(list, n, name) {
            let i = choose|i: int|
                0 <= i < n && (#[trigger] list[i]) is Domain && meets(
                    pattern_meaning(encode_utf8(list[i]->Domain_0@)),
                    name,
                );
            assert(matcher_meets(list[i], name, db));
        }
        if db is Some && exists|g: int|
            0 <= g < more.len() && tags_meet((#[trigger] more[g]).0, more[g].1, name, *db->0) {
            let g = choose|g: int|
                0 <= g < more.len() && tags_meet((#[trigger] more[g]).0, more[g].1, name, *db->0);
            if g < less.len() {
                assert(less[g] == more[g]);
                assert(exists|k: int| 0 <= k < n - 1 && matcher_meets(#[trigger] list[k], name, db));
                let k = choose|k: int|
                    0 <= k < n - 1 && matcher_meets(#[trigger] list[k], name, db);
                assert(matcher_meets(list[k], name, db));
            } else {
                assert(matcher_meets(list[n - 1], name, db));
            }
        }
    }
}

/// Whether the name meets the matcher list that an entry was compiled from.
fn match_entry_matches(
    entry: &MatchEntry,
    qname: &str,
    ruleset: Option<&RuleSetDb>,
    memo: &mut TagMemo,
    tag_names: &Vec<String>,
    Ghost(list): Ghost<Seq<RuleMatcher>>,
) -> (r: bool)
    requires
        compiles(*entry, list, tag_names@),
        list.len() > 0,
        ruleset is Some ==> old(memo).agrees(
            lookup(tag_names@, *ruleset->0, qname.spec_bytes()),
        ),
    ensures
        ruleset is Some ==> final(memo).agrees(
            lookup(tag_names@, *ruleset->0, qname.spec_bytes()),
        ),
        r == list_meets(list, qname.spec_bytes(), ruleset),
{
    let ghost name = qname.spec_bytes();
    let ghost lists = tag_lists(list, list.len() as int);
    proof {
        lemma_list_meets(list, list.len() as int, name, ruleset);
    }
    if entry.domains.is_hit(qname) {
        return true;
    }
    match ruleset {
        Some(rs) => {
            let mut i: usize = 0;
            while i < entry.tags.len()
                invariant
                    i <= entry.tags@.len(),
                    groups_stand_for(entry.tags@, lists, tag_names@),
                    name == qname.spec_bytes(),
                    memo.agrees(lookup(tag_names@, *rs, name)),
                    forall|g: int|
                        0 <= g < i ==> !tags_meet((#[trigger] lists[g]).0, lists[g].1, name, *rs),
                    lists == tag_lists(list, list.len() as int),
                    list.len() > 0,
                    list_meets(list, name, ruleset) <==> exists|g: int|
                        0 <= g < lists.len() && tags_meet(
                            (#[trigger] lists[g]).0,
                            lists[g].1,
                            name,
                            *rs,
                        ),
                    ruleset == Some(rs),
                decreases entry.tags@.len() - i,
            {
                if tag_group_matches(
                    &entry.tags[i],
                    qname,
                    rs,
                    memo,
                    tag_names,
                    Ghost(lists[i as int]),
                ) {
                    assert(tags_meet(lists[i as int].0, lists[i as int].1, name, *rs));
                    return true;
                }
                i += 1;
            }
            false
        },
        None => false,
    }
}

/// A rule position, or nothing for the stand-in.
fn rule_at<'a>(rules: &'a [Rule], idx: usize) -> (r: Option<&'a Rule>)
    ensures
        r == (if idx < rules@.len() {
            Some(&rules@[idx as int])
        } else {
            None
        }),
{
    if idx < rules.len() {
        Some(&rules[idx])
    } else {
        None
    }
}

impl RouteIndex {
    /// When every name takes the same route, that route: a rule position, or none.
    pub fn constant_target(&self) -> (r: Option<Option<usize>>)
        ensures
            forall|rules: Seq<Rule>| #[trigger]
                self.describes(rules) ==> r == (match constant_decision(rules) {
                    Some(Some(i)) => Some(Some(i as usize)),
                    Some(None) => Some(None),
                    None => None,
                }),
    {
        self.constant_route
    }

    /// The first rule that `qname` meets.
    ///
    /// The decision cache must hold decisions for `ruleset`: an index serves one database, from
    /// the time it is built, and in between also without one. Without a database decisions of
    /// rules with tag expressions are not cached.
    pub fn route<'a>(
        &mut self,
        rules: &'a [Rule],
        qname: &str,
        ruleset: Option<&RuleSetDb>,
    ) -> (r: Option<&'a Rule>)
        requires
            old(self).describes(rules@),
            old(self).cache_agrees(rules@, ruleset),
        ensures
            final(self).describes(rules@),
            final(self).cache_agrees(rules@, ruleset),
            forall|db: Option<&RuleSetDb>|
                (ruleset is None || db is None) && old(self).cache_agrees(rules@, db)
                    ==> #[trigger] final(self).cache_agrees(rules@, db),
            final(self).cache_limit() == old(self).cache_limit(),
            r == (match first_rule(rules@, qname.spec_bytes(), ruleset) {
                Some(i) => Some(&rules@[i]),
                None => None,
            }),
    {
        let ghost name = qname.spec_bytes();
        proof {
            law_first_rule(rules@, name, ruleset);
            lemma_first_catch_all(rules@);
        }
        match self.constant_route {
            Some(constant) => {
                proof {
                    lemma_constant(rules@, name, ruleset);
                }
                return match constant {
                    Some(idx) => rule_at(rules, idx),
                    None => None,
                };
            },
            None => {},
        }
        let use_cache = ruleset.is_some() || !self.needs_ruleset;
        if use_cache {
            match cached_route(&self.route_cache, qname) {
                Some(idx) => {
                    return if idx == NO_RULE {
                        None
                    } else {
                        rule_at(rules, idx)
                    };
                },
                None => {},
            }
        }
        let mut memo = TagMemo::new(self.num_tags);
        let idx: usize = self.route_index_uncached(qname, ruleset, &mut memo, Ghost(rules@));
        if use_cache {
            let ghost before = cached_routes(self.route_cache);
            cache_route(&mut self.route_cache, qname.to_owned(), idx);
            proof {
                let after = cached_routes(self.route_cache);
                assert forall|k: Seq<char>| #[trigger] after.contains_key(k) implies after[k]
                    == route_number(first_rule(rules@, encode_utf8(k), ruleset)) by {
                    let most = before.insert(qname@, idx);
                    assert(after.dom().contains(k) ==> most.dom().contains(k));
                    assert(most.contains_key(k) && after[k] == most[k]);
                    if k != qname@ {
                        assert(before.contains_key(k));
                    }
                }
                lemma_agrees_without_tags(*self, rules@, ruleset);
            }
        }
        rule_at(rules, idx)
    }

    /// Position of the first rule that `qname` meets, by the compiled entries.
    fn route_index_uncached(
        &self,
        qname: &str,
        ruleset: Option<&RuleSetDb>,
        tag_memo: &mut TagMemo,
        Ghost(rules): Ghost<Seq<Rule>>,
    ) -> (r: usize)
        requires
            self.describes(rules),
            forall|id: int| !#[trigger] old(tag_memo).knows(id),
        ensures
            r == route_number(first_rule(rules, qname.spec_bytes(), ruleset)),
    {
        let ghost name = qname.spec_bytes();
        proof {
            law_first_rule(rules, name, ruleset);
            lemma_first_catch_all(rules);
        }
        let catch_all: usize = match self.catch_all_idx {
            Some(i) => i,
            None => NO_RULE,
        };
        proof {
            if self.catch_all_idx is Some {
                assert(is_catch_all(rules[catch_all as int]));
                assert(list_meets(rules[catch_all as int].matcher@, name, ruleset));
            }
        }
        let ghost entries = self.match_entries@;
        let ghost names = self.tag_names@;
        let mut e: usize = 0;
        while e < self.match_entries.len()
            invariant
                e <= entries.len(),
                entries == self.match_entries@,
                names == self.tag_names@,
                name == qname.spec_bytes(),
                Self::entries_cover(entries, rules, rules.len() as int, names),
                rules.len() <= usize::MAX,
                ruleset is Some ==> tag_memo.agrees(lookup(names, *ruleset->0, name)),
                self.catch_all_idx is Some ==> 0 <= catch_all < rules.len() && is_catch_all(
                    rules[catch_all as int],
                ) && list_meets(rules[catch_all as int].matcher@, name, ruleset),
                self.catch_all_idx is None ==> catch_all == NO_RULE,
                forall|j: int|
                    0 <= j < rules.len() && j < catch_all ==> !is_catch_all(#[trigger] rules[j]),
                forall|d: int|
                    0 <= d < e ==> !list_meets(
                        rules[(#[trigger] entries[d]).rule_idx as int].matcher@,
                        name,
                        ruleset,
                    ),
            decreases entries.len() - e,
        {
            let entry = &self.match_entries[e];
            let ghost at = entry.rule_idx as int;
            proof {
                // Every rule before this entry that is not behind the catch-all was tried.
                assert forall|j: int| 0 <= j < at && j < catch_all implies !list_meets(
                    #[trigger] rules[j].matcher@,
                    name,
                    ruleset,
                ) by {
                    assert(!is_catch_all(rules[j]));
                    let d = choose|d: int|
                        0 <= d < entries.len() && (#[trigger] entries[d]).rule_idx == j;
                    if d >= e {
                        if e < d {
                            assert(entries[e as int].rule_idx < entries[d].rule_idx);
                        }
                    }
                    assert(d < e);
                }
            }
            if catch_all < entry.rule_idx {
                proof {
                    lemma_first_rule_is(rules, name, ruleset, catch_all as int);
                }
                return catch_all;
            }
            if match_entry_matches(
                entry,
                qname,
                ruleset,
                tag_memo,
                &self.tag_names,
                Ghost(rules[at].matcher@),
            ) {
                proof {
                    lemma_first_rule_is(rules, name, ruleset, at);
                }
                return entry.rule_idx;
            }
            e += 1;
        }
        proof {
            assert forall|j: int| 0 <= j < rules.len() && j < catch_all implies !list_meets(
                #[trigger] rules[j].matcher@,
                name,
                ruleset,
            ) by {
                assert(!is_catch_all(rules[j]));
                let d = choose|d: int|
                    0 <= d < entries.len() && (#[trigger] entries[d]).rule_idx == j;
                assert(entries[d].rule_idx == j);
            }
            if self.catch_all_idx is Some {
                lemma_first_rule_is(rules, name, ruleset, catch_all as int);
            }
        }
        catch_all
    }
}

/// Where no rule has tag expressions, decisions that agree with one database agree with all.
proof fn lemma_agrees_without_tags(
    index: RouteIndex,
    rules: Seq<Rule>,
    db: Option<&RuleSetDb>,
)
    requires
        index.cache_agrees(rules, db),
    ensures
        !uses_tags(rules) ==> forall|other: Option<&RuleSetDb>| #[trigger]
            index.cache_agrees(rules, other),
{
    if !uses_tags(rules) {
        assert forall|other: Option<&RuleSetDb>| #[trigger] index.cache_agrees(rules, other) by {
            assert forall|k: Seq<char>| #[trigger]
                cached_routes(index.route_cache).contains_key(k) implies cached_routes(
                index.route_cache,
            )[k] == route_number(first_rule(rules, encode_utf8(k), other)) by {
                law_route_without_tags(rules, encode_utf8(k), db, other);
            }
        }
    }
}

/// Where the route is constant, a scan takes it for every name.
proof fn lemma_constant(
    rules: Seq<Rule>,
    name: Seq<u8>,
    db: Option<&RuleSetDb>,
)
    requires
        constant_decision(rules) is Some,
    ensures
        first_rule(rules, name, db) == constant_decision(rules)->0,
{
    lemma_first_catch_all(rules);
    law_first_rule(rules, name, db);
    match first_catch_all(rules) {
        Some(i) => {
            if i > 0 {
                assert(!is_catch_all(rules[0]));
            }
            lemma_first_rule_is(rules, name, db, 0);
        },
        None => {
            if rules.len() > 0 {
                assert(!is_catch_all(rules[0]));
            }
        },
    }
}

/// A constant route is the route of every name with every database.
pub proof fn law_constant_route(rules: Seq<Rule>, name: Seq<u8>, db: Option<&RuleSetDb>)
    requires
        constant_decision(rules) is Some,
    ensures
        first_rule(rules, name, db) == constant_decision(rules)->0,
{
    lemma_constant(rules, name, db);
}

/// Rules without tag expressions route every name alike with every database and with none.
pub proof fn law_route_without_tags(
    rules: Seq<Rule>,
    name: Seq<u8>,
    a: Option<&RuleSetDb>,
    b: Option<&RuleSetDb>,
)
    requires
        !uses_tags(rules),
    ensures
        first_rule(rules, name, a) == first_rule(rules, name, b),
    decreases rules.len(),
{
    if rules.len() > 0 {
        let front = rules.drop_last();
        assert(!uses_tags(front)) by {
            assert forall|i: int, j: int|
                #![trigger front[i].matcher@[j]]
                0 <= i < front.len() && 0 <= j < front[i].matcher@.len() implies !(
            front[i].matcher@[j] is Tag) by {
                assert(rules[i].matcher@[j] == front[i].matcher@[j]);
            }
        }
        law_route_without_tags(front, name, a, b);
        let last = rules.last().matcher@;
        assert forall|j: int| 0 <= j < last.len() implies matcher_meets(#[trigger] last[j], name, a)
            == matcher_meets(last[j], name, b) by {
            assert(rules[rules.len() - 1].matcher@[j] == last[j]);
        }
        if list_meets(last, name, a) && last.len() > 0 {
            let j = choose|j: int|
                0 <= j < last.len() && matcher_meets(#[trigger] last[j], name, a);
            assert(matcher_meets(last[j], name, b));
        }
        if list_meets(last, name, b) && last.len() > 0 {
            let j = choose|j: int|
                0 <= j < last.len() && matcher_meets(#[trigger] last[j], name, b);
            assert(matcher_meets(last[j], name, a));
        }
    }
}

// What the matchers mean.

/// A tag expression without included tags is met by exactly the names that are in none of the
/// excluded sets.
pub proof fn law_exclude_only_expression(excludes: Seq<String>, name: Seq<u8>, db: RuleSetDb)
    ensures
        tags_meet(Seq::empty(), excludes, name, db) <==> !(exists|i: int|
            0 <= i < excludes.len() && db.has_name(encode_utf8((#[trigger] excludes[i])@), name)),
{
}

/// A tag and its negation are complements: every name meets exactly one of the two expressions.
pub proof fn law_negated_tag_is_complement(tag: String, name: Seq<u8>, db: RuleSetDb)
    ensures
        tags_meet(seq![tag], Seq::empty(), name, db) <==> db.has_name(encode_utf8(tag@), name),
        tags_meet(Seq::empty(), seq![tag], name, db) <==> !tags_meet(
            seq![tag],
            Seq::empty(),
            name,
            db,
        ),
{
    assert(seq![tag][0] == tag);
    if tags_meet(seq![tag], Seq::empty(), name, db) {
        let i = choose|i: int|
            0 <= i < seq![tag].len() && db.has_name(encode_utf8((#[trigger] seq![tag][i])@), name);
        assert(i == 0);
    }
}

/// One more included tag widens a tag expression by the names of its set, and one more excluded tag
/// narrows it by them; nothing else changes.
pub proof fn law_tags_widen_and_narrow(
    includes: Seq<String>,
    excludes: Seq<String>,
    tag: String,
    name: Seq<u8>,
    db: RuleSetDb,
)
    ensures
        includes.len() > 0 ==> (tags_meet(includes.push(tag), Seq::empty(), name, db)
            <==> tags_meet(includes, Seq::empty(), name, db) || db.has_name(
            encode_utf8(tag@),
            name,
        )),
        tags_meet(includes, excludes.push(tag), name, db) <==> tags_meet(
            includes,
            excludes,
            name,
            db,
        ) && !db.has_name(encode_utf8(tag@), name),
        tags_meet(Seq::empty(), Seq::empty(), name, db),
{
    let wide = includes.push(tag);
    let narrow = excludes.push(tag);
    assert(wide[includes.len() as int] == tag);
    assert(narrow[excludes.len() as int] == tag);
    assert forall|i: int| 0 <= i < includes.len() implies wide[i] == #[trigger] includes[i] by {}
    assert forall|i: int| 0 <= i < excludes.len() implies narrow[i] == #[trigger] excludes[i] by {}
}

/// A rule takes a name when one of its matchers is met: a domain pattern by what it means, a tag
/// expression by the database. Without a database no tag expression is met, and a rule without
/// matchers takes every name.
pub proof fn law_rule_takes_names(
    list: Seq<RuleMatcher>,
    m: RuleMatcher,
    name: Seq<u8>,
    db: Option<&RuleSetDb>,
)
    ensures
        list_meets(Seq::empty(), name, db),
        list_meets(seq![m], name, db) <==> match (m, db) {
            (RuleMatcher::Domain(p), _) => meets(pattern_meaning(encode_utf8(p@)), name),
            (RuleMatcher::Tag { includes, excludes }, Some(db)) => tags_meet(
                includes@,
                excludes@,
                name,
                *db,
            ),
            (RuleMatcher::Tag { .. }, None) => false,
        },
        list.len() > 0 ==> (list_meets(list.push(m), name, db) <==> list_meets(list, name, db)
            || list_meets(seq![m], name, db)),
{
    let more = list.push(m);
    assert(seq![m][0] == m);
    assert(more[list.len() as int] == m);
    if list_meets(seq![m], name, db) {
        let i = choose|i: int| 0 <= i < 1 && matcher_meets(#[trigger] seq![m][i], name, db);
        assert(i == 0);
    }
    if list.len() > 0 {
        if list_meets(more, name, db) {
            let i = choose|i: int| 0 <= i < more.len() && matcher_meets(#[trigger] more[i], name, db);
            if i < list.len() {
                assert(more[i] == list[i]);
            }
        }
        if list_meets(list, name, db) {
            let i = choose|i: int| 0 <= i < list.len() && matcher_meets(#[trigger] list[i], name, db);
            assert(more[i] == list[i]);
        }
    }
}

/// Rules behind the one that takes a name do not matter, and where none takes it, one more decides
/// alone.
pub proof fn law_later_rules_do_not_matter(
    rules: Seq<Rule>,
    more: Seq<Rule>,
    name: Seq<u8>,
    db: Option<&RuleSetDb>,
)
    ensures
        first_rule(rules, name, db) is Some ==> first_rule(rules + more, name, db) == first_rule(
            rules,
            name,
            db,
        ),
        first_rule(rules, name, db) is None ==> match first_rule(more, name, db) {
            Some(i) => first_rule(rules + more, name, db) == Some(rules.len() + i),
            None => first_rule(rules + more, name, db) is None,
        },
{
    let all = rules + more;
    law_first_rule(rules, name, db);
    law_first_rule(more, name, db);
    law_first_rule(all, name, db);
    assert forall|j: int| 0 <= j < rules.len() implies all[j] == #[trigger] rules[j] by {}
    assert forall|j: int| 0 <= j < more.len() implies all[j + rules.len()] == #[trigger] more[j] by {}
    match first_rule(rules, name, db) {
        Some(i) => {
            lemma_first_rule_is(all, name, db, i);
        },
        None => match first_rule(more, name, db) {
            Some(i) => {
                assert forall|j: int| 0 <= j < rules.len() + i implies !list_meets(
                    #[trigger] all[j].matcher@,
                    name,
                    db,
                ) by {
                    if j < rules.len() {
                        assert(all[j] == rules[j]);
                    } else {
                        assert(all[j] == more[j - rules.len()]);
                    }
                }
                assert(all[rules.len() + i] == more[i]);
                lemma_first_rule_is(all, name, db, rules.len() + i);
            },
            None => {
                assert forall|j: int| 0 <= j < all.len() implies !list_meets(
                    #[trigger] all[j].matcher@,
                    name,
                    db,
                ) by {
                    if j < rules.len() {
                        assert(all[j] == rules[j]);
                    } else {
                        assert(all[j] == more[j - rules.len()]);
                    }
                }
            },
        },
    }
}

} // verus!
