//! Routing by groups of site tags.
//!
//! A group without tags is a catch-all. Any other group takes the names that are in one of its
//! include tags, or all names when it has none, except those in one of its exclude tags. Without
//! a database no include tag is met and no exclude tag blocks. Routing gives the first group, in
//! order, that takes the name.

use crate::geosite::GeoSiteDb;
use crate::small::IdList;
use crate::tag_ids::{intern_all, lemma_numbers_grow, lemma_prefix_trans, numbers};
use crate::tag_memo::TagMemo;
use moka::sync::Cache as MokaCache;
use std::collections::hash_map::RandomState;
use vstd::prelude::*;
use vstd::string::StringSliceAdditionalSpecFns;
use vstd::utf8::encode_utf8;

verus! {

/// Capacity of the decision cache.
pub const ROUTE_CACHE_CAPACITY: u64 = 32_768;

/// Cached stand-in for "no group takes the name".
pub const NO_GROUP: usize = usize::MAX;

/// A routing group.
pub struct CustomGroup {
    pub name: String,
    pub geosite_include: Vec<String>,
    pub geosite_exclude: Vec<String>,
}

/// The name is in one of the tags.
pub open spec fn in_some_tag(tags: Seq<String>, name: Seq<u8>, db: GeoSiteDb) -> bool {
    exists|i: int| 0 <= i < tags.len() && db.has_name(encode_utf8((#[trigger] tags[i])@), name)
}

/// The group takes the name.
pub open spec fn group_takes(group: CustomGroup, name: Seq<u8>, db: Option<&GeoSiteDb>) -> bool {
    &&& group.geosite_include@.len() == 0 || match db {
        Some(db) => in_some_tag(group.geosite_include@, name, *db),
        None => false,
    }
    &&& match db {
        Some(db) => !in_some_tag(group.geosite_exclude@, name, *db),
        None => true,
    }
}

/// Position of the first group that takes the name.
pub open spec fn first_group(
    groups: Seq<CustomGroup>,
    name: Seq<u8>,
    db: Option<&GeoSiteDb>,
) -> Option<int>
    decreases groups.len(),
{
    if groups.len() == 0 {
        None
    } else {
        match first_group(groups.drop_last(), name, db) {
            Some(i) => Some(i),
            None => if group_takes(groups.last(), name, db) {
                Some(groups.len() - 1)
            } else {
                None
            },
        }
    }
}

/// A scan finds the group that takes the name while none before it does.
pub proof fn law_first_group(groups: Seq<CustomGroup>, name: Seq<u8>, db: Option<&GeoSiteDb>)
    ensures
        match first_group(groups, name, db) {
            Some(i) => {
                &&& 0 <= i < groups.len()
                &&& group_takes(groups[i], name, db)
                &&& forall|j: int| 0 <= j < i ==> !group_takes(#[trigger] groups[j], name, db)
            },
            None => forall|j: int|
                0 <= j < groups.len() ==> !group_takes(#[trigger] groups[j], name, db),
        },
    decreases groups.len(),
{
    if groups.len() > 0 {
        let front = groups.drop_last();
        law_first_group(front, name, db);
        assert forall|j: int| 0 <= j < front.len() implies front[j] == #[trigger] groups[j] by {}
    }
}

proof fn lemma_first_group_is(
    groups: Seq<CustomGroup>,
    name: Seq<u8>,
    db: Option<&GeoSiteDb>,
    i: int,
)
    requires
        0 <= i < groups.len(),
        group_takes(groups[i], name, db),
        forall|j: int| 0 <= j < i ==> !group_takes(#[trigger] groups[j], name, db),
    ensures
        first_group(groups, name, db) == Some(i),
{
    law_first_group(groups, name, db);
    match first_group(groups, name, db) {
        Some(k) => {
            if k < i {
                assert(!group_takes(groups[k], name, db));
            } else if i < k {
                assert(!group_takes(groups[i], name, db));
            }
        },
        None => {
            assert(!group_takes(groups[i], name, db));
        },
    }
}

/// The group has no tags.
pub open spec fn has_no_tags(group: CustomGroup) -> bool {
    group.geosite_include@.len() == 0 && group.geosite_exclude@.len() == 0
}

/// A position in the form in which it is cached.
pub open spec fn group_number(r: Option<int>) -> usize {
    match r {
        Some(i) => i as usize,
        None => NO_GROUP,
    }
}

// Tag memo.

impl TagMemo {
    /// Whether `qname` is in the set of a site tag, from the memo when the tag was looked up
    /// before.
    pub fn check_site(&mut self, gs: &GeoSiteDb, tag_id: usize, tag_name: &str, qname: &str) -> (r:
        bool)
        requires
            old(self).knows(tag_id as int) ==> old(self).recalls(tag_id as int) == gs.has_name(
                tag_name.spec_bytes(),
                qname.spec_bytes(),
            ),
        ensures
            r == gs.has_name(tag_name.spec_bytes(), qname.spec_bytes()),
            final(self).is_with(*old(self), tag_id as int, r),
    {
        match self.get(tag_id) {
            Some(v) => v,
            None => {
                let v = gs.matches(tag_name, qname);
                self.put(tag_id, v);
                v
            },
        }
    }
}

// Decision cache.

/// Decision cache: name to group position.
type GroupCache = MokaCache<String, usize, RandomState>;

/// The decisions that a cache may still give back.
pub uninterp spec fn cached_groups(cache: MokaCache<String, usize, RandomState>) -> Map<
    Seq<char>,
    usize,
>;

/// `moka::sync::CacheBuilder::build`: an empty cache with a bound on the number of entries.
#[verifier::external_body]
fn new_group_cache(capacity: u64) -> (r: GroupCache)
    ensures
        forall|k: Seq<char>| !cached_groups(r).contains_key(k),
{
    MokaCache::builder().max_capacity(capacity).build()
}

/// `moka::sync::Cache::get`: a value that is given back is the one held under the key. The call
/// may run pending evictions, so the cache may hold less afterwards, and whether an entry is still
/// there is left open.
#[verifier::external_body]
fn cached_group(cache: &mut GroupCache, name: &str) -> (r: Option<usize>)
    ensures
        r is Some ==> cached_groups(*old(cache)).contains_key(name@),
        r is Some ==> cached_groups(*old(cache))[name@] == r->0,
        cached_groups(*final(cache)).submap_of(cached_groups(*old(cache))),
{
    cache.get(name)
}

/// `moka::sync::Cache::insert`: afterwards the cache holds nothing but earlier entries under other
/// keys and the new entry. Which of them it keeps is up to its eviction, and is left open.
#[verifier::external_body]
fn cache_group(cache: &mut GroupCache, name: String, idx: usize)
    ensures
        cached_groups(*final(cache)).submap_of(cached_groups(*old(cache)).insert(name@, idx)),
{
    cache.insert(name, idx);
}

// Index.

/// A group with tags, by tag numbers.
struct GeoSiteEntry {
    group_idx: usize,
    include_ids: IdList,
    exclude_ids: IdList,
}

spec fn entry_of(entry: GeoSiteEntry, group: CustomGroup, names: Seq<String>) -> bool {
    &&& numbers(entry.include_ids@, group.geosite_include@, names)
    &&& numbers(entry.exclude_ids@, group.geosite_exclude@, names)
}

spec fn entries_cover(
    entries: Seq<GeoSiteEntry>,
    groups: Seq<CustomGroup>,
    n: int,
    names: Seq<String>,
) -> bool {
    &&& forall|e: int|
        0 <= e < entries.len() ==> {
            let idx = (#[trigger] entries[e]).group_idx as int;
            &&& 0 <= idx < n
            &&& !has_no_tags(groups[idx])
            &&& entry_of(entries[e], groups[idx], names)
        }
    &&& forall|e: int, f: int|
        0 <= e < f < entries.len() ==> (#[trigger] entries[e]).group_idx < (
        #[trigger] entries[f]).group_idx
    &&& forall|i: int|
        0 <= i < n && !has_no_tags(#[trigger] groups[i]) ==> exists|e: int|
            0 <= e < entries.len() && (#[trigger] entries[e]).group_idx == i
}

/// `idx` is the first of the first `n` groups without tags.
spec fn catch_all_is(idx: Option<usize>, groups: Seq<CustomGroup>, n: int) -> bool {
    match idx {
        Some(i) => {
            &&& 0 <= i < n
            &&& has_no_tags(groups[i as int])
            &&& forall|j: int| 0 <= j < i ==> !has_no_tags(#[trigger] groups[j])
        },
        None => forall|j: int| 0 <= j < n ==> !has_no_tags(#[trigger] groups[j]),
    }
}

/// Compiled routing groups.
pub struct RouteIndex {
    geosite_entries: Vec<GeoSiteEntry>,
    catch_all_idx: Option<usize>,
    tag_names: Vec<String>,
    num_tags: usize,
    route_cache: GroupCache,
}

/// What a lookup of tag number `id` finds for a name.
spec fn lookup(names: Seq<String>, gs: GeoSiteDb, name: Seq<u8>) -> spec_fn(int) -> bool {
    |id: int| gs.has_name(encode_utf8(names[id]@), name)
}

/// Whether the name is in one of the numbered tags.
fn any_tag_matches(
    ids: &IdList,
    qname: &str,
    gs: &GeoSiteDb,
    memo: &mut TagMemo,
    tag_names: &Vec<String>,
    Ghost(tags): Ghost<Seq<String>>,
) -> (r: bool)
    requires
        old(memo).agrees(lookup(tag_names@, *gs, qname.spec_bytes())),
        numbers(ids@, tags, tag_names@),
    ensures
        final(memo).agrees(lookup(tag_names@, *gs, qname.spec_bytes())),
        r == in_some_tag(tags, qname.spec_bytes(), *gs),
{
    let ghost found = lookup(tag_names@, *gs, qname.spec_bytes());
    let mut i: usize = 0;
    while i < ids.len()
        invariant
            i <= ids@.len(),
            found == lookup(tag_names@, *gs, qname.spec_bytes()),
            memo.agrees(found),
            numbers(ids@, tags, tag_names@),
            forall|k: int|
                0 <= k < i ==> !gs.has_name(
                    encode_utf8((#[trigger] tags[k])@),
                    qname.spec_bytes(),
                ),
        decreases ids@.len() - i,
    {
        let id: usize = ids.at(i);
        let ghost before = *memo;
        proof {
            assert(ids@[i as int] < tag_names@.len());
            assert(before.knows(id as int) ==> before.recalls(id as int) == found(id as int));
        }
        let hit = memo.check_site(gs, id, tag_names[id].as_str(), qname);
        proof {
            before.lemma_with_agrees(*memo, id as int, hit, found);
        }
        if hit {
            assert(gs.has_name(encode_utf8(tags[i as int]@), qname.spec_bytes()));
            return true;
        }
        i += 1;
    }
    false
}

/// Whether the group that an entry stands for takes the name.
fn geo_entry_matches(
    entry: &GeoSiteEntry,
    qname: &str,
    geosite: Option<&GeoSiteDb>,
    memo: &mut TagMemo,
    tag_names: &Vec<String>,
    Ghost(group): Ghost<CustomGroup>,
) -> (r: bool)
    requires
        entry_of(*entry, group, tag_names@),
        geosite is Some ==> old(memo).agrees(
            lookup(tag_names@, *geosite->0, qname.spec_bytes()),
        ),
    ensures
        geosite is Some ==> final(memo).agrees(
            lookup(tag_names@, *geosite->0, qname.spec_bytes()),
        ),
        r == group_takes(group, qname.spec_bytes(), geosite),
{
    match geosite {
        Some(gs) => {
            if entry.include_ids.len() != 0 && !any_tag_matches(
                &entry.include_ids,
                qname,
                gs,
                memo,
                tag_names,
                Ghost(group.geosite_include@),
            ) {
                return false;
            }
            !any_tag_matches(
                &entry.exclude_ids,
                qname,
                gs,
                memo,
                tag_names,
                Ghost(group.geosite_exclude@),
            )
        },
        None => entry.include_ids.len() == 0,
    }
}

/// A group position, or nothing for the stand-in.
fn group_at<'a>(groups: &'a [CustomGroup], idx: usize) -> (r: Option<&'a CustomGroup>)
    ensures
        r == (if idx < groups@.len() {
            Some(&groups@[idx as int])
        } else {
            None
        }),
{
    if idx < groups.len() {
        Some(&groups[idx])
    } else {
        None
    }
}

/// Where no group has tags, decisions that agree with one database agree with all.
proof fn lemma_agrees_without_tags(
    index: RouteIndex,
    groups: Seq<CustomGroup>,
    db: Option<&GeoSiteDb>,
)
    requires
        index.describes(groups),
        index.cache_agrees(groups, db),
    ensures
        index.geosite_entries@.len() == 0 ==> forall|other: Option<&GeoSiteDb>| #[trigger]
            index.cache_agrees(groups, other),
{
    if index.geosite_entries@.len() == 0 {
        assert forall|i: int| 0 <= i < groups.len() implies has_no_tags(#[trigger] groups[i]) by {
            if !has_no_tags(groups[i]) {
                let e = choose|e: int|
                    0 <= e < index.geosite_entries@.len() && (
                    #[trigger] index.geosite_entries@[e]).group_idx == i;
                assert(index.geosite_entries@[e].group_idx == i);
            }
        }
        assert forall|other: Option<&GeoSiteDb>| #[trigger] index.cache_agrees(groups, other) by {
            assert forall|k: Seq<char>| #[trigger]
                cached_groups(index.route_cache).contains_key(k) implies cached_groups(
                index.route_cache,
            )[k] == group_number(first_group(groups, encode_utf8(k), other)) by {
                law_group_without_tags(groups, encode_utf8(k), db, other);
            }
        }
    }
}

/// Groups without tags take every name alike with every database and with none.
pub proof fn law_group_without_tags(
    groups: Seq<CustomGroup>,
    name: Seq<u8>,
    a: Option<&GeoSiteDb>,
    b: Option<&GeoSiteDb>,
)
    requires
        forall|i: int| 0 <= i < groups.len() ==> has_no_tags(#[trigger] groups[i]),
    ensures
        first_group(groups, name, a) == first_group(groups, name, b),
    decreases groups.len(),
{
    if groups.len() > 0 {
        let front = groups.drop_last();
        assert forall|i: int| 0 <= i < front.len() implies has_no_tags(#[trigger] front[i]) by {
            assert(has_no_tags(groups[i]));
        }
        law_group_without_tags(front, name, a, b);
        assert(has_no_tags(groups[groups.len() - 1]));
    }
}

impl RouteIndex {
    /// The index was built from these groups.
    pub closed spec fn describes(self, groups: Seq<CustomGroup>) -> bool {
        &&& entries_cover(
            self.geosite_entries@,
            groups,
            groups.len() as int,
            self.tag_names@,
        )
        &&& catch_all_is(self.catch_all_idx, groups, groups.len() as int)
        &&& self.num_tags == self.tag_names@.len()
        &&& groups.len() <= usize::MAX
    }

    /// Every cached decision is the one that a scan makes with this database.
    pub closed spec fn cache_agrees(self, groups: Seq<CustomGroup>, db: Option<&GeoSiteDb>) -> bool {
        db is Some || self.geosite_entries@.len() == 0 ==> forall|k: Seq<char>|
            #[trigger] cached_groups(self.route_cache).contains_key(k) ==> cached_groups(
                self.route_cache,
            )[k] == group_number(first_group(groups, encode_utf8(k), db))
    }

    /// Forgets all cached decisions, by starting over with an empty cache: afterwards the index can
    /// serve any database.
    pub fn invalidate(&mut self)
        ensures
            forall|groups: Seq<CustomGroup>| #[trigger]
                old(self).describes(groups) ==> final(self).describes(groups),
            forall|groups: Seq<CustomGroup>, db: Option<&GeoSiteDb>| #[trigger]
                final(self).cache_agrees(groups, db),
    {
        self.route_cache = new_group_cache(ROUTE_CACHE_CAPACITY);
    }

    /// Builds the index of a group list, with an empty decision cache.
    pub fn build(groups: &[CustomGroup]) -> (r: Self)
        ensures
            r.describes(groups@),
            forall|db: Option<&GeoSiteDb>| #[trigger] r.cache_agrees(groups@, db),
    {
        let mut tag_names: Vec<String> = Vec::new();
        let mut geosite_entries: Vec<GeoSiteEntry> = Vec::new();
        let mut catch_all_idx: Option<usize> = None;
        let mut idx: usize = 0;
        while idx < groups.len()
            invariant
                idx <= groups@.len(),
                entries_cover(geosite_entries@, groups@, idx as int, tag_names@),
                catch_all_is(catch_all_idx, groups@, idx as int),
            decreases groups@.len() - idx,
        {
            let group = &groups[idx];
            let ghost entries0 = geosite_entries@;
            let ghost names0 = tag_names@;
            if group.geosite_include.len() != 0 || group.geosite_exclude.len() != 0 {
                let include_ids = intern_all(&mut tag_names, &group.geosite_include);
                let ghost names1 = tag_names@;
                let exclude_ids = intern_all(&mut tag_names, &group.geosite_exclude);
                proof {
                    lemma_numbers_grow(include_ids@, group.geosite_include@, names1, tag_names@);
                    lemma_prefix_trans(names0, names1, tag_names@);
                }
                geosite_entries.push(GeoSiteEntry { group_idx: idx, include_ids, exclude_ids });
                proof {
                    let after = geosite_entries@;
                    assert forall|e: int| 0 <= e < after.len() implies {
                        let i = (#[trigger] after[e]).group_idx as int;
                        &&& 0 <= i < idx + 1
                        &&& !has_no_tags(groups@[i])
                        &&& entry_of(after[e], groups@[i], tag_names@)
                    } by {
                        if e < entries0.len() {
                            assert(after[e] == entries0[e]);
                            let g = groups@[entries0[e].group_idx as int];
                            lemma_numbers_grow(
                                entries0[e].include_ids@,
                                g.geosite_include@,
                                names0,
                                tag_names@,
                            );
                            lemma_numbers_grow(
                                entries0[e].exclude_ids@,
                                g.geosite_exclude@,
                                names0,
                                tag_names@,
                            );
                        }
                    }
                    assert forall|e: int, f: int| 0 <= e < f < after.len() implies (
                    #[trigger] after[e]).group_idx < (#[trigger] after[f]).group_idx by {
                        assert(after[e] == entries0[e]);
                        if f < entries0.len() {
                            assert(after[f] == entries0[f]);
                        }
                    }
                    assert forall|i: int|
                        0 <= i < idx + 1 && !has_no_tags(#[trigger] groups@[i]) implies exists|e: int|
                        0 <= e < after.len() && (#[trigger] after[e]).group_idx == i by {
                        if i < idx {
                            let e = choose|e: int|
                                0 <= e < entries0.len() && (#[trigger] entries0[e]).group_idx == i;
                            assert(after[e] == entries0[e]);
                        } else {
                            assert(after[entries0.len() as int].group_idx == i);
                        }
                    }
                }
            } else if catch_all_idx.is_none() {
                catch_all_idx = Some(idx);
            }
            idx += 1;
        }
        let num_tags: usize = tag_names.len();
        let route_cache = new_group_cache(ROUTE_CACHE_CAPACITY);
        RouteIndex { geosite_entries, catch_all_idx, tag_names, num_tags, route_cache }
    }

    /// The first group that takes `qname`.
    ///
    /// The decision cache must hold decisions for `geosite`: after a change of the database the
    /// cache has to be invalidated. Calls without a database may come in between: without one
    /// decisions of groups with tags are not cached.
    pub fn route<'a>(
        &mut self,
        groups: &'a [CustomGroup],
        qname: &str,
        geosite: Option<&GeoSiteDb>,
    ) -> (r: Option<&'a CustomGroup>)
        requires
            old(self).describes(groups@),
            old(self).cache_agrees(groups@, geosite),
        ensures
            final(self).describes(groups@),
            final(self).cache_agrees(groups@, geosite),
            forall|db: Option<&GeoSiteDb>|
                (geosite is None || db is None) && old(self).cache_agrees(groups@, db)
                    ==> #[trigger] final(self).cache_agrees(groups@, db),
            r == (match first_group(groups@, qname.spec_bytes(), geosite) {
                Some(i) => Some(&groups@[i]),
                None => None,
            }),
    {
        proof {
            law_first_group(groups@, qname.spec_bytes(), geosite);
        }
        let use_cache = geosite.is_some() || self.geosite_entries.len() == 0;
        if use_cache {
            let ghost before = cached_groups(self.route_cache);
            let hit = cached_group(&mut self.route_cache, qname);
            let ghost after = cached_groups(self.route_cache);
            proof {
                assert forall|k: Seq<char>| #[trigger] after.contains_key(k) implies after[k]
                    == group_number(first_group(groups@, encode_utf8(k), geosite)) by {
                    assert(after.dom().contains(k) ==> before.dom().contains(k));
                    assert(before.contains_key(k));
                }
                lemma_agrees_without_tags(*self, groups@, geosite);
            }
            match hit {
                Some(idx) => {
                    return if idx == NO_GROUP {
                        None
                    } else {
                        group_at(groups, idx)
                    };
                },
                None => {},
            }
            let idx: usize = self.route_index_uncached(qname, geosite, Ghost(groups@));
            cache_group(&mut self.route_cache, qname.to_owned(), idx);
            proof {
                let last = cached_groups(self.route_cache);
                assert forall|k: Seq<char>| #[trigger] last.contains_key(k) implies last[k]
                    == group_number(first_group(groups@, encode_utf8(k), geosite)) by {
                    let most = after.insert(qname@, idx);
                    assert(last.dom().contains(k) ==> most.dom().contains(k));
                    if k != qname@ {
                        assert(after.contains_key(k));
                    }
                }
                lemma_agrees_without_tags(*self, groups@, geosite);
            }
            return group_at(groups, idx);
        }
        let idx: usize = self.route_index_uncached(qname, geosite, Ghost(groups@));
        group_at(groups, idx)
    }

    /// Position of the first group that takes `qname`, by the compiled entries.
    fn route_index_uncached(
        &self,
        qname: &str,
        geosite: Option<&GeoSiteDb>,
        Ghost(groups): Ghost<Seq<CustomGroup>>,
    ) -> (r: usize)
        requires
            self.describes(groups),
        ensures
            r == group_number(first_group(groups, qname.spec_bytes(), geosite)),
    {
        let ghost name = qname.spec_bytes();
        proof {
            law_first_group(groups, name, geosite);
        }
        let catch_all: usize = match self.catch_all_idx {
            Some(i) => i,
            None => NO_GROUP,
        };
        let mut tag_memo = TagMemo::new(self.num_tags);
        let ghost entries = self.geosite_entries@;
        let ghost names = self.tag_names@;
        let mut e: usize = 0;
        while e < self.geosite_entries.len()
            invariant
                e <= entries.len(),
                entries == self.geosite_entries@,
                names == self.tag_names@,
                name == qname.spec_bytes(),
                entries_cover(entries, groups, groups.len() as int, names),
                groups.len() <= usize::MAX,
                geosite is Some ==> tag_memo.agrees(lookup(names, *geosite->0, name)),
                self.catch_all_idx is Some ==> 0 <= catch_all < groups.len() && has_no_tags(
                    groups[catch_all as int],
                ),
                self.catch_all_idx is None ==> catch_all == NO_GROUP,
                forall|j: int|
                    0 <= j < groups.len() && j < catch_all ==> !has_no_tags(#[trigger] groups[j]),
                forall|d: int|
                    0 <= d < e ==> !group_takes(
                        groups[(#[trigger] entries[d]).group_idx as int],
                        name,
                        geosite,
                    ),
            decreases entries.len() - e,
        {
            let entry = &self.geosite_entries[e];
            let ghost at = entry.group_idx as int;
            proof {
                assert forall|j: int| 0 <= j < at && j < catch_all implies !group_takes(
                    #[trigger] groups[j],
                    name,
                    geosite,
                ) by {
                    assert(!has_no_tags(groups[j]));
                    let d = choose|d: int|
                        0 <= d < entries.len() && (#[trigger] entries[d]).group_idx == j;
                    if d > e {
                        assert(entries[e as int].group_idx < entries[d].group_idx);
                    }
                    assert(d < e);
                }
            }
            if catch_all < entry.group_idx {
                proof {
                    assert(group_takes(groups[catch_all as int], name, geosite));
                    lemma_first_group_is(groups, name, geosite, catch_all as int);
                }
                return catch_all;
            }
            if geo_entry_matches(
                entry,
                qname,
                geosite,
                &mut tag_memo,
                &self.tag_names,
                Ghost(groups[at]),
            ) {
                proof {
                    lemma_first_group_is(groups, name, geosite, at);
                }
                return entry.group_idx;
            }
            e += 1;
        }
        proof {
            assert forall|j: int| 0 <= j < groups.len() && j < catch_all implies !group_takes(
                #[trigger] groups[j],
                name,
                geosite,
            ) by {
                assert(!has_no_tags(groups[j]));
                let d = choose|d: int|
                    0 <= d < entries.len() && (#[trigger] entries[d]).group_idx == j;
                assert(entries[d].group_idx == j);
            }
            if self.catch_all_idx is Some {
                assert(group_takes(groups[catch_all as int], name, geosite));
                lemma_first_group_is(groups, name, geosite, catch_all as int);
            }
        }
        catch_all
    }
}

// What groups take.

/// A group without included tags takes every name that none of its excluded tags holds.
pub proof fn law_exclude_only_group(group: CustomGroup, name: Seq<u8>, db: GeoSiteDb)
    requires
        group.geosite_include@.len() == 0,
    ensures
        group_takes(group, name, Some(&db)) <==> forall|i: int|
            0 <= i < group.geosite_exclude@.len() ==> !db.has_name(
                encode_utf8((#[trigger] group.geosite_exclude@[i])@),
                name,
            ),
        group_takes(group, name, None),
{
}

/// A group with included tags takes a name only where one of them holds it, and never one that an
/// excluded tag holds. Without a database it takes none.
pub proof fn law_group_takes_names_of_its_tags(
    group: CustomGroup,
    name: Seq<u8>,
    db: GeoSiteDb,
    i: int,
)
    requires
        0 <= i < group.geosite_include@.len(),
    ensures
        db.has_name(encode_utf8(group.geosite_include@[i]@), name) && (forall|j: int|
            0 <= j < group.geosite_exclude@.len() ==> !db.has_name(
                encode_utf8((#[trigger] group.geosite_exclude@[j])@),
                name,
            )) ==> group_takes(group, name, Some(&db)),
        group_takes(group, name, Some(&db)) ==> exists|j: int|
            0 <= j < group.geosite_include@.len() && db.has_name(
                encode_utf8((#[trigger] group.geosite_include@[j])@),
                name,
            ),
        forall|j: int|
            0 <= j < group.geosite_exclude@.len() && db.has_name(
                encode_utf8((#[trigger] group.geosite_exclude@[j])@),
                name,
            ) ==> !group_takes(group, name, Some(&db)),
        !group_takes(group, name, None),
{
}

/// Groups behind the one that takes a name do not matter for it.
pub proof fn law_later_groups_do_not_matter(
    groups: Seq<CustomGroup>,
    more: CustomGroup,
    name: Seq<u8>,
    db: Option<&GeoSiteDb>,
)
    ensures
        first_group(groups, name, db) is Some ==> first_group(groups.push(more), name, db)
            == first_group(groups, name, db),
        first_group(groups, name, db) is None && group_takes(more, name, db) ==> first_group(
            groups.push(more),
            name,
            db,
        ) == Some(groups.len() as int),
        first_group(groups, name, db) is None && !group_takes(more, name, db) ==> first_group(
            groups.push(more),
            name,
            db,
        ) is None,
{
    assert(groups.push(more).drop_last() =~= groups);
}

} // verus!
