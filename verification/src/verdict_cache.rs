//! Cache of fallback decisions.
//!
//! When the fallback has to choose between two servers by the addresses that the primary
//! returned, the choice is kept per name: true for the primary, false for the secondary. Entries
//! older than the configured lifetime count as absent. The cache can be written out and read back;
//! an entry keeps the time at which it was first made.

use crate::clock::{clock_reading, now_unix, since_epoch};
use crate::config::VerdictCacheConfig;
use crate::persist::{
    file_header, header_outcome, law_header_roundtrip, law_le_roundtrip, le16, le16_bytes, le64,
    le64_bytes, push_bytes, push_le16, push_le64, read_and_check_header, read_le16, read_le64,
    write_header, PersistError, FILE_HEADER_LEN,
};
use crate::text::text_from_bytes;
use quick_cache::sync::{Cache, DefaultLifecycle};
use quick_cache::UnitWeighter;
use rustc_hash::FxBuildHasher;
use std::time::SystemTime;
use vstd::prelude::*;
use vstd::slice::{slice_subrange, slice_to_vec};
use vstd::string::StringSliceAdditionalSpecFns;
use vstd::utf8::{decode_utf8, encode_utf8, valid_utf8};

verus! {

/// Path of the verdict file beside the response cache file.
pub fn persist_path_for(cache_path: &[u8]) -> (r: Vec<u8>)
    ensures
        r@ == cache_path@ + encode_utf8(".verdict"@),
{
    let mut out = slice_to_vec(cache_path);
    push_bytes(&mut out, ".verdict".as_bytes());
    out
}

/// Verdicts by name: whether it is the primary, and when that was found, in seconds since the
/// Unix epoch.
type Verdicts = Cache<
    String,
    (bool, u64),
    UnitWeighter,
    FxBuildHasher,
    DefaultLifecycle<String, (bool, u64)>,
>;

/// The verdicts that a cache holds.
pub uninterp spec fn cached_verdicts(
    cache: Cache<
        String,
        (bool, u64),
        UnitWeighter,
        FxBuildHasher,
        DefaultLifecycle<String, (bool, u64)>,
    >,
) -> Map<Seq<char>, (bool, u64)>;

/// The capacity that a cache was made with.
pub uninterp spec fn verdict_limit(
    cache: Cache<
        String,
        (bool, u64),
        UnitWeighter,
        FxBuildHasher,
        DefaultLifecycle<String, (bool, u64)>,
    >,
) -> usize;

/// `quick_cache::sync::Cache::with`: an empty cache for `capacity` entries of weight one.
#[verifier::external_body]
fn new_verdicts(capacity: usize) -> (r: Verdicts)
    ensures
        forall|k: Seq<char>| !cached_verdicts(r).contains_key(k),
        verdict_limit(r) == capacity,
{
    Cache::with(
        capacity,
        capacity as u64,
        UnitWeighter,
        FxBuildHasher,
        DefaultLifecycle::default(),
    )
}

/// `quick_cache::sync::Cache::get`: the value held under the key.
#[verifier::external_body]
fn cached_verdict(cache: &Verdicts, name: &str) -> (r: Option<(bool, u64)>)
    ensures
        r == (if cached_verdicts(*cache).contains_key(name@) {
            Some(cached_verdicts(*cache)[name@])
        } else {
            None
        }),
{
    cache.get(name)
}

/// Least room of a shard in a cache of several: the cache spreads its capacity over shards, as many
/// as the machine suggests, but takes fewer of them while a shard would have less room than this.
pub const SHARD_ROOM: usize = 32;

/// Entries that a cache of this capacity holds at once without evicting any, whatever their names.
/// A capacity that gives no two shards their room stays undivided.
pub open spec fn sure_room(limit: usize) -> nat {
    if limit < 2 * SHARD_ROOM - 1 {
        limit as nat
    } else {
        SHARD_ROOM as nat
    }
}

/// `quick_cache::sync::Cache::insert`: afterwards the cache holds nothing but earlier entries
/// under other keys and the new entry. It holds all of these where the entries before were fewer
/// than every shard has room for. Beyond that, which of them it keeps is up to its eviction, and is
/// left open.
#[verifier::external_body]
fn cache_verdict(cache: &mut Verdicts, name: String, verdict: (bool, u64))
    ensures
        cached_verdicts(*final(cache)).submap_of(
            cached_verdicts(*old(cache)).insert(name@, verdict),
        ),
        cached_verdicts(*old(cache)).len() < sure_room(verdict_limit(*old(cache)))
            ==> cached_verdicts(*final(cache)) == cached_verdicts(*old(cache)).insert(
            name@,
            verdict,
        ),
        verdict_limit(*final(cache)) == verdict_limit(*old(cache)),
{
    cache.insert(name, verdict);
}

/// `quick_cache::sync::Cache::clear`: no entry is left.
#[verifier::external_body]
fn clear_verdicts(cache: &mut Verdicts)
    ensures
        forall|k: Seq<char>| !cached_verdicts(*final(cache)).contains_key(k),
        verdict_limit(*final(cache)) == verdict_limit(*old(cache)),
{
    cache.clear();
}

/// `quick_cache::sync::Cache::iter`, collected: every entry once. The order is left open.
#[verifier::external_body]
fn list_verdicts(cache: &Verdicts) -> (r: Vec<(String, (bool, u64))>)
    ensures
        forall|i: int|
            0 <= i < r@.len() ==> cached_verdicts(*cache).contains_key((#[trigger] r@[i]).0@)
                && cached_verdicts(*cache)[r@[i].0@] == r@[i].1,
        forall|k: Seq<char>|
            cached_verdicts(*cache).contains_key(k) ==> exists|i: int|
                0 <= i < r@.len() && (#[trigger] r@[i]).0@ == k,
        forall|i: int, j: int|
            0 <= i < j < r@.len() ==> (#[trigger] r@[i]).0@ != (#[trigger] r@[j]).0@,
{
    cache.iter().collect()
}

/// End of the lifetime of an entry.
pub open spec fn deadline(ttl_secs: u64, inserted: u64) -> int {
    if inserted + ttl_secs > u64::MAX {
        u64::MAX as int
    } else {
        inserted + ttl_secs
    }
}

/// An entry made at `inserted` is past its lifetime at `now`. A lifetime of zero never ends.
pub open spec fn is_past(ttl_secs: u64, inserted: u64, now: u64) -> bool {
    ttl_secs > 0 && now >= deadline(ttl_secs, inserted)
}

/// The verdict on a name at `now`.
pub open spec fn verdict_at(
    verdicts: Map<Seq<char>, (bool, u64)>,
    ttl_secs: u64,
    name: Seq<char>,
    now: u64,
) -> Option<bool> {
    if verdicts.contains_key(name) && !is_past(ttl_secs, verdicts[name].1, now) {
        Some(verdicts[name].0)
    } else {
        None
    }
}

/// First bytes of a verdict file.
pub const PERSIST_MAGIC: [u8; 8] = [80, 68, 78, 83, 86, 48, 48, 49];

/// A verdict as it stands in a file.
pub struct SavedVerdict {
    pub inserted_unix: u64,
    pub is_primary: bool,
    pub qname: Vec<u8>,
}

/// Meaning of a saved verdict.
pub ghost struct Saved {
    pub inserted: u64,
    pub primary: bool,
    pub name: Seq<u8>,
}

impl View for SavedVerdict {
    type V = Saved;

    open spec fn view(&self) -> Saved {
        Saved { inserted: self.inserted_unix, primary: self.is_primary, name: self.qname@ }
    }
}

/// Bytes of a saved verdict.
pub open spec fn saved_bytes(e: Saved) -> Seq<u8> {
    le64_bytes(e.inserted) + seq![
        if e.primary {
            1u8
        } else {
            0u8
        },
    ] + le16_bytes(e.name.len() as u16) + e.name
}

/// Bytes of saved verdicts, one behind the other.
pub open spec fn all_saved_bytes(es: Seq<Saved>) -> Seq<u8>
    decreases es.len(),
{
    if es.len() == 0 {
        Seq::empty()
    } else {
        saved_bytes(es[0]) + all_saved_bytes(es.skip(1))
    }
}

/// A verdict file.
pub open spec fn verdict_file(es: Seq<Saved>, fingerprint: u64) -> Seq<u8> {
    file_header(PERSIST_MAGIC@, fingerprint, es.len() as u32) + all_saved_bytes(es)
}

/// The saved verdict at `i`, and where it ends.
pub open spec fn saved_at(p: Seq<u8>, i: int) -> Option<(Saved, int)> {
    if i + 11 > p.len() {
        None
    } else {
        let end = i + 11 + le16(p, i + 9);
        if end > p.len() {
            None
        } else {
            Some(
                (
                    Saved {
                        inserted: le64(p, i),
                        primary: p[i + 8] != 0,
                        name: p.subrange(i + 11, end),
                    },
                    end,
                ),
            )
        }
    }
}

/// Up to `count` saved verdicts from `i` on.
pub open spec fn saved_from(p: Seq<u8>, i: int, count: nat) -> Seq<Saved>
    decreases count,
{
    if count == 0 {
        Seq::empty()
    } else {
        match saved_at(p, i) {
            Some((e, end)) => seq![e] + saved_from(p, end, (count - 1) as nat),
            None => Seq::empty(),
        }
    }
}

/// What is kept of saved verdicts at `now`: those with a readable name that are not past their
/// lifetime.
pub open spec fn kept_of(es: Seq<Saved>, ttl_secs: u64, now: u64) -> Seq<(Seq<char>, (bool, u64))>
    decreases es.len(),
{
    if es.len() == 0 {
        Seq::empty()
    } else {
        let front = kept_of(es.drop_last(), ttl_secs, now);
        let e = es.last();
        if !is_past(ttl_secs, e.inserted, now) && valid_utf8(e.name) {
            front.push((decode_utf8(e.name), (e.primary, e.inserted)))
        } else {
            front
        }
    }
}

/// A map after entries were put into it in turn.
pub open spec fn with_all(
    m: Map<Seq<char>, (bool, u64)>,
    es: Seq<(Seq<char>, (bool, u64))>,
) -> Map<Seq<char>, (bool, u64)>
    decreases es.len(),
{
    if es.len() == 0 {
        m
    } else {
        with_all(m, es.drop_last()).insert(es.last().0, es.last().1)
    }
}

proof fn lemma_with_all_len(
    m: Map<Seq<char>, (bool, u64)>,
    es: Seq<(Seq<char>, (bool, u64))>,
)
    requires
        m.dom().finite(),
    ensures
        with_all(m, es).dom().finite(),
        with_all(m, es).len() <= m.len() + es.len(),
    decreases es.len(),
{
    if es.len() > 0 {
        let front = with_all(m, es.drop_last());
        lemma_with_all_len(m, es.drop_last());
        assert(with_all(m, es).dom() =~= front.dom().insert(es.last().0));
    }
}

/// One more entry is taken over.
proof fn lemma_taken_step(
    start: Map<Seq<char>, (bool, u64)>,
    before: Seq<(Seq<char>, (bool, u64))>,
    held: Map<Seq<char>, (bool, u64)>,
    after: Map<Seq<char>, (bool, u64)>,
    key: Seq<char>,
    value: (bool, u64),
)
    requires
        held.submap_of(with_all(start, before)),
        after.submap_of(held.insert(key, value)),
    ensures
        with_all(start, before.push((key, value))) == with_all(start, before).insert(key, value),
        after.submap_of(with_all(start, before.push((key, value)))),
        start.dom().finite() ==> with_all(start, before).len() <= start.len() + before.len(),
{
    let next = before.push((key, value));
    let most = with_all(start, next);
    assert(next.drop_last() =~= before);
    if start.dom().finite() {
        lemma_with_all_len(start, before);
    }
    assert forall|k: Seq<char>| after.dom().contains(k) implies #[trigger] most.dom().contains(k)
        && after[k] == most[k] by {
        assert(held.insert(key, value).dom().contains(k));
        if k != key {
            assert(with_all(start, before).dom().contains(k));
        }
    }
}

/// The entries list what is alive of `verdicts` at `now`, each name once.
pub open spec fn lists(
    es: Seq<Saved>,
    verdicts: Map<Seq<char>, (bool, u64)>,
    ttl_secs: u64,
    now: u64,
) -> bool {
    &&& forall|i: int|
        0 <= i < es.len() ==> alive_entry(#[trigger] es[i], verdicts, ttl_secs, now)
    &&& forall|k: Seq<char>|
        #![trigger verdicts.contains_key(k)]
        verdicts.contains_key(k) && !is_past(ttl_secs, verdicts[k].1, now) ==> has_name(es, k)
    &&& forall|i: int, j: int|
        0 <= i < j < es.len() ==> (#[trigger] es[i]).name != (#[trigger] es[j]).name
}

/// One of the entries is on the name `k`.
pub open spec fn has_name(es: Seq<Saved>, k: Seq<char>) -> bool {
    exists|i: int| 0 <= i < es.len() && (#[trigger] es[i]).name == encode_utf8(k)
}

proof fn lemma_saved_at(pre: Seq<u8>, e: Saved, rest: Seq<u8>)
    requires
        e.name.len() <= 65535,
    ensures
        saved_at(pre + saved_bytes(e) + rest, pre.len() as int) == Some(
            (e, (pre.len() + saved_bytes(e).len()) as int),
        ),
{
    let p = pre + saved_bytes(e) + rest;
    let i = pre.len() as int;
    assert(le64(p, i) == e.inserted) by {
        assert(p.subrange(i, i + 8) =~= le64_bytes(e.inserted));
        law_le_roundtrip(p, i, 0, 0, e.inserted);
    }
    assert(le16(p, i + 9) == e.name.len()) by {
        assert(p.subrange(i + 9, i + 11) =~= le16_bytes(e.name.len() as u16));
        law_le_roundtrip(p, i + 9, e.name.len() as u16, 0, 0);
    }
    assert(p[i + 8] == saved_bytes(e)[8]);
    assert(p.subrange(i + 11, i + 11 + e.name.len()) =~= e.name);
}

proof fn lemma_saved_from(pre: Seq<u8>, es: Seq<Saved>)
    requires
        forall|i: int| 0 <= i < es.len() ==> (#[trigger] es[i]).name.len() <= 65535,
    ensures
        saved_from(pre + all_saved_bytes(es), pre.len() as int, es.len()) == es,
    decreases es.len(),
{
    if es.len() > 0 {
        let rest = es.skip(1);
        let head = pre + saved_bytes(es[0]);
        lemma_saved_at(pre, es[0], all_saved_bytes(rest));
        lemma_saved_from(head, rest);
        assert(pre + all_saved_bytes(es) =~= head + all_saved_bytes(rest));
        assert(seq![es[0]] + rest =~= es);
    } else {
        assert(saved_from(pre + all_saved_bytes(es), pre.len() as int, 0) =~= es);
    }
}

/// What was written is what is read: a verdict file, read under the configuration it was written
/// under, gives back its entries.
pub proof fn law_verdicts_roundtrip(es: Seq<Saved>, fingerprint: u64)
    requires
        es.len() <= u32::MAX,
        forall|i: int| 0 <= i < es.len() ==> (#[trigger] es[i]).name.len() <= 65535,
    ensures
        header_outcome(verdict_file(es, fingerprint), PERSIST_MAGIC@, fingerprint) == Ok::<
            u32,
            PersistError,
        >(es.len() as u32),
        saved_from(verdict_file(es, fingerprint), FILE_HEADER_LEN as int, es.len()) == es,
{
    let head = file_header(PERSIST_MAGIC@, fingerprint, es.len() as u32);
    law_header_roundtrip(PERSIST_MAGIC@, fingerprint, es.len() as u32, all_saved_bytes(es));
    lemma_saved_from(head, es);
}

/// A verdict that was put in is read back while it is alive, and the other verdicts stay as they
/// are.
pub proof fn law_added_verdict_is_read(
    verdicts: Map<Seq<char>, (bool, u64)>,
    ttl_secs: u64,
    name: Seq<char>,
    is_primary: bool,
    made: u64,
    now: u64,
)
    requires
        !is_past(ttl_secs, made, now),
    ensures
        verdict_at(verdicts.insert(name, (is_primary, made)), ttl_secs, name, now) == Some(
            is_primary,
        ),
        forall|other: Seq<char>|
            other != name ==> #[trigger] verdict_at(
                verdicts.insert(name, (is_primary, made)),
                ttl_secs,
                other,
                now,
            ) == verdict_at(verdicts, ttl_secs, other, now),
{
}

/// A verdict file is refused under any other configuration.
pub proof fn law_other_configuration_refused(es: Seq<Saved>, fingerprint: u64, other: u64)
    requires
        other != fingerprint,
    ensures
        header_outcome(verdict_file(es, fingerprint), PERSIST_MAGIC@, other) == Err::<
            u32,
            PersistError,
        >(PersistError::OtherConfig),
{
    let p = verdict_file(es, fingerprint);
    assert(p.take(8) =~= PERSIST_MAGIC@);
    assert(p.subrange(8, 16) =~= le64_bytes(fingerprint));
    law_le_roundtrip(p, 8, 0, 0, fingerprint);
}

proof fn lemma_saved_push(es: Seq<Saved>, e: Saved)
    ensures
        all_saved_bytes(es.push(e)) == all_saved_bytes(es) + saved_bytes(e),
    decreases es.len(),
{
    if es.len() == 0 {
        reveal_with_fuel(all_saved_bytes, 2);
        assert(es.push(e).skip(1) =~= Seq::<Saved>::empty());
        assert(all_saved_bytes(es.push(e)) =~= all_saved_bytes(es) + saved_bytes(e));
    } else {
        lemma_saved_push(es.skip(1), e);
        assert(es.push(e).skip(1) =~= es.skip(1).push(e));
        assert(all_saved_bytes(es.push(e)) =~= all_saved_bytes(es) + saved_bytes(e));
    }
}

/// Meanings of saved verdicts.
pub open spec fn meanings(es: Seq<SavedVerdict>) -> Seq<Saved> {
    es.map_values(|e: SavedVerdict| e@)
}

/// Bytes of a verdict file.
pub fn encode_verdicts(entries: &Vec<SavedVerdict>, fingerprint: u64) -> (r: Vec<u8>)
    ensures
        r@ == verdict_file(meanings(entries@), fingerprint),
{
    let mut out: Vec<u8> = Vec::new();
    write_header(&mut out, PERSIST_MAGIC.as_slice(), fingerprint, #[verifier::truncate] (entries.len() as u32));
    let ghost head = out@;
    let ghost all = meanings(entries@);
    proof {
        assert(head =~= file_header(PERSIST_MAGIC@, fingerprint, all.len() as u32));
        assert(head + all_saved_bytes(all.take(0)) =~= head);
    }
    let mut i: usize = 0;
    while i < entries.len()
        invariant
            i <= entries@.len(),
            all == meanings(entries@),
            out@ == head + all_saved_bytes(all.take(i as int)),
        decreases entries@.len() - i,
    {
        let ghost so_far = out@;
        let e = &entries[i];
        push_le64(&mut out, e.inserted_unix);
        out.push(
            if e.is_primary {
                1
            } else {
                0
            },
        );
        push_le16(&mut out, #[verifier::truncate] (e.qname.len() as u16));
        push_bytes(&mut out, e.qname.as_slice());
        proof {
            assert(out@ =~= so_far + saved_bytes(all[i as int]));
            lemma_saved_push(all.take(i as int), all[i as int]);
            assert(all.take(i + 1) =~= all.take(i as int).push(all[i as int]));
            assert(out@ =~= head + all_saved_bytes(all.take(i + 1)));
        }
        i += 1;
    }
    proof {
        assert(all.take(all.len() as int) =~= all);
    }
    out
}

/// Reads a verdict file: its entries, and whether it has as many as its header says.
pub fn decode_verdicts(p: &[u8], fingerprint: u64) -> (r: Result<
    (Vec<SavedVerdict>, bool),
    PersistError,
>)
    ensures
        match header_outcome(p@, PERSIST_MAGIC@, fingerprint) {
            Ok(count) => match r {
                Ok((es, complete)) => {
                    &&& meanings(es@) == saved_from(p@, FILE_HEADER_LEN as int, count as nat)
                    &&& complete == (es@.len() == count)
                },
                Err(_) => false,
            },
            Err(e) => r == Err::<(Vec<SavedVerdict>, bool), PersistError>(e),
        },
{
    let count: u32 = match read_and_check_header(p, PERSIST_MAGIC.as_slice(), fingerprint) {
        Ok(count) => count,
        Err(e) => {
            return Err(e);
        },
    };
    let ghost whole = saved_from(p@, FILE_HEADER_LEN as int, count as nat);
    let mut out: Vec<SavedVerdict> = Vec::new();
    let mut at: usize = FILE_HEADER_LEN;
    let mut left: u32 = count;
    proof {
        assert(meanings(out@) + whole =~= whole);
    }
    while left > 0
        invariant
            at <= p@.len(),
            out@.len() + left == count,
            whole == saved_from(p@, FILE_HEADER_LEN as int, count as nat),
            meanings(out@) + saved_from(p@, at as int, left as nat) == whole,
            header_outcome(p@, PERSIST_MAGIC@, fingerprint) == Ok::<u32, PersistError>(count),
        decreases left,
    {
        assert(p.len() == p@.len());
        let ghost before = meanings(out@);
        if p.len() - at < 11 {
            proof {
                assert(meanings(out@) =~= whole);
            }
            return Ok((out, false));
        }
        let len: usize = read_le16(p, at + 9) as usize;
        if p.len() - at - 11 < len {
            proof {
                assert(meanings(out@) =~= whole);
            }
            return Ok((out, false));
        }
        let entry = SavedVerdict {
            inserted_unix: read_le64(p, at),
            is_primary: p[at + 8] != 0,
            qname: slice_to_vec(slice_subrange(p, at + 11, at + 11 + len)),
        };
        let ghost rest = saved_from(p@, at + 11 + len, (left - 1) as nat);
        proof {
            assert(saved_at(p@, at as int) == Some((entry@, at + 11 + len)));
            assert(before + (seq![entry@] + rest) =~= before.push(entry@) + rest);
        }
        out.push(entry);
        proof {
            assert(meanings(out@) =~= before.push(out@.last()@));
        }
        at = at + 11 + len;
        left -= 1;
    }
    proof {
        assert(meanings(out@) =~= whole);
    }
    Ok((out, true))
}

/// What a cache with these settings, whether it keeps verdicts, their lifetime and its sure room,
/// holds after it took over a file at `now`: all entries of the file that are alive, as far as there
/// is room.
pub open spec fn taken_over(
    before: Map<Seq<char>, (bool, u64)>,
    after: Map<Seq<char>, (bool, u64)>,
    settings: (bool, u64, nat),
    p: Seq<u8>,
    fingerprint: u64,
    now: u64,
) -> bool {
    if !settings.0 {
        after == before
    } else {
        match header_outcome(p, PERSIST_MAGIC@, fingerprint) {
            Ok(count) => {
                let kept = kept_of(
                    saved_from(p, FILE_HEADER_LEN as int, count as nat),
                    settings.1,
                    now,
                );
                &&& after.submap_of(with_all(before, kept))
                &&& before.dom().finite() && before.len() + kept.len() <= settings.2 ==> after
                    == with_all(before, kept)
            },
            Err(_) => after == before,
        }
    }
}

/// Cache of fallback decisions; one without room keeps nothing.
pub struct VerdictCache {
    inner: Option<Verdicts>,
    ttl_secs: u64,
}

impl View for VerdictCache {
    type V = Map<Seq<char>, (bool, u64)>;

    /// Every verdict held, with the time at which it was made.
    closed spec fn view(&self) -> Map<Seq<char>, (bool, u64)> {
        match self.inner {
            Some(cache) => cached_verdicts(cache),
            None => Map::empty(),
        }
    }
}

impl VerdictCache {
    /// Lifetime of an entry in seconds; zero for ever.
    pub closed spec fn ttl(self) -> u64 {
        self.ttl_secs
    }

    /// The cache keeps verdicts.
    pub closed spec fn keeps(self) -> bool {
        self.inner is Some
    }

    /// Verdicts that the cache holds at once without one having to leave.
    pub closed spec fn room(self) -> nat {
        match self.inner {
            Some(cache) => sure_room(verdict_limit(cache)),
            None => 0,
        }
    }

    /// A cache for the configured number of entries. Without a configuration, or with room for
    /// none, the cache is disabled.
    pub fn new(cfg: Option<&VerdictCacheConfig>) -> (r: Self)
        ensures
            r.keeps() == (cfg is Some && cfg->0.capacity > 0),
            r.ttl() == (if r.keeps() {
                cfg->0.ttl_secs
            } else {
                0
            }),
            r.room() == (if r.keeps() {
                sure_room(cfg->0.capacity)
            } else {
                0
            }),
            r@ == Map::<Seq<char>, (bool, u64)>::empty(),
    {
        let r = match cfg {
            Some(c) => if c.capacity == 0 {
                VerdictCache { inner: None, ttl_secs: 0 }
            } else {
                VerdictCache { inner: Some(new_verdicts(c.capacity)), ttl_secs: c.ttl_secs }
            },
            None => VerdictCache { inner: None, ttl_secs: 0 },
        };
        proof {
            assert(r@ =~= Map::<Seq<char>, (bool, u64)>::empty());
        }
        r
    }

    pub fn enabled(&self) -> (r: bool)
        ensures
            r == self.keeps(),
    {
        self.inner.is_some()
    }

    fn is_expired(&self, inserted_unix: u64, now: u64) -> (r: bool)
        ensures
            r == is_past(self.ttl(), inserted_unix, now),
    {
        let deadline: u64 = if u64::MAX - inserted_unix < self.ttl_secs {
            u64::MAX
        } else {
            inserted_unix + self.ttl_secs
        };
        self.ttl_secs > 0 && now >= deadline
    }

    /// The verdict on a normalized name at `now`.
    pub fn get_at(&self, qname: &str, now: u64) -> (r: Option<bool>)
        ensures
            r == verdict_at(self@, self.ttl(), qname@, now),
    {
        match &self.inner {
            Some(cache) => match cached_verdict(cache, qname) {
                Some((is_primary, inserted_unix)) => if self.is_expired(inserted_unix, now) {
                    None
                } else {
                    Some(is_primary)
                },
                None => None,
            },
            None => None,
        }
    }

    /// The verdict on a normalized name at this moment.
    pub fn get(&self, qname: &str) -> (r: Option<bool>)
        ensures
            exists|at: SystemTime|
                r == verdict_at(
                    self@,
                    self.ttl(),
                    qname@,
                    since_epoch(#[trigger] clock_reading(at)).0,
                ),
    {
        let now: u64 = now_unix();
        self.get_at(qname, now)
    }

    /// Forgets all verdicts. Whoever changes the routing has to call this.
    pub fn invalidate_all(&mut self)
        ensures
            final(self)@ == Map::<Seq<char>, (bool, u64)>::empty(),
            final(self).room() == old(self).room(),
            final(self).ttl() == old(self).ttl(),
            final(self).keeps() == old(self).keeps(),
    {
        match self.inner.take() {
            Some(mut cache) => {
                clear_verdicts(&mut cache);
                self.inner = Some(cache);
            },
            None => {},
        }
        proof {
            assert(self@ =~= Map::<Seq<char>, (bool, u64)>::empty());
        }
    }

    /// Keeps a verdict on a normalized name, made at `now`. Where there is no sure room, an entry
    /// may have to leave.
    pub fn add_at(&mut self, qname: &str, is_primary: bool, now: u64)
        ensures
            final(self)@.submap_of(old(self)@.insert(qname@, (is_primary, now))),
            old(self)@.len() < old(self).room() ==> final(self)@ == old(self)@.insert(
                qname@,
                (is_primary, now),
            ),
            !old(self).keeps() ==> final(self)@ == old(self)@,
            final(self).room() == old(self).room(),
            final(self).ttl() == old(self).ttl(),
            final(self).keeps() == old(self).keeps(),
    {
        match self.inner.take() {
            Some(mut cache) => {
                cache_verdict(&mut cache, qname.to_owned(), (is_primary, now));
                self.inner = Some(cache);
            },
            None => {},
        }
    }

    /// Keeps a verdict on a normalized name, made at this moment.
    pub fn add(&mut self, qname: &str, is_primary: bool)
        ensures
            exists|at: SystemTime|
                {
                    let now = since_epoch(#[trigger] clock_reading(at)).0;
                    &&& final(self)@.submap_of(old(self)@.insert(qname@, (is_primary, now)))
                    &&& old(self)@.len() < old(self).room() ==> final(self)@ == old(self)@.insert(
                        qname@,
                        (is_primary, now),
                    )
                },
            !old(self).keeps() ==> final(self)@ == old(self)@,
            final(self).room() == old(self).room(),
            final(self).ttl() == old(self).ttl(),
            final(self).keeps() == old(self).keeps(),
    {
        let now: u64 = now_unix();
        self.add_at(qname, is_primary, now);
    }

    /// The verdicts alive at `now`, ready to be written out.
    pub fn alive_at(&self, now: u64) -> (r: Vec<SavedVerdict>)
        ensures
            lists(meanings(r@), self@, self.ttl(), now),
    {
        let mut out: Vec<SavedVerdict> = Vec::new();
        match &self.inner {
            Some(cache) => {
                let all = list_verdicts(cache);
                let ghost held = cached_verdicts(*cache);
                let mut i: usize = 0;
                while i < all.len()
                    invariant
                        i <= all@.len(),
                        held == self@,
                        forall|k: int|
                            0 <= k < all@.len() ==> held.contains_key((#[trigger] all@[k]).0@)
                                && held[all@[k].0@] == all@[k].1,
                        forall|k: int, j: int|
                            0 <= k < j < all@.len() ==> (#[trigger] all@[k]).0@ != (
                            #[trigger] all@[j]).0@,
                        forall|k: int|
                            #![trigger out@[k]]
                            0 <= k < out@.len() ==> alive_entry(out@[k]@, held, self.ttl(), now)
                                && exists|m: int|
                                0 <= m < i && out@[k]@.name == encode_utf8(
                                    (#[trigger] all@[m]).0@,
                                ),
                        forall|k: int, j: int|
                            0 <= k < j < out@.len() ==> (#[trigger] out@[k])@.name != (
                            #[trigger] out@[j])@.name,
                        forall|m: int|
                            0 <= m < i && !is_past(self.ttl(), (#[trigger] all@[m]).1.1, now)
                                ==> has_name(meanings(out@), all@[m].0@),
                    decreases all@.len() - i,
                {
                    let ghost before = out@;
                    let (is_primary, inserted_unix) = all[i].1;
                    if !self.is_expired(inserted_unix, now) {
                        let e = SavedVerdict {
                            inserted_unix,
                            is_primary,
                            qname: slice_to_vec(all[i].0.as_str().as_bytes()),
                        };
                        proof {
                            vstd::utf8::encode_utf8_valid_utf8(all@[i as int].0@);
                            vstd::utf8::encode_utf8_decode_utf8(all@[i as int].0@);
                            assert(e@.name == encode_utf8(all@[i as int].0@));
                            assert forall|k: int| 0 <= k < out@.len() implies (
                            #[trigger] out@[k])@.name != e@.name by {
                                let m = choose|m: int|
                                    0 <= m < i && out@[k]@.name == encode_utf8(
                                        (#[trigger] all@[m]).0@,
                                    );
                                vstd::utf8::encode_utf8_decode_utf8(all@[m].0@);
                                assert(all@[m].0@ != all@[i as int].0@);
                            }
                        }
                        out.push(e);
                        proof {
                            assert(meanings(out@).last().name == encode_utf8(all@[i as int].0@));
                            assert(has_name(meanings(out@), all@[i as int].0@)) by {
                                assert(meanings(out@)[before.len() as int].name == encode_utf8(
                                    all@[i as int].0@,
                                ));
                            }
                            assert forall|m: int|
                                0 <= m < i && !is_past(self.ttl(), (#[trigger] all@[m]).1.1, now)
                                implies has_name(meanings(out@), all@[m].0@) by {
                                let x = choose|x: int|
                                    0 <= x < meanings(before).len() && (
                                    #[trigger] meanings(before)[x]).name == encode_utf8(
                                        all@[m].0@,
                                    );
                                assert(meanings(out@)[x] == meanings(before)[x]);
                            }
                        }
                    }
                    i += 1;
                }
                proof {
                    let es = meanings(out@);
                    assert forall|i: int| 0 <= i < es.len() implies alive_entry(
                        #[trigger] es[i],
                        held,
                        self.ttl(),
                        now,
                    ) by {
                        assert(es[i] == out@[i]@);
                    }
                    assert forall|k: Seq<char>|
                        #![trigger held.contains_key(k)]
                        held.contains_key(k) && !is_past(self.ttl(), held[k].1, now)
                        implies has_name(es, k) by {
                        let m = choose|m: int| 0 <= m < all@.len() && (#[trigger] all@[m]).0@ == k;
                        assert(held[all@[m].0@] == all@[m].1);
                    }
                    assert forall|i: int, j: int| 0 <= i < j < es.len() implies (
                    #[trigger] es[i]).name != (#[trigger] es[j]).name by {
                        assert(es[i] == out@[i]@);
                        assert(es[j] == out@[j]@);
                    }
                }
            },
            None => {},
        }
        out
    }

    /// The file that keeps the verdicts alive at `now`; `None` for a disabled cache.
    pub fn save_at(&self, fingerprint: u64, now: u64) -> (r: Option<(Vec<u8>, usize)>)
        ensures
            match r {
                Some((bytes, count)) => self.keeps() && exists|es: Seq<Saved>| #[trigger]
                    lists(es, self@, self.ttl(), now) && bytes@ == verdict_file(es, fingerprint)
                        && count == es.len(),
                None => !self.keeps(),
            },
    {
        if self.inner.is_none() {
            return None;
        }
        let entries = self.alive_at(now);
        let count: usize = entries.len();
        let ghost es = meanings(entries@);
        assert(lists(es, self@, self.ttl(), now));
        assert(es.len() == count);
        Some((encode_verdicts(&entries, fingerprint), count))
    }

    /// Takes over a verdict file at `now`: entries that are not past their lifetime, each with
    /// the time at which it was first made. A file that ends too early is taken over as far as it
    /// goes. Returns how many entries were put in.
    pub fn load_at(&mut self, p: &[u8], fingerprint: u64, now: u64) -> (r: Result<
        usize,
        PersistError,
    >)
        ensures
            final(self).ttl() == old(self).ttl(),
            final(self).keeps() == old(self).keeps(),
            final(self).room() == old(self).room(),
            taken_over(
                old(self)@,
                final(self)@,
                (old(self).keeps(), old(self).ttl(), old(self).room()),
                p@,
                fingerprint,
                now,
            ),
            if !old(self).keeps() {
                r == Ok::<usize, PersistError>(0)
            } else {
                match header_outcome(p@, PERSIST_MAGIC@, fingerprint) {
                    Ok(count) => {
                        let es = saved_from(p@, FILE_HEADER_LEN as int, count as nat);
                        let kept = kept_of(es, old(self).ttl(), now);
                        if es.len() == count {
                            match r {
                                Ok(n) => n == kept.len(),
                                Err(_) => false,
                            }
                        } else {
                            r == Err::<usize, PersistError>(PersistError::Truncated)
                        }
                    },
                    Err(e) => r == Err::<usize, PersistError>(e),
                }
            },
    {
        if self.inner.is_none() {
            return Ok(0);
        }
        let (entries, complete) = match decode_verdicts(p, fingerprint) {
            Ok(found) => found,
            Err(e) => {
                return Err(e);
            },
        };
        let ghost es = meanings(entries@);
        let ghost start = self@;
        let mut loaded: usize = 0;
        let mut i: usize = 0;
        while i < entries.len()
            invariant
                i <= entries@.len(),
                es == meanings(entries@),
                self.ttl() == old(self).ttl(),
                self.keeps() == old(self).keeps(),
                self.room() == old(self).room(),
                self.keeps(),
                loaded <= i,
                loaded == kept_of(es.take(i as int), self.ttl(), now).len(),
                self@.submap_of(with_all(start, kept_of(es.take(i as int), self.ttl(), now))),
                start.dom().finite() && start.len() + loaded <= self.room() ==> self@ == with_all(
                    start,
                    kept_of(es.take(i as int), self.ttl(), now),
                ),
            decreases entries@.len() - i,
        {
            let ghost before = kept_of(es.take(i as int), self.ttl(), now);
            let ghost held = self@;
            proof {
                assert(es.take(i + 1).drop_last() =~= es.take(i as int));
                assert(es.take(i + 1).last() == entries@[i as int]@);
            }
            let inserted_unix: u64 = entries[i].inserted_unix;
            let is_primary: bool = entries[i].is_primary;
            if !self.is_expired(inserted_unix, now) {
                match text_from_bytes(slice_to_vec(entries[i].qname.as_slice())) {
                    Some(qname) => {
                        self.add_at(qname.as_str(), is_primary, inserted_unix);
                        loaded += 1;
                        proof {
                            lemma_taken_step(
                                start,
                                before,
                                held,
                                self@,
                                qname@,
                                (is_primary, inserted_unix),
                            );
                        }
                    },
                    None => {},
                }
            }
            i += 1;
        }
        proof {
            assert(es.take(es.len() as int) =~= es);
        }
        if complete {
            Ok(loaded)
        } else {
            Err(PersistError::Truncated)
        }
    }
}

/// An entry is alive and says what is held.
pub open spec fn alive_entry(
    e: Saved,
    verdicts: Map<Seq<char>, (bool, u64)>,
    ttl_secs: u64,
    now: u64,
) -> bool {
    &&& valid_utf8(e.name)
    &&& verdicts.contains_key(decode_utf8(e.name))
    &&& verdicts[decode_utf8(e.name)] == (e.primary, e.inserted)
    &&& !is_past(ttl_secs, e.inserted, now)
}

/// The saved entry `i` is on the name `k` and still alive.
spec fn restores(es: Seq<Saved>, i: int, k: Seq<char>, ttl_secs: u64, now: u64) -> bool {
    &&& 0 <= i < es.len()
    &&& valid_utf8(es[i].name)
    &&& decode_utf8(es[i].name) == k
    &&& !is_past(ttl_secs, es[i].inserted, now)
}

proof fn lemma_restored(es: Seq<Saved>, ttl_secs: u64, now: u64)
    requires
        forall|i: int, j: int|
            0 <= i < j < es.len() ==> (#[trigger] es[i]).name != (#[trigger] es[j]).name,
    ensures
        ({
            let w = with_all(Map::empty(), kept_of(es, ttl_secs, now));
            &&& forall|k: Seq<char>|
                #[trigger] w.contains_key(k) ==> exists|i: int|
                    restores(es, i, k, ttl_secs, now) && w[k] == (es[i].primary, es[i].inserted)
            &&& forall|i: int, k: Seq<char>| #[trigger]
                restores(es, i, k, ttl_secs, now) ==> w.contains_key(k) && w[k] == (
                    es[i].primary,
                    es[i].inserted,
                )
            &&& w.dom().finite()
            &&& w.len() == kept_of(es, ttl_secs, now).len()
        }),
    decreases es.len(),
{
    let w = with_all(Map::empty(), kept_of(es, ttl_secs, now));
    assert(Map::<Seq<char>, (bool, u64)>::empty().dom() =~= Set::empty());
    if es.len() > 0 {
        let front = es.drop_last();
        let n = es.len() - 1;
        let e = es.last();
        let before = kept_of(front, ttl_secs, now);
        let w0 = with_all(Map::empty(), before);
        assert forall|i: int, j: int| 0 <= i < j < front.len() implies (#[trigger] front[i]).name
            != (#[trigger] front[j]).name by {
            assert(front[i] == es[i] && front[j] == es[j]);
        }
        lemma_restored(front, ttl_secs, now);
        if !is_past(ttl_secs, e.inserted, now) && valid_utf8(e.name) {
            let key = decode_utf8(e.name);
            assert(kept_of(es, ttl_secs, now).drop_last() =~= before);
            assert(w == w0.insert(key, (e.primary, e.inserted)));
            assert(restores(es, n, key, ttl_secs, now));
            assert(!w0.contains_key(key)) by {
                if w0.contains_key(key) {
                    let i = choose|i: int|
                        restores(front, i, key, ttl_secs, now) && w0[key] == (
                            front[i].primary,
                            front[i].inserted,
                        );
                    assert(front[i] == es[i]);
                    vstd::utf8::decode_utf8_encode_utf8(e.name);
                    vstd::utf8::decode_utf8_encode_utf8(es[i].name);
                    assert(es[i].name == es[n].name);
                }
            }
            assert(w.dom() =~= w0.dom().insert(key));
        } else {
            assert(w == w0);
        }
        assert forall|k: Seq<char>| #[trigger] w.contains_key(k) implies exists|i: int|
            restores(es, i, k, ttl_secs, now) && w[k] == (es[i].primary, es[i].inserted) by {
            if restores(es, n, k, ttl_secs, now) {
                assert(w[k] == (es[n].primary, es[n].inserted));
            } else {
                assert(w0.contains_key(k));
                let i = choose|i: int|
                    restores(front, i, k, ttl_secs, now) && w0[k] == (
                        front[i].primary,
                        front[i].inserted,
                    );
                assert(front[i] == es[i]);
                assert(restores(es, i, k, ttl_secs, now));
            }
        }
        assert forall|i: int, k: Seq<char>| #[trigger]
            restores(es, i, k, ttl_secs, now) implies w.contains_key(k) && w[k] == (
            es[i].primary,
            es[i].inserted,
        ) by {
            if i < n {
                assert(front[i] == es[i]);
                assert(restores(front, i, k, ttl_secs, now));
                if valid_utf8(e.name) && decode_utf8(e.name) == k {
                    vstd::utf8::decode_utf8_encode_utf8(e.name);
                    vstd::utf8::decode_utf8_encode_utf8(es[i].name);
                    assert(es[i].name == es[n].name);
                }
            }
        }
    }
}

proof fn lemma_kept_are_alive(es: Seq<Saved>, ttl_secs: u64, now: u64)
    requires
        forall|i: int| 0 <= i < es.len() ==> valid_utf8((#[trigger] es[i]).name),
    ensures
        kept_of(es, ttl_secs, now).len() == es.filter(
            |e: Saved| !is_past(ttl_secs, e.inserted, now),
        ).len(),
    decreases es.len(),
{
    reveal(Seq::filter);
    if es.len() > 0 {
        assert forall|i: int| 0 <= i < es.len() - 1 implies valid_utf8(
            (#[trigger] es.drop_last()[i]).name,
        ) by {
            assert(es.drop_last()[i] == es[i]);
        }
        lemma_kept_are_alive(es.drop_last(), ttl_secs, now);
        assert(valid_utf8(es[es.len() - 1].name));
    }
}

/// A cache that was saved at one time and restored at a later one, into an empty cache with the
/// same lifetime, gives no answer that the saved one would not give at that time. As many entries
/// count as taken over as are still alive. The cache answers every question as the saved one would
/// exactly when it holds that many, that is when none of them had to leave; with enough room none
/// has to.
pub proof fn law_saved_verdicts_are_restored(
    verdicts: Map<Seq<char>, (bool, u64)>,
    es: Seq<Saved>,
    after: Map<Seq<char>, (bool, u64)>,
    ttl_secs: u64,
    room: nat,
    fingerprint: u64,
    saved: u64,
    now: u64,
)
    requires
        saved <= now,
        lists(es, verdicts, ttl_secs, saved),
        es.len() <= u32::MAX,
        forall|i: int| 0 <= i < es.len() ==> (#[trigger] es[i]).name.len() <= 65535,
        taken_over(
            Map::empty(),
            after,
            (true, ttl_secs, room),
            verdict_file(es, fingerprint),
            fingerprint,
            now,
        ),
    ensures
        forall|k: Seq<char>|
            (#[trigger] verdict_at(after, ttl_secs, k, now)) is Some ==> verdict_at(
                after,
                ttl_secs,
                k,
                now,
            ) == verdict_at(verdicts, ttl_secs, k, now),
        kept_of(es, ttl_secs, now).len() == es.filter(
            |e: Saved| !is_past(ttl_secs, e.inserted, now),
        ).len(),
        after.len() == kept_of(es, ttl_secs, now).len() <==> forall|k: Seq<char>| #[trigger]
            verdict_at(after, ttl_secs, k, now) == verdict_at(verdicts, ttl_secs, k, now),
        es.len() <= room ==> after.len() == kept_of(es, ttl_secs, now).len(),
{
    law_verdicts_roundtrip(es, fingerprint);
    lemma_restored(es, ttl_secs, now);
    lemma_kept_len(es, ttl_secs, now);
    assert forall|i: int| 0 <= i < es.len() implies valid_utf8((#[trigger] es[i]).name) by {
        assert(alive_entry(es[i], verdicts, ttl_secs, saved));
    }
    lemma_kept_are_alive(es, ttl_secs, now);
    let all = with_all(Map::empty(), kept_of(es, ttl_secs, now));
    assert(Map::<Seq<char>, (bool, u64)>::empty().dom() =~= Set::empty());
    assert(after.submap_of(all));
    assert(es.len() <= room ==> after == all);
    assert(after.dom().subset_of(all.dom()));
    vstd::set_lib::lemma_len_subset(after.dom(), all.dom());
    let whole = after.len() == all.len();
    if whole {
        vstd::set_lib::lemma_subset_equality(after.dom(), all.dom());
        assert(after =~= all);
    }
    assert forall|k: Seq<char>| (#[trigger] verdict_at(after, ttl_secs, k, now)) is Some
        || whole implies verdict_at(after, ttl_secs, k, now) == verdict_at(
        verdicts,
        ttl_secs,
        k,
        now,
    ) by {
        if after.contains_key(k) {
            assert(after.dom().contains(k) ==> all.dom().contains(k));
            assert(all.contains_key(k) && all[k] == after[k]);
        }
        if verdicts.contains_key(k) && !is_past(ttl_secs, verdicts[k].1, now) {
            assert(!is_past(ttl_secs, verdicts[k].1, saved));
            assert(has_name(es, k));
            let i = choose|i: int|
                0 <= i < es.len() && (#[trigger] es[i]).name == encode_utf8(k);
            vstd::utf8::encode_utf8_valid_utf8(k);
            vstd::utf8::encode_utf8_decode_utf8(k);
            assert(alive_entry(es[i], verdicts, ttl_secs, saved));
            assert(restores(es, i, k, ttl_secs, now));
            assert(all.contains_key(k));
        } else if after.contains_key(k) {
            let i = choose|i: int|
                restores(es, i, k, ttl_secs, now) && all[k] == (es[i].primary, es[i].inserted);
            assert(alive_entry(es[i], verdicts, ttl_secs, saved));
        }
    }
    if forall|k: Seq<char>| #[trigger]
        verdict_at(after, ttl_secs, k, now) == verdict_at(verdicts, ttl_secs, k, now) {
        assert forall|k: Seq<char>| all.dom().contains(k) implies after.dom().contains(k) by {
            assert(all.contains_key(k));
            let i = choose|i: int|
                restores(es, i, k, ttl_secs, now) && all[k] == (es[i].primary, es[i].inserted);
            assert(alive_entry(es[i], verdicts, ttl_secs, saved));
            assert(verdict_at(verdicts, ttl_secs, k, now) is Some);
            assert(verdict_at(after, ttl_secs, k, now) is Some);
        }
        assert(after.dom() =~= all.dom());
    }
}

proof fn lemma_kept_len(es: Seq<Saved>, ttl_secs: u64, now: u64)
    ensures
        kept_of(es, ttl_secs, now).len() <= es.len(),
    decreases es.len(),
{
    if es.len() > 0 {
        lemma_kept_len(es.drop_last(), ttl_secs, now);
    }
}

/// A verdict answers from the moment at which it was made until its lifetime is over, and not from
/// then on; without a lifetime it answers for ever. A name without a verdict gets none.
pub proof fn law_verdict_lives_for_its_lifetime(
    verdicts: Map<Seq<char>, (bool, u64)>,
    ttl_secs: u64,
    name: Seq<char>,
    is_primary: bool,
    made: u64,
    now: u64,
)
    requires
        made + ttl_secs < u64::MAX,
    ensures
        ({
            let after = verdicts.insert(name, (is_primary, made));
            &&& ttl_secs == 0 ==> verdict_at(after, ttl_secs, name, now) == Some(is_primary)
            &&& ttl_secs > 0 && now < made + ttl_secs ==> verdict_at(after, ttl_secs, name, now)
                == Some(is_primary)
            &&& ttl_secs > 0 && now >= made + ttl_secs ==> verdict_at(after, ttl_secs, name, now)
                is None
            &&& verdict_at(verdicts.remove(name), ttl_secs, name, now) is None
        }),
{
}

/// A verdict lives the longer the later it is made, and once it is over it stays over.
pub proof fn law_verdicts_do_not_revive(ttl_secs: u64, made: u64, later: u64, now: u64, then: u64)
    requires
        made <= later,
        now <= then,
    ensures
        is_past(ttl_secs, made, now) ==> is_past(ttl_secs, made, then),
        is_past(ttl_secs, later, now) ==> is_past(ttl_secs, made, now),
        is_past(ttl_secs, made, now) ==> now >= made,
{
}

} // verus!
