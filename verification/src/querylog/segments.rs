//! Segment files: their names, which of them are listed, and which have to go.

use crate::persist::push_bytes;
use crate::clock::{clock_reading, micros_of_time, since_epoch};
use crate::querylog::unix_micros_now;
use crate::text::{
    decimal_text, decimal_value, find_byte, has_prefix, has_suffix, number_text, padded,
    padded_text, parse_u64,
};
use std::time::SystemTime;
use vstd::prelude::*;
use vstd::slice::{slice_subrange, slice_to_vec};
use vstd::string::{StringExecFns, StringSliceAdditionalSpecFns};
use vstd::utf8::encode_utf8;

verus! {

/// A byte string comes before another, or is the same: in the order of bytes.
pub open spec fn at_most(a: Seq<u8>, b: Seq<u8>) -> bool
    decreases a.len(),
{
    if a.len() == 0 {
        true
    } else if b.len() == 0 {
        false
    } else if a[0] != b[0] {
        a[0] < b[0]
    } else {
        at_most(a.skip(1), b.skip(1))
    }
}

proof fn lemma_at_most_total(a: Seq<u8>, b: Seq<u8>)
    ensures
        at_most(a, b) || at_most(b, a),
        at_most(a, b) && at_most(b, a) ==> a == b,
    decreases a.len(),
{
    if a.len() > 0 && b.len() > 0 && a[0] == b[0] {
        lemma_at_most_total(a.skip(1), b.skip(1));
        if at_most(a, b) && at_most(b, a) {
            assert(a =~= seq![a[0]] + a.skip(1));
            assert(b =~= seq![b[0]] + b.skip(1));
        }
    } else if a.len() == 0 && b.len() == 0 {
        assert(a =~= b);
    }
}

proof fn lemma_at_most_chain(a: Seq<u8>, b: Seq<u8>, c: Seq<u8>)
    requires
        at_most(a, b),
        at_most(b, c),
    ensures
        at_most(a, c),
    decreases a.len(),
{
    if a.len() > 0 && b.len() > 0 && c.len() > 0 && a[0] == b[0] && b[0] == c[0] {
        lemma_at_most_chain(a.skip(1), b.skip(1), c.skip(1));
    }
}

/// Whether a byte string comes before another, or is the same.
pub fn bytes_at_most(a: &[u8], b: &[u8]) -> (r: bool)
    ensures
        r == at_most(a@, b@),
{
    let mut i: usize = 0;
    proof {
        assert(a@.skip(0) =~= a@);
        assert(b@.skip(0) =~= b@);
    }
    while i < a.len() && i < b.len()
        invariant
            i <= a@.len(),
            i <= b@.len(),
            at_most(a@, b@) == at_most(a@.skip(i as int), b@.skip(i as int)),
        decreases a@.len() - i,
    {
        proof {
            assert(a@.skip(i as int).skip(1) =~= a@.skip(i + 1));
            assert(b@.skip(i as int).skip(1) =~= b@.skip(i + 1));
        }
        if a[i] != b[i] {
            return a[i] < b[i];
        }
        i += 1;
    }
    a.len() == i
}

/// Bytes of texts.
pub open spec fn text_bytes(texts: Seq<String>) -> Seq<Seq<u8>> {
    texts.map_values(|t: String| encode_utf8(t@))
}

/// The key at `i` comes before that at `j`; of equal keys the earlier one.
pub open spec fn comes_before(keys: Seq<Seq<u8>>, i: usize, j: usize) -> bool {
    at_most(keys[i as int], keys[j as int]) && (keys[i as int] == keys[j as int] ==> i < j)
}

/// The positions of all keys, in the order of the keys.
pub open spec fn is_order(keys: Seq<Seq<u8>>, order: Seq<usize>) -> bool {
    &&& order.len() == keys.len()
    &&& forall|i: int| 0 <= i < order.len() ==> (#[trigger] order[i]) < keys.len()
    &&& forall|i: int, j: int|
        0 <= i < j < order.len() ==> comes_before(keys, #[trigger] order[i], #[trigger] order[j])
}

/// The positions of texts in their order.
pub fn sorted_order(texts: &Vec<String>) -> (r: Vec<usize>)
    ensures
        is_order(text_bytes(texts@), r@),
{
    let ghost keys = text_bytes(texts@);
    let mut out: Vec<usize> = Vec::new();
    let mut i: usize = 0;
    while i < texts.len()
        invariant
            i <= texts@.len(),
            keys == text_bytes(texts@),
            out@.len() == i,
            forall|k: int| 0 <= k < out@.len() ==> (#[trigger] out@[k]) < i,
            forall|k: int, j: int|
                0 <= k < j < out@.len() ==> comes_before(
                    keys,
                    #[trigger] out@[k],
                    #[trigger] out@[j],
                ),
        decreases texts@.len() - i,
    {
        let ghost before = out@;
        let mut p: usize = 0;
        while p < out.len() && bytes_at_most(
            texts[out[p]].as_str().as_bytes(),
            texts[i].as_str().as_bytes(),
        )
            invariant
                p <= out@.len(),
                i < texts@.len(),
                keys == text_bytes(texts@),
                out@ == before,
                forall|k: int| 0 <= k < out@.len() ==> (#[trigger] out@[k]) < i,
                forall|k: int|
                    0 <= k < p ==> at_most(keys[(#[trigger] out@[k]) as int], keys[i as int]),
            ensures
                p <= out@.len(),
                forall|k: int|
                    0 <= k < p ==> at_most(keys[(#[trigger] out@[k]) as int], keys[i as int]),
                p < out@.len() ==> !at_most(keys[out@[p as int] as int], keys[i as int]),
            decreases out@.len() - p,
        {
            p += 1;
        }
        out.insert(p, i);
        proof {
            let after = before.insert(p as int, i);
            assert forall|k: int| 0 <= k < after.len() implies (#[trigger] after[k]) < i + 1 by {
                if k < p {
                    assert(after[k] == before[k]);
                } else if k > p {
                    assert(after[k] == before[k - 1]);
                }
            }
            assert forall|k: int, j: int| 0 <= k < j < after.len() implies comes_before(
                keys,
                #[trigger] after[k],
                #[trigger] after[j],
            ) by {
                if j < p {
                    assert(comes_before(keys, before[k], before[j]));
                } else if k > p {
                    assert(comes_before(keys, before[k - 1], before[j - 1]));
                } else if k < p && j > p {
                    assert(comes_before(keys, before[k], before[j - 1]));
                } else if j == p {
                    assert(at_most(keys[before[k] as int], keys[i as int]));
                } else {
                    // The new position comes before everything behind it.
                    let far = keys[before[j - 1] as int];
                    let near = keys[before[p as int] as int];
                    lemma_at_most_total(keys[i as int], near);
                    if j - 1 > p {
                        assert(comes_before(keys, before[p as int], before[j - 1]));
                        lemma_at_most_chain(keys[i as int], near, far);
                        if keys[i as int] == far {
                            assert(at_most(near, keys[i as int]));
                        }
                    }
                }
            }
        }
        i += 1;
    }
    out
}

// Names.

/// Name of a segment, compressed or not.
pub open spec fn is_segment(name: Seq<u8>) -> bool {
    &&& encode_utf8("querylog-"@).is_prefix_of(name)
    &&& encode_utf8(".msgpack"@).is_suffix_of(name) || encode_utf8(".msgpack.gz"@).is_suffix_of(
        name,
    )
}

/// Whether a file name is that of a segment, compressed or not.
pub fn is_segment_name(name: &str) -> (r: bool)
    ensures
        r == is_segment(name.spec_bytes()),
{
    let b = name.as_bytes();
    has_prefix(b, "querylog-".as_bytes()) && (has_suffix(b, ".msgpack".as_bytes()) || has_suffix(
        b,
        ".msgpack.gz".as_bytes(),
    ))
}

/// Name of the segment begun at a time in microseconds.
pub open spec fn segment_text(micros: u64) -> Seq<char> {
    "querylog-"@ + padded_text(micros as nat, 20) + ".msgpack"@
}

/// Name of the segment begun at a time in microseconds.
pub fn segment_name_at(micros: u64) -> (r: String)
    ensures
        r@ == segment_text(micros),
{
    let mut out = "querylog-".to_owned();
    out.append(padded(micros, 20).as_str());
    out.append(".msgpack");
    out
}

/// Name of a segment begun now.
pub fn segment_name() -> (r: String)
    ensures
        exists|at: SystemTime|
            r@ == segment_text(
                micros_of_time(
                    since_epoch(#[trigger] clock_reading(at)).0,
                    since_epoch(clock_reading(at)).1,
                ) as u64,
            ),
{
    let micros: u64 = unix_micros_now();
    segment_name_at(micros)
}

/// Path of the index beside a segment.
pub fn index_path(path: &[u8]) -> (r: Vec<u8>)
    ensures
        r@ == path@ + encode_utf8(".index.json"@),
{
    let mut out = slice_to_vec(path);
    push_bytes(&mut out, ".index.json".as_bytes());
    out
}

/// Position of the first dot from `i` on.
pub open spec fn dot_from(s: Seq<u8>, i: int) -> Option<int>
    decreases s.len() - i,
{
    if i < 0 || i >= s.len() {
        None
    } else if s[i] == 46 {
        Some(i)
    } else {
        dot_from(s, i + 1)
    }
}

/// The time in the name of a segment: the number between its prefix and its first dot.
pub open spec fn time_in_name(name: Seq<u8>) -> Option<u64> {
    let prefix = encode_utf8("querylog-"@);
    if !prefix.is_prefix_of(name) {
        None
    } else {
        match dot_from(name, prefix.len() as int) {
            Some(e) => match number_text(name.subrange(prefix.len() as int, e)) {
                Some(n) => if n <= u64::MAX {
                    Some(n as u64)
                } else {
                    None
                },
                None => None,
            },
            None => None,
        }
    }
}

proof fn lemma_dot_from(s: Seq<u8>, i: int, e: int)
    requires
        0 <= i <= e <= s.len(),
        forall|j: int| i <= j < e ==> s[j] != 46,
        e < s.len() ==> s[e] == 46,
    ensures
        dot_from(s, i) == (if e < s.len() {
            Some(e)
        } else {
            None
        }),
    decreases e - i,
{
    if i < e {
        lemma_dot_from(s, i + 1, e);
    }
}

/// The time in the name of a segment, in microseconds.
pub fn extract_file_timestamp(name: &str) -> (r: Option<u64>)
    ensures
        r == time_in_name(name.spec_bytes()),
{
    let b = name.as_bytes();
    let prefix = "querylog-".as_bytes();
    if !has_prefix(b, prefix) {
        return None;
    }
    let start: usize = prefix.len();
    match find_byte(b, 46, start) {
        Some(e) => {
            proof {
                lemma_dot_from(b@, start as int, e as int);
            }
            parse_u64(slice_subrange(b, start, e))
        },
        None => {
            proof {
                lemma_dot_from(b@, start as int, b@.len() as int);
            }
            None
        },
    }
}

// Removal.

/// Microseconds of a day.
pub const DAY_MICROS: u128 = 86_400_000_000;

/// Segments begun before this time go; none do where age does not matter.
pub open spec fn cutoff_of(retention_days: Option<u32>, now_micros: u64) -> int {
    match retention_days {
        Some(d) => if now_micros >= d * DAY_MICROS {
            now_micros - d * DAY_MICROS
        } else {
            0
        },
        None => 0,
    }
}

/// A segment is too old. One without a time in its name never is.
pub open spec fn is_aged(name: Seq<u8>, cutoff: int) -> bool {
    match time_in_name(name) {
        Some(t) => t < cutoff,
        None => false,
    }
}

/// The names that are not too old.
pub open spec fn not_aged(names: Seq<Seq<u8>>, cutoff: int) -> Seq<Seq<u8>>
    decreases names.len(),
{
    if names.len() == 0 {
        Seq::empty()
    } else if is_aged(names.last(), cutoff) {
        not_aged(names.drop_last(), cutoff)
    } else {
        not_aged(names.drop_last(), cutoff).push(names.last())
    }
}

/// The names that stay: the newest of those that are not too old, and at least one.
pub open spec fn kept_names(names: Seq<Seq<u8>>, cutoff: int, max_segments: nat) -> Seq<Seq<u8>> {
    let young = not_aged(names, cutoff);
    let most = if max_segments >= 1 {
        max_segments
    } else {
        1
    };
    if young.len() > most {
        young.skip(young.len() - most)
    } else {
        young
    }
}

/// Keys in a given order.
pub open spec fn in_order(keys: Seq<Seq<u8>>, order: Seq<usize>) -> Seq<Seq<u8>> {
    order.map_values(|i: usize| keys[i as int])
}

/// Which of the segments with these names stay, as positions from the oldest name to the newest.
/// The others have to go.
pub fn plan_prune(
    names: &Vec<String>,
    retention_days: Option<u32>,
    max_segments: usize,
    now_micros: u64,
) -> (r: Vec<usize>)
    ensures
        forall|i: int| 0 <= i < r@.len() ==> (#[trigger] r@[i]) < names@.len(),
        exists|order: Seq<usize>| #[trigger]
            is_order(text_bytes(names@), order) && in_order(text_bytes(names@), r@) == kept_names(
                in_order(text_bytes(names@), order),
                cutoff_of(retention_days, now_micros),
                max_segments as nat,
            ),
{
    let ghost keys = text_bytes(names@);
    let order = sorted_order(names);
    let cutoff: u64 = match retention_days {
        Some(d) => {
            let age: u128 = d as u128 * DAY_MICROS;
            if now_micros as u128 >= age {
                (now_micros as u128 - age) as u64
            } else {
                0
            }
        },
        None => 0,
    };
    let ghost all = in_order(keys, order@);
    let mut young: Vec<usize> = Vec::new();
    let mut i: usize = 0;
    proof {
        assert(all.take(0).len() == 0);
        assert(in_order(keys, young@) =~= not_aged(all.take(0), cutoff as int));
    }
    while i < order.len()
        invariant
            i <= order@.len(),
            keys == text_bytes(names@),
            is_order(keys, order@),
            all == in_order(keys, order@),
            young@.len() <= i,
            forall|k: int| 0 <= k < young@.len() ==> (#[trigger] young@[k]) < names@.len(),
            in_order(keys, young@) == not_aged(all.take(i as int), cutoff as int),
        decreases order@.len() - i,
    {
        let at: usize = order[i];
        let ghost before = young@;
        proof {
            assert(all.take(i + 1).drop_last() =~= all.take(i as int));
            assert(all.take(i + 1).last() == keys[at as int]);
        }
        let aged = match extract_file_timestamp(names[at].as_str()) {
            Some(t) => t < cutoff,
            None => false,
        };
        if !aged {
            young.push(at);
            proof {
                assert(in_order(keys, young@) =~= in_order(keys, before).push(keys[at as int]));
            }
        }
        i += 1;
    }
    proof {
        assert(all.take(all.len() as int) =~= all);
    }
    let most: usize = if max_segments >= 1 {
        max_segments
    } else {
        1
    };
    let mut kept: Vec<usize> = Vec::new();
    let start: usize = if young.len() > most {
        young.len() - most
    } else {
        0
    };
    let mut j: usize = start;
    while j < young.len()
        invariant
            start <= j <= young@.len(),
            kept@ == young@.subrange(start as int, j as int),
            forall|k: int| 0 <= k < young@.len() ==> (#[trigger] young@[k]) < names@.len(),
            forall|k: int| 0 <= k < kept@.len() ==> (#[trigger] kept@[k]) < names@.len(),
        decreases young@.len() - j,
    {
        kept.push(young[j]);
        j += 1;
        proof {
            assert(kept@ =~= young@.subrange(start as int, j as int));
        }
    }
    proof {
        assert(is_order(keys, order@));
        assert(in_order(keys, kept@) =~= kept_names(all, cutoff as int, max_segments as nat));
    }
    kept
}

/// The newest of the names of uncompressed segments; `None` when there is none.
pub fn newest_plain(names: &Vec<String>) -> (r: Option<usize>)
    ensures
        match r {
            Some(i) => {
                &&& i < names@.len()
                &&& is_plain(text_bytes(names@)[i as int])
                &&& forall|j: int|
                    0 <= j < names@.len() && is_plain(#[trigger] text_bytes(names@)[j]) ==> at_most(
                        text_bytes(names@)[j],
                        text_bytes(names@)[i as int],
                    )
            },
            None => forall|j: int|
                0 <= j < names@.len() ==> !is_plain(#[trigger] text_bytes(names@)[j]),
        },
{
    let ghost keys = text_bytes(names@);
    let mut best: Option<usize> = None;
    let mut i: usize = 0;
    while i < names.len()
        invariant
            i <= names@.len(),
            keys == text_bytes(names@),
            match best {
                Some(b) => {
                    &&& b < i
                    &&& is_plain(keys[b as int])
                    &&& forall|j: int|
                        0 <= j < i && is_plain(#[trigger] keys[j]) ==> at_most(
                            keys[j],
                            keys[b as int],
                        )
                },
                None => forall|j: int| 0 <= j < i ==> !is_plain(#[trigger] keys[j]),
            },
        decreases names@.len() - i,
    {
        let b = names[i].as_str().as_bytes();
        let ghost here = keys[i as int];
        if has_prefix(b, "querylog-".as_bytes()) && has_suffix(b, ".msgpack".as_bytes()) {
            let newer = match best {
                Some(k) => !bytes_at_most(b, names[k].as_str().as_bytes()),
                None => true,
            };
            proof {
                lemma_at_most_total(here, here);
                if newer && best is Some {
                    let old_best = keys[best->0 as int];
                    lemma_at_most_total(here, old_best);
                    assert forall|j: int| 0 <= j < i && is_plain(#[trigger] keys[j]) implies at_most(
                        keys[j],
                        here,
                    ) by {
                        lemma_at_most_chain(keys[j], old_best, here);
                    }
                }
            }
            if newer {
                best = Some(i);
            }
        }
        i += 1;
    }
    best
}

/// Name of an uncompressed segment.
pub open spec fn is_plain(name: Seq<u8>) -> bool {
    encode_utf8("querylog-"@).is_prefix_of(name) && encode_utf8(".msgpack"@).is_suffix_of(name)
}

/// Whether a segment of `size` bytes has no room for more.
pub fn is_full(size: u64, max_mb: u64) -> (r: bool)
    ensures
        r == (size >= max_mb * 1_048_576),
{
    size as u128 >= max_mb as u128 * 1_048_576
}

// Listing.

/// The name without a suffix, however often it has it.
pub open spec fn trimmed(name: Seq<u8>, suffix: Seq<u8>) -> Seq<u8>
    decreases name.len(),
{
    if suffix.len() > 0 && suffix.is_suffix_of(name) {
        trimmed(name.take(name.len() - suffix.len()), suffix)
    } else {
        name
    }
}

fn trim_suffix(name: &[u8], suffix: &[u8]) -> (r: Vec<u8>)
    requires
        suffix@.len() > 0,
    ensures
        r@ == trimmed(name@, suffix@),
{
    let mut n: usize = name.len();
    proof {
        assert(name@.take(n as int) =~= name@);
    }
    while has_suffix(slice_subrange(name, 0, n), suffix)
        invariant
            n <= name@.len(),
            suffix@.len() > 0,
            trimmed(name@, suffix@) == trimmed(name@.take(n as int), suffix@),
        ensures
            trimmed(name@, suffix@) == name@.take(n as int),
            n <= name@.len(),
        decreases n,
    {
        proof {
            assert(name@.subrange(0, n as int) =~= name@.take(n as int));
            assert(name@.take(n as int).take(n - suffix@.len()) =~= name@.take(n - suffix@.len()));
        }
        n = n - suffix.len();
    }
    let out = slice_to_vec(slice_subrange(name, 0, n));
    proof {
        assert(out@ =~= name@.take(n as int));
    }
    out
}

/// The compressed form of an uncompressed segment is among the names.
pub open spec fn has_compressed(names: Seq<Seq<u8>>, name: Seq<u8>) -> bool {
    exists|j: int|
        0 <= j < names.len() && is_segment(#[trigger] names[j]) && encode_utf8(
            ".msgpack.gz"@,
        ).is_suffix_of(names[j]) && trimmed(names[j], encode_utf8(".msgpack.gz"@)) == trimmed(
            name,
            encode_utf8(".msgpack"@),
        )
}

/// The name is not listed: the segment is there in its compressed form too.
pub open spec fn is_hidden(names: Seq<Seq<u8>>, name: Seq<u8>) -> bool {
    encode_utf8(".msgpack"@).is_suffix_of(name) && has_compressed(names, name)
}

/// The positions of the names that are listed, of those in a given order: the segments, except
/// those that are hidden.
pub open spec fn listed(names: Seq<Seq<u8>>, order: Seq<usize>) -> Seq<usize>
    decreases order.len(),
{
    if order.len() == 0 {
        Seq::empty()
    } else if !is_segment(names[order.last() as int]) || is_hidden(
        names,
        names[order.last() as int],
    ) {
        listed(names, order.drop_last())
    } else {
        listed(names, order.drop_last()).push(order.last())
    }
}

/// The segments among the files of a directory, in the order in which they were begun, as positions
/// in `names`. While a segment is being compressed it exists twice; then only the compressed form
/// is listed.
pub fn list_history_files(names: &Vec<String>) -> (r: Vec<usize>)
    ensures
        exists|order: Seq<usize>| #[trigger]
            is_order(text_bytes(names@), order) && r@ == listed(text_bytes(names@), order),
{
    let ghost keys = text_bytes(names@);
    let order = sorted_order(names);
    let mut out: Vec<usize> = Vec::new();
    let mut i: usize = 0;
    proof {
        reveal_strlit(".msgpack");
        reveal_strlit(".msgpack.gz");
        lemma_suffixes_not_empty();
        assert(order@.take(0).len() == 0);
    }
    while i < order.len()
        invariant
            i <= order@.len(),
            keys == text_bytes(names@),
            is_order(keys, order@),
            out@ == listed(keys, order@.take(i as int)),
            encode_utf8(".msgpack"@).len() > 0,
            encode_utf8(".msgpack.gz"@).len() > 0,
        decreases order@.len() - i,
    {
        let at: usize = order[i];
        proof {
            assert(order@.take(i + 1).drop_last() =~= order@.take(i as int));
            assert(order@.take(i + 1).last() == at);
        }
        let name = names[at].as_str().as_bytes();
        let mut hidden = false;
        if has_suffix(name, ".msgpack".as_bytes()) {
            let stem = trim_suffix(name, ".msgpack".as_bytes());
            let mut j: usize = 0;
            while j < names.len()
                invariant
                    j <= names@.len(),
                    keys == text_bytes(names@),
                    at < names@.len(),
                    name@ == keys[at as int],
                    stem@ == trimmed(name@, encode_utf8(".msgpack"@)),
                    encode_utf8(".msgpack.gz"@).len() > 0,
                    hidden == exists|k: int|
                        0 <= k < j && is_segment(#[trigger] keys[k]) && encode_utf8(
                            ".msgpack.gz"@,
                        ).is_suffix_of(keys[k]) && trimmed(keys[k], encode_utf8(".msgpack.gz"@))
                            == stem@,
                decreases names@.len() - j,
            {
                let other = names[j].as_str().as_bytes();
                assert(other@ == keys[j as int]);
                if is_segment_name(names[j].as_str()) && has_suffix(
                    other,
                    ".msgpack.gz".as_bytes(),
                ) {
                    let other_stem = trim_suffix(other, ".msgpack.gz".as_bytes());
                    if crate::text::bytes_eq(other_stem.as_slice(), stem.as_slice()) {
                        hidden = true;
                    }
                }
                j += 1;
            }
        }
        proof {
            assert(hidden == is_hidden(keys, keys[at as int]));
        }
        if is_segment_name(names[at].as_str()) && !hidden {
            out.push(at);
        }
        i += 1;
    }
    proof {
        assert(order@.take(order@.len() as int) =~= order@);
    }
    out
}

proof fn lemma_suffixes_not_empty()
    ensures
        encode_utf8(".msgpack"@).len() > 0,
        encode_utf8(".msgpack.gz"@).len() > 0,
{
    reveal_strlit(".msgpack");
    reveal_strlit(".msgpack.gz");
    if encode_utf8(".msgpack"@).len() == 0 {
        vstd::utf8::encode_utf8_decode_utf8(".msgpack"@);
        assert(encode_utf8(".msgpack"@) =~= Seq::<u8>::empty());
        reveal_with_fuel(vstd::utf8::decode_utf8, 2);
    }
    if encode_utf8(".msgpack.gz"@).len() == 0 {
        vstd::utf8::encode_utf8_decode_utf8(".msgpack.gz"@);
        assert(encode_utf8(".msgpack.gz"@) =~= Seq::<u8>::empty());
        reveal_with_fuel(vstd::utf8::decode_utf8, 2);
    }
}

// Times in names.

/// Every character is a decimal digit.
spec fn all_digits(s: Seq<char>) -> bool {
    forall|i: int| 0 <= i < s.len() ==> '0' <= #[trigger] s[i] <= '9'
}

/// The bytes of ASCII characters.
spec fn ascii_bytes(s: Seq<char>) -> Seq<u8> {
    Seq::new(s.len(), |i: int| s[i] as u8)
}

proof fn lemma_decimal_digits(n: nat)
    ensures
        all_digits(decimal_text(n)),
        decimal_text(n).len() > 0,
        decimal_value(ascii_bytes(decimal_text(n))) == n,
    decreases n,
{
    let t = decimal_text(n);
    if n < 10 {
        assert(t[0] as u32 == 48 + n);
        assert(ascii_bytes(t).drop_last() =~= Seq::<u8>::empty());
        reveal_with_fuel(decimal_value, 2);
    } else {
        let front = decimal_text(n / 10);
        lemma_decimal_digits(n / 10);
        assert(t.last() as u32 == 48 + n % 10);
        assert forall|i: int| 0 <= i < t.len() implies '0' <= #[trigger] t[i] <= '9' by {
            if i < front.len() {
                assert(t[i] == front[i]);
            }
        }
        assert(ascii_bytes(t).drop_last() =~= ascii_bytes(front));
        assert(ascii_bytes(t).last() == 48 + n % 10);
    }
}

proof fn lemma_leading_zeros(zeros: nat, b: Seq<u8>)
    ensures
        decimal_value(Seq::new(zeros, |i: int| 48u8) + b) == decimal_value(b),
    decreases b.len(), zeros,
{
    let z = Seq::new(zeros, |i: int| 48u8);
    if b.len() > 0 {
        lemma_leading_zeros(zeros, b.drop_last());
        assert((z + b).drop_last() =~= z + b.drop_last());
    } else if zeros > 0 {
        let fewer = Seq::new((zeros - 1) as nat, |i: int| 48u8);
        lemma_leading_zeros((zeros - 1) as nat, b);
        assert((z + b).drop_last() =~= fewer + b);
    } else {
        assert(z + b =~= b);
    }
}

proof fn lemma_padded_digits(n: nat, width: nat)
    ensures
        all_digits(padded_text(n, width)),
        padded_text(n, width).len() > 0,
        decimal_value(ascii_bytes(padded_text(n, width))) == n,
{
    let t = decimal_text(n);
    lemma_decimal_digits(n);
    if t.len() < width {
        let zeros = (width - t.len()) as nat;
        lemma_leading_zeros(zeros, ascii_bytes(t));
        assert(ascii_bytes(padded_text(n, width)) =~= Seq::new(zeros, |i: int| 48u8) + ascii_bytes(
            t,
        ));
        assert('0' as u32 == 48);
    }
}

/// The time at which a segment was begun can be read off its name.
pub proof fn law_segment_name_tells_time(micros: u64)
    ensures
        time_in_name(encode_utf8(segment_text(micros))) == Some(micros),
        is_segment(encode_utf8(segment_text(micros))),
{
    reveal_strlit("querylog-");
    reveal_strlit(".msgpack");
    let head = "querylog-"@;
    let tail = ".msgpack"@;
    let digits = padded_text(micros as nat, 20);
    let text = segment_text(micros);
    lemma_padded_digits(micros as nat, 20);
    assert(vstd::utf8::is_ascii_chars(head));
    assert(vstd::utf8::is_ascii_chars(tail));
    assert(vstd::utf8::is_ascii_chars(text)) by {
        assert forall|i: int| 0 <= i < text.len() implies '\0' <= #[trigger] text[i] <= '\u{7f}' by {
            if i < head.len() {
                assert(text[i] == head[i]);
            } else if i < head.len() + digits.len() {
                assert(text[i] == digits[i - head.len()]);
            } else {
                assert(text[i] == tail[i - head.len() - digits.len()]);
            }
        }
    }
    vstd::utf8::is_ascii_chars_encode_utf8(text);
    vstd::utf8::is_ascii_chars_encode_utf8(head);
    vstd::utf8::is_ascii_chars_encode_utf8(tail);
    let b = encode_utf8(text);
    let h = encode_utf8(head);
    let e = (head.len() + digits.len()) as int;
    assert(b =~= ascii_bytes(text));
    assert(h =~= ascii_bytes(head));
    assert(h =~= b.subrange(0, h.len() as int));
    assert(encode_utf8(tail) =~= b.subrange(e, b.len() as int));
    assert(b[e] == 46);
    assert forall|j: int| h.len() <= j < e implies b[j] != 46 by {
        assert(b[j] == digits[j - head.len()] as u8);
    }
    lemma_dot_from(b, h.len() as int, e);
    let middle = b.subrange(h.len() as int, e);
    assert(middle =~= ascii_bytes(digits));
    assert(middle[0] == digits[0] as u8);
    assert(crate::text::is_decimal(middle)) by {
        assert forall|i: int| 0 <= i < middle.len() implies crate::text::is_digit(
            #[trigger] middle[i],
        ) by {
            assert(middle[i] == digits[i] as u8);
        }
    }
}

// What stays and what goes.

/// Names are ordered by their first different byte, and a name comes before its extensions. The
/// order is total.
pub proof fn law_names_are_ordered(common: Seq<u8>, x: u8, y: u8, a: Seq<u8>, b: Seq<u8>)
    ensures
        x < y ==> at_most(common + seq![x] + a, common + seq![y] + b),
        x < y ==> !at_most(common + seq![y] + b, common + seq![x] + a),
        at_most(common, common + a),
        at_most(a, b) || at_most(b, a),
        at_most(a, b) && at_most(b, a) ==> a == b,
    decreases common.len(),
{
    lemma_at_most_total(a, b);
    let p = common + seq![x] + a;
    let q = common + seq![y] + b;
    if common.len() > 0 {
        let rest = common.skip(1);
        law_names_are_ordered(rest, x, y, a, b);
        assert(p.skip(1) =~= rest + seq![x] + a);
        assert(q.skip(1) =~= rest + seq![y] + b);
        assert((common + a).skip(1) =~= rest + a);
        assert(p[0] == common[0] && q[0] == common[0]);
    } else {
        assert(p[0] == x && q[0] == y);
    }
}

/// A segment is too old when it was begun before the retention ends: so many days back. Without a
/// retention none is.
pub proof fn law_retention_counts_days(micros: u64, days: u32, now_micros: u64)
    ensures
        is_aged(encode_utf8(segment_text(micros)), cutoff_of(Some(days), now_micros)) <==> micros
            + days * 86_400_000_000 < now_micros,
        !is_aged(encode_utf8(segment_text(micros)), cutoff_of(None, now_micros)),
{
    law_segment_name_tells_time(micros);
}

/// What stays of segments are the newest that are not too old, up to the number wanted and at least
/// one of them: everything that is not too old and has fewer than that many behind it.
pub proof fn law_newest_segments_stay(names: Seq<Seq<u8>>, cutoff: int, max_segments: nat)
    ensures
        ({
            let young = names.filter(|n: Seq<u8>| !is_aged(n, cutoff));
            let kept = kept_names(names, cutoff, max_segments);
            &&& kept.len() <= young.len()
            &&& young.skip(young.len() - kept.len()) == kept
            &&& kept.len() <= max_segments || kept.len() <= 1
            &&& young.len() <= max_segments ==> kept == young
            &&& young.len() > max_segments && max_segments > 0 ==> kept.len() == max_segments
            &&& young.len() > 0 ==> kept.len() > 0
        }),
{
    lemma_not_aged(names, cutoff);
    let young = not_aged(names, cutoff);
    let kept = kept_names(names, cutoff, max_segments);
    assert(young.skip(young.len() - kept.len()) =~= kept);
}

proof fn lemma_not_aged(names: Seq<Seq<u8>>, cutoff: int)
    ensures
        not_aged(names, cutoff) == names.filter(|n: Seq<u8>| !is_aged(n, cutoff)),
    decreases names.len(),
{
    reveal(Seq::filter);
    if names.len() > 0 {
        lemma_not_aged(names.drop_last(), cutoff);
    }
}

/// Listed are the segments among the files, in their order, except the plain form of one that is
/// there compressed too.
pub proof fn law_listed_segments(names: Seq<Seq<u8>>, order: Seq<usize>)
    ensures
        listed(names, order) == order.filter(
            |i: usize| is_segment(names[i as int]) && !is_hidden(names, names[i as int]),
        ),
    decreases order.len(),
{
    reveal(Seq::filter);
    if order.len() > 0 {
        law_listed_segments(names, order.drop_last());
    }
}

/// The plain form of a segment is hidden by its compressed form, and only the plain form is: a
/// compressed segment is always listed.
pub proof fn law_compressed_form_hides_plain(names: Seq<Seq<u8>>, base: Seq<u8>, j: int)
    requires
        0 <= j < names.len(),
        names[j] == base + encode_utf8(".msgpack.gz"@),
        encode_utf8("querylog-"@).is_prefix_of(base),
        !encode_utf8(".msgpack"@).is_suffix_of(base),
        !encode_utf8(".msgpack.gz"@).is_suffix_of(base),
    ensures
        is_hidden(names, base + encode_utf8(".msgpack"@)),
{
    let plain = encode_utf8(".msgpack"@);
    let packed = encode_utf8(".msgpack.gz"@);
    lemma_suffixes_not_empty();
    lemma_trimmed_once(base, plain);
    lemma_trimmed_once(base, packed);
    lemma_appended(base, plain);
    lemma_appended(base, packed);
    let prefix = encode_utf8("querylog-"@);
    assert(prefix.is_prefix_of(names[j])) by {
        assert(names[j].take(prefix.len() as int) =~= base.take(prefix.len() as int));
        assert(base.take(prefix.len() as int) =~= prefix);
    }
    assert(is_segment(names[j]));
}

proof fn lemma_appended(base: Seq<u8>, suffix: Seq<u8>)
    ensures
        suffix.is_suffix_of(base + suffix),
{
    let name = base + suffix;
    assert(name.subrange(name.len() - suffix.len(), name.len() as int) =~= suffix);
}

proof fn lemma_trimmed_once(base: Seq<u8>, suffix: Seq<u8>)
    requires
        suffix.len() > 0,
        !suffix.is_suffix_of(base),
    ensures
        trimmed(base + suffix, suffix) == base,
{
    lemma_appended(base, suffix);
    let name = base + suffix;
    assert(name.take(name.len() - suffix.len()) =~= base);
    reveal_with_fuel(trimmed, 2);
}

/// A power of ten.
spec fn tens(k: nat) -> nat
    decreases k,
{
    if k == 0 {
        1
    } else {
        10 * tens((k - 1) as nat)
    }
}

proof fn lemma_text_len(n: nat, k: nat)
    requires
        n < tens(k),
        k >= 1,
    ensures
        decimal_text(n).len() <= k,
    decreases k,
{
    if n >= 10 {
        if k == 1 {
            reveal_with_fuel(tens, 2);
        } else {
            lemma_text_len(n / 10, (k - 1) as nat);
        }
    }
}

/// Every byte is a decimal digit.
spec fn digit_bytes(s: Seq<u8>) -> bool {
    forall|i: int| 0 <= i < s.len() ==> 48 <= #[trigger] s[i] <= 57
}

proof fn lemma_same_digits(x: Seq<u8>, y: Seq<u8>)
    requires
        x.len() == y.len(),
        digit_bytes(x),
        digit_bytes(y),
        decimal_value(x) == decimal_value(y),
    ensures
        x == y,
    decreases x.len(),
{
    if x.len() > 0 {
        let a = x.drop_last();
        let b = y.drop_last();
        assert(48 <= x[x.len() - 1] <= 57 && 48 <= y[y.len() - 1] <= 57);
        assert(digit_bytes(a) && digit_bytes(b));
        assert(decimal_value(a) == decimal_value(b));
        lemma_same_digits(a, b);
        assert(x =~= a.push(x.last()));
        assert(y =~= b.push(y.last()));
    } else {
        assert(x =~= y);
    }
}

proof fn lemma_first_difference(x: Seq<u8>, y: Seq<u8>) -> (k: int)
    requires
        x.len() == y.len(),
        digit_bytes(x),
        digit_bytes(y),
        decimal_value(x) < decimal_value(y),
    ensures
        0 <= k < x.len(),
        x.take(k) == y.take(k),
        x[k] < y[k],
    decreases x.len(),
{
    let a = x.drop_last();
    let b = y.drop_last();
    assert(48 <= x[x.len() - 1] <= 57 && 48 <= y[y.len() - 1] <= 57);
    assert(digit_bytes(a) && digit_bytes(b));
    if decimal_value(a) < decimal_value(b) {
        let k = lemma_first_difference(a, b);
        assert(x.take(k) =~= a.take(k));
        assert(y.take(k) =~= b.take(k));
        k
    } else {
        assert(decimal_value(a) == decimal_value(b));
        lemma_same_digits(a, b);
        assert(x.take(x.len() - 1) =~= a);
        assert(y.take(x.len() - 1) =~= b);
        x.len() - 1
    }
}

/// The bytes of a segment's name: twenty digits between its prefix and its suffix.
proof fn lemma_name_bytes(micros: u64) -> (d: Seq<u8>)
    ensures
        encode_utf8(segment_text(micros)) == encode_utf8("querylog-"@) + d + encode_utf8(
            ".msgpack"@,
        ),
        d.len() == 20,
        digit_bytes(d),
        decimal_value(d) == micros,
{
    reveal_strlit("querylog-");
    reveal_strlit(".msgpack");
    let head = "querylog-"@;
    let tail = ".msgpack"@;
    let digits = padded_text(micros as nat, 20);
    let text = segment_text(micros);
    lemma_padded_digits(micros as nat, 20);
    assert(tens(20) == 100_000_000_000_000_000_000) by {
        reveal_with_fuel(tens, 21);
    }
    lemma_text_len(micros as nat, 20);
    assert(vstd::utf8::is_ascii_chars(head));
    assert(vstd::utf8::is_ascii_chars(tail));
    assert(vstd::utf8::is_ascii_chars(text)) by {
        assert forall|i: int| 0 <= i < text.len() implies '\0' <= #[trigger] text[i]
            <= '\u{7f}' by {
            if i < head.len() {
                assert(text[i] == head[i]);
            } else if i < head.len() + digits.len() {
                assert(text[i] == digits[i - head.len()]);
            } else {
                assert(text[i] == tail[i - head.len() - digits.len()]);
            }
        }
    }
    vstd::utf8::is_ascii_chars_encode_utf8(text);
    vstd::utf8::is_ascii_chars_encode_utf8(head);
    vstd::utf8::is_ascii_chars_encode_utf8(tail);
    let d = ascii_bytes(digits);
    assert(encode_utf8(text) =~= ascii_bytes(text));
    assert(encode_utf8(head) =~= ascii_bytes(head));
    assert(encode_utf8(tail) =~= ascii_bytes(tail));
    assert(ascii_bytes(text) =~= ascii_bytes(head) + d + ascii_bytes(tail));
    assert(digit_bytes(d)) by {
        assert forall|i: int| 0 <= i < d.len() implies 48 <= #[trigger] d[i] <= 57 by {
            assert('0' <= digits[i] <= '9');
        }
    }
    d
}

/// Segments sort by their names as they were begun: the name of an earlier one comes first.
pub proof fn law_names_sort_by_time(a: u64, b: u64)
    ensures
        at_most(encode_utf8(segment_text(a)), encode_utf8(segment_text(b))) <==> a <= b,
{
    let x = lemma_name_bytes(a);
    let y = lemma_name_bytes(b);
    if a < b {
        lemma_earlier_name_first(x, y);
    } else if b < a {
        lemma_earlier_name_first(y, x);
    } else {
        lemma_at_most_total(encode_utf8(segment_text(a)), encode_utf8(segment_text(b)));
    }
}

proof fn lemma_earlier_name_first(x: Seq<u8>, y: Seq<u8>)
    requires
        x.len() == y.len(),
        digit_bytes(x),
        digit_bytes(y),
        decimal_value(x) < decimal_value(y),
    ensures
        ({
            let head = encode_utf8("querylog-"@);
            let tail = encode_utf8(".msgpack"@);
            &&& at_most(head + x + tail, head + y + tail)
            &&& !at_most(head + y + tail, head + x + tail)
        }),
{
    let head = encode_utf8("querylog-"@);
    let tail = encode_utf8(".msgpack"@);
    let k = lemma_first_difference(x, y);
    let common = head + x.take(k);
    let a = x.skip(k + 1) + tail;
    let b = y.skip(k + 1) + tail;
    law_names_are_ordered(common, x[k], y[k], a, b);
    assert(x =~= x.take(k) + seq![x[k]] + x.skip(k + 1));
    assert(y =~= x.take(k) + seq![y[k]] + y.skip(k + 1));
    assert(head + x + tail =~= common + seq![x[k]] + a);
    assert(head + y + tail =~= common + seq![y[k]] + b);
}

} // verus!
