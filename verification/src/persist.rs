//! Layout of the files that keep state between runs: little-endian numbers behind a header that
//! names the format and the configuration the state belongs to.

use vstd::prelude::*;
use vstd::slice::slice_subrange;

verus! {

pub open spec fn le16(p: Seq<u8>, i: int) -> u16 {
    (p[i] + 256 * p[i + 1]) as u16
}

pub open spec fn le32(p: Seq<u8>, i: int) -> u32 {
    (p[i] + 256 * p[i + 1] + 65536 * p[i + 2] + 16777216 * p[i + 3]) as u32
}

pub open spec fn le64(p: Seq<u8>, i: int) -> u64 {
    (le32(p, i) + 4294967296 * le32(p, i + 4)) as u64
}

pub open spec fn le16_bytes(v: u16) -> Seq<u8> {
    seq![(v % 256) as u8, (v / 256) as u8]
}

pub open spec fn le32_bytes(v: u32) -> Seq<u8> {
    seq![
        (v % 256) as u8,
        (v / 256 % 256) as u8,
        (v / 65536 % 256) as u8,
        (v / 16777216) as u8,
    ]
}

pub open spec fn le64_bytes(v: u64) -> Seq<u8> {
    le32_bytes((v % 4294967296) as u32) + le32_bytes((v / 4294967296) as u32)
}

/// Numbers that were written are the ones that are read, wherever they stand.
pub proof fn law_le_roundtrip(p: Seq<u8>, i: int, a: u16, b: u32, c: u64)
    requires
        0 <= i,
    ensures
        i + 2 <= p.len() && p.subrange(i, i + 2) == le16_bytes(a) ==> le16(p, i) == a,
        i + 4 <= p.len() && p.subrange(i, i + 4) == le32_bytes(b) ==> le32(p, i) == b,
        i + 8 <= p.len() && p.subrange(i, i + 8) == le64_bytes(c) ==> le64(p, i) == c,
{
    if i + 2 <= p.len() && p.subrange(i, i + 2) == le16_bytes(a) {
        assert(p[i] == p.subrange(i, i + 2)[0]);
        assert(p[i + 1] == p.subrange(i, i + 2)[1]);
    }
    if i + 4 <= p.len() && p.subrange(i, i + 4) == le32_bytes(b) {
        lemma_le32(p, i, b);
    }
    if i + 8 <= p.len() && p.subrange(i, i + 8) == le64_bytes(c) {
        let s = p.subrange(i, i + 8);
        assert(s.subrange(0, 4) =~= le32_bytes((c % 4294967296) as u32));
        assert(s.subrange(4, 8) =~= le32_bytes((c / 4294967296) as u32));
        assert(p.subrange(i, i + 4) =~= s.subrange(0, 4));
        assert(p.subrange(i + 4, i + 8) =~= s.subrange(4, 8));
        lemma_le32(p, i, (c % 4294967296) as u32);
        lemma_le32(p, i + 4, (c / 4294967296) as u32);
    }
}

proof fn lemma_le32(p: Seq<u8>, i: int, b: u32)
    requires
        0 <= i,
        i + 4 <= p.len(),
        p.subrange(i, i + 4) == le32_bytes(b),
    ensures
        le32(p, i) == b,
{
    let s = p.subrange(i, i + 4);
    assert(p[i] == s[0]);
    assert(p[i + 1] == s[1]);
    assert(p[i + 2] == s[2]);
    assert(p[i + 3] == s[3]);
    assert(b == b % 256 + 256 * (b / 256 % 256) + 65536 * (b / 65536 % 256) + 16777216 * (b
        / 16777216));
}

pub fn read_le16(p: &[u8], i: usize) -> (r: u16)
    requires
        i + 2 <= p@.len(),
    ensures
        r == le16(p@, i as int),
{
    p[i] as u16 + 256 * p[i + 1] as u16
}

pub fn read_le32(p: &[u8], i: usize) -> (r: u32)
    requires
        i + 4 <= p@.len(),
    ensures
        r == le32(p@, i as int),
{
    p[i] as u32 + 256 * p[i + 1] as u32 + 65536 * p[i + 2] as u32 + 16777216 * p[i + 3] as u32
}

pub fn read_le64(p: &[u8], i: usize) -> (r: u64)
    requires
        i + 8 <= p@.len(),
    ensures
        r == le64(p@, i as int),
{
    assert(p.len() == p@.len());
    read_le32(p, i) as u64 + 4294967296 * read_le32(p, i + 4) as u64
}

pub fn push_le16(out: &mut Vec<u8>, v: u16)
    ensures
        final(out)@ == old(out)@ + le16_bytes(v),
{
    out.push((v % 256) as u8);
    out.push((v / 256) as u8);
    proof {
        assert(out@ =~= old(out)@ + le16_bytes(v));
    }
}

pub fn push_le32(out: &mut Vec<u8>, v: u32)
    ensures
        final(out)@ == old(out)@ + le32_bytes(v),
{
    out.push((v % 256) as u8);
    out.push((v / 256 % 256) as u8);
    out.push((v / 65536 % 256) as u8);
    out.push((v / 16777216) as u8);
    proof {
        assert(out@ =~= old(out)@ + le32_bytes(v));
    }
}

pub fn push_le64(out: &mut Vec<u8>, v: u64)
    ensures
        final(out)@ == old(out)@ + le64_bytes(v),
{
    push_le32(out, (v % 4294967296) as u32);
    push_le32(out, (v / 4294967296) as u32);
    proof {
        assert(out@ =~= old(out)@ + le64_bytes(v));
    }
}

/// Appends a byte string.
pub fn push_bytes(out: &mut Vec<u8>, s: &[u8])
    ensures
        final(out)@ == old(out)@ + s@,
{
    let mut i: usize = 0;
    let ghost before = out@;
    proof {
        assert(before + s@.take(0) =~= before);
    }
    while i < s.len()
        invariant
            i <= s@.len(),
            out@ == before + s@.take(i as int),
        decreases s@.len() - i,
    {
        out.push(s[i]);
        i += 1;
        proof {
            assert(out@ =~= before + s@.take(i as int));
        }
    }
    proof {
        assert(s@.take(s@.len() as int) =~= s@);
    }
}

/// Length of a header: format name, configuration fingerprint and number of entries.
pub const FILE_HEADER_LEN: usize = 20;

/// Why a state file was not taken over.
#[derive(Clone, Copy, Debug, PartialEq, Eq, Structural)]
pub enum PersistError {
    /// The file ends too early.
    Truncated,
    /// The file has another format.
    OtherFormat,
    /// The file was written under another configuration.
    OtherConfig,
}

/// Bytes of a header.
pub open spec fn file_header(magic: Seq<u8>, fingerprint: u64, count: u32) -> Seq<u8> {
    magic + le64_bytes(fingerprint) + le32_bytes(count)
}

/// What the header of a file says: the number of entries, or why the file is not taken over.
pub open spec fn header_outcome(p: Seq<u8>, magic: Seq<u8>, fingerprint: u64) -> Result<
    u32,
    PersistError,
> {
    if p.len() < 8 {
        Err(PersistError::Truncated)
    } else if p.take(8) != magic {
        Err(PersistError::OtherFormat)
    } else if p.len() < 16 {
        Err(PersistError::Truncated)
    } else if le64(p, 8) != fingerprint {
        Err(PersistError::OtherConfig)
    } else if p.len() < FILE_HEADER_LEN {
        Err(PersistError::Truncated)
    } else {
        Ok(le32(p, 16))
    }
}

/// Writes a header.
pub fn write_header(out: &mut Vec<u8>, magic: &[u8], fingerprint: u64, count: u32)
    ensures
        final(out)@ == old(out)@ + file_header(magic@, fingerprint, count),
{
    push_bytes(out, magic);
    push_le64(out, fingerprint);
    push_le32(out, count);
    proof {
        assert(out@ =~= old(out)@ + file_header(magic@, fingerprint, count));
    }
}

/// Reads a header; the number of entries that follow.
pub fn read_and_check_header(p: &[u8], magic: &[u8], fingerprint: u64) -> (r: Result<
    u32,
    PersistError,
>)
    ensures
        r == header_outcome(p@, magic@, fingerprint),
{
    if p.len() < 8 {
        return Err(PersistError::Truncated);
    }
    let name = slice_subrange(p, 0, 8);
    proof {
        assert(name@ =~= p@.take(8));
    }
    if !crate::text::bytes_eq(name, magic) {
        return Err(PersistError::OtherFormat);
    }
    if p.len() < 16 {
        return Err(PersistError::Truncated);
    }
    if read_le64(p, 8) != fingerprint {
        return Err(PersistError::OtherConfig);
    }
    if p.len() < FILE_HEADER_LEN {
        return Err(PersistError::Truncated);
    }
    Ok(read_le32(p, 16))
}

/// A file that starts with a header of this format and fingerprint is accepted, with its count.
pub proof fn law_header_roundtrip(magic: Seq<u8>, fingerprint: u64, count: u32, rest: Seq<u8>)
    requires
        magic.len() == 8,
    ensures
        header_outcome(file_header(magic, fingerprint, count) + rest, magic, fingerprint) == Ok::<
            u32,
            PersistError,
        >(count),
        file_header(magic, fingerprint, count).len() == FILE_HEADER_LEN,
{
    let p = file_header(magic, fingerprint, count) + rest;
    assert(p.take(8) =~= magic);
    assert(p.subrange(8, 16) =~= le64_bytes(fingerprint));
    assert(p.subrange(16, 20) =~= le32_bytes(count));
    law_le_roundtrip(p, 8, 0, 0, fingerprint);
    law_le_roundtrip(p, 16, 0, count, 0);
}

/// Numbers stand in a file with their lowest byte first.
pub proof fn law_lowest_byte_comes_first(a: u16, b: u32, c: u64)
    ensures
        le16_bytes(a) == seq![(a % 256) as u8, (a / 256) as u8],
        le32_bytes(b).take(2) == le16_bytes((b % 65536) as u16),
        le32_bytes(b).skip(2) == le16_bytes((b / 65536) as u16),
        le64_bytes(c).take(4) == le32_bytes((c % 4294967296) as u32),
        le64_bytes(c).skip(4) == le32_bytes((c / 4294967296) as u32),
{
    assert(le16_bytes(a) =~= seq![(a % 256) as u8, (a / 256) as u8]);
    assert((b % 65536) % 256 == b % 256 && (b % 65536) / 256 == b / 256 % 256 && (b / 65536) / 256
        == b / 16777216) by (bit_vector);
    assert(le32_bytes(b).take(2) =~= le16_bytes((b % 65536) as u16));
    assert(le32_bytes(b).skip(2) =~= le16_bytes((b / 65536) as u16));
    assert(le64_bytes(c).take(4) =~= le32_bytes((c % 4294967296) as u32));
    assert(le64_bytes(c).skip(4) =~= le32_bytes((c / 4294967296) as u32));
}

/// A header that was cut off is refused as such wherever it is cut, and one with another format name
/// as another format.
pub proof fn law_cut_header_is_refused(
    magic: Seq<u8>,
    other: Seq<u8>,
    fingerprint: u64,
    count: u32,
    k: int,
    rest: Seq<u8>,
)
    requires
        magic.len() == 8,
        other.len() == 8,
        other != magic,
        0 <= k < 20,
    ensures
        header_outcome(
            (magic + le64_bytes(fingerprint) + le32_bytes(count)).take(k),
            magic,
            fingerprint,
        ) == Err::<u32, PersistError>(PersistError::Truncated),
        header_outcome(
            other + le64_bytes(fingerprint) + le32_bytes(count) + rest,
            magic,
            fingerprint,
        ) == Err::<u32, PersistError>(PersistError::OtherFormat),
{
    let h = magic + le64_bytes(fingerprint) + le32_bytes(count);
    let p = h.take(k);
    if k >= 8 {
        assert(p.take(8) =~= magic);
    }
    if k >= 16 {
        assert(p.subrange(8, 16) =~= le64_bytes(fingerprint));
        law_le_roundtrip(p, 8, 0, 0, fingerprint);
    }
    let q = other + le64_bytes(fingerprint) + le32_bytes(count) + rest;
    assert(q.take(8) =~= other);
}

} // verus!
