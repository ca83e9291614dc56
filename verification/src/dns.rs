//! DNS wire format: header fields, the question, answer records and locally made replies.

use crate::domain::DOT;
use crate::iprange::IpAddr;
use crate::text::{
    eq_ignore_ascii_case, lower, lower_byte, lower_bytes, same_ignoring_case, text_from_bytes,
};
use vstd::prelude::*;
use vstd::slice::{slice_subrange, slice_to_vec};
use vstd::utf8::{encode_utf8, valid_utf8};

verus! {

pub const HEADER_LEN: usize = 12;

pub const TYPE_A: u16 = 1;

pub const TYPE_AAAA: u16 = 28;

pub const RCODE_SERVFAIL: u8 = 2;

pub const RCODE_NOTIMP: u8 = 4;

/// Big-endian 16-bit number at position `i`.
pub open spec fn be16(p: Seq<u8>, i: int) -> u16 {
    (p[i] * 256 + p[i + 1]) as u16
}

/// The two bytes of a big-endian 16-bit number.
pub open spec fn be16_bytes(v: u16) -> Seq<u8> {
    seq![(v / 256) as u8, (v % 256) as u8]
}

/// The four bytes of a big-endian 32-bit number.
pub open spec fn be32_bytes(v: u32) -> Seq<u8> {
    seq![
        (v / 16777216) as u8,
        (v / 65536 % 256) as u8,
        (v / 256 % 256) as u8,
        (v % 256) as u8,
    ]
}

/// Reading back the two bytes of a number gives the number.
pub proof fn law_be16_roundtrip(v: u16)
    ensures
        be16(be16_bytes(v), 0) == v,
{
}

pub(crate) fn read_be16(p: &[u8], i: usize) -> (r: u16)
    requires
        i + 1 < p@.len(),
    ensures
        r == be16(p@, i as int),
{
    (p[i] as u16) * 256 + p[i + 1] as u16
}

/// The message is long enough to have a header and is marked as a response.
pub open spec fn reply_flag(p: Seq<u8>) -> bool {
    p.len() >= HEADER_LEN && p[2] & 0x80 != 0
}

pub open spec fn truncated_flag(p: Seq<u8>) -> bool {
    p.len() >= HEADER_LEN && p[2] & 0x02 != 0
}

/// Operation code of a message with a header.
pub open spec fn opcode_of(p: Seq<u8>) -> u8 {
    (p[2] >> 3) & 0x0f
}

/// Response code; zero for a message too short to have one.
pub open spec fn rcode_of(p: Seq<u8>) -> u8 {
    if p.len() > 3 {
        p[3] & 0x0f
    } else {
        0
    }
}

pub fn is_reply(packet: &[u8]) -> (r: bool)
    ensures
        r == reply_flag(packet@),
{
    packet.len() >= HEADER_LEN && packet[2] & 0x80 != 0
}

pub fn is_truncated(packet: &[u8]) -> (r: bool)
    ensures
        r == truncated_flag(packet@),
{
    packet.len() >= HEADER_LEN && packet[2] & 0x02 != 0
}

pub fn opcode(packet: &[u8]) -> (r: u8)
    requires
        packet@.len() >= HEADER_LEN,
    ensures
        r == opcode_of(packet@),
{
    (packet[2] >> 3) & 0x0f
}

pub fn rcode(packet: &[u8]) -> (r: u8)
    ensures
        r == rcode_of(packet@),
{
    if packet.len() > 3 {
        packet[3] & 0x0f
    } else {
        0
    }
}

/// Message identifier; `None` for a message too short to have one.
pub fn get_id(packet: &[u8]) -> (r: Option<u16>)
    ensures
        r == (if packet@.len() >= 2 {
            Some(be16(packet@, 0))
        } else {
            None
        }),
{
    if packet.len() >= 2 {
        Some(read_be16(packet, 0))
    } else {
        None
    }
}

/// The message `p` under the identifier `id`.
pub open spec fn with_id(p: Seq<u8>, id: u16) -> Seq<u8> {
    be16_bytes(id) + p.skip(2)
}

/// Writes the message identifier. A message too short to have one is left alone.
pub fn set_id(packet: &mut Vec<u8>, id: u16) -> (r: bool)
    ensures
        r == (old(packet)@.len() >= 2),
        final(packet)@ == (if old(packet)@.len() >= 2 {
            with_id(old(packet)@, id)
        } else {
            old(packet)@
        }),
{
    if packet.len() < 2 {
        return false;
    }
    let ghost before = packet@;
    packet[0] = (id / 256) as u8;
    packet[1] = (id % 256) as u8;
    proof {
        assert(packet@ =~= with_id(before, id));
    }
    true
}

/// The identifier that was set is the one that is read, and nothing else changes.
pub proof fn law_set_id_reads_back(p: Seq<u8>, id: u16)
    requires
        p.len() >= 2,
    ensures
        be16(with_id(p, id), 0) == id,
        with_id(p, id).len() == p.len(),
        with_id(p, id).skip(2) == p.skip(2),
        with_id(p, be16(p, 0)) == p,
{
    assert(with_id(p, id).skip(2) =~= p.skip(2));
    assert(with_id(p, be16(p, 0)) =~= p);
}

pub fn qdcount(packet: &[u8]) -> (r: u16)
    requires
        packet@.len() >= HEADER_LEN,
    ensures
        r == be16(packet@, 4),
{
    read_be16(packet, 4)
}

/// End of the uncompressed name at `i`: the position behind its root label.
pub open spec fn plain_name_end(p: Seq<u8>, i: int) -> Option<int>
    decreases p.len() - i,
{
    if i < 0 || i >= p.len() {
        None
    } else if p[i] == 0 {
        Some(i + 1)
    } else if p[i] <= 63 && i + 1 + p[i] < p.len() {
        plain_name_end(p, i + 1 + p[i])
    } else {
        None
    }
}

/// End of the first question: its name, type and class.
pub open spec fn question_end_of(p: Seq<u8>) -> Option<int> {
    match plain_name_end(p, HEADER_LEN as int) {
        Some(n) => if n + 4 <= p.len() {
            Some(n + 4)
        } else {
            None
        },
        None => None,
    }
}

/// End of the first question, when it is well formed.
pub fn question_end(packet: &[u8]) -> (r: Option<usize>)
    ensures
        match r {
            Some(e) => question_end_of(packet@) == Some(e as int) && HEADER_LEN + 5 <= e
                <= packet@.len(),
            None => question_end_of(packet@) is None,
        },
{
    let mut i: usize = HEADER_LEN;
    while i < packet.len()
        invariant
            HEADER_LEN <= i,
            plain_name_end(packet@, HEADER_LEN as int) == plain_name_end(packet@, i as int),
        decreases packet@.len() - i,
    {
        let b: u8 = packet[i];
        if b == 0 {
            assert(packet.len() == packet@.len());
            if packet.len() - i >= 5 {
                return Some(i + 5);
            }
            return None;
        }
        if b > 63 {
            return None;
        }
        let step: usize = b as usize + 1;
        if packet.len() - i <= step {
            return None;
        }
        i += step;
    }
    None
}

/// Question bytes of two messages, compared up to letter case.
pub fn questions_match(a: &[u8], b: &[u8]) -> (r: bool)
    ensures
        r == same_ignoring_case(a@, b@),
{
    eq_ignore_ascii_case(a, b)
}

/// Dotted lower-case text of the uncompressed name at `i`.
pub open spec fn name_text(p: Seq<u8>, i: int) -> Option<Seq<u8>>
    decreases p.len() - i,
{
    if i < 0 || i >= p.len() {
        None
    } else if p[i] == 0 {
        Some(Seq::empty())
    } else if p[i] <= 63 && i + 1 + p[i] <= p.len() {
        let label = lower_bytes(p.subrange(i + 1, i + 1 + p[i]));
        match name_text(p, i + 1 + p[i]) {
            Some(rest) => Some(
                if rest.len() == 0 {
                    label
                } else {
                    label + seq![DOT] + rest
                },
            ),
            None => None,
        }
    } else {
        None
    }
}

/// Name text accumulated in front of the rest of a name.
spec fn joined(front: Seq<u8>, rest: Seq<u8>) -> Seq<u8> {
    if front.len() == 0 {
        rest
    } else if rest.len() == 0 {
        front
    } else {
        front + seq![DOT] + rest
    }
}

/// Dotted lower-case text of the question name; `None` when the name is not well formed or is not
/// text.
pub fn qname_from_question(packet: &[u8]) -> (r: Option<String>)
    ensures
        match name_text(packet@, HEADER_LEN as int) {
            Some(n) => if valid_utf8(n) {
                r is Some && encode_utf8(r->0@) == n
            } else {
                r is None
            },
            None => r is None,
        },
{
    let mut out: Vec<u8> = Vec::new();
    let mut i: usize = HEADER_LEN;
    let ghost whole = name_text(packet@, HEADER_LEN as int);
    while i < packet.len()
        invariant
            HEADER_LEN <= i,
            whole == name_text(packet@, HEADER_LEN as int),
            whole == (match name_text(packet@, i as int) {
                Some(rest) => Some(joined(out@, rest)),
                None => None,
            }),
        decreases packet@.len() - i,
    {
        let b: u8 = packet[i];
        if b == 0 {
            return text_from_bytes(out);
        }
        let n: usize = b as usize;
        if b > 63 || packet.len() - i <= n {
            return None;
        }
        let ghost out0 = out@;
        let ghost label = lower_bytes(packet@.subrange(i + 1, i + 1 + n));
        if out.len() > 0 {
            out.push(DOT);
        }
        let ghost dotted = out@;
        let mut k: usize = 0;
        while k < n
            invariant
                k <= n,
                i + n < packet@.len(),
                label == lower_bytes(packet@.subrange(i + 1, i + 1 + n)),
                out@ == dotted + label.take(k as int),
            decreases n - k,
        {
            assert(packet.len() == packet@.len());
            out.push(lower(packet[i + 1 + k]));
            proof {
                assert(label[k as int] == lower_byte(packet@[i + 1 + k]));
                assert(out@ =~= dotted + label.take(k + 1));
            }
            k += 1;
        }
        proof {
            assert(label.take(n as int) =~= label);
            assert(name_text(packet@, i as int) == match name_text(packet@, i + 1 + n) {
                Some(rest) => Some(
                    if rest.len() == 0 {
                        label
                    } else {
                        label + seq![DOT] + rest
                    },
                ),
                None => None,
            });
            if name_text(packet@, i + 1 + n) is Some {
                let rest = name_text(packet@, i + 1 + n)->0;
                let here = if rest.len() == 0 {
                    label
                } else {
                    label + seq![DOT] + rest
                };
                assert(joined(out@, rest) =~= joined(out0, here));
            }
        }
        assert(packet.len() == packet@.len());
        i += n + 1;
    }
    None
}

/// Class of the question that ends at `question_end`.
pub fn question_qclass(packet: &[u8], question_end: usize) -> (r: Option<u16>)
    ensures
        r == (if 2 <= question_end && question_end <= packet@.len() {
            Some(be16(packet@, question_end - 2))
        } else {
            None
        }),
{
    if question_end >= 2 && question_end <= packet.len() {
        Some(read_be16(packet, question_end - 2))
    } else {
        None
    }
}

/// End of the possibly compressed name at `i`.
pub open spec fn name_end(p: Seq<u8>, i: int) -> Option<int>
    decreases p.len() - i,
{
    if i < 0 || i >= p.len() {
        None
    } else if p[i] == 0 {
        Some(i + 1)
    } else if p[i] >= 192 {
        if i + 2 <= p.len() {
            Some(i + 2)
        } else {
            None
        }
    } else if p[i] <= 63 && i + 1 + p[i] < p.len() {
        name_end(p, i + 1 + p[i])
    } else {
        None
    }
}

/// A resource record by its place in the message.
#[derive(Clone, Copy, Debug, PartialEq, Eq, Structural)]
pub struct Record {
    pub rtype: u16,
    pub data: usize,
    pub end: usize,
}

/// The record at `i`, when it is complete.
pub open spec fn record_at(p: Seq<u8>, i: int) -> Option<Record> {
    match name_end(p, i) {
        Some(n) => if n + 10 <= p.len() && n + 10 + be16(p, n + 8) <= p.len() {
            Some(
                Record {
                    rtype: be16(p, n),
                    data: (n + 10) as usize,
                    end: (n + 10 + be16(p, n + 8)) as usize,
                },
            )
        } else {
            None
        },
        None => None,
    }
}

/// At most `count` consecutive records from `i` on, up to the first incomplete one.
pub open spec fn records_from(p: Seq<u8>, i: int, count: nat) -> Seq<Record>
    decreases count,
{
    if count == 0 {
        Seq::empty()
    } else {
        match record_at(p, i) {
            Some(rr) => seq![rr] + records_from(p, rr.end as int, (count - 1) as nat),
            None => Seq::empty(),
        }
    }
}

/// The answer records of a message whose question ends at `question_end`.
pub open spec fn answers_of(p: Seq<u8>, question_end: int) -> Seq<Record> {
    if p.len() >= HEADER_LEN {
        records_from(p, question_end, be16(p, 6) as nat)
    } else {
        Seq::empty()
    }
}

fn find_name_end(p: &[u8], start: usize) -> (r: Option<usize>)
    ensures
        match r {
            Some(e) => name_end(p@, start as int) == Some(e as int) && e <= p@.len(),
            None => name_end(p@, start as int) is None,
        },
{
    let mut i: usize = start;
    while i < p.len()
        invariant
            name_end(p@, start as int) == name_end(p@, i as int),
        decreases p@.len() - i,
    {
        let b: u8 = p[i];
        assert(p.len() == p@.len());
        if b == 0 {
            return Some(i + 1);
        }
        if b >= 192 {
            if p.len() - i >= 2 {
                return Some(i + 2);
            }
            return None;
        }
        if b > 63 {
            return None;
        }
        let step: usize = b as usize + 1;
        if p.len() - i <= step {
            return None;
        }
        i += step;
    }
    None
}

pub(crate) fn read_record(p: &[u8], i: usize) -> (r: Option<Record>)
    ensures
        r == record_at(p@, i as int),
        r is Some ==> i + 10 < r->0.data <= r->0.end <= p@.len(),
{
    assert(p.len() == p@.len());
    proof {
        lemma_name_end_bound(p@, i as int);
    }
    match find_name_end(p, i) {
        Some(n) => {
            if p.len() - n < 10 {
                return None;
            }
            let len: usize = read_be16(p, n + 8) as usize;
            if p.len() - n - 10 < len {
                return None;
            }
            Some(Record { rtype: read_be16(p, n), data: n + 10, end: n + 10 + len })
        },
        None => None,
    }
}

/// The answer records of a message.
pub fn answer_records(packet: &[u8], question_end: usize) -> (r: Vec<Record>)
    ensures
        r@ == answers_of(packet@, question_end as int),
        forall|i: int| 0 <= i < r@.len() ==> (#[trigger] r@[i]).data <= r@[i].end <= packet@.len(),
{
    let mut out: Vec<Record> = Vec::new();
    if packet.len() < HEADER_LEN {
        return out;
    }
    let mut left: u16 = read_be16(packet, 6);
    let mut i: usize = question_end;
    let ghost all = answers_of(packet@, question_end as int);
    proof {
        assert(out@ + records_from(packet@, i as int, left as nat) =~= all);
    }
    while left > 0
        invariant
            all == answers_of(packet@, question_end as int),
            out@ + records_from(packet@, i as int, left as nat) == all,
            forall|k: int|
                0 <= k < out@.len() ==> (#[trigger] out@[k]).data <= out@[k].end <= packet@.len(),
        decreases left,
    {
        match read_record(packet, i) {
            Some(rr) => {
                let ghost out0 = out@;
                let ghost rest = records_from(packet@, rr.end as int, (left - 1) as nat);
                out.push(rr);
                proof {
                    assert(out@ + rest =~= out0 + (seq![rr] + rest));
                }
                i = rr.end;
                left = left - 1;
            },
            None => {
                proof {
                    assert(out@ =~= all);
                }
                return out;
            },
        }
    }
    proof {
        assert(out@ =~= all);
    }
    out
}

/// Types of the answer records, in message order.
pub fn answer_rr_types(packet: &[u8], question_end: usize) -> (r: Vec<u16>)
    ensures
        r@ == answers_of(packet@, question_end as int).map_values(|rr: Record| rr.rtype),
{
    let rrs = answer_records(packet, question_end);
    let mut out: Vec<u16> = Vec::new();
    let mut i: usize = 0;
    while i < rrs.len()
        invariant
            i <= rrs@.len(),
            out@ == rrs@.map_values(|rr: Record| rr.rtype).take(i as int),
        decreases rrs@.len() - i,
    {
        out.push(rrs[i].rtype);
        proof {
            assert(out@ =~= rrs@.map_values(|rr: Record| rr.rtype).take(i + 1));
        }
        i += 1;
    }
    proof {
        assert(out@ =~= rrs@.map_values(|rr: Record| rr.rtype));
    }
    out
}

/// Number written by four big-endian bytes from `i` on.
pub open spec fn be32(p: Seq<u8>, i: int) -> u32 {
    (p[i] * 16777216 + p[i + 1] * 65536 + p[i + 2] * 256 + p[i + 3]) as u32
}

/// Number written by `n` big-endian bytes from `i` on.
pub open spec fn be_number(p: Seq<u8>, i: int, n: nat) -> nat
    decreases n,
{
    if n == 0 {
        0
    } else {
        be_number(p, i, (n - 1) as nat) * 256 + p[i + n - 1] as nat
    }
}

/// The address that an address record carries.
pub open spec fn record_ip(p: Seq<u8>, rr: Record) -> Option<IpAddr> {
    if rr.rtype == TYPE_A && rr.end - rr.data == 4 {
        Some(IpAddr::V4(be32(p, rr.data as int)))
    } else if rr.rtype == TYPE_AAAA && rr.end - rr.data == 16 {
        Some(IpAddr::V6(be_number(p, rr.data as int, 16) as u128))
    } else {
        None
    }
}

/// Addresses of the address records among `rrs`, in order.
pub open spec fn record_ips(p: Seq<u8>, rrs: Seq<Record>) -> Seq<IpAddr>
    decreases rrs.len(),
{
    if rrs.len() == 0 {
        Seq::empty()
    } else {
        match record_ip(p, rrs.last()) {
            Some(ip) => record_ips(p, rrs.drop_last()).push(ip),
            None => record_ips(p, rrs.drop_last()),
        }
    }
}

/// Addresses in the answer section.
pub open spec fn answer_ips_of(p: Seq<u8>, question_end: int) -> Seq<IpAddr> {
    record_ips(p, answers_of(p, question_end))
}

fn read_be128(p: &[u8], start: usize) -> (r: u128)
    requires
        start + 16 <= p@.len(),
    ensures
        r == be_number(p@, start as int, 16),
{
    let mut v: u128 = 0;
    let mut k: usize = 0;
    proof {
        vstd::arithmetic::power2::lemma2_to64();
    }
    while k < 16
        invariant
            k <= 16,
            start + 16 <= p@.len(),
            v == be_number(p@, start as int, k as nat),
            v < vstd::arithmetic::power2::pow2((8 * k) as nat),
        decreases 16 - k,
    {
        proof {
            vstd::arithmetic::power2::lemma_pow2_adds((8 * k) as nat, 8);
            vstd::arithmetic::power2::lemma2_to64();
            vstd::arithmetic::power2::lemma_pow2_adds(64, 64);
            assert(0x1_0000_0000_0000_0000int * 0x1_0000_0000_0000_0000int == u128::MAX + 1)
                by (nonlinear_arith);
            if k < 15 {
                vstd::arithmetic::power2::lemma_pow2_strictly_increases((8 * (k + 1)) as nat, 128);
            }
            let y = vstd::arithmetic::power2::pow2((8 * k) as nat);
            let b = p@[start + k];
            assert(v * 256 + b < y * 256) by (nonlinear_arith)
                requires
                    v + 1 <= y,
                    b < 256,
            ;
        }
        assert(p.len() == p@.len());
        v = v * 256 + p[start + k] as u128;
        k += 1;
    }
    v
}

fn read_be32(p: &[u8], i: usize) -> (r: u32)
    requires
        i + 4 <= p@.len(),
    ensures
        r == be32(p@, i as int),
{
    assert(p.len() == p@.len());
    (p[i] as u32) * 16777216 + (p[i + 1] as u32) * 65536 + (p[i + 2] as u32) * 256 + p[i + 3] as u32
}

/// Addresses in the answer section.
pub fn answer_ips(packet: &[u8], question_end: usize) -> (r: Vec<IpAddr>)
    ensures
        r@ == answer_ips_of(packet@, question_end as int),
{
    let rrs = answer_records(packet, question_end);
    let mut out: Vec<IpAddr> = Vec::new();
    let mut i: usize = 0;
    while i < rrs.len()
        invariant
            i <= rrs@.len(),
            forall|k: int|
                0 <= k < rrs@.len() ==> (#[trigger] rrs@[k]).data <= rrs@[k].end <= packet@.len(),
            out@ == record_ips(packet@, rrs@.take(i as int)),
        decreases rrs@.len() - i,
    {
        let rr = rrs[i];
        proof {
            assert(rrs@.take(i + 1).drop_last() =~= rrs@.take(i as int));
            assert(rrs@.take(i + 1).last() == rr);
        }
        if rr.rtype == TYPE_A && rr.end - rr.data == 4 {
            out.push(IpAddr::V4(read_be32(packet, rr.data)));
        } else if rr.rtype == TYPE_AAAA && rr.end - rr.data == 16 {
            out.push(IpAddr::V6(read_be128(packet, rr.data)));
        }
        i += 1;
    }
    proof {
        assert(rrs@.take(rrs@.len() as int) =~= rrs@);
    }
    out
}

/// The one record of a locally made answer.
pub ghost struct LocalRecord {
    pub rtype: u16,
    pub ttl: u32,
    pub data: Seq<u8>,
}

/// Wire form of a local record: owner is the question name, class is Internet.
pub open spec fn local_record_bytes(rr: LocalRecord) -> Seq<u8> {
    seq![192u8, 12u8] + be16_bytes(rr.rtype) + seq![0u8, 1u8] + be32_bytes(rr.ttl) + be16_bytes(
        rr.data.len() as u16,
    ) + rr.data
}

/// A reply to `query` that repeats its question and carries `rcode` and at most one record.
/// The operation code and the recursion-desired bit are those of the query.
pub open spec fn local_reply(
    query: Seq<u8>,
    question_end: int,
    rcode: u8,
    answer: Option<LocalRecord>,
) -> Seq<u8> {
    let count = if answer is Some {
        1u8
    } else {
        0u8
    };
    query.take(2) + seq![
        0x80u8 | (query[2] & 0x79u8),
        0x80u8 | (rcode & 0x0fu8),
        0u8,
        1u8,
        0u8,
        count,
        0u8,
        0u8,
        0u8,
        0u8,
    ] + query.subrange(HEADER_LEN as int, question_end) + match answer {
        Some(rr) => local_record_bytes(rr),
        None => Seq::empty(),
    }
}

/// A question end that lies behind the header and inside the message.
pub open spec fn question_fits(query: Seq<u8>, question_end: int) -> bool {
    HEADER_LEN <= question_end && question_end <= query.len()
}

pub(crate) fn push_be16(out: &mut Vec<u8>, v: u16)
    ensures
        final(out)@ == old(out)@ + be16_bytes(v),
{
    out.push((v / 256) as u8);
    out.push((v % 256) as u8);
    proof {
        assert(out@ =~= old(out)@ + be16_bytes(v));
    }
}

pub(crate) fn push_be32(out: &mut Vec<u8>, v: u32)
    ensures
        final(out)@ == old(out)@ + be32_bytes(v),
{
    out.push((v / 16777216) as u8);
    out.push((v / 65536 % 256) as u8);
    out.push((v / 256 % 256) as u8);
    out.push((v % 256) as u8);
    proof {
        assert(out@ =~= old(out)@ + be32_bytes(v));
    }
}

pub(crate) fn push_all(out: &mut Vec<u8>, s: &[u8])
    ensures
        final(out)@ == old(out)@ + s@,
{
    let mut part = slice_to_vec(s);
    out.append(&mut part);
}

fn reply_head(query: &[u8], question_end: usize, rcode: u8, count: u8) -> (r: Vec<u8>)
    requires
        question_fits(query@, question_end as int),
    ensures
        r@ == query@.take(2) + seq![
            0x80u8 | (query@[2] & 0x79u8),
            0x80u8 | (rcode & 0x0fu8),
            0u8,
            1u8,
            0u8,
            count,
            0u8,
            0u8,
            0u8,
            0u8,
        ] + query@.subrange(HEADER_LEN as int, question_end as int),
{
    let mut out: Vec<u8> = Vec::with_capacity(question_end);
    out.push(query[0]);
    out.push(query[1]);
    out.push(0x80 | (query[2] & 0x79));
    out.push(0x80 | (rcode & 0x0f));
    out.push(0);
    out.push(1);
    out.push(0);
    out.push(count);
    out.push(0);
    out.push(0);
    out.push(0);
    out.push(0);
    proof {
        assert(out@ =~= query@.take(2) + seq![
            0x80u8 | (query@[2] & 0x79u8),
            0x80u8 | (rcode & 0x0fu8),
            0u8,
            1u8,
            0u8,
            count,
            0u8,
            0u8,
            0u8,
            0u8,
        ]);
    }
    push_all(&mut out, slice_subrange(query, HEADER_LEN, question_end));
    out
}

/// A reply with the given response code and no records.
pub fn rcode_reply(query: &[u8], question_end: usize, rcode: u8) -> (r: Option<Vec<u8>>)
    ensures
        match r {
            Some(m) => question_fits(query@, question_end as int) && m@ == local_reply(
                query@,
                question_end as int,
                rcode,
                None,
            ),
            None => !question_fits(query@, question_end as int),
        },
{
    if question_end < HEADER_LEN || question_end > query.len() {
        return None;
    }
    let out = reply_head(query, question_end, rcode, 0);
    proof {
        assert(out@ =~= local_reply(query@, question_end as int, rcode, None));
    }
    Some(out)
}

/// A reply without error and without records.
pub fn empty_reply(query: &[u8], question_end: usize) -> (r: Option<Vec<u8>>)
    ensures
        match r {
            Some(m) => question_fits(query@, question_end as int) && m@ == local_reply(
                query@,
                question_end as int,
                0,
                None,
            ),
            None => !question_fits(query@, question_end as int),
        },
{
    rcode_reply(query, question_end, 0)
}

/// A server-failure reply.
pub fn servfail_reply(query: &[u8], question_end: usize) -> (r: Option<Vec<u8>>)
    ensures
        match r {
            Some(m) => question_fits(query@, question_end as int) && m@ == local_reply(
                query@,
                question_end as int,
                RCODE_SERVFAIL,
                None,
            ),
            None => !question_fits(query@, question_end as int),
        },
{
    rcode_reply(query, question_end, RCODE_SERVFAIL)
}

/// A not-implemented reply that repeats the question.
pub fn notimp_reply(query: &[u8], question_end: usize) -> (r: Option<Vec<u8>>)
    ensures
        match r {
            Some(m) => question_fits(query@, question_end as int) && m@ == local_reply(
                query@,
                question_end as int,
                RCODE_NOTIMP,
                None,
            ),
            None => !question_fits(query@, question_end as int),
        },
{
    rcode_reply(query, question_end, RCODE_NOTIMP)
}

/// A bare not-implemented header for an operation that has no question; empty when the query has
/// no complete header.
pub fn notimp_opcode_reply(query: &[u8]) -> (r: Vec<u8>)
    ensures
        r@ == (if query@.len() >= HEADER_LEN {
            query@.take(2) + seq![
                0x80u8 | (query@[2] & 0x79u8),
                0x80u8 | RCODE_NOTIMP,
                0u8,
                0u8,
                0u8,
                0u8,
                0u8,
                0u8,
                0u8,
                0u8,
            ]
        } else {
            Seq::empty()
        }),
{
    let mut out: Vec<u8> = Vec::new();
    if query.len() < HEADER_LEN {
        return out;
    }
    out.push(query[0]);
    out.push(query[1]);
    out.push(0x80 | (query[2] & 0x79));
    out.push(0x80 | RCODE_NOTIMP);
    let mut k: usize = 0;
    let ghost head = out@;
    while k < 8
        invariant
            k <= 8,
            out@ == head + Seq::new(k as nat, |i: int| 0u8),
        decreases 8 - k,
    {
        out.push(0);
        k += 1;
        proof {
            assert(out@ =~= head + Seq::new(k as nat, |i: int| 0u8));
        }
    }
    proof {
        assert(out@ =~= query@.take(2) + seq![
            0x80u8 | (query@[2] & 0x79u8),
            0x80u8 | RCODE_NOTIMP,
            0u8,
            0u8,
            0u8,
            0u8,
            0u8,
            0u8,
            0u8,
            0u8,
        ]);
    }
    out
}

/// A reply that carries one IPv4 address.
pub fn a_reply(query: &[u8], question_end: usize, addr: u32, ttl: u32) -> (r: Option<Vec<u8>>)
    ensures
        match r {
            Some(m) => question_fits(query@, question_end as int) && m@ == local_reply(
                query@,
                question_end as int,
                0,
                Some(LocalRecord { rtype: TYPE_A, ttl, data: be32_bytes(addr) }),
            ),
            None => !question_fits(query@, question_end as int),
        },
{
    if question_end < HEADER_LEN || question_end > query.len() {
        return None;
    }
    let mut out = reply_head(query, question_end, 0, 1);
    let ghost head = out@;
    let ghost rr = LocalRecord { rtype: TYPE_A, ttl, data: be32_bytes(addr) };
    out.push(192);
    out.push(12);
    push_be16(&mut out, TYPE_A);
    push_be16(&mut out, 1);
    push_be32(&mut out, ttl);
    push_be16(&mut out, 4);
    push_be32(&mut out, addr);
    proof {
        assert(out@ =~= head + local_record_bytes(rr));
        assert(out@ =~= local_reply(query@, question_end as int, 0, Some(rr)));
    }
    Some(out)
}

/// The sixteen bytes of an IPv6 address.
pub open spec fn be128_bytes(v: u128) -> Seq<u8> {
    be32_bytes((v / 0x1_0000_0000_0000_0000_0000_0000) as u32) + be32_bytes(
        (v / 0x1_0000_0000_0000_0000 % 0x1_0000_0000) as u32,
    ) + be32_bytes((v / 0x1_0000_0000 % 0x1_0000_0000) as u32) + be32_bytes(
        (v % 0x1_0000_0000) as u32,
    )
}

pub(crate) fn push_be128(out: &mut Vec<u8>, v: u128)
    ensures
        final(out)@ == old(out)@ + be128_bytes(v),
{
    push_be32(out, (v / 0x1_0000_0000_0000_0000_0000_0000) as u32);
    push_be32(out, (v / 0x1_0000_0000_0000_0000 % 0x1_0000_0000) as u32);
    push_be32(out, (v / 0x1_0000_0000 % 0x1_0000_0000) as u32);
    push_be32(out, (v % 0x1_0000_0000) as u32);
    proof {
        assert(out@ =~= old(out)@ + be128_bytes(v));
    }
}

/// A reply that carries one IPv6 address.
pub fn aaaa_reply(query: &[u8], question_end: usize, addr: u128, ttl: u32) -> (r: Option<Vec<u8>>)
    ensures
        match r {
            Some(m) => question_fits(query@, question_end as int) && m@ == local_reply(
                query@,
                question_end as int,
                0,
                Some(LocalRecord { rtype: TYPE_AAAA, ttl, data: be128_bytes(addr) }),
            ),
            None => !question_fits(query@, question_end as int),
        },
{
    if question_end < HEADER_LEN || question_end > query.len() {
        return None;
    }
    let mut out = reply_head(query, question_end, 0, 1);
    let ghost head = out@;
    let ghost rr = LocalRecord { rtype: TYPE_AAAA, ttl, data: be128_bytes(addr) };
    out.push(192);
    out.push(12);
    push_be16(&mut out, TYPE_AAAA);
    push_be16(&mut out, 1);
    push_be32(&mut out, ttl);
    push_be16(&mut out, 16);
    push_be128(&mut out, addr);
    proof {
        assert(out@ =~= head + local_record_bytes(rr));
        assert(out@ =~= local_reply(query@, question_end as int, 0, Some(rr)));
    }
    Some(out)
}

/// What the first look at a query finds.
#[derive(Clone, Copy, Debug, PartialEq, Eq, Structural)]
pub struct FastQueryInfo {
    pub id: u16,
    pub qtype: u16,
    pub question_end: usize,
}

/// The first look at a message: a query with exactly one well-formed question.
pub open spec fn fast_query(p: Seq<u8>) -> Option<FastQueryInfo> {
    if p.len() >= HEADER_LEN && p[2] & 0x80 == 0 && be16(p, 4) == 1 {
        match question_end_of(p) {
            Some(e) => Some(
                FastQueryInfo { id: be16(p, 0), qtype: be16(p, e - 4), question_end: e as usize },
            ),
            None => None,
        }
    } else {
        None
    }
}

/// Takes a first look at a message; `None` for anything but a query with one question.
pub fn parse_query_fast(packet: &[u8]) -> (r: Option<FastQueryInfo>)
    ensures
        r == fast_query(packet@),
        r is Some ==> HEADER_LEN + 5 <= r->0.question_end <= packet@.len(),
{
    if packet.len() < HEADER_LEN || packet[2] & 0x80 != 0 || read_be16(packet, 4) != 1 {
        return None;
    }
    match question_end(packet) {
        Some(e) => Some(
            FastQueryInfo {
                id: read_be16(packet, 0),
                qtype: read_be16(packet, e - 4),
                question_end: e,
            },
        ),
        None => None,
    }
}

proof fn lemma_plain_name_end_agrees(p: Seq<u8>, q: Seq<u8>, i: int, limit: int)
    requires
        plain_name_end(p, i) is Some,
        plain_name_end(p, i)->0 <= limit <= p.len(),
        limit <= q.len(),
        0 <= i,
        forall|k: int| i <= k < limit ==> p[k] == q[k],
    ensures
        plain_name_end(q, i) == plain_name_end(p, i),
        plain_name_end(p, i)->0 > i,
    decreases p.len() - i,
{
    if p[i] != 0 {
        lemma_plain_name_end_bound(p, i + 1 + p[i]);
        lemma_plain_name_end_agrees(p, q, i + 1 + p[i], limit);
        assert(p[i] == q[i]);
    } else {
        assert(p[i] == q[i]);
    }
}

pub(crate) proof fn lemma_question_end_bound(p: Seq<u8>)
    ensures
        question_end_of(p) is Some ==> HEADER_LEN + 5 <= question_end_of(p)->0 <= p.len(),
{
    lemma_plain_name_end_bound(p, HEADER_LEN as int);
}

pub(crate) proof fn lemma_name_end_bound(p: Seq<u8>, i: int)
    ensures
        name_end(p, i) is Some ==> i < name_end(p, i)->0 <= p.len(),
    decreases p.len() - i,
{
    if 0 <= i < p.len() && p[i] != 0 && p[i] <= 63 && i + 1 + p[i] < p.len() {
        lemma_name_end_bound(p, i + 1 + p[i]);
    }
}

pub(crate) proof fn lemma_plain_name_end_bound(p: Seq<u8>, i: int)
    ensures
        plain_name_end(p, i) is Some ==> i < plain_name_end(p, i)->0 <= p.len(),
    decreases p.len() - i,
{
    if 0 <= i < p.len() && p[i] != 0 && p[i] <= 63 && i + 1 + p[i] < p.len() {
        lemma_plain_name_end_bound(p, i + 1 + p[i]);
    }
}

/// A locally made reply answers its query: same identifier, same question at the same place,
/// marked as a response, with the wanted response code.
pub proof fn law_local_reply_answers_query(
    query: Seq<u8>,
    question_end: int,
    rcode: u8,
    answer: Option<LocalRecord>,
)
    requires
        question_end_of(query) == Some(question_end),
    ensures
        ({
            let m = local_reply(query, question_end, rcode, answer);
            &&& be16(m, 0) == be16(query, 0)
            &&& reply_flag(m)
            &&& rcode_of(m) == rcode & 0x0f
            &&& m.subrange(HEADER_LEN as int, question_end) == query.subrange(
                HEADER_LEN as int,
                question_end,
            )
            &&& question_end_of(m) == Some(question_end)
        }),
{
    let m = local_reply(query, question_end, rcode, answer);
    lemma_plain_name_end_bound(query, HEADER_LEN as int);
    let b2 = query[2];
    assert((0x80u8 | (b2 & 0x79u8)) & 0x80u8 != 0u8) by (bit_vector);
    assert((0x80u8 | (rcode & 0x0fu8)) & 0x0fu8 == rcode & 0x0fu8) by (bit_vector);
    assert(m.len() >= question_end);
    assert forall|k: int| HEADER_LEN <= k < question_end implies query[k] == m[k] by {}
    assert(m.subrange(HEADER_LEN as int, question_end) =~= query.subrange(
        HEADER_LEN as int,
        question_end,
    ));
    lemma_plain_name_end_agrees(query, m, HEADER_LEN as int, question_end);
}

/// The answer section of a locally made address reply holds that address and nothing else.
pub proof fn law_a_reply_carries_address(query: Seq<u8>, question_end: int, addr: u32, ttl: u32)
    requires
        question_fits(query, question_end),
        question_end <= u16::MAX,
    ensures
        answer_ips_of(
            local_reply(
                query,
                question_end,
                0,
                Some(LocalRecord { rtype: TYPE_A, ttl, data: be32_bytes(addr) }),
            ),
            question_end,
        ) == seq![IpAddr::V4(addr)],
{
    let rr = LocalRecord { rtype: TYPE_A, ttl, data: be32_bytes(addr) };
    let m = local_reply(query, question_end, 0, Some(rr));
    let e = question_end;
    let tail = local_record_bytes(rr);
    assert(tail.len() == 16);
    assert(m.len() == e + 16);
    assert forall|k: int| 0 <= k < 16 implies m[e + k] == tail[k] by {}
    assert(m[e] == 192u8);
    assert(name_end(m, e) == Some(e + 2));
    assert(m[e + 2] == tail[2] && m[e + 3] == tail[3]);
    assert(m[e + 10] == tail[10] && m[e + 11] == tail[11]);
    assert(be16(m, e + 2) == TYPE_A);
    assert(be16(m, e + 10) == 4);
    let rec = record_at(m, e)->0;
    assert(rec == Record { rtype: TYPE_A, data: (e + 12) as usize, end: (e + 16) as usize });
    assert(be16(m, 6) == 1);
    assert(records_from(m, rec.end as int, 0) =~= Seq::<Record>::empty());
    assert(records_from(m, e, 1) =~= seq![rec]);
    assert(m[e + 12] == tail[12] && m[e + 13] == tail[13] && m[e + 14] == tail[14] && m[e + 15]
        == tail[15]);
    assert(be32(m, e + 12) == addr);
    assert(seq![rec].drop_last() =~= Seq::<Record>::empty());
    assert(record_ips(m, Seq::<Record>::empty()) =~= Seq::<IpAddr>::empty());
    assert(record_ips(m, seq![rec]) =~= seq![IpAddr::V4(addr)]);
}

/// The answer section of a locally made reply with a record: that one record, whose data and
/// lifetime are the given ones.
proof fn lemma_one_record(query: Seq<u8>, question_end: int, rcode: u8, rr: LocalRecord)
    requires
        question_fits(query, question_end),
        rr.data.len() <= 16,
        question_end + 28 <= usize::MAX,
    ensures
        ({
            let m = local_reply(query, question_end, rcode, Some(rr));
            &&& m.len() == question_end + 12 + rr.data.len()
            &&& answers_of(m, question_end) == seq![
                Record {
                    rtype: rr.rtype,
                    data: (question_end + 12) as usize,
                    end: (question_end + 12 + rr.data.len()) as usize,
                },
            ]
            &&& be32(m, question_end + 6) == rr.ttl
            &&& m.skip(question_end + 12) == rr.data
        }),
{
    let m = local_reply(query, question_end, rcode, Some(rr));
    let e = question_end;
    let tail = local_record_bytes(rr);
    assert(tail.len() == 12 + rr.data.len());
    assert(m.len() == e + tail.len());
    assert forall|k: int| 0 <= k < tail.len() implies m[e + k] == tail[k] by {}
    assert(m[e] == 192u8);
    assert(name_end(m, e) == Some(e + 2));
    assert(m[e + 2] == tail[2] && m[e + 3] == tail[3]);
    assert(m[e + 6] == tail[6] && m[e + 7] == tail[7] && m[e + 8] == tail[8] && m[e + 9]
        == tail[9]);
    assert(m[e + 10] == tail[10] && m[e + 11] == tail[11]);
    assert(be16(m, e + 2) == rr.rtype);
    assert(be16(m, e + 10) == rr.data.len());
    let rec = record_at(m, e)->0;
    assert(be16(m, 6) == 1);
    assert(records_from(m, rec.end as int, 0) =~= Seq::<Record>::empty());
    assert(records_from(m, e, 1) =~= seq![rec]);
    assert(m.skip(e + 12) =~= rr.data);
}

proof fn lemma_be_number_word(p: Seq<u8>, i: int, n: nat)
    ensures
        be_number(p, i, n + 4) == be_number(p, i, n) * 0x1_0000_0000 + be32(p, i + n as int),
{
    reveal_with_fuel(be_number, 5);
    assert(be_number(p, i, n + 1) == be_number(p, i, n) * 256 + p[i + n]);
    assert(be_number(p, i, n + 2) == be_number(p, i, n + 1) * 256 + p[i + n + 1]);
    assert(be_number(p, i, n + 3) == be_number(p, i, n + 2) * 256 + p[i + n + 2]);
    assert(be_number(p, i, n + 4) == be_number(p, i, n + 3) * 256 + p[i + n + 3]);
}

proof fn lemma_be32_roundtrip(p: Seq<u8>, i: int, w: u32)
    requires
        0 <= i,
        i + 4 <= p.len(),
        p.subrange(i, i + 4) == be32_bytes(w),
    ensures
        be32(p, i) == w,
{
    let b = be32_bytes(w);
    let part = p.subrange(i, i + 4);
    assert(part[0] == p[i] && part[1] == p[i + 1] && part[2] == p[i + 2] && part[3] == p[i + 3]);
}

proof fn lemma_words(v: u128)
    ensures
        (((v / 0x1_0000_0000_0000_0000_0000_0000) * 0x1_0000_0000 + v / 0x1_0000_0000_0000_0000
            % 0x1_0000_0000) * 0x1_0000_0000 + v / 0x1_0000_0000 % 0x1_0000_0000) * 0x1_0000_0000
            + v % 0x1_0000_0000 == v,
        v / 0x1_0000_0000_0000_0000_0000_0000 <= u32::MAX,
{
    let x = v as int;
    let a = x / 0x1_0000_0000;
    let c = a / 0x1_0000_0000;
    let d = c / 0x1_0000_0000;
    assert(c == x / 0x1_0000_0000_0000_0000);
    assert(d == x / 0x1_0000_0000_0000_0000_0000_0000);
    assert(c == d * 0x1_0000_0000 + c % 0x1_0000_0000);
    assert(a == c * 0x1_0000_0000 + a % 0x1_0000_0000);
    assert(x == a * 0x1_0000_0000 + x % 0x1_0000_0000);
}

/// Sixteen bytes written for an address read back as that address.
proof fn lemma_be128_roundtrip(p: Seq<u8>, i: int, v: u128)
    requires
        0 <= i,
        i + 16 <= p.len(),
        p.subrange(i, i + 16) == be128_bytes(v),
    ensures
        be_number(p, i, 16) == v,
{
    let w0 = (v / 0x1_0000_0000_0000_0000_0000_0000) as u32;
    let w1 = (v / 0x1_0000_0000_0000_0000 % 0x1_0000_0000) as u32;
    let w2 = (v / 0x1_0000_0000 % 0x1_0000_0000) as u32;
    let w3 = (v % 0x1_0000_0000) as u32;
    let b = be128_bytes(v);
    assert(p.subrange(i, i + 4) =~= be32_bytes(w0) && p.subrange(i + 4, i + 8) =~= be32_bytes(w1)
        && p.subrange(i + 8, i + 12) =~= be32_bytes(w2) && p.subrange(i + 12, i + 16)
        =~= be32_bytes(w3)) by {
        assert(b.subrange(0, 4) =~= be32_bytes(w0));
        assert(b.subrange(4, 8) =~= be32_bytes(w1));
        assert(b.subrange(8, 12) =~= be32_bytes(w2));
        assert(b.subrange(12, 16) =~= be32_bytes(w3));
        let all = p.subrange(i, i + 16);
        assert(all.subrange(0, 4) =~= p.subrange(i, i + 4));
        assert(all.subrange(4, 8) =~= p.subrange(i + 4, i + 8));
        assert(all.subrange(8, 12) =~= p.subrange(i + 8, i + 12));
        assert(all.subrange(12, 16) =~= p.subrange(i + 12, i + 16));
    }
    assert(be32(p, i) == w0 && be32(p, i + 4) == w1 && be32(p, i + 8) == w2 && be32(p, i + 12)
        == w3) by {
        lemma_be32_roundtrip(p, i, w0);
        lemma_be32_roundtrip(p, i + 4, w1);
        lemma_be32_roundtrip(p, i + 8, w2);
        lemma_be32_roundtrip(p, i + 12, w3);
    }
    lemma_be_number_word(p, i, 0);
    lemma_be_number_word(p, i, 4);
    lemma_be_number_word(p, i, 8);
    lemma_be_number_word(p, i, 12);
    lemma_words(v);
}

proof fn lemma_v4_record(query: Seq<u8>, e: int, rcode: u8, v4: u32, ttl: u32)
    requires
        question_fits(query, e),
        e + 28 <= usize::MAX,
    ensures
        ({
            let m = local_reply(
                query,
                e,
                rcode,
                Some(LocalRecord { rtype: TYPE_A, ttl, data: be32_bytes(v4) }),
            );
            &&& answer_ips_of(m, e) == seq![IpAddr::V4(v4)]
            &&& answers_of(m, e).len() == 1
            &&& be32(m, e + 6) == ttl
        }),
{
    let rr = LocalRecord { rtype: TYPE_A, ttl, data: be32_bytes(v4) };
    let m = local_reply(query, e, rcode, Some(rr));
    lemma_one_record(query, e, rcode, rr);
    assert(m.subrange(e + 12, e + 16) =~= m.skip(e + 12));
    lemma_be32_roundtrip(m, e + 12, v4);
    lemma_single_ip(m, answers_of(m, e)[0]);
}

proof fn lemma_v6_record(query: Seq<u8>, e: int, rcode: u8, v6: u128, ttl: u32)
    requires
        question_fits(query, e),
        e + 28 <= usize::MAX,
    ensures
        ({
            let m = local_reply(
                query,
                e,
                rcode,
                Some(LocalRecord { rtype: TYPE_AAAA, ttl, data: be128_bytes(v6) }),
            );
            &&& answer_ips_of(m, e) == seq![IpAddr::V6(v6)]
            &&& answers_of(m, e).len() == 1
            &&& be32(m, e + 6) == ttl
        }),
{
    let rr = LocalRecord { rtype: TYPE_AAAA, ttl, data: be128_bytes(v6) };
    let m = local_reply(query, e, rcode, Some(rr));
    assert(be128_bytes(v6).len() == 16);
    lemma_one_record(query, e, rcode, rr);
    assert(m.subrange(e + 12, e + 28) =~= m.skip(e + 12));
    lemma_be128_roundtrip(m, e + 12, v6);
    lemma_single_ip(m, answers_of(m, e)[0]);
}

proof fn lemma_single_ip(p: Seq<u8>, rr: Record)
    requires
        record_ip(p, rr) is Some,
    ensures
        record_ips(p, seq![rr]) == seq![record_ip(p, rr)->0],
{
    assert(seq![rr].drop_last() =~= Seq::<Record>::empty());
    assert(record_ips(p, Seq::<Record>::empty()) =~= Seq::<IpAddr>::empty());
    assert(record_ips(p, seq![rr]) =~= seq![record_ip(p, rr)->0]);
}

/// A locally made reply with an IPv4 record of four bytes, or an IPv6 record of sixteen, carries
/// that address with that lifetime and nothing else; one without a record carries none.
pub proof fn law_local_reply_carries_its_record(
    query: Seq<u8>,
    question_end: int,
    rcode: u8,
    v4: u32,
    v6: u128,
    ttl: u32,
)
    requires
        question_fits(query, question_end),
        question_end + 28 <= usize::MAX,
    ensures
        ({
            let m = local_reply(
                query,
                question_end,
                rcode,
                Some(LocalRecord { rtype: TYPE_A, ttl, data: be32_bytes(v4) }),
            );
            &&& answer_ips_of(m, question_end) == seq![IpAddr::V4(v4)]
            &&& answers_of(m, question_end).len() == 1
            &&& be32(m, question_end + 6) == ttl
        }),
        ({
            let m = local_reply(
                query,
                question_end,
                rcode,
                Some(LocalRecord { rtype: TYPE_AAAA, ttl, data: be128_bytes(v6) }),
            );
            &&& answer_ips_of(m, question_end) == seq![IpAddr::V6(v6)]
            &&& answers_of(m, question_end).len() == 1
            &&& be32(m, question_end + 6) == ttl
        }),
        answers_of(local_reply(query, question_end, rcode, None), question_end).len() == 0,
        answer_ips_of(local_reply(query, question_end, rcode, None), question_end).len() == 0,
        local_reply(query, question_end, rcode, None).len() == question_end,
{
    let e = question_end;
    lemma_v4_record(query, e, rcode, v4, ttl);
    lemma_v6_record(query, e, rcode, v6, ttl);
    let none = local_reply(query, e, rcode, None);
    assert(be16(none, 6) == 0);
    assert(answers_of(none, e) =~= Seq::<Record>::empty());
}

// What the wire form says.

/// Where the header keeps its facts: the response mark is the top bit of the third byte, the
/// operation the four bits below it, the truncation mark its second lowest bit, and the response
/// code the low half of the fourth byte.
pub proof fn law_header_bits(p: Seq<u8>)
    requires
        p.len() >= 12,
    ensures
        reply_flag(p) <==> p[2] >= 128,
        truncated_flag(p) <==> (p[2] / 2) % 2 == 1,
        opcode_of(p) == (p[2] / 8) % 16,
        rcode_of(p) == p[3] % 16,
{
    let b = p[2];
    let c = p[3];
    assert((b & 0x80 != 0) == (b >= 128) && (b & 0x02 != 0) == ((b / 2) % 2 == 1) && (b >> 3) & 0x0f
        == (b / 8) % 16 && c & 0x0f == c % 16) by (bit_vector);
}

/// The header of a locally made reply: marked as a response with recursion available, with the
/// operation and the recursion wish of the query, neither authoritative nor truncated, the wanted
/// response code, one question, as many answers as records, and nothing more.
pub proof fn law_local_reply_header(
    query: Seq<u8>,
    question_end: int,
    rcode: u8,
    answer: Option<LocalRecord>,
)
    requires
        question_fits(query, question_end),
        rcode < 16,
    ensures
        ({
            let m = local_reply(query, question_end, rcode, answer);
            &&& m.len() >= question_end
            &&& m[0] == query[0] && m[1] == query[1]
            &&& m[2] >= 128
            &&& (m[2] / 8) % 16 == (query[2] / 8) % 16
            &&& (m[2] / 2) % 4 == 0
            &&& m[2] % 2 == query[2] % 2
            &&& m[3] == 128 + rcode
            &&& be16(m, 4) == 1
            &&& be16(m, 6) == (if answer is Some {
                1int
            } else {
                0
            })
            &&& be16(m, 8) == 0
            &&& be16(m, 10) == 0
            &&& m.subrange(12, question_end) == query.subrange(12, question_end)
            &&& answer is None ==> m.len() == question_end
        }),
{
    let m = local_reply(query, question_end, rcode, answer);
    let b = query[2];
    assert((0x80u8 | (b & 0x79u8)) >= 128 && ((0x80u8 | (b & 0x79u8)) / 8) % 16 == (b / 8) % 16 && ((
    0x80u8 | (b & 0x79u8)) / 2) % 4 == 0 && (0x80u8 | (b & 0x79u8)) % 2 == b % 2) by (bit_vector);
    assert(rcode < 16 ==> (0x80u8 | (rcode & 0x0fu8)) == 128 + rcode) by (bit_vector);
    assert(m.subrange(12, question_end) =~= query.subrange(12, question_end));
}

/// Wire form of a name: each label behind its length, and a zero at the end.
pub open spec fn wire_name(labels: Seq<Seq<u8>>) -> Seq<u8>
    decreases labels.len(),
{
    if labels.len() == 0 {
        seq![0u8]
    } else {
        seq![labels[0].len() as u8] + labels[0] + wire_name(labels.drop_first())
    }
}

/// Labels in lower case with dots between them.
pub open spec fn dotted(labels: Seq<Seq<u8>>) -> Seq<u8>
    decreases labels.len(),
{
    if labels.len() == 0 {
        Seq::empty()
    } else if labels.len() == 1 {
        lower_bytes(labels[0])
    } else {
        lower_bytes(labels[0]) + seq![46u8] + dotted(labels.drop_first())
    }
}

/// Labels that a name can have.
pub open spec fn fit_labels(labels: Seq<Seq<u8>>) -> bool {
    forall|i: int| 0 <= i < labels.len() ==> 1 <= (#[trigger] labels[i]).len() <= 63
}

proof fn lemma_wire_name(p: Seq<u8>, i: int, labels: Seq<Seq<u8>>)
    requires
        0 <= i,
        fit_labels(labels),
        i + wire_name(labels).len() <= p.len(),
        p.subrange(i, i + wire_name(labels).len()) == wire_name(labels),
    ensures
        plain_name_end(p, i) == Some(i + wire_name(labels).len()),
        name_end(p, i) == Some(i + wire_name(labels).len()),
        name_text(p, i) == Some(dotted(labels)),
        (dotted(labels).len() == 0) == (labels.len() == 0),
        wire_name(labels).len() >= 1,
    decreases labels.len(),
{
    let w = wire_name(labels);
    if labels.len() == 0 {
        assert(p[i] == p.subrange(i, i + w.len())[0]);
    } else {
        let rest = labels.drop_first();
        let tail = wire_name(rest);
        let first = labels[0];
        let n = first.len() as int;
        assert(fit_labels(rest)) by {
            assert forall|j: int| 0 <= j < rest.len() implies 1 <= (#[trigger] rest[j]).len()
                <= 63 by {
                assert(rest[j] == labels[j + 1]);
            }
        }
        assert(w.len() == 1 + n + tail.len());
        assert(p[i] == p.subrange(i, i + w.len())[0]);
        assert(w[0] == n as u8);
        assert(p.subrange(i + 1, i + 1 + n) =~= first) by {
            assert forall|k: int| 0 <= k < n implies p[i + 1 + k] == first[k] by {
                assert(p.subrange(i, i + w.len())[1 + k] == w[1 + k]);
            }
        }
        assert(p.subrange(i + 1 + n, i + 1 + n + tail.len()) =~= tail) by {
            assert forall|k: int| 0 <= k < tail.len() implies p[i + 1 + n + k] == tail[k] by {
                assert(p.subrange(i, i + w.len())[1 + n + k] == w[1 + n + k]);
            }
        }
        lemma_wire_name(p, i + 1 + n, rest);
        assert(lower_bytes(first).len() == n);
    }
}

/// A question is read as it was written: its name in lower case with dots between the labels, its
/// type, its class and its end. The message is a query exactly when it is not marked as a response
/// and counts one question.
pub proof fn law_question_is_read(
    header: Seq<u8>,
    labels: Seq<Seq<u8>>,
    qtype: u16,
    qclass: u16,
    tail: Seq<u8>,
)
    requires
        header.len() == 12,
        fit_labels(labels),
        12 + wire_name(labels).len() + 4 + tail.len() <= usize::MAX,
    ensures
        ({
            let p = header + wire_name(labels) + seq![
                (qtype / 256) as u8,
                (qtype % 256) as u8,
                (qclass / 256) as u8,
                (qclass % 256) as u8,
            ] + tail;
            let end = 12 + wire_name(labels).len() + 4;
            &&& question_end_of(p) == Some(end as int)
            &&& name_text(p, 12) == Some(dotted(labels))
            &&& be16(p, end - 4) == qtype
            &&& be16(p, end - 2) == qclass
            &&& fast_query(p) == (if header[2] < 128 && header[4] == 0 && header[5] == 1 {
                Some(
                    FastQueryInfo {
                        id: (header[0] * 256 + header[1]) as u16,
                        qtype,
                        question_end: end as usize,
                    },
                )
            } else {
                None
            })
        }),
{
    let w = wire_name(labels);
    let p = header + w + seq![
        (qtype / 256) as u8,
        (qtype % 256) as u8,
        (qclass / 256) as u8,
        (qclass % 256) as u8,
    ] + tail;
    let e = (12 + w.len()) as int;
    assert(p.subrange(12, e) =~= w);
    lemma_wire_name(p, 12, labels);
    assert(p[e] == (qtype / 256) as u8);
    assert(p[e + 1] == (qtype % 256) as u8);
    assert(p[e + 2] == (qclass / 256) as u8);
    assert(p[e + 3] == (qclass % 256) as u8);
    assert(p[0] == header[0] && p[1] == header[1] && p[2] == header[2] && p[4] == header[4] && p[5]
        == header[5]);
    let b = header[2];
    assert((b & 0x80 == 0) == (b < 128)) by (bit_vector);
}

/// A message that is cut off before its question ends has no question.
pub proof fn law_cut_question_is_none(p: Seq<u8>, k: int)
    requires
        question_end_of(p) is Some,
        0 <= k < question_end_of(p)->0,
    ensures
        question_end_of(p.take(k)) is None,
        fast_query(p.take(k)) is None,
{
    let q = p.take(k);
    lemma_question_end_bound(p);
    lemma_question_end_bound(q);
    if question_end_of(q) is Some {
        let n = plain_name_end(q, HEADER_LEN as int)->0;
        lemma_plain_name_end_bound(q, HEADER_LEN as int);
        lemma_plain_name_end_agrees(q, p, HEADER_LEN as int, n);
    }
}

/// A record is read as it was written: type and data lie behind its owner, whether that is written
/// out or points back into the message.
pub proof fn law_record_is_read(
    front: Seq<u8>,
    labels: Seq<Seq<u8>>,
    pointer: Seq<u8>,
    rtype: u16,
    class_and_ttl: Seq<u8>,
    data: Seq<u8>,
    tail: Seq<u8>,
)
    requires
        fit_labels(labels),
        pointer.len() == 2,
        pointer[0] >= 192,
        class_and_ttl.len() == 6,
        data.len() <= 65535,
        front.len() + wire_name(labels).len() + 12 + data.len() + tail.len() <= usize::MAX,
    ensures
        ({
            let body = be16_bytes(rtype) + class_and_ttl + be16_bytes(data.len() as u16) + data
                + tail;
            let i = front.len() as int;
            let n = wire_name(labels).len();
            &&& record_at(front + wire_name(labels) + body, i) == Some(
                Record {
                    rtype,
                    data: (i + n + 10) as usize,
                    end: (i + n + 10 + data.len()) as usize,
                },
            )
            &&& record_at(front + pointer + body, i) == Some(
                Record {
                    rtype,
                    data: (i + 12) as usize,
                    end: (i + 12 + data.len()) as usize,
                },
            )
        }),
{
    let body = be16_bytes(rtype) + class_and_ttl + be16_bytes(data.len() as u16) + data + tail;
    let i = front.len() as int;
    let w = wire_name(labels);
    let p = front + w + body;
    assert(p.subrange(i, i + w.len()) =~= w);
    lemma_wire_name(p, i, labels);
    lemma_record_body(front + w, rtype, class_and_ttl, data, tail);
    let q = front + pointer + body;
    assert(q[i] == pointer[0]);
    lemma_record_body(front + pointer, rtype, class_and_ttl, data, tail);
}

proof fn lemma_record_body(
    front: Seq<u8>,
    rtype: u16,
    class_and_ttl: Seq<u8>,
    data: Seq<u8>,
    tail: Seq<u8>,
)
    requires
        class_and_ttl.len() == 6,
        data.len() <= 65535,
    ensures
        ({
            let body = be16_bytes(rtype) + class_and_ttl + be16_bytes(data.len() as u16) + data
                + tail;
            let p = front + body;
            let n = front.len() as int;
            &&& be16(p, n) == rtype
            &&& be16(p, n + 8) == data.len()
            &&& p.len() == n + 10 + data.len() + tail.len()
        }),
{
    let body = be16_bytes(rtype) + class_and_ttl + be16_bytes(data.len() as u16) + data + tail;
    let p = front + body;
    let n = front.len() as int;
    assert(p[n] == body[0] && p[n + 1] == body[1] && p[n + 8] == body[8] && p[n + 9] == body[9]);
}

/// The records of a message follow one another: as many as are counted, up to the first that is not
/// complete.
pub proof fn law_records_follow_one_another(p: Seq<u8>, i: int, count: nat)
    ensures
        records_from(p, i, 0).len() == 0,
        records_from(p, i, count).len() <= count,
        record_at(p, i) matches Some(rr) ==> records_from(p, i, count + 1) == seq![rr]
            + records_from(p, rr.end as int, count),
        record_at(p, i) is None ==> records_from(p, i, count).len() == 0,
        p.len() >= 12 && p[6] == 0 && p[7] == 0 ==> answers_of(p, i).len() == 0,
        p.len() >= 12 ==> answers_of(p, i).len() <= p[6] * 256 + p[7],
        p.len() < 12 ==> answers_of(p, i).len() == 0,
{
    lemma_at_most_counted(p, i, count);
    if p.len() >= 12 {
        lemma_at_most_counted(p, i, be16(p, 6) as nat);
    }
}

proof fn lemma_at_most_counted(p: Seq<u8>, i: int, count: nat)
    ensures
        records_from(p, i, count).len() <= count,
    decreases count,
{
    if count > 0 {
        if let Some(rr) = record_at(p, i) {
            lemma_at_most_counted(p, rr.end as int, (count - 1) as nat);
        }
    }
}

/// The addresses of an answer are those of its address records in their order: a record of type 1
/// with four bytes and one of type 28 with sixteen carry one each, and no other record does.
pub proof fn law_only_address_records_carry_addresses(p: Seq<u8>, rrs: Seq<Record>, rr: Record)
    ensures
        ({
            let before = record_ips(p, rrs);
            let after = record_ips(p, rrs.push(rr));
            &&& rr.rtype == 1 && rr.end - rr.data == 4 ==> after == before.push(
                IpAddr::V4(
                    (p[rr.data as int] * 16777216 + p[rr.data + 1] * 65536 + p[rr.data + 2] * 256
                        + p[rr.data + 3]) as u32,
                ),
            )
            &&& rr.rtype == 28 && rr.end - rr.data == 16 ==> after.len() == before.len() + 1
                && after.drop_last() == before && after.last() is V6
            &&& !(rr.rtype == 1 && rr.end - rr.data == 4) && !(rr.rtype == 28 && rr.end - rr.data
                == 16) ==> after == before
            &&& record_ips(p, Seq::empty()).len() == 0
        }),
{
    assert(rrs.push(rr).drop_last() =~= rrs);
    let before = record_ips(p, rrs);
    if rr.rtype == 28 && rr.end - rr.data == 16 {
        let ip = record_ip(p, rr)->0;
        assert(before.push(ip).drop_last() =~= before);
    }
}

} // verus!
