//! Byte layouts of the kernel interface, on little-endian machines with 64-bit words: socket
//! addresses and control messages.

use crate::dns::{be128_bytes, be16, be16_bytes, be32, be32_bytes, push_be128, push_be16, push_be32, read_be16};
use crate::persist::{
    law_le_roundtrip, le16, le16_bytes, le32, le32_bytes, le64, le64_bytes, push_le16, push_le32,
    read_le16, read_le32, read_le64,
};
use vstd::prelude::*;
use vstd::slice::slice_subrange;

verus! {

// Socket addresses.

/// Address of a socket.
#[derive(Clone, Copy, Debug, PartialEq, Eq, Structural)]
pub enum SockAddr {
    /// Address and port.
    V4(u32, u16),
    /// Address, port, flow information and scope.
    V6(u128, u16, u32, u32),
}

/// Family number of IPv4.
pub const AF_INET: u16 = 2;

/// Family number of IPv6.
pub const AF_INET6: u16 = 10;

/// Length of an IPv4 socket address.
pub const SOCKADDR_IN_LEN: usize = 16;

/// Length of an IPv6 socket address.
pub const SOCKADDR_IN6_LEN: usize = 28;

/// Bytes of a socket address.
pub open spec fn sockaddr_bytes(a: SockAddr) -> Seq<u8> {
    match a {
        SockAddr::V4(addr, port) => le16_bytes(AF_INET) + be16_bytes(port) + be32_bytes(addr)
            + seq![0u8, 0u8, 0u8, 0u8, 0u8, 0u8, 0u8, 0u8],
        SockAddr::V6(addr, port, flowinfo, scope_id) => le16_bytes(AF_INET6) + be16_bytes(port)
            + le32_bytes(flowinfo) + be128_bytes(addr) + le32_bytes(scope_id),
    }
}

/// Writes a socket address.
pub fn write_sockaddr(a: SockAddr) -> (r: Vec<u8>)
    ensures
        r@ == sockaddr_bytes(a),
{
    let mut out: Vec<u8> = Vec::new();
    match a {
        SockAddr::V4(addr, port) => {
            push_le16(&mut out, AF_INET);
            push_be16(&mut out, port);
            push_be32(&mut out, addr);
            push_be32(&mut out, 0);
            push_be32(&mut out, 0);
            proof {
                assert(be32_bytes(0) =~= seq![0u8, 0u8, 0u8, 0u8]);
                assert(out@ =~= sockaddr_bytes(a));
            }
        },
        SockAddr::V6(addr, port, flowinfo, scope_id) => {
            push_le16(&mut out, AF_INET6);
            push_be16(&mut out, port);
            push_le32(&mut out, flowinfo);
            push_be128(&mut out, addr);
            push_le32(&mut out, scope_id);
            proof {
                assert(out@ =~= sockaddr_bytes(a));
            }
        },
    }
    out
}

/// The 128-bit number at `i`, highest byte first.
pub open spec fn be128(p: Seq<u8>, i: int) -> u128 {
    (be32(p, i) * 0x1_0000_0000_0000_0000_0000_0000 + be32(p, i + 4) * 0x1_0000_0000_0000_0000
        + be32(p, i + 8) * 0x1_0000_0000 + be32(p, i + 12)) as u128
}

/// The socket address that the first bytes of a kernel buffer hold.
pub open spec fn sockaddr_of(p: Seq<u8>) -> Option<SockAddr> {
    if p.len() >= SOCKADDR_IN_LEN && le16(p, 0) == AF_INET {
        Some(SockAddr::V4(be32(p, 4), be16(p, 2)))
    } else if p.len() >= SOCKADDR_IN6_LEN && le16(p, 0) == AF_INET6 {
        Some(SockAddr::V6(be128(p, 8), be16(p, 2), le32(p, 4), le32(p, 24)))
    } else {
        None
    }
}

fn read_be32_at(p: &[u8], i: usize) -> (r: u32)
    requires
        i + 4 <= p@.len(),
    ensures
        r == be32(p@, i as int),
{
    assert(p.len() == p@.len());
    (p[i] as u32) * 16777216 + (p[i + 1] as u32) * 65536 + (p[i + 2] as u32) * 256 + p[i
        + 3] as u32
}

/// Reads a socket address off the front of a kernel buffer; `None` for another family or an
/// address that is cut short.
pub fn read_sockaddr_bytes(p: &[u8]) -> (r: Option<SockAddr>)
    ensures
        r == sockaddr_of(p@),
{
    if p.len() < SOCKADDR_IN_LEN {
        return None;
    }
    let family: u16 = read_le16(p, 0);
    if family == AF_INET {
        return Some(SockAddr::V4(read_be32_at(p, 4), read_be16(p, 2)));
    }
    if family == AF_INET6 && p.len() >= SOCKADDR_IN6_LEN {
        let addr: u128 = (read_be32_at(p, 8) as u128) * 0x1_0000_0000_0000_0000_0000_0000 + (
        read_be32_at(p, 12) as u128) * 0x1_0000_0000_0000_0000 + (read_be32_at(p, 16) as u128)
            * 0x1_0000_0000 + read_be32_at(p, 20) as u128;
        return Some(
            SockAddr::V6(addr, read_be16(p, 2), read_le32(p, 4), read_le32(p, 24)),
        );
    }
    None
}

proof fn lemma_be32_reads_back(p: Seq<u8>, i: int, v: u32)
    requires
        0 <= i,
        i + 4 <= p.len(),
        p.subrange(i, i + 4) == be32_bytes(v),
    ensures
        be32(p, i) == v,
{
    let s = p.subrange(i, i + 4);
    assert(p[i] == s[0] && p[i + 1] == s[1] && p[i + 2] == s[2] && p[i + 3] == s[3]);
    assert(v == (v / 16777216) * 16777216 + (v / 65536 % 256) * 65536 + (v / 256 % 256) * 256 + v
        % 256);
}

proof fn lemma_be128_parts(v: u128)
    ensures
        v == (v / 0x1_0000_0000_0000_0000_0000_0000) * 0x1_0000_0000_0000_0000_0000_0000 + (v
            / 0x1_0000_0000_0000_0000 % 0x1_0000_0000) * 0x1_0000_0000_0000_0000 + (v
            / 0x1_0000_0000 % 0x1_0000_0000) * 0x1_0000_0000 + v % 0x1_0000_0000,
{
    let b: int = 0x1_0000_0000;
    let x = v as int;
    vstd::arithmetic::div_mod::lemma_fundamental_div_mod(x, b);
    vstd::arithmetic::div_mod::lemma_fundamental_div_mod(x / b, b);
    vstd::arithmetic::div_mod::lemma_fundamental_div_mod(x / b / b, b);
    vstd::arithmetic::div_mod::lemma_div_denominator(x, b, b);
    vstd::arithmetic::div_mod::lemma_div_denominator(x, b * b, b);
}

proof fn lemma_be128_reads_back(p: Seq<u8>, i: int, v: u128)
    requires
        0 <= i,
        i + 16 <= p.len(),
        p.subrange(i, i + 16) == be128_bytes(v),
    ensures
        be128(p, i) == v,
{
    let s = p.subrange(i, i + 16);
    let a3 = (v / 0x1_0000_0000_0000_0000_0000_0000) as u32;
    let a2 = (v / 0x1_0000_0000_0000_0000 % 0x1_0000_0000) as u32;
    let a1 = (v / 0x1_0000_0000 % 0x1_0000_0000) as u32;
    let a0 = (v % 0x1_0000_0000) as u32;
    assert(p.subrange(i, i + 4) =~= s.subrange(0, 4));
    assert(s.subrange(0, 4) =~= be32_bytes(a3));
    assert(p.subrange(i + 4, i + 8) =~= s.subrange(4, 8));
    assert(s.subrange(4, 8) =~= be32_bytes(a2));
    assert(p.subrange(i + 8, i + 12) =~= s.subrange(8, 12));
    assert(s.subrange(8, 12) =~= be32_bytes(a1));
    assert(p.subrange(i + 12, i + 16) =~= s.subrange(12, 16));
    assert(s.subrange(12, 16) =~= be32_bytes(a0));
    lemma_be32_reads_back(p, i, a3);
    lemma_be32_reads_back(p, i + 4, a2);
    lemma_be32_reads_back(p, i + 8, a1);
    lemma_be32_reads_back(p, i + 12, a0);
    lemma_be128_parts(v);
}

proof fn lemma_v4_roundtrip(addr: u32, port: u16, rest: Seq<u8>)
    ensures
        sockaddr_of(sockaddr_bytes(SockAddr::V4(addr, port)) + rest) == Some(
            SockAddr::V4(addr, port),
        ),
{
    let p = sockaddr_bytes(SockAddr::V4(addr, port)) + rest;
    assert(p.subrange(0, 2) =~= le16_bytes(AF_INET));
    law_le_roundtrip(p, 0, AF_INET, 0, 0);
    assert(p[2] == be16_bytes(port)[0]);
    assert(p[3] == be16_bytes(port)[1]);
    assert(p.subrange(4, 8) =~= be32_bytes(addr));
    lemma_be32_reads_back(p, 4, addr);
}

proof fn lemma_v6_roundtrip(addr: u128, port: u16, flowinfo: u32, scope_id: u32, rest: Seq<u8>)
    ensures
        sockaddr_of(sockaddr_bytes(SockAddr::V6(addr, port, flowinfo, scope_id)) + rest) == Some(
            SockAddr::V6(addr, port, flowinfo, scope_id),
        ),
{
    let p = sockaddr_bytes(SockAddr::V6(addr, port, flowinfo, scope_id)) + rest;
    assert(p.len() >= SOCKADDR_IN6_LEN);
    assert(p.subrange(0, 2) =~= le16_bytes(AF_INET6));
    law_le_roundtrip(p, 0, AF_INET6, 0, 0);
    assert(p[2] == be16_bytes(port)[0]);
    assert(p[3] == be16_bytes(port)[1]);
    assert(p.subrange(4, 8) =~= le32_bytes(flowinfo));
    law_le_roundtrip(p, 4, 0, flowinfo, 0);
    assert(p.subrange(24, 28) =~= le32_bytes(scope_id));
    law_le_roundtrip(p, 24, 0, scope_id, 0);
    assert(p.subrange(8, 24) =~= be128_bytes(addr));
    lemma_be128_reads_back(p, 8, addr);
}

/// A socket address that was written is read back, whatever follows it.
pub proof fn law_sockaddr_roundtrip(a: SockAddr, rest: Seq<u8>)
    ensures
        sockaddr_of(sockaddr_bytes(a) + rest) == Some(a),
{
    match a {
        SockAddr::V4(addr, port) => lemma_v4_roundtrip(addr, port, rest),
        SockAddr::V6(addr, port, flowinfo, scope_id) => lemma_v6_roundtrip(
            addr,
            port,
            flowinfo,
            scope_id,
            rest,
        ),
    }
}

// Control messages.

/// Length of the head of a control message.
pub const CMSG_HEADER_LEN: usize = 16;

/// Control messages start at multiples of this.
pub const CMSG_ALIGN: usize = 8;

/// Level of socket control messages.
pub const SOL_SOCKET: u32 = 1;

/// Type of the count of dropped datagrams.
pub const SO_RXQ_OVFL: u32 = 40;

/// Type of the time of receipt.
pub const SCM_TIMESTAMPNS: u32 = 35;

/// A time in seconds and nanoseconds.
#[derive(Clone, Copy, Debug, PartialEq, Eq, Structural)]
pub struct Timespec {
    pub secs: i64,
    pub nanos: i64,
}

/// What the control messages of a datagram say.
#[derive(Clone, Copy, Debug, PartialEq, Eq, Structural)]
pub struct ControlInfo {
    /// Datagrams dropped so far.
    pub rxq_overflow: Option<u32>,
    /// Time of receipt.
    pub timestamp: Option<Timespec>,
}

/// The signed number with the bits of an unsigned one.
pub open spec fn signed(v: u64) -> i64 {
    if v <= 0x7fff_ffff_ffff_ffff {
        v as i64
    } else {
        (v - 0x1_0000_0000_0000_0000) as i64
    }
}

fn to_signed(v: u64) -> (r: i64)
    ensures
        r == signed(v),
{
    if v <= 0x7fff_ffff_ffff_ffff {
        v as i64
    } else {
        (v as i128 - 0x1_0000_0000_0000_0000) as i64
    }
}

/// The least multiple of the alignment from `value` on.
pub open spec fn aligned(value: int) -> int {
    (value + 7) / 8 * 8
}

/// `value` rounded up to a multiple of `alignment`, a power of two; rounding stops at the greatest
/// number.
pub fn align_up(value: usize, alignment: usize) -> (r: usize)
    ensures
        r == ({
            let mask: usize = if alignment == 0 {
                0
            } else {
                (alignment - 1) as usize
            };
            let raised: usize = if value + mask > usize::MAX {
                usize::MAX
            } else {
                (value + mask) as usize
            };
            raised & !mask
        }),
        alignment == CMSG_ALIGN && value + 7 <= usize::MAX ==> r == aligned(value as int),
{
    let mask: usize = if alignment == 0 {
        0
    } else {
        alignment - 1
    };
    let raised: usize = if usize::MAX - value < mask {
        usize::MAX
    } else {
        value + mask
    };
    assert(raised & !7usize == raised / 8 * 8) by (bit_vector);
    raised & !mask
}

/// The time in the payload of a control message.
pub open spec fn timespec_of(payload: Seq<u8>) -> Option<Timespec> {
    if payload.len() >= 16 {
        Some(Timespec { secs: signed(le64(payload, 0)), nanos: signed(le64(payload, 8)) })
    } else {
        None
    }
}

/// Reads a time.
pub fn read_timespec(payload: &[u8]) -> (r: Option<Timespec>)
    ensures
        r == timespec_of(payload@),
{
    if payload.len() < 16 {
        return None;
    }
    Some(
        Timespec { secs: to_signed(read_le64(payload, 0)), nanos: to_signed(read_le64(payload, 8)) },
    )
}

/// What is known after one more control message.
pub open spec fn with_message(
    info: ControlInfo,
    level: u32,
    kind: u32,
    payload: Seq<u8>,
) -> ControlInfo {
    if level != SOL_SOCKET {
        info
    } else if kind == SO_RXQ_OVFL {
        if payload.len() >= 4 {
            ControlInfo { rxq_overflow: Some(le32(payload, 0)), ..info }
        } else {
            info
        }
    } else if kind == SCM_TIMESTAMPNS {
        ControlInfo { timestamp: timespec_of(payload), ..info }
    } else {
        info
    }
}

/// The control message at `at` is whole.
pub open spec fn whole_message(p: Seq<u8>, at: int) -> bool {
    &&& 0 <= at
    &&& at + CMSG_HEADER_LEN <= p.len()
    &&& le64(p, at) >= CMSG_HEADER_LEN
    &&& at + le64(p, at) <= p.len()
}

/// What the control messages from `at` on add to what is known. The first that is not whole ends
/// them.
pub open spec fn control_from(p: Seq<u8>, at: int, info: ControlInfo) -> ControlInfo
    decreases p.len() + 8 - at,
{
    if !whole_message(p, at) {
        info
    } else {
        let len = le64(p, at) as int;
        control_from(
            p,
            at + aligned(len),
            with_message(
                info,
                le32(p, at + 8),
                le32(p, at + 12),
                p.subrange(at + CMSG_HEADER_LEN, at + len),
            ),
        )
    }
}

pub open spec fn no_control() -> ControlInfo {
    ControlInfo { rxq_overflow: None, timestamp: None }
}

/// Reads the control messages of a datagram.
pub fn parse_control(control: &[u8]) -> (r: ControlInfo)
    ensures
        r == control_from(control@, 0, no_control()),
{
    let mut info = ControlInfo { rxq_overflow: None, timestamp: None };
    let mut at: usize = 0;
    let n: usize = control.len();
    assert(n == control@.len());
    while at <= n && n - at >= CMSG_HEADER_LEN
        invariant
            n == control@.len(),
            n == control.len(),
            control_from(control@, 0, no_control()) == control_from(control@, at as int, info),
        ensures
            info == control_from(control@, 0, no_control()),
        decreases n + 8 - at,
    {
        let len: u64 = read_le64(control, at);
        if len < CMSG_HEADER_LEN as u64 || len > (n - at) as u64 {
            return info;
        }
        let len: usize = len as usize;
        let level: u32 = read_le32(control, at + 8);
        let kind: u32 = read_le32(control, at + 12);
        let payload = slice_subrange(control, at + CMSG_HEADER_LEN, at + len);
        if level == SOL_SOCKET {
            if kind == SO_RXQ_OVFL {
                if payload.len() >= 4 {
                    info.rxq_overflow = Some(read_le32(payload, 0));
                }
            } else if kind == SCM_TIMESTAMPNS {
                info.timestamp = read_timespec(payload);
            }
        }
        if usize::MAX - len < 7 || usize::MAX - align_up(len, CMSG_ALIGN) < at {
            // Behind the last byte of any buffer nothing follows.
            proof {
                assert(!whole_message(control@, at + aligned(len as int)));
                assert(control_from(control@, at + aligned(len as int), info) == info);
            }
            return info;
        }
        at = at + align_up(len, CMSG_ALIGN);
    }
    info
}

// Figures.

/// Nanoseconds from one time to another.
pub open spec fn nanos_between(from: Timespec, to: Timespec) -> int {
    (to.secs - from.secs) * 1_000_000_000 + (to.nanos - from.nanos)
}

/// Microseconds from the receipt of a datagram to now; none when the clock says it lies ahead, and
/// never more than fit in 32 bits.
pub fn recv_latency_us(now: &Timespec, ts: &Timespec) -> (r: u32)
    ensures
        r == ({
            let us = nanos_between(*ts, *now) / 1000;
            if nanos_between(*ts, *now) <= 0 {
                0
            } else if us > u32::MAX {
                u32::MAX as int
            } else {
                us
            }
        }),
{
    let ns: i128 = (now.secs as i128 - ts.secs as i128) * 1_000_000_000 + (now.nanos as i128
        - ts.nanos as i128);
    if ns <= 0 {
        return 0;
    }
    let us: u128 = ns as u128 / 1000;
    if us > 0xffff_ffff {
        u32::MAX
    } else {
        us as u32
    }
}

/// Fill of a receive buffer in percent.
pub open spec fn fill_percent(rmem_alloc: u32, rcvbuf: u32) -> Option<u32> {
    if rcvbuf == 0 {
        None
    } else {
        Some((rmem_alloc as u64 * 100 / rcvbuf as int) as u32)
    }
}

/// Fill of a receive buffer in percent, from the bytes queued and the limit; `None` without a
/// limit.
pub fn rmem_pct(rmem_alloc: u32, rcvbuf: u32) -> (r: Option<u32>)
    ensures
        r == fill_percent(rmem_alloc, rcvbuf),
{
    if rcvbuf == 0 {
        return None;
    }
    Some(#[verifier::truncate] ((rmem_alloc as u64 * 100 / rcvbuf as u64) as u32))
}

// What the kernel says.

/// An address and port stand in a socket address in the order of the network, behind the family.
pub proof fn law_sockaddr_layout(addr: u32, port: u16, v6: u128, flow: u32, scope: u32)
    ensures
        sockaddr_bytes(SockAddr::V4(addr, port)).len() == 16,
        sockaddr_bytes(SockAddr::V4(addr, port)).take(4) == seq![
            2u8,
            0u8,
            (port / 256) as u8,
            (port % 256) as u8,
        ],
        sockaddr_bytes(SockAddr::V4(addr, port)).subrange(4, 8) == be32_bytes(addr),
        sockaddr_bytes(SockAddr::V6(v6, port, flow, scope)).len() == 28,
        sockaddr_bytes(SockAddr::V6(v6, port, flow, scope)).take(4) == seq![
            10u8,
            0u8,
            (port / 256) as u8,
            (port % 256) as u8,
        ],
        sockaddr_bytes(SockAddr::V6(v6, port, flow, scope)).subrange(8, 24) == be128_bytes(v6),
{
    let a = sockaddr_bytes(SockAddr::V4(addr, port));
    let b = sockaddr_bytes(SockAddr::V6(v6, port, flow, scope));
    assert(a.take(4) =~= seq![2u8, 0u8, (port / 256) as u8, (port % 256) as u8]);
    assert(a.subrange(4, 8) =~= be32_bytes(addr));
    assert(b.take(4) =~= seq![10u8, 0u8, (port / 256) as u8, (port % 256) as u8]);
    assert(b.subrange(8, 24) =~= be128_bytes(v6));
}

/// Rounding up gives the least multiple of eight that is no less.
pub proof fn law_alignment_is_the_next_multiple(value: int)
    ensures
        aligned(value) % 8 == 0,
        value <= aligned(value) < value + 8,
{
}

/// A number keeps its value as a signed one up to the greatest of these, and goes below zero from
/// there on.
pub proof fn law_upper_half_is_negative(v: u64)
    ensures
        v < 0x8000_0000_0000_0000 ==> signed(v) == v,
        v >= 0x8000_0000_0000_0000 ==> signed(v) == v - 0x1_0000_0000_0000_0000,
        v >= 0x8000_0000_0000_0000 ==> signed(v) < 0,
{
}

/// A control message says something only at the level of sockets: the count of dropped datagrams,
/// or the time of receipt. Neither changes the other, and the last of each counts.
pub proof fn law_socket_messages_count(info: ControlInfo, level: u32, kind: u32, payload: Seq<u8>)
    ensures
        level != 1 ==> with_message(info, level, kind, payload) == info,
        kind != 40 && kind != 35 ==> with_message(info, level, kind, payload) == info,
        with_message(info, 1, 40, payload).timestamp == info.timestamp,
        with_message(info, 1, 35, payload).rxq_overflow == info.rxq_overflow,
        payload.len() >= 4 ==> with_message(info, 1, 40, payload).rxq_overflow == Some(
            le32(payload, 0),
        ),
        payload.len() >= 16 ==> with_message(info, 1, 35, payload).timestamp == Some(
            Timespec { secs: signed(le64(payload, 0)), nanos: signed(le64(payload, 8)) },
        ),
{
}

proof fn lemma_le64_shift(front: Seq<u8>, s: Seq<u8>, i: int)
    requires
        0 <= i,
        i + 16 <= s.len(),
    ensures
        le64(front + s, front.len() + i) == le64(s, i),
        le32(front + s, front.len() + i + 8) == le32(s, i + 8),
        le32(front + s, front.len() + i + 12) == le32(s, i + 12),
{
    let t = front + s;
    let n = front.len() + i;
    assert forall|k: int| 0 <= k < 16 implies #[trigger] t[n + k] == s[i + k] by {}
    assert(t[n + 0] == s[i + 0] && t[n + 1] == s[i + 1] && t[n + 2] == s[i + 2] && t[n + 3] == s[i
        + 3]);
    assert(t[n + 4] == s[i + 4] && t[n + 5] == s[i + 5] && t[n + 6] == s[i + 6] && t[n + 7] == s[i
        + 7]);
    assert(t[n + 8] == s[i + 8] && t[n + 9] == s[i + 9] && t[n + 10] == s[i + 10] && t[n + 11]
        == s[i + 11]);
    assert(t[n + 12] == s[i + 12] && t[n + 13] == s[i + 13] && t[n + 14] == s[i + 14] && t[n + 15]
        == s[i + 15]);
}

proof fn lemma_control_shift(front: Seq<u8>, s: Seq<u8>, i: int, info: ControlInfo)
    requires
        0 <= i,
    ensures
        control_from(front + s, front.len() + i, info) == control_from(s, i, info),
    decreases s.len() + 8 - i,
{
    if i + CMSG_HEADER_LEN <= s.len() {
        lemma_le64_shift(front, s, i);
        if whole_message(s, i) {
            let len = le64(s, i) as int;
            let t = front + s;
            let n = front.len() + i;
            assert(t.subrange(n + CMSG_HEADER_LEN, n + len) =~= s.subrange(
                i + CMSG_HEADER_LEN,
                i + len,
            ));
            let next = with_message(
                info,
                le32(s, i + 8),
                le32(s, i + 12),
                s.subrange(i + CMSG_HEADER_LEN, i + len),
            );
            lemma_control_shift(front, s, i + aligned(len), next);
            assert(whole_message(t, n));
        } else {
            assert(!whole_message(front + s, front.len() + i));
        }
    } else {
        assert(!whole_message(front + s, front.len() + i));
    }
}

/// Control messages are read one behind the other: a message in front, filled up to its alignment,
/// says what it says, and the rest is read as it would be alone.
pub proof fn law_control_messages_are_read_in_turn(
    level: u32,
    kind: u32,
    payload: Seq<u8>,
    fill: Seq<u8>,
    rest: Seq<u8>,
    info: ControlInfo,
)
    requires
        payload.len() <= u32::MAX,
        fill.len() == aligned(payload.len() as int) - payload.len(),
    ensures
        control_from(
            le64_bytes((16 + payload.len()) as u64) + le32_bytes(level) + le32_bytes(kind) + payload
                + fill + rest,
            0,
            info,
        ) == control_from(rest, 0, with_message(info, level, kind, payload)),
        control_from(Seq::empty(), 0, info) == info,
{
    let len = (16 + payload.len()) as u64;
    let m = le64_bytes(len) + le32_bytes(level) + le32_bytes(kind) + payload + fill;
    let p = m + rest;
    lemma_message_in_front(level, kind, payload, fill, rest);
    lemma_one_message(p, m.len() as int, level, kind, payload, info);
    lemma_control_shift(m, rest, 0, with_message(info, level, kind, payload));
    lemma_nothing_to_read(info);
}

proof fn lemma_nothing_to_read(info: ControlInfo)
    ensures
        control_from(Seq::empty(), 0, info) == info,
{
}

proof fn lemma_one_message(
    p: Seq<u8>,
    next: int,
    level: u32,
    kind: u32,
    payload: Seq<u8>,
    info: ControlInfo,
)
    requires
        16 <= le64(p, 0) <= p.len(),
        le32(p, 8) == level,
        le32(p, 12) == kind,
        p.subrange(16, le64(p, 0) as int) == payload,
        aligned(le64(p, 0) as int) == next,
    ensures
        control_from(p, 0, info) == control_from(p, next, with_message(info, level, kind, payload)),
{
    assert(whole_message(p, 0));
}

proof fn lemma_message_in_front(
    level: u32,
    kind: u32,
    payload: Seq<u8>,
    fill: Seq<u8>,
    rest: Seq<u8>,
)
    requires
        payload.len() <= u32::MAX,
        fill.len() == aligned(payload.len() as int) - payload.len(),
    ensures
        ({
            let len = (16 + payload.len()) as u64;
            let m = le64_bytes(len) + le32_bytes(level) + le32_bytes(kind) + payload + fill;
            let p = m + rest;
            &&& le64(p, 0) == len
            &&& le32(p, 8) == level
            &&& le32(p, 12) == kind
            &&& p.subrange(16, len as int) == payload
            &&& aligned(len as int) == m.len()
            &&& p.len() >= len
        }),
{
    let len = (16 + payload.len()) as u64;
    let m = le64_bytes(len) + le32_bytes(level) + le32_bytes(kind) + payload + fill;
    let p = m + rest;
    assert(le64_bytes(len).len() == 8);
    assert(p.subrange(0, 8) =~= le64_bytes(len));
    assert(p.subrange(8, 12) =~= le32_bytes(level));
    assert(p.subrange(12, 16) =~= le32_bytes(kind));
    law_le_roundtrip(p, 0, 0, 0, len);
    law_le_roundtrip(p, 8, 0, level, 0);
    law_le_roundtrip(p, 12, 0, kind, 0);
    assert(p.subrange(16, len as int) =~= payload);
}

/// The fill of a buffer is the share of its limit in whole hundredths; without a limit there is
/// none.
pub proof fn law_fill_is_a_share(queued: u32, limit: u32)
    requires
        limit > 0,
        queued <= 40_000_000 || queued <= limit,
    ensures
        fill_percent(queued, 0) is None,
        ({
            let pct = fill_percent(queued, limit)->0;
            &&& fill_percent(queued, limit) is Some
            &&& pct * limit <= queued * 100 < pct * limit + limit
        }),
        queued == limit ==> fill_percent(queued, limit) == Some(100u32),
        queued == 0 ==> fill_percent(queued, limit) == Some(0u32),
{
    let x = queued as int * 100;
    let n = limit as int;
    let q = x / n;
    assert(q * n <= x < q * n + n) by (nonlinear_arith)
        requires
            n > 0,
            q == x / n,
    ;
    assert(0 <= q <= u32::MAX) by (nonlinear_arith)
        requires
            n > 0,
            q * n <= x,
            x >= 0,
            x < q * n + n,
            x <= 4_000_000_000 || x <= n * 100,
    ;
    if x == n * 100 {
        assert(q == 100) by (nonlinear_arith)
            requires
                n > 0,
                x == n * 100,
                q * n <= x < q * n + n,
        ;
    }
    if x == 0 {
        assert(q == 0) by (nonlinear_arith)
            requires
                n > 0,
                x == 0,
                q * n <= x < q * n + n,
        ;
    }
}

} // verus!
