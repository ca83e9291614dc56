//! The OPT pseudo-record: client subnets, connection options and the size of UDP replies.

use crate::config::EcsSubnet;
use crate::dns::{
    be16, be16_bytes, be128_bytes, be32_bytes, fit_labels, law_question_is_read, law_record_is_read,
    lemma_name_end_bound, lemma_plain_name_end_bound,
    lemma_question_end_bound, name_end, plain_name_end, push_all, push_be128, push_be16, push_be32,
    question_end, question_end_of, read_be16, read_record, record_at, wire_name, Record,
    HEADER_LEN,
};
use crate::iprange::IpAddr;
use vstd::prelude::*;
use vstd::slice::{slice_subrange, slice_to_vec};

verus! {

pub const TYPE_OPT: u16 = 41;

/// Option code of a client subnet.
pub const OPTION_ECS: u16 = 8;

/// Payload size announced where a query had no OPT record.
pub const UDP_PAYLOAD: u16 = 1232;

/// Size of a UDP reply that every client takes.
pub const MIN_UDP_REPLY: usize = 512;

/// The first OPT record among `count` records from `i` on.
pub open spec fn first_opt(p: Seq<u8>, i: int, count: nat) -> Option<Record>
    decreases count,
{
    if count == 0 {
        None
    } else {
        match record_at(p, i) {
            Some(rr) => if rr.rtype == TYPE_OPT {
                Some(rr)
            } else {
                first_opt(p, rr.end as int, (count - 1) as nat)
            },
            None => None,
        }
    }
}

/// Number of records behind the question.
pub open spec fn record_count(p: Seq<u8>) -> nat {
    (be16(p, 6) + be16(p, 8) + be16(p, 10)) as nat
}

/// The OPT record of a message.
pub open spec fn opt_of(p: Seq<u8>) -> Option<Record> {
    match question_end_of(p) {
        Some(e) => first_opt(p, e, record_count(p)),
        None => None,
    }
}

/// The OPT record of a message.
pub fn find_opt(packet: &[u8]) -> (r: Option<Record>)
    ensures
        r == opt_of(packet@),
        r is Some ==> HEADER_LEN + 10 <= r->0.data <= r->0.end <= packet@.len(),
{
    let start: usize = match question_end(packet) {
        Some(e) => e,
        None => {
            return None;
        },
    };
    let mut left: u32 = read_be16(packet, 6) as u32 + read_be16(packet, 8) as u32 + read_be16(
        packet,
        10,
    ) as u32;
    let mut i: usize = start;
    while left > 0
        invariant
            HEADER_LEN <= i,
            first_opt(packet@, i as int, left as nat) == opt_of(packet@),
        decreases left,
    {
        match read_record(packet, i) {
            Some(rr) => {
                if rr.rtype == TYPE_OPT {
                    return Some(rr);
                }
                i = rr.end;
                left = left - 1;
            },
            None => {
                return None;
            },
        }
    }
    None
}

/// Options between `i` and `end` without client subnets; `None` when an option does not fit.
pub open spec fn without_ecs(p: Seq<u8>, i: int, end: int) -> Option<Seq<u8>>
    decreases end - i,
{
    if i == end {
        Some(Seq::empty())
    } else if i + 4 > end || i + 4 + be16(p, i + 2) > end {
        None
    } else {
        let next = i + 4 + be16(p, i + 2);
        match without_ecs(p, next, end) {
            Some(rest) => if be16(p, i) == OPTION_ECS {
                Some(rest)
            } else {
                Some(p.subrange(i, next) + rest)
            },
            None => None,
        }
    }
}

proof fn lemma_without_ecs_len(p: Seq<u8>, i: int, end: int)
    requires
        0 <= i <= end <= p.len(),
    ensures
        without_ecs(p, i, end) is Some ==> without_ecs(p, i, end)->0.len() <= end - i,
    decreases end - i,
{
    if i < end && i + 4 <= end && i + 4 + be16(p, i + 2) <= end {
        lemma_without_ecs_len(p, i + 4 + be16(p, i + 2), end);
    }
}

/// Options without client subnets.
fn options_without_ecs(packet: &[u8], from: usize, end: usize) -> (r: Option<Vec<u8>>)
    requires
        from <= end <= packet@.len(),
    ensures
        match without_ecs(packet@, from as int, end as int) {
            Some(s) => r is Some && r->0@ == s && s.len() <= end - from,
            None => r is None,
        },
{
    assert(packet.len() == packet@.len());
    proof {
        lemma_without_ecs_len(packet@, from as int, end as int);
    }
    let ghost whole = without_ecs(packet@, from as int, end as int);
    let mut out: Vec<u8> = Vec::new();
    let mut i: usize = from;
    proof {
        if whole is Some {
            assert(out@ + whole->0 =~= whole->0);
        }
    }
    while i < end
        invariant
            i <= end <= packet@.len(),
            packet.len() == packet@.len(),
            whole == without_ecs(packet@, from as int, end as int),
            match without_ecs(packet@, i as int, end as int) {
                Some(rest) => whole == Some(out@ + rest),
                None => whole is None,
            },
        decreases end - i,
    {
        if end - i < 4 {
            return None;
        }
        let len: usize = read_be16(packet, i + 2) as usize;
        if end - i - 4 < len {
            return None;
        }
        let next: usize = i + 4 + len;
        let ghost out0 = out@;
        if read_be16(packet, i) != OPTION_ECS {
            push_all(&mut out, slice_subrange(packet, i, next));
            proof {
                let part = packet@.subrange(i as int, next as int);
                if without_ecs(packet@, next as int, end as int) is Some {
                    let rest = without_ecs(packet@, next as int, end as int)->0;
                    assert(out0 + (part + rest) =~= out@ + rest);
                }
            }
        }
        i = next;
    }
    proof {
        assert(out@ + Seq::<u8>::empty() =~= out@);
    }
    Some(out)
}

/// The message with other options in its OPT record.
pub open spec fn with_options(p: Seq<u8>, rr: Record, options: Seq<u8>) -> Seq<u8> {
    p.take(rr.data - 2) + be16_bytes(options.len() as u16) + options + p.skip(rr.end as int)
}

fn replace_options(packet: &[u8], rr: Record, options: &[u8]) -> (r: Vec<u8>)
    requires
        2 <= rr.data <= rr.end <= packet@.len(),
        options@.len() <= u16::MAX,
    ensures
        r@ == with_options(packet@, rr, options@),
{
    let mut out = slice_to_vec(slice_subrange(packet, 0, rr.data - 2));
    push_be16(&mut out, options.len() as u16);
    push_all(&mut out, options);
    push_all(&mut out, slice_subrange(packet, rr.end, packet.len()));
    proof {
        assert(out@ =~= with_options(packet@, rr, options@));
    }
    out
}

/// The message carries a client subnet.
pub open spec fn carries_ecs(p: Seq<u8>) -> bool {
    match opt_of(p) {
        Some(rr) => match without_ecs(p, rr.data as int, rr.end as int) {
            Some(s) => s.len() < rr.end - rr.data,
            None => false,
        },
        None => false,
    }
}

/// The message without its client subnets.
pub open spec fn ecs_stripped(p: Seq<u8>) -> Seq<u8> {
    let rr = opt_of(p)->0;
    with_options(p, rr, without_ecs(p, rr.data as int, rr.end as int)->0)
}

/// Whether the message carries a client subnet.
pub fn has_ecs(packet: &[u8]) -> (r: bool)
    ensures
        r == carries_ecs(packet@),
{
    match find_opt(packet) {
        Some(rr) => match options_without_ecs(packet, rr.data, rr.end) {
            Some(s) => s.len() < rr.end - rr.data,
            None => false,
        },
        None => false,
    }
}

/// Removes client subnets; `None` when the message carries none.
pub fn strip_edns_ecs(packet: &[u8]) -> (r: Option<Vec<u8>>)
    ensures
        match r {
            Some(m) => carries_ecs(packet@) && m@ == ecs_stripped(packet@),
            None => !carries_ecs(packet@),
        },
{
    let rr = match find_opt(packet) {
        Some(rr) => rr,
        None => {
            return None;
        },
    };
    match options_without_ecs(packet, rr.data, rr.end) {
        Some(options) => {
            if options.len() == rr.end - rr.data {
                return None;
            }
            assert(packet.len() == packet@.len());
            proof {
                lemma_opt_len(packet@);
            }
            Some(replace_options(packet, rr, options.as_slice()))
        },
        None => None,
    }
}

proof fn lemma_record_len(p: Seq<u8>, i: int)
    ensures
        record_at(p, i) is Some && p.len() <= usize::MAX && i >= 0 ==> record_at(p, i)->0.end
            - record_at(p, i)->0.data <= u16::MAX,
{
    lemma_name_end_bound(p, i);
}

proof fn lemma_first_opt_len(p: Seq<u8>, i: int, count: nat)
    requires
        p.len() <= usize::MAX,
        i >= 0,
    ensures
        first_opt(p, i, count) is Some ==> first_opt(p, i, count)->0.end - first_opt(
            p,
            i,
            count,
        )->0.data <= u16::MAX,
    decreases count,
{
    if count > 0 && record_at(p, i) is Some {
        lemma_record_len(p, i);
        lemma_first_opt_len(p, record_at(p, i)->0.end as int, (count - 1) as nat);
    }
}

proof fn lemma_opt_len(p: Seq<u8>)
    requires
        p.len() <= usize::MAX,
    ensures
        opt_of(p) is Some ==> opt_of(p)->0.end - opt_of(p)->0.data <= u16::MAX,
{
    if question_end_of(p) is Some {
        lemma_question_end_bound(p);
        lemma_first_opt_len(p, question_end_of(p)->0, record_count(p));
    }
}

/// The first `k` bytes of two messages are the same.
spec fn same_start(p: Seq<u8>, q: Seq<u8>, k: int) -> bool {
    k <= p.len() && k <= q.len() && forall|j: int| 0 <= j < k ==> #[trigger] p[j] == q[j]
}

proof fn lemma_plain_name_kept(p: Seq<u8>, q: Seq<u8>, i: int, k: int)
    requires
        0 <= i,
        plain_name_end(p, i) is Some,
        plain_name_end(p, i)->0 <= k,
        same_start(p, q, k),
    ensures
        plain_name_end(q, i) == plain_name_end(p, i),
    decreases p.len() - i,
{
    lemma_plain_name_end_bound(p, i);
    assert(p[i] == q[i]);
    if p[i] != 0 {
        lemma_plain_name_end_bound(p, i + 1 + p[i]);
        lemma_plain_name_kept(p, q, i + 1 + p[i], k);
    }
}

proof fn lemma_name_kept(p: Seq<u8>, q: Seq<u8>, i: int, k: int)
    requires
        0 <= i,
        name_end(p, i) is Some,
        name_end(p, i)->0 <= k,
        same_start(p, q, k),
    ensures
        name_end(q, i) == name_end(p, i),
    decreases p.len() - i,
{
    lemma_name_end_bound(p, i);
    assert(p[i] == q[i]);
    if p[i] != 0 && p[i] < 192 {
        lemma_name_end_bound(p, i + 1 + p[i]);
        lemma_name_kept(p, q, i + 1 + p[i], k);
    }
}

/// Where a message is the same up to the length of its OPT record's options, the record stays where
/// it is.
proof fn lemma_first_opt_kept(p: Seq<u8>, q: Seq<u8>, i: int, count: nat)
    requires
        0 <= i,
        p.len() <= usize::MAX,
        q.len() <= usize::MAX,
        first_opt(p, i, count) is Some,
        same_start(p, q, first_opt(p, i, count)->0.data - 2),
        first_opt(p, i, count)->0.data + be16(q, first_opt(p, i, count)->0.data - 2) <= q.len(),
    ensures
        i + 11 <= first_opt(p, i, count)->0.data <= first_opt(p, i, count)->0.end <= p.len(),
        first_opt(q, i, count) == Some(
            (Record {
                rtype: TYPE_OPT,
                data: first_opt(p, i, count)->0.data,
                end: (first_opt(p, i, count)->0.data + be16(
                    q,
                    first_opt(p, i, count)->0.data - 2,
                )) as usize,
            }),
        ),
    decreases count,
{
    let found = first_opt(p, i, count)->0;
    let rr = record_at(p, i)->0;
    let n = name_end(p, i)->0;
    lemma_name_end_bound(p, i);
    if rr.rtype == TYPE_OPT {
        lemma_name_kept(p, q, i, found.data - 2);
        assert(p[n] == q[n] && p[n + 1] == q[n + 1]);
    } else {
        lemma_first_opt_bound(p, rr.end as int, (count - 1) as nat);
        lemma_name_kept(p, q, i, found.data - 2);
        assert(p[n] == q[n] && p[n + 1] == q[n + 1]);
        assert(p[n + 8] == q[n + 8] && p[n + 9] == q[n + 9]);
        assert(record_at(q, i) == Some(rr));
        lemma_first_opt_kept(p, q, rr.end as int, (count - 1) as nat);
    }
}

proof fn lemma_first_opt_bound(p: Seq<u8>, i: int, count: nat)
    requires
        0 <= i,
        p.len() <= usize::MAX,
        first_opt(p, i, count) is Some,
    ensures
        i + 11 <= first_opt(p, i, count)->0.data <= first_opt(p, i, count)->0.end <= p.len(),
    decreases count,
{
    lemma_name_end_bound(p, i);
    if record_at(p, i)->0.rtype != TYPE_OPT {
        lemma_first_opt_bound(p, record_at(p, i)->0.end as int, (count - 1) as nat);
    }
}

/// Options that went through once go through unchanged.
proof fn lemma_without_ecs_again(p: Seq<u8>, i: int, end: int, q: Seq<u8>, a: int)
    requires
        0 <= i <= end <= p.len(),
        0 <= a,
        without_ecs(p, i, end) is Some,
        a + without_ecs(p, i, end)->0.len() <= q.len(),
        q.subrange(a, a + without_ecs(p, i, end)->0.len()) == without_ecs(p, i, end)->0,
    ensures
        without_ecs(q, a, a + without_ecs(p, i, end)->0.len()) == without_ecs(p, i, end),
    decreases end - i,
{
    let s = without_ecs(p, i, end)->0;
    if i < end {
        let next = i + 4 + be16(p, i + 2);
        let rest = without_ecs(p, next, end)->0;
        if be16(p, i) == OPTION_ECS {
            lemma_without_ecs_again(p, next, end, q, a);
        } else {
            let len = next - i;
            assert forall|k: int| 0 <= k < len implies #[trigger] q[a + k] == p[i + k] by {
                assert(q.subrange(a, a + s.len())[k] == s[k]);
            }
            assert(q[a + 0] == p[i + 0] && q[a + 1] == p[i + 1]);
            assert(q[a + 2] == p[i + 2] && q[a + 3] == p[i + 3]);
            assert(q.subrange(a + len, a + len + rest.len()) =~= rest) by {
                assert forall|k: int| 0 <= k < rest.len() implies q[a + len + k] == rest[k] by {
                    assert(q.subrange(a, a + s.len())[len + k] == s[len + k]);
                }
            }
            lemma_without_ecs_again(p, next, end, q, a + len);
            assert(q.subrange(a, a + len) =~= p.subrange(i, next)) by {
                assert forall|k: int| 0 <= k < len implies q.subrange(a, a + len)[k] == p.subrange(
                    i,
                    next,
                )[k] by {
                    assert(q[a + k] == p[i + k]);
                }
            }
        }
    }
}

/// A message from which the client subnets were removed carries none, and asks the same question.
pub proof fn law_stripped_carries_no_subnet(p: Seq<u8>)
    requires
        p.len() <= usize::MAX,
        carries_ecs(p),
    ensures
        !carries_ecs(ecs_stripped(p)),
        question_end_of(ecs_stripped(p)) == question_end_of(p),
        ecs_stripped(p).take(question_end_of(p)->0) == p.take(question_end_of(p)->0),
{
    let rr = opt_of(p)->0;
    let e = question_end_of(p)->0;
    let s = without_ecs(p, rr.data as int, rr.end as int)->0;
    let q = ecs_stripped(p);
    lemma_question_end_bound(p);
    lemma_opt_len(p);
    lemma_first_opt_bound(p, e, record_count(p));
    lemma_without_ecs_len(p, rr.data as int, rr.end as int);
    assert(q.len() == p.len() - (rr.end - rr.data) + s.len());
    assert forall|j: int| 0 <= j < rr.data - 2 implies #[trigger] p[j] == q[j] by {}
    assert(same_start(p, q, rr.data - 2));
    assert(q.subrange(rr.data as int, rr.data + s.len()) =~= s);
    assert(q[rr.data - 2] == s.len() / 256 && q[rr.data - 1] == s.len() % 256);
    assert(be16(q, rr.data - 2) == s.len());
    lemma_plain_name_kept(p, q, HEADER_LEN as int, rr.data - 2);
    assert(p[6] == q[6] && p[7] == q[7] && p[8] == q[8] && p[9] == q[9]);
    assert(p[10] == q[10] && p[11] == q[11]);
    lemma_first_opt_kept(p, q, e, record_count(p));
    lemma_without_ecs_again(p, rr.data as int, rr.end as int, q, rr.data as int);
    assert(q.take(e) =~= p.take(e));
}

/// The message with an empty OPT record.
pub open spec fn opt_emptied(p: Seq<u8>) -> Seq<u8> {
    with_options(p, opt_of(p)->0, Seq::empty())
}

/// The message has an OPT record with options.
pub open spec fn has_options(p: Seq<u8>) -> bool {
    opt_of(p) is Some && opt_of(p)->0.data < opt_of(p)->0.end
}

/// Removes all options of the OPT record, which belong to one connection; `None` when there are
/// none.
pub fn strip_opt_rdata(packet: &[u8]) -> (r: Option<Vec<u8>>)
    ensures
        match r {
            Some(m) => has_options(packet@) && m@ == opt_emptied(packet@),
            None => !has_options(packet@),
        },
{
    match find_opt(packet) {
        Some(rr) => {
            if rr.data == rr.end {
                return None;
            }
            let none: Vec<u8> = Vec::new();
            let out = replace_options(packet, rr, none.as_slice());
            proof {
                assert(none@ =~= Seq::<u8>::empty());
            }
            Some(out)
        },
        None => None,
    }
}

// Client subnets put in by the forwarder.

/// Bytes of an address.
pub open spec fn address_bytes(addr: IpAddr) -> Seq<u8> {
    match addr {
        IpAddr::V4(a) => be32_bytes(a),
        IpAddr::V6(a) => be128_bytes(a),
    }
}

/// Number of addresses that share a byte up to its first `bits` bits.
pub open spec fn low_range(bits: int) -> int {
    if bits == 1 {
        128
    } else if bits == 2 {
        64
    } else if bits == 3 {
        32
    } else if bits == 4 {
        16
    } else if bits == 5 {
        8
    } else if bits == 6 {
        4
    } else if bits == 7 {
        2
    } else {
        1
    }
}

/// Prefix length as far as the address has bits.
pub open spec fn prefix_of(subnet: EcsSubnet) -> int {
    let most = if subnet.addr is V4 {
        32int
    } else {
        128int
    };
    if subnet.prefix_len > most {
        most
    } else {
        subnet.prefix_len as int
    }
}

/// The bytes of a subnet's address that its prefix reaches into, zero beyond the prefix.
pub open spec fn subnet_bytes(subnet: EcsSubnet) -> Seq<u8> {
    let prefix = prefix_of(subnet);
    let bytes = address_bytes(subnet.addr);
    Seq::new(
        ((prefix + 7) / 8) as nat,
        |k: int|
            if k == prefix / 8 {
                (bytes[k] - (bytes[k] as int) % low_range(prefix % 8)) as u8
            } else {
                bytes[k]
            },
    )
}

/// A client subnet option.
pub open spec fn ecs_option(subnet: EcsSubnet) -> Seq<u8> {
    let bytes = subnet_bytes(subnet);
    be16_bytes(OPTION_ECS) + be16_bytes((bytes.len() + 4) as u16) + be16_bytes(
        if subnet.addr is V4 {
            1
        } else {
            2
        },
    ) + seq![prefix_of(subnet) as u8, 0u8] + bytes
}

fn low_range_of(bits: u8) -> (r: u8)
    ensures
        r == low_range(bits as int),
{
    if bits == 1 {
        128
    } else if bits == 2 {
        64
    } else if bits == 3 {
        32
    } else if bits == 4 {
        16
    } else if bits == 5 {
        8
    } else if bits == 6 {
        4
    } else if bits == 7 {
        2
    } else {
        1
    }
}

fn build_ecs_option(subnet: &EcsSubnet) -> (r: Vec<u8>)
    ensures
        r@ == ecs_option(*subnet),
        r@.len() <= 24,
{
    let mut addr: Vec<u8> = Vec::new();
    let most: u8 = match subnet.addr {
        IpAddr::V4(a) => {
            push_be32(&mut addr, a);
            32
        },
        IpAddr::V6(a) => {
            push_be128(&mut addr, a);
            128
        },
    };
    let prefix: u8 = if subnet.prefix_len > most {
        most
    } else {
        subnet.prefix_len
    };
    proof {
        assert(addr@ =~= address_bytes(subnet.addr));
    }
    let n: usize = (prefix as usize + 7) / 8;
    let mut out: Vec<u8> = Vec::new();
    push_be16(&mut out, OPTION_ECS);
    push_be16(&mut out, (n + 4) as u16);
    push_be16(
        &mut out,
        match subnet.addr {
            IpAddr::V4(_) => 1,
            IpAddr::V6(_) => 2,
        },
    );
    out.push(prefix);
    out.push(0);
    let ghost head = out@;
    let ghost wanted = subnet_bytes(*subnet);
    let mut k: usize = 0;
    proof {
        assert(head + wanted.take(0) =~= head);
    }
    while k < n
        invariant
            k <= n,
            n == (prefix + 7) / 8,
            n <= addr@.len(),
            prefix == prefix_of(*subnet),
            addr@ == address_bytes(subnet.addr),
            wanted == subnet_bytes(*subnet),
            out@ == head + wanted.take(k as int),
        decreases n - k,
    {
        let b: u8 = addr[k];
        let masked: u8 = if k == prefix as usize / 8 {
            b - b % low_range_of(prefix % 8)
        } else {
            b
        };
        out.push(masked);
        k += 1;
        proof {
            assert(masked == wanted[k - 1]);
            assert(out@ =~= head + wanted.take(k as int));
        }
    }
    proof {
        assert(wanted.take(n as int) =~= wanted);
        assert(out@ =~= ecs_option(*subnet));
    }
    out
}

/// An OPT record with these options, as a query without one gets it.
pub open spec fn new_opt(options: Seq<u8>) -> Seq<u8> {
    seq![0u8] + be16_bytes(TYPE_OPT) + be16_bytes(UDP_PAYLOAD) + seq![0u8, 0u8, 0u8, 0u8]
        + be16_bytes(options.len() as u16) + options
}

/// The message with one more additional record.
pub open spec fn with_additional(p: Seq<u8>, rr: Seq<u8>) -> Seq<u8> {
    p.take(10) + be16_bytes((be16(p, 10) + 1) as u16) + p.skip(12) + rr
}

/// The message with exactly the given client subnet; `None` where it cannot carry one.
pub open spec fn ecs_replaced(p: Seq<u8>, subnet: EcsSubnet) -> Option<Seq<u8>> {
    if question_end_of(p) is None {
        None
    } else {
        match opt_of(p) {
            Some(rr) => match without_ecs(p, rr.data as int, rr.end as int) {
                Some(s) => if s.len() + ecs_option(subnet).len() <= u16::MAX {
                    Some(with_options(p, rr, s + ecs_option(subnet)))
                } else {
                    None
                },
                None => None,
            },
            None => if be16(p, 10) < u16::MAX {
                Some(with_additional(p, new_opt(ecs_option(subnet))))
            } else {
                None
            },
        }
    }
}

/// Puts a client subnet into a query, in place of any that it carries. `None` for a message that
/// cannot carry one.
pub fn inject_or_replace_ecs(packet: &[u8], subnet: &EcsSubnet) -> (r: Option<Vec<u8>>)
    ensures
        match r {
            Some(m) => ecs_replaced(packet@, *subnet) == Some(m@),
            None => ecs_replaced(packet@, *subnet) is None,
        },
{
    if question_end(packet).is_none() {
        return None;
    }
    let option = build_ecs_option(subnet);
    match find_opt(packet) {
        Some(rr) => match options_without_ecs(packet, rr.data, rr.end) {
            Some(mut options) => {
                if options.len() > 65535 - option.len() {
                    return None;
                }
                push_all(&mut options, option.as_slice());
                Some(replace_options(packet, rr, options.as_slice()))
            },
            None => None,
        },
        None => {
            let additional: u16 = read_be16(packet, 10);
            if additional == u16::MAX {
                return None;
            }
            let mut out = slice_to_vec(slice_subrange(packet, 0, 10));
            push_be16(&mut out, additional + 1);
            push_all(&mut out, slice_subrange(packet, 12, packet.len()));
            out.push(0);
            push_be16(&mut out, TYPE_OPT);
            push_be16(&mut out, UDP_PAYLOAD);
            push_be32(&mut out, 0);
            push_be16(&mut out, option.len() as u16);
            push_all(&mut out, option.as_slice());
            proof {
                assert(be32_bytes(0) =~= seq![0u8, 0u8, 0u8, 0u8]);
                assert(out@ =~= with_additional(packet@, new_opt(ecs_option(*subnet))));
            }
            Some(out)
        },
    }
}

// Size of UDP replies.

/// The greatest reply that a client takes over UDP.
pub open spec fn udp_limit(query: Seq<u8>) -> int {
    match opt_of(query) {
        Some(rr) => if be16(query, rr.data - 8) > MIN_UDP_REPLY {
            be16(query, rr.data - 8) as int
        } else {
            MIN_UDP_REPLY as int
        },
        None => MIN_UDP_REPLY as int,
    }
}

/// The header and question of a reply, marked as truncated.
pub open spec fn truncated_reply(resp: Seq<u8>, question_end: int) -> Seq<u8> {
    resp.take(2) + seq![
        resp[2] | 0x02u8,
        resp[3],
        0u8,
        1u8,
        0u8,
        0u8,
        0u8,
        0u8,
        0u8,
        0u8,
    ] + resp.subrange(HEADER_LEN as int, question_end)
}

/// A reply as it goes out over UDP.
pub open spec fn udp_reply(resp: Seq<u8>, query: Seq<u8>) -> Seq<u8> {
    if resp.len() <= udp_limit(query) || question_end_of(resp) is None {
        resp
    } else {
        truncated_reply(resp, question_end_of(resp)->0)
    }
}

/// A reply as it goes out over UDP: as it is when the client takes it; otherwise its header and
/// question only, marked as truncated.
pub fn maybe_truncate_for_udp(resp: Vec<u8>, query: &[u8]) -> (r: Vec<u8>)
    ensures
        r@ == udp_reply(resp@, query@),
{
    let limit: usize = match find_opt(query) {
        Some(rr) => {
            let announced: usize = read_be16(query, rr.data - 8) as usize;
            if announced > MIN_UDP_REPLY {
                announced
            } else {
                MIN_UDP_REPLY
            }
        },
        None => MIN_UDP_REPLY,
    };
    if resp.len() <= limit {
        return resp;
    }
    match question_end(resp.as_slice()) {
        Some(e) => {
            let mut out: Vec<u8> = Vec::new();
            out.push(resp[0]);
            out.push(resp[1]);
            out.push(resp[2] | 0x02);
            out.push(resp[3]);
            push_be16(&mut out, 1);
            push_be16(&mut out, 0);
            push_be32(&mut out, 0);
            push_all(&mut out, slice_subrange(resp.as_slice(), HEADER_LEN, e));
            proof {
                assert(out@ =~= truncated_reply(resp@, e as int));
            }
            out
        },
        None => resp,
    }
}

// What replies and subnets come to.

/// A reply that a client takes goes out as it is: any of at most 512 bytes does. A longer one than
/// the client takes goes out as its header and question only, with the same identifier and response
/// code, marked as truncated, and with all counts but that of the question at zero.
pub proof fn law_long_replies_are_cut(resp: Seq<u8>, query: Seq<u8>)
    ensures
        udp_limit(query) >= 512,
        resp.len() <= udp_limit(query) ==> udp_reply(resp, query) == resp,
        resp.len() > udp_limit(query) && question_end_of(resp) is Some ==> {
            let m = udp_reply(resp, query);
            let e = question_end_of(resp)->0;
            &&& m.len() == e
            &&& m[0] == resp[0] && m[1] == resp[1]
            &&& (m[2] / 2) % 2 == 1
            &&& m[2] / 4 == resp[2] / 4
            &&& m[2] % 2 == resp[2] % 2
            &&& m[3] == resp[3]
            &&& be16(m, 4) == 1
            &&& be16(m, 6) == 0
            &&& be16(m, 8) == 0
            &&& be16(m, 10) == 0
            &&& m.subrange(12, e) == resp.subrange(12, e)
        },
{
    if resp.len() > udp_limit(query) && question_end_of(resp) is Some {
        lemma_question_end_bound(resp);
        let m = udp_reply(resp, query);
        let e = question_end_of(resp)->0;
        let b = resp[2];
        assert(((b | 0x02u8) / 2) % 2 == 1 && (b | 0x02u8) / 4 == b / 4 && (b | 0x02u8) % 2 == b % 2)
            by (bit_vector);
        assert(m.subrange(12, e) =~= resp.subrange(12, e));
    }
}

/// A query whose only record behind the question is an OPT record, which announces `size`.
pub open spec fn query_with_opt(
    header: Seq<u8>,
    labels: Seq<Seq<u8>>,
    question_tail: Seq<u8>,
    size: u16,
    flags: Seq<u8>,
    options: Seq<u8>,
) -> Seq<u8> {
    header + wire_name(labels) + question_tail + seq![
        0u8,
        0u8,
        41u8,
        (size / 256) as u8,
        (size % 256) as u8,
    ] + flags + seq![(options.len() / 256) as u8, (options.len() % 256) as u8] + options
}

/// A header that counts one additional record and no other behind the question.
pub open spec fn counts_one_additional(header: Seq<u8>) -> bool {
    header.len() == 12 && header.subrange(6, 12) == seq![0u8, 0u8, 0u8, 0u8, 0u8, 1u8]
}

proof fn lemma_query_with_opt(
    header: Seq<u8>,
    labels: Seq<Seq<u8>>,
    question_tail: Seq<u8>,
    size: u16,
    flags: Seq<u8>,
    options: Seq<u8>,
)
    requires
        counts_one_additional(header),
        fit_labels(labels),
        question_tail.len() == 4,
        flags.len() == 4,
        options.len() <= 65535,
        12 + wire_name(labels).len() + 4 + 13 + options.len() <= usize::MAX,
    ensures
        ({
            let p = query_with_opt(header, labels, question_tail, size, flags, options);
            let e = (12 + wire_name(labels).len() + 4) as int;
            &&& p.len() == e + 11 + options.len()
            &&& opt_of(p) == Some(
                Record {
                    rtype: TYPE_OPT,
                    data: (e + 11) as usize,
                    end: (e + 11 + options.len()) as usize,
                },
            )
            &&& be16(p, e + 3) == size
            &&& p.subrange(e + 11, e + 11 + options.len()) == options
        }),
{
    let w = wire_name(labels);
    let qtype = be16(question_tail, 0);
    let qclass = be16(question_tail, 2);
    let fixed = seq![
        (qtype / 256) as u8,
        (qtype % 256) as u8,
        (qclass / 256) as u8,
        (qclass % 256) as u8,
    ];
    assert(fixed =~= question_tail);
    let opt = seq![0u8, 0u8, 41u8, (size / 256) as u8, (size % 256) as u8] + flags + seq![
        (options.len() / 256) as u8,
        (options.len() % 256) as u8,
    ] + options;
    let p = query_with_opt(header, labels, question_tail, size, flags, options);
    assert(p =~= header + w + fixed + opt);
    law_question_is_read(header, labels, qtype, qclass, opt);
    let front = header + w + fixed;
    let e = front.len() as int;
    let class_and_ttl = seq![(size / 256) as u8, (size % 256) as u8] + flags;
    let none = Seq::<Seq<u8>>::empty();
    assert(fit_labels(none));
    assert(wire_name(none) =~= seq![0u8]);
    law_record_is_read(front, none, seq![192u8, 12u8], 41, class_and_ttl, options, Seq::empty());
    assert(p =~= front + wire_name(none) + (be16_bytes(41) + class_and_ttl + be16_bytes(
        options.len() as u16,
    ) + options + Seq::empty()));
    let h = header.subrange(6, 12);
    assert(header[6] == h[0] && header[7] == h[1] && header[8] == h[2] && header[9] == h[3]);
    assert(header[10] == h[4] && header[11] == h[5]);
    assert(p[6] == header[6] && p[7] == header[7] && p[8] == header[8] && p[9] == header[9]);
    assert(p[10] == header[10] && p[11] == header[11]);
    assert(p[e + 3] == (size / 256) as u8 && p[e + 4] == (size % 256) as u8);
    assert(p.subrange(e + 11, e + 11 + options.len()) =~= options);
    reveal_with_fuel(first_opt, 2);
}

/// The client takes what it announces in its OPT record, and 512 bytes where it announces less or
/// counts no record.
pub proof fn law_client_announces_its_limit(
    header: Seq<u8>,
    labels: Seq<Seq<u8>>,
    question_tail: Seq<u8>,
    size: u16,
    flags: Seq<u8>,
    options: Seq<u8>,
    bare: Seq<u8>,
)
    requires
        counts_one_additional(header),
        fit_labels(labels),
        question_tail.len() == 4,
        flags.len() == 4,
        options.len() <= 65535,
        12 + wire_name(labels).len() + 4 + 13 + options.len() <= usize::MAX,
        bare.len() >= 12,
        bare.subrange(6, 12) == seq![0u8, 0u8, 0u8, 0u8, 0u8, 0u8],
    ensures
        udp_limit(query_with_opt(header, labels, question_tail, size, flags, options)) == (if size
            > 512 {
            size as int
        } else {
            512
        }),
        udp_limit(bare) == 512,
{
    lemma_query_with_opt(header, labels, question_tail, size, flags, options);
    let h = bare.subrange(6, 12);
    assert(bare[6] == h[0] && bare[7] == h[1] && bare[8] == h[2] && bare[9] == h[3]);
    assert(bare[10] == h[4] && bare[11] == h[5]);
}

/// A client subnet is the option of code 8: a query with one such option carries a subnet, and a
/// query with one option of another code, or with none, does not.
pub proof fn law_subnet_option_is_recognised(
    header: Seq<u8>,
    labels: Seq<Seq<u8>>,
    question_tail: Seq<u8>,
    size: u16,
    flags: Seq<u8>,
    code: u16,
    data: Seq<u8>,
)
    requires
        counts_one_additional(header),
        fit_labels(labels),
        question_tail.len() == 4,
        flags.len() == 4,
        data.len() <= 65531,
        12 + wire_name(labels).len() + 4 + 13 + 4 + data.len() <= usize::MAX,
    ensures
        ({
            let option = seq![
                (code / 256) as u8,
                (code % 256) as u8,
                (data.len() / 256) as u8,
                (data.len() % 256) as u8,
            ] + data;
            let p = query_with_opt(header, labels, question_tail, size, flags, option);
            let none = query_with_opt(header, labels, question_tail, size, flags, Seq::empty());
            &&& carries_ecs(p) <==> code == 8
            &&& code == 8 ==> ecs_stripped(p) == none
            &&& !carries_ecs(none)
            &&& has_options(p)
            &&& opt_emptied(p) == none
            &&& !has_options(none)
        }),
{
    let option = seq![
        (code / 256) as u8,
        (code % 256) as u8,
        (data.len() / 256) as u8,
        (data.len() % 256) as u8,
    ] + data;
    let none = Seq::<u8>::empty();
    let p = query_with_opt(header, labels, question_tail, size, flags, option);
    let q = query_with_opt(header, labels, question_tail, size, flags, none);
    lemma_query_with_opt(header, labels, question_tail, size, flags, option);
    lemma_query_with_opt(header, labels, question_tail, size, flags, none);
    let a = (12 + wire_name(labels).len() + 4 + 11) as int;
    let sub = p.subrange(a, a + option.len());
    assert(p[a] == sub[0] && p[a + 1] == sub[1] && p[a + 2] == sub[2] && p[a + 3] == sub[3]);
    reveal_with_fuel(without_ecs, 2);
    if code != 8 {
        assert(p.subrange(a, a + option.len()) + Seq::<u8>::empty() =~= option);
    }
    let rr = opt_of(p)->0;
    assert(with_options(p, rr, none) =~= q);
}

proof fn lemma_options_exchanged(p: Seq<u8>, options: Seq<u8>)
    requires
        opt_of(p) is Some,
        options.len() <= 65535,
        p.len() + options.len() <= usize::MAX,
    ensures
        ({
            let rr = opt_of(p)->0;
            let m = with_options(p, rr, options);
            let end = rr.data + options.len();
            &&& question_end_of(p)->0 + 11 <= rr.data <= rr.end <= p.len()
            &&& question_end_of(m) == question_end_of(p)
            &&& opt_of(m) == Some(
                Record { rtype: TYPE_OPT, data: rr.data, end: end as usize },
            )
            &&& m.len() == p.len() - (rr.end - rr.data) + options.len()
            &&& m.take(rr.data - 2) == p.take(rr.data - 2)
            &&& m.subrange(rr.data as int, end) == options
            &&& m.skip(end) == p.skip(rr.end as int)
        }),
{
    let rr = opt_of(p)->0;
    let e = question_end_of(p)->0;
    let m = with_options(p, rr, options);
    let end = rr.data + options.len();
    lemma_question_end_bound(p);
    lemma_first_opt_bound(p, e, record_count(p));
    assert forall|j: int| 0 <= j < rr.data - 2 implies #[trigger] p[j] == m[j] by {}
    assert(same_start(p, m, rr.data - 2));
    assert(m[rr.data - 2] == options.len() / 256 && m[rr.data - 1] == options.len() % 256);
    assert(be16(m, rr.data - 2) == options.len());
    lemma_plain_name_kept(p, m, HEADER_LEN as int, rr.data - 2);
    assert(p[6] == m[6] && p[7] == m[7] && p[8] == m[8] && p[9] == m[9]);
    assert(p[10] == m[10] && p[11] == m[11]);
    lemma_first_opt_kept(p, m, e, record_count(p));
    assert(m.take(rr.data - 2) =~= p.take(rr.data - 2));
    assert(m.subrange(rr.data as int, end) =~= options);
    assert(m.skip(end) =~= p.skip(rr.end as int));
}

/// Emptying the OPT record takes its options away and leaves all else: the question, the records
/// before and behind it, and the record itself.
pub proof fn law_emptied_record_stays(p: Seq<u8>)
    requires
        has_options(p),
        p.len() <= usize::MAX,
    ensures
        !has_options(opt_emptied(p)),
        opt_of(opt_emptied(p)) is Some,
        question_end_of(opt_emptied(p)) == question_end_of(p),
        opt_emptied(p).len() == p.len() - (opt_of(p)->0.end - opt_of(p)->0.data),
        opt_emptied(p).take(opt_of(p)->0.data - 2) == p.take(opt_of(p)->0.data - 2),
        opt_emptied(p).skip(opt_of(p)->0.data as int) == p.skip(opt_of(p)->0.end as int),
        udp_limit(opt_emptied(p)) == udp_limit(p),
{
    lemma_options_exchanged(p, Seq::empty());
    let rr = opt_of(p)->0;
    let m = opt_emptied(p);
    lemma_question_end_bound(p);
    assert(m.take(rr.data - 2)[rr.data - 8] == p.take(rr.data - 2)[rr.data - 8]);
    assert(m.take(rr.data - 2)[rr.data - 7] == p.take(rr.data - 2)[rr.data - 7]);
}

/// Options that went through once, with a client subnet behind them.
proof fn lemma_without_ecs_then(
    p: Seq<u8>,
    i: int,
    end: int,
    q: Seq<u8>,
    a: int,
    subnet: EcsSubnet,
)
    requires
        0 <= i <= end <= p.len(),
        0 <= a,
        without_ecs(p, i, end) is Some,
        a + without_ecs(p, i, end)->0.len() + ecs_option(subnet).len() <= q.len(),
        q.subrange(a, a + without_ecs(p, i, end)->0.len() + ecs_option(subnet).len())
            == without_ecs(p, i, end)->0 + ecs_option(subnet),
    ensures
        without_ecs(q, a, a + without_ecs(p, i, end)->0.len() + ecs_option(subnet).len())
            == without_ecs(p, i, end),
    decreases end - i,
{
    let o = ecs_option(subnet);
    let s = without_ecs(p, i, end)->0;
    let both = s + o;
    let n = both.len() as int;
    if i == end {
        assert(both =~= o);
        assert(q.subrange(a, a + n)[0] == q[a] && q.subrange(a, a + n)[1] == q[a + 1]);
        assert(q.subrange(a, a + n)[2] == q[a + 2] && q.subrange(a, a + n)[3] == q[a + 3]);
        assert(o.len() == 8 + subnet_bytes(subnet).len());
        assert(be16(q, a) == OPTION_ECS);
        assert(be16(q, a + 2) == o.len() - 4);
        reveal_with_fuel(without_ecs, 2);
    } else {
        let next = i + 4 + be16(p, i + 2);
        let rest = without_ecs(p, next, end)->0;
        if be16(p, i) == OPTION_ECS {
            lemma_without_ecs_then(p, next, end, q, a, subnet);
        } else {
            let len = next - i;
            assert forall|k: int| 0 <= k < len implies #[trigger] q[a + k] == p[i + k] by {
                assert(q.subrange(a, a + n)[k] == both[k]);
            }
            assert(q[a + 0] == p[i + 0] && q[a + 1] == p[i + 1]);
            assert(q[a + 2] == p[i + 2] && q[a + 3] == p[i + 3]);
            assert(q.subrange(a + len, a + len + rest.len() + o.len()) =~= rest + o) by {
                assert forall|k: int| 0 <= k < rest.len() + o.len() implies q[a + len + k] == (rest
                    + o)[k] by {
                    assert(q.subrange(a, a + n)[len + k] == both[len + k]);
                }
            }
            lemma_without_ecs_then(p, next, end, q, a + len, subnet);
            assert(q.subrange(a, a + len) =~= p.subrange(i, next)) by {
                assert forall|k: int| 0 <= k < len implies q.subrange(a, a + len)[k] == p.subrange(
                    i,
                    next,
                )[k] by {
                    assert(q[a + k] == p[i + k]);
                }
            }
        }
    }
}

proof fn lemma_replaced(p: Seq<u8>, rr: Record, s: Seq<u8>, subnet: EcsSubnet, m: Seq<u8>)
    requires
        opt_of(p) == Some(rr),
        without_ecs(p, rr.data as int, rr.end as int) == Some(s),
        s.len() + ecs_option(subnet).len() <= 65535,
        m == with_options(p, rr, s + ecs_option(subnet)),
        p.len() + 65535 <= usize::MAX,
    ensures
        ({
            let end = rr.data + s.len() + ecs_option(subnet).len();
            &&& opt_of(m) == Some(
                Record { rtype: TYPE_OPT, data: rr.data, end: end as usize },
            )
            &&& end <= usize::MAX
            &&& without_ecs(m, rr.data as int, end) == Some(s)
            &&& question_end_of(m) == question_end_of(p)
            &&& m.take(question_end_of(p)->0) == p.take(question_end_of(p)->0)
            &&& m.subrange(end - ecs_option(subnet).len(), end) == ecs_option(subnet)
            &&& m.take(rr.data - 2) == p.take(rr.data - 2)
            &&& m.skip(end) == p.skip(rr.end as int)
            &&& ecs_option(subnet).len() >= 8
        }),
{
    let e = question_end_of(p)->0;
    let o = ecs_option(subnet);
    lemma_options_exchanged(p, s + o);
    lemma_without_ecs_then(p, rr.data as int, rr.end as int, m, rr.data as int, subnet);
    lemma_end_of_range(m, rr.data as int, s, o);
    lemma_question_end_bound(p);
    assert(m.take(rr.data - 2).take(e) =~= m.take(e));
    assert(p.take(rr.data - 2).take(e) =~= p.take(e));
    assert(o.len() == 8 + subnet_bytes(subnet).len());
}

/// A query into which a subnet was put carries that subnet and no other: without it the query is
/// what it is without its own, and a second subnet takes the place of the first.
pub proof fn law_subnet_takes_the_place_of_others(
    p: Seq<u8>,
    subnet: EcsSubnet,
    next: EcsSubnet,
    m: Seq<u8>,
)
    requires
        opt_of(p) is Some,
        ecs_replaced(p, subnet) == Some(m),
        p.len() + 65535 <= usize::MAX,
    ensures
        carries_ecs(m),
        ecs_stripped(m) == (if carries_ecs(p) {
            ecs_stripped(p)
        } else {
            p
        }),
        question_end_of(m) == question_end_of(p),
        m.take(question_end_of(p)->0) == p.take(question_end_of(p)->0),
        ({
            let rr = opt_of(m)->0;
            let option = ecs_option(subnet);
            m.subrange(rr.end - option.len(), rr.end as int) == option
        }),
        ecs_replaced(m, next) == ecs_replaced(p, next),
{
    let rr = opt_of(p)->0;
    let s = without_ecs(p, rr.data as int, rr.end as int)->0;
    lemma_replaced(p, rr, s, subnet, m);
    let mr = opt_of(m)->0;
    assert(without_ecs(m, mr.data as int, mr.end as int) == Some(s));
    assert(ecs_stripped(m) == with_options(p, rr, s));
    assert(with_options(m, mr, s + ecs_option(next)) == with_options(p, rr, s + ecs_option(next)));
    if !carries_ecs(p) {
        lemma_stripping_nothing(p);
    }
}

proof fn lemma_first_opt_says_its_length(p: Seq<u8>, i: int, count: nat)
    requires
        0 <= i,
        p.len() <= usize::MAX,
        first_opt(p, i, count) is Some,
    ensures
        be16(p, first_opt(p, i, count)->0.data - 2) == first_opt(p, i, count)->0.end - first_opt(
            p,
            i,
            count,
        )->0.data,
    decreases count,
{
    lemma_name_end_bound(p, i);
    if record_at(p, i)->0.rtype != TYPE_OPT {
        lemma_first_opt_says_its_length(p, record_at(p, i)->0.end as int, (count - 1) as nat);
    }
}

proof fn lemma_end_of_range(m: Seq<u8>, a: int, s: Seq<u8>, o: Seq<u8>)
    requires
        0 <= a,
        a + s.len() + o.len() <= m.len(),
        m.subrange(a, a + (s + o).len()) == s + o,
    ensures
        m.subrange(a + s.len(), a + s.len() + o.len()) == o,
{
    assert(m.subrange(a + s.len(), a + s.len() + o.len()) =~= m.subrange(
        a,
        a + (s + o).len(),
    ).skip(s.len() as int));
    assert((s + o).skip(s.len() as int) =~= o);
}

proof fn lemma_stripping_nothing(p: Seq<u8>)
    requires
        opt_of(p) is Some,
        p.len() <= usize::MAX,
        !carries_ecs(p),
        without_ecs(p, opt_of(p)->0.data as int, opt_of(p)->0.end as int) is Some,
    ensures
        with_options(
            p,
            opt_of(p)->0,
            without_ecs(p, opt_of(p)->0.data as int, opt_of(p)->0.end as int)->0,
        ) == p,
{
    let rr = opt_of(p)->0;
    let e = question_end_of(p)->0;
    let l = rr.end - rr.data;
    lemma_question_end_bound(p);
    lemma_first_opt_bound(p, e, record_count(p));
    lemma_nothing_stripped(p, rr.data as int, rr.end as int);
    lemma_first_opt_says_its_length(p, e, record_count(p));
    assert(be16_bytes(l as u16) =~= p.subrange(rr.data - 2, rr.data as int));
    assert(with_options(p, rr, p.subrange(rr.data as int, rr.end as int)) =~= p);
}

proof fn lemma_nothing_stripped(p: Seq<u8>, i: int, end: int)
    requires
        0 <= i <= end <= p.len(),
        without_ecs(p, i, end) is Some,
        without_ecs(p, i, end)->0.len() >= end - i,
    ensures
        without_ecs(p, i, end)->0 == p.subrange(i, end),
    decreases end - i,
{
    if i == end {
        assert(p.subrange(i, end) =~= Seq::empty());
    } else {
        let next = i + 4 + be16(p, i + 2);
        lemma_without_ecs_len(p, next, end);
        lemma_nothing_stripped(p, next, end);
        assert(p.subrange(i, next) + p.subrange(next, end) =~= p.subrange(i, end));
    }
}

/// A query without an OPT record gets one at its end, which announces 1232 bytes and holds the
/// subnet alone; it counts one additional record more, and all else stays.
pub proof fn law_subnet_brings_its_record(p: Seq<u8>, subnet: EcsSubnet)
    requires
        question_end_of(p) is Some,
        opt_of(p) is None,
        be16(p, 10) < 65535,
    ensures
        ({
            let m = ecs_replaced(p, subnet)->0;
            let option = ecs_option(subnet);
            &&& ecs_replaced(p, subnet) is Some
            &&& m.len() == p.len() + 11 + option.len()
            &&& m.take(10) == p.take(10)
            &&& be16(m, 10) == be16(p, 10) + 1
            &&& m.subrange(12, p.len() as int) == p.skip(12)
            &&& m.skip(p.len() as int) == seq![
                0u8,
                0u8,
                41u8,
                4u8,
                208u8,
                0u8,
                0u8,
                0u8,
                0u8,
                0u8,
                option.len() as u8,
            ] + option
        }),
{
    lemma_question_end_bound(p);
    let m = ecs_replaced(p, subnet)->0;
    let option = ecs_option(subnet);
    assert(option.len() == 8 + subnet_bytes(subnet).len());
    assert(subnet_bytes(subnet).len() <= 16);
    assert(m.take(10) =~= p.take(10));
    assert(m.subrange(12, p.len() as int) =~= p.skip(12));
    let tail = seq![0u8, 0u8, 41u8, 4u8, 208u8, 0u8, 0u8, 0u8, 0u8, 0u8, option.len() as u8]
        + option;
    assert(new_opt(option) =~= tail);
    assert(m.skip(p.len() as int) =~= tail);
}

/// A client subnet option says its family, its prefix length and as many address bytes as the
/// prefix reaches into. The bytes are those of the address; of the last one, where the prefix ends
/// within it, the bits behind the prefix are zero and those before it stay.
pub proof fn law_subnet_shows_its_prefix_only(subnet: EcsSubnet)
    ensures
        ({
            let most: int = if subnet.addr is V4 {
                32
            } else {
                128
            };
            let prefix: int = if subnet.prefix_len <= most {
                subnet.prefix_len as int
            } else {
                most
            };
            let bytes = subnet_bytes(subnet);
            let all = address_bytes(subnet.addr);
            let option = ecs_option(subnet);
            let n = bytes.len() as int;
            &&& all.len() * 8 == most
            &&& prefix <= n * 8 < prefix + 8
            &&& forall|k: int| 0 <= k < prefix / 8 ==> #[trigger] bytes[k] == all[k]
            &&& prefix % 8 != 0 ==> {
                let last = bytes[n - 1] as int;
                let own = all[n - 1] as int;
                let range = low_range(prefix % 8);
                last <= own < last + range && last % range == 0
            }
            &&& option.len() == 8 + n
            &&& option.take(8) == seq![
                0u8,
                8u8,
                0u8,
                (n + 4) as u8,
                0u8,
                if subnet.addr is V4 {
                    1u8
                } else {
                    2u8
                },
                prefix as u8,
                0u8,
            ]
            &&& option.skip(8) == bytes
        }),
        low_range(7) == 2,
        forall|r: int| 1 <= r < 7 ==> #[trigger] low_range(r) == 2 * low_range(r + 1),
{
    let most: int = if subnet.addr is V4 {
        32
    } else {
        128
    };
    let prefix = prefix_of(subnet);
    let bytes = subnet_bytes(subnet);
    let all = address_bytes(subnet.addr);
    let option = ecs_option(subnet);
    let n = bytes.len() as int;
    assert(option.skip(8) =~= bytes);
    assert(option.take(8) =~= seq![
        0u8,
        8u8,
        0u8,
        (n + 4) as u8,
        0u8,
        if subnet.addr is V4 {
            1u8
        } else {
            2u8
        },
        prefix as u8,
        0u8,
    ]);
    if prefix % 8 != 0 {
        let own = all[n - 1] as int;
        let range = low_range(prefix % 8);
        assert(n - 1 == prefix / 8);
        assert(own == range * (own / range) + own % range) by (nonlinear_arith)
            requires
                range > 0,
        ;
        assert(0 <= own % range < range) by (nonlinear_arith)
            requires
                range > 0,
                own >= 0,
        ;
        assert((range * (own / range)) % range == 0) by (nonlinear_arith)
            requires
                range > 0,
        ;
        assert(range * (own / range) >= 0) by (nonlinear_arith)
            requires
                range > 0,
                own >= 0,
        ;
        assert(bytes[n - 1] as int == own - own % range);
    }
}

} // verus!
