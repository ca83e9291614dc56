//! Upstream servers: pools of nodes, their health, and the exchange of one query.
//!
//! A node is scored by its smoothed round-trip time and the queries it has in flight. Nodes close
//! to the best score share the load; now and then the node that was left alone longest is tried,
//! so that one that recovered comes back. A failure doubles a node's round-trip estimate; the first
//! success after failures takes the fresh measurement as it is.

pub mod health;
pub mod http;
pub mod inflight;
pub mod pool;
pub mod tcp_mux;
pub mod udp;

use crate::clock::{clock_reading, system_time};
use crate::config::{EcsMode, EcsSubnet, UpstreamEndpoint, UpstreamProto};
use crate::dns::{
    be16, be16_bytes, get_id, is_reply, push_all, push_be16, question_end, question_end_of,
    questions_match, reply_flag, set_id, with_id, HEADER_LEN,
};
use crate::edns::{
    carries_ecs, ecs_option, ecs_replaced, ecs_stripped, inject_or_replace_ecs,
    law_stripped_carries_no_subnet, law_subnet_takes_the_place_of_others, opt_of, strip_edns_ecs,
};
use crate::text::{lower_byte, lower_bytes, same_ignoring_case};
use std::time::SystemTime;
use vstd::prelude::*;
use vstd::slice::{slice_subrange, slice_to_vec};
use vstd::string::StringExecFns;
use vstd::wrapping::u32_specs;

verus! {

/// The transport over which a client asked.
#[derive(Clone, Copy, Debug, PartialEq, Eq, Structural)]
pub enum ClientProto {
    Udp,
    Tcp,
}

// Identifiers of upstream queries.

/// The number that a clock reading seeds the identifiers with.
pub open spec fn seed_of(time: Option<(u64, u32)>) -> u32 {
    match time {
        Some((secs, nanos)) => (secs as u32) ^ nanos,
        None => 0xdeadbeef,
    }
}

/// The number that a clock reading seeds the identifiers with: it differs between two starts
/// within one second.
pub fn seed_from_time(time: Option<(u64, u32)>) -> (r: u32)
    ensures
        r == seed_of(time),
{
    match time {
        Some((secs, nanos)) => #[verifier::truncate] (secs as u32) ^ nanos,
        None => 0xdeadbeef,
    }
}

/// A seed from the time of day.
pub fn random_id_seed() -> (r: u32)
    ensures
        exists|at: SystemTime| r == seed_of(#[trigger] clock_reading(at)),
{
    let time = system_time();
    seed_from_time(time)
}

/// Spreads a counter over the identifiers.
pub open spec fn mixed(x: u32) -> u16 {
    let y = u32_specs::wrapping_mul(x, 0x45d9f3b);
    let id = (y ^ (y >> 16)) as u16;
    if id == 0 {
        1
    } else {
        id
    }
}

/// Spreads a counter over the identifiers; zero never comes out.
pub fn mix16(x: u32) -> (r: u16)
    ensures
        r == mixed(x),
        r != 0,
{
    let y: u32 = x.wrapping_mul(0x45d9f3b);
    let z: u32 = y ^ (y >> 16);
    let id: u16 = #[verifier::truncate] (z as u16);
    if id == 0 {
        1
    } else {
        id
    }
}

// Addresses.

/// Path of queries over HTTP where none is configured.
pub open spec fn path_or_default(path: Option<String>) -> Seq<char> {
    match path {
        Some(p) => p@,
        None => "/dns-query"@,
    }
}

/// Address of an endpoint as it is shown; the usual port is left out.
pub open spec fn endpoint_text(ep: UpstreamEndpoint) -> Seq<char> {
    let host = if ep.port == crate::config::usual_port(ep.proto) {
        ep.ip@
    } else {
        ep.addr@
    };
    match ep.proto {
        UpstreamProto::Udp => "udp://"@ + host,
        UpstreamProto::Tcp => "tcp://"@ + host,
        UpstreamProto::Tls => "tls://"@ + host,
        UpstreamProto::Https => "https://"@ + host + path_or_default(ep.path),
        UpstreamProto::Quic => "quic://"@ + host,
        UpstreamProto::H3 => "h3://"@ + host + path_or_default(ep.path),
    }
}

/// Address of an endpoint as it is shown.
pub fn format_upstream_addr(ep: &UpstreamEndpoint) -> (r: String)
    ensures
        r@ == endpoint_text(*ep),
{
    let host: &str = if ep.port == ep.proto.default_port() {
        ep.ip.as_str()
    } else {
        ep.addr.as_str()
    };
    let mut out: String = match ep.proto {
        UpstreamProto::Udp => "udp://".to_owned(),
        UpstreamProto::Tcp => "tcp://".to_owned(),
        UpstreamProto::Tls => "tls://".to_owned(),
        UpstreamProto::Https => "https://".to_owned(),
        UpstreamProto::Quic => "quic://".to_owned(),
        UpstreamProto::H3 => "h3://".to_owned(),
    };
    out.append(host);
    if ep.proto == UpstreamProto::Https || ep.proto == UpstreamProto::H3 {
        match &ep.path {
            Some(p) => out.append(p.as_str()),
            None => out.append("/dns-query"),
        }
    }
    out
}

// Messages to and from upstream servers.

/// A query as it goes to a server with this treatment of client subnets.
pub open spec fn with_ecs_mode(p: Seq<u8>, mode: EcsMode) -> Seq<u8> {
    match mode {
        EcsMode::Strip => if carries_ecs(p) {
            ecs_stripped(p)
        } else {
            p
        },
        EcsMode::Forward => p,
        EcsMode::Fixed(subnet) => match ecs_replaced(p, subnet) {
            Some(m) => m,
            None => p,
        },
    }
}

/// Applies the treatment of client subnets to a query.
pub fn apply_ecs_mode(packet: &[u8], mode: &EcsMode) -> (r: Vec<u8>)
    ensures
        r@ == with_ecs_mode(packet@, *mode),
{
    match mode {
        EcsMode::Strip => match strip_edns_ecs(packet) {
            Some(m) => m,
            None => slice_to_vec(packet),
        },
        EcsMode::Forward => slice_to_vec(packet),
        EcsMode::Fixed(subnet) => match inject_or_replace_ecs(packet, subnet) {
            Some(m) => m,
            None => slice_to_vec(packet),
        },
    }
}

/// A query as it goes to a server, under the identifier of that exchange. `None` for a message too
/// short to have an identifier.
pub fn prepare_query(packet: &[u8], ecs_mode: &EcsMode, upstream_id: u16) -> (r: Option<Vec<u8>>)
    ensures
        match r {
            Some(m) => with_ecs_mode(packet@, *ecs_mode).len() >= 2 && m@ == with_id(
                with_ecs_mode(packet@, *ecs_mode),
                upstream_id,
            ),
            None => with_ecs_mode(packet@, *ecs_mode).len() < 2,
        },
{
    let mut m = apply_ecs_mode(packet, ecs_mode);
    if set_id(&mut m, upstream_id) {
        Some(m)
    } else {
        None
    }
}

/// Why a response is not taken.
#[derive(Clone, Copy, Debug, PartialEq, Eq, Structural)]
pub enum ResponseError {
    /// It is not marked as a response.
    NotReply,
    /// It has another identifier.
    IdMismatch,
    /// It answers another question.
    QuestionMismatch,
}

/// Bytes of the first question of a message; none when it is not well formed.
pub open spec fn question_part(p: Seq<u8>) -> Seq<u8> {
    match question_end_of(p) {
        Some(e) => p.subrange(HEADER_LEN as int, e),
        None => Seq::empty(),
    }
}

/// Bytes of the first question of a message.
pub fn question_of(packet: &[u8]) -> (r: Vec<u8>)
    ensures
        r@ == question_part(packet@),
{
    match question_end(packet) {
        Some(e) => slice_to_vec(slice_subrange(packet, HEADER_LEN, e)),
        None => Vec::new(),
    }
}

/// What is wrong with a response to a query with this identifier and question.
pub open spec fn response_outcome(resp: Seq<u8>, upstream_id: u16, question: Seq<u8>) -> Result<
    (),
    ResponseError,
> {
    if !reply_flag(resp) {
        Err(ResponseError::NotReply)
    } else if be16(resp, 0) != upstream_id {
        Err(ResponseError::IdMismatch)
    } else if !same_ignoring_case(question_part(resp), question) {
        Err(ResponseError::QuestionMismatch)
    } else {
        Ok(())
    }
}

/// Checks a response to a query with this identifier and question.
pub fn validate_upstream_response(resp: &[u8], upstream_id: u16, question: &[u8]) -> (r: Result<
    (),
    ResponseError,
>)
    ensures
        r == response_outcome(resp@, upstream_id, question@),
{
    if !is_reply(resp) {
        return Err(ResponseError::NotReply);
    }
    let own_id = match get_id(resp) {
        Some(id) => id == upstream_id,
        None => false,
    };
    if !own_id {
        return Err(ResponseError::IdMismatch);
    }
    let resp_q = question_of(resp);
    if !questions_match(resp_q.as_slice(), question) {
        return Err(ResponseError::QuestionMismatch);
    }
    Ok(())
}

/// Checks a response and gives it the client's identifier.
pub fn finalize_response(
    resp: Vec<u8>,
    upstream_id: u16,
    question: &[u8],
    client_id: u16,
) -> (r: Result<Vec<u8>, ResponseError>)
    ensures
        match response_outcome(resp@, upstream_id, question@) {
            Ok(_) => match r {
                Ok(m) => m@ == with_id(resp@, client_id),
                Err(_) => false,
            },
            Err(e) => r == Err::<Vec<u8>, ResponseError>(e),
        },
{
    match validate_upstream_response(resp.as_slice(), upstream_id, question) {
        Ok(_) => {
            let mut m = resp;
            let _had_header = set_id(&mut m, client_id);
            Ok(m)
        },
        Err(e) => Err(e),
    }
}

/// A message on a stream: its length, then its bytes.
pub open spec fn framed(p: Seq<u8>) -> Seq<u8> {
    be16_bytes(p.len() as u16) + p
}

/// A message as it goes over a stream; `None` when it is too long for one.
pub fn frame_message(packet: &[u8]) -> (r: Option<Vec<u8>>)
    ensures
        match r {
            Some(m) => packet@.len() <= u16::MAX && m@ == framed(packet@),
            None => packet@.len() > u16::MAX,
        },
{
    assert(packet.len() == packet@.len());
    if packet.len() > 65535 {
        return None;
    }
    let mut out: Vec<u8> = Vec::new();
    push_be16(&mut out, packet.len() as u16);
    push_all(&mut out, packet);
    proof {
        assert(out@ =~= framed(packet@));
    }
    Some(out)
}

/// The length in front of a framed message is that of the message.
pub proof fn law_frame_length(p: Seq<u8>)
    requires
        p.len() <= u16::MAX,
    ensures
        be16(framed(p), 0) == p.len(),
        framed(p).skip(2) == p,
{
    crate::dns::law_be16_roundtrip(p.len() as u16);
    let f = framed(p);
    assert(f[0] == be16_bytes(p.len() as u16)[0]);
    assert(f[1] == be16_bytes(p.len() as u16)[1]);
    assert(f.skip(2) =~= p);
}

// What goes to a server and comes back.

/// What a server sees of the client subnet: none where it is stripped, the query as it is where it
/// is forwarded, and the configured one alone where that takes its place. The question is the
/// client's in every case.
pub proof fn law_server_sees_the_wanted_subnet(p: Seq<u8>, subnet: EcsSubnet)
    requires
        p.len() + 65535 <= usize::MAX,
    ensures
        !carries_ecs(with_ecs_mode(p, EcsMode::Strip)),
        question_end_of(with_ecs_mode(p, EcsMode::Strip)) == question_end_of(p),
        with_ecs_mode(p, EcsMode::Forward) == p,
        opt_of(p) is Some && ecs_replaced(p, subnet) is Some ==> {
            let m = with_ecs_mode(p, EcsMode::Fixed(subnet));
            let option = ecs_option(subnet);
            &&& carries_ecs(m)
            &&& with_ecs_mode(m, EcsMode::Strip) == with_ecs_mode(p, EcsMode::Strip)
            &&& m.subrange(opt_of(m)->0.end - option.len(), opt_of(m)->0.end as int) == option
            &&& question_end_of(m) == question_end_of(p)
        },
        ecs_replaced(p, subnet) is None ==> with_ecs_mode(p, EcsMode::Fixed(subnet)) == p,
{
    if carries_ecs(p) {
        law_stripped_carries_no_subnet(p);
    }
    if opt_of(p) is Some && ecs_replaced(p, subnet) is Some {
        let m = ecs_replaced(p, subnet)->0;
        law_subnet_takes_the_place_of_others(p, subnet, subnet, m);
    }
}

/// A response is taken exactly when it is marked as one, has the identifier of the exchange, and
/// repeats the question byte for byte up to the case of letters.
pub proof fn law_response_must_fit_its_query(resp: Seq<u8>, upstream_id: u16, question: Seq<u8>)
    ensures
        response_outcome(resp, upstream_id, question) is Ok <==> {
            &&& resp.len() >= 12
            &&& resp[2] >= 128
            &&& resp[0] * 256 + resp[1] == upstream_id
            &&& question_part(resp).len() == question.len()
            &&& forall|i: int|
                0 <= i < question.len() ==> lower_byte(#[trigger] question[i]) == lower_byte(
                    question_part(resp)[i],
                )
        },
        resp.len() >= 12 && resp[2] >= 128 && resp[0] * 256 + resp[1] != upstream_id
            ==> response_outcome(resp, upstream_id, question) == Err::<(), ResponseError>(
            ResponseError::IdMismatch,
        ),
        resp.len() < 12 || resp[2] < 128 ==> response_outcome(resp, upstream_id, question) == Err::<
            (),
            ResponseError,
        >(ResponseError::NotReply),
{
    if resp.len() >= 12 {
        let b = resp[2];
        assert((b & 0x80 != 0) == (b >= 128)) by (bit_vector);
    }
    let part = question_part(resp);
    let a = lower_bytes(part);
    let b = lower_bytes(question);
    assert(a.len() == part.len() && b.len() == question.len());
    if a == b {
        assert forall|i: int| 0 <= i < question.len() implies lower_byte(#[trigger] question[i])
            == lower_byte(part[i]) by {
            assert(a[i] == b[i]);
        }
    }
    if part.len() == question.len() && forall|i: int|
        0 <= i < question.len() ==> lower_byte(#[trigger] question[i]) == lower_byte(part[i]) {
        assert forall|i: int| 0 <= i < a.len() implies a[i] == b[i] by {
            assert(lower_byte(question[i]) == lower_byte(part[i]));
        }
        assert(a =~= b);
    }
}

/// The identifier of a counter is what the upper and the lower half of its product make together;
/// where that is zero, it is one.
pub proof fn law_identifiers_are_never_zero(x: u32)
    ensures
        mixed(x) != 0,
        ({
            let y = (x * 73244475) % 4294967296;
            let id = (y / 65536) as u16 ^ (y % 65536) as u16;
            mixed(x) == (if id == 0 {
                1u16
            } else {
                id
            })
        }),
{
    let y = u32_specs::wrapping_mul(x, 0x45d9f3b);
    assert((y ^ (y >> 16)) as u16 == ((y / 65536) as u16 ^ (y % 65536) as u16)) by (bit_vector);
}

/// An endpoint is shown by its transport and address: without the port where that is the usual one
/// of the transport, with its path where queries go over the web, and without one elsewhere.
pub proof fn law_usual_port_is_not_shown(ep: UpstreamEndpoint)
    ensures
        ({
            let usual = match ep.proto {
                UpstreamProto::Udp => 53u16,
                UpstreamProto::Tcp => 53,
                UpstreamProto::Tls => 853,
                UpstreamProto::Quic => 853,
                UpstreamProto::Https => 443,
                UpstreamProto::H3 => 443,
            };
            let host = if ep.port == usual {
                ep.ip@
            } else {
                ep.addr@
            };
            let path = match ep.path {
                Some(p) => p@,
                None => "/dns-query"@,
            };
            endpoint_text(ep) == (match ep.proto {
                UpstreamProto::Udp => "udp://"@ + host,
                UpstreamProto::Tcp => "tcp://"@ + host,
                UpstreamProto::Tls => "tls://"@ + host,
                UpstreamProto::Quic => "quic://"@ + host,
                UpstreamProto::Https => "https://"@ + host + path,
                UpstreamProto::H3 => "h3://"@ + host + path,
            })
        }),
{
}

/// Two starts within one second have different seeds where their nanoseconds differ.
pub proof fn law_starts_differ(secs: u64, a: u32, b: u32)
    requires
        a != b,
    ensures
        seed_of(Some((secs, a))) != seed_of(Some((secs, b))),
{
    let s = secs as u32;
    assert(a != b ==> s ^ a != s ^ b) by (bit_vector);
}

} // verus!
