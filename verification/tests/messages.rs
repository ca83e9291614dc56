use pathdns::arena::ResponseArena;
use pathdns::config::EcsSubnet;
use pathdns::dns::{
    a_reply, aaaa_reply, answer_ips, answer_rr_types, empty_reply, get_id, is_reply, is_truncated,
    notimp_opcode_reply, notimp_reply, opcode, parse_query_fast, qdcount, qname_from_question,
    question_end, question_qclass, questions_match, rcode, servfail_reply, set_id,
};
use pathdns::edns::{
    find_opt, has_ecs, inject_or_replace_ecs, maybe_truncate_for_udp, strip_edns_ecs,
    strip_opt_rdata,
};
use pathdns::iprange::IpAddr;

/// A query for "Ab.c" of type A.
fn query() -> Vec<u8> {
    vec![
        0x12, 0x34, 0x01, 0x00, 0, 1, 0, 0, 0, 0, 0, 0, 2, b'A', b'b', 1, b'c', 0, 0, 1, 0, 1,
    ]
}

fn with_opt(options: &[u8]) -> Vec<u8> {
    let mut p = query();
    p[11] = 1;
    p.extend_from_slice(&[0, 0, 41, 0x04, 0xd0, 0, 0, 0, 0]);
    p.extend_from_slice(&(options.len() as u16).to_be_bytes());
    p.extend_from_slice(options);
    p
}

#[test]
fn query_header_is_read() {
    let q = query();
    assert_eq!(get_id(&q), Some(0x1234));
    assert_eq!(get_id(&[1]), None);
    assert!(!is_reply(&q));
    assert!(!is_truncated(&q));
    assert_eq!(opcode(&q), 0);
    assert_eq!(qdcount(&q), 1);
    assert_eq!(question_end(&q), Some(22));
    assert_eq!(question_qclass(&q, 22), Some(1));
    assert_eq!(qname_from_question(&q), Some("ab.c".to_string()));
    let info = parse_query_fast(&q).unwrap();
    assert_eq!(info.id, 0x1234);
    assert_eq!(info.qtype, 1);
    assert_eq!(info.question_end, 22);
    assert!(parse_query_fast(&q[..20]).is_none());
}

#[test]
fn identifier_reads_back() {
    let mut q = query();
    assert!(set_id(&mut q, 0xbeef));
    assert_eq!(get_id(&q), Some(0xbeef));
    assert_eq!(&q[2..], &query()[2..]);
    assert!(!set_id(&mut vec![1], 2));
}

#[test]
fn questions_match_without_case() {
    let mut other = query();
    other[13] = b'a';
    assert!(questions_match(&query()[12..], &other[12..]));
    other[13] = b'x';
    assert!(!questions_match(&query()[12..], &other[12..]));
}

#[test]
fn local_replies_answer_the_query() {
    let q = query();
    let fail = servfail_reply(&q, 22).unwrap();
    assert!(is_reply(&fail));
    assert_eq!(rcode(&fail), 2);
    assert_eq!(get_id(&fail), Some(0x1234));
    assert_eq!(&fail[12..22], &q[12..22]);
    assert_eq!(rcode(&empty_reply(&q, 22).unwrap()), 0);
    assert_eq!(rcode(&notimp_reply(&q, 22).unwrap()), 4);
    assert_eq!(rcode(&notimp_opcode_reply(&q)), 4);
    assert!(servfail_reply(&q, 500).is_none());

    let a = a_reply(&q, 22, 0x0102_0304, 60).unwrap();
    assert_eq!(answer_ips(&a, 22), vec![IpAddr::V4(0x0102_0304)]);
    assert_eq!(answer_rr_types(&a, 22), vec![1]);
    assert_eq!(&a[22..], &[0xc0, 12, 0, 1, 0, 1, 0, 0, 0, 60, 0, 4, 1, 2, 3, 4]);
    let aaaa = aaaa_reply(&q, 22, 5, 60).unwrap();
    assert_eq!(answer_ips(&aaaa, 22), vec![IpAddr::V6(5)]);
    assert_eq!(answer_rr_types(&aaaa, 22), vec![28]);
}

#[test]
fn options_are_stripped() {
    let ecs = [0, 8, 0, 7, 0, 1, 24, 0, 10, 1, 2];
    let cookie = [0, 10, 0, 2, 9, 9];
    let both = [&ecs[..], &cookie[..]].concat();
    let q = with_opt(&both);
    assert!(find_opt(&q).is_some());
    assert!(has_ecs(&q));
    let stripped = strip_edns_ecs(&q).unwrap();
    assert_eq!(stripped, with_opt(&cookie));
    assert!(!has_ecs(&stripped));
    assert!(strip_edns_ecs(&stripped).is_none());
    assert_eq!(strip_opt_rdata(&q), Some(with_opt(&[])));
    assert!(strip_opt_rdata(&with_opt(&[])).is_none());
    assert!(strip_edns_ecs(&query()).is_none());
}

#[test]
fn subnets_are_injected() {
    let subnet = EcsSubnet { addr: IpAddr::V6(0x2001_0db8 << 96), prefix_len: 32 };
    let option = [0, 8, 0, 8, 0, 2, 32, 0, 0x20, 0x01, 0x0d, 0xb8];
    assert_eq!(inject_or_replace_ecs(&query(), &subnet), Some(with_opt(&option)));
    assert_eq!(inject_or_replace_ecs(&with_opt(&[]), &subnet), Some(with_opt(&option)));
    assert_eq!(inject_or_replace_ecs(&[0; 5], &subnet), None);
}

#[test]
fn long_replies_are_truncated_for_udp() {
    let mut reply = query();
    reply[2] |= 0x80;
    assert_eq!(maybe_truncate_for_udp(reply.clone(), &query()), reply);
    reply.resize(600, 0);
    let short = maybe_truncate_for_udp(reply.clone(), &query());
    assert!(is_truncated(&short));
    assert_eq!(short.len(), 22);
    // A query that announces 1232 bytes takes it whole.
    assert_eq!(maybe_truncate_for_udp(reply.clone(), &with_opt(&[])), reply);
}

#[test]
fn arena_hands_out_what_was_written() {
    let mut arena = ResponseArena::new(4096);
    arena.write(&[1, 2]);
    arena.write(&[3]);
    assert_eq!(arena.buf(), &[1, 2, 3]);
    let first = arena.take();
    assert_eq!(&first[..], &[1, 2, 3]);
    assert_eq!(arena.buf().len(), 0);
    for n in 0..50u8 {
        arena.write(&[n; 100]);
        let part = arena.take();
        assert_eq!(&part[..], &[n; 100]);
    }
    assert_eq!(&first[..], &[1, 2, 3]);
}
