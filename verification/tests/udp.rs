use pathdns::config::UdpDiagnostics;
use pathdns::dns::parse_query_fast;
use pathdns::querylog::QueryLogCounters;
use pathdns::sys::{
    align_up, parse_control, read_sockaddr_bytes, read_timespec, recv_latency_us, rmem_pct,
    write_sockaddr, SockAddr, Timespec,
};
use pathdns::udp_recv::{
    control_len, fold_control, on_no_permit, process_batch, read_again, record_drain, record_rmem,
    Datagram, DrainStats,
};
use pathdns::udp_send::{
    batch_fits, chunk_end, clamp_batch, drain_step, first_unsent, flush_progress, flush_step,
    keep_unsent, pending_send_batch_len, record_send_failure, single_step, FlushStep, SendOutcome,
    SingleSend, PENDING_SEND_CAP,
};
use pathdns::udp_uring::{on_completion, Completion, Message, ProvidedBufRing, RingError};
use std::collections::VecDeque;
use std::mem;

const LOCAL4: SockAddr = SockAddr::V4(0x7f00_0001, 5353);
const LOCAL6: SockAddr = SockAddr::V6(1, 5353, 0, 0);

#[test]
fn sockaddr_bytes_roundtrip() {
    for address in [LOCAL4, LOCAL6] {
        let bytes = write_sockaddr(address);
        assert_eq!(read_sockaddr_bytes(&bytes), Some(address));
    }
}

#[test]
fn sockaddr_roundtrip_v4() {
    let bytes = write_sockaddr(LOCAL4);
    assert_eq!(bytes.len(), mem::size_of::<libc::sockaddr_in>());
    assert_eq!(bytes, vec![2, 0, 0x14, 0xe9, 127, 0, 0, 1, 0, 0, 0, 0, 0, 0, 0, 0]);
    assert_eq!(read_sockaddr_bytes(&bytes), Some(LOCAL4));
}

#[test]
fn sockaddr_roundtrip_v6() {
    let bytes = write_sockaddr(LOCAL6);
    assert_eq!(bytes.len(), mem::size_of::<libc::sockaddr_in6>());
    assert_eq!(&bytes[..4], &[10, 0, 0x14, 0xe9]);
    assert_eq!(bytes[23], 1);
    assert_eq!(read_sockaddr_bytes(&bytes), Some(LOCAL6));
    assert_eq!(read_sockaddr_bytes(&bytes[..20]), None);
    assert_eq!(read_sockaddr_bytes(&[7, 7]), None);
}

#[test]
fn send_batch_rejects_capacity_overflow_before_syscall() {
    assert!(!batch_fits(2, 1));
    assert!(batch_fits(1, 1));
}

#[test]
fn pending_send_batch_respects_hot_reloaded_limit() {
    assert_eq!(pending_send_batch_len(200, 64, 64), 64);
    assert_eq!(pending_send_batch_len(200, 1, 64), 1);
    assert_eq!(pending_send_batch_len(4, 32, 64), 4);
}

#[test]
fn recv_latency_clamps_negative_skew_to_zero() {
    let a = Timespec { secs: 100, nanos: 0 };
    let b = Timespec { secs: 100, nanos: 500_000 }; // 500µs later than `a`
    assert_eq!(recv_latency_us(&b, &a), 500);
    assert_eq!(recv_latency_us(&a, &b), 0); // now < ts → clamped
    let earliest = Timespec { secs: i64::MIN, nanos: 0 };
    let latest = Timespec { secs: i64::MAX, nanos: 999_999_999 };
    assert_eq!(recv_latency_us(&latest, &earliest), u32::MAX);
}

#[test]
fn invalid_buffer_ring_config_returns_error_instead_of_panicking() {
    assert!(ProvidedBufRing::new(0, 256).is_err());
    assert!(ProvidedBufRing::new(7, 256).is_err());
    assert!(ProvidedBufRing::new(8, 0).is_err());
}

#[test]
fn malformed_control_messages_are_ignored() {
    let mut short = vec![0u8; mem::size_of::<libc::cmsghdr>()];
    assert!(parse_control(&short).rxq_overflow.is_none());

    short[..mem::size_of::<usize>()].copy_from_slice(&usize::MAX.to_ne_bytes());
    let parsed = parse_control(&short);
    assert!(parsed.rxq_overflow.is_none());
    assert!(parsed.timestamp.is_none());
}

/// A control message of the socket level.
fn control_message(kind: i32, payload: &[u8]) -> Vec<u8> {
    let header_len = align_up(
        mem::size_of::<libc::cmsghdr>(),
        mem::align_of::<libc::cmsghdr>(),
    );
    let cmsg_len = header_len + payload.len();
    let mut control = vec![0u8; align_up(cmsg_len, mem::align_of::<libc::cmsghdr>())];
    control[..mem::size_of::<usize>()].copy_from_slice(&cmsg_len.to_ne_bytes());
    let level_offset = mem::size_of::<usize>();
    control[level_offset..level_offset + mem::size_of::<libc::c_int>()]
        .copy_from_slice(&libc::SOL_SOCKET.to_ne_bytes());
    let type_offset = level_offset + mem::size_of::<libc::c_int>();
    control[type_offset..type_offset + mem::size_of::<libc::c_int>()]
        .copy_from_slice(&kind.to_ne_bytes());
    control[header_len..cmsg_len].copy_from_slice(payload);
    control
}

#[test]
fn parses_rxq_overflow_control_message_without_raw_pointers() {
    let control = control_message(libc::SO_RXQ_OVFL, &42u32.to_ne_bytes());
    assert_eq!(parse_control(&control).rxq_overflow, Some(42));
}

#[test]
fn parses_both_control_messages() {
    let mut stamp = 100i64.to_ne_bytes().to_vec();
    stamp.extend_from_slice(&7i64.to_ne_bytes());
    assert_eq!(read_timespec(&stamp), Some(Timespec { secs: 100, nanos: 7 }));
    assert_eq!(read_timespec(&stamp[..15]), None);
    let mut control = control_message(libc::SCM_TIMESTAMPNS, &stamp);
    control.extend(control_message(libc::SO_RXQ_OVFL, &3u32.to_ne_bytes()));
    let parsed = parse_control(&control);
    assert_eq!(parsed.timestamp, Some(Timespec { secs: 100, nanos: 7 }));
    assert_eq!(parsed.rxq_overflow, Some(3));
    let mut stats = DrainStats::default();
    fold_control(&mut stats, &control, &Timespec { secs: 100, nanos: 5_007 });
    assert_eq!(stats.recv_lat_us, 5);
    assert_eq!(stats.rx_overflow, Some(3));
}

#[test]
fn ring_errors_are_told_apart() {
    assert_eq!(ProvidedBufRing::new(7, 256).err(), Some(RingError::NotPowerOfTwo));
    assert_eq!(ProvidedBufRing::new(8, 0).err(), Some(RingError::EmptyBuffer));
    assert_eq!(
        ProvidedBufRing::new(8, usize::MAX).err(),
        Some(RingError::BufferTooLarge)
    );
}

#[test]
fn buffers_do_not_overlap() {
    let mut ring = ProvidedBufRing::new(4, 100).ok().unwrap();
    assert!((0..4).all(|b| ring.slice(b, 100) == [0u8; 100]));
    ring.init();
    let places: Vec<Option<usize>> = (0..5).map(|b| ring.buf_addr(b)).collect();
    assert_eq!(places, vec![Some(0), Some(100), Some(200), Some(300), None]);
    assert_eq!(ring.slice(2, 60).len(), 60);
    assert_eq!(ring.slice(2, 600).len(), 100);
    ring.put(1);
    ring.publish();
    ring.init();
    assert_eq!(ring.slice(3, 100).len(), 100);
}

#[test]
fn completions_say_what_to_do() {
    let now = Timespec { secs: 1, nanos: 0 };
    let mut stats = DrainStats::default();
    let good = Completion {
        more: true,
        bid: Some(3),
        result: 50,
        message: Some(Message {
            name: write_sockaddr(LOCAL4),
            control: Vec::new(),
            payload: vec![1, 2, 3],
            truncated: false,
        }),
    };
    let step = on_completion(&good, &now, &mut stats);
    assert!(!step.rearm);
    assert_eq!(step.recycle, Some(3));
    assert_eq!(step.process, Some(LOCAL4));
    assert_eq!(stats.packets, 1);
    let failed = Completion { more: false, bid: None, result: -105, message: None };
    let step = on_completion(&failed, &now, &mut stats);
    assert!(step.rearm);
    assert_eq!(step.process, None);
    assert_eq!(stats.packets, 1);
}

#[test]
fn truncated_datagrams_are_counted_not_processed() {
    let now = Timespec { secs: 1, nanos: 0 };
    let batch = vec![
        Datagram { peer: Some(LOCAL4), payload: Some(vec![1]), control: Vec::new() },
        Datagram { peer: Some(LOCAL4), payload: None, control: Vec::new() },
        Datagram { peer: None, payload: Some(vec![1]), control: Vec::new() },
    ];
    let (stats, process) = process_batch(&batch, UdpDiagnostics::Full, &now);
    assert_eq!(process, vec![0]);
    assert_eq!(stats.truncated, 1);
    let mut counters = QueryLogCounters::new();
    record_drain(&mut counters, &stats, 0);
    assert_eq!(counters.udp_truncated, 1);
    let seen = record_drain(
        &mut counters,
        &DrainStats { packets: 1, truncated: 0, rx_overflow: Some(9), recv_lat_us: 4 },
        2,
    );
    assert_eq!(seen, 9);
    assert_eq!(counters.udp_rx_overflow, 7);
    record_rmem(&mut counters, 40);
    record_rmem(&mut counters, 30);
    assert_eq!(counters.udp_rmem_pct_acc, 40);
    assert_eq!(rmem_pct(50, 200), Some(25));
    assert_eq!(rmem_pct(50, 0), None);
    assert_eq!(control_len(UdpDiagnostics::Off), 0);
    assert!(read_again(32, 32));
    assert!(!read_again(31, 32));
}

#[test]
fn query_without_a_place_is_refused() {
    let query = [0, 7, 1, 0, 0, 1, 0, 0, 0, 0, 0, 0, 1, b'a', 0, 0, 1, 0, 1];
    let info = parse_query_fast(&query).unwrap();
    let mut counters = QueryLogCounters::new();
    let reply = on_no_permit(&query, &info, 0, false, &mut counters).unwrap();
    assert_eq!(reply[3] & 15, 2);
    assert_eq!(counters.inflight_drops, 1);
    assert!(on_no_permit(&query, &info, 50, true, &mut counters).is_none());
}

#[test]
fn replies_that_do_not_go_out_wait() {
    let mut counters = QueryLogCounters::new();
    let mut pending = VecDeque::new();
    let unsent: Vec<_> = (0..PENDING_SEND_CAP + 3).map(|n| (vec![n as u8], LOCAL4)).collect();
    keep_unsent(&mut pending, unsent, &mut counters);
    assert_eq!(pending.len(), PENDING_SEND_CAP);
    assert_eq!(counters.udp_send_drops, 3);
    assert!(drain_step(&mut pending, 10, SendOutcome::Sent(10), &mut counters));
    assert_eq!(pending.len(), PENDING_SEND_CAP - 10);
    assert!(!drain_step(&mut pending, 10, SendOutcome::WouldBlock, &mut counters));
    assert_eq!(pending.len(), PENDING_SEND_CAP - 10);
    drain_step(&mut pending, 10, SendOutcome::Failed, &mut counters);
    assert_eq!(counters.udp_send_errors, 1);
}

#[test]
fn flushing_goes_chunk_by_chunk() {
    let mut counters = QueryLogCounters::new();
    assert_eq!(chunk_end(0, 32, 40), 32);
    assert_eq!(chunk_end(32, 32, 40), 40);
    assert_eq!(flush_step(0, 32, SendOutcome::Sent(32), &mut counters), FlushStep::Next(32));
    assert_eq!(flush_step(0, 32, SendOutcome::WouldBlock, &mut counters), FlushStep::Keep(0));
    assert_eq!(clamp_batch(0), 1);
    assert_eq!(clamp_batch(1000), 64);
    assert_eq!(first_unsent(SendOutcome::Sent(4)), 4);
    assert_eq!(first_unsent(SendOutcome::WouldBlock), 0);
    assert_eq!(first_unsent(SendOutcome::Failed), 1);
    assert_eq!(flush_progress(3, 10, SendOutcome::Sent(2), &mut counters), Some(5));
    assert_eq!(flush_progress(8, 10, SendOutcome::Sent(2), &mut counters), None);
    assert!(!single_step(5, SingleSend::Bytes(5), &mut counters));
    assert_eq!(counters.udp_send_errors, 0);
    assert!(single_step(5, SingleSend::WouldBlock, &mut counters));
    assert!(!single_step(5, SingleSend::Bytes(4), &mut counters));
    assert_eq!(counters.udp_send_errors, 1);
    assert_eq!(counters.udp_send_drops, 1);
    record_send_failure(&mut counters);
    assert_eq!(counters.udp_send_errors, 2);
    assert_eq!(counters.udp_send_drops, 2);
}
