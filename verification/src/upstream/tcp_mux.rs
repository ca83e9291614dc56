//! One connection that carries many queries: when to connect, how frames are written together, and
//! which frames are taken.

use crate::dns::be16_bytes;
use crate::outside::{buffer_slice, clear_buffer, extend_buffer, held_bytes};
use crate::upstream::framed;
use bytes::BytesMut;
use vstd::prelude::*;
use vstd::wrapping::u64_specs;

verus! {

/// Frames are written together up to about this many bytes.
pub const MAX_WRITE_BATCH_BYTES: usize = 65536;

/// Least time between two forced renewals of a connection, in milliseconds.
pub const REFRESH_COOLDOWN_MS: u64 = 30_000;

/// Longest wait between two attempts to connect, in milliseconds.
pub const MAX_BACKOFF_MS: u64 = 5_000;

/// The wait after so many failed attempts to connect in a row: it doubles from a tenth of a second
/// up to five seconds.
pub open spec fn backoff_of(failures: u32) -> u64 {
    if failures == 0 {
        50
    } else if failures == 1 {
        100
    } else if failures == 2 {
        200
    } else if failures == 3 {
        400
    } else if failures == 4 {
        800
    } else if failures == 5 {
        1600
    } else if failures == 6 {
        3200
    } else {
        MAX_BACKOFF_MS
    }
}

/// The wait after so many failed attempts to connect in a row, in milliseconds.
pub fn reconnect_backoff_ms(failures: u32) -> (r: u64)
    ensures
        r == backoff_of(failures),
{
    let shift: u32 = if failures < 7 {
        failures
    } else {
        7
    };
    let wait: u64 = 50u64 << shift;
    assert(50u64 << 0u32 == 50 && 50u64 << 1u32 == 100 && 50u64 << 2u32 == 200 && 50u64 << 3u32
        == 400 && 50u64 << 4u32 == 800 && 50u64 << 5u32 == 1600 && 50u64 << 6u32 == 3200 && 50u64
        << 7u32 == 6400) by (bit_vector);
    if wait < MAX_BACKOFF_MS {
        wait
    } else {
        MAX_BACKOFF_MS
    }
}

/// When the connection may be made.
#[derive(Clone, Copy, Debug, PartialEq, Eq, Structural)]
pub struct Reconnect {
    /// No attempt before this time, in milliseconds.
    pub not_before_ms: u64,
    /// Failed attempts in a row.
    pub fail_count: u32,
    /// Number of the connection. Whoever serves an older one has to leave.
    pub generation: u64,
}

impl Reconnect {
    pub fn new() -> (r: Self)
        ensures
            r == (Reconnect { not_before_ms: 0, fail_count: 0, generation: 0 }),
    {
        Reconnect { not_before_ms: 0, fail_count: 0, generation: 0 }
    }

    /// The wait before the next attempt at `now_ms`.
    pub open spec fn waits(self, now_ms: u64) -> Option<u64> {
        if now_ms < self.not_before_ms {
            Some((self.not_before_ms - now_ms) as u64)
        } else {
            None
        }
    }

    /// The state after the connection was made.
    pub open spec fn connected(self) -> Reconnect {
        Reconnect {
            not_before_ms: 0,
            fail_count: 0,
            generation: u64_specs::wrapping_add(self.generation, 1),
        }
    }

    /// The state after an attempt failed at `now_ms`.
    pub open spec fn failed(self, now_ms: u64) -> Reconnect {
        Reconnect {
            not_before_ms: (now_ms + backoff_of((self.fail_count + 1) as u32)) as u64,
            fail_count: (self.fail_count + 1) as u32,
            generation: self.generation,
        }
    }

    /// How long to wait before the next attempt; `None` when it may be made now.
    pub fn wait_ms(&self, now_ms: u64) -> (r: Option<u64>)
        ensures
            r == self.waits(now_ms),
    {
        if now_ms < self.not_before_ms {
            Some(self.not_before_ms - now_ms)
        } else {
            None
        }
    }

    /// The connection was made; returns its number.
    pub fn on_connected(&mut self) -> (r: u64)
        ensures
            *final(self) == old(self).connected(),
            r == final(self).generation,
    {
        self.fail_count = 0;
        self.not_before_ms = 0;
        self.generation = self.generation.wrapping_add(1);
        self.generation
    }

    /// The attempt failed at `now_ms`: the next one has to wait.
    pub fn on_failed(&mut self, now_ms: u64)
        requires
            old(self).fail_count < u32::MAX,
            now_ms + MAX_BACKOFF_MS <= u64::MAX,
        ensures
            *final(self) == old(self).failed(now_ms),
    {
        self.fail_count = self.fail_count + 1;
        self.not_before_ms = now_ms + reconnect_backoff_ms(self.fail_count);
    }

    /// Whether the connection numbered `mine` is still the current one, so that it may be torn
    /// down.
    pub fn is_current(&self, mine: u64) -> (r: bool)
        ensures
            r == (self.generation == mine),
    {
        self.generation == mine
    }
}

/// A frame of this length is taken: a whole header, and no more than the limit where there is one.
pub open spec fn frame_taken(len: int, max_response_bytes: usize) -> bool {
    len >= 12 && (max_response_bytes == 0 || len <= max_response_bytes)
}

/// Whether a frame of this length is taken; any other ends the connection.
pub fn frame_length_ok(len: usize, max_response_bytes: usize) -> (r: bool)
    ensures
        r == frame_taken(len as int, max_response_bytes),
{
    !(len < 12 || (max_response_bytes > 0 && len > max_response_bytes))
}

/// Frames one behind the other.
pub open spec fn all_framed(packets: Seq<Vec<u8>>) -> Seq<u8>
    decreases packets.len(),
{
    if packets.len() == 0 {
        Seq::empty()
    } else {
        all_framed(packets.drop_last()) + framed(packets.last()@)
    }
}

/// How many of the waiting messages are written together: one after the other until the batch is
/// full.
pub open spec fn batched(packets: Seq<Vec<u8>>, n: int) -> int
    decreases packets.len() - n,
{
    if n >= packets.len() || n < 0 {
        packets.len() as int
    } else if n > 0 && all_framed(packets.take(n)).len() >= MAX_WRITE_BATCH_BYTES {
        n
    } else {
        batched(packets, n + 1)
    }
}

/// Appends a frame.
pub fn push_framed(buf: &mut BytesMut, packet: &[u8])
    requires
        packet@.len() <= u16::MAX,
        held_bytes(*old(buf)).len() + packet@.len() + 2 <= isize::MAX,
    ensures
        held_bytes(*final(buf)) == held_bytes(*old(buf)) + framed(packet@),
{
    let len: u16 = packet.len() as u16;
    let prefix: [u8; 2] = [(len / 256) as u8, (len % 256) as u8];
    let ghost before = held_bytes(*buf);
    extend_buffer(buf, prefix.as_slice());
    extend_buffer(buf, packet);
    proof {
        assert(prefix@ =~= be16_bytes(packet@.len() as u16));
        assert(held_bytes(*buf) =~= before + framed(packet@));
    }
}

/// Puts the waiting messages, as many as are written together, into the buffer as frames. Returns
/// how many.
pub fn coalesce(buf: &mut BytesMut, packets: &Vec<Vec<u8>>) -> (r: usize)
    requires
        forall|i: int| 0 <= i < packets@.len() ==> (#[trigger] packets@[i])@.len() <= u16::MAX,
    ensures
        r == batched(packets@, 0),
        r <= packets@.len(),
        held_bytes(*final(buf)) == all_framed(packets@.take(r as int)),
{
    clear_buffer(buf);
    let mut n: usize = 0;
    proof {
        assert(packets@.take(0).len() == 0);
    }
    while n < packets.len()
        invariant
            n <= packets@.len(),
            forall|i: int| 0 <= i < packets@.len() ==> (#[trigger] packets@[i])@.len() <= u16::MAX,
            held_bytes(*buf) == all_framed(packets@.take(n as int)),
            batched(packets@, 0) == batched(packets@, n as int),
        decreases packets@.len() - n,
    {
        if n > 0 && buffer_slice(buf).len() >= MAX_WRITE_BATCH_BYTES {
            return n;
        }
        proof {
            assert(packets@.take(n + 1).drop_last() =~= packets@.take(n as int));
            assert(packets@.take(n + 1).last() == packets@[n as int]);
            assert(packets@.take(0).len() == 0);
        }
        push_framed(buf, packets[n].as_slice());
        n += 1;
    }
    n
}

// What a stream carries.

/// The wait between attempts to connect starts at a twentieth of a second and doubles with every
/// failure up to five seconds.
pub proof fn law_backoff_doubles(failures: u32)
    ensures
        backoff_of(0) == 50,
        failures < u32::MAX && backoff_of(failures) <= 2_500 ==> backoff_of((failures + 1) as u32)
            == 2 * backoff_of(failures),
        failures < u32::MAX && backoff_of(failures) > 2_500 ==> backoff_of((failures + 1) as u32)
            == 5_000,
{
}

/// A frame is taken exactly when it can hold a header and is no longer than the limit; a limit of
/// zero is none.
pub proof fn law_frames_have_bounds(len: int, limit: usize)
    ensures
        len < 12 ==> !frame_taken(len, limit),
        limit > 0 && len > limit ==> !frame_taken(len, limit),
        12 <= len <= limit ==> frame_taken(len, limit),
        12 <= len ==> frame_taken(len, 0),
{
}

/// Frames follow one another without a gap: the bytes of one more message are its length in two
/// bytes and the message.
pub proof fn law_frames_follow_one_another(packets: Seq<Vec<u8>>, more: Vec<u8>)
    ensures
        all_framed(packets.push(more)) == all_framed(packets) + seq![
            (more@.len() as u16 / 256) as u8,
            (more@.len() as u16 % 256) as u8,
        ] + more@,
        all_framed(Seq::empty()) == Seq::<u8>::empty(),
{
    assert(packets.push(more).drop_last() =~= packets);
    assert(packets.push(more).last() == more);
    assert(all_framed(packets.push(more)) =~= all_framed(packets) + seq![
        (more@.len() as u16 / 256) as u8,
        (more@.len() as u16 % 256) as u8,
    ] + more@);
}

/// A batch takes at least one waiting message, stops at the first that fills it, and takes all
/// where none does.
pub proof fn law_batch_stops_when_full(packets: Seq<Vec<u8>>, from: int, k: int)
    requires
        0 <= from <= packets.len(),
    ensures
        from <= batched(packets, from) <= packets.len(),
        from == 0 && packets.len() > 0 ==> batched(packets, from) >= 1,
        batched(packets, from) < packets.len() ==> all_framed(
            packets.take(batched(packets, from)),
        ).len() >= 65536,
        from <= k < batched(packets, from) && k > 0 ==> all_framed(packets.take(k)).len() < 65536,
    decreases packets.len() - from,
{
    if from < packets.len() && !(from > 0 && all_framed(packets.take(from)).len() >= 65536) {
        law_batch_stops_when_full(packets, from + 1, k);
    }
}

/// After a failed attempt the next one waits as long as the failures in a row call for, and no
/// longer. A connection ends the run of failures, lets the next attempt be made at once, and has a
/// number of its own.
pub proof fn law_failures_make_attempts_wait(c: Reconnect, now_ms: u64, then: u64)
    requires
        c.fail_count < u32::MAX,
        now_ms + 5_000 <= u64::MAX,
    ensures
        c.failed(now_ms).waits(now_ms) == Some(backoff_of((c.fail_count + 1) as u32)),
        then >= now_ms + 5_000 ==> c.failed(now_ms).waits(then) is None,
        c.failed(now_ms).fail_count == c.fail_count + 1,
        c.failed(now_ms).generation == c.generation,
        c.connected().waits(then) is None,
        c.connected().fail_count == 0,
        c.connected().generation != c.generation,
        c.generation < u64::MAX ==> c.connected().generation == c.generation + 1,
{
}

} // verus!
