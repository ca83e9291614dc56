//! A ring of receive buffers that are handed to the kernel one by one and recycled, and the
//! completions that come back.

use crate::sys::{read_sockaddr_bytes, sockaddr_of, SockAddr, Timespec};
use crate::udp_recv::{fold_control, with_control, DrainStats};
use vstd::prelude::*;
use vstd::slice::slice_subrange;

verus! {

/// Why a ring could not be made.
#[derive(Clone, Copy, Debug, PartialEq, Eq, Structural)]
pub enum RingError {
    /// The number of buffers is no power of two.
    NotPowerOfTwo,
    /// The buffers have no room.
    EmptyBuffer,
    /// A buffer is longer than 32 bits can say.
    BufferTooLarge,
    /// The buffers together are too large.
    Overflow,
}

/// A power of two that fits in 16 bits.
pub open spec fn is_power_of_two(n: u16) -> bool {
    n == 1 || n == 2 || n == 4 || n == 8 || n == 16 || n == 32 || n == 64 || n == 128 || n == 256
        || n == 512 || n == 1024 || n == 2048 || n == 4096 || n == 8192 || n == 16384 || n == 32768
}

/// The ring: which buffer stands in which slot, and the bytes of the buffers.
pub struct ProvidedBufRing {
    entries: u16,
    mask: u16,
    tail: u16,
    /// The tail that the kernel sees.
    shared_tail: u16,
    /// Number of the buffer in each slot.
    slots: Vec<u16>,
    bufs: Vec<u8>,
    buf_len: usize,
}

impl ProvidedBufRing {
    pub closed spec fn wf(self) -> bool {
        &&& is_power_of_two(self.entries)
        &&& self.mask == self.entries - 1
        &&& self.slots@.len() == self.entries
        &&& self.buf_len > 0
        &&& self.bufs@.len() == self.entries * self.buf_len
    }

    /// Number of buffers.
    pub closed spec fn count(self) -> u16 {
        self.entries
    }

    /// Length of each buffer.
    pub closed spec fn buffer_len(self) -> nat {
        self.buf_len as nat
    }

    /// Buffers put in so far; the number wraps around.
    pub closed spec fn staged(self) -> u16 {
        self.tail
    }

    /// Buffers that the kernel knows of.
    pub closed spec fn visible(self) -> u16 {
        self.shared_tail
    }

    /// The buffers in the slots.
    pub closed spec fn in_slots(self) -> Seq<u16> {
        self.slots@
    }

    /// The bytes of all buffers, one behind the other.
    pub closed spec fn bytes(self) -> Seq<u8> {
        self.bufs@
    }

    /// A ring of `entries` buffers of `buf_len` bytes each, all zero, with none of them handed out
    /// yet.
    pub fn new(entries: u16, buf_len: usize) -> (r: Result<Self, RingError>)
        ensures
            match r {
                Ok(ring) => {
                    &&& is_power_of_two(entries)
                    &&& 0 < buf_len <= u32::MAX
                    &&& entries * buf_len <= usize::MAX
                    &&& ring.wf()
                    &&& ring.count() == entries
                    &&& ring.buffer_len() == buf_len
                    &&& ring.staged() == 0
                    &&& ring.visible() == 0
                    &&& ring.in_slots() == Seq::new(entries as nat, |i: int| 0u16)
                    &&& ring.bytes() == Seq::new((entries * buf_len) as nat, |i: int| 0u8)
                },
                Err(RingError::NotPowerOfTwo) => !is_power_of_two(entries),
                Err(RingError::EmptyBuffer) => is_power_of_two(entries) && buf_len == 0,
                Err(RingError::BufferTooLarge) => is_power_of_two(entries) && buf_len > u32::MAX,
                Err(RingError::Overflow) => is_power_of_two(entries) && 0 < buf_len <= u32::MAX
                    && entries * buf_len > usize::MAX,
            },
    {
        if entries == 0 {
            return Err(RingError::NotPowerOfTwo);
        }
        let below: u16 = entries - 1;
        assert(entries & below == 0 <==> is_power_of_two(entries)) by (bit_vector)
            requires
                entries > 0,
                below == entries - 1,
        ;
        if entries & below != 0 {
            return Err(RingError::NotPowerOfTwo);
        }
        if buf_len == 0 {
            return Err(RingError::EmptyBuffer);
        }
        if buf_len as u64 > 0xffff_ffff {
            return Err(RingError::BufferTooLarge);
        }
        let backing_len: usize = match (entries as usize).checked_mul(buf_len) {
            Some(n) => n,
            None => {
                return Err(RingError::Overflow);
            },
        };
        let slots: Vec<u16> = vec![0u16; entries as usize];
        let bufs: Vec<u8> = vec![0u8; backing_len];
        proof {
            assert(slots@ =~= Seq::new(entries as nat, |i: int| 0u16));
            assert(bufs@ =~= Seq::new((entries * buf_len) as nat, |i: int| 0u8));
        }
        Ok(
            ProvidedBufRing {
                entries,
                mask: below,
                tail: 0,
                shared_tail: 0,
                slots,
                bufs,
                buf_len,
            },
        )
    }

    /// Where a buffer starts; `None` for a number that no buffer has.
    pub fn buf_addr(&self, bid: u16) -> (r: Option<usize>)
        requires
            self.wf(),
        ensures
            r == (if bid < self.count() {
                Some((bid * self.buffer_len()) as usize)
            } else {
                None
            }),
    {
        assert(self.bufs.len() == self.bufs@.len());
        proof {
            lemma_buffer_place(bid, self.entries, self.buf_len as int);
        }
        let offset: usize = match (bid as usize).checked_mul(self.buf_len) {
            Some(o) => o,
            None => {
                return None;
            },
        };
        if offset < self.bufs.len() {
            Some(offset)
        } else {
            None
        }
    }

    /// Puts a buffer into the next slot, still unseen by the kernel. A number that no buffer has
    /// is ignored.
    pub fn put(&mut self, bid: u16)
        requires
            old(self).wf(),
        ensures
            final(self).wf(),
            final(self).count() == old(self).count(),
            final(self).buffer_len() == old(self).buffer_len(),
            final(self).bytes() == old(self).bytes(),
            final(self).visible() == old(self).visible(),
            if bid < old(self).count() {
                &&& final(self).in_slots() == old(self).in_slots().update(
                    (old(self).staged() % old(self).count()) as int,
                    bid,
                )
                &&& final(self).staged() == (old(self).staged() + 1) % 0x1_0000
            } else {
                &&& final(self).in_slots() == old(self).in_slots()
                &&& final(self).staged() == old(self).staged()
            },
    {
        if self.buf_addr(bid).is_none() {
            return;
        }
        let slot: usize = (self.tail & self.mask) as usize;
        proof {
            lemma_mask_is_remainder(self.tail, self.entries, self.mask);
        }
        self.slots.set(slot, bid);
        self.tail = self.tail.wrapping_add(1);
    }

    /// Shows the kernel everything put in so far.
    pub fn publish(&mut self)
        requires
            old(self).wf(),
        ensures
            final(self).wf(),
            final(self).count() == old(self).count(),
            final(self).buffer_len() == old(self).buffer_len(),
            final(self).bytes() == old(self).bytes(),
            final(self).in_slots() == old(self).in_slots(),
            final(self).staged() == old(self).staged(),
            final(self).visible() == old(self).staged(),
    {
        self.shared_tail = self.tail;
    }

    /// Puts every buffer into the ring, one behind the other from the next slot on, and shows them
    /// all to the kernel. In a fresh ring each comes into the slot of its number.
    pub fn init(&mut self)
        requires
            old(self).wf(),
        ensures
            final(self).wf(),
            final(self).count() == old(self).count(),
            final(self).buffer_len() == old(self).buffer_len(),
            final(self).bytes() == old(self).bytes(),
            final(self).in_slots().len() == old(self).count(),
            forall|bid: int|
                0 <= bid < old(self).count() ==> final(self).in_slots()[#[trigger] slot_of(
                    old(self).staged() as int,
                    bid,
                    old(self).count() as int,
                )] == bid,
            final(self).staged() == (old(self).staged() + old(self).count()) % 0x1_0000,
            final(self).visible() == final(self).staged(),
            old(self).staged() == 0 ==> final(self).in_slots() == Seq::new(
                old(self).count() as nat,
                |i: int| i as u16,
            ),
    {
        let mut bid: u16 = 0;
        let n: u16 = self.entries;
        let ghost start = self.staged() as int;
        while bid < n
            invariant
                bid <= n,
                n <= 32768,
                self.wf(),
                self.count() == n,
                n == old(self).count(),
                self.buffer_len() == old(self).buffer_len(),
                self.bytes() == old(self).bytes(),
                start == old(self).staged(),
                self.staged() == (start + bid) % 0x1_0000,
                self.in_slots().len() == n,
                forall|i: int|
                    0 <= i < bid ==> self.in_slots()[#[trigger] slot_of(start, i, n as int)] == i,
            decreases n - bid,
        {
            let ghost slots = self.in_slots();
            proof {
                lemma_slot(start, bid as int, n);
                assert forall|i: int| 0 <= i < bid implies #[trigger] slot_of(start, i, n as int)
                    != slot_of(start, bid as int, n as int) by {
                    lemma_slots_differ(start, i, bid as int, n as int);
                }
                assert forall|i: int| 0 <= i < n implies 0 <= #[trigger] slot_of(
                    start,
                    i,
                    n as int,
                ) < n by {
                    vstd::arithmetic::div_mod::lemma_mod_bound(start + i, n as int);
                }
            }
            self.put(bid);
            bid += 1;
            proof {
                vstd::arithmetic::div_mod::lemma_add_mod_noop(
                    start + bid - 1,
                    1,
                    0x1_0000,
                );
            }
        }
        self.publish();
        proof {
            if start == 0 {
                assert forall|i: int| 0 <= i < n implies self.in_slots()[i] == i as u16 by {
                    vstd::arithmetic::div_mod::lemma_small_mod(i as nat, n as nat);
                    assert(slot_of(start, i, n as int) == i);
                }
                assert(self.in_slots() =~= Seq::new(n as nat, |i: int| i as u16));
            }
        }
    }

    /// The first bytes of a buffer; none for a number that no buffer has.
    pub fn slice(&self, bid: u16, len: usize) -> (r: &[u8])
        requires
            self.wf(),
        ensures
            r@ == (if bid < self.count() {
                let n = if len <= self.buffer_len() {
                    len as int
                } else {
                    self.buffer_len() as int
                };
                self.bytes().subrange(
                    bid * self.buffer_len(),
                    bid * self.buffer_len() + n,
                )
            } else {
                Seq::empty()
            }),
    {
        proof {
            lemma_buffer_place(bid, self.entries, self.buf_len as int);
        }
        match self.buf_addr(bid) {
            Some(start) => {
                let n: usize = if len <= self.buf_len {
                    len
                } else {
                    self.buf_len
                };
                assert(self.bufs.len() == self.bufs@.len());
                slice_subrange(self.bufs.as_slice(), start, start + n)
            },
            None => slice_subrange(self.bufs.as_slice(), 0, 0),
        }
    }
}

/// The slot that buffer number `bid` comes into when the buffers are put in one behind the other
/// after `staged` earlier ones.
pub open spec fn slot_of(staged: int, bid: int, count: int) -> int {
    (staged + bid) % count
}

/// That the count of buffers put in wraps around makes no difference to the slot.
proof fn lemma_slot(start: int, bid: int, n: u16)
    requires
        is_power_of_two(n),
        0 <= start,
        0 <= bid,
    ensures
        (start + bid) % 0x1_0000 % (n as int) == slot_of(start, bid, n as int),
{
    let times: int = 0x1_0000int / n as int;
    assert(n * times == 0x1_0000) by {
        let m = n as u32;
        assert(m * (0x1_0000u32 / m) == 0x1_0000) by (bit_vector)
            requires
                m == 1 || m == 2 || m == 4 || m == 8 || m == 16 || m == 32 || m == 64 || m == 128
                    || m == 256 || m == 512 || m == 1024 || m == 2048 || m == 4096 || m == 8192 || m
                    == 16384 || m == 32768,
        ;
    }
    vstd::arithmetic::div_mod::lemma_mod_mod(start + bid, n as int, times);
}

proof fn lemma_slots_differ(start: int, i: int, j: int, n: int)
    requires
        0 <= i < j < n,
    ensures
        slot_of(start, i, n) != slot_of(start, j, n),
{
    vstd::arithmetic::div_mod::lemma_mod_equivalence(start + j, start + i, n);
    vstd::arithmetic::div_mod::lemma_small_mod((j - i) as nat, n as nat);
}

proof fn lemma_mask_is_remainder(t: u16, n: u16, mask: u16)
    requires
        is_power_of_two(n),
        mask == n - 1,
    ensures
        t & mask == t % n,
        t & mask < n,
{
    assert(t & mask == t % n) by (bit_vector)
        requires
            mask == n - 1,
            n == 1 || n == 2 || n == 4 || n == 8 || n == 16 || n == 32 || n == 64 || n == 128 || n
                == 256 || n == 512 || n == 1024 || n == 2048 || n == 4096 || n == 8192 || n == 16384
                || n == 32768,
    ;
}

proof fn lemma_buffer_place(bid: u16, n: u16, len: int)
    requires
        len > 0,
    ensures
        bid < n ==> 0 <= bid * len && bid * len + len <= n * len,
        bid >= n ==> bid * len >= n * len,
{
    if bid < n {
        assert(bid * len + len <= n * len) by (nonlinear_arith)
            requires
                bid < n,
                len > 0,
        ;
        assert(0 <= bid * len) by (nonlinear_arith)
            requires
                len > 0,
        ;
    } else {
        assert(bid * len >= n * len) by (nonlinear_arith)
            requires
                bid >= n,
                len > 0,
        ;
    }
}

/// Two buffers never share a byte.
pub proof fn law_buffers_are_disjoint(a: u16, b: u16, len: int)
    requires
        a < b,
        len > 0,
    ensures
        a * len + len <= b * len,
{
    lemma_buffer_place(a, b, len);
}

// Completions.

/// What a completion brought.
pub struct Completion {
    /// The kernel will bring more without being asked again.
    pub more: bool,
    /// The buffer that was filled.
    pub bid: Option<u16>,
    /// Bytes written, or an error below zero.
    pub result: i32,
    /// The datagram in the buffer, when the buffer could be read.
    pub message: Option<Message>,
}

/// A datagram in a buffer.
pub struct Message {
    pub name: Vec<u8>,
    pub control: Vec<u8>,
    pub payload: Vec<u8>,
    pub truncated: bool,
}

/// What to do with a completion.
#[derive(Clone, Copy, Debug, PartialEq, Eq, Structural)]
pub struct CompletionStep {
    /// The kernel has to be asked again.
    pub rearm: bool,
    /// The buffer goes back into the ring.
    pub recycle: Option<u16>,
    /// Process the payload: it came from here.
    pub process: Option<SockAddr>,
}

/// The completion brought a datagram that can be read.
pub open spec fn brought(c: Completion) -> Option<Message> {
    if c.bid is Some && c.result > 0 {
        c.message
    } else {
        None
    }
}

/// Where a datagram to process came from.
pub open spec fn source_of(m: Message) -> Option<SockAddr> {
    if m.truncated || m.payload@.len() == 0 {
        None
    } else {
        sockaddr_of(m.name@)
    }
}

/// The figures after a completion.
pub open spec fn with_completion(s: DrainStats, c: Completion, now: Timespec) -> DrainStats {
    match brought(c) {
        Some(m) => {
            let t = with_control(s, m.control@, now);
            if m.truncated {
                DrainStats { truncated: (t.truncated + 1) as usize, ..t }
            } else if source_of(m) is Some {
                DrainStats { packets: (t.packets + 1) as usize, ..t }
            } else {
                t
            }
        },
        None => s,
    }
}

/// Where the datagram of a completion came from, when it is to be processed.
pub open spec fn to_process(c: Completion) -> Option<SockAddr> {
    match brought(c) {
        Some(m) => source_of(m),
        None => None,
    }
}

/// Takes in a completion. Its buffer, where it has one, always goes back into the ring.
pub fn on_completion(c: &Completion, now: &Timespec, stats: &mut DrainStats) -> (r: CompletionStep)
    requires
        old(stats).packets < usize::MAX,
        old(stats).truncated < usize::MAX,
    ensures
        r.rearm == !c.more,
        r.recycle == c.bid,
        r.process == to_process(*c),
        *final(stats) == with_completion(*old(stats), *c, *now),
{
    let mut process: Option<SockAddr> = None;
    if c.bid.is_some() && c.result > 0 {
        if let Some(m) = &c.message {
            fold_control(stats, m.control.as_slice(), now);
            if m.truncated {
                stats.truncated = stats.truncated + 1;
            } else if m.payload.len() > 0 {
                process = read_sockaddr_bytes(m.name.as_slice());
                if process.is_some() {
                    stats.packets = stats.packets + 1;
                }
            }
        }
    }
    CompletionStep { rearm: !c.more, recycle: c.bid, process }
}

/// A completion is processed exactly when it filled a buffer with a whole datagram of at least one
/// byte from an address that can be read; then, and only then, it counts as a datagram. One that
/// was too long counts as such and is not processed.
pub proof fn law_whole_datagrams_are_processed(c: Completion, s: DrainStats, now: Timespec)
    requires
        s.packets < usize::MAX,
        s.truncated < usize::MAX,
    ensures
        to_process(c) is Some <==> {
            &&& c.bid is Some
            &&& c.result > 0
            &&& c.message is Some
            &&& !c.message->0.truncated
            &&& c.message->0.payload@.len() > 0
            &&& sockaddr_of(c.message->0.name@) is Some
        },
        to_process(c) is Some ==> to_process(c) == sockaddr_of(c.message->0.name@),
        with_completion(s, c, now).packets == s.packets + (if to_process(c) is Some {
            1int
        } else {
            0
        }),
        with_completion(s, c, now).truncated == s.truncated + (if c.bid is Some && c.result > 0
            && c.message is Some && c.message->0.truncated {
            1int
        } else {
            0
        }),
        c.bid is None || c.result <= 0 || c.message is None ==> with_completion(s, c, now) == s,
{
}

/// A ring can have any number of buffers that divides the greatest, and no other: doubling leads
/// from one power of two to the next.
pub proof fn law_ring_sizes_double(n: u16)
    ensures
        is_power_of_two(1),
        !is_power_of_two(0),
        n <= 16384 ==> (is_power_of_two(n) <==> is_power_of_two((n + n) as u16)),
        n % 2 == 1 && n > 1 ==> !is_power_of_two(n),
{
}

/// Buffers that are put in one behind the other come into different slots.
pub proof fn law_buffers_have_their_own_slots(staged: int, a: int, b: int, count: int)
    requires
        0 <= a < b < count,
        0 <= staged,
    ensures
        slot_of(staged, a, count) != slot_of(staged, b, count),
        0 <= slot_of(staged, a, count) < count,
        staged == 0 ==> slot_of(staged, a, count) == a,
{
    let x = staged + a;
    let y = staged + b;
    vstd::arithmetic::div_mod::lemma_fundamental_div_mod(x, count);
    vstd::arithmetic::div_mod::lemma_fundamental_div_mod(y, count);
    vstd::arithmetic::div_mod::lemma_mod_bound(x, count);
    vstd::arithmetic::div_mod::lemma_mod_bound(y, count);
    if x % count == y % count {
        let p = x / count;
        let q = y / count;
        assert(false) by (nonlinear_arith)
            requires
                y - x == count * q - count * p,
                0 < y - x < count,
        ;
    }
    if staged == 0 {
        vstd::arithmetic::div_mod::lemma_small_mod(a as nat, count as nat);
    }
}

} // verus!
