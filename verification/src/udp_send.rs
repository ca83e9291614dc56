//! Sending replies in batches: what goes into the next batch, what is kept while the kernel has no
//! room, and what is dropped.

use crate::querylog::QueryLogCounters;
use crate::stats::bumped;
use crate::sys::SockAddr;
use std::collections::VecDeque;
use vstd::prelude::*;

verus! {

/// Greatest batch.
pub const MAX_BATCH: usize = 64;

/// Replies sent at once.
pub const BATCH_SIZE: usize = 32;

/// Replies kept while the kernel has no room.
pub const PENDING_SEND_CAP: usize = 256;

/// A reply and where it goes.
pub type Reply = (Vec<u8>, SockAddr);

/// How an attempt to send a batch ended.
#[derive(Clone, Copy, Debug, PartialEq, Eq, Structural)]
pub enum SendOutcome {
    /// So many went out, counted from the first.
    Sent(usize),
    /// The kernel has no room.
    WouldBlock,
    /// The first cannot be sent.
    Failed,
}

pub open spec fn min_of(a: int, b: int) -> int {
    if a <= b {
        a
    } else {
        b
    }
}

/// Replies that go into the next batch.
pub fn pending_send_batch_len(pending_len: usize, active_batch_size: usize, capacity: usize) -> (r:
    usize)
    ensures
        r == min_of(min_of(pending_len as int, active_batch_size as int), capacity as int),
{
    let n: usize = if pending_len <= active_batch_size {
        pending_len
    } else {
        active_batch_size
    };
    if n <= capacity {
        n
    } else {
        capacity
    }
}

/// The batch size that a configured one leads to.
pub open spec fn batch_in_force(batch_size: usize) -> usize {
    if batch_size < 1 {
        1
    } else if batch_size > MAX_BATCH {
        MAX_BATCH
    } else {
        batch_size
    }
}

/// The batch size in force.
pub fn clamp_batch(batch_size: usize) -> (r: usize)
    ensures
        r == batch_in_force(batch_size),
        1 <= r <= MAX_BATCH,
{
    if batch_size < 1 {
        1
    } else if batch_size > MAX_BATCH {
        MAX_BATCH
    } else {
        batch_size
    }
}

/// Counters after a reply was dropped because it could not be sent.
pub open spec fn counted_failure(c: QueryLogCounters) -> QueryLogCounters {
    QueryLogCounters {
        udp_send_errors: bumped(c.udp_send_errors, 1),
        udp_send_drops: bumped(c.udp_send_drops, 1),
        ..c
    }
}

/// Counts a reply that was dropped because it could not be sent.
pub fn record_send_failure(counters: &mut QueryLogCounters)
    ensures
        *final(counters) == counted_failure(*old(counters)),
{
    counters.udp_send_errors = counters.udp_send_errors.wrapping_add(1);
    counters.udp_send_drops = counters.udp_send_drops.wrapping_add(1);
}

/// The pending replies after a batch of the first of them.
pub open spec fn still_pending(pending: Seq<Reply>, outcome: SendOutcome) -> Seq<Reply> {
    match outcome {
        SendOutcome::Sent(k) => pending.skip(k as int),
        SendOutcome::WouldBlock => pending,
        SendOutcome::Failed => pending.skip(1),
    }
}

/// Sending goes on at once after a batch of the first `n` replies.
pub open spec fn tried_again(n: usize, outcome: SendOutcome) -> bool {
    match outcome {
        SendOutcome::Sent(k) => k == n,
        SendOutcome::WouldBlock => false,
        SendOutcome::Failed => true,
    }
}

/// Takes in how a batch of the first `n` pending replies ended. What went out leaves the queue; a
/// reply that cannot be sent is dropped, so that the others get their turn. Returns whether to try
/// again at once.
pub fn drain_step(
    pending: &mut VecDeque<Reply>,
    n: usize,
    outcome: SendOutcome,
    counters: &mut QueryLogCounters,
) -> (r: bool)
    requires
        0 < n <= old(pending)@.len(),
        match outcome {
            SendOutcome::Sent(k) => k <= n,
            _ => true,
        },
    ensures
        final(pending)@ == still_pending(old(pending)@, outcome),
        r == tried_again(n, outcome),
        *final(counters) == (if outcome is Failed {
            counted_failure(*old(counters))
        } else {
            *old(counters)
        }),
{
    let ghost before = pending@;
    match outcome {
        SendOutcome::Sent(k) => {
            let mut i: usize = 0;
            proof {
                assert(before.skip(0) =~= before);
            }
            while i < k
                invariant
                    i <= k <= n <= before.len(),
                    pending@ == before.skip(i as int),
                decreases k - i,
            {
                let _sent = pending.pop_front();
                i += 1;
                proof {
                    assert(pending@ =~= before.skip(i as int));
                }
            }
            k == n
        },
        SendOutcome::WouldBlock => false,
        SendOutcome::Failed => {
            record_send_failure(counters);
            let _dropped = pending.pop_front();
            proof {
                assert(pending@ =~= before.skip(1));
            }
            true
        },
    }
}

/// Where a round of sending goes on.
#[derive(Clone, Copy, Debug, PartialEq, Eq, Structural)]
pub enum FlushStep {
    /// With the batch from this position on.
    Next(usize),
    /// Not at all: what starts at this position has to wait.
    Keep(usize),
}

/// End of the batch that starts at `idx`.
pub open spec fn batch_end(idx: int, batch_size: int, len: int) -> int {
    min_of(idx + batch_size, len)
}

/// The end of the batch of `items` replies that starts at `idx`.
pub fn chunk_end(idx: usize, batch_size: usize, items: usize) -> (r: usize)
    requires
        idx <= items,
    ensures
        r == batch_end(idx as int, batch_size as int, items as int),
        idx <= r <= items,
{
    if items - idx <= batch_size {
        items
    } else {
        idx + batch_size
    }
}

/// Where a round goes on after the batch between `idx` and `end`.
pub open spec fn flush_goes_on(idx: usize, end: usize, outcome: SendOutcome) -> FlushStep {
    match outcome {
        SendOutcome::Sent(k) => if k < end - idx {
            FlushStep::Keep((idx + k) as usize)
        } else {
            FlushStep::Next(end)
        },
        _ => if idx < end {
            FlushStep::Keep(idx)
        } else {
            FlushStep::Next(end)
        },
    }
}

/// Takes in how the batch between `idx` and `end` ended. A batch that did not go out whole ends the
/// round.
pub fn flush_step(idx: usize, end: usize, outcome: SendOutcome, counters: &mut QueryLogCounters) -> (r:
    FlushStep)
    requires
        idx <= end,
        match outcome {
            SendOutcome::Sent(k) => k <= end - idx,
            _ => true,
        },
    ensures
        r == flush_goes_on(idx, end, outcome),
        *final(counters) == (if outcome is Failed {
            QueryLogCounters {
                udp_send_errors: bumped(old(counters).udp_send_errors, 1),
                ..*old(counters)
            }
        } else {
            *old(counters)
        }),
{
    let sent: usize = match outcome {
        SendOutcome::Sent(k) => k,
        SendOutcome::WouldBlock => 0,
        SendOutcome::Failed => {
            counters.udp_send_errors = counters.udp_send_errors.wrapping_add(1);
            0
        },
    };
    if sent < end - idx {
        FlushStep::Keep(idx + sent)
    } else {
        FlushStep::Next(end)
    }
}

/// Replies that still find room behind the pending ones.
pub open spec fn room_for(pending: nat, unsent: nat) -> nat {
    let space = if pending >= PENDING_SEND_CAP {
        0
    } else {
        (PENDING_SEND_CAP - pending) as nat
    };
    if unsent <= space {
        unsent
    } else {
        space
    }
}

/// Keeps replies that could not be sent, as far as there is room; the rest is dropped and counted.
pub fn keep_unsent(
    pending: &mut VecDeque<Reply>,
    unsent: Vec<Reply>,
    counters: &mut QueryLogCounters,
)
    ensures
        ({
            let kept = room_for(old(pending)@.len(), unsent@.len());
            &&& final(pending)@ == old(pending)@ + unsent@.take(kept as int)
            &&& *final(counters) == (QueryLogCounters {
                udp_send_drops: bumped(
                    old(counters).udp_send_drops,
                    (unsent@.len() - kept) as u64,
                ),
                ..*old(counters)
            })
        }),
{
    let ghost before = pending@;
    let ghost all = unsent@;
    let have: usize = pending.len();
    let space: usize = if have >= PENDING_SEND_CAP {
        0
    } else {
        PENDING_SEND_CAP - have
    };
    let kept: usize = if unsent.len() <= space {
        unsent.len()
    } else {
        space
    };
    let dropped: u64 = (unsent.len() - kept) as u64;
    counters.udp_send_drops = counters.udp_send_drops.wrapping_add(dropped);
    let mut rest = unsent;
    let mut i: usize = 0;
    proof {
        assert(all.skip(0) =~= all);
        assert(before + all.take(0) =~= before);
    }
    while i < kept
        invariant
            i <= kept <= all.len(),
            rest@ == all.skip(i as int),
            pending@ == before + all.take(i as int),
        decreases kept - i,
    {
        let item = rest.remove(0);
        pending.push_back(item);
        i += 1;
        proof {
            assert(rest@ =~= all.skip(i as int));
            assert(pending@ =~= before + all.take(i as int));
        }
    }
}

/// The pending replies never outgrow their room, and a reply is either pending afterwards or
/// counted as dropped.
pub proof fn law_pending_is_bounded(pending: nat, unsent: nat)
    ensures
        pending <= PENDING_SEND_CAP ==> pending + room_for(pending, unsent) <= PENDING_SEND_CAP,
        room_for(pending, unsent) <= unsent,
{
}

/// Position of the first reply that has to be sent on its own, when a batch went out in one go. A
/// reply that cannot be sent is left out.
pub fn first_unsent(outcome: SendOutcome) -> (r: usize)
    ensures
        r == (match outcome {
            SendOutcome::Sent(k) => k,
            SendOutcome::WouldBlock => 0,
            SendOutcome::Failed => 1,
        }),
{
    match outcome {
        SendOutcome::Sent(k) => k,
        SendOutcome::WouldBlock => 0,
        SendOutcome::Failed => 1,
    }
}

/// Where a flusher goes on within its batch of `len` replies.
pub open spec fn flusher_goes_on(off: usize, len: usize, outcome: SendOutcome) -> Option<usize> {
    match outcome {
        SendOutcome::Sent(k) => if k == 0 || off + k == len {
            None
        } else {
            Some((off + k) as usize)
        },
        SendOutcome::WouldBlock => Some(off),
        SendOutcome::Failed => None,
    }
}

/// Where a flusher goes on within its batch; `None` when the batch is done with.
pub fn flush_progress(off: usize, len: usize, outcome: SendOutcome, counters: &mut QueryLogCounters) -> (r:
    Option<usize>)
    requires
        off < len,
        match outcome {
            SendOutcome::Sent(k) => k <= len - off,
            _ => true,
        },
    ensures
        r == flusher_goes_on(off, len, outcome),
        *final(counters) == (if outcome is Failed {
            QueryLogCounters {
                udp_send_errors: bumped(old(counters).udp_send_errors, 1),
                udp_send_drops: bumped(old(counters).udp_send_drops, (len - off) as u64),
                ..*old(counters)
            }
        } else {
            *old(counters)
        }),
{
    match outcome {
        SendOutcome::Sent(k) => if k == 0 || off + k == len {
            None
        } else {
            Some(off + k)
        },
        SendOutcome::WouldBlock => Some(off),
        SendOutcome::Failed => {
            counters.udp_send_errors = counters.udp_send_errors.wrapping_add(1);
            counters.udp_send_drops = counters.udp_send_drops.wrapping_add((len - off) as u64);
            None
        },
    }
}

/// How a single reply ended.
#[derive(Clone, Copy, Debug, PartialEq, Eq, Structural)]
pub enum SingleSend {
    /// So many bytes went out.
    Bytes(usize),
    WouldBlock,
    Failed,
}

/// Takes in how a single reply of `len` bytes ended; whether it has to be tried again when the
/// kernel has room. A reply that went out in part is dropped.
pub fn single_step(len: usize, outcome: SingleSend, counters: &mut QueryLogCounters) -> (r: bool)
    ensures
        r == (outcome is WouldBlock),
        *final(counters) == (if outcome is Failed || outcome is Bytes && outcome != SingleSend::Bytes(
            len,
        ) {
            counted_failure(*old(counters))
        } else {
            *old(counters)
        }),
{
    match outcome {
        SingleSend::Bytes(n) => {
            if n != len {
                record_send_failure(counters);
            }
            false
        },
        SingleSend::WouldBlock => true,
        SingleSend::Failed => {
            record_send_failure(counters);
            false
        },
    }
}

/// Whether a batch has room for so many replies.
pub fn batch_fits(items: usize, capacity: usize) -> (r: bool)
    ensures
        r == (items <= capacity),
{
    items <= capacity
}

// What becomes of replies.

/// Pending replies leave the queue from its front and in order: those that went out, and the one
/// that cannot be sent; none leaves while the kernel has no room. Sending goes on at once after a
/// whole batch and after a dropped reply, and stops otherwise.
pub proof fn law_pending_replies_leave_in_order(
    pending: Seq<Reply>,
    n: usize,
    outcome: SendOutcome,
)
    requires
        0 < n <= pending.len(),
        outcome matches SendOutcome::Sent(k) ==> k <= n,
    ensures
        ({
            let after = still_pending(pending, outcome);
            let gone: int = match outcome {
                SendOutcome::Sent(k) => k as int,
                SendOutcome::WouldBlock => 0,
                SendOutcome::Failed => 1,
            };
            &&& after.len() + gone == pending.len()
            &&& pending.take(gone) + after == pending
        }),
        tried_again(n, outcome) <==> outcome is Failed || outcome == SendOutcome::Sent(n),
{
    let after = still_pending(pending, outcome);
    let gone: int = match outcome {
        SendOutcome::Sent(k) => k as int,
        SendOutcome::WouldBlock => 0,
        SendOutcome::Failed => 1,
    };
    assert(pending.take(gone) + after =~= pending);
}

/// A round goes on behind a batch only where all of it went out; otherwise what did not go out has
/// to wait, from the first such reply on.
pub proof fn law_round_stops_at_unsent(idx: usize, end: usize, outcome: SendOutcome)
    requires
        idx < end,
        outcome matches SendOutcome::Sent(k) ==> k <= end - idx,
    ensures
        match flush_goes_on(idx, end, outcome) {
            FlushStep::Next(i) => i == end && outcome == SendOutcome::Sent((end - idx) as usize),
            FlushStep::Keep(i) => idx <= i < end && match outcome {
                SendOutcome::Sent(k) => i == idx + k,
                _ => i == idx,
            },
        },
{
}

/// A flusher goes on behind what went out and waits where the kernel has no room. It is done with
/// its batch once all of it went out, when nothing of it does, and when it cannot be sent.
pub proof fn law_flusher_moves_forward(off: usize, len: usize, outcome: SendOutcome)
    requires
        off < len,
        outcome matches SendOutcome::Sent(k) ==> k <= len - off,
    ensures
        match outcome {
            SendOutcome::Sent(k) => {
                &&& 0 < k < len - off ==> flusher_goes_on(off, len, outcome) == Some(
                    (off + k) as usize,
                )
                &&& k == 0 || k == len - off ==> flusher_goes_on(off, len, outcome) is None
            },
            SendOutcome::WouldBlock => flusher_goes_on(off, len, outcome) == Some(off),
            SendOutcome::Failed => flusher_goes_on(off, len, outcome) is None,
        },
{
}

/// Unsent replies are kept as far as the queue stays within its room of 256, and as many of them as
/// do.
pub proof fn law_room_is_used_up(pending: nat, unsent: nat)
    requires
        pending <= 256,
    ensures
        pending + unsent <= 256 ==> room_for(pending, unsent) == unsent,
        pending + unsent > 256 ==> pending + room_for(pending, unsent) == 256,
{
}

/// A batch reaches as far as its size allows and no further than there are replies.
pub proof fn law_batch_is_bounded(idx: int, batch_size: int, len: int)
    requires
        0 <= idx <= len,
        batch_size >= 0,
    ensures
        batch_end(idx, batch_size, len) <= len,
        batch_end(idx, batch_size, len) - idx <= batch_size,
        batch_end(idx, batch_size, len) == len || batch_end(idx, batch_size, len) - idx
            == batch_size,
{
}

/// A reply that cannot be sent counts once as an error and once as dropped.
pub proof fn law_unsendable_reply_counts_once(c: QueryLogCounters)
    requires
        c.udp_send_errors < u64::MAX,
        c.udp_send_drops < u64::MAX,
    ensures
        counted_failure(c) == (QueryLogCounters {
            udp_send_errors: (c.udp_send_errors + 1) as u64,
            udp_send_drops: (c.udp_send_drops + 1) as u64,
            ..c
        }),
{
}

/// A batch holds between one and sixty-four replies, and as many as are configured within that.
pub proof fn law_batch_size_has_bounds(batch_size: usize)
    ensures
        1 <= batch_in_force(batch_size) <= 64,
        1 <= batch_size <= 64 ==> batch_in_force(batch_size) == batch_size,
{
}

} // verus!
