//! Queries over UDP sockets.

use crate::dns::{is_truncated, truncated_flag};
use vstd::prelude::*;
use vstd::wrapping::usize_specs;

verus! {

/// First wait before a receive loop that failed is started again, in milliseconds.
pub const FIRST_RECV_DELAY_MS: u64 = 50;

/// Longest wait before a receive loop that failed is started again.
pub const MAX_RECV_DELAY_MS: u64 = 5_000;

/// Responses delivered in a row before other work gets its turn.
pub const YIELD_EVERY: u32 = 100;

/// Error number of a refused connection.
pub const ECONNREFUSED: i32 = 111;

/// Error number of an unreachable host.
pub const EHOSTUNREACH: i32 = 113;

/// Error number of an unreachable network.
pub const ENETUNREACH: i32 = 101;

/// The wait after one of `delay_ms`.
pub open spec fn recv_delay_after(delay_ms: u64) -> int {
    if 2 * delay_ms < MAX_RECV_DELAY_MS {
        2 * delay_ms
    } else {
        MAX_RECV_DELAY_MS as int
    }
}

/// The wait after the next failure of a receive loop.
pub fn next_recv_delay_ms(delay_ms: u64) -> (r: u64)
    requires
        2 * delay_ms <= u64::MAX,
    ensures
        r == recv_delay_after(delay_ms),
{
    if delay_ms * 2 < MAX_RECV_DELAY_MS {
        delay_ms * 2
    } else {
        MAX_RECV_DELAY_MS
    }
}

/// A socket error that reports an unreachable server.
pub open spec fn reports_unreachable(errno: Option<i32>) -> bool {
    errno == Some(ECONNREFUSED) || errno == Some(EHOSTUNREACH) || errno == Some(ENETUNREACH)
}

/// Whether a socket error reports that the server cannot be reached, which ends no receive loop.
pub fn is_icmp_unreachable(errno: Option<i32>) -> (r: bool)
    ensures
        r == reports_unreachable(errno),
{
    match errno {
        Some(e) => e == ECONNREFUSED || e == EHOSTUNREACH || e == ENETUNREACH,
        None => false,
    }
}

/// The socket of a counter, and the counter behind it.
pub open spec fn socket_turn(send_idx: usize, sockets: usize) -> (int, usize) {
    (send_idx as int % sockets as int, usize_specs::wrapping_add(send_idx, 1))
}

/// The socket that the next query goes out of, and the counter behind it: the sockets take turns.
pub fn next_socket(send_idx: usize, sockets: usize) -> (r: (usize, usize))
    requires
        sockets > 0,
    ensures
        (r.0 as int, r.1) == socket_turn(send_idx, sockets),
        r.0 < sockets,
{
    (send_idx % sockets, send_idx.wrapping_add(1))
}

/// Whether a response has to be asked for again over TCP.
pub fn needs_tcp_retry(resp: &[u8]) -> (r: bool)
    ensures
        r == truncated_flag(resp@),
{
    is_truncated(resp)
}

/// Whether other work gets its turn after one more response, and the count since then.
pub open spec fn delivered_after(recv_count: u32) -> (bool, int) {
    if recv_count + 1 == YIELD_EVERY {
        (true, 0)
    } else {
        (false, recv_count + 1)
    }
}

/// Whether other work gets its turn after one more delivered response, and the count since then.
pub fn count_delivered(recv_count: u32) -> (r: (bool, u32))
    requires
        recv_count < YIELD_EVERY,
    ensures
        (r.0, r.1 as int) == delivered_after(recv_count),
{
    if recv_count + 1 >= YIELD_EVERY {
        (true, 0)
    } else {
        (false, recv_count + 1)
    }
}

// What the sockets do.

/// The wait doubles up to five seconds and never passes them.
pub proof fn law_receive_delay_doubles(delay_ms: u64)
    ensures
        delay_ms <= 2_500 ==> recv_delay_after(delay_ms) == delay_ms + delay_ms,
        delay_ms > 2_500 ==> recv_delay_after(delay_ms) == 5_000,
{
}

/// A receive loop outlives refusals and unreachable hosts and networks, and no other error.
pub proof fn law_unreachable_server_ends_no_loop(e: i32)
    ensures
        reports_unreachable(Some(e)) <==> e == 111 || e == 113 || e == 101,
        !reports_unreachable(None),
{
}

/// The sockets take turns: each query goes out of the socket behind that of the one before, and the
/// last is followed by the first.
pub proof fn law_sockets_take_turns(send_idx: usize, sockets: usize)
    requires
        sockets > 0,
        send_idx < usize::MAX,
    ensures
        ({
            let this = socket_turn(send_idx, sockets);
            let next = socket_turn(this.1, sockets);
            &&& 0 <= this.0 < sockets
            &&& this.0 + 1 < sockets ==> next.0 == this.0 + 1
            &&& this.0 + 1 == sockets ==> next.0 == 0
            &&& send_idx < sockets ==> this.0 == send_idx
        }),
{
    let m = sockets as int;
    let x = send_idx as int;
    vstd::arithmetic::div_mod::lemma_mod_bound(x, m);
    vstd::arithmetic::div_mod::lemma_fundamental_div_mod(x, m);
    let q = x / m;
    let r = x % m;
    if r + 1 < m {
        vstd::arithmetic::div_mod::lemma_fundamental_div_mod_converse(x + 1, m, q, r + 1);
    } else {
        assert(x + 1 == (q + 1) * m + 0) by (nonlinear_arith)
            requires
                x == m * q + r,
                r + 1 == m,
        ;
        vstd::arithmetic::div_mod::lemma_fundamental_div_mod_converse(x + 1, m, q + 1, 0);
    }
    if x < m {
        vstd::arithmetic::div_mod::lemma_small_mod(x as nat, m as nat);
    }
}

/// Other work gets its turn after every hundredth response.
pub proof fn law_every_hundredth_yields(recv_count: u32)
    requires
        recv_count < 100,
    ensures
        delivered_after(recv_count).0 <==> recv_count == 99,
        recv_count == 99 ==> delivered_after(recv_count).1 == 0,
        recv_count < 99 ==> delivered_after(recv_count).1 == recv_count + 1,
{
}

} // verus!
