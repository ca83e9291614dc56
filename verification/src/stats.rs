//! Statistics of upstream nodes, used by selection and by the dashboard.
//!
//! Counters wrap around at the end of their range.

use vstd::prelude::*;
use vstd::wrapping::u64_specs;

verus! {

/// The counter after `n` more events.
pub open spec fn bumped(counter: u64, n: u64) -> u64 {
    u64_specs::wrapping_add(counter, n)
}

/// Counters of one upstream node.
#[derive(Clone, Copy, Debug, PartialEq, Eq, Structural)]
pub struct NodeStats {
    pub queries_ok: u64,
    /// All failures.
    pub queries_err: u64,
    /// Failures that were timeouts.
    pub queries_timeout: u64,
    /// Queries given up because their hedge partner answered first.
    pub queries_cancelled: u64,
    /// Queries now in flight.
    pub active_inflight: i64,
    /// Sum of round-trip times in microseconds.
    pub rtt_sum_us: u64,
}

impl NodeStats {
    pub open spec fn zero() -> NodeStats {
        NodeStats {
            queries_ok: 0,
            queries_err: 0,
            queries_timeout: 0,
            queries_cancelled: 0,
            active_inflight: 0,
            rtt_sum_us: 0,
        }
    }

    pub fn new() -> (r: Self)
        ensures
            r == NodeStats::zero(),
    {
        NodeStats {
            queries_ok: 0,
            queries_err: 0,
            queries_timeout: 0,
            queries_cancelled: 0,
            active_inflight: 0,
            rtt_sum_us: 0,
        }
    }

    /// Counts an answer that took `rtt_us`.
    pub fn record_ok(&mut self, rtt_us: u64)
        ensures
            *final(self) == (NodeStats {
                queries_ok: bumped(old(self).queries_ok, 1),
                rtt_sum_us: bumped(old(self).rtt_sum_us, rtt_us),
                ..*old(self)
            }),
    {
        self.queries_ok = self.queries_ok.wrapping_add(1);
        self.rtt_sum_us = self.rtt_sum_us.wrapping_add(rtt_us);
    }

    /// Counts a failure that was no timeout.
    pub fn record_err(&mut self)
        ensures
            *final(self) == (NodeStats {
                queries_err: bumped(old(self).queries_err, 1),
                ..*old(self)
            }),
    {
        self.queries_err = self.queries_err.wrapping_add(1);
    }

    /// Counts a timeout, both as a failure and as a timeout.
    pub fn record_timeout(&mut self)
        ensures
            *final(self) == (NodeStats {
                queries_err: bumped(old(self).queries_err, 1),
                queries_timeout: bumped(old(self).queries_timeout, 1),
                ..*old(self)
            }),
    {
        self.queries_err = self.queries_err.wrapping_add(1);
        self.queries_timeout = self.queries_timeout.wrapping_add(1);
    }

    /// Counts a query that was given up; it is no failure.
    pub fn record_cancelled(&mut self)
        ensures
            *final(self) == (NodeStats {
                queries_cancelled: bumped(old(self).queries_cancelled, 1),
                ..*old(self)
            }),
    {
        self.queries_cancelled = self.queries_cancelled.wrapping_add(1);
    }

    /// The counters under a name and an address.
    pub fn snapshot(&self, name: &str, addr: &str) -> (r: NodeStatsSnapshot)
        ensures
            r.name@ == name@,
            r.addr@ == addr@,
            r.counters() == *self,
    {
        NodeStatsSnapshot {
            name: name.to_owned(),
            addr: addr.to_owned(),
            queries_ok: self.queries_ok,
            queries_err: self.queries_err,
            queries_timeout: self.queries_timeout,
            queries_cancelled: self.queries_cancelled,
            active_inflight: self.active_inflight,
            rtt_sum_us: self.rtt_sum_us,
        }
    }
}

impl Default for NodeStats {
    fn default() -> (r: Self)
        ensures
            r == NodeStats::zero(),
    {
        Self::new()
    }
}

/// Counters of a node at one moment.
pub struct NodeStatsSnapshot {
    pub name: String,
    pub addr: String,
    pub queries_ok: u64,
    pub queries_err: u64,
    pub queries_timeout: u64,
    pub queries_cancelled: u64,
    pub active_inflight: i64,
    pub rtt_sum_us: u64,
}

impl NodeStatsSnapshot {
    pub open spec fn counters(self) -> NodeStats {
        NodeStats {
            queries_ok: self.queries_ok,
            queries_err: self.queries_err,
            queries_timeout: self.queries_timeout,
            queries_cancelled: self.queries_cancelled,
            active_inflight: self.active_inflight,
            rtt_sum_us: self.rtt_sum_us,
        }
    }

    /// Number of round trips in the sum.
    pub fn rtt_count(&self) -> (r: u64)
        ensures
            r == self.queries_ok,
    {
        self.queries_ok
    }
}

/// A counter grows by what is counted, and starts over behind its greatest value.
pub proof fn law_counters_grow(counter: u64, n: u64)
    ensures
        counter + n <= u64::MAX ==> bumped(counter, n) == counter + n,
        counter + n > u64::MAX ==> bumped(counter, n) == counter + n - 0x1_0000_0000_0000_0000,
{
}

} // verus!
