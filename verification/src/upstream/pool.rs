//! A pool of nodes: which node a query goes to, when a second one is asked, and what each exchange
//! leaves behind.

use crate::config::{EcsMode, UpstreamEndpoint, UpstreamProto};
use crate::exchange::ExchangeError;
use crate::small::ScoreList;
use crate::stats::{bumped, NodeStats, NodeStatsSnapshot};
use crate::text::{decimal, decimal_text};
use crate::upstream::health::{
    after_failure, after_success, band_limit, band_limit_of, sat_mul, saturating_product,
    HealthStats, SELECT_BAND_FLOOR_US,
};
use crate::upstream::{endpoint_text, format_upstream_addr, path_or_default};
use vstd::prelude::*;
use vstd::string::StringExecFns;
use vstd::wrapping::{i64_specs, u64_specs, usize_specs};

verus! {

/// Factor on the score of a node with as many queries in flight as its window.
pub const CONGESTION_SCORE_FACTOR: u64 = 4;

/// The node left alone longest is tried once it was left alone for so many selections.
pub const PROBE_INTERVAL: u64 = 100;

/// Nodes within this multiple of the best score share the load.
pub const SELECT_BAND_FACTOR: u64 = 2;

/// A second node is asked after this multiple of the first one's round-trip time.
pub const HEDGE_RTT_MULTIPLIER: u64 = 3;

/// A second node is asked no sooner than this.
pub const HEDGE_MIN_DELAY_US: u64 = 2_000;

/// Queries with a second node asked at once, even in a small pool.
pub const MIN_HEDGE_BUDGET: u64 = 4;

/// Factor that scatters the query counter over the nodes.
pub const SCATTER_FACTOR: u64 = 0x9E37_79B9_7F4A_7C15;

/// Timeouts in a row after which the connections of a node are renewed.
pub const STALE_REFRESH_THRESHOLD: u32 = 6;

/// What renews the connections of a node.
#[derive(Clone, Copy, Debug, PartialEq, Eq, Structural)]
pub enum TransportKind {
    /// Sockets that have to be opened anew.
    Udp,
    /// A connection that has to be made anew.
    Tcp,
    /// A transport that sees to it itself.
    Own,
}

/// One node of a pool.
pub struct UpstreamNode {
    pub transport: TransportKind,
    pub health: HealthStats,
    pub stats: NodeStats,
    /// Number of the query for which the node was last selected.
    pub last_selected: u64,
    /// Address of the node as it is shown.
    pub addr_display: String,
}

/// Queries in flight, as far as they count.
pub open spec fn inflight_of(stats: NodeStats) -> int {
    if stats.active_inflight > 0 {
        stats.active_inflight as int
    } else {
        0
    }
}

impl UpstreamNode {
    /// Score of the node: the lower, the better.
    pub open spec fn score(self) -> u64 {
        let inflight = inflight_of(self.stats);
        let base = if self.health.ewma_rtt_us == 0 {
            inflight as u64
        } else {
            sat_mul(self.health.ewma_rtt_us, (1 + inflight) as u64)
        };
        if self.health.concurrency_window > 0 && inflight >= self.health.concurrency_window {
            sat_mul(base, CONGESTION_SCORE_FACTOR)
        } else {
            base
        }
    }

    /// Score of the node: its smoothed round-trip time for each query in flight and one more. A
    /// node without measurements has the best score; one with a full window a worse one.
    pub fn selection_score(&self) -> (r: u64)
        ensures
            r == self.score(),
    {
        let inflight: u64 = if self.stats.active_inflight > 0 {
            self.stats.active_inflight as u64
        } else {
            0
        };
        let base: u64 = if self.health.ewma_rtt_us == 0 {
            inflight
        } else {
            saturating_product(self.health.ewma_rtt_us, 1 + inflight)
        };
        if self.health.concurrency_window > 0 && inflight >= self.health.concurrency_window {
            saturating_product(base, CONGESTION_SCORE_FACTOR)
        } else {
            base
        }
    }

    /// How long to wait for the node before a second one is asked.
    pub open spec fn patience_us(self, fallback_us: u64) -> u64 {
        if self.health.consecutive_failures > 0 || self.health.ewma_rtt_us == 0 {
            fallback_us
        } else if sat_mul(self.health.ewma_rtt_us, HEDGE_RTT_MULTIPLIER) >= HEDGE_MIN_DELAY_US {
            sat_mul(self.health.ewma_rtt_us, HEDGE_RTT_MULTIPLIER)
        } else {
            HEDGE_MIN_DELAY_US
        }
    }

    /// How long to wait for the node before a second one is asked, in microseconds. The estimate of
    /// a node that just failed says nothing; then, as without measurements, the configured delay
    /// applies.
    pub fn hedge_delay(&self, fallback_us: u64) -> (r: u64)
        ensures
            r == self.patience_us(fallback_us),
    {
        if self.health.consecutive_failures > 0 || self.health.ewma_rtt_us == 0 {
            return fallback_us;
        }
        let delay: u64 = saturating_product(self.health.ewma_rtt_us, HEDGE_RTT_MULTIPLIER);
        if delay >= HEDGE_MIN_DELAY_US {
            delay
        } else {
            HEDGE_MIN_DELAY_US
        }
    }
}

/// How an exchange with a node ended.
#[derive(Clone, Copy, Debug, PartialEq, Eq, Structural)]
pub enum NodeResult {
    /// With a response, after so many microseconds.
    Answered(u64),
    Timeout,
    Error,
    /// The caller gave it up.
    Cancelled,
}

/// What the end of an exchange calls for.
#[derive(Clone, Copy, Debug, PartialEq, Eq, Structural)]
pub enum NodeAction {
    Nothing,
    /// Report that the node has recovered.
    ReportRecovery,
    /// Renew the sockets.
    RefreshSockets,
    /// Renew the connection.
    Reconnect,
}

impl UpstreamNode {
    /// Counts a query that goes out to the node.
    pub fn begin_exchange(&mut self)
        ensures
            *final(self) == (UpstreamNode {
                stats: NodeStats {
                    active_inflight: i64_specs::wrapping_add(old(self).stats.active_inflight, 1),
                    ..old(self).stats
                },
                ..*old(self)
            }),
    {
        self.stats.active_inflight = self.stats.active_inflight.wrapping_add(1);
    }

    /// The health of the node after an exchange.
    pub open spec fn health_after(self, result: NodeResult) -> HealthStats {
        match result {
            NodeResult::Answered(rtt_us) => after_success(self.health, rtt_us),
            NodeResult::Timeout => after_failure(self.health, true),
            NodeResult::Error => after_failure(self.health, false),
            NodeResult::Cancelled => self.health,
        }
    }

    /// The counters of the node after an exchange.
    pub open spec fn stats_after(self, result: NodeResult) -> NodeStats {
        let s = NodeStats {
            active_inflight: i64_specs::wrapping_sub(self.stats.active_inflight, 1),
            ..self.stats
        };
        match result {
            NodeResult::Answered(rtt_us) => NodeStats {
                queries_ok: bumped(s.queries_ok, 1),
                rtt_sum_us: bumped(s.rtt_sum_us, rtt_us),
                ..s
            },
            NodeResult::Timeout => NodeStats {
                queries_err: bumped(s.queries_err, 1),
                queries_timeout: bumped(s.queries_timeout, 1),
                ..s
            },
            NodeResult::Error => NodeStats { queries_err: bumped(s.queries_err, 1), ..s },
            NodeResult::Cancelled => s,
        }
    }

    /// What the end of an exchange calls for.
    pub open spec fn action_after(self, result: NodeResult) -> NodeAction {
        let failures = self.health_after(result).consecutive_failures;
        match result {
            NodeResult::Answered(_) => if self.health.consecutive_failures != 0 {
                NodeAction::ReportRecovery
            } else {
                NodeAction::Nothing
            },
            NodeResult::Timeout => if failures >= STALE_REFRESH_THRESHOLD {
                match self.transport {
                    TransportKind::Udp => NodeAction::RefreshSockets,
                    TransportKind::Tcp => NodeAction::Reconnect,
                    TransportKind::Own => NodeAction::Nothing,
                }
            } else {
                NodeAction::Nothing
            },
            _ => NodeAction::Nothing,
        }
    }

    /// Takes in how an exchange ended. Many timeouts in a row may mean that a connection has gone
    /// stale without a sign.
    pub fn end_exchange(&mut self, result: NodeResult) -> (r: NodeAction)
        ensures
            *final(self) == (UpstreamNode {
                health: old(self).health_after(result),
                stats: old(self).stats_after(result),
                ..*old(self)
            }),
            r == old(self).action_after(result),
    {
        self.stats.active_inflight = self.stats.active_inflight.wrapping_sub(1);
        match result {
            NodeResult::Answered(rtt_us) => {
                let recovered = self.health.consecutive_failures != 0;
                self.health.record_success(rtt_us);
                self.stats.record_ok(rtt_us);
                if recovered {
                    NodeAction::ReportRecovery
                } else {
                    NodeAction::Nothing
                }
            },
            NodeResult::Timeout => {
                self.health.record_failure(true);
                self.stats.record_timeout();
                if self.health.consecutive_failures >= STALE_REFRESH_THRESHOLD {
                    match self.transport {
                        TransportKind::Udp => NodeAction::RefreshSockets,
                        TransportKind::Tcp => NodeAction::Reconnect,
                        TransportKind::Own => NodeAction::Nothing,
                    }
                } else {
                    NodeAction::Nothing
                }
            },
            NodeResult::Error => {
                self.health.record_failure(false);
                self.stats.record_err();
                NodeAction::Nothing
            },
            NodeResult::Cancelled => NodeAction::Nothing,
        }
    }
}

// Selection.

/// Position of the least key other than that at `skip`; the first of several.
pub open spec fn least_other(keys: Seq<u64>, skip: int) -> Option<int>
    decreases keys.len(),
{
    if keys.len() == 0 {
        None
    } else {
        let i = keys.len() - 1;
        let front = least_other(keys.drop_last(), skip);
        if i == skip {
            front
        } else {
            match front {
                Some(m) => if keys[i] < keys[m] {
                    Some(i)
                } else {
                    Some(m)
                },
                None => Some(i),
            }
        }
    }
}

/// Positions of the scores up to `limit`.
pub open spec fn in_band(scores: Seq<u64>, limit: u64) -> Seq<int>
    decreases scores.len(),
{
    if scores.len() == 0 {
        Seq::empty()
    } else if scores.last() <= limit {
        in_band(scores.drop_last(), limit).push(scores.len() - 1)
    } else {
        in_band(scores.drop_last(), limit)
    }
}

/// Scores of the nodes.
pub open spec fn scores_of(nodes: Seq<UpstreamNode>) -> Seq<u64> {
    nodes.map_values(|n: UpstreamNode| n.score())
}

/// For which query each node was last selected.
pub open spec fn ages_of(nodes: Seq<UpstreamNode>) -> Seq<u64> {
    nodes.map_values(|n: UpstreamNode| n.last_selected)
}

/// The nodes that share the load.
pub open spec fn band_of(nodes: Seq<UpstreamNode>) -> Seq<int> {
    let scores = scores_of(nodes);
    let best = scores[least_other(scores, -1)->0];
    in_band(scores, band_limit_of(best, SELECT_BAND_FACTOR, SELECT_BAND_FLOOR_US))
}

/// The node left alone longest is due for a try.
pub open spec fn probe_due(nodes: Seq<UpstreamNode>, query_ix: u64) -> bool {
    let ages = ages_of(nodes);
    u64_specs::wrapping_sub(query_ix, ages[least_other(ages, -1)->0]) >= PROBE_INTERVAL
}

/// The number by which a query picks one of the nodes that share the load.
pub open spec fn scattered(query_ix: u64) -> u64 {
    u64_specs::wrapping_mul(query_ix, SCATTER_FACTOR) >> 33
}

/// The node that a query goes to.
pub open spec fn primary_of(nodes: Seq<UpstreamNode>, query_ix: u64) -> Option<int> {
    if nodes.len() == 0 {
        None
    } else if probe_due(nodes, query_ix) {
        least_other(ages_of(nodes), -1)
    } else {
        let band = band_of(nodes);
        Some(band[scattered(query_ix) as int % band.len() as int])
    }
}

proof fn lemma_least_other(keys: Seq<u64>, skip: int)
    ensures
        match least_other(keys, skip) {
            Some(m) => {
                &&& 0 <= m < keys.len()
                &&& m != skip
                &&& forall|i: int| 0 <= i < keys.len() && i != skip ==> keys[m] <= #[trigger] keys[i]
            },
            None => keys.len() == 0 || keys.len() == 1 && skip == 0,
        },
    decreases keys.len(),
{
    if keys.len() > 0 {
        let front = keys.drop_last();
        lemma_least_other(front, skip);
        assert forall|i: int| 0 <= i < front.len() implies front[i] == #[trigger] keys[i] by {}
    }
}

proof fn lemma_in_band(scores: Seq<u64>, limit: u64)
    ensures
        forall|k: int|
            0 <= k < in_band(scores, limit).len() ==> 0 <= (#[trigger] in_band(scores, limit)[k])
                < scores.len() && scores[in_band(scores, limit)[k]] <= limit,
        forall|i: int|
            0 <= i < scores.len() && (#[trigger] scores[i]) <= limit ==> in_band(
                scores,
                limit,
            ).contains(i),
    decreases scores.len(),
{
    if scores.len() > 0 {
        let front = scores.drop_last();
        lemma_in_band(front, limit);
        let band = in_band(scores, limit);
        let before = in_band(front, limit);
        assert forall|i: int| 0 <= i < scores.len() && (#[trigger] scores[i]) <= limit implies
            band.contains(i) by {
            if i < front.len() {
                assert(front[i] == scores[i]);
                let k = choose|k: int| 0 <= k < before.len() && before[k] == i;
                assert(band[k] == i);
            } else {
                assert(band[before.len() as int] == i);
            }
        }
        assert forall|k: int| 0 <= k < band.len() implies 0 <= (#[trigger] band[k]) < scores.len()
            && scores[band[k]] <= limit by {
            if k < before.len() {
                assert(band[k] == before[k]);
                assert(front[before[k]] == scores[before[k]]);
            }
        }
    }
}

/// A query goes to a node of the pool: to one that was never beaten for age when it is due for a
/// try, and else to one whose score is within the band of the best.
pub proof fn law_selection(nodes: Seq<UpstreamNode>, query_ix: u64)
    requires
        nodes.len() > 0,
    ensures
        primary_of(nodes, query_ix) is Some,
        0 <= primary_of(nodes, query_ix)->0 < nodes.len(),
        probe_due(nodes, query_ix) ==> forall|i: int|
            0 <= i < nodes.len() ==> nodes[primary_of(nodes, query_ix)->0].last_selected <= (
            #[trigger] nodes[i]).last_selected,
        !probe_due(nodes, query_ix) ==> forall|i: int|
            0 <= i < nodes.len() ==> nodes[primary_of(nodes, query_ix)->0].score()
                <= band_limit_of(
                (#[trigger] nodes[i]).score(),
                SELECT_BAND_FACTOR,
                SELECT_BAND_FLOOR_US,
            ),
{
    let ages = ages_of(nodes);
    let scores = scores_of(nodes);
    lemma_least_other(ages, -1);
    lemma_least_other(scores, -1);
    assert(ages[0] == nodes[0].last_selected);
    assert(scores[0] == nodes[0].score());
    let m = least_other(scores, -1)->0;
    let best = scores[m];
    let limit = band_limit_of(best, SELECT_BAND_FACTOR, SELECT_BAND_FLOOR_US);
    lemma_in_band(scores, limit);
    let band = in_band(scores, limit);
    assert(band.contains(m)) by {
        assert(scores[m] <= limit);
    }
    let k = scattered(query_ix) as int % band.len() as int;
    if !probe_due(nodes, query_ix) {
        assert(0 <= k < band.len());
        assert(0 <= band[k] < nodes.len());
        let p = primary_of(nodes, query_ix)->0;
        assert(p == band[k]);
        assert(scores[p] == nodes[p].score());
        assert forall|i: int| 0 <= i < nodes.len() implies nodes[p].score() <= band_limit_of(
            (#[trigger] nodes[i]).score(),
            SELECT_BAND_FACTOR,
            SELECT_BAND_FLOOR_US,
        ) by {
            assert(scores[i] == nodes[i].score());
            assert(best <= scores[i]);
            assert(best * SELECT_BAND_FACTOR <= scores[i] * SELECT_BAND_FACTOR);
        }
    } else {
        let p = primary_of(nodes, query_ix)->0;
        assert forall|i: int| 0 <= i < nodes.len() implies nodes[p].last_selected <= (
        #[trigger] nodes[i]).last_selected by {
            assert(ages[i] == nodes[i].last_selected);
            assert(ages[p] == nodes[p].last_selected);
        }
    }
}

/// A pool of nodes.
pub struct UpstreamPool {
    pub nodes: Vec<UpstreamNode>,
    /// Number of the next query.
    pub next: usize,
    /// Whether a second node may be asked, and after which delay where none follows from
    /// measurements, in microseconds.
    pub hedge_delay_us: Option<u64>,
    /// Queries that have asked, or might have asked, a second node.
    pub active_hedges: u64,
}

/// How to start the exchange of a query.
#[derive(Clone, Copy, Debug, PartialEq, Eq, Structural)]
pub struct ExchangeStart {
    pub primary: usize,
    /// How long to wait before a second node is considered; `None` for ever.
    pub hedge_after_us: Option<u64>,
}

/// What to do when the first node took too long.
#[derive(Clone, Copy, Debug, PartialEq, Eq, Structural)]
pub enum HedgeStep {
    /// Too many second nodes are asked already: keep waiting.
    OverBudget,
    /// There is no second node: keep waiting, then give the budget back.
    NoOther,
    /// Ask this node too, then give the budget back.
    Ask(usize),
}

/// Queries that may have asked a second node at once.
pub open spec fn hedge_budget(n: nat) -> int {
    if n >= MIN_HEDGE_BUDGET {
        n as int
    } else {
        MIN_HEDGE_BUDGET as int
    }
}

/// What to do when the node at `primary` took too long, while so many queries count against the
/// budget.
pub open spec fn hedge_step(nodes: Seq<UpstreamNode>, active: u64, primary: usize) -> HedgeStep {
    if active >= hedge_budget(nodes.len()) {
        HedgeStep::OverBudget
    } else {
        match least_other(scores_of(nodes), primary as int) {
            Some(i) => HedgeStep::Ask(i as usize),
            None => HedgeStep::NoOther,
        }
    }
}

/// How the exchange of query number `ix` starts.
pub open spec fn start_for(
    nodes: Seq<UpstreamNode>,
    ix: u64,
    hedge_delay_us: Option<u64>,
) -> ExchangeStart {
    let p = primary_of(nodes, ix)->0;
    ExchangeStart {
        primary: p as usize,
        hedge_after_us: match hedge_delay_us {
            Some(d) => Some(nodes[p].patience_us(d)),
            None => None,
        },
    }
}

impl UpstreamPool {
    fn least_recent(&self) -> (r: usize)
        requires
            self.nodes@.len() > 0,
        ensures
            Some(r as int) == least_other(ages_of(self.nodes@), -1),
            r < self.nodes@.len(),
    {
        let ghost ages = ages_of(self.nodes@);
        let mut best: usize = 0;
        let mut i: usize = 1;
        proof {
            assert(ages.take(1).drop_last() =~= Seq::<u64>::empty());
            reveal_with_fuel(least_other, 2);
            assert(least_other(ages.take(1), -1) == Some(0int));
        }
        while i < self.nodes.len()
            invariant
                1 <= i <= self.nodes@.len(),
                best < i,
                ages == ages_of(self.nodes@),
                least_other(ages.take(i as int), -1) == Some(best as int),
            decreases self.nodes@.len() - i,
        {
            proof {
                assert(ages.take(i + 1).drop_last() =~= ages.take(i as int));
                assert(ages.take(i + 1)[i as int] == self.nodes@[i as int].last_selected);
                assert(ages.take(i + 1)[best as int] == self.nodes@[best as int].last_selected);
            }
            if self.nodes[i].last_selected < self.nodes[best].last_selected {
                best = i;
            }
            i += 1;
        }
        proof {
            assert(ages.take(ages.len() as int) =~= ages);
        }
        best
    }

    /// The node that a query goes to; `None` for an empty pool.
    pub fn select_primary_idx(&self, query_ix: u64) -> (r: Option<usize>)
        ensures
            match r {
                Some(i) => primary_of(self.nodes@, query_ix) == Some(i as int) && i
                    < self.nodes@.len(),
                None => self.nodes@.len() == 0,
            },
    {
        if self.nodes.len() == 0 {
            return None;
        }
        let probe: usize = self.least_recent();
        proof {
            assert(ages_of(self.nodes@)[probe as int] == self.nodes@[probe as int].last_selected);
        }
        if query_ix.wrapping_sub(self.nodes[probe].last_selected) >= PROBE_INTERVAL {
            return Some(probe);
        }
        let ghost scores = scores_of(self.nodes@);
        let mut candidates = ScoreList::new();
        let mut best: u64 = u64::MAX;
        let ghost mut at: Option<int> = None;
        let mut i: usize = 0;
        proof {
            assert(scores.take(0).len() == 0);
        }
        while i < self.nodes.len()
            invariant
                i <= self.nodes@.len(),
                scores == scores_of(self.nodes@),
                candidates@.len() == i,
                forall|k: int|
                    0 <= k < i ==> (#[trigger] candidates@[k]) == (k as usize, scores[k]),
                at == least_other(scores.take(i as int), -1),
                match at {
                    Some(m) => 0 <= m < i && scores[m] == best,
                    None => best == u64::MAX && i == 0,
                },
            decreases self.nodes@.len() - i,
        {
            let score: u64 = self.nodes[i].selection_score();
            proof {
                assert(scores.take(i + 1).drop_last() =~= scores.take(i as int));
                assert(scores.take(i + 1)[i as int] == scores[i as int]);
                assert(scores[i as int] == score);
                if at is Some {
                    assert(scores.take(i + 1)[at->0] == scores[at->0]);
                }
                at = least_other(scores.take(i + 1), -1);
            }
            if score < best {
                best = score;
            }
            candidates.push((i, score));
            i += 1;
        }
        proof {
            assert(scores.take(scores.len() as int) =~= scores);
            lemma_least_other(scores, -1);
        }
        let limit: u64 = band_limit(best, SELECT_BAND_FACTOR, SELECT_BAND_FLOOR_US);
        let ghost band = in_band(scores, limit);
        proof {
            lemma_in_band(scores, limit);
            assert(band == band_of(self.nodes@));
            assert(band.contains(at->0)) by {
                assert(scores[at->0] <= limit);
            }
        }
        let mut count: usize = 0;
        let mut j: usize = 0;
        proof {
            assert(scores.take(0).len() == 0);
        }
        while j < candidates.len()
            invariant
                j <= candidates@.len(),
                candidates@.len() == scores.len(),
                scores.len() == self.nodes@.len(),
                forall|k: int|
                    0 <= k < candidates@.len() ==> (#[trigger] candidates@[k]) == (
                        k as usize,
                        scores[k],
                    ),
                count == in_band(scores.take(j as int), limit).len(),
                count <= j,
            decreases candidates@.len() - j,
        {
            proof {
                assert(scores.take(j + 1).drop_last() =~= scores.take(j as int));
                assert(scores.take(j + 1).last() == scores[j as int]);
                assert(candidates@[j as int] == (j as usize, scores[j as int]));
            }
            if candidates.at(j).1 <= limit {
                count += 1;
            }
            j += 1;
        }
        proof {
            assert(count == band.len());
            assert(count > 0);
        }
        let hashed: u64 = query_ix.wrapping_mul(SCATTER_FACTOR);
        assert(hashed >> 33 < 0x8000_0000) by (bit_vector);
        let pick: usize = (hashed >> 33) as usize % count;
        let mut seen: usize = 0;
        let mut k: usize = 0;
        while k < candidates.len()
            invariant
                k <= candidates@.len(),
                candidates@.len() == scores.len(),
                scores.len() == self.nodes@.len(),
                forall|x: int|
                    0 <= x < candidates@.len() ==> (#[trigger] candidates@[x]) == (
                        x as usize,
                        scores[x],
                    ),
                seen == in_band(scores.take(k as int), limit).len(),
                seen <= pick,
                pick < band.len(),
                band == in_band(scores, limit),
                pick == scattered(query_ix) as int % band.len() as int,
                primary_of(self.nodes@, query_ix) == Some(band[pick as int]),
            decreases candidates@.len() - k,
        {
            proof {
                assert(scores.take(k + 1).drop_last() =~= scores.take(k as int));
                assert(scores.take(k + 1).last() == scores[k as int]);
                assert(candidates@[k as int] == (k as usize, scores[k as int]));
            }
            let (idx, score) = candidates.at(k);
            if score <= limit {
                if seen == pick {
                    proof {
                        lemma_band_prefix(scores, k + 1, limit);
                        assert(in_band(scores.take(k + 1), limit)[seen as int] == k as int);
                    }
                    return Some(idx);
                }
                seen += 1;
            }
            k += 1;
        }
        proof {
            assert(scores.take(scores.len() as int) =~= scores);
        }
        None
    }

    /// The best node other than `primary_idx`; `None` when there is no other.
    pub fn select_secondary_idx(&self, primary_idx: usize) -> (r: Option<usize>)
        ensures
            match least_other(scores_of(self.nodes@), primary_idx as int) {
                Some(i) => r == Some(i as usize) && 0 <= i < self.nodes@.len(),
                None => r is None,
            },
    {
        let ghost scores = scores_of(self.nodes@);
        let mut best: Option<usize> = None;
        let mut best_score: u64 = 0;
        let mut i: usize = 0;
        proof {
            assert(scores.take(0).len() == 0);
        }
        while i < self.nodes.len()
            invariant
                i <= self.nodes@.len(),
                scores == scores_of(self.nodes@),
                match least_other(scores.take(i as int), primary_idx as int) {
                    Some(m) => best == Some(m as usize) && 0 <= m < i && scores[m] == best_score,
                    None => best is None,
                },
            decreases self.nodes@.len() - i,
        {
            proof {
                assert(scores.take(i + 1).drop_last() =~= scores.take(i as int));
                assert(scores.take(i + 1)[i as int] == scores[i as int]);
                let front = least_other(scores.take(i as int), primary_idx as int);
                if front is Some {
                    assert(scores.take(i + 1)[front->0] == scores[front->0]);
                }
            }
            if i != primary_idx {
                let score: u64 = self.nodes[i].selection_score();
                assert(score == scores[i as int]);
                let better = match best {
                    Some(_) => score < best_score,
                    None => true,
                };
                if better {
                    best = Some(i);
                    best_score = score;
                }
            }
            i += 1;
        }
        proof {
            assert(scores.take(scores.len() as int) =~= scores);
        }
        best
    }

    /// Starts the exchange of a query: the node to ask and how long to wait for it alone. `None`
    /// for an empty pool.
    pub fn begin_exchange(&mut self) -> (r: Option<ExchangeStart>)
        ensures
            old(self).nodes@.len() == 0 ==> r is None && *final(self) == *old(self),
            old(self).nodes@.len() > 0 ==> {
                let ix = old(self).next as u64;
                let p = primary_of(old(self).nodes@, ix)->0;
                let node = old(self).nodes@[p];
                &&& r == Some(start_for(old(self).nodes@, ix, old(self).hedge_delay_us))
                &&& r->0.primary == p
                &&& 0 <= p < old(self).nodes@.len()
                &&& final(self).next == usize_specs::wrapping_add(old(self).next, 1)
                &&& final(self).nodes@ == old(self).nodes@.update(
                    p,
                    UpstreamNode { last_selected: ix, ..node },
                )
                &&& final(self).hedge_delay_us == old(self).hedge_delay_us
                &&& final(self).active_hedges == old(self).active_hedges
            },
    {
        if self.nodes.len() == 0 {
            return None;
        }
        let query_ix: u64 = self.next as u64;
        let ghost nodes = self.nodes@;
        let primary: usize = match self.select_primary_idx(query_ix) {
            Some(i) => i,
            None => {
                return None;
            },
        };
        self.next = self.next.wrapping_add(1);
        let hedge_after_us: Option<u64> = match self.hedge_delay_us {
            Some(d) => Some(self.nodes[primary].hedge_delay(d)),
            None => None,
        };
        self.nodes[primary].last_selected = query_ix;
        proof {
            assert(self.nodes@ =~= nodes.update(
                primary as int,
                UpstreamNode { last_selected: query_ix, ..nodes[primary as int] },
            ));
        }
        Some(ExchangeStart { primary, hedge_after_us })
    }

    /// The first node took too long: decides whether to ask a second one. Unless over budget, the
    /// query now counts against the budget, and as hedged.
    pub fn on_hedge_timer(&mut self, primary: usize, hedged_queries: &mut u64) -> (r: HedgeStep)
        ensures
            old(self).active_hedges <= hedge_budget(old(self).nodes@.len())
                ==> final(self).active_hedges <= hedge_budget(old(self).nodes@.len()),
            final(self).nodes == old(self).nodes,
            final(self).next == old(self).next,
            final(self).hedge_delay_us == old(self).hedge_delay_us,
            r == hedge_step(old(self).nodes@, old(self).active_hedges, primary),
            r matches HedgeStep::Ask(i) ==> i < old(self).nodes@.len() && i != primary,
            if r is OverBudget {
                &&& final(self).active_hedges == old(self).active_hedges
                &&& *final(hedged_queries) == *old(hedged_queries)
            } else {
                &&& final(self).active_hedges == old(self).active_hedges + 1
                &&& *final(hedged_queries) == bumped(*old(hedged_queries), 1)
            },
    {
        let n: u64 = self.nodes.len() as u64;
        let budget: u64 = if n >= MIN_HEDGE_BUDGET {
            n
        } else {
            MIN_HEDGE_BUDGET
        };
        if self.active_hedges >= budget {
            return HedgeStep::OverBudget;
        }
        self.active_hedges = self.active_hedges + 1;
        *hedged_queries = hedged_queries.wrapping_add(1);
        proof {
            lemma_least_other(scores_of(self.nodes@), primary as int);
        }
        match self.select_secondary_idx(primary) {
            Some(i) => HedgeStep::Ask(i),
            None => HedgeStep::NoOther,
        }
    }

    /// Gives back the budget of a query that counted against it.
    pub fn end_hedge(&mut self)
        requires
            old(self).active_hedges > 0,
        ensures
            *final(self) == (UpstreamPool {
                active_hedges: (old(self).active_hedges - 1) as u64,
                ..*old(self)
            }),
    {
        self.active_hedges = self.active_hedges - 1;
    }

    /// Whether the first of two results ends the exchange: a response does, and the other node is
    /// given up.
    pub fn on_first_result(&mut self, ok: bool, other: usize) -> (r: bool)
        requires
            other < old(self).nodes@.len(),
        ensures
            r == ok,
            final(self).next == old(self).next,
            final(self).hedge_delay_us == old(self).hedge_delay_us,
            final(self).active_hedges == old(self).active_hedges,
            final(self).nodes@ == (if ok {
                let node = old(self).nodes@[other as int];
                old(self).nodes@.update(
                    other as int,
                    UpstreamNode {
                        stats: NodeStats {
                            queries_cancelled: bumped(node.stats.queries_cancelled, 1),
                            ..node.stats
                        },
                        ..node
                    },
                )
            } else {
                old(self).nodes@
            }),
    {
        if ok {
            let ghost nodes = self.nodes@;
            self.nodes[other].stats.record_cancelled();
            proof {
                assert(self.nodes@ =~= nodes.update(other as int, self.nodes@[other as int]));
            }
        }
        ok
    }

    /// Counters of every node, under its name.
    pub fn node_snapshots(&self, pool_name: &str) -> (r: Vec<NodeStatsSnapshot>)
        ensures
            r@.len() == self.nodes@.len(),
            forall|i: int|
                0 <= i < r@.len() ==> {
                    let s = #[trigger] r@[i];
                    &&& s.name@ == node_name_text(pool_name@, i as nat)
                    &&& s.addr@ == self.nodes@[i].addr_display@
                    &&& s.counters() == self.nodes@[i].stats
                },
    {
        let mut out: Vec<NodeStatsSnapshot> = Vec::new();
        let mut i: usize = 0;
        while i < self.nodes.len()
            invariant
                i <= self.nodes@.len(),
                out@.len() == i,
                forall|k: int|
                    0 <= k < i ==> {
                        let s = #[trigger] out@[k];
                        &&& s.name@ == node_name_text(pool_name@, k as nat)
                        &&& s.addr@ == self.nodes@[k].addr_display@
                        &&& s.counters() == self.nodes@[k].stats
                    },
            decreases self.nodes@.len() - i,
        {
            let name = node_name(pool_name, i);
            let node = &self.nodes[i];
            out.push(node.stats.snapshot(name.as_str(), node.addr_display.as_str()));
            i += 1;
        }
        out
    }
}

proof fn lemma_band_prefix(scores: Seq<u64>, n: int, limit: u64)
    requires
        0 <= n <= scores.len(),
    ensures
        in_band(scores.take(n), limit).len() <= in_band(scores, limit).len(),
        forall|k: int|
            0 <= k < in_band(scores.take(n), limit).len() ==> (#[trigger] in_band(
                scores.take(n),
                limit,
            )[k]) == in_band(scores, limit)[k],
    decreases scores.len() - n,
{
    if n < scores.len() {
        assert(scores.take(n + 1).drop_last() =~= scores.take(n));
        lemma_band_prefix(scores, n + 1, limit);
        let a = in_band(scores.take(n), limit);
        let b = in_band(scores.take(n + 1), limit);
        assert forall|k: int| 0 <= k < a.len() implies (#[trigger] a[k]) == in_band(
            scores,
            limit,
        )[k] by {
            assert(b[k] == a[k]);
        }
    } else {
        assert(scores.take(n) =~= scores);
    }
}

/// The result of an exchange with two nodes, given which of them ended first: the first response
/// counts; where neither node has one, the primary's failure.
pub open spec fn hedged_result(
    primary: Result<Vec<u8>, ExchangeError>,
    secondary: Result<Vec<u8>, ExchangeError>,
    primary_first: bool,
) -> Result<Vec<u8>, ExchangeError> {
    if secondary is Ok && !(primary_first && primary is Ok) {
        secondary
    } else {
        primary
    }
}

/// The result of an exchange with two nodes. Where the first result was a failure, the other node
/// was waited for.
pub fn settle_hedge(
    primary: Result<Vec<u8>, ExchangeError>,
    secondary: Result<Vec<u8>, ExchangeError>,
    primary_first: bool,
) -> (r: Result<Vec<u8>, ExchangeError>)
    ensures
        r == hedged_result(primary, secondary, primary_first),
{
    if secondary.is_ok() && !(primary_first && primary.is_ok()) {
        secondary
    } else {
        primary
    }
}

/// A hedged exchange succeeds exactly when one of its two nodes responds, and then with a response
/// of one of them.
pub proof fn law_hedge_succeeds_with_either(
    primary: Result<Vec<u8>, ExchangeError>,
    secondary: Result<Vec<u8>, ExchangeError>,
    primary_first: bool,
)
    ensures
        hedged_result(primary, secondary, primary_first) is Ok <==> primary is Ok
            || secondary is Ok,
        hedged_result(primary, secondary, primary_first) == primary || hedged_result(
            primary,
            secondary,
            primary_first,
        ) == secondary,
{
}

// Setting up a pool.

/// Name of the node at a position of a pool.
pub open spec fn node_name_text(pool: Seq<char>, i: nat) -> Seq<char> {
    pool + "-"@ + decimal_text(i)
}

fn node_name(pool: &str, i: usize) -> (r: String)
    ensures
        r@ == node_name_text(pool@, i as nat),
{
    let mut out = pool.to_owned();
    out.append("-");
    out.append(decimal(i as u64).as_str());
    out
}

/// How a node is set up.
pub struct NodePlan {
    pub name: String,
    pub addr_display: String,
    pub transport: TransportKind,
    pub ecs_mode: EcsMode,
    pub mark: Option<u32>,
    /// Name of the server for its certificate; the address where none is configured.
    pub server_name: String,
    /// The server's name is not sent.
    pub no_sni: bool,
    /// Path of queries over HTTP.
    pub path: String,
}

/// Who renews the connections of a transport.
pub open spec fn kind_of(proto: UpstreamProto) -> TransportKind {
    match proto {
        UpstreamProto::Udp => TransportKind::Udp,
        UpstreamProto::Tcp => TransportKind::Tcp,
        UpstreamProto::Tls => TransportKind::Tcp,
        _ => TransportKind::Own,
    }
}

/// The plan sets up the node at a position of a pool for an endpoint.
pub open spec fn plans(plan: NodePlan, pool: Seq<char>, i: nat, ep: UpstreamEndpoint) -> bool {
    &&& plan.name@ == node_name_text(pool, i)
    &&& plan.addr_display@ == endpoint_text(ep)
    &&& plan.transport == kind_of(ep.proto)
    &&& plan.ecs_mode == (match ep.ecs_mode {
        Some(m) => m,
        None => EcsMode::Strip,
    })
    &&& plan.mark == ep.mark
    &&& plan.server_name@ == (match ep.server_name {
        Some(n) => n@,
        None => ep.ip@,
    })
    &&& plan.no_sni == ep.no_sni
    &&& plan.path@ == path_or_default(ep.path)
}

/// Plans the node for an endpoint.
pub fn plan_node(pool: &str, i: usize, ep: &UpstreamEndpoint) -> (r: NodePlan)
    ensures
        plans(r, pool@, i as nat, *ep),
{
    NodePlan {
        name: node_name(pool, i),
        addr_display: format_upstream_addr(ep),
        transport: match ep.proto {
            UpstreamProto::Udp => TransportKind::Udp,
            UpstreamProto::Tcp => TransportKind::Tcp,
            UpstreamProto::Tls => TransportKind::Tcp,
            _ => TransportKind::Own,
        },
        ecs_mode: match ep.ecs_mode {
            Some(m) => m,
            None => EcsMode::Strip,
        },
        mark: ep.mark,
        server_name: match &ep.server_name {
            Some(n) => n.clone(),
            None => ep.ip.clone(),
        },
        no_sni: ep.no_sni,
        path: match &ep.path {
            Some(p) => p.clone(),
            None => "/dns-query".to_owned(),
        },
    }
}

/// Endpoints with this transport.
pub open spec fn count_proto(eps: Seq<UpstreamEndpoint>, proto: UpstreamProto) -> nat
    decreases eps.len(),
{
    if eps.len() == 0 {
        0
    } else {
        count_proto(eps.drop_last(), proto) + (if eps.last().proto == proto {
            1nat
        } else {
            0nat
        })
    }
}

fn counted_endpoints(eps: &Vec<UpstreamEndpoint>, proto: UpstreamProto) -> (r: usize)
    ensures
        r == count_proto(eps@, proto),
{
    let mut n: usize = 0;
    let mut i: usize = 0;
    proof {
        assert(eps@.take(0).len() == 0);
    }
    while i < eps.len()
        invariant
            i <= eps@.len(),
            n <= i,
            n == count_proto(eps@.take(i as int), proto),
        decreases eps@.len() - i,
    {
        proof {
            assert(eps@.take(i + 1).drop_last() =~= eps@.take(i as int));
            assert(eps@.take(i + 1).last() == eps@[i as int]);
        }
        if eps[i].proto == proto {
            n += 1;
        }
        i += 1;
    }
    proof {
        assert(eps@.take(eps@.len() as int) =~= eps@);
    }
    n
}

/// A count behind its label, when it is not zero.
pub open spec fn labelled(label: Seq<char>, n: nat) -> Seq<char> {
    if n > 0 {
        label + decimal_text(n)
    } else {
        Seq::empty()
    }
}

fn append_count(out: &mut String, label: &str, n: usize)
    ensures
        final(out)@ == old(out)@ + labelled(label@, n as nat),
{
    if n > 0 {
        out.append(label);
        out.append(decimal(n as u64).as_str());
    }
    proof {
        assert(out@ =~= old(out)@ + labelled(label@, n as nat));
    }
}

/// One line on a pool: how many endpoints of each transport it has, and its sockets.
pub open spec fn summary_text(name: Seq<char>, eps: Seq<UpstreamEndpoint>, sockets: nat) -> Seq<char> {
    let udp = count_proto(eps, UpstreamProto::Udp);
    "upstream "@ + name + labelled(" udp="@, udp) + labelled(
        " tcp="@,
        count_proto(eps, UpstreamProto::Tcp),
    ) + labelled(" tls="@, count_proto(eps, UpstreamProto::Tls)) + labelled(
        " https="@,
        count_proto(eps, UpstreamProto::Https),
    ) + labelled(" quic="@, count_proto(eps, UpstreamProto::Quic)) + labelled(
        " h3="@,
        count_proto(eps, UpstreamProto::H3),
    ) + if udp > 0 {
        " udp_pool="@ + decimal_text(sockets)
    } else {
        Seq::empty()
    }
}

/// One line on a pool.
pub fn pool_summary(name: &str, eps: &Vec<UpstreamEndpoint>, udp_sockets: usize) -> (r: String)
    ensures
        r@ == summary_text(name@, eps@, udp_sockets as nat),
{
    let udp: usize = counted_endpoints(eps, UpstreamProto::Udp);
    let mut out = "upstream ".to_owned();
    out.append(name);
    append_count(&mut out, " udp=", udp);
    append_count(&mut out, " tcp=", counted_endpoints(eps, UpstreamProto::Tcp));
    append_count(&mut out, " tls=", counted_endpoints(eps, UpstreamProto::Tls));
    append_count(&mut out, " https=", counted_endpoints(eps, UpstreamProto::Https));
    append_count(&mut out, " quic=", counted_endpoints(eps, UpstreamProto::Quic));
    append_count(&mut out, " h3=", counted_endpoints(eps, UpstreamProto::H3));
    let ghost counts = out@;
    if udp > 0 {
        out.append(" udp_pool=");
        out.append(decimal(udp_sockets as u64).as_str());
    }
    proof {
        if udp > 0 {
            assert(out@ =~= counts + (" udp_pool="@ + decimal_text(udp_sockets as nat)));
        } else {
            assert(out@ =~= counts + Seq::<char>::empty());
        }
    }
    out
}

impl UpstreamPool {
    /// A pool of fresh nodes for these endpoints, with the plan of each.
    pub fn new(
        name: &str,
        eps: &Vec<UpstreamEndpoint>,
        max_inflight: usize,
        hedge_delay_us: Option<u64>,
    ) -> (r: (UpstreamPool, Vec<NodePlan>))
        ensures
            r.0.next == 0,
            r.0.hedge_delay_us == hedge_delay_us,
            r.0.active_hedges == 0,
            r.0.nodes@.len() == eps@.len(),
            r.1@.len() == eps@.len(),
            forall|i: int|
                0 <= i < eps@.len() ==> plans(#[trigger] r.1@[i], name@, i as nat, eps@[i]),
            forall|i: int|
                0 <= i < eps@.len() ==> {
                    let n = #[trigger] r.0.nodes@[i];
                    &&& n.transport == kind_of(eps@[i].proto)
                    &&& n.health == HealthStats::fresh(max_inflight as u64)
                    &&& n.stats == NodeStats::zero()
                    &&& n.last_selected == 0
                    &&& n.addr_display@ == endpoint_text(eps@[i])
                },
    {
        let mut nodes: Vec<UpstreamNode> = Vec::new();
        let mut all: Vec<NodePlan> = Vec::new();
        let mut i: usize = 0;
        while i < eps.len()
            invariant
                i <= eps@.len(),
                nodes@.len() == i,
                all@.len() == i,
                forall|k: int| 0 <= k < i ==> plans(#[trigger] all@[k], name@, k as nat, eps@[k]),
                forall|k: int|
                    0 <= k < i ==> {
                        let n = #[trigger] nodes@[k];
                        &&& n.transport == kind_of(eps@[k].proto)
                        &&& n.health == HealthStats::fresh(max_inflight as u64)
                        &&& n.stats == NodeStats::zero()
                        &&& n.last_selected == 0
                        &&& n.addr_display@ == endpoint_text(eps@[k])
                    },
            decreases eps@.len() - i,
        {
            let plan = plan_node(name, i, &eps[i]);
            nodes.push(
                UpstreamNode {
                    transport: plan.transport,
                    health: HealthStats::new(max_inflight as u64),
                    stats: NodeStats::new(),
                    last_selected: 0,
                    addr_display: plan.addr_display.clone(),
                },
            );
            all.push(plan);
            i += 1;
        }
        (UpstreamPool { nodes, next: 0, hedge_delay_us, active_hedges: 0 }, all)
    }
}

// What selection comes to.

/// The nodes that share the load are exactly those whose score is at most twice the best one, or
/// less than two milliseconds of score behind it, each once.
pub proof fn law_close_nodes_share_the_load(nodes: Seq<UpstreamNode>, best: int, i: int)
    requires
        0 <= best < nodes.len(),
        0 <= i < nodes.len(),
        forall|j: int| 0 <= j < nodes.len() ==> nodes[best].score() <= (#[trigger] nodes[j]).score(),
        2 * nodes[best].score() + 2_000 <= u64::MAX,
    ensures
        band_of(nodes).contains(i) <==> nodes[i].score() <= 2 * nodes[best].score()
            || nodes[i].score() <= nodes[best].score() + 2_000,
        forall|k: int|
            0 <= k < band_of(nodes).len() ==> 0 <= (#[trigger] band_of(nodes)[k]) < nodes.len(),
        band_of(nodes).no_duplicates(),
{
    let scores = scores_of(nodes);
    lemma_least_other(scores, -1);
    let m = least_other(scores, -1)->0;
    assert(scores[m] == nodes[m].score());
    assert(scores[best] == nodes[best].score());
    assert(scores[i] == nodes[i].score());
    let limit = band_limit_of(scores[m], SELECT_BAND_FACTOR, SELECT_BAND_FLOOR_US);
    lemma_in_band(scores, limit);
    lemma_band_ascends(scores, limit);
    let band = band_of(nodes);
    if band.contains(i) {
        let k = choose|k: int| 0 <= k < band.len() && band[k] == i;
        assert(scores[band[k]] <= limit);
    }
}

proof fn lemma_band_ascends(scores: Seq<u64>, limit: u64)
    ensures
        forall|a: int, b: int|
            0 <= a < b < in_band(scores, limit).len() ==> #[trigger] in_band(scores, limit)[a]
                < #[trigger] in_band(scores, limit)[b],
    decreases scores.len(),
{
    if scores.len() > 0 {
        let front = scores.drop_last();
        lemma_band_ascends(front, limit);
        lemma_in_band(front, limit);
        let band = in_band(scores, limit);
        let before = in_band(front, limit);
        assert forall|a: int, b: int| 0 <= a < b < band.len() implies band[a] < band[b] by {
            assert(band[a] == before[a]);
            if b < before.len() {
                assert(band[b] == before[b]);
            }
        }
    }
}

/// A query goes to a node that shares the load, unless a node was left alone for a hundred queries:
/// then it goes to the one that was left alone longest.
pub proof fn law_forgotten_node_is_tried(nodes: Seq<UpstreamNode>, query_ix: u64, oldest: int)
    requires
        0 <= oldest < nodes.len(),
        forall|j: int|
            0 <= j < nodes.len() ==> nodes[oldest].last_selected <= (
            #[trigger] nodes[j]).last_selected <= query_ix,
    ensures
        ({
            let p = primary_of(nodes, query_ix)->0;
            &&& primary_of(nodes, query_ix) is Some
            &&& 0 <= p < nodes.len()
            &&& nodes[oldest].last_selected + 100 <= query_ix ==> nodes[p].last_selected
                == nodes[oldest].last_selected
            &&& nodes[oldest].last_selected + 100 > query_ix ==> band_of(nodes).contains(p)
        }),
{
    let ages = ages_of(nodes);
    let scores = scores_of(nodes);
    lemma_least_other(ages, -1);
    lemma_least_other(scores, -1);
    let m = least_other(ages, -1)->0;
    assert(ages[m] == nodes[m].last_selected);
    assert(ages[oldest] == nodes[oldest].last_selected);
    law_selection(nodes, query_ix);
    if nodes[oldest].last_selected + 100 > query_ix {
        let b = least_other(scores, -1)->0;
        let limit = band_limit_of(scores[b], SELECT_BAND_FACTOR, SELECT_BAND_FLOOR_US);
        lemma_in_band(scores, limit);
        assert(scores[b] <= limit);
        let band = band_of(nodes);
        assert(band.contains(b));
        let k = scattered(query_ix) as int % band.len() as int;
        assert(0 <= k < band.len()) by (nonlinear_arith)
            requires
                band.len() > 0,
                k == scattered(query_ix) as int % band.len() as int,
        ;
        assert(band[k] == primary_of(nodes, query_ix)->0);
    }
}

/// Which of the nodes that share the load a query goes to follows from its number alone: the upper
/// bits of a product.
pub proof fn law_queries_are_scattered(query_ix: u64)
    ensures
        scattered(query_ix) == ((query_ix * 11400714819323198485) % 18446744073709551616) / 8589934592,
{
    let y = u64_specs::wrapping_mul(query_ix, SCATTER_FACTOR);
    assert(y >> 33 == y / 8589934592) by (bit_vector);
}

/// The second node is another one than the first, none of the others has a better score, and of
/// equals the first is taken. There is one whenever the pool has another node.
pub proof fn law_second_node_is_the_best_other(nodes: Seq<UpstreamNode>, primary: int)
    requires
        0 <= primary < nodes.len(),
    ensures
        match least_other(scores_of(nodes), primary) {
            Some(s) => {
                &&& 0 <= s < nodes.len()
                &&& s != primary
                &&& forall|i: int|
                    0 <= i < nodes.len() && i != primary ==> nodes[s].score() <= (
                    #[trigger] nodes[i]).score()
                &&& forall|i: int|
                    0 <= i < s && i != primary ==> nodes[s].score() < (#[trigger] nodes[i]).score()
            },
            None => nodes.len() == 1,
        },
{
    let scores = scores_of(nodes);
    lemma_least_other(scores, primary);
    lemma_first_least(scores, primary);
    if let Some(s) = least_other(scores, primary) {
        assert forall|i: int| 0 <= i < nodes.len() && i != primary implies nodes[s].score() <= (
        #[trigger] nodes[i]).score() by {
            assert(scores[s] <= scores[i]);
        }
        assert forall|i: int| 0 <= i < s && i != primary implies nodes[s].score() < (
        #[trigger] nodes[i]).score() by {
            assert(scores[s] < scores[i]);
        }
    }
}

proof fn lemma_first_least(keys: Seq<u64>, skip: int)
    ensures
        match least_other(keys, skip) {
            Some(m) => forall|i: int| 0 <= i < m && i != skip ==> keys[m] < #[trigger] keys[i],
            None => true,
        },
    decreases keys.len(),
{
    if keys.len() > 0 {
        let front = keys.drop_last();
        lemma_first_least(front, skip);
        lemma_least_other(front, skip);
        assert forall|i: int| 0 <= i < front.len() implies front[i] == #[trigger] keys[i] by {}
    }
}

/// The score of a measured node is its time for each query in flight and one more; without
/// measurements only the queries count, so that a new idle node is the best there is. A full window
/// makes it four times as bad.
pub proof fn law_score_counts_time_and_load(n: UpstreamNode)
    requires
        n.stats.active_inflight >= 0,
        n.health.concurrency_window > 0,
        n.health.ewma_rtt_us * (1 + n.stats.active_inflight) <= u64::MAX / 4,
        n.stats.active_inflight <= u64::MAX / 4,
    ensures
        ({
            let load = n.stats.active_inflight as int;
            let base = if n.health.ewma_rtt_us == 0 {
                load
            } else {
                n.health.ewma_rtt_us * (1 + load)
            };
            &&& load < n.health.concurrency_window ==> n.score() == base
            &&& load >= n.health.concurrency_window ==> n.score() == 4 * base
        }),
        n.health.ewma_rtt_us == 0 && n.stats.active_inflight == 0 ==> n.score() == 0,
{
    assert(0 * (1 + n.stats.active_inflight) == 0) by (nonlinear_arith);
    assert(n.health.ewma_rtt_us * (1 + n.stats.active_inflight) >= 0) by (nonlinear_arith)
        requires
            n.stats.active_inflight >= 0,
    ;
}

/// A second node is considered after three times the first one's time, but not within two
/// milliseconds; after the configured delay where the first has no measurement that counts.
pub proof fn law_patience_follows_measurements(n: UpstreamNode, fallback_us: u64)
    ensures
        n.health.ewma_rtt_us == 0 ==> n.patience_us(fallback_us) == fallback_us,
        n.health.consecutive_failures > 0 ==> n.patience_us(fallback_us) == fallback_us,
        n.health.ewma_rtt_us > 0 && n.health.consecutive_failures == 0 && 3 * n.health.ewma_rtt_us
            <= u64::MAX ==> n.patience_us(fallback_us) == (if 3 * n.health.ewma_rtt_us > 2_000 {
            3 * n.health.ewma_rtt_us
        } else {
            2_000
        }),
{
}

/// An exchange counts once, by how it ended: an answer with its time, a failure, or a timeout both
/// as failure and as timeout; one that was given up counts as none of these. It is no longer in
/// flight in any case.
pub proof fn law_exchange_leaves_its_mark(n: UpstreamNode, rtt_us: u64)
    requires
        n.stats.active_inflight > i64::MIN,
        n.stats.queries_ok < u64::MAX,
        n.stats.queries_err < u64::MAX,
        n.stats.queries_timeout < u64::MAX,
        n.stats.rtt_sum_us + rtt_us <= u64::MAX,
    ensures
        n.stats_after(NodeResult::Answered(rtt_us)) == (NodeStats {
            active_inflight: (n.stats.active_inflight - 1) as i64,
            queries_ok: (n.stats.queries_ok + 1) as u64,
            rtt_sum_us: (n.stats.rtt_sum_us + rtt_us) as u64,
            ..n.stats
        }),
        n.stats_after(NodeResult::Timeout) == (NodeStats {
            active_inflight: (n.stats.active_inflight - 1) as i64,
            queries_err: (n.stats.queries_err + 1) as u64,
            queries_timeout: (n.stats.queries_timeout + 1) as u64,
            ..n.stats
        }),
        n.stats_after(NodeResult::Error) == (NodeStats {
            active_inflight: (n.stats.active_inflight - 1) as i64,
            queries_err: (n.stats.queries_err + 1) as u64,
            ..n.stats
        }),
        n.stats_after(NodeResult::Cancelled) == (NodeStats {
            active_inflight: (n.stats.active_inflight - 1) as i64,
            ..n.stats
        }),
        n.health_after(NodeResult::Cancelled) == n.health,
        n.health_after(NodeResult::Answered(rtt_us)).consecutive_failures == 0,
        n.health.consecutive_failures < u32::MAX ==> n.health_after(
            NodeResult::Timeout,
        ).consecutive_failures == n.health.consecutive_failures + 1 && n.health_after(
            NodeResult::Error,
        ).consecutive_failures == n.health.consecutive_failures + 1,
        n.health_after(NodeResult::Error).concurrency_window == n.health.concurrency_window,
{
}

/// Connections are renewed by the sixth failure in a row where it is a timeout, and by every further
/// timeout; only datagram sockets and stream connections are. A node that answers after failures is
/// reported as recovered, and one that answered before is not.
pub proof fn law_sixth_timeout_renews(n: UpstreamNode, rtt_us: u64)
    requires
        n.health.consecutive_failures < u32::MAX,
    ensures
        n.health.consecutive_failures < 5 ==> n.action_after(NodeResult::Timeout)
            == NodeAction::Nothing,
        n.health.consecutive_failures >= 5 ==> n.action_after(NodeResult::Timeout) == (
        match n.transport {
            TransportKind::Udp => NodeAction::RefreshSockets,
            TransportKind::Tcp => NodeAction::Reconnect,
            TransportKind::Own => NodeAction::Nothing,
        }),
        n.action_after(NodeResult::Error) == NodeAction::Nothing,
        n.action_after(NodeResult::Cancelled) == NodeAction::Nothing,
        n.action_after(NodeResult::Answered(rtt_us)) == NodeAction::ReportRecovery
            <==> n.health.consecutive_failures > 0,
        n.health.consecutive_failures == 0 ==> n.action_after(NodeResult::Answered(rtt_us))
            == NodeAction::Nothing,
{
}

/// As many queries as there are nodes may have asked a second one, and four in any case.
pub proof fn law_budget_fits_the_pool(n: nat)
    ensures
        hedge_budget(n) >= n,
        hedge_budget(n) >= 4,
        hedge_budget(n) == n || hedge_budget(n) == 4,
{
}

/// Of two responses the one that came first counts; of two failures the primary's.
pub proof fn law_first_response_counts(
    primary: Result<Vec<u8>, ExchangeError>,
    secondary: Result<Vec<u8>, ExchangeError>,
)
    ensures
        primary is Ok && secondary is Ok ==> hedged_result(primary, secondary, true) == primary
            && hedged_result(primary, secondary, false) == secondary,
        primary is Ok && secondary is Err ==> hedged_result(primary, secondary, true) == primary
            && hedged_result(primary, secondary, false) == primary,
        primary is Err && secondary is Ok ==> hedged_result(primary, secondary, true) == secondary
            && hedged_result(primary, secondary, false) == secondary,
        primary is Err && secondary is Err ==> hedged_result(primary, secondary, true) == primary
            && hedged_result(primary, secondary, false) == primary,
{
}

/// What is not configured for an endpoint: client subnets are stripped, its address stands for its
/// name, and queries over the web go to the usual path.
pub proof fn law_plan_fills_in_defaults(
    plan: NodePlan,
    pool: Seq<char>,
    i: nat,
    ep: UpstreamEndpoint,
)
    requires
        plans(plan, pool, i, ep),
    ensures
        ep.ecs_mode is None ==> plan.ecs_mode is Strip,
        ep.ecs_mode is Some ==> plan.ecs_mode == ep.ecs_mode->0,
        ep.server_name is None ==> plan.server_name@ == ep.ip@,
        ep.server_name is Some ==> plan.server_name@ == ep.server_name->0@,
        ep.path is None ==> plan.path@ == "/dns-query"@,
        ep.path is Some ==> plan.path@ == ep.path->0@,
        plan.no_sni == ep.no_sni,
        plan.mark == ep.mark,
        plan.transport is Udp <==> ep.proto is Udp,
        plan.transport is Tcp <==> ep.proto is Tcp || ep.proto is Tls,
{
}

/// Every endpoint is counted under its own transport and no other.
pub proof fn law_every_endpoint_is_counted(eps: Seq<UpstreamEndpoint>)
    ensures
        count_proto(eps, UpstreamProto::Udp) + count_proto(eps, UpstreamProto::Tcp) + count_proto(
            eps,
            UpstreamProto::Tls,
        ) + count_proto(eps, UpstreamProto::Https) + count_proto(eps, UpstreamProto::Quic)
            + count_proto(eps, UpstreamProto::H3) == eps.len(),
    decreases eps.len(),
{
    if eps.len() > 0 {
        law_every_endpoint_is_counted(eps.drop_last());
    }
}

/// When the first node took too long, the best of the others is asked too, unless the budget is used
/// up; in a pool of one there is no other.
pub proof fn law_best_other_is_asked(nodes: Seq<UpstreamNode>, active: u64, primary: usize)
    requires
        primary < nodes.len(),
        nodes.len() <= usize::MAX,
    ensures
        match hedge_step(nodes, active, primary) {
            HedgeStep::OverBudget => active >= 4 && active >= nodes.len(),
            HedgeStep::NoOther => nodes.len() == 1,
            HedgeStep::Ask(s) => {
                &&& s < nodes.len()
                &&& s != primary
                &&& active < 4 || active < nodes.len()
                &&& forall|i: int|
                    0 <= i < nodes.len() && i != primary ==> nodes[s as int].score() <= (
                    #[trigger] nodes[i]).score()
            },
        },
        active < 4 && nodes.len() > 1 ==> hedge_step(nodes, active, primary) is Ask,
        active >= 4 && active >= nodes.len() ==> hedge_step(nodes, active, primary) is OverBudget,
{
    law_second_node_is_the_best_other(nodes, primary as int);
}

/// An exchange starts with the selected node. A second one is considered only where that is
/// configured, and then after the patience that the first one's measurements give.
pub proof fn law_exchange_starts_with_the_selected(
    nodes: Seq<UpstreamNode>,
    ix: u64,
    hedge_delay_us: Option<u64>,
)
    requires
        0 < nodes.len() <= usize::MAX,
    ensures
        ({
            let start = start_for(nodes, ix, hedge_delay_us);
            let p = primary_of(nodes, ix)->0;
            &&& start.primary == p
            &&& 0 <= p < nodes.len()
            &&& hedge_delay_us is None ==> start.hedge_after_us is None
            &&& hedge_delay_us is Some ==> start.hedge_after_us == Some(
                nodes[p].patience_us(hedge_delay_us->0),
            )
        }),
{
    law_selection(nodes, ix);
}

} // verus!
