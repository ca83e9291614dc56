//! Health of an upstream node, and the guard that spaces out refreshes of its connections.

use vstd::prelude::*;
use vstd::wrapping::u32_specs;

verus! {

/// Scores this close to the best one, in microseconds, always count as equal to it.
pub const SELECT_BAND_FLOOR_US: u64 = 2_000;

/// Round-trip estimate after a failure of a node that has none.
pub const FAILURE_RTT_FLOOR_US: u64 = 50_000;

/// Greatest round-trip estimate that failures lead to.
pub const FAILURE_RTT_CAP_US: u64 = 10_000_000;

/// The product, or the greatest number where it does not fit.
pub open spec fn sat_mul(a: u64, b: u64) -> u64 {
    if a * b > u64::MAX {
        u64::MAX
    } else {
        (a * b) as u64
    }
}

/// The sum, or the greatest number where it does not fit.
pub open spec fn sat_add(a: u64, b: u64) -> u64 {
    if a + b > u64::MAX {
        u64::MAX
    } else {
        (a + b) as u64
    }
}

/// The product, or the greatest number where it does not fit.
pub fn saturating_product(a: u64, b: u64) -> (r: u64)
    ensures
        r == sat_mul(a, b),
{
    match a.checked_mul(b) {
        Some(p) => p,
        None => u64::MAX,
    }
}

pub open spec fn band_limit_of(best: u64, factor: u64, floor: u64) -> u64 {
    if sat_mul(best, factor) >= sat_add(best, floor) {
        sat_mul(best, factor)
    } else {
        sat_add(best, floor)
    }
}

/// Greatest score that counts as equal to the best one: `best` times `factor`, and at least
/// `floor` above `best`.
pub fn band_limit(best: u64, factor: u64, floor: u64) -> (r: u64)
    ensures
        r == band_limit_of(best, factor, floor),
        r >= best,
{
    let scaled: u64 = saturating_product(best, factor);
    let raised: u64 = if u64::MAX - best < floor {
        u64::MAX
    } else {
        best + floor
    };
    if scaled >= raised {
        scaled
    } else {
        raised
    }
}

/// Health of one node.
#[derive(Clone, Copy, Debug, PartialEq, Eq, Structural)]
pub struct HealthStats {
    /// Smoothed round-trip time in microseconds; zero while nothing was measured.
    pub ewma_rtt_us: u64,
    pub consecutive_failures: u32,
    /// Queries that the node is expected to bear at once: it grows by one with a success and is
    /// halved by a timeout.
    pub concurrency_window: u64,
    /// Greatest window; zero for no bound, and then the window never changes.
    pub max_inflight: u64,
}

/// The estimate after a success within `rtt_us`.
pub open spec fn blended(h: HealthStats, rtt_us: u64) -> int {
    if h.ewma_rtt_us == 0 || h.consecutive_failures != 0 {
        rtt_us as int
    } else {
        h.ewma_rtt_us - h.ewma_rtt_us / 4 + rtt_us / 4
    }
}

/// The estimate after a failure.
pub open spec fn inflated(rtt_us: u64) -> u64 {
    let doubled = sat_mul(rtt_us, 2);
    if doubled < FAILURE_RTT_FLOOR_US {
        FAILURE_RTT_FLOOR_US
    } else if doubled > FAILURE_RTT_CAP_US {
        FAILURE_RTT_CAP_US
    } else {
        doubled
    }
}

/// The health after a success within `rtt_us`.
pub open spec fn after_success(h: HealthStats, rtt_us: u64) -> HealthStats {
    HealthStats {
        ewma_rtt_us: blended(h, rtt_us) as u64,
        consecutive_failures: 0,
        concurrency_window: if h.max_inflight > 0 && h.concurrency_window < h.max_inflight {
            (h.concurrency_window + 1) as u64
        } else {
            h.concurrency_window
        },
        max_inflight: h.max_inflight,
    }
}

/// The health after a failure.
pub open spec fn after_failure(h: HealthStats, is_timeout: bool) -> HealthStats {
    HealthStats {
        ewma_rtt_us: inflated(h.ewma_rtt_us),
        consecutive_failures: u32_specs::wrapping_add(h.consecutive_failures, 1),
        concurrency_window: if is_timeout && h.max_inflight > 0 {
            if h.concurrency_window / 2 >= 1 {
                h.concurrency_window / 2
            } else {
                1
            }
        } else {
            h.concurrency_window
        },
        max_inflight: h.max_inflight,
    }
}

impl HealthStats {
    /// The window lies within its bounds.
    pub open spec fn wf(self) -> bool {
        self.max_inflight > 0 ==> 1 <= self.concurrency_window <= self.max_inflight
    }

    pub open spec fn fresh(max_inflight: u64) -> HealthStats {
        HealthStats {
            ewma_rtt_us: 0,
            consecutive_failures: 0,
            concurrency_window: if max_inflight > 0 {
                max_inflight
            } else {
                u64::MAX
            },
            max_inflight,
        }
    }

    pub fn new(max_inflight: u64) -> (r: Self)
        ensures
            r == HealthStats::fresh(max_inflight),
            r.wf(),
    {
        HealthStats {
            ewma_rtt_us: 0,
            consecutive_failures: 0,
            concurrency_window: if max_inflight > 0 {
                max_inflight
            } else {
                u64::MAX
            },
            max_inflight,
        }
    }

    /// Records a response that took `rtt_us`.
    pub fn record_success(&mut self, rtt_us: u64)
        ensures
            *final(self) == after_success(*old(self), rtt_us),
    {
        if self.ewma_rtt_us == 0 || self.consecutive_failures != 0 {
            self.ewma_rtt_us = rtt_us;
        } else {
            self.ewma_rtt_us = self.ewma_rtt_us - self.ewma_rtt_us / 4 + rtt_us / 4;
        }
        self.consecutive_failures = 0;
        if self.max_inflight > 0 && self.concurrency_window < self.max_inflight {
            self.concurrency_window = self.concurrency_window + 1;
        }
    }

    /// Records a failure; a timeout also counts as a sign of congestion.
    pub fn record_failure(&mut self, is_timeout: bool)
        ensures
            *final(self) == after_failure(*old(self), is_timeout),
    {
        let doubled: u64 = saturating_product(self.ewma_rtt_us, 2);
        self.ewma_rtt_us = if doubled < FAILURE_RTT_FLOOR_US {
            FAILURE_RTT_FLOOR_US
        } else if doubled > FAILURE_RTT_CAP_US {
            FAILURE_RTT_CAP_US
        } else {
            doubled
        };
        if is_timeout && self.max_inflight > 0 {
            let half: u64 = self.concurrency_window / 2;
            self.concurrency_window = if half >= 1 {
                half
            } else {
                1
            };
        }
        self.consecutive_failures = self.consecutive_failures.wrapping_add(1);
    }
}

/// Successes and failures keep the window within its bounds.
pub proof fn law_window_stays_bounded(h: HealthStats, rtt_us: u64, is_timeout: bool)
    requires
        h.wf(),
    ensures
        after_success(h, rtt_us).wf(),
        after_failure(h, is_timeout).wf(),
{
}

/// The smoothed time moves toward the measurement and not past it; a failure puts a node at no less
/// than a fixed time, at no more than the cap, and below the cap at no less than twice the estimate.
pub proof fn law_estimate_follows_measurements(h: HealthStats, rtt_us: u64, is_timeout: bool)
    requires
        h.ewma_rtt_us > 0,
        h.consecutive_failures == 0,
    ensures
        h.ewma_rtt_us <= rtt_us ==> h.ewma_rtt_us <= after_success(h, rtt_us).ewma_rtt_us <= rtt_us,
        h.ewma_rtt_us > rtt_us ==> rtt_us <= after_success(h, rtt_us).ewma_rtt_us
            <= h.ewma_rtt_us,
        FAILURE_RTT_FLOOR_US <= after_failure(h, is_timeout).ewma_rtt_us <= FAILURE_RTT_CAP_US,
        after_failure(h, is_timeout).ewma_rtt_us == FAILURE_RTT_CAP_US || after_failure(
            h,
            is_timeout,
        ).ewma_rtt_us >= 2 * h.ewma_rtt_us,
{
}

/// The first success after failures, whatever their number below the range of the counter, takes
/// the fresh measurement as it is.
pub proof fn law_recovery_takes_fresh_measurement(h: HealthStats, is_timeout: bool, rtt_us: u64)
    requires
        h.consecutive_failures < u32::MAX,
    ensures
        after_success(after_failure(h, is_timeout), rtt_us).ewma_rtt_us == rtt_us,
        after_success(after_failure(h, is_timeout), rtt_us).consecutive_failures == 0,
{
}

/// Lets one refresh run at a time, and the next only after a cooldown.
#[derive(Clone, Copy, Debug, PartialEq, Eq, Structural)]
pub struct RefreshGuard {
    pub not_before_ms: u64,
    pub in_progress: bool,
}

impl RefreshGuard {
    /// A refresh may start at `now_ms`.
    pub open spec fn may_begin(self, now_ms: u64) -> bool {
        now_ms >= self.not_before_ms && !self.in_progress
    }

    /// The guard after a refresh started at `now_ms`.
    pub open spec fn begun(self, now_ms: u64, cooldown_ms: u64) -> RefreshGuard {
        RefreshGuard { not_before_ms: (now_ms + cooldown_ms) as u64, in_progress: true }
    }

    /// The guard after a refresh ended.
    pub open spec fn finished(self) -> RefreshGuard {
        RefreshGuard { in_progress: false, ..self }
    }

    pub fn new() -> (r: Self)
        ensures
            r == (RefreshGuard { not_before_ms: 0, in_progress: false }),
    {
        RefreshGuard { not_before_ms: 0, in_progress: false }
    }

    /// Whether a refresh may start at `now_ms`; if so it has started, and the caller has to report
    /// its end.
    pub fn try_begin(&mut self, now_ms: u64, cooldown_ms: u64) -> (r: bool)
        requires
            now_ms + cooldown_ms <= u64::MAX,
        ensures
            r == old(self).may_begin(now_ms),
            *final(self) == (if r {
                old(self).begun(now_ms, cooldown_ms)
            } else {
                *old(self)
            }),
    {
        if now_ms < self.not_before_ms || self.in_progress {
            return false;
        }
        self.in_progress = true;
        self.not_before_ms = now_ms + cooldown_ms;
        true
    }

    /// Reports the end of a refresh.
    pub fn finish(&mut self)
        ensures
            *final(self) == old(self).finished(),
    {
        self.in_progress = false;
    }
}

impl Default for RefreshGuard {
    fn default() -> (r: Self)
        ensures
            r == (RefreshGuard { not_before_ms: 0, in_progress: false }),
    {
        Self::new()
    }
}

// What health comes to.

/// The smoothed time is three parts the estimate and one part the measurement, up to rounding. The
/// first measurement of a node is taken as it is.
pub proof fn law_estimate_is_weighted(h: HealthStats, rtt_us: u64)
    ensures
        h.ewma_rtt_us == 0 ==> after_success(h, rtt_us).ewma_rtt_us == rtt_us,
        h.ewma_rtt_us > 0 && h.consecutive_failures == 0 ==> {
            let fourfold = 4 * after_success(h, rtt_us).ewma_rtt_us;
            3 * h.ewma_rtt_us + rtt_us - 4 < fourfold < 3 * h.ewma_rtt_us + rtt_us + 4
        },
{
}

/// A failure doubles the estimate between fifty milliseconds and ten seconds, counts one failure
/// more, and forgets nothing else; a success ends the run of failures.
pub proof fn law_failure_doubles_the_estimate(h: HealthStats, is_timeout: bool, rtt_us: u64)
    requires
        h.consecutive_failures < u32::MAX,
    ensures
        25_000 <= h.ewma_rtt_us <= 5_000_000 ==> after_failure(h, is_timeout).ewma_rtt_us
            == h.ewma_rtt_us + h.ewma_rtt_us,
        h.ewma_rtt_us < 25_000 ==> after_failure(h, is_timeout).ewma_rtt_us == 50_000,
        h.ewma_rtt_us > 5_000_000 ==> after_failure(h, is_timeout).ewma_rtt_us == 10_000_000,
        after_failure(h, is_timeout).consecutive_failures == h.consecutive_failures + 1,
        after_success(h, rtt_us).consecutive_failures == 0,
        after_failure(h, is_timeout).max_inflight == h.max_inflight,
        after_success(h, rtt_us).max_inflight == h.max_inflight,
{
}

/// The window of a bounded node starts full, is halved by a timeout but never below one, grows by
/// one with a success up to its bound, and is left alone by every other failure. That of an
/// unbounded node never changes.
pub proof fn law_window_follows_congestion(h: HealthStats, rtt_us: u64, max_inflight: u64)
    requires
        h.wf(),
    ensures
        max_inflight > 0 ==> HealthStats::fresh(max_inflight).concurrency_window == max_inflight,
        HealthStats::fresh(max_inflight).ewma_rtt_us == 0,
        HealthStats::fresh(max_inflight).consecutive_failures == 0,
        h.max_inflight > 0 && h.concurrency_window > 1 ==> after_failure(h, true).concurrency_window
            == h.concurrency_window / 2,
        h.max_inflight > 0 && h.concurrency_window == 1 ==> after_failure(
            h,
            true,
        ).concurrency_window == 1,
        after_failure(h, false).concurrency_window == h.concurrency_window,
        h.max_inflight > 0 && h.concurrency_window < h.max_inflight ==> after_success(
            h,
            rtt_us,
        ).concurrency_window == h.concurrency_window + 1,
        h.concurrency_window == h.max_inflight ==> after_success(h, rtt_us).concurrency_window
            == h.concurrency_window,
        h.max_inflight == 0 ==> after_failure(h, true).concurrency_window == h.concurrency_window
            && after_success(h, rtt_us).concurrency_window == h.concurrency_window,
{
}

/// The band around the best score reaches to its multiple and at least the floor above it, and no
/// further.
pub proof fn law_band_reaches_multiple_and_floor(best: u64, factor: u64, floor: u64)
    requires
        best * factor <= u64::MAX,
        best + floor <= u64::MAX,
    ensures
        band_limit_of(best, factor, floor) >= best * factor,
        band_limit_of(best, factor, floor) >= best + floor,
        band_limit_of(best, factor, floor) == best * factor || band_limit_of(best, factor, floor)
            == best + floor,
{
}

/// One refresh runs at a time, and none starts before the cooldown since the last start is over;
/// from then on the next one may.
pub proof fn law_refreshes_keep_apart(g: RefreshGuard, now_ms: u64, cooldown_ms: u64, then: u64)
    requires
        now_ms + cooldown_ms <= u64::MAX,
    ensures
        !g.begun(now_ms, cooldown_ms).may_begin(then),
        g.begun(now_ms, cooldown_ms).finished().may_begin(then) <==> then >= now_ms + cooldown_ms,
        g.in_progress ==> !g.may_begin(then),
        !g.in_progress && g.not_before_ms == 0 ==> g.may_begin(then),
{
}

} // verus!
