//! The state of a running server, and the address sets that are restored when it starts.

use crate::config::{Config, VerdictCacheConfig};
use crate::dns::{answer_ips, answer_ips_of};
use crate::exchange::AddIps;
use crate::iprange::IpAddr;
use crate::querylog::QueryLogHandle;
use crate::reload::ReloadStats;
use crate::response_filter::{first_match, first_met, law_first_met, FilterAction};
use crate::ruleset::{LoadRequest, RuleSetDb, RuleSetFile};
use crate::server::{
    build_hot_state, hot_outcome, rules_name_servers, HotState, HotStateError, RoutingConfig,
    Server,
};
use crate::singleflight::InflightTable;
use crate::verdict_cache::{sure_room, taken_over, VerdictCache};
use vstd::prelude::*;
verus! {

/// A cached response, with the number kept with it.
pub struct CachedEntry {
    pub rule_id: u16,
    pub packet: Vec<u8>,
    pub question_end: usize,
}

/// The rule and the filter whose address set a cached response belongs to.
pub open spec fn set_of(e: CachedEntry, routing: RoutingConfig, db: Option<&RuleSetDb>) -> Option<
    (int, int),
> {
    if e.rule_id >= routing.rules@.len() {
        None
    } else {
        let filters = routing.rules@[e.rule_id as int].filters@;
        match first_met(filters, db, e.packet@, e.question_end as int) {
            Some(i) => if filters[i].action == FilterAction::Accept {
                Some((e.rule_id as int, i))
            } else {
                None
            },
            None => None,
        }
    }
}

/// The addresses that cached responses bring into the set of a rule and a filter, in order.
pub open spec fn restored(
    entries: Seq<CachedEntry>,
    routing: RoutingConfig,
    db: Option<&RuleSetDb>,
    rule: int,
    filter: int,
) -> Seq<IpAddr>
    decreases entries.len(),
{
    if entries.len() == 0 {
        Seq::empty()
    } else {
        let front = restored(entries.drop_last(), routing, db, rule, filter);
        let e = entries.last();
        if set_of(e, routing, db) == Some((rule, filter)) {
            front + answer_ips_of(e.packet@, e.question_end as int)
        } else {
            front
        }
    }
}

/// The list holds, once each, the sets that get addresses, with these addresses.
pub open spec fn restores(
    list: Seq<AddIps>,
    entries: Seq<CachedEntry>,
    routing: RoutingConfig,
    db: Option<&RuleSetDb>,
) -> bool {
    &&& forall|i: int|
        0 <= i < list.len() ==> {
            let a = #[trigger] list[i];
            &&& a.ips@ == restored(entries, routing, db, a.rule as int, a.filter as int)
            &&& a.ips@.len() > 0
        }
    &&& forall|i: int, j: int|
        0 <= i < j < list.len() ==> (#[trigger] list[i]).rule != (#[trigger] list[j]).rule
            || list[i].filter != list[j].filter
    &&& forall|rule: int, filter: int|
        #![trigger restored(entries, routing, db, rule, filter)]
        restored(entries, routing, db, rule, filter).len() > 0 ==> has_set(list, rule, filter)
}

/// The list holds the set of a rule and a filter.
pub open spec fn has_set(list: Seq<AddIps>, rule: int, filter: int) -> bool {
    exists|i: int| 0 <= i < list.len() && (#[trigger] list[i]).rule == rule && list[i].filter == filter
}

fn find_set(list: &Vec<AddIps>, rule: usize, filter: usize) -> (r: Option<usize>)
    ensures
        match r {
            Some(i) => i < list@.len() && list@[i as int].rule == rule && list@[i as int].filter
                == filter,
            None => !has_set(list@, rule as int, filter as int),
        },
{
    let mut i: usize = 0;
    while i < list.len()
        invariant
            i <= list@.len(),
            forall|k: int|
                0 <= k < i ==> (#[trigger] list@[k]).rule != rule || list@[k].filter != filter,
        decreases list@.len() - i,
    {
        if list[i].rule == rule && list[i].filter == filter {
            return Some(i);
        }
        i += 1;
    }
    None
}

fn extend_ips(out: &mut Vec<IpAddr>, more: &Vec<IpAddr>)
    ensures
        final(out)@ == old(out)@ + more@,
{
    let ghost before = out@;
    let mut i: usize = 0;
    proof {
        assert(before + more@.take(0) =~= before);
    }
    while i < more.len()
        invariant
            i <= more@.len(),
            out@ == before + more@.take(i as int),
        decreases more@.len() - i,
    {
        out.push(more[i]);
        i += 1;
        proof {
            assert(out@ =~= before + more@.take(i as int));
        }
    }
    proof {
        assert(more@.take(more@.len() as int) =~= more@);
    }
}

/// The addresses that cached responses bring back into the sets of the filters that accept them,
/// one batch for each set.
pub fn restore_filter_ips(
    entries: &Vec<CachedEntry>,
    routing: &RoutingConfig,
    db: Option<&RuleSetDb>,
) -> (r: Vec<AddIps>)
    ensures
        restores(r@, entries@, *routing, db),
{
    let mut out: Vec<AddIps> = Vec::new();
    let mut n: usize = 0;
    proof {
        assert(entries@.take(0).len() == 0);
    }
    while n < entries.len()
        invariant
            n <= entries@.len(),
            restores(out@, entries@.take(n as int), *routing, db),
        decreases entries@.len() - n,
    {
        let e = &entries[n];
        let ghost done = entries@.take(n as int);
        let ghost next = entries@.take(n + 1);
        let ghost before = out@;
        proof {
            assert(next.drop_last() =~= done);
            assert(next.last() == *e);
        }
        let mut target: Option<(usize, usize)> = None;
        if (e.rule_id as usize) < routing.rules.len() {
            let rule = &routing.rules[e.rule_id as usize];
            match first_match(rule.filters.as_slice(), db, e.packet.as_slice(), e.question_end) {
                Some((i, filter)) => {
                    if filter.action == FilterAction::Accept {
                        target = Some((e.rule_id as usize, i));
                    }
                },
                None => {},
            }
        }
        match target {
            Some((rule, filter)) => {
                let ips = answer_ips(e.packet.as_slice(), e.question_end);
                proof {
                    assert(set_of(*e, *routing, db) == Some((rule as int, filter as int)));
                    assert(restored(next, *routing, db, rule as int, filter as int) == restored(
                        done,
                        *routing,
                        db,
                        rule as int,
                        filter as int,
                    ) + ips@);
                }
                if ips.len() > 0 {
                    match find_set(&out, rule, filter) {
                        Some(i) => {
                            extend_ips(&mut out[i].ips, &ips);
                            proof {
                                lemma_restores_more(before, out@, i as int, done, next, *routing, db);
                            }
                        },
                        None => {
                            proof {
                                assert(restored(
                                    done,
                                    *routing,
                                    db,
                                    rule as int,
                                    filter as int,
                                ).len() == 0);
                                assert(Seq::<IpAddr>::empty() + ips@ =~= ips@);
                                assert(restored(
                                    done,
                                    *routing,
                                    db,
                                    rule as int,
                                    filter as int,
                                ) =~= Seq::<IpAddr>::empty());
                            }
                            out.push(AddIps { rule, filter, ips });
                            proof {
                                assert(out@.drop_last() =~= before);
                                lemma_restores_new(before, out@, done, next, *routing, db);
                            }
                        },
                    }
                } else {
                    proof {
                        assert forall|a: int, b: int| #[trigger]
                            restored(next, *routing, db, a, b) == restored(
                                done,
                                *routing,
                                db,
                                a,
                                b,
                            ) by {
                            assert(restored(done, *routing, db, a, b) + ips@ =~= restored(
                                done,
                                *routing,
                                db,
                                a,
                                b,
                            ));
                        }
                    }
                }
            },
            None => {
                proof {
                    assert(set_of(*e, *routing, db) is None);
                    assert forall|a: int, b: int| #[trigger]
                        restored(next, *routing, db, a, b) == restored(done, *routing, db, a, b) by {}
                }
            },
        }
        n += 1;
    }
    proof {
        assert(entries@.take(entries@.len() as int) =~= entries@);
    }
    out
}

proof fn lemma_restores_more(
    before: Seq<AddIps>,
    after: Seq<AddIps>,
    i: int,
    done: Seq<CachedEntry>,
    next: Seq<CachedEntry>,
    routing: RoutingConfig,
    db: Option<&RuleSetDb>,
)
    requires
        restores(before, done, routing, db),
        0 <= i < before.len(),
        after.len() == before.len(),
        next.len() > 0,
        next.drop_last() == done,
        set_of(next.last(), routing, db) == Some((before[i].rule as int, before[i].filter as int)),
        forall|k: int| 0 <= k < before.len() && k != i ==> (#[trigger] after[k]) == before[k],
        after[i].rule == before[i].rule,
        after[i].filter == before[i].filter,
        after[i].ips@ == before[i].ips@ + answer_ips_of(
            next.last().packet@,
            next.last().question_end as int,
        ),
    ensures
        restores(after, next, routing, db),
{
    assert forall|k: int| 0 <= k < after.len() implies ({
        let a = #[trigger] after[k];
        a.ips@ == restored(next, routing, db, a.rule as int, a.filter as int) && a.ips@.len() > 0
    }) by {
        let b = before[k];
        assert(b.ips@ == restored(done, routing, db, b.rule as int, b.filter as int));
        if k != i {
            assert(after[k] == before[k]);
            if k < i {
                assert(before[k].rule != before[i].rule || before[k].filter != before[i].filter);
            } else {
                assert(before[i].rule != before[k].rule || before[i].filter != before[k].filter);
            }
        }
    }
    assert forall|k: int, j: int| 0 <= k < j < after.len() implies (#[trigger] after[k]).rule != (
    #[trigger] after[j]).rule || after[k].filter != after[j].filter by {
        assert(before[k].rule != before[j].rule || before[k].filter != before[j].filter);
        assert(after[k].rule == before[k].rule && after[k].filter == before[k].filter);
        assert(after[j].rule == before[j].rule && after[j].filter == before[j].filter);
    }
    assert forall|rule: int, filter: int|
        #![trigger restored(next, routing, db, rule, filter)]
        restored(next, routing, db, rule, filter).len() > 0 implies has_set(after, rule, filter) by {
        if rule == before[i].rule && filter == before[i].filter {
            assert(after[i].rule == rule && after[i].filter == filter);
        } else {
            assert(restored(done, routing, db, rule, filter).len() > 0);
            let k = choose|k: int|
                0 <= k < before.len() && (#[trigger] before[k]).rule == rule && before[k].filter
                    == filter;
            assert(after[k] == before[k]);
        }
    }
}

proof fn lemma_restores_new(
    before: Seq<AddIps>,
    after: Seq<AddIps>,
    done: Seq<CachedEntry>,
    next: Seq<CachedEntry>,
    routing: RoutingConfig,
    db: Option<&RuleSetDb>,
)
    requires
        restores(before, done, routing, db),
        after.len() == before.len() + 1,
        after.drop_last() == before,
        next.len() > 0,
        next.drop_last() == done,
        set_of(next.last(), routing, db) == Some(
            (after.last().rule as int, after.last().filter as int),
        ),
        !has_set(before, after.last().rule as int, after.last().filter as int),
        after.last().ips@ == answer_ips_of(next.last().packet@, next.last().question_end as int),
        after.last().ips@.len() > 0,
        restored(
            done,
            routing,
            db,
            after.last().rule as int,
            after.last().filter as int,
        ) == Seq::<IpAddr>::empty(),
    ensures
        restores(after, next, routing, db),
{
    let n = before.len() as int;
    let last = after.last();
    assert(Seq::<IpAddr>::empty() + last.ips@ =~= last.ips@);
    assert forall|k: int| 0 <= k < after.len() implies ({
        let a = #[trigger] after[k];
        a.ips@ == restored(next, routing, db, a.rule as int, a.filter as int) && a.ips@.len() > 0
    }) by {
        if k < n {
            assert(after[k] == before[k]);
            assert(before[k].rule != last.rule || before[k].filter != last.filter);
        }
    }
    assert forall|k: int, j: int| 0 <= k < j < after.len() implies (#[trigger] after[k]).rule != (
    #[trigger] after[j]).rule || after[k].filter != after[j].filter by {
        assert(after[k] == before[k]);
        if j < n {
            assert(after[j] == before[j]);
        } else {
            assert(before[k].rule != last.rule || before[k].filter != last.filter);
        }
    }
    assert forall|rule: int, filter: int|
        #![trigger restored(next, routing, db, rule, filter)]
        restored(next, routing, db, rule, filter).len() > 0 implies has_set(after, rule, filter) by {
        if rule == last.rule && filter == last.filter {
            assert(after[n].rule == rule && after[n].filter == filter);
        } else {
            assert(restored(done, routing, db, rule, filter).len() > 0);
            let k = choose|k: int|
                0 <= k < before.len() && (#[trigger] before[k]).rule == rule && before[k].filter
                    == filter;
            assert(after[k] == before[k]);
        }
    }
}

/// The state of a running server.
pub struct AppState {
    pub hot: HotState,
    pub config_path: Option<Vec<u8>>,
    /// Queries resolved at once.
    pub max_inflight: usize,
    /// Connections at once; `None` for no bound.
    pub tcp_conn_limit: Option<usize>,
    pub remote_inflight: InflightTable,
    pub verdict_cache: VerdictCache,
    pub querylog: QueryLogHandle,
    pub reload: ReloadStats,
}

/// The configured verdict cache: whether there is one, its lifetime of entries and its sure room.
pub open spec fn verdict_settings(cfg: Config) -> (bool, u64, nat) {
    match cfg.verdict_cache {
        Some(c) => if c.capacity > 0 {
            (true, c.ttl_secs, sure_room(c.capacity))
        } else {
            (false, 0, 0)
        },
        None => (false, 0, 0),
    }
}

impl AppState {
    /// Starts a server from its configuration, what was read of its ruleset files, and the verdict
    /// file where there is one. A verdict file that cannot be taken over is passed over.
    pub fn new(
        cfg: Config,
        config_path: Option<Vec<u8>>,
        querylog: QueryLogHandle,
        files: &Vec<RuleSetFile>,
        verdict_file: Option<Vec<u8>>,
        fingerprint: u64,
        now: u64,
    ) -> (r: Result<AppState, HotStateError>)
        requires
            rules_name_servers(cfg),
            files@.len() == cfg.ruleset_specs@.len(),
        ensures
            match r {
                Ok(state) => {
                    &&& exists|servers: Seq<Server>, request: LoadRequest| #[trigger]
                        hot_outcome(
                            cfg,
                            files@,
                            0,
                            servers,
                            request,
                            Ok::<HotState, HotStateError>(state.hot),
                        )
                    &&& state.config_path == config_path
                    &&& state.max_inflight == cfg.max_inflight
                    &&& state.tcp_conn_limit == (if cfg.tcp_max_connections > 0 {
                        Some(cfg.tcp_max_connections)
                    } else {
                        None
                    })
                    &&& state.remote_inflight.wf()
                    &&& state.remote_inflight@ == Map::<u64, Seq<u64>>::empty()
                    &&& state.querylog == querylog
                    &&& state.reload.applied == 0
                    &&& state.reload.failed_attempts == 0
                    &&& state.reload.restart_required == 0
                    &&& state.reload.last_applied_unix == 0
                    &&& state.reload.error_text() is None
                    &&& (
                        state.verdict_cache.keeps(),
                        state.verdict_cache.ttl(),
                        state.verdict_cache.room(),
                    ) == verdict_settings(cfg)
                    &&& match verdict_file {
                        Some(bytes) => taken_over(
                            Map::empty(),
                            state.verdict_cache@,
                            verdict_settings(cfg),
                            bytes@,
                            fingerprint,
                            now,
                        ),
                        None => state.verdict_cache@ == Map::<Seq<char>, (bool, u64)>::empty(),
                    }
                },
                Err(e) => exists|servers: Seq<Server>, request: LoadRequest| #[trigger]
                    hot_outcome(
                        cfg,
                        files@,
                        0,
                        servers,
                        request,
                        Err::<HotState, HotStateError>(e),
                    ),
            },
    {
        let settings: Option<VerdictCacheConfig> = cfg.verdict_cache;
        let mut verdict_cache = match &settings {
            Some(c) => VerdictCache::new(Some(c)),
            None => VerdictCache::new(None),
        };
        if let Some(bytes) = &verdict_file {
            let _taken = verdict_cache.load_at(bytes.as_slice(), fingerprint, now);
        }
        let max_inflight: usize = cfg.max_inflight;
        let tcp_conn_limit: Option<usize> = if cfg.tcp_max_connections > 0 {
            Some(cfg.tcp_max_connections)
        } else {
            None
        };
        let hot = match build_hot_state(cfg, files, 0) {
            Ok(hot) => hot,
            Err(e) => {
                return Err(e);
            },
        };
        Ok(
            AppState {
                hot,
                config_path,
                max_inflight,
                tcp_conn_limit,
                remote_inflight: InflightTable::new(),
                verdict_cache,
                querylog,
                reload: ReloadStats::new(),
            },
        )
    }

    /// Differs from an earlier value once a reload came in between.
    pub fn hot_generation(&self) -> (r: u64)
        ensures
            r == self.hot.generation,
    {
        self.hot.generation
    }
}

/// An address is restored into the set of a filter exactly when some cached response holds it that
/// was kept for the filter's rule, is accepted by the filter, and meets none before it.
pub proof fn law_restored_addresses(
    entries: Seq<CachedEntry>,
    routing: RoutingConfig,
    db: Option<&RuleSetDb>,
    rule: int,
    filter: int,
    ip: IpAddr,
)
    ensures
        restored(entries, routing, db, rule, filter).contains(ip) <==> exists|i: int|
            #![trigger entries[i]]
            {
                &&& 0 <= i < entries.len()
                &&& entries[i].rule_id == rule
                &&& rule < routing.rules@.len()
                &&& 0 <= filter < routing.rules@[rule].filters@.len()
                &&& routing.rules@[rule].filters@[filter].action is Accept
                &&& routing.rules@[rule].filters@[filter].meets(
                    db,
                    entries[i].packet@,
                    entries[i].question_end as int,
                )
                &&& forall|j: int|
                    0 <= j < filter ==> !(#[trigger] routing.rules@[rule].filters@[j]).meets(
                        db,
                        entries[i].packet@,
                        entries[i].question_end as int,
                    )
                &&& answer_ips_of(entries[i].packet@, entries[i].question_end as int).contains(ip)
            },
    decreases entries.len(),
{
    if entries.len() > 0 {
        let front = entries.drop_last();
        let e = entries.last();
        law_restored_addresses(front, routing, db, rule, filter, ip);
        assert(entries[entries.len() - 1] == e);
        assert forall|i: int| 0 <= i < front.len() implies front[i] == #[trigger] entries[i] by {}
        if e.rule_id == rule && rule < routing.rules@.len() {
            law_first_met(
                routing.rules@[rule].filters@,
                db,
                e.packet@,
                e.question_end as int,
            );
        }
        let ips = answer_ips_of(e.packet@, e.question_end as int);
        let a = restored(front, routing, db, rule, filter);
        if ips.contains(ip) {
            let k = choose|k: int| 0 <= k < ips.len() && ips[k] == ip;
            assert((a + ips)[a.len() + k] == ip);
        }
        if a.contains(ip) {
            let k = choose|k: int| 0 <= k < a.len() && a[k] == ip;
            assert((a + ips)[k] == ip);
        }
        if (a + ips).contains(ip) {
            let k = choose|k: int| 0 <= k < (a + ips).len() && (a + ips)[k] == ip;
            if k < a.len() {
                assert(a[k] == ip);
            } else {
                assert(ips[k - a.len()] == ip);
            }
        }
    }
}

/// The verdict cache is there exactly where it is configured with room for an entry, with the
/// lifetime that is configured.
pub proof fn law_verdicts_are_kept_where_configured(cfg: Config)
    ensures
        cfg.verdict_cache is None ==> !verdict_settings(cfg).0,
        cfg.verdict_cache matches Some(c) ==> {
            &&& verdict_settings(cfg).0 <==> c.capacity > 0
            &&& c.capacity > 0 ==> verdict_settings(cfg).1 == c.ttl_secs && 0 < verdict_settings(
                cfg,
            ).2 <= c.capacity
        },
{
}

} // verus!
