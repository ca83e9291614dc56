//! Hot reload: what a change of the configuration or of a ruleset file does.

use crate::config::{
    bind_eq, interface_eq, path_eq, same_bind, same_interface, same_path, same_specs, same_text,
    specs_eq, text_eq, texts, Config, InterfaceFilter,
};
use crate::outside::share;
use crate::route_index::RouteIndex;
use crate::ruleset::{load_request, LoadRequest, RuleSetDb, RuleSetFile, RuleSetSpec};
use crate::server::{
    asks_for_tags, build_hot_state, file_name, file_text, hot_outcome, join_path, lemma_some_tag,
    load_ruleset, names_some_tag, needed_ruleset_domain_tags, needed_ruleset_ipcidr_tags,
    parent_text, rules_name_servers, ruleset_outcome, same_location, watch_parent, watch_text,
    HotState, HotStateError, LoadRulesetError, Server, SLASH,
};
use crate::stats::bumped;
use crate::text::{byte_views, bytes_eq};
use crate::clock::{clock_reading, since_epoch};
use std::time::SystemTime;
use vstd::prelude::*;
use vstd::slice::slice_to_vec;
use vstd::string::StringExecFns;
use vstd::wrapping::u64_specs;

verus! {

/// Attempts made for one batch of changes.
pub const RELOAD_RETRIES: usize = 5;

/// Pause between two attempts, in milliseconds.
pub const RELOAD_RETRY_DELAY_MS: u64 = 100;

/// Shortest time between two reloads, in milliseconds.
pub const DEBOUNCE_MS: u64 = 500;

// Outcome counters.

/// What became of reloads so far.
pub struct ReloadStats {
    /// Reloads that took effect.
    pub applied: u64,
    /// Attempts that failed.
    pub failed_attempts: u64,
    /// Configurations refused because they need a restart.
    pub restart_required: u64,
    /// Time of the last reload that took effect, in Unix seconds; zero before the first.
    pub last_applied_unix: u64,
    /// The last failure or refusal since the last reload that took effect.
    pub error: Option<String>,
}

impl ReloadStats {
    /// Text of the last failure or refusal since the last reload that took effect.
    pub open spec fn error_text(self) -> Option<Seq<char>> {
        match self.error {
            Some(e) => Some(e@),
            None => None,
        }
    }

    pub fn new() -> (r: Self)
        ensures
            r.applied == 0,
            r.failed_attempts == 0,
            r.restart_required == 0,
            r.last_applied_unix == 0,
            r.error_text() is None,
    {
        ReloadStats {
            applied: 0,
            failed_attempts: 0,
            restart_required: 0,
            last_applied_unix: 0,
            error: None,
        }
    }

    /// Seconds since the Unix epoch.
    pub fn now_unix() -> (r: u64)
        ensures
            exists|at: SystemTime| r == since_epoch(#[trigger] clock_reading(at)).0,
    {
        crate::clock::now_unix()
    }

    fn set_last_error(&mut self, msg: Option<String>)
        ensures
            final(self).applied == old(self).applied,
            final(self).failed_attempts == old(self).failed_attempts,
            final(self).restart_required == old(self).restart_required,
            final(self).last_applied_unix == old(self).last_applied_unix,
            final(self).error_text() == (match msg {
                Some(m) => Some(m@),
                None => None,
            }),
    {
        self.error = msg;
    }

    /// Counts a reload that took effect at `now`; an earlier error is forgotten.
    pub fn record_applied(&mut self, now: u64)
        ensures
            final(self).applied == bumped(old(self).applied, 1),
            final(self).failed_attempts == old(self).failed_attempts,
            final(self).restart_required == old(self).restart_required,
            final(self).last_applied_unix == now,
            final(self).error_text() is None,
    {
        self.applied = self.applied.wrapping_add(1);
        self.last_applied_unix = now;
        self.set_last_error(None);
    }

    /// Counts a failed attempt.
    pub fn record_failed_attempt(&mut self, err: &str)
        ensures
            final(self).applied == old(self).applied,
            final(self).failed_attempts == bumped(old(self).failed_attempts, 1),
            final(self).restart_required == old(self).restart_required,
            final(self).last_applied_unix == old(self).last_applied_unix,
            final(self).error_text() == Some(err@),
    {
        self.failed_attempts = self.failed_attempts.wrapping_add(1);
        self.set_last_error(Some(err.to_owned()));
    }

    /// Counts a configuration that needs a restart, and names the settings that do.
    pub fn record_restart_required(&mut self, fields: &Vec<StartupField>)
        ensures
            final(self).applied == old(self).applied,
            final(self).failed_attempts == old(self).failed_attempts,
            final(self).restart_required == bumped(old(self).restart_required, 1),
            final(self).last_applied_unix == old(self).last_applied_unix,
            final(self).error_text() == Some(restart_text(fields@)),
    {
        self.restart_required = self.restart_required.wrapping_add(1);
        let mut msg = "config change not applied; restart required for: ".to_owned();
        msg.append(join_fields(fields).as_str());
        self.set_last_error(Some(msg));
    }

    /// The last failure or refusal since the last reload that took effect.
    pub fn last_error(&self) -> (r: Option<String>)
        ensures
            match r {
                Some(e) => self.error_text() == Some(e@),
                None => self.error_text() is None,
            },
    {
        match &self.error {
            Some(e) => Some(e.clone()),
            None => None,
        }
    }
}

// Settings that only take effect at startup.

/// A group of settings that only take effect at startup.
#[derive(Clone, Copy, Debug, PartialEq, Eq, Structural)]
pub enum StartupField {
    Bind,
    WorkerThreads,
    UdpBufSize,
    UringRecvBuffers,
    UdpDiagnostics,
    MaxInflight,
    TcpMaxConnections,
    Cache,
    AddIp,
    VerdictCache,
    Dashboard,
    Ruleset,
}

/// Name of a group of settings.
pub open spec fn field_text(f: StartupField) -> Seq<char> {
    match f {
        StartupField::Bind => "bind"@,
        StartupField::WorkerThreads => "runtime.worker-threads"@,
        StartupField::UdpBufSize => "runtime.udp-buf-size"@,
        StartupField::UringRecvBuffers => "runtime.uring-recv-buffers"@,
        StartupField::UdpDiagnostics => "runtime.udp-diagnostics"@,
        StartupField::MaxInflight => "runtime.max-inflight"@,
        StartupField::TcpMaxConnections => "runtime.tcp-max-connections"@,
        StartupField::Cache => "cache"@,
        StartupField::AddIp => "route add-ip"@,
        StartupField::VerdictCache => "route.final.verdict-cache"@,
        StartupField::Dashboard => "dashboard"@,
        StartupField::Ruleset => "route.ruleset watcher"@,
    }
}

impl StartupField {
    /// Name of the group.
    pub fn name(self) -> (r: &'static str)
        ensures
            r@ == field_text(self),
    {
        match self {
            StartupField::Bind => "bind",
            StartupField::WorkerThreads => "runtime.worker-threads",
            StartupField::UdpBufSize => "runtime.udp-buf-size",
            StartupField::UringRecvBuffers => "runtime.uring-recv-buffers",
            StartupField::UdpDiagnostics => "runtime.udp-diagnostics",
            StartupField::MaxInflight => "runtime.max-inflight",
            StartupField::TcpMaxConnections => "runtime.tcp-max-connections",
            StartupField::Cache => "cache",
            StartupField::AddIp => "route add-ip",
            StartupField::VerdictCache => "route.final.verdict-cache",
            StartupField::Dashboard => "dashboard",
            StartupField::Ruleset => "route.ruleset watcher",
        }
    }
}

/// Names with a comma between each two of them.
pub open spec fn joined_fields(fields: Seq<StartupField>) -> Seq<char>
    decreases fields.len(),
{
    if fields.len() == 0 {
        Seq::empty()
    } else if fields.len() == 1 {
        field_text(fields[0])
    } else {
        joined_fields(fields.drop_last()) + ","@ + field_text(fields.last())
    }
}

/// Message for a configuration that needs a restart.
pub open spec fn restart_text(fields: Seq<StartupField>) -> Seq<char> {
    "config change not applied; restart required for: "@ + joined_fields(fields)
}

fn join_fields(fields: &Vec<StartupField>) -> (r: String)
    ensures
        r@ == joined_fields(fields@),
{
    let mut out = String::new();
    let mut i: usize = 0;
    while i < fields.len()
        invariant
            i <= fields@.len(),
            out@ == joined_fields(fields@.take(i as int)),
        decreases fields@.len() - i,
    {
        proof {
            assert(fields@.take(i + 1).drop_last() =~= fields@.take(i as int));
            assert(fields@.take(i + 1).last() == fields@[i as int]);
        }
        let ghost before = out@;
        if i > 0 {
            out.append(",");
        }
        out.append(fields[i].name());
        proof {
            if i == 0 {
                assert(before + field_text(fields@[0]) =~= field_text(fields@[0]));
            }
        }
        i += 1;
    }
    proof {
        assert(fields@.take(fields@.len() as int) =~= fields@);
    }
    out
}

/// The field alone when it changed, nothing otherwise.
pub open spec fn when_changed(same: bool, f: StartupField) -> Seq<StartupField> {
    if same {
        Seq::empty()
    } else {
        seq![f]
    }
}

pub open spec fn same_cache(a: Config, b: Config) -> bool {
    a.cache_size == b.cache_size && a.cache_min_ttl == b.cache_min_ttl && a.cache_max_ttl
        == b.cache_max_ttl && same_path(a.cache_persist_path, b.cache_persist_path)
        && a.cache_persist_interval_ms == b.cache_persist_interval_ms
}

/// The groups of startup settings in which two configurations differ, in a fixed order.
pub open spec fn startup_changes(old_cfg: Config, new_cfg: Config) -> Seq<StartupField> {
    when_changed(
        same_bind(old_cfg.bind@, new_cfg.bind@) && same_interface(
            old_cfg.interface,
            new_cfg.interface,
        ),
        StartupField::Bind,
    ) + when_changed(
        old_cfg.worker_threads == new_cfg.worker_threads,
        StartupField::WorkerThreads,
    ) + when_changed(old_cfg.udp_buf_size == new_cfg.udp_buf_size, StartupField::UdpBufSize)
        + when_changed(
        old_cfg.uring_recv_buffers == new_cfg.uring_recv_buffers,
        StartupField::UringRecvBuffers,
    ) + when_changed(
        old_cfg.udp_diagnostics == new_cfg.udp_diagnostics,
        StartupField::UdpDiagnostics,
    ) + when_changed(old_cfg.max_inflight == new_cfg.max_inflight, StartupField::MaxInflight)
        + when_changed(
        old_cfg.tcp_max_connections == new_cfg.tcp_max_connections,
        StartupField::TcpMaxConnections,
    ) + when_changed(same_cache(old_cfg, new_cfg), StartupField::Cache) + when_changed(
        same_text(old_cfg.ipset, new_cfg.ipset),
        StartupField::AddIp,
    ) + when_changed(
        old_cfg.verdict_cache == new_cfg.verdict_cache,
        StartupField::VerdictCache,
    ) + when_changed(same_text(old_cfg.dashboard, new_cfg.dashboard), StartupField::Dashboard)
        + when_changed(
        same_specs(old_cfg.ruleset_specs@, new_cfg.ruleset_specs@),
        StartupField::Ruleset,
    )
}

fn note(out: &mut Vec<StartupField>, same: bool, f: StartupField)
    ensures
        final(out)@ == old(out)@ + when_changed(same, f),
{
    if !same {
        out.push(f);
    }
    proof {
        assert(out@ =~= old(out)@ + when_changed(same, f));
    }
}

/// The groups of startup settings in which two configurations differ.
pub fn restart_fields(old_cfg: &Config, new_cfg: &Config) -> (r: Vec<StartupField>)
    ensures
        r@ == startup_changes(*old_cfg, *new_cfg),
{
    let mut out: Vec<StartupField> = Vec::new();
    let same_addresses = bind_eq(&old_cfg.bind, &new_cfg.bind) && interface_eq(
        &old_cfg.interface,
        &new_cfg.interface,
    );
    note(&mut out, same_addresses, StartupField::Bind);
    proof {
        assert(out@ =~= when_changed(same_addresses, StartupField::Bind));
    }
    note(
        &mut out,
        old_cfg.worker_threads == new_cfg.worker_threads,
        StartupField::WorkerThreads,
    );
    note(&mut out, old_cfg.udp_buf_size == new_cfg.udp_buf_size, StartupField::UdpBufSize);
    note(
        &mut out,
        old_cfg.uring_recv_buffers == new_cfg.uring_recv_buffers,
        StartupField::UringRecvBuffers,
    );
    note(
        &mut out,
        old_cfg.udp_diagnostics == new_cfg.udp_diagnostics,
        StartupField::UdpDiagnostics,
    );
    note(&mut out, old_cfg.max_inflight == new_cfg.max_inflight, StartupField::MaxInflight);
    note(
        &mut out,
        old_cfg.tcp_max_connections == new_cfg.tcp_max_connections,
        StartupField::TcpMaxConnections,
    );
    let cache_same = old_cfg.cache_size == new_cfg.cache_size && old_cfg.cache_min_ttl
        == new_cfg.cache_min_ttl && old_cfg.cache_max_ttl == new_cfg.cache_max_ttl && path_eq(
        &old_cfg.cache_persist_path,
        &new_cfg.cache_persist_path,
    ) && old_cfg.cache_persist_interval_ms == new_cfg.cache_persist_interval_ms;
    note(&mut out, cache_same, StartupField::Cache);
    note(&mut out, text_eq(&old_cfg.ipset, &new_cfg.ipset), StartupField::AddIp);
    let verdict_same = match (old_cfg.verdict_cache, new_cfg.verdict_cache) {
        (Some(a), Some(b)) => a == b,
        (None, None) => true,
        _ => false,
    };
    note(&mut out, verdict_same, StartupField::VerdictCache);
    note(&mut out, text_eq(&old_cfg.dashboard, &new_cfg.dashboard), StartupField::Dashboard);
    note(
        &mut out,
        specs_eq(&old_cfg.ruleset_specs, &new_cfg.ruleset_specs),
        StartupField::Ruleset,
    );
    out
}

// Reloads.

/// The generation after a reload.
pub open spec fn next_generation(g: u64) -> u64 {
    u64_specs::wrapping_add(g, 1)
}

/// Reloads the ruleset database after some of its files changed.
///
/// The tags to load are those of the configuration now in force. When it refers to none nothing
/// is to change, and there is no new state. Otherwise the new database, an empty decision cache and
/// the next generation make a new state over the same configuration, to take effect together; the
/// response and verdict caches are then to be emptied.
pub fn reload_ruleset(
    hot: &HotState,
    changed_paths: &Vec<Vec<u8>>,
    files: &Vec<RuleSetFile>,
) -> (r: Result<Option<HotState>, LoadRulesetError>)
    requires
        hot.wf(),
        files@.len() == hot.routing.cfg.ruleset_specs@.len(),
        hot.routing.needs_ruleset <==> exists|t: Seq<char>|
            names_some_tag(hot.routing.cfg, t),
    ensures
        match r {
            Ok(None) => !hot.routing.needs_ruleset,
            Ok(Some(next)) => {
                &&& hot.routing.needs_ruleset
                &&& next.wf()
                &&& next.routing == hot.routing
                &&& next.generation == next_generation(hot.generation)
                &&& exists|request: LoadRequest|
                    {
                        &&& asks_for_tags(request, hot.routing.cfg)
                        &&& reuses_from(request, hot.ruleset, changed_paths@)
                        &&& #[trigger] ruleset_outcome(
                            request,
                            hot.routing.cfg.ruleset_specs@,
                            files@,
                            Ok(next.ruleset),
                        )
                    }
            },
            Err(e) => {
                &&& hot.routing.needs_ruleset
                &&& exists|request: LoadRequest|
                    {
                        &&& asks_for_tags(request, hot.routing.cfg)
                        &&& reuses_from(request, hot.ruleset, changed_paths@)
                        &&& #[trigger] ruleset_outcome(
                            request,
                            hot.routing.cfg.ruleset_specs@,
                            files@,
                            Err(e),
                        )
                    }
            },
        },
{
    let domain_tags = needed_ruleset_domain_tags(&hot.routing.cfg.rules);
    let ipcidr_tags = needed_ruleset_ipcidr_tags(
        &hot.routing.cfg.rules,
        &hot.routing.cfg.fallback.target,
    );
    proof {
        lemma_some_tag(&hot.routing.cfg, domain_tags@, ipcidr_tags@);
    }
    if domain_tags.len() == 0 && ipcidr_tags.len() == 0 {
        return Ok(None);
    }
    let reuse: Option<(&RuleSetDb, &Vec<Vec<u8>>)> = match &hot.ruleset {
        Some(db) => Some((db, changed_paths)),
        None => None,
    };
    let ghost request = load_request(domain_tags@, ipcidr_tags@, reuse);
    let loaded = load_ruleset(
        &hot.routing.cfg.ruleset_specs,
        &domain_tags,
        &ipcidr_tags,
        reuse,
        files,
    );
    match loaded {
        Ok(ruleset) => {
            let routing_index = RouteIndex::build(
                hot.routing.rules.as_slice(),
                hot.routing.cfg.cache_size,
            );
            let next = HotState {
                routing: share(&hot.routing),
                ruleset,
                routing_index,
                generation: hot.generation.wrapping_add(1),
            };
            proof {
                assert(next.routing_index.cache_agrees(next.routing.rules@, next.db()));
                assert(ruleset_outcome(
                    request,
                    hot.routing.cfg.ruleset_specs@,
                    files@,
                    Ok(next.ruleset),
                ));
            }
            Ok(Some(next))
        },
        Err(e) => {
            assert(ruleset_outcome(
                request,
                hot.routing.cfg.ruleset_specs@,
                files@,
                Err(e),
            ));
            Err(e)
        },
    }
}

/// `request` may take entries over from `ruleset`, save those of changed files.
pub open spec fn reuses_from(
    request: LoadRequest,
    ruleset: Option<RuleSetDb>,
    changed: Seq<Vec<u8>>,
) -> bool {
    request.reuse == (match ruleset {
        Some(db) => Some((db, byte_views(changed))),
        None => None,
    })
}

/// What a changed configuration leads to.
pub enum ConfigReload {
    /// The state to put in force; the response and verdict caches are then to be emptied.
    Applied(HotState),
    /// Nothing is to change: these settings need a restart.
    RestartRequired(Vec<StartupField>),
    /// Nothing is to change: it could not be built.
    Failed(HotStateError),
}

/// The outcome of a reload from the configuration in force, of this generation, to another.
pub open spec fn config_outcome(
    old_cfg: Config,
    generation: u64,
    cfg: Config,
    files: Seq<RuleSetFile>,
    r: ConfigReload,
) -> bool {
    match r {
        ConfigReload::RestartRequired(fields) => {
            &&& fields@ == startup_changes(old_cfg, cfg)
            &&& fields@.len() > 0
        },
        ConfigReload::Applied(next) => {
            &&& startup_changes(old_cfg, cfg).len() == 0
            &&& exists|servers: Seq<Server>, request: LoadRequest| #[trigger]
                hot_outcome(
                    cfg,
                    files,
                    next_generation(generation),
                    servers,
                    request,
                    Ok(next),
                )
        },
        ConfigReload::Failed(e) => {
            &&& startup_changes(old_cfg, cfg).len() == 0
            &&& exists|servers: Seq<Server>, request: LoadRequest| #[trigger]
                hot_outcome(
                    cfg,
                    files,
                    next_generation(generation),
                    servers,
                    request,
                    Err(e),
                )
        },
    }
}

/// Makes the state of a new configuration. It takes effect wholly or not at all: a configuration
/// that differs in settings of which startup took hold is refused as a whole.
pub fn reload_config(hot: &HotState, cfg: Config, files: &Vec<RuleSetFile>) -> (r: ConfigReload)
    requires
        rules_name_servers(cfg),
        files@.len() == cfg.ruleset_specs@.len(),
    ensures
        config_outcome(hot.routing.cfg, hot.generation, cfg, files@, r),
{
    let changed = restart_fields(&hot.routing.cfg, &cfg);
    if changed.len() > 0 {
        return ConfigReload::RestartRequired(changed);
    }
    let generation: u64 = hot.generation.wrapping_add(1);
    assert(generation == next_generation(hot.generation));
    let ghost cfg0 = cfg;
    let built = build_hot_state(cfg, files, generation);
    let ghost (servers, request) = choose|servers: Seq<Server>, request: LoadRequest| #[trigger]
        hot_outcome(cfg0, files@, generation, servers, request, built);
    match built {
        Ok(next) => {
            assert(hot_outcome(cfg0, files@, generation, servers, request, Ok(next)));
            ConfigReload::Applied(next)
        },
        Err(e) => {
            assert(hot_outcome(cfg0, files@, generation, servers, request, Err(e)));
            ConfigReload::Failed(e)
        },
    }
}

/// A reload is told apart from the state before it by its generation.
pub proof fn law_generation_changes(g: u64)
    ensures
        next_generation(g) != g,
{
}

// Watching.

/// One event of a directory watch.
pub struct WatchEvent {
    /// Events were lost.
    pub overflow: bool,
    /// File name within the watched directory.
    pub name: Option<Vec<u8>>,
    /// Number of the watch.
    pub watch: i32,
}

/// The directory of a watch: the last one listed under its number.
pub open spec fn watch_dir(dirs: Seq<(i32, Vec<u8>)>, watch: i32) -> Option<Seq<u8>>
    decreases dirs.len(),
{
    if dirs.len() == 0 {
        None
    } else if dirs.last().0 == watch {
        Some(dirs.last().1@)
    } else {
        watch_dir(dirs.drop_last(), watch)
    }
}

/// An event says that the file at `path` changed. When events were lost every file may have.
pub open spec fn event_marks(
    event: WatchEvent,
    dirs: Seq<(i32, Vec<u8>)>,
    targets: Seq<Seq<u8>>,
    path: Seq<u8>,
) -> bool {
    &&& targets.contains(path)
    &&& event.overflow || (event.name is Some && watch_dir(dirs, event.watch) is Some && path
        == join_path(watch_dir(dirs, event.watch)->0, event.name->0@))
}

/// An event concerns the watched files.
pub open spec fn event_relevant(
    event: WatchEvent,
    dirs: Seq<(i32, Vec<u8>)>,
    targets: Seq<Seq<u8>>,
) -> bool {
    event.overflow || exists|path: Seq<u8>| event_marks(event, dirs, targets, path)
}

fn find_watch_dir<'a>(dirs: &'a Vec<(i32, Vec<u8>)>, watch: i32) -> (r: Option<&'a Vec<u8>>)
    ensures
        match r {
            Some(d) => watch_dir(dirs@, watch) == Some(d@),
            None => watch_dir(dirs@, watch) is None,
        },
{
    let mut n: usize = dirs.len();
    proof {
        assert(dirs@.take(n as int) =~= dirs@);
    }
    while n > 0
        invariant
            n <= dirs@.len(),
            watch_dir(dirs@, watch) == watch_dir(dirs@.take(n as int), watch),
        decreases n,
    {
        proof {
            assert(dirs@.take(n as int).drop_last() =~= dirs@.take(n - 1));
            assert(dirs@.take(n as int).last() == dirs@[n - 1]);
        }
        if dirs[n - 1].0 == watch {
            return Some(&dirs[n - 1].1);
        }
        n -= 1;
    }
    None
}

fn has_path(paths: &Vec<Vec<u8>>, path: &[u8]) -> (r: bool)
    ensures
        r == byte_views(paths@).contains(path@),
{
    let mut i: usize = 0;
    while i < paths.len()
        invariant
            i <= paths@.len(),
            forall|j: int| 0 <= j < i ==> byte_views(paths@)[j] != path@,
        decreases paths@.len() - i,
    {
        proof {
            assert(byte_views(paths@)[i as int] == paths@[i as int]@);
        }
        if bytes_eq(paths[i].as_slice(), path) {
            return true;
        }
        i += 1;
    }
    false
}

fn mark(changed: &mut Vec<Vec<u8>>, path: &[u8])
    ensures
        forall|p: Seq<u8>| #[trigger]
            byte_views(final(changed)@).contains(p) <==> byte_views(old(changed)@).contains(p) || p
                == path@,
{
    if has_path(changed, path) {
        return;
    }
    let ghost before = byte_views(changed@);
    changed.push(slice_to_vec(path));
    proof {
        let after = byte_views(changed@);
        assert(after =~= before.push(path@));
        assert forall|p: Seq<u8>| #[trigger] after.contains(p) <==> before.contains(p) || p
            == path@ by {
            if before.contains(p) {
                let i = choose|i: int| 0 <= i < before.len() && before[i] == p;
                assert(after[i] == p);
            }
            if p == path@ {
                assert(after[before.len() as int] == p);
            }
            if after.contains(p) {
                let i = choose|i: int| 0 <= i < after.len() && after[i] == p;
                if i < before.len() {
                    assert(before[i] == p);
                }
            }
        }
    }
}

fn join_bytes(dir: &Vec<u8>, file: &Vec<u8>) -> (r: Vec<u8>)
    ensures
        r@ == join_path(dir@, file@),
{
    let mut out = slice_to_vec(dir.as_slice());
    let mut rest = slice_to_vec(file.as_slice());
    if !(out.len() > 0 && out[out.len() - 1] == SLASH) {
        out.push(SLASH);
    }
    out.append(&mut rest);
    out
}

/// Adds the watched files that a batch of events says changed; `true` when some event concerned
/// them.
pub fn collect_changed_paths(
    events: &Vec<WatchEvent>,
    dirs: &Vec<(i32, Vec<u8>)>,
    targets: &Vec<Vec<u8>>,
    changed: &mut Vec<Vec<u8>>,
) -> (r: bool)
    ensures
        forall|p: Seq<u8>| #[trigger]
            byte_views(final(changed)@).contains(p) <==> byte_views(old(changed)@).contains(p)
                || exists|e: int|
                0 <= e < events@.len() && event_marks(
                    #[trigger] events@[e],
                    dirs@,
                    byte_views(targets@),
                    p,
                ),
        r == exists|e: int|
            0 <= e < events@.len() && event_relevant(
                #[trigger] events@[e],
                dirs@,
                byte_views(targets@),
            ),
{
    let ghost all = byte_views(targets@);
    let mut relevant = false;
    let mut i: usize = 0;
    while i < events.len()
        invariant
            i <= events@.len(),
            all == byte_views(targets@),
            forall|p: Seq<u8>| #[trigger]
                byte_views(changed@).contains(p) <==> byte_views(old(changed)@).contains(p)
                    || exists|e: int|
                    0 <= e < i && event_marks(#[trigger] events@[e], dirs@, all, p),
            relevant == exists|e: int|
                0 <= e < i && event_relevant(#[trigger] events@[e], dirs@, all),
        decreases events@.len() - i,
    {
        let event = &events[i];
        let ghost before = byte_views(changed@);
        let ghost relevant0 = relevant;
        if event.overflow {
            let mut k: usize = 0;
            while k < targets.len()
                invariant
                    k <= targets@.len(),
                    all == byte_views(targets@),
                    forall|p: Seq<u8>| #[trigger]
                        byte_views(changed@).contains(p) <==> before.contains(p) || exists|q: int|
                            0 <= q < k && #[trigger] all[q] == p,
                decreases targets@.len() - k,
            {
                proof {
                    assert(all[k as int] == targets@[k as int]@);
                }
                mark(changed, targets[k].as_slice());
                k += 1;
            }
            relevant = true;
            proof {
                assert forall|p: Seq<u8>| #[trigger]
                    byte_views(changed@).contains(p) <==> before.contains(p) || event_marks(
                        *event,
                        dirs@,
                        all,
                        p,
                    ) by {
                    if all.contains(p) {
                        let q = choose|q: int| 0 <= q < all.len() && all[q] == p;
                        assert(all[q] == p);
                    }
                }
            }
        } else {
            match (&event.name, find_watch_dir(dirs, event.watch)) {
                (Some(name), Some(dir)) => {
                    let full = join_bytes(dir, name);
                    if has_path(targets, full.as_slice()) {
                        mark(changed, full.as_slice());
                        relevant = true;
                        assert(event_marks(*event, dirs@, all, full@));
                    }
                },
                _ => {},
            }
            assert(relevant == (relevant0 || event_relevant(*event, dirs@, all))) by {
                if event_relevant(*event, dirs@, all) {
                    let p = choose|p: Seq<u8>| event_marks(*event, dirs@, all, p);
                    assert(event_marks(*event, dirs@, all, p));
                }
            }
        }
        proof {
            assert forall|p: Seq<u8>| #[trigger]
                byte_views(changed@).contains(p) <==> byte_views(old(changed)@).contains(p)
                    || exists|e: int|
                    0 <= e < i + 1 && event_marks(#[trigger] events@[e], dirs@, all, p) by {
                assert(byte_views(changed@).contains(p) <==> before.contains(p) || event_marks(
                    events@[i as int],
                    dirs@,
                    all,
                    p,
                ));
                assert(before.contains(p) <==> byte_views(old(changed)@).contains(p) || exists|
                    e: int,
                |
                    0 <= e < i && event_marks(#[trigger] events@[e], dirs@, all, p));
                if exists|e: int|
                    0 <= e < i + 1 && event_marks(#[trigger] events@[e], dirs@, all, p) {
                    let e = choose|e: int|
                        0 <= e < i + 1 && event_marks(#[trigger] events@[e], dirs@, all, p);
                    assert(e < i || e == i);
                }
            }
            assert(relevant == (relevant0 || event_relevant(events@[i as int], dirs@, all)));
            if exists|e: int|
                0 <= e < i + 1 && event_relevant(#[trigger] events@[e], dirs@, all) {
                let e = choose|e: int|
                    0 <= e < i + 1 && event_relevant(#[trigger] events@[e], dirs@, all);
                assert(e < i || e == i);
            }
        }
        i += 1;
    }
    relevant
}

/// What the watcher does after a reload attempt.
#[derive(Clone, Copy, Debug, PartialEq, Eq, Structural)]
pub enum WatchStep {
    /// The changes are applied: forget them.
    Applied,
    /// Try again after the pause, with this many attempts left.
    Retry { left: usize },
    /// Give up on this batch; its changes stay pending.
    GiveUp,
}

/// The step after an attempt, of which `left` were left before it.
pub open spec fn step_after(ok: bool, left: usize) -> WatchStep {
    if ok {
        WatchStep::Applied
    } else if left == 1 {
        WatchStep::GiveUp
    } else {
        WatchStep::Retry { left: (left - 1) as usize }
    }
}

/// The step after an attempt, of which `left` were left before it.
pub fn after_attempt(ok: bool, left: usize) -> (r: WatchStep)
    requires
        left > 0,
    ensures
        r == step_after(ok, left),
{
    if ok {
        WatchStep::Applied
    } else if left == 1 {
        WatchStep::GiveUp
    } else {
        WatchStep::Retry { left: left - 1 }
    }
}

/// The wait before a reload when the last one was `since_last_ms` ago.
pub open spec fn wait_after(since_last_ms: u64) -> int {
    if since_last_ms < DEBOUNCE_MS {
        DEBOUNCE_MS - since_last_ms
    } else {
        0
    }
}

/// How long to wait before a reload when the last one was `since_last_ms` ago.
pub fn debounce_wait(since_last_ms: u64) -> (r: u64)
    ensures
        r == wait_after(since_last_ms),
{
    if since_last_ms < DEBOUNCE_MS {
        DEBOUNCE_MS - since_last_ms
    } else {
        0
    }
}

/// The pause after one of `backoff_secs` and a run of `ran_ms`.
pub open spec fn pause_after(backoff_secs: u64, ran_ms: u64) -> int {
    if ran_ms > 60_000 {
        1
    } else if backoff_secs * 2 <= 60 {
        backoff_secs * 2
    } else {
        60
    }
}

/// Pause before a watcher that ended is started again, in seconds: it doubles up to a minute, and
/// starts over after a run of more than a minute.
pub fn next_backoff(backoff_secs: u64, ran_ms: u64) -> (r: u64)
    ensures
        r == pause_after(backoff_secs, ran_ms),
{
    if ran_ms > 60_000 {
        1
    } else if backoff_secs <= 30 {
        backoff_secs * 2
    } else {
        60
    }
}

/// What a watcher watches.
pub enum ReloadWatcher {
    /// The files of the ruleset entries.
    RuleSet { paths: Vec<Vec<u8>> },
    /// The configuration file.
    Config { path: Vec<u8> },
}

/// The paths of ruleset entries.
pub open spec fn spec_paths(specs: Seq<RuleSetSpec>) -> Seq<Seq<u8>> {
    specs.map_values(|s: RuleSetSpec| s.path@)
}

impl ReloadWatcher {
    /// The paths that are watched.
    pub open spec fn watched(self) -> Seq<Seq<u8>> {
        match self {
            ReloadWatcher::RuleSet { paths } => byte_views(paths@),
            ReloadWatcher::Config { path } => seq![path@],
        }
    }

    /// The watchers that a state needs: one for the ruleset files whenever entries are configured,
    /// referred to or not, and one for the configuration file when there is one.
    pub fn for_state(specs: &Vec<RuleSetSpec>, config_path: &Option<Vec<u8>>) -> (r: Vec<Self>)
        ensures
            ({
                let rulesets: int = if specs@.len() > 0 {
                    1
                } else {
                    0
                };
                let configs: int = if config_path is Some {
                    1
                } else {
                    0
                };
                &&& r@.len() == rulesets + configs
                &&& rulesets == 1 ==> r@[0] is RuleSet && r@[0].watched() == spec_paths(specs@)
                &&& configs == 1 ==> r@[rulesets] is Config && r@[rulesets].watched()
                    == seq![config_path->0@]
            }),
    {
        let mut watchers: Vec<ReloadWatcher> = Vec::new();
        if specs.len() > 0 {
            let mut paths: Vec<Vec<u8>> = Vec::new();
            let mut i: usize = 0;
            while i < specs.len()
                invariant
                    i <= specs@.len(),
                    byte_views(paths@) == spec_paths(specs@).take(i as int),
                decreases specs@.len() - i,
            {
                let ghost before = paths@;
                paths.push(slice_to_vec(specs[i].path.as_slice()));
                proof {
                    assert(byte_views(paths@) =~= byte_views(before).push(specs@[i as int].path@));
                    assert(byte_views(paths@) =~= spec_paths(specs@).take(i + 1));
                }
                i += 1;
            }
            proof {
                assert(byte_views(paths@) =~= spec_paths(specs@));
            }
            watchers.push(ReloadWatcher::RuleSet { paths });
        }
        match config_path {
            Some(path) => {
                watchers.push(ReloadWatcher::Config { path: slice_to_vec(path.as_slice()) });
            },
            None => {},
        }
        watchers
    }

    /// Name of the watcher.
    pub fn name(&self) -> (r: &'static str)
        ensures
            r@ == (if self is RuleSet {
                "ruleset"@
            } else {
                "config"@
            }),
    {
        match self {
            ReloadWatcher::RuleSet { .. } => "ruleset",
            ReloadWatcher::Config { .. } => "config",
        }
    }

    /// The paths that are watched.
    pub fn paths(&self) -> (r: Vec<Vec<u8>>)
        ensures
            byte_views(r@) == self.watched(),
    {
        let mut out: Vec<Vec<u8>> = Vec::new();
        match self {
            ReloadWatcher::RuleSet { paths } => {
                let mut i: usize = 0;
                while i < paths.len()
                    invariant
                        i <= paths@.len(),
                        byte_views(out@) == byte_views(paths@).take(i as int),
                    decreases paths@.len() - i,
                {
                    let ghost before = out@;
                    out.push(slice_to_vec(paths[i].as_slice()));
                    proof {
                        assert(byte_views(out@) =~= byte_views(before).push(paths@[i as int]@));
                        assert(byte_views(out@) =~= byte_views(paths@).take(i + 1));
                    }
                    i += 1;
                }
                proof {
                    assert(byte_views(out@) =~= byte_views(paths@));
                }
            },
            ReloadWatcher::Config { path } => {
                out.push(slice_to_vec(path.as_slice()));
                proof {
                    assert(byte_views(out@) =~= seq![path@]);
                }
            },
        }
        out
    }
}

/// Names of the files among `paths` that lie in `dir`, in order.
pub open spec fn files_in(paths: Seq<Seq<u8>>, dir: Seq<u8>) -> Seq<Seq<u8>>
    decreases paths.len(),
{
    if paths.len() == 0 {
        Seq::empty()
    } else if parent_text(paths.last()) == dir {
        files_in(paths.drop_last(), dir).push(file_text(paths.last()))
    } else {
        files_in(paths.drop_last(), dir)
    }
}

/// `dirs` groups `paths` by the directory to watch.
pub open spec fn groups_paths(dirs: Seq<(Vec<u8>, Vec<Vec<u8>>)>, paths: Seq<Seq<u8>>) -> bool {
    &&& forall|a: int, b: int|
        0 <= a < b < dirs.len() ==> (#[trigger] dirs[a]).0@ != (#[trigger] dirs[b]).0@
    &&& forall|k: int|
        0 <= k < dirs.len() ==> byte_views((#[trigger] dirs[k]).1@) == files_in(paths, dirs[k].0@)
            && dirs[k].1@.len() > 0
    &&& forall|i: int|
        0 <= i < paths.len() ==> exists|k: int|
            0 <= k < dirs.len() && (#[trigger] dirs[k]).0@ == parent_text(#[trigger] paths[i])
}

proof fn lemma_files_in_unseen(paths: Seq<Seq<u8>>, dir: Seq<u8>)
    requires
        forall|i: int| 0 <= i < paths.len() ==> parent_text(#[trigger] paths[i]) != dir,
    ensures
        files_in(paths, dir) == Seq::<Seq<u8>>::empty(),
    decreases paths.len(),
{
    if paths.len() > 0 {
        let front = paths.drop_last();
        assert forall|i: int| 0 <= i < front.len() implies parent_text(#[trigger] front[i])
            != dir by {
            assert(front[i] == paths[i]);
        }
        lemma_files_in_unseen(front, dir);
        assert(parent_text(paths[paths.len() - 1]) != dir);
    }
}

/// Groups paths by the directory whose watch covers them.
pub fn watched_dirs(paths: &Vec<Vec<u8>>) -> (r: Vec<(Vec<u8>, Vec<Vec<u8>>)>)
    ensures
        groups_paths(r@, byte_views(paths@)),
{
    let ghost all = byte_views(paths@);
    let mut dirs: Vec<(Vec<u8>, Vec<Vec<u8>>)> = Vec::new();
    let mut i: usize = 0;
    while i < paths.len()
        invariant
            all == byte_views(paths@),
            i <= paths@.len(),
            groups_paths(dirs@, all.take(i as int)),
        decreases paths@.len() - i,
    {
        let dir = watch_parent(paths[i].as_slice());
        let file = file_name(paths[i].as_slice());
        let ghost fewer = all.take(i as int);
        let ghost wider = all.take(i + 1);
        let ghost before = dirs@;
        proof {
            assert(wider.drop_last() =~= fewer);
            assert(wider.last() == paths@[i as int]@);
        }
        let mut k: usize = 0;
        while k < dirs.len() && !bytes_eq(dirs[k].0.as_slice(), dir.as_slice())
            invariant
                k <= dirs@.len(),
                forall|q: int| 0 <= q < k ==> (#[trigger] dirs@[q]).0@ != dir@,
            decreases dirs@.len() - k,
        {
            k += 1;
        }
        if k < dirs.len() {
            let ghost files0 = dirs@[k as int].1@;
            let (d, mut files) = dirs.swap_remove(k);
            let ghost rest = dirs@;
            files.push(file);
            dirs.push((d, files));
            proof {
                let after = dirs@;
                let n = before.len() as int;
                assert(byte_views(after[n - 1].1@) =~= byte_views(files0).push(file@));
                assert forall|q: int| 0 <= q < n implies exists|o: int|
                    0 <= o < n && (#[trigger] before[o]).0@ == (#[trigger] after[q]).0@ by {
                    if q == n - 1 {
                        assert(before[k as int].0@ == after[q].0@);
                    } else if q == k {
                        assert(before[n - 1].0@ == after[q].0@);
                    } else {
                        assert(before[q].0@ == after[q].0@);
                    }
                }
                assert forall|a: int, b: int| 0 <= a < b < after.len() implies (
                #[trigger] after[a]).0@ != (#[trigger] after[b]).0@ by {
                    let oa = if a == k && k < n - 1 {
                        n - 1
                    } else {
                        a
                    };
                    let ob = if b == n - 1 {
                        k as int
                    } else if b == k {
                        n - 1
                    } else {
                        b
                    };
                    assert(after[a].0@ == before[oa].0@);
                    assert(after[b].0@ == before[ob].0@);
                    assert(oa != ob);
                    if oa < ob {
                        assert(before[oa].0@ != before[ob].0@);
                    } else {
                        assert(before[ob].0@ != before[oa].0@);
                    }
                }
                assert forall|q: int| 0 <= q < after.len() implies byte_views(
                    (#[trigger] after[q]).1@,
                ) == files_in(wider, after[q].0@) && after[q].1@.len() > 0 by {
                    if q < n - 1 {
                        let o = if q == k {
                            n - 1
                        } else {
                            q
                        };
                        assert(after[q] == before[o]);
                        assert(o != k);
                        if o < k {
                            assert(before[o].0@ != before[k as int].0@);
                        } else {
                            assert(before[k as int].0@ != before[o].0@);
                        }
                        assert(after[q].0@ != dir@);
                    }
                }
                assert forall|j: int| 0 <= j < wider.len() implies exists|q: int|
                    0 <= q < after.len() && (#[trigger] after[q]).0@ == parent_text(
                        #[trigger] wider[j],
                    ) by {
                    if j < i {
                        assert(wider[j] == fewer[j]);
                        let o = choose|o: int|
                            0 <= o < before.len() && (#[trigger] before[o]).0@ == parent_text(
                                fewer[j],
                            );
                        if o == k {
                            assert(after[n - 1].0@ == before[o].0@);
                        } else if o == n - 1 {
                            assert(after[k as int].0@ == before[o].0@);
                        } else {
                            assert(after[o].0@ == before[o].0@);
                        }
                    } else {
                        assert(after[n - 1].0@ == parent_text(wider[j]));
                    }
                }
            }
        } else {
            let mut files: Vec<Vec<u8>> = Vec::new();
            files.push(file);
            dirs.push((dir, files));
            proof {
                let after = dirs@;
                assert forall|j: int| 0 <= j < fewer.len() implies parent_text(
                    #[trigger] fewer[j],
                ) != dir@ by {
                    let o = choose|o: int|
                        0 <= o < before.len() && (#[trigger] before[o]).0@ == parent_text(fewer[j]);
                    assert(before[o].0@ != dir@);
                }
                lemma_files_in_unseen(fewer, dir@);
                assert(byte_views(after[before.len() as int].1@) =~= seq![file@]);
                assert(files_in(wider, dir@) =~= seq![file@]);
                assert forall|j: int| 0 <= j < wider.len() implies exists|q: int|
                    0 <= q < after.len() && (#[trigger] after[q]).0@ == parent_text(
                        #[trigger] wider[j],
                    ) by {
                    if j < i {
                        assert(wider[j] == fewer[j]);
                        let o = choose|o: int|
                            0 <= o < before.len() && (#[trigger] before[o]).0@ == parent_text(
                                fewer[j],
                            );
                        assert(after[o].0@ == before[o].0@);
                    } else {
                        assert(after[before.len() as int].0@ == parent_text(wider[j]));
                    }
                }
            }
        }
        i += 1;
    }
    proof {
        assert(all.take(all.len() as int) =~= all);
    }
    dirs
}

// What reloads come to.

/// The field is among the fields.
#[verifier::opaque]
spec fn named(fields: Seq<StartupField>, f: StartupField) -> bool {
    fields.contains(f)
}

proof fn lemma_one_more(a: Seq<StartupField>, same: bool, g: StartupField, f: StartupField)
    ensures
        named(a + when_changed(same, g), f) <==> named(a, f) || !same && f == g,
{
    reveal(named);
    let b = when_changed(same, g);
    if a.contains(f) {
        let i = choose|i: int| 0 <= i < a.len() && a[i] == f;
        assert((a + b)[i] == f);
    }
    if !same {
        assert((a + b)[a.len() as int] == g);
    }
    if (a + b).contains(f) {
        let i = choose|i: int| 0 <= i < (a + b).len() && (a + b)[i] == f;
        if i < a.len() {
            assert(a[i] == f);
        }
    }
}

/// Whether two configurations agree in a group of startup settings.
spec fn agree(a: Config, b: Config, f: StartupField) -> bool {
    match f {
        StartupField::Bind => same_bind(a.bind@, b.bind@) && same_interface(
            a.interface,
            b.interface,
        ),
        StartupField::WorkerThreads => a.worker_threads == b.worker_threads,
        StartupField::UdpBufSize => a.udp_buf_size == b.udp_buf_size,
        StartupField::UringRecvBuffers => a.uring_recv_buffers == b.uring_recv_buffers,
        StartupField::UdpDiagnostics => a.udp_diagnostics == b.udp_diagnostics,
        StartupField::MaxInflight => a.max_inflight == b.max_inflight,
        StartupField::TcpMaxConnections => a.tcp_max_connections == b.tcp_max_connections,
        StartupField::Cache => same_cache(a, b),
        StartupField::AddIp => same_text(a.ipset, b.ipset),
        StartupField::VerdictCache => a.verdict_cache == b.verdict_cache,
        StartupField::Dashboard => same_text(a.dashboard, b.dashboard),
        StartupField::Ruleset => same_specs(a.ruleset_specs@, b.ruleset_specs@),
    }
}

proof fn lemma_startup_changes(a: Config, b: Config, f: StartupField)
    ensures
        startup_changes(a, b).contains(f) <==> !agree(a, b, f),
{
    let none = Seq::<StartupField>::empty();
    assert(!named(none, f)) by {
        reveal(named);
    }
    let same = agree(a, b, StartupField::Bind);
    lemma_one_more(none, same, StartupField::Bind, f);
    let s1 = none + when_changed(same, StartupField::Bind);
    assert(s1 =~= when_changed(same, StartupField::Bind));
    let same = agree(a, b, StartupField::WorkerThreads);
    lemma_one_more(s1, same, StartupField::WorkerThreads, f);
    let s2 = s1 + when_changed(same, StartupField::WorkerThreads);
    let same = agree(a, b, StartupField::UdpBufSize);
    lemma_one_more(s2, same, StartupField::UdpBufSize, f);
    let s3 = s2 + when_changed(same, StartupField::UdpBufSize);
    let same = agree(a, b, StartupField::UringRecvBuffers);
    lemma_one_more(s3, same, StartupField::UringRecvBuffers, f);
    let s4 = s3 + when_changed(same, StartupField::UringRecvBuffers);
    let same = agree(a, b, StartupField::UdpDiagnostics);
    lemma_one_more(s4, same, StartupField::UdpDiagnostics, f);
    let s5 = s4 + when_changed(same, StartupField::UdpDiagnostics);
    let same = agree(a, b, StartupField::MaxInflight);
    lemma_one_more(s5, same, StartupField::MaxInflight, f);
    let s6 = s5 + when_changed(same, StartupField::MaxInflight);
    let same = agree(a, b, StartupField::TcpMaxConnections);
    lemma_one_more(s6, same, StartupField::TcpMaxConnections, f);
    let s7 = s6 + when_changed(same, StartupField::TcpMaxConnections);
    let same = agree(a, b, StartupField::Cache);
    lemma_one_more(s7, same, StartupField::Cache, f);
    let s8 = s7 + when_changed(same, StartupField::Cache);
    let same = agree(a, b, StartupField::AddIp);
    lemma_one_more(s8, same, StartupField::AddIp, f);
    let s9 = s8 + when_changed(same, StartupField::AddIp);
    let same = agree(a, b, StartupField::VerdictCache);
    lemma_one_more(s9, same, StartupField::VerdictCache, f);
    let s10 = s9 + when_changed(same, StartupField::VerdictCache);
    let same = agree(a, b, StartupField::Dashboard);
    lemma_one_more(s10, same, StartupField::Dashboard, f);
    let s11 = s10 + when_changed(same, StartupField::Dashboard);
    let same = agree(a, b, StartupField::Ruleset);
    lemma_one_more(s11, same, StartupField::Ruleset, f);
    let s12 = s11 + when_changed(same, StartupField::Ruleset);
    assert(s12 == startup_changes(a, b));
    assert(named(s12, f) <==> s12.contains(f)) by {
        reveal(named);
    }
}

/// A changed number among the startup settings always needs a restart, and under the name of its
/// own group.
pub proof fn law_changed_numbers_need_restart(a: Config, b: Config)
    ensures
        ({
            let c = startup_changes(a, b);
            &&& c.contains(StartupField::WorkerThreads) <==> a.worker_threads != b.worker_threads
            &&& c.contains(StartupField::UdpBufSize) <==> a.udp_buf_size != b.udp_buf_size
            &&& c.contains(StartupField::UringRecvBuffers) <==> a.uring_recv_buffers
                != b.uring_recv_buffers
            &&& c.contains(StartupField::UdpDiagnostics) <==> a.udp_diagnostics
                != b.udp_diagnostics
            &&& c.contains(StartupField::MaxInflight) <==> a.max_inflight != b.max_inflight
            &&& c.contains(StartupField::TcpMaxConnections) <==> a.tcp_max_connections
                != b.tcp_max_connections
            &&& c.contains(StartupField::VerdictCache) <==> a.verdict_cache != b.verdict_cache
            &&& c.contains(StartupField::Cache) <==> a.cache_size != b.cache_size
                || a.cache_min_ttl != b.cache_min_ttl || a.cache_max_ttl != b.cache_max_ttl
                || a.cache_persist_interval_ms != b.cache_persist_interval_ms || match (
                a.cache_persist_path,
                b.cache_persist_path,
            ) {
                (Some(x), Some(y)) => !same_location(x@, y@),
                (None, None) => false,
                _ => true,
            }
        }),
{
    lemma_startup_changes(a, b, StartupField::WorkerThreads);
    lemma_startup_changes(a, b, StartupField::UdpBufSize);
    lemma_startup_changes(a, b, StartupField::UringRecvBuffers);
    lemma_startup_changes(a, b, StartupField::UdpDiagnostics);
    lemma_startup_changes(a, b, StartupField::MaxInflight);
    lemma_startup_changes(a, b, StartupField::TcpMaxConnections);
    lemma_startup_changes(a, b, StartupField::VerdictCache);
    lemma_startup_changes(a, b, StartupField::Cache);
}

/// So does another list of addresses or interfaces to listen on, of ruleset entries, another
/// address set and another dashboard, each under its own name.
pub proof fn law_changed_lists_need_restart(a: Config, b: Config)
    ensures
        ({
            let c = startup_changes(a, b);
            &&& c.contains(StartupField::Bind) <==> {
                ||| a.bind@.len() != b.bind@.len()
                ||| exists|i: int|
                    0 <= i < a.bind@.len() && ((#[trigger] a.bind@[i]).addr@ != b.bind@[i].addr@
                        || a.bind@[i].udp != b.bind@[i].udp || a.bind@[i].tcp != b.bind@[i].tcp)
                ||| match (a.interface, b.interface) {
                    (InterfaceFilter::All, InterfaceFilter::All) => false,
                    (InterfaceFilter::Only(x), InterfaceFilter::Only(y)) => texts(x@) != texts(y@),
                    (InterfaceFilter::Except(x), InterfaceFilter::Except(y)) => texts(x@) != texts(
                        y@,
                    ),
                    _ => true,
                }
            }
            &&& c.contains(StartupField::Ruleset) <==> {
                ||| a.ruleset_specs@.len() != b.ruleset_specs@.len()
                ||| exists|i: int|
                    {
                        &&& 0 <= i < a.ruleset_specs@.len()
                        &&& {
                            ||| (#[trigger] a.ruleset_specs@[i]).tag@ != b.ruleset_specs@[i].tag@
                            ||| a.ruleset_specs@[i].format != b.ruleset_specs@[i].format
                            ||| a.ruleset_specs@[i].behavior != b.ruleset_specs@[i].behavior
                            ||| !same_location(
                                a.ruleset_specs@[i].path@,
                                b.ruleset_specs@[i].path@,
                            )
                        }
                    }
            }
            &&& c.contains(StartupField::AddIp) <==> match (a.ipset, b.ipset) {
                (Some(x), Some(y)) => x@ != y@,
                (None, None) => false,
                _ => true,
            }
            &&& c.contains(StartupField::Dashboard) <==> match (a.dashboard, b.dashboard) {
                (Some(x), Some(y)) => x@ != y@,
                (None, None) => false,
                _ => true,
            }
        }),
{
    lemma_startup_changes(a, b, StartupField::Bind);
    lemma_startup_changes(a, b, StartupField::Ruleset);
    lemma_startup_changes(a, b, StartupField::AddIp);
    lemma_startup_changes(a, b, StartupField::Dashboard);
    if same_bind(a.bind@, b.bind@) {
        assert forall|i: int| 0 <= i < a.bind@.len() implies (#[trigger] a.bind@[i]).addr@
            == b.bind@[i].addr@ && a.bind@[i].udp == b.bind@[i].udp && a.bind@[i].tcp
            == b.bind@[i].tcp by {
            assert(crate::config::same_endpoint(a.bind@[i], b.bind@[i]));
        }
    }
    if same_specs(a.ruleset_specs@, b.ruleset_specs@) {
        assert forall|i: int| 0 <= i < a.ruleset_specs@.len() implies (
        #[trigger] a.ruleset_specs@[i]).tag@ == b.ruleset_specs@[i].tag@
            && a.ruleset_specs@[i].format == b.ruleset_specs@[i].format
            && a.ruleset_specs@[i].behavior == b.ruleset_specs@[i].behavior && same_location(
            a.ruleset_specs@[i].path@,
            b.ruleset_specs@[i].path@,
        ) by {
            assert(crate::config::same_spec(a.ruleset_specs@[i], b.ruleset_specs@[i]));
        }
    }
}

/// A change of a watched file is seen: an event on the watch of its directory that names the file
/// marks it, however its path is written. When events were lost, every watched file counts as
/// changed. An event on another watch, or without a name, marks nothing.
pub proof fn law_change_of_watched_file_is_seen(
    event: WatchEvent,
    dirs: Seq<(i32, Vec<u8>)>,
    targets: Seq<Seq<u8>>,
    path: Seq<u8>,
)
    requires
        targets.contains(watch_text(path)),
    ensures
        event.overflow ==> event_marks(event, dirs, targets, watch_text(path)),
        event.name is Some && event.name->0@ == file_text(path) && watch_dir(dirs, event.watch)
            == Some(parent_text(path)) ==> event_marks(event, dirs, targets, watch_text(path)),
        !event.overflow && event.name is None ==> !event_relevant(event, dirs, targets),
        !event.overflow && watch_dir(dirs, event.watch) is None ==> !event_relevant(
            event,
            dirs,
            targets,
        ),
        event_marks(event, dirs, targets, path) ==> event_relevant(event, dirs, targets)
            && targets.contains(path),
        !event.overflow && event_marks(event, dirs, targets, path) ==> {
            let name = event.name->0@;
            path.len() >= name.len() && path.skip(path.len() - name.len()) == name
        },
{
    if !event.overflow && event_marks(event, dirs, targets, path) {
        let name = event.name->0@;
        assert(path.skip(path.len() - name.len()) =~= name);
    }
}

/// A watch stands for the directory that was listed last under its number.
pub proof fn law_watch_stands_for_its_directory(dirs: Seq<(i32, Vec<u8>)>, i: int)
    requires
        0 <= i < dirs.len(),
        forall|j: int| i < j < dirs.len() ==> (#[trigger] dirs[j]).0 != dirs[i].0,
    ensures
        watch_dir(dirs, dirs[i].0) == Some(dirs[i].1@),
    decreases dirs.len(),
{
    if i < dirs.len() - 1 {
        let front = dirs.drop_last();
        assert(dirs[dirs.len() - 1].0 != dirs[i].0);
        assert forall|j: int| i < j < front.len() implies (#[trigger] front[j]).0 != front[i].0 by {
            assert(dirs[j].0 != dirs[i].0);
        }
        law_watch_stands_for_its_directory(front, i);
    }
}

/// A reload after a change reads the files that changed, and those of tags that were not loaded
/// before; it takes the others over.
pub proof fn law_changed_files_are_read_again(
    request: LoadRequest,
    db: RuleSetDb,
    changed: Seq<Vec<u8>>,
    spec: RuleSetSpec,
)
    requires
        reuses_from(request, Some(db), changed),
    ensures
        byte_views(changed).contains(watch_text(spec.path@)) ==> !request.reuses(spec),
        !db@.contains_key(vstd::utf8::encode_utf8(spec.tag@)) ==> !request.reuses(spec),
        changed.len() == 0 && db@.contains_key(vstd::utf8::encode_utf8(spec.tag@))
            ==> request.reuses(spec),
{
}

/// A batch of changes is tried until it takes effect, as often as attempts are left and no more:
/// each failure takes one attempt, and only the last failure gives up.
pub proof fn law_attempts_are_counted(left: usize)
    requires
        left > 0,
    ensures
        step_after(true, left) == WatchStep::Applied,
        left > 1 ==> step_after(false, left) == (WatchStep::Retry { left: (left - 1) as usize }),
        step_after(false, left) == WatchStep::GiveUp <==> left == 1,
{
}

/// After the wait at least half a second lies between two reloads, and nothing is waited for
/// longer than that.
pub proof fn law_reloads_keep_apart(since_last_ms: u64)
    ensures
        since_last_ms + wait_after(since_last_ms) >= 500,
        wait_after(since_last_ms) > 0 ==> since_last_ms + wait_after(since_last_ms) == 500,
        wait_after(since_last_ms) >= 0,
{
}

/// The pause before a watcher starts again doubles up to a minute while its runs are short, and
/// starts over after a run of more than a minute.
pub proof fn law_pause_doubles(pause: u64, ran_ms: u64)
    ensures
        ran_ms > 60_000 ==> pause_after(pause, ran_ms) == 1,
        ran_ms <= 60_000 && pause <= 30 ==> pause_after(pause, ran_ms) == pause + pause,
        ran_ms <= 60_000 && pause > 30 ==> pause_after(pause, ran_ms) == 60,
{
}

/// A new configuration takes effect wholly or not at all: where a startup setting differs it is
/// refused, with the settings that do; else it is in force under the next generation, or nothing
/// changes because it cannot be built.
pub proof fn law_configuration_applies_wholly_or_not(
    old_cfg: Config,
    generation: u64,
    cfg: Config,
    files: Seq<RuleSetFile>,
    r: ConfigReload,
    f: StartupField,
)
    requires
        config_outcome(old_cfg, generation, cfg, files, r),
    ensures
        startup_changes(old_cfg, cfg).contains(f) ==> r is RestartRequired
            && r->RestartRequired_0@.contains(f),
        r is RestartRequired ==> r->RestartRequired_0@ == startup_changes(old_cfg, cfg)
            && r->RestartRequired_0@.len() > 0,
        r matches ConfigReload::Applied(next) ==> {
            &&& next.routing.cfg == cfg
            &&& next.generation != generation
            &&& generation < u64::MAX ==> next.generation == generation + 1
            &&& next.wf()
            &&& startup_changes(old_cfg, cfg).len() == 0
        },
{
}

} // verus!
