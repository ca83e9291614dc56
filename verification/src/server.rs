//! Application state, reload decisions and listener orchestration.

use crate::config::{
    copy_matchers, copy_texts, has_text, merged_policy, same_fixed, same_matchers, texts,
    AnswerIpMatcher, BindEndpoint, CacheConfig, Config, EcsMode, FallbackTarget, FixedAnswerSet,
    InterfaceFilter, ResolvedCachePolicy, RuleFilterActionSpec, RuleFilterSpec, RuleMatcher,
    RuleSpec, ServerSpec, UpstreamEndpoint,
};
use crate::response_filter::{FilterAction, ResponseFilter};
use crate::route_index::{first_rule, law_first_rule, matcher_meets, RouteIndex};
use crate::router::RouteTarget;
use crate::ruleset::{
    load_outcome, load_request, LoadRequest, RuleSetDb, RuleSetError, RuleSetFile, RuleSetSpec,
};
use crate::text::{
    byte_views, bytes_eq, law_split_around, law_split_of_piece, lemma_split_nonempty, split_bytes,
    split_on, str_eq,
};
use std::sync::Arc;
use vstd::prelude::*;
use vstd::slice::slice_to_vec;
use vstd::string::{StringExecFns, StringSliceAdditionalSpecFns};
use vstd::utf8::encode_utf8;

verus! {

// Servers and rules.

/// What a server resolves a query with.
pub enum ServerKind {
    /// An upstream pool, by its number.
    Upstream(usize),
    /// An answer made locally.
    Fixed(FixedAnswerSet),
}

/// A named server.
pub struct Server {
    pub name: String,
    /// The name under which this server reports answers of the final fallback.
    pub final_name: String,
    /// Position among the servers.
    pub index: usize,
    pub kind: ServerKind,
    /// Answers do not depend on the client subnet: one cache entry serves all clients.
    pub strip_ecs: bool,
}

/// A routing rule.
pub struct Rule {
    /// Position among the rules.
    pub index: usize,
    /// Name of the server this rule resolves through.
    pub server: String,
    pub kind: ServerKind,
    pub cache_policy: ResolvedCachePolicy,
    pub filters: Vec<ResponseFilter>,
    /// Empty for a rule that matches every name.
    pub matcher: Vec<RuleMatcher>,
    pub strip_ecs: bool,
}

/// Where a query goes that no rule matches.
#[derive(Clone, Copy, Debug, PartialEq, Eq, Structural)]
pub enum ResolvedFallback {
    /// The rule at this position.
    Rule(usize),
    /// The server at this position.
    Server(usize),
    /// Both servers at once; the first valid answer wins.
    Race { primary: usize, secondary: usize },
    /// Both servers; the addresses of the primary's answer decide.
    CidrTest { primary: usize, secondary: usize },
}

/// Configuration with the servers and rules built from it.
pub struct RoutingConfig {
    pub cfg: Config,
    pub servers: Vec<Server>,
    pub rules: Vec<Rule>,
    pub needs_ruleset: bool,
    pub fallback: ResolvedFallback,
}

impl RoutingConfig {
    /// The fallback names rules and servers that are there.
    pub open spec fn fallback_fits(self) -> bool {
        match self.fallback {
            ResolvedFallback::Rule(i) => i < self.rules@.len(),
            ResolvedFallback::Server(i) => i < self.servers@.len(),
            ResolvedFallback::Race { primary, secondary } => primary < self.servers@.len()
                && secondary < self.servers@.len(),
            ResolvedFallback::CidrTest { primary, secondary } => primary < self.servers@.len()
                && secondary < self.servers@.len(),
        }
    }

    /// Servers and rules know their positions, and every position that is referred to is there.
    pub open spec fn wf(self) -> bool {
        &&& self.fallback_fits()
        &&& forall|i: int| 0 <= i < self.servers@.len() ==> (#[trigger] self.servers@[i]).index == i
        &&& forall|i: int| 0 <= i < self.rules@.len() ==> (#[trigger] self.rules@[i]).index == i
        &&& forall|i: int|
            0 <= i < self.rules@.len() ==> forwards_fit(
                (#[trigger] self.rules@[i]).filters@,
                self.servers@.len(),
            )
    }
}

/// Every forward action names one of `n` servers.
pub open spec fn forwards_fit(filters: Seq<ResponseFilter>, n: nat) -> bool {
    forall|i: int|
        0 <= i < filters.len() ==> match (#[trigger] filters[i]).action {
            FilterAction::Forward(s) => s < n,
            _ => true,
        }
}

impl Rule {
    /// The rule as a target.
    pub fn target(&self) -> (r: RouteTarget<'_>)
        ensures
            r == RouteTarget::Rule(self, self.index),
    {
        RouteTarget::Rule(self, self.index)
    }
}

// Building servers and rules.

/// Position of the last server of a name.
pub open spec fn server_named(servers: Seq<Server>, name: Seq<char>) -> Option<int>
    decreases servers.len(),
{
    if servers.len() == 0 {
        None
    } else if servers.last().name@ == name {
        Some(servers.len() - 1)
    } else {
        server_named(servers.drop_last(), name)
    }
}

fn find_server(servers: &[Server], name: &str) -> (r: Option<usize>)
    ensures
        match r {
            Some(i) => server_named(servers@, name@) == Some(i as int) && i < servers@.len(),
            None => server_named(servers@, name@) is None,
        },
{
    let mut n: usize = servers.len();
    proof {
        assert(servers@.take(n as int) =~= servers@);
    }
    while n > 0
        invariant
            n <= servers@.len(),
            server_named(servers@, name@) == server_named(servers@.take(n as int), name@),
        decreases n,
    {
        proof {
            assert(servers@.take(n as int).drop_last() =~= servers@.take(n - 1));
            assert(servers@.take(n as int).last() == servers@[n - 1]);
        }
        if str_eq(servers[n - 1].name.as_str(), name) {
            return Some(n - 1);
        }
        n -= 1;
    }
    None
}

pub open spec fn same_kind(a: ServerKind, b: ServerKind) -> bool {
    match (a, b) {
        (ServerKind::Upstream(x), ServerKind::Upstream(y)) => x == y,
        (ServerKind::Fixed(x), ServerKind::Fixed(y)) => same_fixed(x, y),
        _ => false,
    }
}

impl ServerKind {
    /// The same pool, or a copy of the fixed answer.
    pub fn copied(&self) -> (r: Self)
        ensures
            same_kind(r, *self),
    {
        match self {
            ServerKind::Upstream(pool) => ServerKind::Upstream(*pool),
            ServerKind::Fixed(set) => ServerKind::Fixed(set.copied()),
        }
    }
}

/// No endpoint shows the client subnet to its upstream.
pub open spec fn all_strip_ecs(endpoints: Seq<UpstreamEndpoint>) -> bool {
    forall|i: int|
        0 <= i < endpoints.len() ==> match (#[trigger] endpoints[i]).ecs_mode {
            None => true,
            Some(EcsMode::Strip) => true,
            _ => false,
        }
}

fn endpoints_strip_ecs(endpoints: &Vec<UpstreamEndpoint>) -> (r: bool)
    ensures
        r == all_strip_ecs(endpoints@),
{
    let mut i: usize = 0;
    while i < endpoints.len()
        invariant
            i <= endpoints@.len(),
            forall|j: int|
                0 <= j < i ==> match (#[trigger] endpoints@[j]).ecs_mode {
                    None => true,
                    Some(EcsMode::Strip) => true,
                    _ => false,
                },
        decreases endpoints@.len() - i,
    {
        let ok = match endpoints[i].ecs_mode {
            None => true,
            Some(EcsMode::Strip) => true,
            _ => false,
        };
        if !ok {
            assert(endpoints@[i as int].ecs_mode is Some);
            return false;
        }
        i += 1;
    }
    true
}

/// `server` is what the configured entry at position `i` leads to. The pool of an upstream entry
/// has the number of the entry.
pub open spec fn server_built(entry: (String, ServerSpec), i: int, server: Server) -> bool {
    &&& server.name@ == entry.0@
    &&& server.final_name@ == "final->"@ + entry.0@
    &&& server.index == i
    &&& match entry.1 {
        ServerSpec::Upstream(endpoints) => server.kind == ServerKind::Upstream(i as usize)
            && server.strip_ecs == all_strip_ecs(endpoints@),
        ServerSpec::Fixed(set) => server.kind is Fixed && same_fixed(server.kind->Fixed_0, set)
            && server.strip_ecs,
    }
}

/// `servers` are what the configured entries lead to.
pub open spec fn servers_built(entries: Seq<(String, ServerSpec)>, servers: Seq<Server>) -> bool {
    &&& servers.len() == entries.len()
    &&& forall|i: int|
        0 <= i < servers.len() ==> server_built(entries[i], i, #[trigger] servers[i])
}

/// Builds the configured servers.
pub fn build_servers(entries: &Vec<(String, ServerSpec)>) -> (r: Vec<Server>)
    ensures
        servers_built(entries@, r@),
{
    let mut servers: Vec<Server> = Vec::with_capacity(entries.len());
    let mut i: usize = 0;
    while i < entries.len()
        invariant
            i <= entries@.len(),
            servers@.len() == i,
            forall|j: int|
                0 <= j < i ==> server_built(entries@[j], j, #[trigger] servers@[j]),
        decreases entries@.len() - i,
    {
        let entry = &entries[i];
        let (kind, strip_ecs) = match &entry.1 {
            ServerSpec::Upstream(endpoints) => (
                ServerKind::Upstream(i),
                endpoints_strip_ecs(endpoints),
            ),
            ServerSpec::Fixed(set) => (ServerKind::Fixed(set.copied()), true),
        };
        let mut final_name = "final->".to_owned();
        final_name.append(entry.0.as_str());
        servers.push(Server { name: entry.0.clone(), final_name, index: i, kind, strip_ecs });
        i += 1;
    }
    servers
}

/// Why rules could not be built. Rules and filters are named by their positions.
#[derive(Clone, Copy, Debug, PartialEq, Eq, Structural)]
pub enum BuildError {
    /// A filter forwards to a server that is not there.
    NoForwardTarget { rule: usize, filter: usize },
    /// The shortest cache lifetime in force exceeds the longest.
    TtlBoundsCross { rule: usize },
}

/// `filter` is what a configured filter leads to.
pub open spec fn filter_built(
    spec: RuleFilterSpec,
    servers: Seq<Server>,
    filter: ResponseFilter,
) -> bool {
    &&& filter.answer_ip.includes@ == spec.answer_ip.includes@
    &&& filter.answer_ip.excludes@ == spec.answer_ip.excludes@
    &&& filter.response_type@ == spec.response_type@
    &&& filter.response_rcode@ == spec.response_rcode@
    &&& filter.response_qclass@ == spec.response_qclass@
    &&& match spec.action {
        RuleFilterActionSpec::Accept => filter.action is Accept,
        RuleFilterActionSpec::Drop => filter.action is Drop,
        RuleFilterActionSpec::Forward(name) => server_named(servers, name@) is Some
            && filter.action == FilterAction::Forward(
            servers[server_named(servers, name@)->0].index,
        ),
    }
}

/// A configured filter forwards to a server that is not there.
pub open spec fn forward_missing(spec: RuleFilterSpec, servers: Seq<Server>) -> bool {
    match spec.action {
        RuleFilterActionSpec::Forward(name) => server_named(servers, name@) is None,
        _ => false,
    }
}

fn copy_u16s(v: &Vec<u16>) -> (r: Vec<u16>)
    ensures
        r@ == v@,
{
    slice_to_vec(v.as_slice())
}

/// Builds the filters of a rule; `Err` with the position of the first one whose forward target is
/// not there.
pub fn build_response_filters(specs: &Vec<RuleFilterSpec>, servers: &[Server]) -> (r: Result<
    Vec<ResponseFilter>,
    usize,
>)
    ensures
        match r {
            Ok(filters) => filters@.len() == specs@.len() && forall|i: int|
                0 <= i < specs@.len() ==> filter_built(specs@[i], servers@, #[trigger] filters@[i]),
            Err(n) => n < specs@.len() && forward_missing(specs@[n as int], servers@) && forall|
                i: int,
            |
                0 <= i < n ==> !forward_missing(#[trigger] specs@[i], servers@),
        },
{
    let mut filters: Vec<ResponseFilter> = Vec::new();
    let mut i: usize = 0;
    while i < specs.len()
        invariant
            i <= specs@.len(),
            filters@.len() == i,
            forall|j: int|
                0 <= j < i ==> filter_built(specs@[j], servers@, #[trigger] filters@[j]),
            forall|j: int| 0 <= j < i ==> !forward_missing(#[trigger] specs@[j], servers@),
        decreases specs@.len() - i,
    {
        let spec = &specs[i];
        let action = match &spec.action {
            RuleFilterActionSpec::Accept => FilterAction::Accept,
            RuleFilterActionSpec::Drop => FilterAction::Drop,
            RuleFilterActionSpec::Forward(name) => match find_server(servers, name.as_str()) {
                Some(s) => FilterAction::Forward(servers[s].index),
                None => {
                    return Err(i);
                },
            },
        };
        filters.push(
            ResponseFilter {
                answer_ip: spec.answer_ip.copied(),
                response_type: copy_u16s(&spec.response_type),
                response_rcode: slice_to_vec(spec.response_rcode.as_slice()),
                response_qclass: copy_u16s(&spec.response_qclass),
                action,
            },
        );
        i += 1;
    }
    Ok(filters)
}

/// Bounds that no lifetime can meet.
pub open spec fn bounds_cross(p: ResolvedCachePolicy) -> bool {
    p.min_ttl > 0 && p.max_ttl > 0 && p.min_ttl > p.max_ttl
}

/// `rule` is what a configured rule at position `i` leads to.
pub open spec fn rule_built(
    spec: RuleSpec,
    i: int,
    servers: Seq<Server>,
    cache: CacheConfig,
    rule: Rule,
) -> bool {
    &&& server_named(servers, spec.server@) is Some
    &&& ({
        let server = servers[server_named(servers, spec.server@)->0];
        &&& same_kind(rule.kind, server.kind)
        &&& rule.strip_ecs == server.strip_ecs
    })
    &&& rule.index == i
    &&& rule.server@ == spec.server@
    &&& rule.cache_policy == merged_policy(cache, spec.cache_policy)
    &&& !bounds_cross(rule.cache_policy)
    &&& rule.filters@.len() == spec.filters@.len()
    &&& forall|j: int|
        0 <= j < spec.filters@.len() ==> filter_built(
            spec.filters@[j],
            servers,
            #[trigger] rule.filters@[j],
        )
    &&& same_matchers(rule.matcher@, spec.matcher@)
}

/// A configured rule can be built.
pub open spec fn rule_buildable(spec: RuleSpec, servers: Seq<Server>, cache: CacheConfig) -> bool {
    &&& forall|j: int|
        0 <= j < spec.filters@.len() ==> !forward_missing(#[trigger] spec.filters@[j], servers)
    &&& !bounds_cross(merged_policy(cache, spec.cache_policy))
}

/// All configured rules can be built.
pub open spec fn rules_buildable(
    specs: Seq<RuleSpec>,
    servers: Seq<Server>,
    cache: CacheConfig,
) -> bool {
    forall|i: int| 0 <= i < specs.len() ==> rule_buildable(#[trigger] specs[i], servers, cache)
}

proof fn lemma_built_is_buildable(
    specs: Seq<RuleSpec>,
    servers: Seq<Server>,
    cache: CacheConfig,
    rules: Vec<Rule>,
)
    requires
        rules_outcome(specs, servers, cache, Ok(rules)),
    ensures
        rules_buildable(specs, servers, cache),
{
    assert forall|i: int| 0 <= i < specs.len() implies rule_buildable(
        #[trigger] specs[i],
        servers,
        cache,
    ) by {
        assert(rule_built(specs[i], i, servers, cache, rules@[i]));
        assert forall|j: int| 0 <= j < specs[i].filters@.len() implies !forward_missing(
            #[trigger] specs[i].filters@[j],
            servers,
        ) by {
            assert(filter_built(specs[i].filters@[j], servers, rules@[i].filters@[j]));
        }
    }
}

/// The outcome of building the configured rules.
pub open spec fn rules_outcome(
    specs: Seq<RuleSpec>,
    servers: Seq<Server>,
    cache: CacheConfig,
    r: Result<Vec<Rule>, BuildError>,
) -> bool {
    match r {
        Ok(rules) => rules@.len() == specs.len() && forall|i: int|
            0 <= i < specs.len() ==> rule_built(specs[i], i, servers, cache, #[trigger] rules@[i]),
        Err(BuildError::NoForwardTarget { rule, filter }) => {
            &&& rule < specs.len()
            &&& forall|i: int|
                0 <= i < rule ==> rule_buildable(#[trigger] specs[i], servers, cache)
            &&& filter < specs[rule as int].filters@.len()
            &&& forward_missing(specs[rule as int].filters@[filter as int], servers)
            &&& forall|j: int|
                0 <= j < filter ==> !forward_missing(
                    #[trigger] specs[rule as int].filters@[j],
                    servers,
                )
        },
        Err(BuildError::TtlBoundsCross { rule }) => {
            &&& rule < specs.len()
            &&& forall|i: int|
                0 <= i < rule ==> rule_buildable(#[trigger] specs[i], servers, cache)
            &&& forall|j: int|
                0 <= j < specs[rule as int].filters@.len() ==> !forward_missing(
                    #[trigger] specs[rule as int].filters@[j],
                    servers,
                )
            &&& bounds_cross(merged_policy(cache, specs[rule as int].cache_policy))
        },
    }
}

/// Builds the configured rules. Each of them must name a server that is there; the configuration
/// is checked for that when it is read. The first rule that cannot be built is reported, and of it
/// the first filter without a target before crossing cache bounds.
pub fn build_rules(specs: &Vec<RuleSpec>, servers: &[Server], cache: &CacheConfig) -> (r: Result<
    Vec<Rule>,
    BuildError,
>)
    requires
        forall|i: int|
            0 <= i < specs@.len() ==> server_named(servers@, (#[trigger] specs@[i]).server@)
                is Some,
    ensures
        rules_outcome(specs@, servers@, *cache, r),
{
    let mut rules: Vec<Rule> = Vec::new();
    let mut idx: usize = 0;
    while idx < specs.len()
        invariant
            idx <= specs@.len(),
            rules@.len() == idx,
            forall|i: int|
                0 <= i < specs@.len() ==> server_named(servers@, (#[trigger] specs@[i]).server@)
                    is Some,
            forall|i: int|
                0 <= i < idx ==> rule_built(specs@[i], i, servers@, *cache, #[trigger] rules@[i]),
            forall|i: int|
                0 <= i < idx ==> rule_buildable(#[trigger] specs@[i], servers@, *cache),
        decreases specs@.len() - idx,
    {
        let spec = &specs[idx];
        let server = match find_server(servers, spec.server.as_str()) {
            Some(s) => &servers[s],
            None => {
                assert(false);
                &servers[0]
            },
        };
        let filters = match build_response_filters(&spec.filters, servers) {
            Ok(filters) => filters,
            Err(filter) => {
                return Err(BuildError::NoForwardTarget { rule: idx, filter });
            },
        };
        proof {
            assert forall|j: int| 0 <= j < spec.filters@.len() implies !forward_missing(
                #[trigger] spec.filters@[j],
                servers@,
            ) by {
                assert(filter_built(spec.filters@[j], servers@, filters@[j]));
            }
        }
        let cache_policy = cache.resolve_policy(spec.cache_policy);
        if cache_policy.min_ttl > 0 && cache_policy.max_ttl > 0 && cache_policy.min_ttl
            > cache_policy.max_ttl {
            return Err(BuildError::TtlBoundsCross { rule: idx });
        }
        rules.push(
            Rule {
                index: idx,
                server: spec.server.clone(),
                kind: server.kind.copied(),
                cache_policy,
                filters,
                matcher: copy_matchers(&spec.matcher),
                strip_ecs: server.strip_ecs,
            },
        );
        idx += 1;
    }
    Ok(rules)
}

/// Position of the first server of a name.
pub open spec fn first_server_named(servers: Seq<Server>, name: Seq<char>) -> Option<int>
    decreases servers.len(),
{
    if servers.len() == 0 {
        None
    } else {
        match first_server_named(servers.drop_last(), name) {
            Some(i) => Some(i),
            None => if servers.last().name@ == name {
                Some(servers.len() - 1)
            } else {
                None
            },
        }
    }
}

proof fn lemma_first_server_stays(servers: Seq<Server>, n: int, name: Seq<char>)
    requires
        0 <= n <= servers.len(),
        first_server_named(servers.take(n), name) is Some,
    ensures
        first_server_named(servers, name) == first_server_named(servers.take(n), name),
    decreases servers.len() - n,
{
    if n < servers.len() {
        assert(servers.take(n + 1).drop_last() =~= servers.take(n));
        lemma_first_server_stays(servers, n + 1, name);
    } else {
        assert(servers.take(n) =~= servers);
    }
}

fn find_first_server(servers: &[Server], name: &str) -> (r: Option<usize>)
    ensures
        match r {
            Some(i) => first_server_named(servers@, name@) == Some(i as int) && i < servers@.len(),
            None => first_server_named(servers@, name@) is None,
        },
{
    let mut i: usize = 0;
    while i < servers.len()
        invariant
            i <= servers@.len(),
            first_server_named(servers@.take(i as int), name@) is None,
        decreases servers@.len() - i,
    {
        proof {
            assert(servers@.take(i + 1).drop_last() =~= servers@.take(i as int));
            assert(servers@.take(i + 1).last() == servers@[i as int]);
        }
        if str_eq(servers[i].name.as_str(), name) {
            proof {
                lemma_first_server_stays(servers@, i + 1, name@);
            }
            return Some(i);
        }
        i += 1;
    }
    proof {
        assert(servers@.take(servers@.len() as int) =~= servers@);
    }
    None
}

/// Why a fallback could not be resolved.
pub enum FallbackError {
    /// The last rule is meant, and there are no rules.
    NoRules,
    /// There is no server of this name.
    ServerNotFound(String),
}

/// The outcome of resolving a fallback. Of two missing servers the primary is reported.
pub open spec fn fallback_outcome(
    target: FallbackTarget,
    rules: nat,
    servers: Seq<Server>,
    r: Result<ResolvedFallback, FallbackError>,
) -> bool {
    match target {
        FallbackTarget::LastRule => if rules == 0 {
            r matches Err(e) && e is NoRules
        } else {
            r == Ok::<ResolvedFallback, FallbackError>(
                ResolvedFallback::Rule((rules - 1) as usize),
            )
        },
        FallbackTarget::Server(name) => match first_server_named(servers, name@) {
            Some(i) => r == Ok::<ResolvedFallback, FallbackError>(
                ResolvedFallback::Server(i as usize),
            ),
            None => r matches Err(FallbackError::ServerNotFound(n)) && n@ == name@,
        },
        FallbackTarget::Dual { primary, secondary, answer_ip } => match (
            first_server_named(servers, primary@),
            first_server_named(servers, secondary@),
        ) {
            (Some(p), Some(s)) => r == Ok::<ResolvedFallback, FallbackError>(
                if answer_ip.names_no_tag() {
                    ResolvedFallback::Race { primary: p as usize, secondary: s as usize }
                } else {
                    ResolvedFallback::CidrTest { primary: p as usize, secondary: s as usize }
                },
            ),
            (None, _) => r matches Err(FallbackError::ServerNotFound(n)) && n@ == primary@,
            (Some(_), None) => r matches Err(FallbackError::ServerNotFound(n)) && n@
                == secondary@,
        },
    }
}

/// The configured fallback can be resolved.
pub open spec fn fallback_resolves(
    target: FallbackTarget,
    rules: nat,
    servers: Seq<Server>,
) -> bool {
    match target {
        FallbackTarget::LastRule => rules > 0,
        FallbackTarget::Server(name) => first_server_named(servers, name@) is Some,
        FallbackTarget::Dual { primary, secondary, .. } => first_server_named(servers, primary@)
            is Some && first_server_named(servers, secondary@) is Some,
    }
}

/// Resolves the configured fallback to positions.
pub fn resolve_fallback(target: &FallbackTarget, rules: &[Rule], servers: &[Server]) -> (r: Result<
    ResolvedFallback,
    FallbackError,
>)
    ensures
        fallback_outcome(*target, rules@.len(), servers@, r),
        match r {
            Ok(ResolvedFallback::Rule(i)) => i < rules@.len(),
            Ok(ResolvedFallback::Server(i)) => i < servers@.len(),
            Ok(ResolvedFallback::Race { primary, secondary }) => primary < servers@.len()
                && secondary < servers@.len(),
            Ok(ResolvedFallback::CidrTest { primary, secondary }) => primary < servers@.len()
                && secondary < servers@.len(),
            Err(_) => true,
        },
{
    match target {
        FallbackTarget::LastRule => {
            if rules.len() == 0 {
                Err(FallbackError::NoRules)
            } else {
                Ok(ResolvedFallback::Rule(rules.len() - 1))
            }
        },
        FallbackTarget::Server(name) => match find_first_server(servers, name.as_str()) {
            Some(i) => Ok(ResolvedFallback::Server(i)),
            None => Err(FallbackError::ServerNotFound(name.clone())),
        },
        FallbackTarget::Dual { primary, secondary, answer_ip } => {
            let p: usize = match find_first_server(servers, primary.as_str()) {
                Some(i) => i,
                None => {
                    return Err(FallbackError::ServerNotFound(primary.clone()));
                },
            };
            let s: usize = match find_first_server(servers, secondary.as_str()) {
                Some(i) => i,
                None => {
                    return Err(FallbackError::ServerNotFound(secondary.clone()));
                },
            };
            if answer_ip.is_empty() {
                Ok(ResolvedFallback::Race { primary: p, secondary: s })
            } else {
                Ok(ResolvedFallback::CidrTest { primary: p, secondary: s })
            }
        },
    }
}

// Paths.

/// The byte between two path components.
pub const SLASH: u8 = 47;

pub open spec fn is_absolute(path: Seq<u8>) -> bool {
    path.len() > 0 && path[0] == SLASH
}

/// A component that counts: not empty, and not `.` unless it begins the path.
pub open spec fn counts(piece: Seq<u8>, first: bool) -> bool {
    piece.len() > 0 && (first || piece != seq![46u8])
}

/// The components that count among the first `n` pieces.
pub open spec fn counted(pieces: Seq<Seq<u8>>, n: int) -> Seq<Seq<u8>>
    decreases n,
{
    if n <= 0 {
        Seq::empty()
    } else if counts(pieces[n - 1], n == 1) {
        counted(pieces, n - 1).push(pieces[n - 1])
    } else {
        counted(pieces, n - 1)
    }
}

/// The components of a path.
pub open spec fn components(path: Seq<u8>) -> Seq<Seq<u8>> {
    let pieces = split_on(path, SLASH);
    counted(pieces, pieces.len() as int)
}

/// Two ways to write one path: doubled slashes, a slash at the end and `.` within make no
/// difference.
pub open spec fn same_location(a: Seq<u8>, b: Seq<u8>) -> bool {
    is_absolute(a) == is_absolute(b) && components(a) == components(b)
}

/// Components with a slash between each two of them.
pub open spec fn with_slashes(parts: Seq<Seq<u8>>) -> Seq<u8>
    decreases parts.len(),
{
    if parts.len() == 0 {
        Seq::empty()
    } else if parts.len() == 1 {
        parts[0]
    } else {
        with_slashes(parts.drop_last()) + seq![SLASH] + parts.last()
    }
}

/// Path text made of components.
pub open spec fn path_text(absolute: bool, parts: Seq<Seq<u8>>) -> Seq<u8> {
    if absolute {
        seq![SLASH] + with_slashes(parts)
    } else {
        with_slashes(parts)
    }
}

/// The directory that holds the file at `path`: `.` for a bare file name and for the root.
pub open spec fn parent_text(path: Seq<u8>) -> Seq<u8> {
    let parts = components(path);
    if parts.len() == 0 {
        seq![46u8]
    } else {
        let dir = path_text(is_absolute(path), parts.drop_last());
        if dir.len() == 0 {
            seq![46u8]
        } else {
            dir
        }
    }
}

/// The file name of a path; empty for `.`, `..` and the root.
pub open spec fn file_text(path: Seq<u8>) -> Seq<u8> {
    let parts = components(path);
    if parts.len() == 0 || parts.last() == seq![46u8] || parts.last() == seq![46u8, 46u8] {
        Seq::empty()
    } else {
        parts.last()
    }
}

/// A directory and a file name joined by one slash.
pub open spec fn join_path(dir: Seq<u8>, file: Seq<u8>) -> Seq<u8> {
    if dir.len() > 0 && dir.last() == SLASH {
        dir + file
    } else {
        dir + seq![SLASH] + file
    }
}

/// The watch directory of a path joined with its file name.
pub open spec fn watch_text(path: Seq<u8>) -> Seq<u8> {
    join_path(parent_text(path), file_text(path))
}

fn path_components(path: &[u8]) -> (r: Vec<Vec<u8>>)
    ensures
        byte_views(r@) == components(path@),
{
    let pieces = split_bytes(path, SLASH);
    let ghost views = byte_views(pieces@);
    let mut out: Vec<Vec<u8>> = Vec::new();
    let mut i: usize = 0;
    proof {
        assert(byte_views(out@) =~= counted(views, 0));
    }
    while i < pieces.len()
        invariant
            views == byte_views(pieces@),
            i <= pieces@.len(),
            byte_views(out@) == counted(views, i as int),
        decreases pieces@.len() - i,
    {
        let piece = pieces[i].as_slice();
        proof {
            assert(views[i as int] == piece@);
        }
        let dot = piece.len() == 1 && piece[0] == 46;
        proof {
            assert(dot <==> piece@ =~= seq![46u8]);
        }
        let ghost before = out@;
        if piece.len() > 0 && (i == 0 || !dot) {
            out.push(slice_to_vec(piece));
            proof {
                assert(byte_views(out@) =~= byte_views(before).push(piece@));
            }
        }
        i += 1;
    }
    out
}

/// Whether two paths are one, however they are written.
pub fn location_eq(a: &[u8], b: &[u8]) -> (r: bool)
    ensures
        r == same_location(a@, b@),
{
    if (a.len() > 0 && a[0] == SLASH) != (b.len() > 0 && b[0] == SLASH) {
        return false;
    }
    let left = path_components(a);
    let right = path_components(b);
    let ghost left_views = byte_views(left@);
    let ghost right_views = byte_views(right@);
    proof {
        assert(left_views.len() == left@.len());
        assert(right_views.len() == right@.len());
    }
    if left.len() != right.len() {
        return false;
    }
    let mut i: usize = 0;
    while i < left.len()
        invariant
            i <= left@.len(),
            left@.len() == right@.len(),
            left_views == byte_views(left@),
            right_views == byte_views(right@),
            left_views == components(a@),
            right_views == components(b@),
            forall|j: int| 0 <= j < i ==> left_views[j] == right_views[j],
        decreases left@.len() - i,
    {
        proof {
            assert(left_views[i as int] == left@[i as int]@);
            assert(right_views[i as int] == right@[i as int]@);
        }
        if !bytes_eq(left[i].as_slice(), right[i].as_slice()) {
            return false;
        }
        i += 1;
    }
    proof {
        assert(left_views =~= right_views);
    }
    true
}

fn join_parts(absolute: bool, parts: &Vec<Vec<u8>>, n: usize) -> (r: Vec<u8>)
    requires
        n <= parts@.len(),
    ensures
        r@ == path_text(absolute, byte_views(parts@).take(n as int)),
{
    let ghost all = byte_views(parts@);
    let mut out: Vec<u8> = Vec::new();
    if absolute {
        out.push(SLASH);
    }
    let ghost head = out@;
    let mut i: usize = 0;
    proof {
        assert(all.take(0) =~= Seq::<Seq<u8>>::empty());
        assert(out@ =~= head + with_slashes(all.take(0)));
    }
    while i < n
        invariant
            i <= n <= parts@.len(),
            all == byte_views(parts@),
            out@ == head + with_slashes(all.take(i as int)),
        decreases n - i,
    {
        proof {
            assert(all.take(i + 1).drop_last() =~= all.take(i as int));
            assert(all.take(i + 1).last() == parts@[i as int]@);
        }
        if i > 0 {
            out.push(SLASH);
        }
        let mut part = slice_to_vec(parts[i].as_slice());
        out.append(&mut part);
        proof {
            assert(out@ =~= head + with_slashes(all.take(i + 1)));
        }
        i += 1;
    }
    proof {
        assert(out@ =~= path_text(absolute, all.take(n as int)));
    }
    out
}

fn parent_bytes(path: &[u8]) -> (r: Vec<u8>)
    ensures
        r@ == parent_text(path@),
{
    let parts = path_components(path);
    let absolute = path.len() > 0 && path[0] == SLASH;
    let mut dir: Vec<u8> = Vec::new();
    proof {
        assert(byte_views(parts@).len() == parts@.len());
    }
    if parts.len() > 0 {
        proof {
            assert(byte_views(parts@).take(parts@.len() - 1) =~= byte_views(parts@).drop_last());
        }
        dir = join_parts(absolute, &parts, parts.len() - 1);
    }
    if dir.len() == 0 {
        let mut dot: Vec<u8> = Vec::new();
        dot.push(46);
        proof {
            assert(dot@ =~= seq![46u8]);
        }
        return dot;
    }
    dir
}

/// The file name of a path.
pub fn file_name(path: &[u8]) -> (r: Vec<u8>)
    ensures
        r@ == file_text(path@),
{
    let mut parts = path_components(path);
    proof {
        assert(byte_views(parts@).len() == parts@.len());
    }
    let ghost parts0 = parts@;
    match parts.pop() {
        Some(last) => {
            proof {
                assert(byte_views(parts0).last() == last@);
            }
            let dot = last.len() == 1 && last[0] == 46;
            let dots = last.len() == 2 && last[0] == 46 && last[1] == 46;
            proof {
                assert(dot <==> last@ =~= seq![46u8]);
                assert(dots <==> last@ =~= seq![46u8, 46u8]);
            }
            if dot || dots {
                Vec::new()
            } else {
                last
            }
        },
        None => Vec::new(),
    }
}

/// The directory whose watch covers `path`.
pub fn watch_parent(path: &[u8]) -> (r: Vec<u8>)
    ensures
        r@ == parent_text(path@),
{
    parent_bytes(path)
}

/// `path` in the form in which watch events name it: both sides of every comparison of changed
/// paths go through this, whatever way the configured path was written.
pub fn normalized_watch_path(path: &[u8]) -> (r: Vec<u8>)
    ensures
        r@ == watch_text(path@),
{
    let mut out = parent_bytes(path);
    let mut file = file_name(path);
    if !(out.len() > 0 && out[out.len() - 1] == SLASH) {
        out.push(SLASH);
    }
    out.append(&mut file);
    out
}

// Ruleset tags.

/// A rule refers to the tag for matching names.
pub open spec fn names_domain_tag(rules: Seq<RuleSpec>, tag: Seq<char>) -> bool {
    exists|i: int, j: int|
        #![trigger rules[i].matcher@[j]]
        0 <= i < rules.len() && 0 <= j < rules[i].matcher@.len() && matcher_names(
            rules[i].matcher@[j],
            tag,
        )
}

/// A matcher entry refers to the tag.
pub open spec fn matcher_names(m: RuleMatcher, tag: Seq<char>) -> bool {
    match m {
        RuleMatcher::Tag { includes, excludes } => texts(includes@).contains(tag) || texts(
            excludes@,
        ).contains(tag),
        RuleMatcher::Domain(_) => false,
    }
}

/// An address matcher refers to the tag.
pub open spec fn answer_names(m: AnswerIpMatcher, tag: Seq<char>) -> bool {
    texts(m.includes@).contains(tag) || texts(m.excludes@).contains(tag)
}

/// The fallback or a filter refers to the tag for matching addresses.
pub open spec fn names_ipcidr_tag(
    rules: Seq<RuleSpec>,
    fallback: FallbackTarget,
    tag: Seq<char>,
) -> bool {
    ||| fallback is Dual && answer_names(fallback->answer_ip, tag)
    ||| filter_names_tag(rules, tag)
}

/// A filter of some rule refers to the tag.
pub open spec fn filter_names_tag(rules: Seq<RuleSpec>, tag: Seq<char>) -> bool {
    exists|i: int, j: int|
        #![trigger rules[i].filters@[j]]
        0 <= i < rules.len() && 0 <= j < rules[i].filters@.len() && answer_names(
            rules[i].filters@[j].answer_ip,
            tag,
        )
}

/// Adds the texts of `more` that are not yet in `list`.
fn add_missing(list: &mut Vec<String>, more: &Vec<String>)
    requires
        texts(old(list)@).no_duplicates(),
    ensures
        texts(final(list)@).no_duplicates(),
        forall|t: Seq<char>| #[trigger]
            texts(final(list)@).contains(t) <==> texts(old(list)@).contains(t) || texts(
                more@,
            ).contains(t),
{
    let mut i: usize = 0;
    while i < more.len()
        invariant
            i <= more@.len(),
            texts(list@).no_duplicates(),
            forall|t: Seq<char>| #[trigger]
                texts(list@).contains(t) <==> texts(old(list)@).contains(t) || texts(
                    more@.take(i as int),
                ).contains(t),
        decreases more@.len() - i,
    {
        let ghost before = list@;
        let ghost fewer = texts(more@.take(i as int));
        let ghost wider = texts(more@.take(i + 1));
        let ghost item = more@[i as int]@;
        proof {
            assert(wider =~= fewer.push(item));
        }
        if !has_text(list, more[i].as_str()) {
            list.push(more[i].clone());
            proof {
                assert(texts(list@) =~= texts(before).push(item));
            }
        }
        proof {
            assert forall|t: Seq<char>| #[trigger]
                texts(list@).contains(t) <==> texts(old(list)@).contains(t) || wider.contains(t) by {
                lemma_push_contains(fewer, item, t);
                lemma_push_contains(texts(before), item, t);
                assert(texts(before).contains(t) <==> texts(old(list)@).contains(t)
                    || fewer.contains(t));
            }
        }
        i += 1;
    }
    proof {
        assert(more@.take(more@.len() as int) =~= more@);
    }
}

proof fn lemma_push_contains(s: Seq<Seq<char>>, x: Seq<char>, t: Seq<char>)
    ensures
        s.push(x).contains(t) <==> s.contains(t) || t == x,
{
    if s.contains(t) {
        let i = choose|i: int| 0 <= i < s.len() && s[i] == t;
        assert(s.push(x)[i] == t);
    }
    assert(s.push(x)[s.len() as int] == x);
    if s.push(x).contains(t) {
        let i = choose|i: int| 0 <= i < s.push(x).len() && s.push(x)[i] == t;
        if i < s.len() {
            assert(s[i] == t);
        }
    }
}

/// The tags that rules refer to for matching names, each once.
pub fn needed_ruleset_domain_tags(rules: &Vec<RuleSpec>) -> (r: Vec<String>)
    ensures
        texts(r@).no_duplicates(),
        forall|t: Seq<char>| #[trigger]
            texts(r@).contains(t) <==> names_domain_tag(rules@, t),
{
    let mut tags: Vec<String> = Vec::new();
    let mut i: usize = 0;
    while i < rules.len()
        invariant
            i <= rules@.len(),
            texts(tags@).no_duplicates(),
            forall|t: Seq<char>| #[trigger]
                texts(tags@).contains(t) <==> names_domain_tag(rules@.take(i as int), t),
        decreases rules@.len() - i,
    {
        let list = &rules[i].matcher;
        let ghost before = tags@;
        let mut j: usize = 0;
        while j < list.len()
            invariant
                i < rules@.len(),
                j <= list@.len(),
                list@ == rules@[i as int].matcher@,
                texts(tags@).no_duplicates(),
                forall|t: Seq<char>| #[trigger]
                    texts(tags@).contains(t) <==> texts(before).contains(t) || exists|k: int|
                        0 <= k < j && matcher_names(#[trigger] list@[k], t),
            decreases list@.len() - j,
        {
            let ghost inner = tags@;
            match &list[j] {
                RuleMatcher::Tag { includes, excludes } => {
                    add_missing(&mut tags, includes);
                    add_missing(&mut tags, excludes);
                },
                RuleMatcher::Domain(_) => {},
            }
            proof {
                assert forall|t: Seq<char>| #[trigger]
                    texts(tags@).contains(t) <==> texts(before).contains(t) || exists|k: int|
                        0 <= k < j + 1 && matcher_names(#[trigger] list@[k], t) by {
                    assert(texts(inner).contains(t) <==> texts(before).contains(t) || exists|k: int|
                        0 <= k < j && matcher_names(#[trigger] list@[k], t));
                    assert(texts(tags@).contains(t) <==> texts(inner).contains(t) || matcher_names(
                        list@[j as int],
                        t,
                    ));
                    if exists|k: int| 0 <= k < j + 1 && matcher_names(#[trigger] list@[k], t) {
                        let k = choose|k: int|
                            0 <= k < j + 1 && matcher_names(#[trigger] list@[k], t);
                        assert(k < j || k == j);
                    }
                }
            }
            j += 1;
        }
        proof {
            assert forall|t: Seq<char>| #[trigger]
                texts(tags@).contains(t) <==> names_domain_tag(rules@.take(i + 1), t) by {
                let fewer = rules@.take(i as int);
                let wider = rules@.take(i + 1);
                assert(texts(before).contains(t) <==> names_domain_tag(fewer, t));
                if names_domain_tag(fewer, t) {
                    let (a, b) = choose|a: int, b: int|
                        #![trigger fewer[a].matcher@[b]]
                        0 <= a < fewer.len() && 0 <= b < fewer[a].matcher@.len() && matcher_names(
                            fewer[a].matcher@[b],
                            t,
                        );
                    assert(wider[a].matcher@[b] == fewer[a].matcher@[b]);
                }
                if exists|k: int| 0 <= k < list@.len() && matcher_names(#[trigger] list@[k], t) {
                    let k = choose|k: int|
                        0 <= k < list@.len() && matcher_names(#[trigger] list@[k], t);
                    assert(wider[i as int].matcher@[k] == list@[k]);
                }
                if names_domain_tag(wider, t) {
                    let (a, b) = choose|a: int, b: int|
                        #![trigger wider[a].matcher@[b]]
                        0 <= a < wider.len() && 0 <= b < wider[a].matcher@.len() && matcher_names(
                            wider[a].matcher@[b],
                            t,
                        );
                    if a < i {
                        assert(fewer[a].matcher@[b] == wider[a].matcher@[b]);
                    } else {
                        assert(list@[b] == wider[a].matcher@[b]);
                    }
                }
            }
        }
        i += 1;
    }
    proof {
        assert(rules@.take(rules@.len() as int) =~= rules@);
    }
    tags
}

/// The tags that the fallback and the filters refer to for matching addresses, each once.
pub fn needed_ruleset_ipcidr_tags(rules: &Vec<RuleSpec>, fallback: &FallbackTarget) -> (r: Vec<
    String,
>)
    ensures
        texts(r@).no_duplicates(),
        forall|t: Seq<char>| #[trigger]
            texts(r@).contains(t) <==> names_ipcidr_tag(rules@, *fallback, t),
{
    let mut tags: Vec<String> = Vec::new();
    match fallback {
        FallbackTarget::Dual { answer_ip, .. } => {
            add_missing(&mut tags, &answer_ip.includes);
            add_missing(&mut tags, &answer_ip.excludes);
        },
        _ => {},
    }
    let ghost start = tags@;
    let mut i: usize = 0;
    while i < rules.len()
        invariant
            i <= rules@.len(),
            texts(tags@).no_duplicates(),
            forall|t: Seq<char>| #[trigger]
                texts(tags@).contains(t) <==> texts(start).contains(t) || filter_names_tag(
                    rules@.take(i as int),
                    t,
                ),
        decreases rules@.len() - i,
    {
        let list = &rules[i].filters;
        let ghost before = tags@;
        let mut j: usize = 0;
        while j < list.len()
            invariant
                i < rules@.len(),
                j <= list@.len(),
                list@ == rules@[i as int].filters@,
                texts(tags@).no_duplicates(),
                forall|t: Seq<char>| #[trigger]
                    texts(tags@).contains(t) <==> texts(before).contains(t) || exists|k: int|
                        0 <= k < j && answer_names((#[trigger] list@[k]).answer_ip, t),
            decreases list@.len() - j,
        {
            let ghost inner = tags@;
            add_missing(&mut tags, &list[j].answer_ip.includes);
            add_missing(&mut tags, &list[j].answer_ip.excludes);
            proof {
                assert forall|t: Seq<char>| #[trigger]
                    texts(tags@).contains(t) <==> texts(before).contains(t) || exists|k: int|
                        0 <= k < j + 1 && answer_names((#[trigger] list@[k]).answer_ip, t) by {
                    assert(texts(inner).contains(t) <==> texts(before).contains(t) || exists|k: int|
                        0 <= k < j && answer_names((#[trigger] list@[k]).answer_ip, t));
                    assert(texts(tags@).contains(t) <==> texts(inner).contains(t) || answer_names(
                        list@[j as int].answer_ip,
                        t,
                    ));
                    if exists|k: int|
                        0 <= k < j + 1 && answer_names((#[trigger] list@[k]).answer_ip, t) {
                        let k = choose|k: int|
                            0 <= k < j + 1 && answer_names((#[trigger] list@[k]).answer_ip, t);
                        assert(k < j || k == j);
                    }
                }
            }
            j += 1;
        }
        proof {
            assert forall|t: Seq<char>| #[trigger]
                texts(tags@).contains(t) <==> texts(start).contains(t) || filter_names_tag(
                    rules@.take(i + 1),
                    t,
                ) by {
                let fewer = rules@.take(i as int);
                let wider = rules@.take(i + 1);
                assert(texts(before).contains(t) <==> texts(start).contains(t) || filter_names_tag(
                    fewer,
                    t,
                ));
                if filter_names_tag(fewer, t) {
                    let (a, b) = choose|a: int, b: int|
                        #![trigger fewer[a].filters@[b]]
                        0 <= a < fewer.len() && 0 <= b < fewer[a].filters@.len() && answer_names(
                            fewer[a].filters@[b].answer_ip,
                            t,
                        );
                    assert(wider[a].filters@[b] == fewer[a].filters@[b]);
                }
                if exists|k: int|
                    0 <= k < list@.len() && answer_names((#[trigger] list@[k]).answer_ip, t) {
                    let k = choose|k: int|
                        0 <= k < list@.len() && answer_names((#[trigger] list@[k]).answer_ip, t);
                    assert(wider[i as int].filters@[k] == list@[k]);
                }
                if filter_names_tag(wider, t) {
                    let (a, b) = choose|a: int, b: int|
                        #![trigger wider[a].filters@[b]]
                        0 <= a < wider.len() && 0 <= b < wider[a].filters@.len() && answer_names(
                            wider[a].filters@[b].answer_ip,
                            t,
                        );
                    if a < i {
                        assert(fewer[a].filters@[b] == wider[a].filters@[b]);
                    } else {
                        assert(list@[b] == wider[a].filters@[b]);
                    }
                }
            }
        }
        i += 1;
    }
    proof {
        assert(rules@.take(rules@.len() as int) =~= rules@);
    }
    tags
}

/// Why a ruleset database is not there.
pub enum LoadRulesetError {
    /// Tags are referred to, and no entry is configured.
    NoEntries,
    /// The load failed.
    Load(RuleSetError),
}

/// The outcome of loading the ruleset database: none is needed when no tag is asked for.
pub open spec fn ruleset_outcome(
    request: LoadRequest,
    specs: Seq<RuleSetSpec>,
    files: Seq<RuleSetFile>,
    r: Result<Option<RuleSetDb>, LoadRulesetError>,
) -> bool {
    if request.domain_tags.len() == 0 && request.ipcidr_tags.len() == 0 {
        r matches Ok(None)
    } else if specs.len() == 0 {
        r matches Err(LoadRulesetError::NoEntries)
    } else {
        match r {
            Ok(Some(db)) => load_outcome(request, specs, files, Ok(db)),
            Err(LoadRulesetError::Load(e)) => load_outcome(request, specs, files, Err(e)),
            _ => false,
        }
    }
}

/// `request` asks for the tags that a configuration refers to.
pub open spec fn asks_for_tags(request: LoadRequest, cfg: Config) -> bool {
    &&& forall|t: Seq<char>| #[trigger]
        request.domain_tags.contains(t) <==> names_domain_tag(cfg.rules@, t)
    &&& forall|t: Seq<char>| #[trigger]
        request.ipcidr_tags.contains(t) <==> names_ipcidr_tag(
            cfg.rules@,
            cfg.fallback.target,
            t,
        )
}

/// Loads the ruleset database. None is needed when no tag is referred to.
pub fn load_ruleset(
    specs: &Vec<RuleSetSpec>,
    domain_tags: &Vec<String>,
    ipcidr_tags: &Vec<String>,
    reuse: Option<(&RuleSetDb, &Vec<Vec<u8>>)>,
    files: &Vec<RuleSetFile>,
) -> (r: Result<Option<RuleSetDb>, LoadRulesetError>)
    requires
        files@.len() == specs@.len(),
    ensures
        ruleset_outcome(
            load_request(domain_tags@, ipcidr_tags@, reuse),
            specs@,
            files@,
            r,
        ),
{
    if domain_tags.len() == 0 && ipcidr_tags.len() == 0 {
        return Ok(None);
    }
    if specs.len() == 0 {
        return Err(LoadRulesetError::NoEntries);
    }
    match RuleSetDb::load(specs, domain_tags, ipcidr_tags, reuse, files) {
        Ok(db) => Ok(Some(db)),
        Err(e) => Err(LoadRulesetError::Load(e)),
    }
}

// Hot state.

/// Everything that a reload replaces at once. A query reads one hot state from start to end, so
/// all its decisions come from the same generation.
pub struct HotState {
    pub routing: Arc<RoutingConfig>,
    pub ruleset: Option<RuleSetDb>,
    pub routing_index: RouteIndex,
    /// Changes with every reload.
    pub generation: u64,
}

impl HotState {
    /// The database that routing uses: none when no tag is referred to.
    pub open spec fn db(&self) -> Option<&RuleSetDb> {
        match &self.ruleset {
            Some(db) => if self.routing.needs_ruleset {
                Some(db)
            } else {
                None
            },
            None => None,
        }
    }

    /// The parts fit together, and cached routing decisions are those of this database.
    pub open spec fn wf(&self) -> bool {
        &&& self.routing.wf()
        &&& self.routing_index.describes(self.routing.rules@)
        &&& self.routing_index.cache_agrees(self.routing.rules@, self.db())
    }

    /// Position of the rule that `qname` is routed to.
    pub fn route(&mut self, qname: &str) -> (r: Option<usize>)
        requires
            old(self).wf(),
        ensures
            final(self).wf(),
            final(self).routing == old(self).routing,
            final(self).ruleset == old(self).ruleset,
            final(self).generation == old(self).generation,
            match r {
                Some(i) => i < old(self).routing.rules@.len() && first_rule(
                    old(self).routing.rules@,
                    qname.spec_bytes(),
                    old(self).db(),
                ) == Some(i as int),
                None => first_rule(
                    old(self).routing.rules@,
                    qname.spec_bytes(),
                    old(self).db(),
                ) is None,
            },
    {
        proof {
            law_first_rule(self.routing.rules@, qname.spec_bytes(), self.db());
        }
        let db: Option<&RuleSetDb> = match &self.ruleset {
            Some(db) => if self.routing.needs_ruleset {
                Some(db)
            } else {
                None
            },
            None => None,
        };
        match self.routing_index.route(self.routing.rules.as_slice(), qname, db) {
            Some(rule) => Some(rule.index),
            None => None,
        }
    }
}

/// Why a hot state could not be built.
pub enum HotStateError {
    Build(BuildError),
    Fallback(FallbackError),
    Ruleset(LoadRulesetError),
}

/// Every configured rule names a configured server.
pub open spec fn rules_name_servers(cfg: Config) -> bool {
    forall|i: int|
        0 <= i < cfg.rules@.len() ==> exists|j: int|
            0 <= j < cfg.servers@.len() && (#[trigger] cfg.servers@[j]).0@ == (
            #[trigger] cfg.rules@[i]).server@
}

proof fn lemma_server_named(servers: Seq<Server>, name: Seq<char>, j: int)
    requires
        0 <= j < servers.len(),
        servers[j].name@ == name,
    ensures
        server_named(servers, name) is Some,
    decreases servers.len(),
{
    if servers.last().name@ != name {
        assert(servers.drop_last()[j] == servers[j]);
        lemma_server_named(servers.drop_last(), name, j);
    }
}

proof fn lemma_server_named_in_range(servers: Seq<Server>, name: Seq<char>)
    ensures
        server_named(servers, name) is Some ==> 0 <= server_named(servers, name)->0
            < servers.len(),
    decreases servers.len(),
{
    if servers.len() > 0 && servers.last().name@ != name {
        lemma_server_named_in_range(servers.drop_last(), name);
    }
}

/// The outcome of building a hot state from a configuration and what was read of its ruleset
/// files. An error is that of the first step that fails: the steps before it succeed.
pub open spec fn hot_outcome(
    cfg: Config,
    files: Seq<RuleSetFile>,
    generation: u64,
    servers: Seq<Server>,
    request: LoadRequest,
    r: Result<HotState, HotStateError>,
) -> bool {
    let cache = CacheConfig {
        capacity: cfg.cache_size,
        min_ttl: cfg.cache_min_ttl,
        max_ttl: cfg.cache_max_ttl,
    };
    &&& servers_built(cfg.servers@, servers)
    &&& asks_for_tags(request, cfg)
    &&& request.reuse is None
    &&& match r {
        Ok(hot) => {
            &&& hot.wf()
            &&& hot.routing.cfg == cfg
            &&& hot.routing.servers@ == servers
            &&& rules_outcome(cfg.rules@, servers, cache, Ok(hot.routing.rules))
            &&& fallback_outcome(
                cfg.fallback.target,
                hot.routing.rules@.len(),
                servers,
                Ok(hot.routing.fallback),
            )
            &&& hot.routing.needs_ruleset <==> exists|t: Seq<char>| names_some_tag(cfg, t)
            &&& ruleset_outcome(request, cfg.ruleset_specs@, files, Ok(hot.ruleset))
            &&& hot.generation == generation
        },
        Err(HotStateError::Build(e)) => rules_outcome(cfg.rules@, servers, cache, Err(e)),
        Err(HotStateError::Fallback(e)) => {
            &&& rules_buildable(cfg.rules@, servers, cache)
            &&& fallback_outcome(cfg.fallback.target, cfg.rules@.len(), servers, Err(e))
        },
        Err(HotStateError::Ruleset(e)) => {
            &&& rules_buildable(cfg.rules@, servers, cache)
            &&& fallback_resolves(cfg.fallback.target, cfg.rules@.len(), servers)
            &&& ruleset_outcome(request, cfg.ruleset_specs@, files, Err(e))
        },
    }
}

/// Some rule, filter or the fallback refers to the tag.
pub open spec fn names_some_tag(cfg: Config, t: Seq<char>) -> bool {
    names_domain_tag(cfg.rules@, t) || names_ipcidr_tag(cfg.rules@, cfg.fallback.target, t)
}

pub(crate) proof fn lemma_some_tag(cfg: &Config, domain: Seq<String>, ipcidr: Seq<String>)
    requires
        forall|t: Seq<char>| #[trigger]
            texts(domain).contains(t) <==> names_domain_tag(cfg.rules@, t),
        forall|t: Seq<char>| #[trigger]
            texts(ipcidr).contains(t) <==> names_ipcidr_tag(
                cfg.rules@,
                cfg.fallback.target,
                t,
            ),
    ensures
        (domain.len() > 0 || ipcidr.len() > 0) <==> exists|t: Seq<char>| names_some_tag(*cfg, t),
{
    if domain.len() > 0 {
        let t = texts(domain)[0];
        assert(texts(domain).contains(t));
        assert(names_some_tag(*cfg, t));
    }
    if ipcidr.len() > 0 {
        let t = texts(ipcidr)[0];
        assert(texts(ipcidr).contains(t));
        assert(names_some_tag(*cfg, t));
    }
    if exists|t: Seq<char>| names_some_tag(*cfg, t) {
        let t = choose|t: Seq<char>| names_some_tag(*cfg, t);
        assert(texts(domain).contains(t) || texts(ipcidr).contains(t));
    }
}

/// Builds a hot state: servers, rules, fallback, ruleset database and routing index, in that
/// order; the first that fails is reported.
pub fn build_hot_state(cfg: Config, files: &Vec<RuleSetFile>, generation: u64) -> (r: Result<
    HotState,
    HotStateError,
>)
    requires
        rules_name_servers(cfg),
        files@.len() == cfg.ruleset_specs@.len(),
    ensures
        exists|servers: Seq<Server>, request: LoadRequest| #[trigger]
            hot_outcome(cfg, files@, generation, servers, request, r),
{
    let domain_tags = needed_ruleset_domain_tags(&cfg.rules);
    let ipcidr_tags = needed_ruleset_ipcidr_tags(&cfg.rules, &cfg.fallback.target);
    let ghost request = load_request(domain_tags@, ipcidr_tags@, None);
    let servers = build_servers(&cfg.servers);
    proof {
        assert forall|i: int| 0 <= i < cfg.rules@.len() implies server_named(
            servers@,
            (#[trigger] cfg.rules@[i]).server@,
        ) is Some by {
            let j = choose|j: int|
                0 <= j < cfg.servers@.len() && (#[trigger] cfg.servers@[j]).0@
                    == cfg.rules@[i].server@;
            assert(server_built(cfg.servers@[j], j, servers@[j]));
            lemma_server_named(servers@, cfg.rules@[i].server@, j);
        }
    }
    let cache = cfg.cache_config();
    let rules = match build_rules(&cfg.rules, servers.as_slice(), &cache) {
        Ok(rules) => rules,
        Err(e) => {
            let r = Err(HotStateError::Build(e));
            assert(hot_outcome(cfg, files@, generation, servers@, request, r));
            return r;
        },
    };
    proof {
        lemma_built_is_buildable(cfg.rules@, servers@, cache, rules);
    }
    let fallback = match resolve_fallback(
        &cfg.fallback.target,
        rules.as_slice(),
        servers.as_slice(),
    ) {
        Ok(f) => f,
        Err(e) => {
            let r = Err(HotStateError::Fallback(e));
            assert(hot_outcome(cfg, files@, generation, servers@, request, r));
            return r;
        },
    };
    proof {
        lemma_some_tag(&cfg, domain_tags@, ipcidr_tags@);
    }
    let needs_ruleset = domain_tags.len() > 0 || ipcidr_tags.len() > 0;
    let ruleset = match load_ruleset(&cfg.ruleset_specs, &domain_tags, &ipcidr_tags, None, files) {
        Ok(db) => db,
        Err(e) => {
            let r = Err(HotStateError::Ruleset(e));
            assert(hot_outcome(cfg, files@, generation, servers@, request, r));
            return r;
        },
    };
    let routing_index = RouteIndex::build(rules.as_slice(), cfg.cache_size);
    let ghost servers0 = servers@;
    let ghost cfg0 = cfg;
    let hot = HotState {
        routing: Arc::new(RoutingConfig { cfg, servers, rules, needs_ruleset, fallback }),
        ruleset,
        routing_index,
        generation,
    };
    proof {
        let rs = hot.routing.rules@;
        assert forall|i: int| 0 <= i < servers0.len() implies (#[trigger] servers0[i]).index == i by {
            assert(server_built(cfg0.servers@[i], i, servers0[i]));
        }
        assert forall|i: int| 0 <= i < rs.len() implies (#[trigger] rs[i]).index == i
            && forwards_fit(rs[i].filters@, servers0.len()) by {
            let spec = cfg0.rules@[i];
            assert(rule_built(spec, i, servers0, cache, rs[i]));
            assert forall|j: int| 0 <= j < rs[i].filters@.len() implies match (
            #[trigger] rs[i].filters@[j]).action {
                FilterAction::Forward(s) => s < servers0.len(),
                _ => true,
            } by {
                assert(filter_built(spec.filters@[j], servers0, rs[i].filters@[j]));
                match spec.filters@[j].action {
                    RuleFilterActionSpec::Forward(name) => {
                        lemma_server_named_in_range(servers0, name@);
                        let k = server_named(servers0, name@)->0;
                        assert(servers0[k].index == k);
                    },
                    _ => {},
                }
            }
        }
        assert(hot.wf());
        assert(hot_outcome(cfg0, files@, generation, servers0, request, Ok(hot)));
    }
    Ok(hot)
}

// Listening.

/// Some address is to be listened on.
pub open spec fn some_protocol(bind: Seq<BindEndpoint>) -> bool {
    exists|i: int| 0 <= i < bind.len() && ((#[trigger] bind[i]).udp || bind[i].tcp)
}

/// Why nothing can be listened on.
#[derive(Clone, Copy, Debug, PartialEq, Eq, Structural)]
pub enum ServeError {
    /// No address has a protocol.
    NoProtocol,
    /// Every interface is excluded.
    NoInterface,
}

/// The interfaces among `all` that are not excluded, in order.
pub open spec fn not_excluded(all: Seq<Seq<char>>, excluded: Seq<Seq<char>>) -> Seq<Seq<char>>
    decreases all.len(),
{
    if all.len() == 0 {
        Seq::empty()
    } else if excluded.contains(all.last()) {
        not_excluded(all.drop_last(), excluded)
    } else {
        not_excluded(all.drop_last(), excluded).push(all.last())
    }
}

/// The interfaces to bind to: each by name, or `None` for all at once.
pub open spec fn chosen_interfaces(filter: InterfaceFilter, all: Seq<Seq<char>>) -> Option<
    Seq<Seq<char>>,
> {
    match filter {
        InterfaceFilter::All => None,
        InterfaceFilter::Only(names) => Some(texts(names@)),
        InterfaceFilter::Except(excluded) => Some(not_excluded(all, texts(excluded@))),
    }
}

fn any_protocol(bind: &Vec<BindEndpoint>) -> (r: bool)
    ensures
        r == some_protocol(bind@),
{
    let mut i: usize = 0;
    while i < bind.len()
        invariant
            i <= bind@.len(),
            forall|j: int| 0 <= j < i ==> !((#[trigger] bind@[j]).udp || bind@[j].tcp),
        decreases bind@.len() - i,
    {
        if bind[i].udp || bind[i].tcp {
            assert(bind@[i as int].udp || bind@[i as int].tcp);
            return true;
        }
        i += 1;
    }
    false
}

/// The outcome of choosing the interfaces to bind to.
pub open spec fn interfaces_outcome(
    bind: Seq<BindEndpoint>,
    filter: InterfaceFilter,
    all: Seq<Seq<char>>,
    r: Result<Option<Vec<String>>, ServeError>,
) -> bool {
    match r {
        Err(ServeError::NoProtocol) => !some_protocol(bind),
        Err(ServeError::NoInterface) => some_protocol(bind) && filter is Except
            && chosen_interfaces(filter, all)->0.len() == 0,
        Ok(chosen) => {
            &&& some_protocol(bind)
            &&& match chosen {
                Some(names) => chosen_interfaces(filter, all) == Some(texts(names@)) && (
                filter is Except ==> names@.len() > 0),
                None => chosen_interfaces(filter, all) is None,
            }
        },
    }
}

/// Chooses the interfaces to bind to, given the names of all that are there. `Ok(None)` binds to
/// all of them at once.
pub fn choose_interfaces(
    bind: &Vec<BindEndpoint>,
    filter: &InterfaceFilter,
    all: &Vec<String>,
) -> (r: Result<Option<Vec<String>>, ServeError>)
    ensures
        interfaces_outcome(bind@, *filter, texts(all@), r),
{
    if !any_protocol(bind) {
        return Err(ServeError::NoProtocol);
    }
    match filter {
        InterfaceFilter::All => Ok(None),
        InterfaceFilter::Only(names) => Ok(Some(copy_texts(names))),
        InterfaceFilter::Except(excluded) => {
            let ghost names = texts(all@);
            let mut out: Vec<String> = Vec::new();
            let mut i: usize = 0;
            proof {
                assert(texts(out@) =~= not_excluded(names.take(0), texts(excluded@)));
            }
            while i < all.len()
                invariant
                    i <= all@.len(),
                    names == texts(all@),
                    texts(out@) == not_excluded(names.take(i as int), texts(excluded@)),
                decreases all@.len() - i,
            {
                proof {
                    assert(names.take(i + 1).drop_last() =~= names.take(i as int));
                    assert(names.take(i + 1).last() == all@[i as int]@);
                }
                if !has_text(excluded, all[i].as_str()) {
                    let ghost before = out@;
                    out.push(all[i].clone());
                    proof {
                        assert(texts(out@) =~= texts(before).push(all@[i as int]@));
                    }
                }
                i += 1;
            }
            proof {
                assert(names.take(names.len() as int) =~= names);
                assert(texts(out@).len() == out@.len());
            }
            if out.len() == 0 {
                Err(ServeError::NoInterface)
            } else {
                Ok(Some(out))
            }
        },
    }
}

/// Each text once, where it first occurs.
pub open spec fn firsts(names: Seq<Seq<char>>) -> Seq<Seq<char>>
    decreases names.len(),
{
    if names.len() == 0 {
        Seq::empty()
    } else {
        let front = firsts(names.drop_last());
        if front.contains(names.last()) {
            front
        } else {
            front.push(names.last())
        }
    }
}

/// The names of interfaces, each once: an interface is reported once for each of its addresses.
pub fn unique_names(names: &Vec<String>) -> (r: Vec<String>)
    ensures
        texts(r@) == firsts(texts(names@)),
{
    let ghost all = texts(names@);
    let mut out: Vec<String> = Vec::new();
    let mut i: usize = 0;
    proof {
        assert(all.take(0).len() == 0);
        assert(texts(out@) =~= firsts(all.take(0)));
    }
    while i < names.len()
        invariant
            i <= names@.len(),
            all == texts(names@),
            texts(out@) == firsts(all.take(i as int)),
        decreases names@.len() - i,
    {
        proof {
            assert(all.take(i + 1).drop_last() =~= all.take(i as int));
            assert(all.take(i + 1).last() == names@[i as int]@);
        }
        let ghost before = texts(out@);
        if !crate::config::has_text(&out, names[i].as_str()) {
            out.push(names[i].clone());
            proof {
                assert(texts(out@) =~= before.push(names@[i as int]@));
            }
        }
        i += 1;
    }
    proof {
        assert(all.take(all.len() as int) =~= all);
    }
    out
}

/// Texts with a separator between each two of them.
pub open spec fn joined_texts(parts: Seq<Seq<char>>, sep: Seq<char>) -> Seq<char>
    decreases parts.len(),
{
    if parts.len() == 0 {
        Seq::empty()
    } else if parts.len() == 1 {
        parts[0]
    } else {
        joined_texts(parts.drop_last(), sep) + sep + parts.last()
    }
}

fn join_texts(parts: &Vec<String>, sep: &str) -> (r: String)
    ensures
        r@ == joined_texts(texts(parts@), sep@),
{
    let ghost all = texts(parts@);
    let mut out = String::new();
    let mut i: usize = 0;
    while i < parts.len()
        invariant
            i <= parts@.len(),
            all == texts(parts@),
            out@ == joined_texts(all.take(i as int), sep@),
        decreases parts@.len() - i,
    {
        proof {
            assert(all.take(i + 1).drop_last() =~= all.take(i as int));
            assert(all.take(i + 1).last() == parts@[i as int]@);
        }
        let ghost before = out@;
        if i > 0 {
            out.append(sep);
        }
        out.append(parts[i].as_str());
        proof {
            if i == 0 {
                assert(before + parts@[0]@ =~= parts@[0]@);
            }
        }
        i += 1;
    }
    proof {
        assert(all.take(all.len() as int) =~= all);
    }
    out
}

/// Note on the interfaces behind each address.
pub open spec fn interface_note(filter: InterfaceFilter) -> Seq<char> {
    match filter {
        InterfaceFilter::All => Seq::empty(),
        InterfaceFilter::Only(names) => " (iface="@ + joined_texts(texts(names@), ","@) + ")"@,
        InterfaceFilter::Except(names) => " (iface=!"@ + joined_texts(texts(names@), ",!"@) + ")"@,
    }
}

/// Name of the protocols of an address.
pub open spec fn protocol_text(ep: BindEndpoint) -> Seq<char> {
    match (ep.udp, ep.tcp) {
        (true, true) => "udp+tcp"@,
        (true, false) => "udp"@,
        (false, true) => "tcp"@,
        (false, false) => "none"@,
    }
}

/// One listening address in words.
pub open spec fn listener_text(ep: BindEndpoint, note: Seq<char>) -> Seq<char> {
    protocol_text(ep) + "://"@ + ep.addr@ + note
}

/// The listening addresses in words.
pub fn listeners_summary(bind: &Vec<BindEndpoint>, filter: &InterfaceFilter) -> (r: String)
    ensures
        r@ == joined_texts(
            bind@.map_values(|ep: BindEndpoint| listener_text(ep, interface_note(*filter))),
            " "@,
        ),
{
    let mut note = String::new();
    match filter {
        InterfaceFilter::All => {},
        InterfaceFilter::Only(names) => {
            note = " (iface=".to_owned();
            note.append(join_texts(names, ",").as_str());
            note.append(")");
        },
        InterfaceFilter::Except(names) => {
            note = " (iface=!".to_owned();
            note.append(join_texts(names, ",!").as_str());
            note.append(")");
        },
    }
    let ghost all = bind@.map_values(
        |ep: BindEndpoint| listener_text(ep, interface_note(*filter)),
    );
    let mut parts: Vec<String> = Vec::new();
    let mut i: usize = 0;
    while i < bind.len()
        invariant
            i <= bind@.len(),
            note@ == interface_note(*filter),
            all == bind@.map_values(
                |ep: BindEndpoint| listener_text(ep, interface_note(*filter)),
            ),
            texts(parts@) == all.take(i as int),
        decreases bind@.len() - i,
    {
        let ep = &bind[i];
        let mut line = (match (ep.udp, ep.tcp) {
            (true, true) => "udp+tcp",
            (true, false) => "udp",
            (false, true) => "tcp",
            (false, false) => "none",
        }).to_owned();
        line.append("://");
        line.append(ep.addr.as_str());
        line.append(note.as_str());
        let ghost before = parts@;
        parts.push(line);
        proof {
            assert(texts(parts@) =~= texts(before).push(line@));
            assert(texts(parts@) =~= all.take(i + 1));
        }
        i += 1;
    }
    proof {
        assert(all.take(all.len() as int) =~= all);
    }
    join_texts(&parts, " ")
}

// What building means.

/// A server strips the client subnet exactly when no endpoint of it shows the subnet to its
/// upstream: neither the client's own nor a configured one. A fixed answer never depends on it.
pub proof fn law_server_strips_when_no_endpoint_shows(
    entry: (String, ServerSpec),
    i: int,
    server: Server,
)
    requires
        server_built(entry, i, server),
    ensures
        match entry.1 {
            ServerSpec::Upstream(endpoints) => server.strip_ecs <==> !exists|j: int|
                0 <= j < endpoints@.len() && ((#[trigger] endpoints@[j]).ecs_mode matches Some(
                    mode,
                ) && !(mode is Strip)),
            ServerSpec::Fixed(_) => server.strip_ecs,
        },
        server.index == i,
        server.name@ == entry.0@,
        server.final_name@ == "final->"@ + entry.0@,
        entry.1 is Upstream ==> server.kind == ServerKind::Upstream(i as usize),
        entry.1 matches ServerSpec::Fixed(set) ==> (server.kind matches ServerKind::Fixed(own)
            && own.answers@ == set.answers@ && own.rcode == set.rcode && own.rcode_ttl
            == set.rcode_ttl),
{
}

/// Of several servers of one name, rules and filters take the last and the fallback the first; a
/// name without a server gives none.
pub proof fn law_servers_are_found_by_name(servers: Seq<Server>, name: Seq<char>)
    ensures
        match server_named(servers, name) {
            Some(i) => {
                &&& 0 <= i < servers.len()
                &&& servers[i].name@ == name
                &&& forall|j: int| i < j < servers.len() ==> (#[trigger] servers[j]).name@ != name
            },
            None => forall|j: int|
                0 <= j < servers.len() ==> (#[trigger] servers[j]).name@ != name,
        },
        match first_server_named(servers, name) {
            Some(i) => {
                &&& 0 <= i < servers.len()
                &&& servers[i].name@ == name
                &&& forall|j: int| 0 <= j < i ==> (#[trigger] servers[j]).name@ != name
            },
            None => forall|j: int|
                0 <= j < servers.len() ==> (#[trigger] servers[j]).name@ != name,
        },
    decreases servers.len(),
{
    if servers.len() > 0 {
        let front = servers.drop_last();
        law_servers_are_found_by_name(front, name);
        assert forall|j: int| 0 <= j < front.len() implies front[j] == #[trigger] servers[j] by {}
    }
}

/// A rule that was built resolves through a server of the name that it is configured with, and has
/// the matchers, the cache settings and the filters that it is configured with. A filter that
/// forwards does so to a server of the configured name.
pub proof fn law_rule_is_built_as_configured(
    spec: RuleSpec,
    i: int,
    servers: Seq<Server>,
    cache: CacheConfig,
    rule: Rule,
    j: int,
)
    requires
        rule_built(spec, i, servers, cache, rule),
        forall|k: int| 0 <= k < servers.len() ==> (#[trigger] servers[k]).index == k,
        0 <= j < spec.filters@.len(),
    ensures
        rule.index == i,
        rule.server@ == spec.server@,
        exists|k: int|
            0 <= k < servers.len() && (#[trigger] servers[k]).name@ == spec.server@ && same_kind(
                rule.kind,
                servers[k].kind,
            ) && rule.strip_ecs == servers[k].strip_ecs,
        same_matchers(rule.matcher@, spec.matcher@),
        rule.cache_policy == merged_policy(cache, spec.cache_policy),
        rule.filters@.len() == spec.filters@.len(),
        rule.filters@[j].answer_ip.includes@ == spec.filters@[j].answer_ip.includes@,
        rule.filters@[j].answer_ip.excludes@ == spec.filters@[j].answer_ip.excludes@,
        rule.filters@[j].response_type@ == spec.filters@[j].response_type@,
        rule.filters@[j].response_rcode@ == spec.filters@[j].response_rcode@,
        rule.filters@[j].response_qclass@ == spec.filters@[j].response_qclass@,
        match spec.filters@[j].action {
            RuleFilterActionSpec::Accept => rule.filters@[j].action == FilterAction::Accept,
            RuleFilterActionSpec::Drop => rule.filters@[j].action == FilterAction::Drop,
            RuleFilterActionSpec::Forward(name) => rule.filters@[j].action matches FilterAction::Forward(
                to,
            ) && to < servers.len() && servers[to as int].name@ == name@,
        },
{
    law_servers_are_found_by_name(servers, spec.server@);
    let k = server_named(servers, spec.server@)->0;
    assert(servers[k].name@ == spec.server@);
    assert(filter_built(spec.filters@[j], servers, rule.filters@[j]));
    if let RuleFilterActionSpec::Forward(name) = spec.filters@[j].action {
        law_servers_are_found_by_name(servers, name@);
        let to = server_named(servers, name@)->0;
        assert(servers[to].index == to);
    }
}

/// Rules are refused for two reasons only: a filter that forwards to a name without a server, and
/// cache bounds of which the shortest lifetime exceeds the longest, where both are set.
pub proof fn law_rules_fail_for_a_reason(
    specs: Seq<RuleSpec>,
    servers: Seq<Server>,
    cache: CacheConfig,
    r: Result<Vec<Rule>, BuildError>,
)
    requires
        rules_outcome(specs, servers, cache, r),
    ensures
        match r {
            Ok(rules) => rules@.len() == specs.len() && forall|i: int|
                0 <= i < rules@.len() ==> {
                    let p = (#[trigger] rules@[i]).cache_policy;
                    p.min_ttl == 0 || p.max_ttl == 0 || p.min_ttl <= p.max_ttl
                },
            Err(BuildError::NoForwardTarget { rule, filter }) => {
                &&& rule < specs.len()
                &&& filter < specs[rule as int].filters@.len()
                &&& specs[rule as int].filters@[filter as int].action matches RuleFilterActionSpec::Forward(
                    name,
                ) && forall|j: int|
                    0 <= j < servers.len() ==> (#[trigger] servers[j]).name@ != name@
            },
            Err(BuildError::TtlBoundsCross { rule }) => {
                &&& rule < specs.len()
                &&& {
                    let p = merged_policy(cache, specs[rule as int].cache_policy);
                    p.min_ttl > p.max_ttl && p.max_ttl > 0
                }
            },
        },
{
    match r {
        Ok(rules) => {
            assert forall|i: int| 0 <= i < rules@.len() implies ({
                let p = (#[trigger] rules@[i]).cache_policy;
                p.min_ttl == 0 || p.max_ttl == 0 || p.min_ttl <= p.max_ttl
            }) by {
                assert(rule_built(specs[i], i, servers, cache, rules@[i]));
            }
        },
        Err(BuildError::NoForwardTarget { rule, filter }) => {
            match specs[rule as int].filters@[filter as int].action {
                RuleFilterActionSpec::Forward(name) => {
                    law_servers_are_found_by_name(servers, name@);
                },
                _ => {},
            }
        },
        _ => {},
    }
}

/// The fallback goes where it is configured to: to the last rule, to a server of the configured
/// name, or to a pair of servers of the two configured names in their order. Addresses decide
/// between the two exactly where tags are configured for it. It fails only for want of a rule or of
/// a server.
pub proof fn law_fallback_goes_where_configured(
    target: FallbackTarget,
    rules: nat,
    servers: Seq<Server>,
    r: Result<ResolvedFallback, FallbackError>,
)
    requires
        fallback_outcome(target, rules, servers, r),
        servers.len() <= usize::MAX,
        rules <= usize::MAX,
    ensures
        match (target, r) {
            (FallbackTarget::LastRule, Ok(f)) => f matches ResolvedFallback::Rule(i) && i + 1
                == rules,
            (FallbackTarget::LastRule, Err(_)) => rules == 0,
            (FallbackTarget::Server(name), Ok(f)) => f matches ResolvedFallback::Server(i) && i
                < servers.len() && servers[i as int].name@ == name@,
            (FallbackTarget::Server(name), Err(_)) => forall|j: int|
                0 <= j < servers.len() ==> (#[trigger] servers[j]).name@ != name@,
            (FallbackTarget::Dual { primary, secondary, answer_ip }, Ok(f)) => {
                let tags = answer_ip.includes@.len() > 0 || answer_ip.excludes@.len() > 0;
                match f {
                    ResolvedFallback::CidrTest { primary: p, secondary: s } => tags && p
                        < servers.len() && s < servers.len() && servers[p as int].name@ == primary@
                        && servers[s as int].name@ == secondary@,
                    ResolvedFallback::Race { primary: p, secondary: s } => !tags && p
                        < servers.len() && s < servers.len() && servers[p as int].name@ == primary@
                        && servers[s as int].name@ == secondary@,
                    _ => false,
                }
            },
            (FallbackTarget::Dual { primary, secondary, .. }, Err(_)) => (forall|j: int|
                0 <= j < servers.len() ==> (#[trigger] servers[j]).name@ != primary@) || (forall|
                j: int,
            |
                0 <= j < servers.len() ==> (#[trigger] servers[j]).name@ != secondary@),
        },
{
    match target {
        FallbackTarget::LastRule => {},
        FallbackTarget::Server(name) => {
            law_servers_are_found_by_name(servers, name@);
        },
        FallbackTarget::Dual { primary, secondary, .. } => {
            law_servers_are_found_by_name(servers, primary@);
            law_servers_are_found_by_name(servers, secondary@);
        },
    }
}

/// The tags that are loaded for names are all that routing looks at: two databases that agree on
/// them route every name alike.
pub proof fn law_named_tags_suffice_for_names(
    rules: Seq<RuleSpec>,
    i: int,
    j: int,
    a: &RuleSetDb,
    b: &RuleSetDb,
    name: Seq<u8>,
)
    requires
        0 <= i < rules.len(),
        0 <= j < rules[i].matcher@.len(),
        forall|t: Seq<char>|
            #![trigger names_domain_tag(rules, t)]
            names_domain_tag(rules, t) ==> a.has_name(encode_utf8(t), name) == b.has_name(
                encode_utf8(t),
                name,
            ),
    ensures
        matcher_meets(rules[i].matcher@[j], name, Some(a)) == matcher_meets(
            rules[i].matcher@[j],
            name,
            Some(b),
        ),
{
    let m = rules[i].matcher@[j];
    if let RuleMatcher::Tag { includes, excludes } = m {
        assert forall|k: int| 0 <= k < includes@.len() implies a.has_name(
            encode_utf8((#[trigger] includes@[k])@),
            name,
        ) == b.has_name(encode_utf8(includes@[k]@), name) by {
            let t = includes@[k]@;
            assert(texts(includes@)[k] == t);
            assert(matcher_names(m, t));
            assert(names_domain_tag(rules, t));
        }
        assert forall|k: int| 0 <= k < excludes@.len() implies a.has_name(
            encode_utf8((#[trigger] excludes@[k])@),
            name,
        ) == b.has_name(encode_utf8(excludes@[k]@), name) by {
            let t = excludes@[k]@;
            assert(texts(excludes@)[k] == t);
            assert(matcher_names(m, t));
            assert(names_domain_tag(rules, t));
        }
    }
}

/// The tags that are loaded for addresses are those that some filter, or the fallback, names as
/// included or excluded; a domain pattern names none.
pub proof fn law_named_address_tags(
    rules: Seq<RuleSpec>,
    fallback: FallbackTarget,
    tag: Seq<char>,
    i: int,
    j: int,
)
    ensures
        0 <= i < rules.len() && 0 <= j < rules[i].filters@.len() && (texts(
            rules[i].filters@[j].answer_ip.includes@,
        ).contains(tag) || texts(rules[i].filters@[j].answer_ip.excludes@).contains(tag))
            ==> names_ipcidr_tag(rules, fallback, tag),
        fallback matches FallbackTarget::Dual { answer_ip, .. } ==> (texts(
            answer_ip.includes@,
        ).contains(tag) || texts(answer_ip.excludes@).contains(tag) ==> names_ipcidr_tag(
            rules,
            fallback,
            tag,
        )),
        rules.len() == 0 && !(fallback is Dual) ==> !names_ipcidr_tag(rules, fallback, tag),
        rules.len() == 0 ==> !names_domain_tag(rules, tag),
        names_ipcidr_tag(rules, fallback, tag) && !(fallback is Dual) ==> exists|x: int, y: int|
            0 <= x < rules.len() && 0 <= y < (#[trigger] rules[x].filters@[y], rules[x].filters@.len()).1
                && (texts(rules[x].filters@[y].answer_ip.includes@).contains(tag) || texts(
                rules[x].filters@[y].answer_ip.excludes@,
            ).contains(tag)),
{
    if 0 <= i < rules.len() && 0 <= j < rules[i].filters@.len() && (texts(
        rules[i].filters@[j].answer_ip.includes@,
    ).contains(tag) || texts(rules[i].filters@[j].answer_ip.excludes@).contains(tag)) {
        assert(answer_names(rules[i].filters@[j].answer_ip, tag));
        assert(filter_names_tag(rules, tag));
    }
    if names_ipcidr_tag(rules, fallback, tag) && !(fallback is Dual) {
        let (x, y) = choose|x: int, y: int|
            #![trigger rules[x].filters@[y]]
            0 <= x < rules.len() && 0 <= y < rules[x].filters@.len() && answer_names(
                rules[x].filters@[y].answer_ip,
                tag,
            );
        assert((rules[x].filters@[y], rules[x].filters@.len()).1 == rules[x].filters@.len());
    }
}

/// Interfaces that are excluded are left out, all others are kept in their order; a list of names
/// is taken as it is, and no filter means all at once.
pub proof fn law_interfaces_are_chosen(filter: InterfaceFilter, all: Seq<Seq<char>>)
    ensures
        match filter {
            InterfaceFilter::All => chosen_interfaces(filter, all) is None,
            InterfaceFilter::Only(names) => chosen_interfaces(filter, all) == Some(texts(names@)),
            InterfaceFilter::Except(names) => chosen_interfaces(filter, all) == Some(
                all.filter(|n: Seq<char>| !texts(names@).contains(n)),
            ),
        },
{
    if let InterfaceFilter::Except(names) = filter {
        lemma_not_excluded(all, texts(names@));
    }
}

proof fn lemma_not_excluded(all: Seq<Seq<char>>, excluded: Seq<Seq<char>>)
    ensures
        not_excluded(all, excluded) == all.filter(|n: Seq<char>| !excluded.contains(n)),
    decreases all.len(),
{
    reveal(Seq::filter);
    if all.len() > 0 {
        lemma_not_excluded(all.drop_last(), excluded);
    }
}

/// Of names that repeat each is kept once, and none is lost; a name that comes later does not move
/// those before it.
pub proof fn law_each_name_once(names: Seq<Seq<char>>, more: Seq<char>)
    ensures
        firsts(names).no_duplicates(),
        forall|n: Seq<char>| #[trigger] firsts(names).contains(n) <==> names.contains(n),
        firsts(names.push(more)) == (if names.contains(more) {
            firsts(names)
        } else {
            firsts(names).push(more)
        }),
    decreases names.len(),
{
    assert(names.push(more).drop_last() =~= names);
    if names.len() > 0 {
        let front = names.drop_last();
        law_each_name_once(front, names.last());
        assert(front.push(names.last()) =~= names);
        assert forall|n: Seq<char>| #[trigger] firsts(names).contains(n) <==> names.contains(
            n,
        ) by {
            assert(firsts(front).contains(n) <==> front.contains(n));
            if firsts(front).contains(names.last()) {
                if names.contains(n) {
                    let i = choose|i: int| 0 <= i < names.len() && names[i] == n;
                    if i < front.len() {
                        assert(front[i] == n);
                    }
                }
                if front.contains(n) {
                    let i = choose|i: int| 0 <= i < front.len() && front[i] == n;
                    assert(names[i] == n);
                }
            } else {
                let f = firsts(front);
                let g = f.push(names.last());
                if g.contains(n) {
                    let i = choose|i: int| 0 <= i < g.len() && g[i] == n;
                    if i < f.len() {
                        assert(f[i] == n);
                        assert(front.contains(n));
                        let k = choose|k: int| 0 <= k < front.len() && front[k] == n;
                        assert(names[k] == n);
                    } else {
                        assert(names[names.len() - 1] == n);
                    }
                }
                if names.contains(n) {
                    let i = choose|i: int| 0 <= i < names.len() && names[i] == n;
                    if i < front.len() {
                        assert(front[i] == n);
                        assert(f.contains(n));
                        let k = choose|k: int| 0 <= k < f.len() && f[k] == n;
                        assert(g[k] == n);
                    } else {
                        assert(g[f.len() as int] == n);
                    }
                }
            }
        }
    } else {
        assert(firsts(names) =~= Seq::<Seq<char>>::empty());
    }
    assert(firsts(names).contains(more) <==> names.contains(more));
}

/// Watch events are compared with configured paths however those are written: two ways to write one
/// path are watched under one name.
pub proof fn law_watch_path_ignores_spelling(a: Seq<u8>, b: Seq<u8>)
    requires
        same_location(a, b),
    ensures
        watch_text(a) == watch_text(b),
        parent_text(a) == parent_text(b),
        file_text(a) == file_text(b),
{
}

/// A database is loaded exactly where a tag is referred to; without configured entries that fails.
pub proof fn law_database_where_tags_are_named(
    request: LoadRequest,
    specs: Seq<RuleSetSpec>,
    files: Seq<RuleSetFile>,
    r: Result<Option<RuleSetDb>, LoadRulesetError>,
)
    requires
        ruleset_outcome(request, specs, files, r),
    ensures
        request.domain_tags.len() == 0 && request.ipcidr_tags.len() == 0 <==> (r matches Ok(db)
            && db is None),
        request.domain_tags.len() + request.ipcidr_tags.len() > 0 && specs.len() == 0 ==> r is Err,
        r matches Ok(Some(db)) ==> load_outcome(request, specs, files, Ok(db)),
{
}

/// The components among later pieces do not depend on what they follow.
spec fn later(pieces: Seq<Seq<u8>>) -> Seq<Seq<u8>>
    decreases pieces.len(),
{
    if pieces.len() == 0 {
        Seq::empty()
    } else if counts(pieces.last(), false) {
        later(pieces.drop_last()).push(pieces.last())
    } else {
        later(pieces.drop_last())
    }
}

proof fn lemma_counted_prefix(a: Seq<Seq<u8>>, b: Seq<Seq<u8>>, n: int)
    requires
        0 <= n <= a.len(),
    ensures
        counted(a + b, n) == counted(a, n),
    decreases n,
{
    if n > 0 {
        lemma_counted_prefix(a, b, n - 1);
        assert((a + b)[n - 1] == a[n - 1]);
    }
}

proof fn lemma_counted_around(a: Seq<Seq<u8>>, b: Seq<Seq<u8>>)
    requires
        a.len() > 0,
    ensures
        counted(a + b, (a.len() + b.len()) as int) == counted(a, a.len() as int) + later(b),
    decreases b.len(),
{
    if b.len() == 0 {
        lemma_counted_prefix(a, b, a.len() as int);
        assert(a + b =~= a);
        assert(counted(a, a.len() as int) + later(b) =~= counted(a, a.len() as int));
    } else {
        let front = b.drop_last();
        lemma_counted_around(a, front);
        let all = a + b;
        assert(all =~= (a + front) + seq![b.last()]);
        lemma_counted_prefix(a + front, seq![b.last()], (a.len() + front.len()) as int);
        assert(all[all.len() - 1] == b.last());
        assert(counted(all, all.len() as int) =~= counted(a, a.len() as int) + later(b));
    }
}

proof fn lemma_components_around(a: Seq<u8>, b: Seq<u8>)
    ensures
        components(a + seq![SLASH] + b) == components(a) + later(split_on(b, SLASH)),
{
    law_split_around(a, b, SLASH);
    lemma_split_nonempty(a, SLASH);
    lemma_counted_around(split_on(a, SLASH), split_on(b, SLASH));
}

/// Spellings of one path: a doubled slash and a `.` within a path name the same place as one slash
/// does, and a slash at the end changes nothing.
pub proof fn law_spellings_of_a_path(a: Seq<u8>, b: Seq<u8>)
    ensures
        same_location(a + seq![47u8] + (seq![47u8] + b), a + seq![47u8] + b),
        same_location(a + seq![47u8] + (seq![46u8, 47u8] + b), a + seq![47u8] + b),
        a.len() > 0 ==> same_location(a + seq![47u8], a),
{
    let none = Seq::<u8>::empty();
    let dot = seq![46u8];
    lemma_components_around(a, b);
    lemma_components_around(a, seq![47u8] + b);
    lemma_components_around(a, seq![46u8, 47u8] + b);
    lemma_components_around(a, none);
    law_split_around(none, b, SLASH);
    law_split_around(dot, b, SLASH);
    assert(none + seq![47u8] + b =~= seq![47u8] + b);
    assert(dot + seq![47u8] + b =~= seq![46u8, 47u8] + b);
    assert(a + seq![47u8] + none =~= a + seq![47u8]);
    law_split_of_piece(none, SLASH);
    law_split_of_piece(dot, SLASH);
    lemma_later_around(seq![none], split_on(b, SLASH));
    lemma_later_around(seq![dot], split_on(b, SLASH));
    assert(seq![none].drop_last() =~= Seq::empty());
    assert(seq![dot].drop_last() =~= Seq::empty());
    assert(later(seq![none].drop_last()) =~= Seq::empty());
    assert(later(seq![none]) =~= Seq::empty());
    assert(later(seq![dot]) =~= Seq::empty());
    assert(Seq::<Seq<u8>>::empty() + later(split_on(b, SLASH)) =~= later(split_on(b, SLASH)));
    assert(components(a) + later(seq![none]) =~= components(a));
}

proof fn lemma_later_around(a: Seq<Seq<u8>>, b: Seq<Seq<u8>>)
    ensures
        later(a + b) == later(a) + later(b),
    decreases b.len(),
{
    if b.len() == 0 {
        assert(a + b =~= a);
        assert(later(a) + later(b) =~= later(a));
    } else {
        lemma_later_around(a, b.drop_last());
        assert((a + b).drop_last() =~= a + b.drop_last());
        assert(later(a + b) =~= later(a) + later(b));
    }
}

/// The last component of a path is its file name, whatever stands before it. A bare file name lies
/// in the working directory, a file right under the root in the root, and one behind a plain
/// directory name in that directory; a watch names it by the two joined.
pub proof fn law_path_is_directory_and_file(dir: Seq<u8>, file: Seq<u8>)
    requires
        file.len() > 0,
        !file.contains(47u8),
        file != seq![46u8],
        file != seq![46u8, 46u8],
    ensures
        file_text(dir + seq![47u8] + file) == file,
        file_text(file) == file,
        parent_text(file) == seq![46u8],
        watch_text(file) == seq![46u8, 47u8] + file,
        parent_text(seq![47u8] + file) == seq![47u8],
        watch_text(seq![47u8] + file) == seq![47u8] + file,
        dir.len() > 0 && !dir.contains(47u8) ==> parent_text(dir + seq![47u8] + file) == dir
            && watch_text(dir + seq![47u8] + file) == dir + seq![47u8] + file,
{
    let none = Seq::<u8>::empty();
    law_split_of_piece(file, SLASH);
    law_split_of_piece(none, SLASH);
    lemma_components_around(dir, file);
    lemma_components_around(none, file);
    assert(none + seq![47u8] + file =~= seq![47u8] + file);
    assert(seq![file].drop_last() =~= Seq::empty());
    assert(later(seq![file].drop_last()) =~= Seq::empty());
    assert(later(seq![file]) =~= seq![file]);
    assert(counted(seq![none], 0) =~= Seq::empty());
    assert(components(none) =~= Seq::empty());
    assert(components(seq![47u8] + file) =~= seq![file]);
    assert(counted(seq![file], 0) =~= Seq::empty());
    assert(components(file) =~= seq![file]);
    assert(!is_absolute(file)) by {
        if file[0] == 47u8 {
            assert(file.contains(47u8));
        }
    }
    assert(with_slashes(seq![file].drop_last()) =~= none);
    assert(seq![46u8] + seq![47u8] =~= seq![46u8, 47u8]);
    assert(path_text(true, seq![file].drop_last()) =~= seq![47u8]);
    assert(seq![file].last() == file);
    if dir.len() > 0 && !dir.contains(47u8) {
        law_split_of_piece(dir, SLASH);
        assert(counted(seq![dir], 0) =~= Seq::empty());
        assert(components(dir) =~= seq![dir]);
        let parts = components(dir + seq![47u8] + file);
        assert(parts =~= seq![dir, file]);
        assert(parts.drop_last() =~= seq![dir]);
        assert(dir[0] != 47u8) by {
            assert(dir.contains(dir[0]));
        }
        assert(dir.last() != 47u8) by {
            assert(dir.contains(dir[dir.len() - 1]));
        }
        assert(with_slashes(seq![dir]) == dir);
    }
    assert(file_text(dir + seq![47u8] + file) == file) by {
        assert((components(dir) + seq![file]).last() == file);
    }
}

/// A state that was built follows its configuration: its servers and rules are the configured ones
/// in their order, under their names, and each rule resolves as its server does. It has the wanted
/// generation, and a database exactly where a tag is named.
pub proof fn law_state_follows_its_configuration(
    cfg: Config,
    files: Seq<RuleSetFile>,
    generation: u64,
    servers: Seq<Server>,
    request: LoadRequest,
    hot: HotState,
    i: int,
)
    requires
        hot_outcome(cfg, files, generation, servers, request, Ok(hot)),
    ensures
        hot.generation == generation,
        hot.routing.cfg == cfg,
        hot.routing.servers@.len() == cfg.servers@.len(),
        hot.routing.rules@.len() == cfg.rules@.len(),
        0 <= i < cfg.servers@.len() ==> hot.routing.servers@[i].name@ == cfg.servers@[i].0@
            && hot.routing.servers@[i].index == i && (hot.routing.servers@[i].kind is Upstream
            <==> cfg.servers@[i].1 is Upstream),
        0 <= i < cfg.rules@.len() ==> {
            let rule = hot.routing.rules@[i];
            &&& rule.index == i
            &&& rule.server@ == cfg.rules@[i].server@
            &&& same_matchers(rule.matcher@, cfg.rules@[i].matcher@)
            &&& cfg.rules@[i].cache_policy is None ==> rule.cache_policy.min_ttl
                == cfg.cache_min_ttl && rule.cache_policy.max_ttl == cfg.cache_max_ttl
                && !rule.cache_policy.skip
        },
        hot.ruleset is Some <==> exists|t: Seq<char>| names_some_tag(cfg, t),
{
    let cache = CacheConfig {
        capacity: cfg.cache_size,
        min_ttl: cfg.cache_min_ttl,
        max_ttl: cfg.cache_max_ttl,
    };
    if 0 <= i < cfg.servers@.len() {
        assert(server_built(cfg.servers@[i], i, servers[i]));
    }
    if 0 <= i < cfg.rules@.len() {
        assert(rule_built(cfg.rules@[i], i, servers, cache, hot.routing.rules@[i]));
    }
    if exists|t: Seq<char>| names_some_tag(cfg, t) {
        let t = choose|t: Seq<char>| names_some_tag(cfg, t);
        assert(request.domain_tags.contains(t) <==> names_domain_tag(cfg.rules@, t));
        assert(request.ipcidr_tags.contains(t) <==> names_ipcidr_tag(
            cfg.rules@,
            cfg.fallback.target,
            t,
        ));
        assert(request.domain_tags.len() + request.ipcidr_tags.len() > 0);
    } else {
        if request.domain_tags.len() > 0 {
            assert(request.domain_tags.contains(request.domain_tags[0]));
            assert(names_some_tag(cfg, request.domain_tags[0]));
        }
        if request.ipcidr_tags.len() > 0 {
            assert(request.ipcidr_tags.contains(request.ipcidr_tags[0]));
            assert(names_some_tag(cfg, request.ipcidr_tags[0]));
        }
    }
}

/// A configuration that can be built is built: it fails only where a filter forwards to nowhere,
/// cache bounds cross, the fallback has no rule or server, or the database cannot be loaded.
pub proof fn law_state_fails_for_a_reason(
    cfg: Config,
    files: Seq<RuleSetFile>,
    generation: u64,
    servers: Seq<Server>,
    request: LoadRequest,
    r: Result<HotState, HotStateError>,
)
    requires
        hot_outcome(cfg, files, generation, servers, request, r),
        rules_buildable(
            cfg.rules@,
            servers,
            CacheConfig {
                capacity: cfg.cache_size,
                min_ttl: cfg.cache_min_ttl,
                max_ttl: cfg.cache_max_ttl,
            },
        ),
        fallback_resolves(cfg.fallback.target, cfg.rules@.len(), servers),
        !exists|t: Seq<char>| names_some_tag(cfg, t),
    ensures
        r is Ok,
{
    let none_named = forall|t: Seq<char>| !names_some_tag(cfg, t);
    assert(none_named);
    if request.domain_tags.len() > 0 {
        let t = request.domain_tags[0];
        assert(request.domain_tags.contains(t));
        assert(names_some_tag(cfg, t));
    }
    if request.ipcidr_tags.len() > 0 {
        let t = request.ipcidr_tags[0];
        assert(request.ipcidr_tags.contains(t));
        assert(names_some_tag(cfg, t));
    }
}

/// Texts are joined by putting the separator between each two of them, and nowhere else.
pub proof fn law_separator_stands_between(parts: Seq<Seq<char>>, more: Seq<char>, sep: Seq<char>)
    ensures
        joined_texts(Seq::empty(), sep) == Seq::<char>::empty(),
        joined_texts(seq![more], sep) == more,
        parts.len() > 0 ==> joined_texts(parts.push(more), sep) == joined_texts(parts, sep) + sep
            + more,
{
    assert(parts.push(more).drop_last() =~= parts);
}

/// Something is listened on exactly where an address has a protocol and an interface is left: with
/// names to leave out, one that none of them names. Which are listened on follows from the filter.
pub proof fn law_listening_needs_protocol_and_interface(
    bind: Seq<BindEndpoint>,
    filter: InterfaceFilter,
    all: Seq<Seq<char>>,
    r: Result<Option<Vec<String>>, ServeError>,
)
    requires
        interfaces_outcome(bind, filter, all, r),
    ensures
        r == Err::<Option<Vec<String>>, ServeError>(ServeError::NoProtocol) <==> forall|i: int|
            0 <= i < bind.len() ==> !(#[trigger] bind[i]).udp && !bind[i].tcp,
        match filter {
            InterfaceFilter::All => r matches Ok(names) ==> names is None,
            InterfaceFilter::Only(names) => r matches Ok(chosen) ==> chosen is Some && texts(
                chosen->0@,
            ) == texts(names@),
            InterfaceFilter::Except(names) => {
                &&& r matches Ok(chosen) ==> chosen is Some && texts(chosen->0@) == all.filter(
                    |n: Seq<char>| !texts(names@).contains(n),
                )
                &&& r == Err::<Option<Vec<String>>, ServeError>(ServeError::NoInterface)
                    ==> all.filter(|n: Seq<char>| !texts(names@).contains(n)).len() == 0
            },
        },
        !(filter is Except) ==> r != Err::<Option<Vec<String>>, ServeError>(
            ServeError::NoInterface,
        ),
{
    law_interfaces_are_chosen(filter, all);
    if !some_protocol(bind) {
        assert forall|i: int| 0 <= i < bind.len() implies !(#[trigger] bind[i]).udp
            && !bind[i].tcp by {}
    } else {
        let i = choose|i: int| 0 <= i < bind.len() && ((#[trigger] bind[i]).udp || bind[i].tcp);
        assert(bind[i].udp || bind[i].tcp);
    }
}

} // verus!
