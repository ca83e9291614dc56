//! Routing decisions: from a query to the target that resolves it.

use crate::dns::{TYPE_A, TYPE_AAAA};
use crate::server::{ResolvedFallback, RoutingConfig, Rule, Server, ServerKind};
use vstd::prelude::*;

verus! {

/// Name reported for the final fallback while it is not known which server answered.
pub fn final_arc() -> (r: String)
    ensures
        r@ == "final"@,
{
    "final".to_owned()
}

/// The target selected for a query.
pub enum RouteTarget<'a> {
    /// A rule, with its position.
    Rule(&'a Rule, usize),
    /// A server, with its position; the global cache policy applies.
    Server(&'a Server, usize),
    /// Two servers; the first valid answer wins.
    Race { primary: &'a Server, secondary: &'a Server },
    /// Two servers; the addresses of the primary's answer decide.
    CidrTest { primary: &'a Server, secondary: &'a Server },
}

impl<'a> RouteTarget<'a> {
    /// Text of the server that the target resolves through.
    pub open spec fn name_text(self) -> Seq<char> {
        match self {
            RouteTarget::Rule(rule, _) => rule.server@,
            RouteTarget::Server(s, _) => s.name@,
            RouteTarget::Race { .. } => "final"@,
            RouteTarget::CidrTest { .. } => "final"@,
        }
    }

    /// Text under which the target is reported.
    pub open spec fn report_text(self) -> Seq<char> {
        match self {
            RouteTarget::Rule(rule, _) => rule.server@,
            RouteTarget::Server(s, _) => s.final_name@,
            RouteTarget::Race { .. } => "final"@,
            RouteTarget::CidrTest { .. } => "final"@,
        }
    }

    pub open spec fn skips_cache(self) -> bool {
        match self {
            RouteTarget::Rule(rule, _) => rule.cache_policy.skip,
            _ => false,
        }
    }

    /// What answered the query, when the winner is `winner`.
    pub open spec fn kind_of(self, winner: Option<&'a Server>) -> Option<ServerKind> {
        match self {
            RouteTarget::Rule(rule, _) => Some(rule.kind),
            RouteTarget::Server(s, _) => Some(s.kind),
            _ => match winner {
                Some(s) => Some(s.kind),
                None => None,
            },
        }
    }

    pub open spec fn strips_ecs(self) -> bool {
        match self {
            RouteTarget::Rule(rule, _) => rule.strip_ecs,
            RouteTarget::Server(s, _) => s.strip_ecs,
            RouteTarget::Race { primary, secondary } => primary.strip_ecs && secondary.strip_ecs,
            RouteTarget::CidrTest { primary, secondary } => primary.strip_ecs
                && secondary.strip_ecs,
        }
    }

    /// Name of the server that the target resolves through.
    pub fn upstream_name(&self) -> (r: String)
        ensures
            r@ == self.name_text(),
    {
        match self {
            RouteTarget::Rule(rule, _) => rule.server.clone(),
            RouteTarget::Server(s, _) => s.name.clone(),
            RouteTarget::Race { .. } => final_arc(),
            RouteTarget::CidrTest { .. } => final_arc(),
        }
    }

    /// Name under which the target is reported. For a pair of servers it is the generic name;
    /// once the winner is known its own final name is the better one.
    pub fn upstream_name_arc(&self) -> (r: String)
        ensures
            r@ == self.report_text(),
    {
        match self {
            RouteTarget::Rule(rule, _) => rule.server.clone(),
            RouteTarget::Server(s, _) => s.final_name.clone(),
            RouteTarget::Race { .. } => final_arc(),
            RouteTarget::CidrTest { .. } => final_arc(),
        }
    }

    /// Whether responses stay out of the cache.
    pub fn skip_cache(&self) -> (r: bool)
        ensures
            r == self.skips_cache(),
    {
        match self {
            RouteTarget::Rule(rule, _) => rule.cache_policy.skip,
            _ => false,
        }
    }

    /// What answered the query. For a pair of servers this is known only with the winner.
    pub fn resolved_kind(&self, winner: Option<&'a Server>) -> (r: Option<&'a ServerKind>)
        ensures
            match r {
                Some(k) => self.kind_of(winner) == Some(*k),
                None => self.kind_of(winner) is None,
            },
    {
        match self {
            RouteTarget::Rule(rule, _) => Some(&rule.kind),
            RouteTarget::Server(s, _) => Some(&s.kind),
            _ => match winner {
                Some(s) => Some(&s.kind),
                None => None,
            },
        }
    }

    /// Whether no server of the target sees the client subnet, so that all clients can share one
    /// cache entry.
    pub fn strip_ecs(&self) -> (r: bool)
        ensures
            r == self.strips_ecs(),
    {
        match self {
            RouteTarget::Rule(rule, _) => rule.strip_ecs,
            RouteTarget::Server(s, _) => s.strip_ecs,
            RouteTarget::Race { primary, secondary } => primary.strip_ecs && secondary.strip_ecs,
            RouteTarget::CidrTest { primary, secondary } => primary.strip_ecs
                && secondary.strip_ecs,
        }
    }
}

/// The target of the fallback for a query of type `qtype`. The address test applies to address
/// queries only; other queries race.
pub open spec fn fallback_target<'a>(routing: &'a RoutingConfig, qtype: u16) -> RouteTarget<'a> {
    match routing.fallback {
        ResolvedFallback::Rule(i) => RouteTarget::Rule(&routing.rules@[i as int], i),
        ResolvedFallback::Server(i) => RouteTarget::Server(&routing.servers@[i as int], i),
        ResolvedFallback::Race { primary, secondary } => RouteTarget::Race {
            primary: &routing.servers@[primary as int],
            secondary: &routing.servers@[secondary as int],
        },
        ResolvedFallback::CidrTest { primary, secondary } => if qtype == 1 || qtype == 28 {
            RouteTarget::CidrTest {
                primary: &routing.servers@[primary as int],
                secondary: &routing.servers@[secondary as int],
            }
        } else {
            RouteTarget::Race {
                primary: &routing.servers@[primary as int],
                secondary: &routing.servers@[secondary as int],
            }
        },
    }
}

/// The target of a query that no rule matches.
pub fn classify_target<'a>(routing: &'a RoutingConfig, qtype: u16) -> (r: RouteTarget<'a>)
    requires
        routing.fallback_fits(),
    ensures
        r == fallback_target(routing, qtype),
{
    match routing.fallback {
        ResolvedFallback::Rule(i) => RouteTarget::Rule(&routing.rules[i], i),
        ResolvedFallback::Server(i) => RouteTarget::Server(&routing.servers[i], i),
        ResolvedFallback::Race { primary, secondary } => RouteTarget::Race {
            primary: &routing.servers[primary],
            secondary: &routing.servers[secondary],
        },
        ResolvedFallback::CidrTest { primary, secondary } => if qtype == 1 || qtype == 28 {
            RouteTarget::CidrTest {
                primary: &routing.servers[primary],
                secondary: &routing.servers[secondary],
            }
        } else {
            RouteTarget::Race {
                primary: &routing.servers[primary],
                secondary: &routing.servers[secondary],
            }
        },
    }
}

// What the fallback means.

/// A fallback with an address test tests the addresses of every A and every AAAA query, on the
/// configured pair of servers; queries of every other type race between the same two. A fallback
/// without the test never tests.
pub proof fn law_address_queries_are_tested(
    routing: &RoutingConfig,
    qtype: u16,
    target: RouteTarget<'_>,
)
    requires
        target == fallback_target(routing, qtype),
    ensures
        match routing.fallback {
            ResolvedFallback::CidrTest { primary, secondary } => match target {
                RouteTarget::CidrTest { primary: p, secondary: s } => {
                    &&& qtype == TYPE_A || qtype == TYPE_AAAA
                    &&& *p == routing.servers@[primary as int]
                    &&& *s == routing.servers@[secondary as int]
                },
                RouteTarget::Race { primary: p, secondary: s } => {
                    &&& qtype != TYPE_A && qtype != TYPE_AAAA
                    &&& *p == routing.servers@[primary as int]
                    &&& *s == routing.servers@[secondary as int]
                },
                _ => false,
            },
            ResolvedFallback::Race { primary, secondary } => match target {
                RouteTarget::Race { primary: p, secondary: s } => {
                    &&& *p == routing.servers@[primary as int]
                    &&& *s == routing.servers@[secondary as int]
                },
                _ => false,
            },
            ResolvedFallback::Rule(i) => match target {
                RouteTarget::Rule(rule, at) => at == i && *rule == routing.rules@[i as int],
                _ => false,
            },
            ResolvedFallback::Server(i) => match target {
                RouteTarget::Server(server, at) => at == i && *server
                    == routing.servers@[i as int],
                _ => false,
            },
        },
        TYPE_A == 1,
        TYPE_AAAA == 28,
{
}

/// The servers that can come to answer a query of the target, with whether they strip the client
/// subnet.
pub open spec fn stripping_servers(target: RouteTarget<'_>) -> Seq<bool> {
    match target {
        RouteTarget::Rule(rule, _) => seq![rule.strip_ecs],
        RouteTarget::Server(s, _) => seq![s.strip_ecs],
        RouteTarget::Race { primary, secondary } => seq![primary.strip_ecs, secondary.strip_ecs],
        RouteTarget::CidrTest { primary, secondary } => seq![
            primary.strip_ecs,
            secondary.strip_ecs,
        ],
    }
}

/// Clients share an answer only where no server of the target sees their subnets: a target with a
/// server that does not strip them does not strip, whatever the other one does.
pub proof fn law_one_forwarding_server_keeps_subnets_apart(target: RouteTarget<'_>)
    ensures
        target.strips_ecs() <==> forall|i: int|
            0 <= i < stripping_servers(target).len() ==> #[trigger] stripping_servers(target)[i],
{
    let all = stripping_servers(target);
    assert(all.len() > 0);
    match target {
        RouteTarget::Race { primary, secondary } => {
            assert(all[0] == primary.strip_ecs && all[1] == secondary.strip_ecs);
        },
        RouteTarget::CidrTest { primary, secondary } => {
            assert(all[0] == primary.strip_ecs && all[1] == secondary.strip_ecs);
        },
        RouteTarget::Rule(rule, _) => {
            assert(all[0] == rule.strip_ecs);
        },
        RouteTarget::Server(s, _) => {
            assert(all[0] == s.strip_ecs);
        },
    }
}

} // verus!
