//! Parsed configuration, as plain values.

use crate::iprange::IpAddr;
use crate::ruleset::RuleSetSpec;
use crate::server::{location_eq, same_location};
use crate::text::str_eq;
use vstd::prelude::*;

verus! {

/// One entry of a rule's matcher list.
pub enum RuleMatcher {
    /// A domain pattern.
    Domain(String),
    /// Ruleset tags: the name must be in one of `includes` (when there are any) and in none of
    /// `excludes`.
    Tag { includes: Vec<String>, excludes: Vec<String> },
}

/// Ruleset tags tested against the addresses of an answer.
pub struct AnswerIpMatcher {
    pub includes: Vec<String>,
    pub excludes: Vec<String>,
}

impl AnswerIpMatcher {
    pub open spec fn names_no_tag(self) -> bool {
        self.includes@.len() == 0 && self.excludes@.len() == 0
    }

    pub fn is_empty(&self) -> (r: bool)
        ensures
            r == self.names_no_tag(),
    {
        self.includes.len() == 0 && self.excludes.len() == 0
    }
}

/// One record of a fixed answer.
#[derive(Clone, Copy, Debug, PartialEq, Eq, Structural)]
pub enum FixedAnswer {
    /// IPv4 address and time to live.
    A(u32, u32),
    /// IPv6 address and time to live.
    Aaaa(u128, u32),
}

/// An answer that is made locally: address records, or else a bare response code.
pub struct FixedAnswerSet {
    pub answers: Vec<FixedAnswer>,
    pub rcode: Option<u8>,
    pub rcode_ttl: u32,
}

impl Default for FixedAnswerSet {
    fn default() -> (r: Self)
        ensures
            r.answers@ == Seq::<FixedAnswer>::empty(),
            r.rcode is None,
            r.rcode_ttl == 0,
    {
        FixedAnswerSet { answers: Vec::new(), rcode: None, rcode_ttl: 0 }
    }
}

/// Cache settings of a rule before they are merged over the global ones.
#[derive(Clone, Copy, Debug, PartialEq, Eq, Structural)]
pub struct RuleCachePolicy {
    pub skip: bool,
    pub min_ttl: Option<u32>,
    pub max_ttl: Option<u32>,
}

/// Cache settings in force. A bound of zero is no bound.
#[derive(Clone, Copy, Debug, PartialEq, Eq, Structural)]
pub struct ResolvedCachePolicy {
    pub skip: bool,
    pub min_ttl: u32,
    pub max_ttl: u32,
    pub nodata_ttl: u32,
}

impl Default for ResolvedCachePolicy {
    fn default() -> (r: Self)
        ensures
            r == (ResolvedCachePolicy { skip: false, min_ttl: 0, max_ttl: 0, nodata_ttl: 0 }),
    {
        ResolvedCachePolicy { skip: false, min_ttl: 0, max_ttl: 0, nodata_ttl: 0 }
    }
}

/// Global cache settings.
#[derive(Clone, Copy, Debug, PartialEq, Eq, Structural)]
pub struct CacheConfig {
    pub capacity: usize,
    pub min_ttl: u32,
    pub max_ttl: u32,
}

/// A rule's settings where it has them, the global ones elsewhere.
pub open spec fn merged_policy(
    global: CacheConfig,
    rule: Option<RuleCachePolicy>,
) -> ResolvedCachePolicy {
    match rule {
        Some(p) => ResolvedCachePolicy {
            skip: p.skip,
            min_ttl: if p.min_ttl is Some {
                p.min_ttl->0
            } else {
                global.min_ttl
            },
            max_ttl: if p.max_ttl is Some {
                p.max_ttl->0
            } else {
                global.max_ttl
            },
            nodata_ttl: 0,
        },
        None => ResolvedCachePolicy {
            skip: false,
            min_ttl: global.min_ttl,
            max_ttl: global.max_ttl,
            nodata_ttl: 0,
        },
    }
}

impl CacheConfig {
    /// Merges a rule's cache settings over the global ones.
    pub fn resolve_policy(&self, rule: Option<RuleCachePolicy>) -> (r: ResolvedCachePolicy)
        ensures
            r == merged_policy(*self, rule),
    {
        match rule {
            Some(p) => ResolvedCachePolicy {
                skip: p.skip,
                min_ttl: match p.min_ttl {
                    Some(t) => t,
                    None => self.min_ttl,
                },
                max_ttl: match p.max_ttl {
                    Some(t) => t,
                    None => self.max_ttl,
                },
                nodata_ttl: 0,
            },
            None => ResolvedCachePolicy {
                skip: false,
                min_ttl: self.min_ttl,
                max_ttl: self.max_ttl,
                nodata_ttl: 0,
            },
        }
    }
}

/// A client subnet to put into queries.
#[derive(Clone, Copy, Debug, PartialEq, Eq, Structural)]
pub struct EcsSubnet {
    pub addr: IpAddr,
    pub prefix_len: u8,
}

/// How an upstream treats the client-subnet option of a query.
#[derive(Clone, Copy, Debug, PartialEq, Eq, Structural)]
pub enum EcsMode {
    /// Pass the option on as it is.
    Forward,
    /// Remove the option.
    Strip,
    /// Put in this subnet.
    Fixed(EcsSubnet),
}

/// Transport of an upstream endpoint.
#[derive(Clone, Copy, Debug, PartialEq, Eq, Structural)]
pub enum UpstreamProto {
    Udp,
    Tcp,
    Tls,
    Https,
    Quic,
    H3,
}

/// Port of a transport when none is written.
pub open spec fn usual_port(proto: UpstreamProto) -> u16 {
    match proto {
        UpstreamProto::Udp => 53,
        UpstreamProto::Tcp => 53,
        UpstreamProto::Tls => 853,
        UpstreamProto::Https => 443,
        UpstreamProto::Quic => 853,
        UpstreamProto::H3 => 443,
    }
}

impl UpstreamProto {
    /// Port of the transport when none is written.
    pub fn default_port(self) -> (r: u16)
        ensures
            r == usual_port(self),
    {
        match self {
            UpstreamProto::Udp => 53,
            UpstreamProto::Tcp => 53,
            UpstreamProto::Tls => 853,
            UpstreamProto::Https => 443,
            UpstreamProto::Quic => 853,
            UpstreamProto::H3 => 443,
        }
    }
}

/// One endpoint of an upstream server.
pub struct UpstreamEndpoint {
    pub proto: UpstreamProto,
    /// Text of the address without its port.
    pub ip: String,
    pub port: u16,
    /// Text of the address with its port.
    pub addr: String,
    pub server_name: Option<String>,
    pub path: Option<String>,
    pub no_sni: bool,
    pub ecs_mode: Option<EcsMode>,
    pub mark: Option<u32>,
}

/// A server as configured.
pub enum ServerSpec {
    Upstream(Vec<UpstreamEndpoint>),
    Fixed(FixedAnswerSet),
}

/// What a configured filter does.
pub enum RuleFilterActionSpec {
    Accept,
    Drop,
    /// Answer from the server of this name.
    Forward(String),
}

/// A filter as configured.
pub struct RuleFilterSpec {
    pub answer_ip: AnswerIpMatcher,
    pub response_type: Vec<u16>,
    pub response_rcode: Vec<u8>,
    pub response_qclass: Vec<u16>,
    pub action: RuleFilterActionSpec,
}

/// A rule as configured.
pub struct RuleSpec {
    /// Name of the server that the rule resolves through.
    pub server: String,
    pub matcher: Vec<RuleMatcher>,
    pub cache_policy: Option<RuleCachePolicy>,
    pub filters: Vec<RuleFilterSpec>,
}

/// Where queries go that no rule matches, as configured.
pub enum FallbackTarget {
    /// The last rule.
    LastRule,
    /// The server of this name.
    Server(String),
    /// Two servers, and the tags that decide between them.
    Dual { primary: String, secondary: String, answer_ip: AnswerIpMatcher },
}

pub struct FallbackConfig {
    pub target: FallbackTarget,
    /// An answer without addresses counts as the primary's.
    pub noip_as_primary_ip: bool,
}

/// Bounds of the verdict cache. A lifetime of zero is no bound.
#[derive(Clone, Copy, Debug, PartialEq, Eq, Structural)]
pub struct VerdictCacheConfig {
    pub capacity: usize,
    pub ttl_secs: u64,
}

/// One address to listen on.
pub struct BindEndpoint {
    pub addr: String,
    pub udp: bool,
    pub tcp: bool,
}

/// Network interfaces to listen on.
pub enum InterfaceFilter {
    All,
    Only(Vec<String>),
    Except(Vec<String>),
}

/// How much the receive path measures.
#[derive(Clone, Copy, Debug, PartialEq, Eq, Structural)]
pub enum UdpDiagnostics {
    Off,
    Basic,
    Full,
}

impl UdpDiagnostics {
    pub open spec fn level(self) -> int {
        match self {
            UdpDiagnostics::Off => 0,
            UdpDiagnostics::Basic => 1,
            UdpDiagnostics::Full => 2,
        }
    }

    /// Whether at least as much is measured as `other` says.
    pub fn at_least(self, other: UdpDiagnostics) -> (r: bool)
        ensures
            r == (self.level() >= other.level()),
    {
        match (self, other) {
            (_, UdpDiagnostics::Off) => true,
            (UdpDiagnostics::Off, _) => false,
            (_, UdpDiagnostics::Basic) => true,
            (UdpDiagnostics::Basic, UdpDiagnostics::Full) => false,
            (UdpDiagnostics::Full, UdpDiagnostics::Full) => true,
        }
    }
}

/// A parsed configuration.
pub struct Config {
    pub bind: Vec<BindEndpoint>,
    pub interface: InterfaceFilter,
    pub servers: Vec<(String, ServerSpec)>,
    pub rules: Vec<RuleSpec>,
    pub fallback: FallbackConfig,
    pub ruleset_specs: Vec<RuleSetSpec>,
    pub cache_size: usize,
    pub cache_min_ttl: u32,
    pub cache_max_ttl: u32,
    pub cache_persist_path: Option<Vec<u8>>,
    pub cache_persist_interval_ms: u64,
    pub worker_threads: usize,
    pub udp_buf_size: usize,
    pub uring_recv_buffers: usize,
    pub udp_diagnostics: UdpDiagnostics,
    pub udp_recv_batch: usize,
    pub max_inflight: usize,
    pub inflight_queue_ms: u64,
    pub tcp_max_connections: usize,
    pub timeout_us: u64,
    pub hedge_delay_us: Option<u64>,
    pub verdict_cache: Option<VerdictCacheConfig>,
    /// Settings of the address-set writer, in their written form.
    pub ipset: Option<String>,
    /// Settings of the dashboard, in their written form.
    pub dashboard: Option<String>,
}

impl Config {
    /// The global cache settings.
    pub fn cache_config(&self) -> (r: CacheConfig)
        ensures
            r == (CacheConfig {
                capacity: self.cache_size,
                min_ttl: self.cache_min_ttl,
                max_ttl: self.cache_max_ttl,
            }),
    {
        CacheConfig {
            capacity: self.cache_size,
            min_ttl: self.cache_min_ttl,
            max_ttl: self.cache_max_ttl,
        }
    }
}

// Comparison of settings.

pub open spec fn same_text(a: Option<String>, b: Option<String>) -> bool {
    match (a, b) {
        (Some(x), Some(y)) => x@ == y@,
        (None, None) => true,
        _ => false,
    }
}

pub fn text_eq(a: &Option<String>, b: &Option<String>) -> (r: bool)
    ensures
        r == same_text(*a, *b),
{
    match (a, b) {
        (Some(x), Some(y)) => str_eq(x.as_str(), y.as_str()),
        (None, None) => true,
        _ => false,
    }
}

pub open spec fn same_path(a: Option<Vec<u8>>, b: Option<Vec<u8>>) -> bool {
    match (a, b) {
        (Some(x), Some(y)) => same_location(x@, y@),
        (None, None) => true,
        _ => false,
    }
}

pub fn path_eq(a: &Option<Vec<u8>>, b: &Option<Vec<u8>>) -> (r: bool)
    ensures
        r == same_path(*a, *b),
{
    match (a, b) {
        (Some(x), Some(y)) => location_eq(x.as_slice(), y.as_slice()),
        (None, None) => true,
        _ => false,
    }
}

pub open spec fn same_endpoint(a: BindEndpoint, b: BindEndpoint) -> bool {
    a.addr@ == b.addr@ && a.udp == b.udp && a.tcp == b.tcp
}

pub open spec fn same_bind(a: Seq<BindEndpoint>, b: Seq<BindEndpoint>) -> bool {
    &&& a.len() == b.len()
    &&& forall|i: int| 0 <= i < a.len() ==> same_endpoint(#[trigger] a[i], b[i])
}

pub fn bind_eq(a: &Vec<BindEndpoint>, b: &Vec<BindEndpoint>) -> (r: bool)
    ensures
        r == same_bind(a@, b@),
{
    if a.len() != b.len() {
        return false;
    }
    let mut i: usize = 0;
    while i < a.len()
        invariant
            a@.len() == b@.len(),
            i <= a@.len(),
            forall|j: int| 0 <= j < i ==> same_endpoint(#[trigger] a@[j], b@[j]),
        decreases a@.len() - i,
    {
        if !(str_eq(a[i].addr.as_str(), b[i].addr.as_str()) && a[i].udp == b[i].udp && a[i].tcp
            == b[i].tcp) {
            assert(!same_endpoint(a@[i as int], b@[i as int]));
            return false;
        }
        i += 1;
    }
    true
}

pub open spec fn same_interface(a: InterfaceFilter, b: InterfaceFilter) -> bool {
    match (a, b) {
        (InterfaceFilter::All, InterfaceFilter::All) => true,
        (InterfaceFilter::Only(x), InterfaceFilter::Only(y)) => texts(x@) == texts(y@),
        (InterfaceFilter::Except(x), InterfaceFilter::Except(y)) => texts(x@) == texts(y@),
        _ => false,
    }
}

pub fn interface_eq(a: &InterfaceFilter, b: &InterfaceFilter) -> (r: bool)
    ensures
        r == same_interface(*a, *b),
{
    match (a, b) {
        (InterfaceFilter::All, InterfaceFilter::All) => true,
        (InterfaceFilter::Only(x), InterfaceFilter::Only(y)) => texts_eq(x, y),
        (InterfaceFilter::Except(x), InterfaceFilter::Except(y)) => texts_eq(x, y),
        _ => false,
    }
}

pub open spec fn same_spec(a: RuleSetSpec, b: RuleSetSpec) -> bool {
    a.tag@ == b.tag@ && a.format == b.format && a.behavior == b.behavior && same_location(
        a.path@,
        b.path@,
    )
}

pub open spec fn same_specs(a: Seq<RuleSetSpec>, b: Seq<RuleSetSpec>) -> bool {
    &&& a.len() == b.len()
    &&& forall|i: int| 0 <= i < a.len() ==> same_spec(#[trigger] a[i], b[i])
}

pub fn specs_eq(a: &Vec<RuleSetSpec>, b: &Vec<RuleSetSpec>) -> (r: bool)
    ensures
        r == same_specs(a@, b@),
{
    if a.len() != b.len() {
        return false;
    }
    let mut i: usize = 0;
    while i < a.len()
        invariant
            a@.len() == b@.len(),
            i <= a@.len(),
            forall|j: int| 0 <= j < i ==> same_spec(#[trigger] a@[j], b@[j]),
        decreases a@.len() - i,
    {
        if !(str_eq(a[i].tag.as_str(), b[i].tag.as_str()) && a[i].format == b[i].format
            && a[i].behavior == b[i].behavior && location_eq(
            a[i].path.as_slice(),
            b[i].path.as_slice(),
        )) {
            assert(!same_spec(a@[i as int], b@[i as int]));
            return false;
        }
        i += 1;
    }
    true
}

/// The texts that owned strings hold.
pub open spec fn texts(v: Seq<String>) -> Seq<Seq<char>> {
    v.map_values(|s: String| s@)
}

/// Two lists of texts are the same list.
pub fn texts_eq(a: &Vec<String>, b: &Vec<String>) -> (r: bool)
    ensures
        r == (texts(a@) == texts(b@)),
{
    if a.len() != b.len() {
        proof {
            assert(texts(a@).len() != texts(b@).len());
        }
        return false;
    }
    let mut i: usize = 0;
    while i < a.len()
        invariant
            a@.len() == b@.len(),
            i <= a@.len(),
            forall|j: int| 0 <= j < i ==> (#[trigger] a@[j])@ == b@[j]@,
        decreases a@.len() - i,
    {
        if !str_eq(a[i].as_str(), b[i].as_str()) {
            proof {
                assert(texts(a@)[i as int] != texts(b@)[i as int]);
            }
            return false;
        }
        i += 1;
    }
    proof {
        assert(texts(a@) =~= texts(b@));
    }
    true
}

/// A text is in a list.
pub fn has_text(list: &Vec<String>, text: &str) -> (r: bool)
    ensures
        r == texts(list@).contains(text@),
{
    let mut i: usize = 0;
    while i < list.len()
        invariant
            i <= list@.len(),
            forall|j: int| 0 <= j < i ==> texts(list@)[j] != text@,
        decreases list@.len() - i,
    {
        if str_eq(list[i].as_str(), text) {
            proof {
                assert(texts(list@)[i as int] == text@);
            }
            return true;
        }
        proof {
            assert(texts(list@)[i as int] == list@[i as int]@);
        }
        i += 1;
    }
    false
}

// Copies.

/// A copy of a list of texts.
pub fn copy_texts(list: &Vec<String>) -> (r: Vec<String>)
    ensures
        r@ == list@,
{
    let mut out: Vec<String> = Vec::new();
    let mut i: usize = 0;
    while i < list.len()
        invariant
            i <= list@.len(),
            out@ == list@.take(i as int),
        decreases list@.len() - i,
    {
        out.push(list[i].clone());
        i += 1;
        proof {
            assert(out@ =~= list@.take(i as int));
        }
    }
    proof {
        assert(out@ =~= list@);
    }
    out
}

impl AnswerIpMatcher {
    /// A copy of the matcher.
    pub fn copied(&self) -> (r: Self)
        ensures
            r.includes@ == self.includes@,
            r.excludes@ == self.excludes@,
    {
        AnswerIpMatcher { includes: copy_texts(&self.includes), excludes: copy_texts(&self.excludes) }
    }
}

pub open spec fn same_fixed(a: FixedAnswerSet, b: FixedAnswerSet) -> bool {
    a.answers@ == b.answers@ && a.rcode == b.rcode && a.rcode_ttl == b.rcode_ttl
}

impl FixedAnswerSet {
    /// A copy of the answer.
    pub fn copied(&self) -> (r: Self)
        ensures
            same_fixed(r, *self),
    {
        let mut answers: Vec<FixedAnswer> = Vec::new();
        let mut i: usize = 0;
        while i < self.answers.len()
            invariant
                i <= self.answers@.len(),
                answers@ == self.answers@.take(i as int),
            decreases self.answers@.len() - i,
        {
            answers.push(self.answers[i]);
            i += 1;
            proof {
                assert(answers@ =~= self.answers@.take(i as int));
            }
        }
        proof {
            assert(answers@ =~= self.answers@);
        }
        FixedAnswerSet { answers, rcode: self.rcode, rcode_ttl: self.rcode_ttl }
    }
}

pub open spec fn same_matcher(a: RuleMatcher, b: RuleMatcher) -> bool {
    match (a, b) {
        (RuleMatcher::Domain(p), RuleMatcher::Domain(q)) => p@ == q@,
        (
            RuleMatcher::Tag { includes: i1, excludes: e1 },
            RuleMatcher::Tag { includes: i2, excludes: e2 },
        ) => i1@ == i2@ && e1@ == e2@,
        _ => false,
    }
}

pub open spec fn same_matchers(a: Seq<RuleMatcher>, b: Seq<RuleMatcher>) -> bool {
    &&& a.len() == b.len()
    &&& forall|i: int| 0 <= i < a.len() ==> same_matcher(#[trigger] a[i], b[i])
}

/// A copy of a matcher list.
pub fn copy_matchers(list: &Vec<RuleMatcher>) -> (r: Vec<RuleMatcher>)
    ensures
        same_matchers(r@, list@),
{
    let mut out: Vec<RuleMatcher> = Vec::new();
    let mut i: usize = 0;
    while i < list.len()
        invariant
            i <= list@.len(),
            out@.len() == i,
            forall|j: int| 0 <= j < i ==> same_matcher(#[trigger] out@[j], list@[j]),
        decreases list@.len() - i,
    {
        let m = match &list[i] {
            RuleMatcher::Domain(p) => RuleMatcher::Domain(p.clone()),
            RuleMatcher::Tag { includes, excludes } => RuleMatcher::Tag {
                includes: copy_texts(includes),
                excludes: copy_texts(excludes),
            },
        };
        out.push(m);
        i += 1;
    }
    out
}

// What settings mean.

/// A rule's own cache settings come before the global ones, each for itself; a rule without any has
/// the global ones and is cached.
pub proof fn law_rule_settings_come_first(global: CacheConfig, p: RuleCachePolicy)
    ensures
        merged_policy(global, Some(p)).skip == p.skip,
        p.min_ttl matches Some(t) ==> merged_policy(global, Some(p)).min_ttl == t,
        p.min_ttl is None ==> merged_policy(global, Some(p)).min_ttl == global.min_ttl,
        p.max_ttl matches Some(t) ==> merged_policy(global, Some(p)).max_ttl == t,
        p.max_ttl is None ==> merged_policy(global, Some(p)).max_ttl == global.max_ttl,
        !merged_policy(global, None).skip,
        merged_policy(global, None).min_ttl == global.min_ttl,
        merged_policy(global, None).max_ttl == global.max_ttl,
        merged_policy(global, None).nodata_ttl == 0,
        merged_policy(global, Some(p)).nodata_ttl == 0,
{
}

/// The usual ports are those that the transports are registered under: plain queries on one, both
/// transports over encrypted streams and datagrams on another, and those over the web on its own.
pub proof fn law_usual_ports()
    ensures
        usual_port(UpstreamProto::Udp) == usual_port(UpstreamProto::Tcp),
        usual_port(UpstreamProto::Tls) == usual_port(UpstreamProto::Quic),
        usual_port(UpstreamProto::Https) == usual_port(UpstreamProto::H3),
        usual_port(UpstreamProto::Udp) == 53,
        usual_port(UpstreamProto::Tls) == 853,
        usual_port(UpstreamProto::Https) == 443,
{
}

/// Copies of matchers are the same matchers to everything that reads them.
pub proof fn law_same_matchers_agree(a: Seq<RuleMatcher>, b: Seq<RuleMatcher>, i: int)
    requires
        same_matchers(a, b),
        0 <= i < a.len(),
    ensures
        b.len() == a.len(),
        match a[i] {
            RuleMatcher::Domain(p) => b[i] matches RuleMatcher::Domain(q) && p@ == q@,
            RuleMatcher::Tag { includes, excludes } => b[i] matches RuleMatcher::Tag {
                includes: more,
                excludes: less,
            } && more@ == includes@ && less@ == excludes@,
        },
{
    assert(same_matcher(a[i], b[i]));
}

} // verus!
