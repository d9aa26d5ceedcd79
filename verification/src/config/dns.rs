//! Settings of the DNS resolver.
use vstd::prelude::*;

verus! {

/// Which addresses are asked for, and which are preferred.
#[derive(Clone, Copy, Debug, PartialEq, Eq, Structural)]
pub enum ResolveStrategy {
    PreferIpv4,
    PreferIpv6,
    Ipv4Only,
    Ipv6Only,
}

/// A type that a rule can select queries by.
#[derive(Clone, Copy, Debug, PartialEq, Eq, Structural)]
pub enum DnsQueryType {
    A,
    Aaaa,
    Cname,
    Mx,
    Txt,
    Ns,
    Ptr,
    Srv,
    Https,
}

/// A DNS server.
pub struct DnsServerConfig {
    pub tag: String,
    /// The outbound that its queries take.
    pub detour: Option<String>,
    /// The server that resolves its own name.
    pub domain_resolver: Option<String>,
    /// Whether it answers out of a range of made-up addresses.
    pub fakeip: bool,
}

/// A rule that leads queries to a server.
pub struct DnsRuleConfig {
    pub server: String,
    pub inbound: Vec<String>,
    pub query_type: Vec<DnsQueryType>,
    pub domain: Vec<String>,
    pub domain_suffix: Vec<String>,
    pub domain_keyword: Vec<String>,
    pub ruleset: Vec<String>,
    pub clash_mode: Option<String>,
    pub disable_cache: bool,
}

/// All settings of the resolver.
pub struct DnsConfig {
    pub servers: Vec<DnsServerConfig>,
    pub rules: Vec<DnsRuleConfig>,
    /// The server for queries that no rule selects.
    pub final_server: String,
    pub strategy: ResolveStrategy,
    pub disable_cache: bool,
    pub cache_capacity: usize,
    /// Seconds; zero stands for the default.
    pub cache_ttl_max: u32,
    /// Seconds of optimistic mode; zero switches it off.
    pub optimistic_timeout: u64,
    /// The server that resolves the names of proxy servers.
    pub proxy_domain_resolver: Option<String>,
}

} // verus!
