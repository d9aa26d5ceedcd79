//! The DNS resolver: which server a query goes to, how the cache is asked, and
//! what becomes of the answers.
//!
//! The servers themselves are reached by the caller, which knows them by their
//! place in the order of setting up.
use vstd::prelude::*;
use crate::config::dns::{DnsConfig, DnsQueryType, DnsRuleConfig, DnsServerConfig, ResolveStrategy};
use crate::dns::cache;
use crate::dns::cache::DnsCache;
use crate::dns::order;
use crate::dns::order::OrderError;
use crate::text;

verus! {

/// Seconds for which a response is kept at most, unless the settings say
/// otherwise.
pub const DEFAULT_TTL_CAP: u32 = 3600;

/// What is wrong with the settings.
#[derive(Debug)]
pub enum DnsConfigError {
    /// Optimistic mode needs the cache.
    OptimisticWithoutCache,
    /// A server's resolver does not exist.
    MissingResolver { server: String, resolver: String },
    /// Two servers resolve each other's names.
    ResolverPair { server: String, resolver: String },
    /// Servers resolve each other's names in a circle.
    ResolverCycle,
    /// A server's outbound does not exist.
    UnknownDetour { server: String, detour: String },
    /// A rule's server does not exist.
    RuleServer { server: String },
    /// The server for all other queries does not exist.
    FinalServer { server: String },
    /// The server for the names of proxy servers does not exist.
    ProxyResolver { server: String },
}

/// What is wrong with the settings, by the texts involved.
#[verifier::ext_equal]
pub ghost enum Fault {
    OptimisticWithoutCache,
    MissingResolver { server: Seq<char>, resolver: Seq<char> },
    ResolverPair { server: Seq<char>, resolver: Seq<char> },
    ResolverCycle,
    UnknownDetour { server: Seq<char>, detour: Seq<char> },
    RuleServer { server: Seq<char> },
    FinalServer { server: Seq<char> },
    ProxyResolver { server: Seq<char> },
}

impl View for DnsConfigError {
    type V = Fault;

    open spec fn view(&self) -> Fault {
        match self {
            DnsConfigError::OptimisticWithoutCache => Fault::OptimisticWithoutCache,
            DnsConfigError::MissingResolver { server, resolver } => Fault::MissingResolver {
                server: server@,
                resolver: resolver@,
            },
            DnsConfigError::ResolverPair { server, resolver } => Fault::ResolverPair {
                server: server@,
                resolver: resolver@,
            },
            DnsConfigError::ResolverCycle => Fault::ResolverCycle,
            DnsConfigError::UnknownDetour { server, detour } => Fault::UnknownDetour {
                server: server@,
                detour: detour@,
            },
            DnsConfigError::RuleServer { server } => Fault::RuleServer { server: server@ },
            DnsConfigError::FinalServer { server } => Fault::FinalServer { server: server@ },
            DnsConfigError::ProxyResolver { server } => Fault::ProxyResolver { server: server@ },
        }
    }
}

/// The message of a fault.
pub open spec fn fault_text(f: Fault) -> Seq<char> {
    match f {
        Fault::OptimisticWithoutCache =>
            "`optimistic_timeout` cannot be used with `disable_cache: true`"@,
        Fault::MissingResolver { server, resolver } => "dns server '"@ + server
            + "' domain_resolver '"@ + resolver + "' not found"@,
        Fault::ResolverPair { server, resolver } => "dns server domain_resolver cycle between '"@
            + server + "' and '"@ + resolver + "'"@,
        Fault::ResolverCycle => "dns server domain_resolver has a cycle"@,
        Fault::UnknownDetour { server, detour } => "dns server '"@ + server
            + "' references unknown detour '"@ + detour + "'"@,
        Fault::RuleServer { server } => "dns server '"@ + server + "' not found"@,
        Fault::FinalServer { server } => "dns.final '"@ + server + "' not found"@,
        Fault::ProxyResolver { server } => "dns.proxy_domain_resolver '"@ + server
            + "' not found in dns.servers"@,
    }
}

fn five(a: &str, b: &str, c: &str, d: &str, e: &str) -> (r: String)
    ensures
        r@ == a@ + b@ + c@ + d@ + e@,
{
    let mut t: Vec<char> = text::chars_of(a);
    text::push_text(&mut t, b);
    text::push_text(&mut t, c);
    text::push_text(&mut t, d);
    text::push_text(&mut t, e);
    text::string_of(&t)
}

fn three(a: &str, b: &str, c: &str) -> (r: String)
    ensures
        r@ == a@ + b@ + c@,
{
    let mut t: Vec<char> = text::chars_of(a);
    text::push_text(&mut t, b);
    text::push_text(&mut t, c);
    text::string_of(&t)
}

impl DnsConfigError {
    /// The message.
    pub fn message(&self) -> (r: String)
        ensures
            r@ == fault_text(self@),
    {
        match self {
            DnsConfigError::OptimisticWithoutCache => {
                "`optimistic_timeout` cannot be used with `disable_cache: true`".to_owned()
            },
            DnsConfigError::MissingResolver { server, resolver } => five(
                "dns server '",
                server.as_str(),
                "' domain_resolver '",
                resolver.as_str(),
                "' not found",
            ),
            DnsConfigError::ResolverPair { server, resolver } => five(
                "dns server domain_resolver cycle between '",
                server.as_str(),
                "' and '",
                resolver.as_str(),
                "'",
            ),
            DnsConfigError::ResolverCycle => "dns server domain_resolver has a cycle".to_owned(),
            DnsConfigError::UnknownDetour { server, detour } => five(
                "dns server '",
                server.as_str(),
                "' references unknown detour '",
                detour.as_str(),
                "'",
            ),
            DnsConfigError::RuleServer { server } => three(
                "dns server '",
                server.as_str(),
                "' not found",
            ),
            DnsConfigError::FinalServer { server } => three(
                "dns.final '",
                server.as_str(),
                "' not found",
            ),
            DnsConfigError::ProxyResolver { server } => three(
                "dns.proxy_domain_resolver '",
                server.as_str(),
                "' not found in dns.servers",
            ),
        }
    }
}

// Servers

/// A server to be set up.
pub struct UpstreamPlan {
    pub tag: String,
    /// The outbound that its queries take.
    pub detour: Option<String>,
    /// The place of the server that resolves its name.
    pub resolver: Option<usize>,
    pub fakeip: bool,
}

/// The characters of an optional string.
pub open spec fn opt_view(s: Option<String>) -> Option<Seq<char>> {
    match s {
        Some(s) => Some(s@),
        None => None,
    }
}

/// The last of the first `n` servers with a tag, or -1.
pub open spec fn last_upstream(ups: Seq<UpstreamPlan>, n: int, tag: Seq<char>) -> int
    decreases n,
{
    if n <= 0 {
        -1
    } else if ups[n - 1].tag@ == tag {
        n - 1
    } else {
        last_upstream(ups, n - 1, tag)
    }
}

/// The place of the server that a tag stands for: the last one of that tag.
pub open spec fn upstream_of(ups: Seq<UpstreamPlan>, tag: Seq<char>) -> int {
    last_upstream(ups, ups.len() as int, tag)
}

/// Whether a server is the one that its tag stands for.
pub open spec fn is_live(ups: Seq<UpstreamPlan>, i: int) -> bool {
    upstream_of(ups, ups[i].tag@) == i
}

/// The order of setting up.
pub open spec fn setup_order(servers: Seq<DnsServerConfig>) -> Seq<int> {
    let deps = order::waits_for(servers);
    choose|o: Seq<int>| #[trigger] order::is_order(deps, o) && order::is_complete(deps, o)
}

/// Whether a text is among strings.
pub open spec fn has_text(v: Seq<String>, t: Seq<char>) -> bool {
    exists|i: int| 0 <= i < v.len() && (#[trigger] v[i])@ == t
}

/// Whether a server has the tag.
pub open spec fn has_server(servers: Seq<DnsServerConfig>, t: Seq<char>) -> bool {
    exists|i: int| 0 <= i < servers.len() && (#[trigger] servers[i]).tag@ == t
}

/// Whether a server names an outbound that does not exist. Without a list of
/// outbounds none is looked for.
pub open spec fn bad_detour(s: DnsServerConfig, outbounds: Option<Seq<String>>) -> bool {
    s.detour is Some && outbounds is Some && !has_text(outbounds->0, s.detour->0@)
}

/// Whether `up` is the plan of server `s`, after the servers before it.
pub open spec fn planned(
    up: UpstreamPlan,
    s: DnsServerConfig,
    outbounds: Option<Seq<String>>,
    before: Seq<UpstreamPlan>,
) -> bool {
    &&& up.tag@ == s.tag@
    &&& opt_view(up.detour) == (if outbounds is Some {
        opt_view(s.detour)
    } else {
        None
    })
    &&& match s.domain_resolver {
        None => up.resolver is None,
        Some(t) => up.resolver is Some && up.resolver->0 == upstream_of(before, t@),
    }
    &&& up.fakeip == s.fakeip
}

/// The first fault of the servers.
pub open spec fn server_fault(
    servers: Seq<DnsServerConfig>,
    outbounds: Option<Seq<String>>,
) -> Option<Fault> {
    let deps = order::waits_for(servers);
    match order::scan_error(deps, 0) {
        Some(OrderError::Missing { server }) => Some(
            Fault::MissingResolver {
                server: servers[server as int].tag@,
                resolver: servers[server as int].domain_resolver->0@,
            },
        ),
        Some(OrderError::Pair { server, resolver }) => Some(
            Fault::ResolverPair {
                server: servers[server as int].tag@,
                resolver: servers[resolver as int].tag@,
            },
        ),
        Some(OrderError::Cycle) => None,
        None => if exists|i: int| 0 <= i < deps.len() && !#[trigger] order::ends(deps, i) {
            Some(Fault::ResolverCycle)
        } else {
            detour_fault(servers, outbounds, setup_order(servers), 0)
        },
    }
}

/// The first fault of the outbounds that servers name, in the order of setting
/// up from place `k` on.
pub open spec fn detour_fault(
    servers: Seq<DnsServerConfig>,
    outbounds: Option<Seq<String>>,
    o: Seq<int>,
    k: int,
) -> Option<Fault>
    decreases o.len() - k,
{
    if k < 0 || k >= o.len() {
        None
    } else if bad_detour(servers[o[k]], outbounds) {
        Some(
            Fault::UnknownDetour {
                server: servers[o[k]].tag@,
                detour: servers[o[k]].detour->0@,
            },
        )
    } else {
        detour_fault(servers, outbounds, o, k + 1)
    }
}

/// The first rule from `i` on whose server does not exist.
pub open spec fn rule_fault(
    servers: Seq<DnsServerConfig>,
    rules: Seq<DnsRuleConfig>,
    i: int,
) -> Option<Fault>
    decreases rules.len() - i,
{
    if i < 0 || i >= rules.len() {
        None
    } else if !has_server(servers, rules[i].server@) {
        Some(Fault::RuleServer { server: rules[i].server@ })
    } else {
        rule_fault(servers, rules, i + 1)
    }
}

/// The first fault of the settings.
pub open spec fn config_fault(config: DnsConfig, outbounds: Option<Seq<String>>) -> Option<Fault> {
    if config.optimistic_timeout > 0 && config.disable_cache {
        Some(Fault::OptimisticWithoutCache)
    } else if server_fault(config.servers@, outbounds) is Some {
        server_fault(config.servers@, outbounds)
    } else if rule_fault(config.servers@, config.rules@, 0) is Some {
        rule_fault(config.servers@, config.rules@, 0)
    } else if !has_server(config.servers@, config.final_server@) {
        Some(Fault::FinalServer { server: config.final_server@ })
    } else if config.proxy_domain_resolver is Some && !has_server(
        config.servers@,
        config.proxy_domain_resolver->0@,
    ) {
        Some(Fault::ProxyResolver { server: config.proxy_domain_resolver->0@ })
    } else {
        None
    }
}

// Rules

/// The number of a query type.
pub open spec fn type_number(t: DnsQueryType) -> u16 {
    match t {
        DnsQueryType::A => 1,
        DnsQueryType::Aaaa => 28,
        DnsQueryType::Cname => 5,
        DnsQueryType::Mx => 15,
        DnsQueryType::Txt => 16,
        DnsQueryType::Ns => 2,
        DnsQueryType::Ptr => 12,
        DnsQueryType::Srv => 33,
        DnsQueryType::Https => 65,
    }
}

/// The number of a query type.
pub fn query_type_number(t: DnsQueryType) -> (r: u16)
    ensures
        r == type_number(t),
{
    match t {
        DnsQueryType::A => 1,
        DnsQueryType::Aaaa => 28,
        DnsQueryType::Cname => 5,
        DnsQueryType::Mx => 15,
        DnsQueryType::Txt => 16,
        DnsQueryType::Ns => 2,
        DnsQueryType::Ptr => 12,
        DnsQueryType::Srv => 33,
        DnsQueryType::Https => 65,
    }
}

/// A rule that is ready to be matched.
pub struct CompiledDnsRule {
    pub inbound_tags: Vec<String>,
    pub query_types: Vec<u16>,
    /// The text of the rule's own set of domains, if it has one.
    pub inline_rules: Option<String>,
    /// The sets of domains by tag that the rule uses.
    pub rulesets: Vec<String>,
    /// The place of its server.
    pub upstream: usize,
    pub disable_cache: bool,
    pub clash_mode_filter: Option<String>,
}

/// The lines of a rule's own set of domains.
pub open spec fn rule_lines(rule: DnsRuleConfig) -> Seq<Seq<char>> {
    rule.domain@.map_values(|d: String| "domain: "@ + d@) + rule.domain_suffix@.map_values(
        |d: String| "domain-suffix: "@ + d@,
    ) + rule.domain_keyword@.map_values(|d: String| "domain-keyword: "@ + d@)
}

/// Those of the texts that are among `known`, in order.
pub open spec fn known_among(v: Seq<String>, known: Seq<String>) -> Seq<Seq<char>>
    decreases v.len(),
{
    if v.len() == 0 {
        Seq::empty()
    } else {
        let rest = known_among(v.drop_last(), known);
        if has_text(known, v.last()@) {
            rest.push(v.last()@)
        } else {
            rest
        }
    }
}

/// The characters of each string.
pub open spec fn texts(v: Seq<String>) -> Seq<Seq<char>> {
    v.map_values(|s: String| s@)
}

/// Whether `c` is what a rule compiles to.
pub open spec fn compiled(
    c: CompiledDnsRule,
    rule: DnsRuleConfig,
    ups: Seq<UpstreamPlan>,
    rulesets: Seq<String>,
) -> bool {
    &&& texts(c.inbound_tags@) == texts(rule.inbound@)
    &&& c.query_types@ == rule.query_type@.map_values(|t: DnsQueryType| type_number(t))
    &&& opt_view(c.inline_rules) == (if rule_lines(rule).len() == 0 {
        None
    } else {
        Some(text::joined(rule_lines(rule), '\n'))
    })
    &&& texts(c.rulesets@) == known_among(rule.ruleset@, rulesets)
    &&& c.upstream == upstream_of(ups, rule.server@)
    &&& c.disable_cache == rule.disable_cache
    &&& opt_view(c.clash_mode_filter) == opt_view(rule.clash_mode)
}

fn text_among(v: &[String], t: &str) -> (r: bool)
    ensures
        r == has_text(v@, t@),
{
    let mut i: usize = 0;
    while i < v.len()
        invariant
            i <= v@.len(),
            forall|k: int| 0 <= k < i ==> (#[trigger] v@[k])@ != t@,
        decreases v@.len() - i,
    {
        if text::same_text(v[i].as_str(), t) {
            assert(v@[i as int]@ == t@);
            return true;
        }
        i = i + 1;
    }
    false
}

fn copy_texts(v: &Vec<String>) -> (r: Vec<String>)
    ensures
        texts(r@) == texts(v@),
{
    let mut r: Vec<String> = Vec::new();
    let mut i: usize = 0;
    while i < v.len()
        invariant
            i <= v@.len(),
            r@.len() == i,
            forall|k: int| 0 <= k < i ==> (#[trigger] r@[k])@ == v@[k]@,
        decreases v@.len() - i,
    {
        r.push(v[i].as_str().to_owned());
        i = i + 1;
    }
    assert(texts(r@) =~= texts(v@));
    r
}

fn copy_opt(s: &Option<String>) -> (r: Option<String>)
    ensures
        opt_view(r) == opt_view(*s),
{
    match s {
        Some(t) => Some(t.as_str().to_owned()),
        None => None,
    }
}

/// Appends lines with a word before each domain.
fn push_lines(out: &mut Vec<Vec<char>>, word: &str, domains: &Vec<String>)
    ensures
        final(out)@.map_values(|v: Vec<char>| v@) == old(out)@.map_values(|v: Vec<char>| v@)
            + domains@.map_values(|d: String| word@ + d@),
{
    let ghost all = domains@.map_values(|d: String| word@ + d@);
    let ghost start = out@.map_values(|v: Vec<char>| v@);
    let mut i: usize = 0;
    assert(start + all.take(0) =~= start);
    while i < domains.len()
        invariant
            i <= domains@.len(),
            all == domains@.map_values(|d: String| word@ + d@),
            out@.map_values(|v: Vec<char>| v@) == start + all.take(i as int),
        decreases domains@.len() - i,
    {
        let ghost before = out@.map_values(|v: Vec<char>| v@);
        let mut line: Vec<char> = text::chars_of(word);
        text::push_text(&mut line, domains[i].as_str());
        let ghost l = line@;
        out.push(line);
        i = i + 1;
        proof {
            assert(out@.map_values(|v: Vec<char>| v@) =~= before.push(l));
            assert(all.take(i as int) =~= all.take(i - 1).push(l));
            assert(start + all.take(i as int) =~= (start + all.take(i - 1)).push(l));
        }
    }
    assert(all.take(i as int) =~= all);
}

/// The place of the server that a tag stands for.
fn find_upstream(ups: &Vec<UpstreamPlan>, tag: &str) -> (r: Option<usize>)
    ensures
        match r {
            Some(i) => i == upstream_of(ups@, tag@) && i < ups@.len() && ups@[i as int].tag@ == tag@,
            None => upstream_of(ups@, tag@) == -1,
        },
{
    let mut n: usize = ups.len();
    while n > 0
        invariant
            n <= ups@.len(),
            upstream_of(ups@, tag@) == last_upstream(ups@, n as int, tag@),
        decreases n,
    {
        if text::same_text(ups[n - 1].tag.as_str(), tag) {
            return Some(n - 1);
        }
        n = n - 1;
    }
    None
}

impl CompiledDnsRule {
    /// Prepares a rule. There is nothing to prepare if its server does not
    /// exist.
    pub fn compile(rule: &DnsRuleConfig, ups: &Vec<UpstreamPlan>, rulesets: &[String]) -> (r: Result<
        CompiledDnsRule,
        DnsConfigError,
    >)
        ensures
            match r {
                Ok(c) => compiled(c, *rule, ups@, rulesets@) && c.upstream < ups@.len(),
                Err(e) => upstream_of(ups@, rule.server@) == -1 && e@ == (Fault::RuleServer {
                    server: rule.server@,
                }),
            },
    {
        let upstream: usize = match find_upstream(ups, rule.server.as_str()) {
            Some(i) => i,
            None => {
                return Err(DnsConfigError::RuleServer { server: rule.server.as_str().to_owned() });
            },
        };
        let mut lines: Vec<Vec<char>> = Vec::new();
        assert(lines@.map_values(|v: Vec<char>| v@) =~= Seq::<Seq<char>>::empty());
        push_lines(&mut lines, "domain: ", &rule.domain);
        push_lines(&mut lines, "domain-suffix: ", &rule.domain_suffix);
        push_lines(&mut lines, "domain-keyword: ", &rule.domain_keyword);
        assert(lines@.map_values(|v: Vec<char>| v@) =~= rule_lines(*rule));
        let inline_rules: Option<String> = if lines.len() == 0 {
            None
        } else {
            Some(text::string_of(&text::join(&lines, '\n')))
        };
        let mut known: Vec<String> = Vec::new();
        let mut i: usize = 0;
        assert(texts(known@) =~= known_among(rule.ruleset@.take(0), rulesets@));
        while i < rule.ruleset.len()
            invariant
                i <= rule.ruleset@.len(),
                texts(known@) == known_among(rule.ruleset@.take(i as int), rulesets@),
            decreases rule.ruleset@.len() - i,
        {
            let ghost before = known@;
            assert(rule.ruleset@.take(i + 1).drop_last() =~= rule.ruleset@.take(i as int));
            if text_among(rulesets, rule.ruleset[i].as_str()) {
                known.push(rule.ruleset[i].as_str().to_owned());
                assert(texts(known@) =~= texts(before).push(rule.ruleset@[i as int]@));
            }
            i = i + 1;
        }
        assert(rule.ruleset@.take(i as int) =~= rule.ruleset@);
        let mut query_types: Vec<u16> = Vec::new();
        let mut k: usize = 0;
        while k < rule.query_type.len()
            invariant
                k <= rule.query_type@.len(),
                query_types@.len() == k,
                forall|j: int| 0 <= j < k ==> query_types@[j] == type_number(rule.query_type@[j]),
            decreases rule.query_type@.len() - k,
        {
            query_types.push(query_type_number(rule.query_type[k]));
            k = k + 1;
        }
        assert(query_types@ =~= rule.query_type@.map_values(|t: DnsQueryType| type_number(t)));
        Ok(
            CompiledDnsRule {
                inbound_tags: copy_texts(&rule.inbound),
                query_types,
                inline_rules,
                rulesets: known,
                upstream,
                disable_cache: rule.disable_cache,
                clash_mode_filter: copy_opt(&rule.clash_mode),
            },
        )
    }
}

// Setting up

/// Whether `ups` are the servers in the order of setting up.
pub open spec fn built(
    ups: Seq<UpstreamPlan>,
    servers: Seq<DnsServerConfig>,
    outbounds: Option<Seq<String>>,
) -> bool {
    &&& ups.len() == servers.len()
    &&& forall|k: int|
        0 <= k < ups.len() ==> planned(
            #[trigger] ups[k],
            servers[setup_order(servers)[k]],
            outbounds,
            ups.take(k),
        )
}

/// The outbounds as a sequence.
pub open spec fn list_view(v: Option<&[String]>) -> Option<Seq<String>> {
    match v {
        Some(s) => Some(s@),
        None => None,
    }
}

pub(crate) proof fn lemma_last_upstream(ups: Seq<UpstreamPlan>, n: int, tag: Seq<char>)
    requires
        0 <= n <= ups.len(),
    ensures
        -1 <= last_upstream(ups, n, tag) < n,
        last_upstream(ups, n, tag) >= 0 ==> ups[last_upstream(ups, n, tag)].tag@ == tag,
        last_upstream(ups, n, tag) == -1 ==> forall|i: int|
            0 <= i < n ==> (#[trigger] ups[i]).tag@ != tag,
    decreases n,
{
    if n > 0 {
        lemma_last_upstream(ups, n - 1, tag);
    }
}

proof fn lemma_last_with_tag(servers: Seq<DnsServerConfig>, n: int, tag: Seq<char>)
    requires
        0 <= n <= servers.len(),
    ensures
        -1 <= order::last_with_tag(servers, n, tag) < n,
        order::last_with_tag(servers, n, tag) >= 0 ==> servers[order::last_with_tag(
            servers,
            n,
            tag,
        )].tag@ == tag,
    decreases n,
{
    if n > 0 {
        lemma_last_with_tag(servers, n - 1, tag);
    }
}

proof fn lemma_setup_order(servers: Seq<DnsServerConfig>, o: Seq<int>)
    requires
        order::scan_error(order::waits_for(servers), 0) is None,
        forall|i: int|
            0 <= i < servers.len() ==> #[trigger] order::ends(order::waits_for(servers), i),
        order::is_order(order::waits_for(servers), o),
        order::is_complete(order::waits_for(servers), o),
    ensures
        o == setup_order(servers),
{
    let deps = order::waits_for(servers);
    assert forall|i: int| 0 <= i < deps.len() implies (#[trigger] deps[i] matches Some(j) ==> 0
        <= j < deps.len()) by {
        lemma_scan_clear(deps, 0, i);
        if let Some(t) = servers[i].domain_resolver {
            lemma_last_with_tag(servers, servers.len() as int, t@);
        }
    }
    order::law_order_is_unique(deps, o, setup_order(servers));
}

proof fn lemma_scan_clear(deps: Seq<Option<int>>, from: int, i: int)
    requires
        0 <= from <= i < deps.len(),
        order::scan_error(deps, from) is None,
    ensures
        deps[i] matches Some(j) ==> j >= 0,
    decreases i - from,
{
    if from < i {
        lemma_scan_clear(deps, from + 1, i);
    }
}

proof fn lemma_no_detour_fault(
    servers: Seq<DnsServerConfig>,
    outbounds: Option<Seq<String>>,
    o: Seq<int>,
    k: int,
    end: int,
)
    requires
        0 <= k <= end <= o.len(),
        forall|i: int| k <= i < end ==> !bad_detour(servers[#[trigger] o[i]], outbounds),
    ensures
        detour_fault(servers, outbounds, o, k) == detour_fault(servers, outbounds, o, end),
    decreases end - k,
{
    if k < end {
        assert(!bad_detour(servers[o[k]], outbounds));
        lemma_no_detour_fault(servers, outbounds, o, k + 1, end);
    }
}

/// A tag stands for a server that is set up exactly if a server has it.
proof fn lemma_tags(
    ups: Seq<UpstreamPlan>,
    servers: Seq<DnsServerConfig>,
    outbounds: Option<Seq<String>>,
    tag: Seq<char>,
)
    requires
        built(ups, servers, outbounds),
        order::is_complete(order::waits_for(servers), setup_order(servers)),
        forall|x: int| 0 <= x < servers.len() ==> #[trigger] setup_order(servers).contains(x),
    ensures
        has_server(servers, tag) <==> upstream_of(ups, tag) >= 0,
{
    let o = setup_order(servers);
    lemma_last_upstream(ups, ups.len() as int, tag);
    if has_server(servers, tag) {
        let i = choose|i: int| 0 <= i < servers.len() && (#[trigger] servers[i]).tag@ == tag;
        assert(o.contains(i));
        let k = choose|k: int| 0 <= k < o.len() && o[k] == i;
        assert(planned(ups[k], servers[o[k]], outbounds, ups.take(k)));
        assert(ups[k].tag@ == tag);
    }
    if upstream_of(ups, tag) >= 0 {
        let k = upstream_of(ups, tag);
        assert(planned(ups[k], servers[o[k]], outbounds, ups.take(k)));
        assert(servers[o[k]].tag@ == tag);
    }
}

/// The servers in the order of setting up, each with the places of the servers
/// that it needs.
pub fn plan_upstreams(servers: &[DnsServerConfig], outbounds: Option<&[String]>) -> (r: Result<
    Vec<UpstreamPlan>,
    DnsConfigError,
>)
    ensures
        match r {
            Ok(ups) => {
                &&& server_fault(servers@, list_view(outbounds)) is None
                &&& built(ups@, servers@, list_view(outbounds))
                &&& forall|tag: Seq<char>|
                    has_server(servers@, tag) <==> #[trigger] upstream_of(ups@, tag) >= 0
            },
            Err(e) => server_fault(servers@, list_view(outbounds)) == Some(e@),
        },
{
    let ghost deps = order::waits_for(servers@);
    let ghost obs = list_view(outbounds);
    let count: usize = servers.len();
    assert(count == servers@.len());
    let ord: Vec<usize> = match order::toposort_servers(servers) {
        Ok(o) => o,
        Err(e) => {
            proof {
                assert(deps.len() == servers@.len());
                if e is Missing || e is Pair {
                    lemma_scan_found(servers@, 0);
                }
            }
            return Err(
                match e {
                    OrderError::Missing { server } => DnsConfigError::MissingResolver {
                        server: servers[server].tag.as_str().to_owned(),
                        resolver: match &servers[server].domain_resolver {
                            Some(t) => t.as_str().to_owned(),
                            None => String::new(),
                        },
                    },
                    OrderError::Pair { server, resolver } => DnsConfigError::ResolverPair {
                        server: servers[server].tag.as_str().to_owned(),
                        resolver: servers[resolver].tag.as_str().to_owned(),
                    },
                    OrderError::Cycle => DnsConfigError::ResolverCycle,
                },
            );
        },
    };
    let ghost o = order::ints(ord@);
    proof {
        lemma_setup_order(servers@, o);
    }
    let mut ups: Vec<UpstreamPlan> = Vec::new();
    let mut k: usize = 0;
    while k < ord.len()
        invariant
            k <= ord@.len(),
            deps == order::waits_for(servers@),
            obs == list_view(outbounds),
            o == order::ints(ord@),
            o == setup_order(servers@),
            order::scan_error(deps, 0) is None,
            forall|i: int| 0 <= i < deps.len() ==> #[trigger] order::ends(deps, i),
            order::is_complete(deps, o),
            order::respects(deps, o),
            ups@.len() == k,
            forall|j: int|
                0 <= j < k ==> planned(
                    #[trigger] ups@[j],
                    servers@[setup_order(servers@)[j]],
                    obs,
                    ups@.take(j),
                ),
            forall|j: int| 0 <= j < k ==> !bad_detour(servers@[#[trigger] o[j]], obs),
        decreases ord@.len() - k,
    {
        assert(0 <= o[k as int] < deps.len());
        let s: &DnsServerConfig = &servers[ord[k]];
        let detour: Option<String> = match (&s.detour, outbounds) {
            (Some(t), Some(list)) => {
                if !text_among(list, t.as_str()) {
                    proof {
                        lemma_no_detour_fault(servers@, obs, o, 0, k as int);
                    }
                    return Err(
                        DnsConfigError::UnknownDetour {
                            server: s.tag.as_str().to_owned(),
                            detour: t.as_str().to_owned(),
                        },
                    );
                }
                Some(t.as_str().to_owned())
            },
            _ => None,
        };
        let resolver: Option<usize> = match &s.domain_resolver {
            Some(t) => {
                let found = find_upstream(&ups, t.as_str());
                proof {
                    lemma_resolver_is_up(servers@, obs, ups@, k as int, t@);
                }
                found
            },
            None => None,
        };
        let ghost before = ups@;
        ups.push(UpstreamPlan { tag: s.tag.as_str().to_owned(), detour, resolver, fakeip: s.fakeip });
        k = k + 1;
        proof {
            assert forall|j: int| 0 <= j < k implies planned(
                #[trigger] ups@[j],
                servers@[setup_order(servers@)[j]],
                obs,
                ups@.take(j),
            ) by {
                assert(ups@.take(j) =~= before.take(j));
                if j < k - 1 {
                    assert(ups@[j] == before[j]);
                } else {
                    assert(before.take(j) =~= before);
                }
            }
            assert forall|j: int| 0 <= j < k implies !bad_detour(servers@[#[trigger] o[j]], obs) by {
                if j == k - 1 {
                    assert(o[j] == ord@[j] as int);
                }
            }
        }
    }
    proof {
        lemma_no_detour_fault(servers@, obs, o, 0, o.len() as int);
        assert forall|x: int| 0 <= x < servers@.len() implies #[trigger] setup_order(
            servers@,
        ).contains(x) by {
            assert(order::ints(ord@).contains(x));
        }
        assert forall|tag: Seq<char>|
            has_server(servers@, tag) <==> #[trigger] upstream_of(ups@, tag) >= 0 by {
            lemma_tags(ups@, servers@, obs, tag);
        }
    }
    Ok(ups)
}

/// A scan that ends early ends at a server.
proof fn lemma_scan_found(servers: Seq<DnsServerConfig>, i: int)
    requires
        0 <= i,
        servers.len() <= usize::MAX,
    ensures
        match order::scan_error(order::waits_for(servers), i) {
            Some(OrderError::Missing { server }) => server < servers.len()
                && servers[server as int].domain_resolver is Some,
            Some(OrderError::Pair { server, resolver }) => server < servers.len() && resolver
                < servers.len(),
            Some(OrderError::Cycle) => false,
            None => true,
        },
    decreases servers.len() - i,
{
    if i < servers.len() {
        lemma_scan_found(servers, i + 1);
        if let Some(t) = servers[i].domain_resolver {
            lemma_last_with_tag(servers, servers.len() as int, t@);
        }
    }
}

/// The server that resolves another's name is set up before it.
proof fn lemma_resolver_is_up(
    servers: Seq<DnsServerConfig>,
    outbounds: Option<Seq<String>>,
    ups: Seq<UpstreamPlan>,
    k: int,
    tag: Seq<char>,
)
    requires
        0 <= k < setup_order(servers).len(),
        order::scan_error(order::waits_for(servers), 0) is None,
        order::is_complete(order::waits_for(servers), setup_order(servers)),
        order::respects(order::waits_for(servers), setup_order(servers)),
        ups.len() == k,
        forall|j: int|
            0 <= j < k ==> planned(
                #[trigger] ups[j],
                servers[setup_order(servers)[j]],
                outbounds,
                ups.take(j),
            ),
        servers[setup_order(servers)[k]].domain_resolver matches Some(t) && t@ == tag,
    ensures
        upstream_of(ups, tag) >= 0,
{
    let deps = order::waits_for(servers);
    let o = setup_order(servers);
    let i = o[k];
    assert(0 <= i < deps.len());
    lemma_scan_clear(deps, 0, i);
    let j = order::last_with_tag(servers, servers.len() as int, tag);
    assert(deps[i] == Some(j));
    lemma_last_with_tag(servers, servers.len() as int, tag);
    assert(o.take(k).contains(j));
    let m = choose|m: int| 0 <= m < k && o.take(k)[m] == j;
    assert(o[m] == j);
    assert(planned(ups[m], servers[o[m]], outbounds, ups.take(m)));
    lemma_last_upstream(ups, k, tag);
}

/// The resolver.
pub struct DnsResolver {
    pub rules: Vec<CompiledDnsRule>,
    /// The servers in the order of setting up.
    pub upstreams: Vec<UpstreamPlan>,
    /// The place of the server for queries that no rule selects.
    pub default: usize,
    pub cache: Option<DnsCache>,
    pub strategy: ResolveStrategy,
    /// The server that resolves the names of proxy servers.
    pub proxy_domain_resolver: Option<String>,
}

/// Whether the cache, if there is to be one, is new and as the settings say.
pub open spec fn cache_set_up(c: Option<DnsCache>, config: DnsConfig, store_dns: bool) -> bool {
    if config.disable_cache {
        c is None
    } else {
        &&& c is Some
        &&& c->0.wf()
        &&& c->0.items().len() == 0
        &&& c->0.inflight() == Set::<cache::KeyView>::empty()
        &&& c->0.capacity() == (if config.cache_capacity < 1 {
            1
        } else {
            config.cache_capacity as nat
        })
        &&& c->0.ttl_cap() == (if config.cache_ttl_max > 0 {
            config.cache_ttl_max
        } else {
            DEFAULT_TTL_CAP
        })
        &&& c->0.optimistic_ttl() == (if config.optimistic_timeout > 0 {
            Some(config.optimistic_timeout)
        } else {
            None
        })
        &&& c->0.persistent() == store_dns
    }
}

/// Whether `r` is the resolver that the settings describe.
pub open spec fn set_up(
    r: DnsResolver,
    config: DnsConfig,
    rulesets: Seq<String>,
    outbounds: Option<Seq<String>>,
    store_dns: bool,
) -> bool {
    &&& built(r.upstreams@, config.servers@, outbounds)
    &&& r.rules@.len() == config.rules@.len()
    &&& forall|i: int|
        0 <= i < r.rules@.len() ==> compiled(
            #[trigger] r.rules@[i],
            config.rules@[i],
            r.upstreams@,
            rulesets,
        )
    &&& r.default == upstream_of(r.upstreams@, config.final_server@)
    &&& cache_set_up(r.cache, config, store_dns)
    &&& r.strategy == config.strategy
    &&& opt_view(r.proxy_domain_resolver) == opt_view(config.proxy_domain_resolver)
}

proof fn lemma_no_rule_fault(
    servers: Seq<DnsServerConfig>,
    rules: Seq<DnsRuleConfig>,
    i: int,
    end: int,
)
    requires
        0 <= i <= end <= rules.len(),
        forall|k: int| i <= k < end ==> has_server(servers, (#[trigger] rules[k]).server@),
    ensures
        rule_fault(servers, rules, i) == rule_fault(servers, rules, end),
    decreases end - i,
{
    if i < end {
        assert(has_server(servers, rules[i].server@));
        lemma_no_rule_fault(servers, rules, i + 1, end);
    }
}

impl DnsResolver {
    /// Every place names a server, and the cache is sound.
    pub open spec fn wf(self) -> bool {
        &&& self.default < self.upstreams@.len()
        &&& forall|i: int|
            0 <= i < self.rules@.len() ==> (#[trigger] self.rules@[i]).upstream
                < self.upstreams@.len()
        &&& self.cache matches Some(c) ==> c.wf()
        &&& self.proxy_domain_resolver matches Some(t) ==> upstream_of(self.upstreams@, t@) >= 0
    }

    /// A resolver without sets of rules and without outbounds.
    pub fn from_config(config: &DnsConfig) -> (r: Result<Self, DnsConfigError>)
        requires
            config.disable_cache || config.cache_capacity <= usize::MAX / 256,
        ensures
            match r {
                Ok(d) => d.wf() && config_fault(*config, None) is None && set_up(
                    d,
                    *config,
                    Seq::empty(),
                    None,
                    false,
                ),
                Err(e) => config_fault(*config, None) == Some(e@),
            },
    {
        let none: Vec<String> = Vec::new();
        assert(none@ =~= Seq::<String>::empty());
        DnsResolver::from_config_full(config, none.as_slice(), None, false)
    }

    /// A resolver without outbounds.
    pub fn from_config_with_rulesets(config: &DnsConfig, rulesets: &[String]) -> (r: Result<
        Self,
        DnsConfigError,
    >)
        requires
            config.disable_cache || config.cache_capacity <= usize::MAX / 256,
        ensures
            match r {
                Ok(d) => d.wf() && config_fault(*config, None) is None && set_up(
                    d,
                    *config,
                    rulesets@,
                    None,
                    false,
                ),
                Err(e) => config_fault(*config, None) == Some(e@),
            },
    {
        DnsResolver::from_config_full(config, rulesets, None, false)
    }

    /// A resolver that keeps nothing on disk.
    pub fn from_config_with_rulesets_and_outbounds(
        config: &DnsConfig,
        rulesets: &[String],
        outbounds: Option<&[String]>,
    ) -> (r: Result<Self, DnsConfigError>)
        requires
            config.disable_cache || config.cache_capacity <= usize::MAX / 256,
        ensures
            match r {
                Ok(d) => d.wf() && config_fault(*config, list_view(outbounds)) is None && set_up(
                    d,
                    *config,
                    rulesets@,
                    list_view(outbounds),
                    false,
                ),
                Err(e) => config_fault(*config, list_view(outbounds)) == Some(e@),
            },
    {
        DnsResolver::from_config_full(config, rulesets, outbounds, false)
    }

    /// The resolver that the settings describe. `rulesets` are the sets of
    /// rules that are loaded, `outbounds` those that a server may name, and
    /// `store_dns` tells whether responses are also kept on disk.
    pub fn from_config_full(
        config: &DnsConfig,
        rulesets: &[String],
        outbounds: Option<&[String]>,
        store_dns: bool,
    ) -> (r: Result<Self, DnsConfigError>)
        requires
            config.disable_cache || config.cache_capacity <= usize::MAX / 256,
        ensures
            match r {
                Ok(d) => d.wf() && config_fault(*config, list_view(outbounds)) is None && set_up(
                    d,
                    *config,
                    rulesets@,
                    list_view(outbounds),
                    store_dns,
                ),
                Err(e) => config_fault(*config, list_view(outbounds)) == Some(e@),
            },
    {
        if config.optimistic_timeout > 0 && config.disable_cache {
            return Err(DnsConfigError::OptimisticWithoutCache);
        }
        let upstreams: Vec<UpstreamPlan> = match plan_upstreams(
            config.servers.as_slice(),
            outbounds,
        ) {
            Ok(u) => u,
            Err(e) => {
                return Err(e);
            },
        };
        let mut rules: Vec<CompiledDnsRule> = Vec::new();
        let mut i: usize = 0;
        while i < config.rules.len()
            invariant
                i <= config.rules@.len(),
                !(config.optimistic_timeout > 0 && config.disable_cache),
                server_fault(config.servers@, list_view(outbounds)) is None,
                forall|tag: Seq<char>|
                    has_server(config.servers@, tag) <==> #[trigger] upstream_of(upstreams@, tag)
                        >= 0,
                rules@.len() == i,
                forall|k: int|
                    0 <= k < i ==> compiled(
                        #[trigger] rules@[k],
                        config.rules@[k],
                        upstreams@,
                        rulesets@,
                    ) && rules@[k].upstream < upstreams@.len(),
                forall|k: int|
                    0 <= k < i ==> has_server(config.servers@, (#[trigger] config.rules@[k]).server@),
            decreases config.rules@.len() - i,
        {
            match CompiledDnsRule::compile(&config.rules[i], &upstreams, rulesets) {
                Ok(c) => {
                    assert(upstream_of(upstreams@, config.rules@[i as int].server@) >= 0);
                    rules.push(c);
                },
                Err(e) => {
                    proof {
                        lemma_no_rule_fault(config.servers@, config.rules@, 0, i as int);
                        assert(upstream_of(upstreams@, config.rules@[i as int].server@) < 0);
                    }
                    return Err(e);
                },
            }
            i = i + 1;
        }
        proof {
            lemma_no_rule_fault(config.servers@, config.rules@, 0, i as int);
        }
        let default: usize = match find_upstream(&upstreams, config.final_server.as_str()) {
            Some(d) => d,
            None => {
                return Err(
                    DnsConfigError::FinalServer {
                        server: config.final_server.as_str().to_owned(),
                    },
                );
            },
        };
        assert(upstream_of(upstreams@, config.final_server@) >= 0);
        if let Some(t) = &config.proxy_domain_resolver {
            let found = find_upstream(&upstreams, t.as_str());
            if found.is_none() {
                assert(upstream_of(upstreams@, t@) < 0);
                return Err(DnsConfigError::ProxyResolver { server: t.as_str().to_owned() });
            }
            assert(upstream_of(upstreams@, t@) >= 0);
        }
        let cache: Option<DnsCache> = if config.disable_cache {
            None
        } else {
            let ttl_cap: u32 = if config.cache_ttl_max > 0 {
                config.cache_ttl_max
            } else {
                DEFAULT_TTL_CAP
            };
            let optimistic_ttl: Option<u64> = if config.optimistic_timeout > 0 {
                Some(config.optimistic_timeout)
            } else {
                None
            };
            Some(
                DnsCache::with_options(config.cache_capacity, ttl_cap, optimistic_ttl, store_dns),
            )
        };
        Ok(
            DnsResolver {
                rules,
                upstreams,
                default,
                cache,
                strategy: config.strategy,
                proxy_domain_resolver: copy_opt(&config.proxy_domain_resolver),
            },
        )
    }
}

// Choosing a server

/// Whether a rule selects a query; `hit` tells whether the name is in one of
/// the rule's sets of domains.
pub open spec fn selects(
    c: CompiledDnsRule,
    inbound_tag: Seq<char>,
    qtype: u16,
    mode: Seq<char>,
    hit: bool,
) -> bool {
    &&& c.clash_mode_filter matches Some(m) ==> text::lowercase(m@) == text::lowercase(mode)
    &&& c.inbound_tags@.len() == 0 || has_text(c.inbound_tags@, inbound_tag)
    &&& c.query_types@.len() == 0 || c.query_types@.contains(qtype)
    &&& (c.inline_rules is None && c.rulesets@.len() == 0) || hit
}

/// The first rule from `i` on that selects a query, or the number of rules.
pub open spec fn first_rule(
    rules: Seq<CompiledDnsRule>,
    hits: Seq<bool>,
    inbound_tag: Seq<char>,
    qtype: u16,
    mode: Seq<char>,
    i: int,
) -> int
    decreases rules.len() - i,
{
    if i < 0 || i >= rules.len() {
        rules.len() as int
    } else if selects(rules[i], inbound_tag, qtype, mode, hits[i]) {
        i
    } else {
        first_rule(rules, hits, inbound_tag, qtype, mode, i + 1)
    }
}

/// The first rule from `i` on that selects a lookup of the program itself and
/// leads to a server with real addresses, or the number of rules.
pub open spec fn first_real_rule(
    rules: Seq<CompiledDnsRule>,
    ups: Seq<UpstreamPlan>,
    hits: Seq<bool>,
    mode: Seq<char>,
    i: int,
) -> int
    decreases rules.len() - i,
{
    if i < 0 || i >= rules.len() {
        rules.len() as int
    } else if selects(rules[i], Seq::empty(), 1, mode, hits[i])
        && !ups[rules[i].upstream as int].fakeip {
        i
    } else {
        first_real_rule(rules, ups, hits, mode, i + 1)
    }
}

/// The first server from `i` on that its tag stands for and that has real
/// addresses, or the number of servers.
pub open spec fn first_real(ups: Seq<UpstreamPlan>, i: int) -> int
    decreases ups.len() - i,
{
    if i < 0 || i >= ups.len() {
        ups.len() as int
    } else if is_live(ups, i) && !ups[i].fakeip {
        i
    } else {
        first_real(ups, i + 1)
    }
}

/// What a store of made-up addresses knows of an address.
pub enum StoreAnswer {
    /// It is not in the store's range.
    OutOfRange,
    /// It stands for a name.
    Known(String),
    /// It is in the range but stands for no name.
    Unknown,
}

/// Whether an address is made up, and for which name.
pub enum FakeIpLookup {
    /// It is in no range of made-up addresses.
    NotFakeIp,
    /// It stands for a name.
    Found(String),
    /// It is made up but stands for no name.
    Missing,
}

/// The first server from `i` on that its tag stands for and whose range holds
/// the address, or the number of servers.
pub open spec fn first_in_range(ups: Seq<UpstreamPlan>, answers: Seq<StoreAnswer>, i: int) -> int
    decreases ups.len() - i,
{
    if i < 0 || i >= ups.len() {
        ups.len() as int
    } else if ups[i].fakeip && is_live(ups, i) && !(answers[i] is OutOfRange) {
        i
    } else {
        first_in_range(ups, answers, i + 1)
    }
}

/// The first server from `i` on that its tag stands for and that makes
/// addresses up, or the number of servers.
pub open spec fn first_fakeip(ups: Seq<UpstreamPlan>, i: int) -> int
    decreases ups.len() - i,
{
    if i < 0 || i >= ups.len() {
        ups.len() as int
    } else if ups[i].fakeip && is_live(ups, i) {
        i
    } else {
        first_fakeip(ups, i + 1)
    }
}

/// The servers up to `n` that their tags stand for and that make addresses up,
/// each with a strategy.
pub open spec fn fakeip_orders(
    ups: Seq<UpstreamPlan>,
    n: int,
    s: ResolveStrategy,
) -> Seq<(usize, ResolveStrategy)>
    decreases n,
{
    if n <= 0 {
        Seq::empty()
    } else if ups[n - 1].fakeip && is_live(ups, n - 1) {
        fakeip_orders(ups, n - 1, s).push(((n - 1) as usize, s))
    } else {
        fakeip_orders(ups, n - 1, s)
    }
}

impl CompiledDnsRule {
    /// Whether the rule selects a query.
    pub fn matches(&self, inbound_tag: &str, qtype: u16, current_mode: &str, hit: bool) -> (r: bool)
        ensures
            r == selects(*self, inbound_tag@, qtype, current_mode@, hit),
    {
        if let Some(m) = &self.clash_mode_filter {
            if !text::same_text_ignoring_case(m.as_str(), current_mode) {
                return false;
            }
        }
        if self.inbound_tags.len() > 0 && !text_among(self.inbound_tags.as_slice(), inbound_tag) {
            return false;
        }
        if self.query_types.len() > 0 && !type_among(&self.query_types, qtype) {
            return false;
        }
        if self.inline_rules.is_some() || self.rulesets.len() > 0 {
            return hit;
        }
        true
    }
}

fn type_among(v: &Vec<u16>, t: u16) -> (r: bool)
    ensures
        r == v@.contains(t),
{
    let mut i: usize = 0;
    while i < v.len()
        invariant
            i <= v@.len(),
            forall|k: int| 0 <= k < i ==> v@[k] != t,
        decreases v@.len() - i,
    {
        if v[i] == t {
            assert(v@[i as int] == t);
            return true;
        }
        i = i + 1;
    }
    false
}

impl DnsResolver {
    /// Whether the tag of the server at a place stands for it.
    fn live(&self, i: usize) -> (r: bool)
        requires
            i < self.upstreams@.len(),
        ensures
            r == is_live(self.upstreams@, i as int),
    {
        match find_upstream(&self.upstreams, self.upstreams[i].tag.as_str()) {
            Some(k) => k == i,
            None => false,
        }
    }

    /// The server for a query, and whether the cache is passed by. `hits` tells
    /// for every rule whether the name is in one of its sets of domains.
    pub fn select(&self, inbound_tag: &str, qtype: u16, current_mode: &str, hits: &[bool]) -> (r: (
        usize,
        bool,
    ))
        requires
            self.wf(),
            hits@.len() == self.rules@.len(),
        ensures
            r.0 < self.upstreams@.len(),
            r == self.chosen(hits@, inbound_tag@, qtype, current_mode@),
    {
        let mut i: usize = 0;
        while i < self.rules.len()
            invariant
                i <= self.rules@.len(),
                self.wf(),
                hits@.len() == self.rules@.len(),
                first_rule(self.rules@, hits@, inbound_tag@, qtype, current_mode@, 0)
                    == first_rule(
                    self.rules@,
                    hits@,
                    inbound_tag@,
                    qtype,
                    current_mode@,
                    i as int,
                ),
            decreases self.rules@.len() - i,
        {
            if self.rules[i].matches(inbound_tag, qtype, current_mode, hits[i]) {
                return (self.rules[i].upstream, self.rules[i].disable_cache);
            }
            i = i + 1;
        }
        (self.default, false)
    }

    /// The server for a query, and whether the cache is passed by: what the first
    /// rule says that selects the query, or the default server.
    pub open spec fn chosen(
        self,
        hits: Seq<bool>,
        inbound_tag: Seq<char>,
        qtype: u16,
        mode: Seq<char>,
    ) -> (usize, bool) {
        let i = first_rule(self.rules@, hits, inbound_tag, qtype, mode, 0);
        if i < self.rules@.len() {
            (self.rules@[i].upstream, self.rules@[i].disable_cache)
        } else {
            (self.default, false)
        }
    }

    /// The server for a lookup of the program itself: never one that makes
    /// addresses up, if there is another.
    pub open spec fn own_upstream(self, hits: Seq<bool>, mode: Seq<char>) -> int {
        let i = first_real_rule(self.rules@, self.upstreams@, hits, mode, 0);
        if i < self.rules@.len() {
            self.rules@[i].upstream as int
        } else if self.upstreams@[self.default as int].fakeip && first_real(self.upstreams@, 0)
            < self.upstreams@.len() {
            first_real(self.upstreams@, 0)
        } else {
            self.default as int
        }
    }

    /// The server for a lookup of the program itself.
    pub fn select_own(&self, current_mode: &str, hits: &[bool]) -> (r: usize)
        requires
            self.wf(),
            hits@.len() == self.rules@.len(),
        ensures
            r == self.own_upstream(hits@, current_mode@),
            r < self.upstreams@.len(),
    {
        proof {
            reveal_strlit("");
            assert(""@ =~= Seq::<char>::empty());
        }
        let mut i: usize = 0;
        while i < self.rules.len()
            invariant
                i <= self.rules@.len(),
                self.wf(),
                ""@ == Seq::<char>::empty(),
                hits@.len() == self.rules@.len(),
                first_real_rule(self.rules@, self.upstreams@, hits@, current_mode@, 0)
                    == first_real_rule(
                    self.rules@,
                    self.upstreams@,
                    hits@,
                    current_mode@,
                    i as int,
                ),
            decreases self.rules@.len() - i,
        {
            if self.rules[i].matches("", 1, current_mode, hits[i])
                && !self.upstreams[self.rules[i].upstream].fakeip {
                return self.rules[i].upstream;
            }
            i = i + 1;
        }
        if self.upstreams[self.default].fakeip {
            let mut k: usize = 0;
            while k < self.upstreams.len()
                invariant
                    k <= self.upstreams@.len(),
                    self.wf(),
                    self.upstreams@[self.default as int].fakeip,
                    first_real_rule(self.rules@, self.upstreams@, hits@, current_mode@, 0)
                        >= self.rules@.len(),
                    first_real(self.upstreams@, 0) == first_real(self.upstreams@, k as int),
                decreases self.upstreams@.len() - k,
            {
                if !self.upstreams[k].fakeip && self.live(k) {
                    return k;
                }
                k = k + 1;
            }
        }
        self.default
    }

    /// The server of a tag, or the default one.
    pub fn select_tag(&self, tag: &str) -> (r: usize)
        requires
            self.wf(),
        ensures
            r < self.upstreams@.len(),
            r == (if upstream_of(self.upstreams@, tag@) >= 0 {
                upstream_of(self.upstreams@, tag@)
            } else {
                self.default as int
            }),
    {
        match find_upstream(&self.upstreams, tag) {
            Some(i) => i,
            None => self.default,
        }
    }

    /// The server for the name of a proxy server.
    pub fn select_proxy(&self, current_mode: &str, hits: &[bool]) -> (r: usize)
        requires
            self.wf(),
            hits@.len() == self.rules@.len(),
        ensures
            r < self.upstreams@.len(),
            r == (match self.proxy_domain_resolver {
                Some(t) => upstream_of(self.upstreams@, t@),
                None => self.own_upstream(hits@, current_mode@),
            }),
    {
        match &self.proxy_domain_resolver {
            Some(t) => self.select_tag(t.as_str()),
            None => self.select_own(current_mode, hits),
        }
    }

    /// Whether an address is made up, by what the store of every server that
    /// makes addresses up says of it; the others' answers do not matter.
    pub fn lookup_fakeip(&self, answers: &Vec<StoreAnswer>) -> (r: FakeIpLookup)
        requires
            answers@.len() == self.upstreams@.len(),
        ensures
            ({
                let i = first_in_range(self.upstreams@, answers@, 0);
                if i >= self.upstreams@.len() {
                    r is NotFakeIp
                } else {
                    match answers@[i] {
                        StoreAnswer::Known(d) => r matches FakeIpLookup::Found(n) && n@ == d@,
                        _ => r is Missing,
                    }
                }
            }),
    {
        let mut i: usize = 0;
        while i < self.upstreams.len()
            invariant
                i <= self.upstreams@.len(),
                answers@.len() == self.upstreams@.len(),
                first_in_range(self.upstreams@, answers@, 0) == first_in_range(
                    self.upstreams@,
                    answers@,
                    i as int,
                ),
            decreases self.upstreams@.len() - i,
        {
            if self.upstreams[i].fakeip && self.live(i) {
                match &answers[i] {
                    StoreAnswer::OutOfRange => {},
                    StoreAnswer::Known(d) => {
                        return FakeIpLookup::Found(d.as_str().to_owned());
                    },
                    StoreAnswer::Unknown => {
                        return FakeIpLookup::Missing;
                    },
                }
            }
            i = i + 1;
        }
        FakeIpLookup::NotFakeIp
    }

    /// The servers that make addresses up, each with the strategy that it is
    /// told to use from now on.
    pub fn set_fakeip_strategy(&self, s: ResolveStrategy) -> (r: Vec<(usize, ResolveStrategy)>)
        ensures
            r@ == fakeip_orders(self.upstreams@, self.upstreams@.len() as int, s),
    {
        let mut r: Vec<(usize, ResolveStrategy)> = Vec::new();
        let mut i: usize = 0;
        while i < self.upstreams.len()
            invariant
                i <= self.upstreams@.len(),
                r@ == fakeip_orders(self.upstreams@, i as int, s),
            decreases self.upstreams@.len() - i,
        {
            if self.upstreams[i].fakeip && self.live(i) {
                r.push((i, s));
            }
            i = i + 1;
        }
        r
    }

    /// Sizes for a look at the use of memory: entries of the cache, queries
    /// that are out, and what the first store of made-up addresses holds.
    /// `sizes` gives that for every server.
    pub fn diag(&self, sizes: &Vec<(usize, usize, usize)>) -> (r: (
        usize,
        usize,
        Option<(usize, usize, usize)>,
    ))
        requires
            self.wf(),
            sizes@.len() == self.upstreams@.len(),
        ensures
            r.0 == (match self.cache {
                Some(c) => c.items().len(),
                None => 0,
            }),
            r.1 == (match self.cache {
                Some(c) => c.inflight().len(),
                None => 0,
            }),
            ({
                let i = first_fakeip(self.upstreams@, 0);
                r.2 == (if i < self.upstreams@.len() {
                    Some(sizes@[i])
                } else {
                    None
                })
            }),
    {
        let (entries, out): (usize, usize) = match &self.cache {
            Some(c) => (c.len(), c.inflight_len()),
            None => (0, 0),
        };
        let mut i: usize = 0;
        while i < self.upstreams.len()
            invariant
                i <= self.upstreams@.len(),
                sizes@.len() == self.upstreams@.len(),
                first_fakeip(self.upstreams@, 0) == first_fakeip(self.upstreams@, i as int),
                entries == (match self.cache {
                    Some(c) => c.items().len(),
                    None => 0,
                }),
                out == (match self.cache {
                    Some(c) => c.inflight().len(),
                    None => 0,
                }),
            decreases self.upstreams@.len() - i,
        {
            if self.upstreams[i].fakeip && self.live(i) {
                return (entries, out, Some(sizes[i]));
            }
            i = i + 1;
        }
        (entries, out, None)
    }
}

/// Every server that needs another to resolve its name comes after it, and that
/// server has the tag that was asked for.
pub proof fn law_resolver_comes_first(
    ups: Seq<UpstreamPlan>,
    servers: Seq<DnsServerConfig>,
    outbounds: Option<Seq<String>>,
    k: int,
)
    requires
        built(ups, servers, outbounds),
        0 <= k < ups.len(),
    ensures
        ups[k].resolver matches Some(j) ==> j < k && ups[j as int].tag@ == servers[setup_order(
            servers,
        )[k]].domain_resolver->0@,
{
    assert(planned(ups[k], servers[setup_order(servers)[k]], outbounds, ups.take(k)));
    if let Some(j) = ups[k].resolver {
        let t = servers[setup_order(servers)[k]].domain_resolver->0@;
        lemma_last_upstream(ups.take(k), k, t);
    }
}

proof fn lemma_first_real(ups: Seq<UpstreamPlan>, i: int)
    requires
        0 <= i <= ups.len(),
    ensures
        i <= first_real(ups, i) <= ups.len(),
        first_real(ups, i) < ups.len() ==> !ups[first_real(ups, i)].fakeip,
        forall|k: int|
            i <= k < ups.len() && #[trigger] is_live(ups, k) && !ups[k].fakeip ==> first_real(
                ups,
                i,
            ) < ups.len(),
    decreases ups.len() - i,
{
    if i < ups.len() {
        lemma_first_real(ups, i + 1);
    }
}

proof fn lemma_first_real_rule(r: DnsResolver, hits: Seq<bool>, mode: Seq<char>, i: int)
    requires
        0 <= i <= r.rules@.len(),
    ensures
        ({
            let k = first_real_rule(r.rules@, r.upstreams@, hits, mode, i);
            &&& i <= k <= r.rules@.len()
            &&& k < r.rules@.len() ==> !r.upstreams@[r.rules@[k].upstream as int].fakeip
        }),
    decreases r.rules@.len() - i,
{
    if i < r.rules@.len() {
        lemma_first_real_rule(r, hits, mode, i + 1);
    }
}

/// As long as some server has real addresses, no lookup of the program itself
/// goes to one that makes them up.
pub proof fn law_own_lookups_are_real(r: DnsResolver, hits: Seq<bool>, mode: Seq<char>, k: int)
    requires
        r.wf(),
        hits.len() == r.rules@.len(),
        0 <= k < r.upstreams@.len(),
        is_live(r.upstreams@, k),
        !r.upstreams@[k].fakeip,
    ensures
        !r.upstreams@[r.own_upstream(hits, mode)].fakeip,
{
    lemma_first_real_rule(r, hits, mode, 0);
    lemma_first_real(r.upstreams@, 0);
}

proof fn lemma_first_rule(
    rules: Seq<CompiledDnsRule>,
    hits: Seq<bool>,
    inbound_tag: Seq<char>,
    qtype: u16,
    mode: Seq<char>,
    i: int,
    k: int,
)
    requires
        0 <= i <= k <= rules.len(),
        forall|j: int|
            i <= j < k ==> !selects(#[trigger] rules[j], inbound_tag, qtype, mode, hits[j]),
    ensures
        first_rule(rules, hits, inbound_tag, qtype, mode, i) == first_rule(
            rules,
            hits,
            inbound_tag,
            qtype,
            mode,
            k,
        ),
    decreases k - i,
{
    if i < k {
        assert(!selects(rules[i], inbound_tag, qtype, mode, hits[i]));
        lemma_first_rule(rules, hits, inbound_tag, qtype, mode, i + 1, k);
    }
}

/// The first rule that selects a query decides, however many follow that select
/// it too: the query goes to the server that the rule names, and past the cache
/// if the rule says so. If none does, it goes to the server for all other queries,
/// by way of the cache.
pub proof fn law_first_rule_decides(
    r: DnsResolver,
    config: DnsConfig,
    rulesets: Seq<String>,
    outbounds: Option<Seq<String>>,
    store_dns: bool,
    hits: Seq<bool>,
    inbound_tag: Seq<char>,
    qtype: u16,
    mode: Seq<char>,
    k: int,
)
    requires
        r.wf(),
        set_up(r, config, rulesets, outbounds, store_dns),
        0 <= k <= r.rules@.len(),
        forall|j: int|
            0 <= j < k ==> !selects(#[trigger] r.rules@[j], inbound_tag, qtype, mode, hits[j]),
        k < r.rules@.len() ==> selects(r.rules@[k], inbound_tag, qtype, mode, hits[k]),
    ensures
        ({
            let (up, past_cache) = r.chosen(hits, inbound_tag, qtype, mode);
            &&& k < r.rules@.len() ==> r.upstreams@[up as int].tag@ == config.rules@[k].server@
                && past_cache == config.rules@[k].disable_cache
            &&& k == r.rules@.len() ==> r.upstreams@[up as int].tag@ == config.final_server@
                && !past_cache
        }),
{
    lemma_first_rule(r.rules@, hits, inbound_tag, qtype, mode, 0, k);
    if k < r.rules@.len() {
        assert(compiled(r.rules@[k], config.rules@[k], r.upstreams@, rulesets));
        lemma_last_upstream(r.upstreams@, r.upstreams@.len() as int, config.rules@[k].server@);
    }
    lemma_last_upstream(r.upstreams@, r.upstreams@.len() as int, config.final_server@);
}

proof fn lemma_same_real_rule(
    rules: Seq<CompiledDnsRule>,
    ups: Seq<UpstreamPlan>,
    hits: Seq<bool>,
    mode: Seq<char>,
    i: int,
    k: int,
)
    requires
        0 <= i <= k <= rules.len(),
        forall|j: int|
            i <= j < k ==> !selects(#[trigger] rules[j], Seq::empty(), 1, mode, hits[j])
                || ups[rules[j].upstream as int].fakeip,
    ensures
        first_real_rule(rules, ups, hits, mode, i) == first_real_rule(rules, ups, hits, mode, k),
    decreases k - i,
{
    if i < k {
        assert(!selects(rules[i], Seq::empty(), 1, mode, hits[i])
            || ups[rules[i].upstream as int].fakeip);
        lemma_same_real_rule(rules, ups, hits, mode, i + 1, k);
    }
}

/// A lookup of the program itself is selected like a query for an IPv4 address
/// from no inbound, and rules that lead to made-up addresses do not count. The
/// first rule that is left decides. If none is, the default server decides
/// unless it makes addresses up.
pub proof fn law_own_lookup_goes_by_rules(
    r: DnsResolver,
    hits: Seq<bool>,
    mode: Seq<char>,
    k: int,
)
    requires
        0 <= k <= r.rules@.len(),
        forall|j: int|
            0 <= j < k ==> !selects(#[trigger] r.rules@[j], Seq::empty(), 1, mode, hits[j])
                || r.upstreams@[r.rules@[j].upstream as int].fakeip,
        k < r.rules@.len() ==> selects(r.rules@[k], Seq::empty(), 1, mode, hits[k])
            && !r.upstreams@[r.rules@[k].upstream as int].fakeip,
    ensures
        k < r.rules@.len() ==> r.own_upstream(hits, mode) == r.rules@[k].upstream,
        k == r.rules@.len() && !r.upstreams@[r.default as int].fakeip ==> r.own_upstream(
            hits,
            mode,
        ) == r.default,
{
    lemma_same_real_rule(r.rules@, r.upstreams@, hits, mode, 0, k);
}

proof fn lemma_last_of_tag(ups: Seq<UpstreamPlan>, n: int, k: int, tag: Seq<char>)
    requires
        0 <= k < n <= ups.len(),
        ups[k].tag@ == tag,
        forall|j: int| k < j < n ==> (#[trigger] ups[j]).tag@ != tag,
    ensures
        last_upstream(ups, n, tag) == k,
    decreases n,
{
    if n - 1 > k {
        assert(ups[n - 1].tag@ != tag);
        lemma_last_of_tag(ups, n - 1, k, tag);
    }
}

/// A tag stands for the last server that has it.
pub proof fn law_last_server_of_a_tag_counts(ups: Seq<UpstreamPlan>, k: int)
    requires
        0 <= k < ups.len(),
        forall|j: int| k < j < ups.len() ==> (#[trigger] ups[j]).tag@ != ups[k].tag@,
    ensures
        upstream_of(ups, ups[k].tag@) == k,
        is_live(ups, k),
{
    lemma_last_of_tag(ups, ups.len() as int, k, ups[k].tag@);
}

proof fn lemma_first_in_range(
    ups: Seq<UpstreamPlan>,
    answers: Seq<StoreAnswer>,
    i: int,
    k: int,
)
    requires
        0 <= i <= k <= ups.len(),
        forall|j: int|
            i <= j < k ==> !(#[trigger] ups[j]).fakeip || !is_live(ups, j)
                || answers[j] is OutOfRange,
    ensures
        first_in_range(ups, answers, i) == first_in_range(ups, answers, k),
    decreases k - i,
{
    if i < k {
        assert(!ups[i].fakeip || !is_live(ups, i) || answers[i] is OutOfRange);
        lemma_first_in_range(ups, answers, i + 1, k);
    }
}

/// An address is made up exactly if a store of made-up addresses has it in its
/// range, and the first such store is asked for its name. Servers with real
/// addresses do not matter.
pub proof fn law_first_store_answers(ups: Seq<UpstreamPlan>, answers: Seq<StoreAnswer>, k: int)
    requires
        0 <= k <= ups.len(),
        forall|j: int|
            0 <= j < k ==> !(#[trigger] ups[j]).fakeip || !is_live(ups, j)
                || answers[j] is OutOfRange,
        k < ups.len() ==> ups[k].fakeip && is_live(ups, k) && !(answers[k] is OutOfRange),
    ensures
        first_in_range(ups, answers, 0) == k,
{
    lemma_first_in_range(ups, answers, 0, k);
}

proof fn lemma_orders(ups: Seq<UpstreamPlan>, n: int, s: ResolveStrategy, k: int)
    requires
        0 <= n <= ups.len(),
        ups.len() <= usize::MAX,
        0 <= k < ups.len(),
    ensures
        fakeip_orders(ups, n, s).contains((k as usize, s)) <==> k < n && ups[k].fakeip && is_live(
            ups,
            k,
        ),
        forall|j: int|
            0 <= j < fakeip_orders(ups, n, s).len() ==> (#[trigger] fakeip_orders(ups, n, s)[j]).1
                == s,
    decreases n,
{
    if n > 0 {
        lemma_orders(ups, n - 1, s, k);
        let before = fakeip_orders(ups, n - 1, s);
        let x = (k as usize, s);
        if ups[n - 1].fakeip && is_live(ups, n - 1) {
            let all = before.push(((n - 1) as usize, s));
            assert(all.last() == ((n - 1) as usize, s));
            if before.contains(x) {
                let i = choose|i: int| 0 <= i < before.len() && before[i] == x;
                assert(all[i] == x);
            }
            if all.contains(x) {
                let i = choose|i: int| 0 <= i < all.len() && all[i] == x;
                if i < before.len() {
                    assert(before[i] == x);
                }
            }
            if k == n - 1 {
                assert(all[before.len() as int] == x);
            }
        }
    }
}

/// A new strategy is told to exactly the servers that make addresses up.
pub proof fn law_strategy_is_told_to_stores(ups: Seq<UpstreamPlan>, s: ResolveStrategy, k: int)
    requires
        ups.len() <= usize::MAX,
        0 <= k < ups.len(),
    ensures
        fakeip_orders(ups, ups.len() as int, s).contains((k as usize, s)) <==> ups[k].fakeip
            && is_live(ups, k),
{
    lemma_orders(ups, ups.len() as int, s, k);
}

proof fn lemma_rule_fault(servers: Seq<DnsServerConfig>, rules: Seq<DnsRuleConfig>, i: int)
    requires
        0 <= i <= rules.len(),
    ensures
        rule_fault(servers, rules, i) is None <==> forall|k: int|
            i <= k < rules.len() ==> has_server(servers, (#[trigger] rules[k]).server@),
        rule_fault(servers, rules, i) matches Some(f) ==> exists|k: int|
            i <= k < rules.len() && !has_server(servers, (#[trigger] rules[k]).server@) && f == (
            Fault::RuleServer { server: rules[k].server@ }),
    decreases rules.len() - i,
{
    if i < rules.len() {
        lemma_rule_fault(servers, rules, i + 1);
        if !has_server(servers, rules[i].server@) {
            assert(rule_fault(servers, rules, i) == Some(
                Fault::RuleServer { server: rules[i].server@ },
            ));
        }
    }
}

/// Settings without fault name only servers that exist: for every rule, for all
/// other queries, and for the names of proxy servers. Optimistic answers need the
/// cache. Where one of these fails, there is a fault.
pub proof fn law_faultless_settings(config: DnsConfig, outbounds: Option<Seq<String>>)
    ensures
        config_fault(config, outbounds) is None <==> {
            &&& !(config.optimistic_timeout > 0 && config.disable_cache)
            &&& server_fault(config.servers@, outbounds) is None
            &&& forall|k: int|
                0 <= k < config.rules@.len() ==> has_server(
                    config.servers@,
                    (#[trigger] config.rules@[k]).server@,
                )
            &&& has_server(config.servers@, config.final_server@)
            &&& config.proxy_domain_resolver matches Some(t) ==> has_server(config.servers@, t@)
        },
{
    lemma_rule_fault(config.servers@, config.rules@, 0);
}

} // verus!
