//! Lookups of the program itself: from a name to addresses.
use vstd::prelude::*;
use crate::config::dns::ResolveStrategy;
use crate::dns::resolver::DnsResolver;
use crate::dns::wire;
use crate::net;
use crate::net::IpAddr;
use crate::text;

verus! {

/// What a lookup takes.
pub enum Lookup {
    /// Nothing: the name is an address.
    Known(IpAddr),
    /// Queries to the server at a place.
    Ask {
        upstream: usize,
        /// The query for IPv4 addresses, if there is one.
        a: Option<Vec<u8>>,
        /// The query for IPv6 addresses, if there is one.
        aaaa: Option<Vec<u8>>,
    },
}

/// Why a lookup has failed.
#[derive(Clone, Copy, Debug, PartialEq, Eq, Structural)]
pub enum Unresolved {
    NoA,
    NoAaaa,
    NoAnswer,
}

/// Whether a strategy asks for IPv4 addresses.
pub open spec fn asks_a(s: ResolveStrategy) -> bool {
    s != ResolveStrategy::Ipv6Only
}

/// Whether a strategy asks for IPv6 addresses.
pub open spec fn asks_aaaa(s: ResolveStrategy) -> bool {
    s != ResolveStrategy::Ipv4Only
}

/// Whether `l` is what a lookup takes.
pub open spec fn planned_lookup(
    l: Lookup,
    host: Seq<char>,
    strategy: ResolveStrategy,
    upstream: int,
) -> bool {
    match net::ip_value(host) {
        Some(ip) => l == Lookup::Known(ip),
        None => l matches Lookup::Ask { upstream: u, a, aaaa } && {
            &&& u == upstream
            &&& a is Some <==> asks_a(strategy)
            &&& a matches Some(q) ==> q@ == wire::query_bytes(host, 1)
            &&& aaaa is Some <==> asks_aaaa(strategy)
            &&& aaaa matches Some(q) ==> q@ == wire::query_bytes(host, 28)
        },
    }
}

/// The addresses in a response, if there is one.
pub open spec fn addresses_in(resp: Option<Seq<u8>>, qtype: u16) -> Seq<IpAddr> {
    match resp {
        Some(r) => wire::answered(r, qtype),
        None => Seq::empty(),
    }
}

/// All addresses in the order of preference.
pub open spec fn candidates(
    strategy: ResolveStrategy,
    a: Option<Seq<u8>>,
    aaaa: Option<Seq<u8>>,
) -> Seq<IpAddr> {
    match strategy {
        ResolveStrategy::Ipv4Only => addresses_in(a, 1),
        ResolveStrategy::Ipv6Only => addresses_in(aaaa, 28),
        ResolveStrategy::PreferIpv4 => addresses_in(a, 1) + addresses_in(aaaa, 28),
        ResolveStrategy::PreferIpv6 => addresses_in(aaaa, 28) + addresses_in(a, 1),
    }
}

/// Why there are no addresses.
pub open spec fn failure(strategy: ResolveStrategy) -> Unresolved {
    match strategy {
        ResolveStrategy::Ipv4Only => Unresolved::NoA,
        ResolveStrategy::Ipv6Only => Unresolved::NoAaaa,
        _ => Unresolved::NoAnswer,
    }
}

fn failed(strategy: ResolveStrategy) -> (r: Unresolved)
    ensures
        r == failure(strategy),
{
    match strategy {
        ResolveStrategy::Ipv4Only => Unresolved::NoA,
        ResolveStrategy::Ipv6Only => Unresolved::NoAaaa,
        _ => Unresolved::NoAnswer,
    }
}

/// Whether a lookup comes to this address: the first of all.
pub open spec fn picked(
    strategy: ResolveStrategy,
    a: Option<Seq<u8>>,
    aaaa: Option<Seq<u8>>,
    r: Result<IpAddr, Unresolved>,
) -> bool {
    let c = candidates(strategy, a, aaaa);
    match r {
        Ok(ip) => c.len() > 0 && ip == c[0],
        Err(e) => c.len() == 0 && e == failure(strategy),
    }
}

/// Whether a lookup comes to these addresses: all, in the order of preference.
pub open spec fn listed(
    strategy: ResolveStrategy,
    a: Option<Seq<u8>>,
    aaaa: Option<Seq<u8>>,
    r: Result<Vec<IpAddr>, Unresolved>,
) -> bool {
    let c = candidates(strategy, a, aaaa);
    match r {
        Ok(v) => c.len() > 0 && v@ == c,
        Err(e) => c.len() == 0 && e == failure(strategy),
    }
}

/// The message of a failed lookup.
pub open spec fn failure_text(host: Seq<char>, e: Unresolved) -> Seq<char> {
    "dns resolve failed for '"@ + host + (match e {
        Unresolved::NoA => "': no A answer"@,
        Unresolved::NoAaaa => "': no AAAA answer"@,
        Unresolved::NoAnswer => "': no answer"@,
    })
}

impl Unresolved {
    /// The message.
    pub fn message(self, host: &str) -> (r: String)
        ensures
            r@ == failure_text(host@, self),
    {
        let mut t: Vec<char> = text::chars_of("dns resolve failed for '");
        text::push_text(&mut t, host);
        text::push_text(
            &mut t,
            match self {
                Unresolved::NoA => "': no A answer",
                Unresolved::NoAaaa => "': no AAAA answer",
                Unresolved::NoAnswer => "': no answer",
            },
        );
        text::string_of(&t)
    }
}

/// What a lookup of a name at a server takes.
fn plan_lookup(host: &str, strategy: ResolveStrategy, upstream: usize) -> (r: Lookup)
    ensures
        planned_lookup(r, host@, strategy, upstream as int),
{
    match net::parse_ip(host) {
        Some(ip) => Lookup::Known(ip),
        None => {
            let a: Option<Vec<u8>> = match strategy {
                ResolveStrategy::Ipv6Only => None,
                _ => Some(wire::build_query(host, 1)),
            };
            let aaaa: Option<Vec<u8>> = match strategy {
                ResolveStrategy::Ipv4Only => None,
                _ => Some(wire::build_query(host, 28)),
            };
            Lookup::Ask { upstream, a, aaaa }
        },
    }
}

/// The responses as sequences.
pub open spec fn resp_view(r: Option<&[u8]>) -> Option<Seq<u8>> {
    match r {
        Some(b) => Some(b@),
        None => None,
    }
}

impl DnsResolver {
    /// What a lookup takes: the rules choose the server, and servers that make
    /// addresses up are passed over.
    pub fn resolve_domain(&self, host: &str, current_mode: &str, hits: &[bool]) -> (r: Lookup)
        requires
            self.wf(),
            hits@.len() == self.rules@.len(),
        ensures
            planned_lookup(
                r,
                host@,
                self.strategy,
                self.own_upstream(hits@, current_mode@),
            ),
    {
        plan_lookup(host, self.strategy, self.select_own(current_mode, hits))
    }

    /// What a lookup of a proxy server's name takes: the server that the
    /// settings give for it, or else the one that the rules choose.
    pub fn resolve_proxy_domain(&self, host: &str, current_mode: &str, hits: &[bool]) -> (r: Lookup)
        requires
            self.wf(),
            hits@.len() == self.rules@.len(),
        ensures
            planned_lookup(
                r,
                host@,
                self.strategy,
                match self.proxy_domain_resolver {
                    Some(t) => crate::dns::resolver::upstream_of(self.upstreams@, t@),
                    None => self.own_upstream(hits@, current_mode@),
                },
            ),
    {
        plan_lookup(host, self.strategy, self.select_proxy(current_mode, hits))
    }

    /// What a lookup at the server of a tag takes; the default server stands in
    /// for one that does not exist.
    pub fn resolve_domain_via(&self, host: &str, server_tag: &str) -> (r: Lookup)
        requires
            self.wf(),
        ensures
            planned_lookup(
                r,
                host@,
                self.strategy,
                if crate::dns::resolver::upstream_of(self.upstreams@, server_tag@) >= 0 {
                    crate::dns::resolver::upstream_of(self.upstreams@, server_tag@)
                } else {
                    self.default as int
                },
            ),
    {
        plan_lookup(host, self.strategy, self.select_tag(server_tag))
    }

    /// The address that a lookup comes to: the first of the preferred kind.
    pub fn pick_address(&self, a: Option<&[u8]>, aaaa: Option<&[u8]>) -> (r: Result<
        IpAddr,
        Unresolved,
    >)
        requires
            a matches Some(b) ==> b@.len() + 70000 <= usize::MAX,
            aaaa matches Some(b) ==> b@.len() + 70000 <= usize::MAX,
        ensures
            picked(self.strategy, resp_view(a), resp_view(aaaa), r),
    {
        let v4: Option<IpAddr> = match a {
            Some(b) => wire::extract_first_ip(b, 1),
            None => None,
        };
        let v6: Option<IpAddr> = match aaaa {
            Some(b) => wire::extract_first_ip(b, 28),
            None => None,
        };
        let (first, second): (Option<IpAddr>, Option<IpAddr>) = match self.strategy {
            ResolveStrategy::Ipv4Only => (v4, None),
            ResolveStrategy::Ipv6Only => (v6, None),
            ResolveStrategy::PreferIpv4 => (v4, v6),
            ResolveStrategy::PreferIpv6 => (v6, v4),
        };
        match (first, second) {
            (Some(ip), _) => Ok(ip),
            (None, Some(ip)) => Ok(ip),
            (None, None) => Err(failed(self.strategy)),
        }
    }

    /// All addresses that a lookup comes to, the preferred kind first.
    pub fn resolve_domain_all(&self, a: Option<&[u8]>, aaaa: Option<&[u8]>) -> (r: Result<
        Vec<IpAddr>,
        Unresolved,
    >)
        requires
            a matches Some(b) ==> b@.len() + 70000 <= usize::MAX,
            aaaa matches Some(b) ==> b@.len() + 70000 <= usize::MAX,
        ensures
            listed(self.strategy, resp_view(a), resp_view(aaaa), r),
    {
        let mut v4: Vec<IpAddr> = match a {
            Some(b) => wire::extract_all_ips(b, 1),
            None => Vec::new(),
        };
        let mut v6: Vec<IpAddr> = match aaaa {
            Some(b) => wire::extract_all_ips(b, 28),
            None => Vec::new(),
        };
        assert(v4@ =~= addresses_in(resp_view(a), 1));
        assert(v6@ =~= addresses_in(resp_view(aaaa), 28));
        let all: Vec<IpAddr> = match self.strategy {
            ResolveStrategy::Ipv4Only => v4,
            ResolveStrategy::Ipv6Only => v6,
            ResolveStrategy::PreferIpv4 => {
                v4.append(&mut v6);
                v4
            },
            ResolveStrategy::PreferIpv6 => {
                v6.append(&mut v4);
                v6
            },
        };
        assert(all@ =~= candidates(self.strategy, resp_view(a), resp_view(aaaa)));
        if all.len() == 0 {
            Err(failed(self.strategy))
        } else {
            Ok(all)
        }
    }

    /// The query that goes to the default server as it is.
    pub fn resolve_raw(&self, name: &str, qtype: u16) -> (r: (usize, Vec<u8>))
        ensures
            r.0 == self.default,
            r.1@ == wire::query_bytes(name@, qtype),
    {
        (self.default, wire::build_query_bytes(name, qtype))
    }
}

/// Which addresses a lookup comes to, and in which order, with the addresses of
/// the two responses given. Where one kind is preferred, no address of the other
/// kind stands before it, and the other kind comes first only if there is none of
/// the preferred one. Where only one kind is wanted, nothing else comes. No
/// address of a wanted kind is lost, and each kind keeps the order of its
/// response.
pub proof fn law_preferred_kind_comes_first(
    strategy: ResolveStrategy,
    a: Option<Seq<u8>>,
    aaaa: Option<Seq<u8>>,
)
    ensures
        ({
            let c = candidates(strategy, a, aaaa);
            let four = match a {
                Some(b) => wire::answered(b, 1),
                None => Seq::empty(),
            };
            let six = match aaaa {
                Some(b) => wire::answered(b, 28),
                None => Seq::empty(),
            };
            &&& strategy == ResolveStrategy::PreferIpv6 ==> {
                &&& c.len() == four.len() + six.len()
                &&& c.take(six.len() as int) == six
                &&& c.skip(six.len() as int) == four
                &&& six.len() > 0 ==> c[0] is V6 && c[0] == six[0]
                &&& c.len() > 0 && c[0] is V4 ==> six.len() == 0
                &&& forall|i: int, j: int|
                    0 <= i < j < c.len() && (#[trigger] c[i]) is V4 ==> (#[trigger] c[j]) is V4
            }
            &&& strategy == ResolveStrategy::PreferIpv4 ==> {
                &&& c.len() == four.len() + six.len()
                &&& c.take(four.len() as int) == four
                &&& c.skip(four.len() as int) == six
                &&& four.len() > 0 ==> c[0] is V4 && c[0] == four[0]
                &&& c.len() > 0 && c[0] is V6 ==> four.len() == 0
                &&& forall|i: int, j: int|
                    0 <= i < j < c.len() && (#[trigger] c[i]) is V6 ==> (#[trigger] c[j]) is V6
            }
            &&& strategy == ResolveStrategy::Ipv4Only ==> {
                &&& c == four
                &&& forall|i: int| 0 <= i < c.len() ==> (#[trigger] c[i]) is V4
            }
            &&& strategy == ResolveStrategy::Ipv6Only ==> {
                &&& c == six
                &&& forall|i: int| 0 <= i < c.len() ==> (#[trigger] c[i]) is V6
            }
        }),
{
    let c = candidates(strategy, a, aaaa);
    let four = addresses_in(a, 1);
    let six = addresses_in(aaaa, 28);
    if let Some(b) = a {
        wire::law_addresses_have_their_type(b, 1);
    }
    if let Some(b) = aaaa {
        wire::law_addresses_have_their_type(b, 28);
    }
    match strategy {
        ResolveStrategy::PreferIpv6 => {
            assert(c.take(six.len() as int) =~= six);
            assert(c.skip(six.len() as int) =~= four);
            assert forall|i: int, j: int| 0 <= i < j < c.len() && (#[trigger] c[i]) is V4 implies (
            #[trigger] c[j]) is V4 by {
                if i < six.len() {
                    assert(c[i] == six[i]);
                } else {
                    assert(c[j] == four[j - six.len()]);
                }
            }
            if six.len() == 0 && four.len() > 0 {
                assert(c[0] == four[0]);
            }
        },
        ResolveStrategy::PreferIpv4 => {
            assert(c.take(four.len() as int) =~= four);
            assert(c.skip(four.len() as int) =~= six);
            assert forall|i: int, j: int| 0 <= i < j < c.len() && (#[trigger] c[i]) is V6 implies (
            #[trigger] c[j]) is V6 by {
                if i < four.len() {
                    assert(c[i] == four[i]);
                } else {
                    assert(c[j] == six[j - four.len()]);
                }
            }
        },
        _ => {},
    }
}

/// The address that a lookup comes to, and the list of all. Where IPv6 is
/// preferred and the response to the query for it holds an address, an IPv6
/// address of that response is picked; an IPv4 address is picked only if it holds
/// none, and in the list none stands before an IPv6 address. Where IPv4 is
/// preferred it is the other way round. A lookup fails exactly if no response to
/// a query that the strategy asks holds an address.
pub proof fn law_preferred_address_is_picked(
    strategy: ResolveStrategy,
    a: Option<Seq<u8>>,
    aaaa: Option<Seq<u8>>,
    one: Result<IpAddr, Unresolved>,
    all: Result<Vec<IpAddr>, Unresolved>,
)
    requires
        picked(strategy, a, aaaa, one),
        listed(strategy, a, aaaa, all),
    ensures
        ({
            let four = match a {
                Some(b) => wire::answered(b, 1),
                None => Seq::empty(),
            };
            let six = match aaaa {
                Some(b) => wire::answered(b, 28),
                None => Seq::empty(),
            };
            &&& strategy == ResolveStrategy::PreferIpv6 ==> {
                &&& six.len() > 0 ==> (one matches Ok(ip) && ip is V6 && ip == six[0])
                &&& six.len() == 0 && four.len() > 0 ==> (one matches Ok(ip) && ip is V4 && ip
                    == four[0])
                &&& one is Err <==> six.len() == 0 && four.len() == 0
                &&& all matches Ok(v) ==> forall|i: int, j: int|
                    0 <= i < j < v@.len() && (#[trigger] v@[j]) is V6 ==> (#[trigger] v@[i]) is V6
            }
            &&& strategy == ResolveStrategy::PreferIpv4 ==> {
                &&& four.len() > 0 ==> (one matches Ok(ip) && ip is V4 && ip == four[0])
                &&& four.len() == 0 && six.len() > 0 ==> (one matches Ok(ip) && ip is V6 && ip
                    == six[0])
                &&& one is Err <==> six.len() == 0 && four.len() == 0
                &&& all matches Ok(v) ==> forall|i: int, j: int|
                    0 <= i < j < v@.len() && (#[trigger] v@[j]) is V4 ==> (#[trigger] v@[i]) is V4
            }
            &&& strategy == ResolveStrategy::Ipv4Only ==> {
                &&& four.len() > 0 ==> one == Ok::<IpAddr, Unresolved>(four[0])
                &&& four.len() == 0 ==> one == Err::<IpAddr, Unresolved>(Unresolved::NoA)
            }
            &&& strategy == ResolveStrategy::Ipv6Only ==> {
                &&& six.len() > 0 ==> one == Ok::<IpAddr, Unresolved>(six[0])
                &&& six.len() == 0 ==> one == Err::<IpAddr, Unresolved>(Unresolved::NoAaaa)
            }
            &&& all is Ok <==> one is Ok
            &&& all matches Ok(v) ==> {
                &&& v@[0] == one->Ok_0
                &&& strategy != ResolveStrategy::Ipv6Only ==> forall|i: int|
                    0 <= i < four.len() ==> v@.contains(#[trigger] four[i])
                &&& strategy != ResolveStrategy::Ipv4Only ==> forall|i: int|
                    0 <= i < six.len() ==> v@.contains(#[trigger] six[i])
            }
        }),
{
    let c = candidates(strategy, a, aaaa);
    let four = addresses_in(a, 1);
    let six = addresses_in(aaaa, 28);
    law_preferred_kind_comes_first(strategy, a, aaaa);
    if let Some(b) = a {
        wire::law_addresses_have_their_type(b, 1);
    }
    if let Some(b) = aaaa {
        wire::law_addresses_have_their_type(b, 28);
    }
    assert forall|i: int| 0 <= i < four.len() && strategy != ResolveStrategy::Ipv6Only implies
        c.contains(#[trigger] four[i]) by {
        if strategy == ResolveStrategy::PreferIpv6 {
            assert(c[six.len() + i] == four[i]);
        } else {
            assert(c[i] == four[i]);
        }
    }
    assert forall|i: int| 0 <= i < six.len() && strategy != ResolveStrategy::Ipv4Only implies
        c.contains(#[trigger] six[i]) by {
        if strategy == ResolveStrategy::PreferIpv4 {
            assert(c[four.len() + i] == six[i]);
        } else {
            assert(c[i] == six[i]);
        }
    }
    if strategy == ResolveStrategy::PreferIpv6 && six.len() == 0 && four.len() > 0 {
        assert(c[0] == four[0]);
    }
}

/// What is asked for: with a strategy for one kind of address only that kind,
/// and else both; an address in place of a name is taken as it is. The queries
/// are for the name, and for the types 1 and 28.
pub proof fn law_strategy_decides_queries(
    l: Lookup,
    host: Seq<char>,
    strategy: ResolveStrategy,
    upstream: int,
)
    requires
        planned_lookup(l, host, strategy, upstream),
        forall|i: int|
            0 <= i < text::parts(host, '.').len() ==> (#[trigger] text::parts(host, '.')[i]).len()
                > 0 && 1 <= vstd::utf8::encode_utf8(text::parts(host, '.')[i]).len() < 192,
    ensures
        net::ip_value(host) matches Some(ip) ==> l == Lookup::Known(ip),
        net::ip_value(host) is None ==> {
            &&& l matches Lookup::Ask { upstream: u, a, aaaa }
            &&& u == upstream
            &&& a is None <==> strategy == ResolveStrategy::Ipv6Only
            &&& aaaa is None <==> strategy == ResolveStrategy::Ipv4Only
            &&& a matches Some(q) ==> wire::question_name(q@) == Some(host) && wire::question_type(
                q@,
            ) == Some(1u16)
            &&& aaaa matches Some(q) ==> wire::question_name(q@) == Some(host)
                && wire::question_type(q@) == Some(28u16)
        },
{
    wire::law_query_roundtrip(host, 1);
    wire::law_query_roundtrip(host, 28);
}

} // verus!
