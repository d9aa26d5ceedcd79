//! Dispatch: from an inbound connection or datagram to the outbound that takes
//! it. The caller asks the router, reads ahead and looks names up; every step
//! takes what came back and says what comes next.
use vstd::prelude::*;
use crate::app::sniff;
use crate::app::sniff::{SniffResult, SniffType};
use crate::dns::cache::NANOS;
use crate::dns::resolver::FakeIpLookup;
use crate::inbound::target;
use crate::inbound::target::Target;
use crate::net::{IpAddr, SocketAddr};
use crate::table::Table;
use crate::text;

verus! {

/// Seconds after which a UDP session ends when nothing is seen of it.
pub const UDP_TIMEOUT: u64 = 300;

/// Seconds between two rounds of cleaning up UDP sessions.
pub const GC_INTERVAL: u64 = 30;

/// The seconds after which a UDP session to a port ends when nothing is seen of
/// it: short for DNS, NTP, STUN and QUIC.
pub open spec fn idle_seconds(port: u16) -> u64 {
    if port == 53 || port == 123 || port == 3478 {
        10
    } else if port == 443 {
        30
    } else {
        UDP_TIMEOUT
    }
}

/// The seconds after which a UDP session to a port ends when nothing is seen of
/// it.
pub fn udp_timeout_for_port(port: u16) -> (r: u64)
    ensures
        r == idle_seconds(port),
{
    if port == 53 || port == 123 || port == 3478 {
        10
    } else if port == 443 {
        30
    } else {
        UDP_TIMEOUT
    }
}

// Destinations

/// The destination once an address that may be made up has been looked up;
/// there is none if the address is made up but stands for no name.
pub open spec fn restored(t: target::Destination, found: FakeIpLookup) -> Option<
    target::Destination,
> {
    match t {
        target::Destination::Domain(_, _) => Some(t),
        target::Destination::Socket(a) => match found {
            FakeIpLookup::NotFakeIp => Some(t),
            FakeIpLookup::Found(d) => Some(target::Destination::Domain(d@, a.port)),
            FakeIpLookup::Missing => None,
        },
    }
}

/// Restores the name that a made-up address stands for. Without a result the
/// connection is to be dropped.
pub fn restore_target(t: Target, found: FakeIpLookup) -> (r: Option<Target>)
    ensures
        match r {
            Some(x) => restored(t@, found) == Some(x@),
            None => restored(t@, found) is None,
        },
{
    match t {
        Target::Domain(d, p) => Some(Target::Domain(d, p)),
        Target::Socket(a) => match found {
            FakeIpLookup::NotFakeIp => Some(Target::Socket(a)),
            FakeIpLookup::Found(d) => Some(Target::Domain(d, a.port)),
            FakeIpLookup::Missing => None,
        },
    }
}

/// What is known of a connection on its way.
pub struct Flow {
    pub target: Target,
    /// The protocol that was recognised.
    pub sniffed_protocol: Option<String>,
    /// The name that was recognised where it does not replace the destination.
    pub sniffed_domain: Option<String>,
}

/// A flow by its characters.
#[verifier::ext_equal]
pub ghost struct FlowView {
    pub target: target::Destination,
    pub protocol: Option<Seq<char>>,
    pub domain: Option<Seq<char>>,
}

impl View for Flow {
    type V = FlowView;

    open spec fn view(&self) -> FlowView {
        FlowView {
            target: self.target@,
            protocol: match self.sniffed_protocol {
                Some(p) => Some(p@),
                None => None,
            },
            domain: match self.sniffed_domain {
                Some(d) => Some(d@),
                None => None,
            },
        }
    }
}

/// A flow after sniffing: the protocol is noted unless one was noted before; the
/// name replaces the destination, or is noted beside it.
pub open spec fn after_sniff_result(
    f: FlowView,
    found: sniff::Found,
    override_destination: bool,
) -> FlowView {
    match found {
        None => f,
        Some((domain, protocol)) => {
            let p = if f.protocol is None {
                Some(protocol)
            } else {
                f.protocol
            };
            match domain {
                None => FlowView { protocol: p, ..f },
                Some(d) => if override_destination {
                    FlowView {
                        target: target::Destination::Domain(d, target::port_of(f.target)),
                        protocol: p,
                        ..f
                    }
                } else {
                    FlowView { protocol: p, domain: Some(d), ..f }
                },
            }
        },
    }
}

/// A flow after DNS over TCP has been looked for in what was read ahead: only
/// on the DNS port, and only if no protocol was recognised.
pub open spec fn after_dns_check(f: FlowView, prefix: Seq<u8>) -> FlowView {
    if target::port_of(f.target) == 53 && f.protocol is None && prefix.len() >= 14
        && sniff::looks_like_dns(prefix.skip(2)) {
        FlowView { protocol: Some("dns"@), ..f }
    } else {
        f
    }
}

impl Flow {
    /// A flow of which nothing but the destination is known.
    pub fn new(t: Target) -> (r: Self)
        ensures
            r@ == (FlowView { target: t@, protocol: None, domain: None }),
    {
        Flow { target: t, sniffed_protocol: None, sniffed_domain: None }
    }

    /// Takes in what sniffing has found, and what was read ahead for it.
    pub fn apply_sniff(
        &mut self,
        result: Option<SniffResult>,
        override_destination: bool,
        prefix: &[u8],
    )
        ensures
            final(self)@ == after_dns_check(
                after_sniff_result(old(self)@, sniff::found(result), override_destination),
                prefix@,
            ),
    {
        let ghost before = self@;
        let ghost f = sniff::found(result);
        if let Some(s) = result {
            let port: u16 = self.target.port();
            if self.sniffed_protocol.is_none() {
                self.sniffed_protocol = Some(s.protocol.to_owned());
            }
            if let Some(d) = s.domain {
                if override_destination {
                    self.target = Target::Domain(d, port);
                } else {
                    self.sniffed_domain = Some(d);
                }
            }
        }
        assert(self@ =~= after_sniff_result(before, f, override_destination));
        let n: usize = prefix.len();
        if self.target.port() == 53 && self.sniffed_protocol.is_none() && n >= 14 {
            let body: &[u8] = vstd::slice::slice_subrange(prefix, 2, n);
            assert(body@ =~= prefix@.skip(2));
            if sniff::is_dns_wire(body) {
                self.sniffed_protocol = Some("dns".to_owned());
            }
        }
    }

    /// Recognises a DNS message in a datagram, unless a protocol was recognised
    /// before.
    pub fn apply_datagram(&mut self, data: &[u8])
        ensures
            final(self)@ == (if old(self)@.protocol is None && sniff::looks_like_dns(data@) {
                FlowView { protocol: Some("dns"@), ..old(self)@ }
            } else {
                old(self)@
            }),
    {
        if self.sniffed_protocol.is_none() && sniff::is_dns_wire(data) {
            self.sniffed_protocol = Some("dns".to_owned());
        }
    }
}

// Routing

/// What a rule does.
pub enum RouteAction {
    /// Reads ahead to recognise protocol and name; later rules decide.
    Sniff { timeout_ms: u64, override_destination: bool, sniff_types: Vec<SniffType> },
    /// Looks the name up, at a given server if there is one; later rules decide.
    Resolve { server: Option<String> },
    /// Hands the queries to the resolver.
    DnsOut,
    /// Hands the connection to an outbound.
    Outbound(String),
}

/// How far routing has come.
#[derive(Clone, Copy, Debug, PartialEq, Eq, Structural)]
pub enum Stage {
    First,
    /// Rules that sniff are skipped.
    AfterSniff,
    /// Rules that sniff or resolve are skipped.
    AfterResolve,
}

/// What comes next.
pub enum Next {
    /// Read ahead; then route again after `Flow::apply_sniff`.
    Sniff { timeout_ms: u64, override_destination: bool, sniff_types: Vec<SniffType> },
    /// Route again; rules that sniff are skipped.
    RouteAfterSniff,
    /// Look a name up; then `after_lookup`.
    Lookup { host: String, port: u16, server: Option<String> },
    /// Route again, as if the destination were this; rules that sniff or
    /// resolve are skipped.
    RouteAfterResolve(Target),
    /// Nothing more to ask.
    Dispatch(RouteAction),
}

/// What comes next once sniffing is done with.
pub open spec fn resolve_step(action: RouteAction, t: target::Destination, next: Next) -> bool {
    match action {
        RouteAction::Resolve { server } => match t {
            target::Destination::Domain(d, p) => next matches Next::Lookup {
                host,
                port,
                server: s,
            } && host@ == d && port == p && s == server,
            target::Destination::Socket(_) => next matches Next::RouteAfterResolve(x) && x@ == t,
        },
        _ => next == Next::Dispatch(action),
    }
}

/// What comes next for a connection.
pub open spec fn routed_tcp(action: RouteAction, t: target::Destination, next: Next) -> bool {
    match action {
        RouteAction::Sniff { timeout_ms, override_destination, sniff_types } => next == (
        Next::Sniff { timeout_ms, override_destination, sniff_types }),
        _ => resolve_step(action, t, next),
    }
}

/// What comes next for a datagram.
pub open spec fn routed_udp(
    stage: Stage,
    action: RouteAction,
    t: target::Destination,
    next: Next,
) -> bool {
    if stage == Stage::AfterResolve {
        next == Next::Dispatch(action)
    } else if stage == Stage::First && action is Sniff {
        next is RouteAfterSniff
    } else {
        resolve_step(action, t, next)
    }
}

/// How many rounds of routing may still follow.
pub open spec fn rounds_left(stage: Stage) -> nat {
    match stage {
        Stage::First => 2,
        Stage::AfterSniff => 1,
        Stage::AfterResolve => 0,
    }
}

/// The stage of the next round, if there is one.
pub open spec fn next_stage(next: Next) -> Option<Stage> {
    match next {
        Next::Sniff { .. } => Some(Stage::AfterSniff),
        Next::RouteAfterSniff => Some(Stage::AfterSniff),
        Next::Lookup { .. } => Some(Stage::AfterResolve),
        Next::RouteAfterResolve(_) => Some(Stage::AfterResolve),
        Next::Dispatch(_) => None,
    }
}

/// The stage of the next round, if there is one.
pub fn stage_after(next: &Next) -> (r: Option<Stage>)
    ensures
        r == next_stage(*next),
{
    match next {
        Next::Sniff { .. } => Some(Stage::AfterSniff),
        Next::RouteAfterSniff => Some(Stage::AfterSniff),
        Next::Lookup { .. } => Some(Stage::AfterResolve),
        Next::RouteAfterResolve(_) => Some(Stage::AfterResolve),
        Next::Dispatch(_) => None,
    }
}

/// Routing a connection comes to an end, provided that the router skips the rules
/// that a stage skips.
pub proof fn law_routing_tcp_ends(
    stage: Stage,
    action: RouteAction,
    t: target::Destination,
    next: Next,
)
    requires
        stage != Stage::First ==> !(action is Sniff),
        stage == Stage::AfterResolve ==> !(action is Resolve),
        routed_tcp(action, t, next),
    ensures
        next_stage(next) matches Some(s) ==> rounds_left(s) < rounds_left(stage),
{
}

/// Routing a datagram comes to an end, whatever the router answers.
pub proof fn law_routing_udp_ends(
    stage: Stage,
    action: RouteAction,
    t: target::Destination,
    next: Next,
)
    requires
        routed_udp(stage, action, t, next),
    ensures
        next_stage(next) matches Some(s) ==> rounds_left(s) < rounds_left(stage),
{
}

fn resolve_next(action: RouteAction, t: &Target) -> (r: Next)
    ensures
        resolve_step(action, t@, r),
{
    match action {
        RouteAction::Resolve { server } => match t {
            Target::Domain(d, p) => Next::Lookup {
                host: d.as_str().to_owned(),
                port: *p,
                server,
            },
            Target::Socket(a) => Next::RouteAfterResolve(Target::Socket(*a)),
        },
        a => Next::Dispatch(a),
    }
}

/// The step after the router's answer for a connection. What is dispatched at
/// the end is never a rule that sniffs or resolves.
pub fn after_route_tcp(stage: Stage, action: RouteAction, t: &Target) -> (r: Next)
    requires
        stage != Stage::First ==> !(action is Sniff),
        stage == Stage::AfterResolve ==> !(action is Resolve),
    ensures
        routed_tcp(action, t@, r),
        r matches Next::Dispatch(a) ==> a is DnsOut || a is Outbound,
{
    match action {
        RouteAction::Sniff { timeout_ms, override_destination, sniff_types } => Next::Sniff {
            timeout_ms,
            override_destination,
            sniff_types,
        },
        a => resolve_next(a, t),
    }
}

/// The step after the router's answer for a datagram. Datagrams are not sniffed:
/// a rule that sniffs is passed over.
pub fn after_route_udp(stage: Stage, action: RouteAction, t: &Target) -> (r: Next)
    ensures
        routed_udp(stage, action, t@, r),
{
    match stage {
        Stage::AfterResolve => Next::Dispatch(action),
        Stage::First => match action {
            RouteAction::Sniff { .. } => Next::RouteAfterSniff,
            a => resolve_next(a, t),
        },
        Stage::AfterSniff => resolve_next(action, t),
    }
}

/// The destination by which to route once a name has been looked up: the
/// address if there is one, and else the name.
pub fn after_lookup(t: &Target, found: Option<IpAddr>) -> (r: Next)
    ensures
        r matches Next::RouteAfterResolve(x) && x@ == (match found {
            Some(ip) => target::Destination::Socket(
                SocketAddr { ip, port: target::port_of(t@) },
            ),
            None => t@,
        }),
{
    match found {
        Some(ip) => Next::RouteAfterResolve(Target::Socket(SocketAddr { ip, port: t.port() })),
        None => Next::RouteAfterResolve(t.copy()),
    }
}

/// Who takes a connection.
pub enum Taker {
    /// The resolver.
    Dns,
    /// An outbound.
    Outbound(String),
    /// Nobody.
    Dropped,
}

/// Who takes a connection.
pub fn dispatch_tcp(action: RouteAction) -> (r: Taker)
    requires
        action is DnsOut || action is Outbound,
    ensures
        match action {
            RouteAction::Outbound(tag) => r == Taker::Outbound(tag),
            _ => r is Dns,
        },
{
    match action {
        RouteAction::Outbound(tag) => Taker::Outbound(tag),
        _ => Taker::Dns,
    }
}

/// Who takes a datagram; rules that sniff or resolve have nobody.
pub fn dispatch_udp(action: RouteAction) -> (r: Taker)
    ensures
        match action {
            RouteAction::DnsOut => r is Dns,
            RouteAction::Outbound(tag) => r == Taker::Outbound(tag),
            _ => r is Dropped,
        },
{
    match action {
        RouteAction::DnsOut => Taker::Dns,
        RouteAction::Outbound(tag) => Taker::Outbound(tag),
        _ => Taker::Dropped,
    }
}

/// The error for an outbound that does not exist.
pub fn missing_outbound(tag: &str) -> (r: String)
    ensures
        r@ == "outbound '"@ + tag@ + "' not found"@,
{
    let mut t: Vec<char> = text::chars_of("outbound '");
    text::push_text(&mut t, tag);
    text::push_text(&mut t, "' not found");
    text::string_of(t.as_slice())
}

/// The address that stands for a peer which is gone.
pub fn peer_or_none(peer: Option<SocketAddr>) -> (r: SocketAddr)
    ensures
        r == (match peer {
            Some(a) => a,
            None => SocketAddr { ip: IpAddr::V4(0), port: 0 },
        }),
{
    match peer {
        Some(a) => a,
        None => SocketAddr { ip: IpAddr::V4(0), port: 0 },
    }
}

// UDP sessions

/// The key of a session: source, destination, outbound. The same source and
/// destination can have sessions on several outbounds.
pub type SessionKey = (SocketAddr, Seq<char>, Seq<char>);

/// A session: the caller's number for it, and the reading of the monotonic clock
/// at which it was last seen, in nanoseconds.
#[derive(Clone, Copy)]
pub struct UdpSessionHandle {
    pub id: u64,
    pub last_seen: u64,
}

/// The UDP sessions.
pub struct UdpSessionTable {
    sessions: Table<(SocketAddr, String, String), UdpSessionHandle>,
}

impl View for UdpSessionTable {
    type V = Map<SessionKey, UdpSessionHandle>;

    closed spec fn view(&self) -> Map<SessionKey, UdpSessionHandle> {
        self.sessions@
    }
}

/// Whether a session is kept at `now`: it is open, and was seen within twice
/// the longest timeout.
pub open spec fn session_kept(h: UdpSessionHandle, closed: Seq<u64>, now: u64) -> bool {
    &&& !closed.contains(h.id)
    &&& (if now >= h.last_seen {
        now - h.last_seen
    } else {
        0
    }) < 2 * UDP_TIMEOUT * NANOS
}

fn number_among(v: &[u64], x: u64) -> (r: bool)
    ensures
        r == v@.contains(x),
{
    let mut i: usize = 0;
    while i < v.len()
        invariant
            i <= v@.len(),
            forall|k: int| 0 <= k < i ==> v@[k] != x,
        decreases v@.len() - i,
    {
        if v[i] == x {
            assert(v@[i as int] == x);
            return true;
        }
        i = i + 1;
    }
    false
}

/// The key of a session of a source, a destination and an outbound.
pub open spec fn session_key(
    src: SocketAddr,
    t: target::Destination,
    outbound: Seq<char>,
) -> SessionKey {
    (src, target::destination_text(t), outbound)
}

impl UdpSessionTable {
    /// No key occurs twice.
    pub closed spec fn wf(self) -> bool {
        self.sessions.wf()
    }

    /// No sessions.
    pub fn new() -> (r: Self)
        ensures
            r.wf(),
            r@ == Map::<SessionKey, UdpSessionHandle>::empty(),
    {
        UdpSessionTable { sessions: Table::new() }
    }

    /// The number of the session, whether it is open or not.
    pub fn find(&self, src: SocketAddr, t: &Target, outbound: &str) -> (r: Option<u64>)
        ensures
            ({
                let k = session_key(src, t@, outbound@);
                match r {
                    Some(id) => self@.contains_key(k) && self@[k].id == id,
                    None => !self@.contains_key(k),
                }
            }),
    {
        let k: (SocketAddr, String, String) = (src, t.to_string(), outbound.to_owned());
        match self.sessions.get(&k) {
            Some(h) => Some(h.id),
            None => None,
        }
    }

    /// Notes a datagram of a session that is open. One that is closed, as the
    /// caller tells, is taken out.
    pub fn get_live(
        &mut self,
        src: SocketAddr,
        t: &Target,
        outbound: &str,
        closed: bool,
        now: u64,
    ) -> (r: Option<u64>)
        requires
            old(self).wf(),
        ensures
            final(self).wf(),
            ({
                let k = session_key(src, t@, outbound@);
                if old(self)@.contains_key(k) && !closed {
                    &&& r == Some(old(self)@[k].id)
                    &&& final(self)@ == old(self)@.insert(
                        k,
                        UdpSessionHandle { id: old(self)@[k].id, last_seen: now },
                    )
                } else {
                    &&& r is None
                    &&& final(self)@ == old(self)@.remove(k)
                }
            }),
    {
        let k: (SocketAddr, String, String) = (src, t.to_string(), outbound.to_owned());
        let known: Option<u64> = match self.sessions.get(&k) {
            Some(h) => Some(h.id),
            None => None,
        };
        if let Some(id) = known {
            if !closed {
                self.sessions.insert(k, UdpSessionHandle { id, last_seen: now });
                return Some(id);
            }
        }
        let _ = self.sessions.remove(&k);
        None
    }

    /// Notes a new session.
    pub fn insert(&mut self, src: SocketAddr, t: &Target, outbound: &str, id: u64, now: u64)
        requires
            old(self).wf(),
        ensures
            final(self).wf(),
            final(self)@ == old(self)@.insert(
                session_key(src, t@, outbound@),
                (UdpSessionHandle { id, last_seen: now }),
            ),
    {
        self.sessions.insert(
            (src, t.to_string(), outbound.to_owned()),
            UdpSessionHandle { id, last_seen: now },
        );
    }

    /// Takes out the sessions that are closed and those of which nothing has
    /// been seen for long.
    pub fn gc(&mut self, closed: &[u64], now: u64)
        requires
            old(self).wf(),
        ensures
            final(self).wf(),
            final(self)@ == old(self)@.restrict(
                Set::new(
                    |k: SessionKey|
                        old(self)@.contains_key(k) && session_kept(old(self)@[k], closed@, now),
                ),
            ),
    {
        let ghost p = |k: SessionKey, h: UdpSessionHandle| session_kept(h, closed@, now);
        let mut keep: Vec<bool> = Vec::new();
        let mut i: usize = 0;
        while i < self.sessions.len()
            invariant
                *self == *old(self),
                i <= self.sessions.entries().len(),
                keep@.len() == i,
                forall|j: int|
                    0 <= j < i ==> #[trigger] keep@[j] == session_kept(
                        self.sessions.entries()[j].1,
                        closed@,
                        now,
                    ),
            decreases self.sessions.entries().len() - i,
        {
            let h: UdpSessionHandle = self.sessions.at(i).1;
            let age: u64 = if now >= h.last_seen {
                now - h.last_seen
            } else {
                0
            };
            keep.push(!number_among(closed, h.id) && age < 2 * UDP_TIMEOUT * NANOS);
            i = i + 1;
        }
        self.sessions.retain(&keep, Ghost(p));
        assert(Set::new(
            |k: SessionKey| old(self)@.contains_key(k) && session_kept(old(self)@[k], closed@, now),
        ) =~= Set::new(
            |k: SessionKey|
                old(self).sessions@.contains_key(k) && p(k, old(self).sessions@[k]),
        ));
    }
}

/// A UDP session lasts ten seconds to the ports of DNS, NTP and STUN, thirty to
/// that of QUIC, and five minutes to any other.
pub proof fn law_idle_seconds(port: u16)
    ensures
        idle_seconds(port) == 10 <==> port == 53 || port == 123 || port == 3478,
        idle_seconds(port) == 30 <==> port == 443,
        idle_seconds(port) == 10 || idle_seconds(port) == 30 || idle_seconds(port) == 300,
{
}

/// What sniffing does to a flow. The port stays. A protocol that was noted stays;
/// else the one that was found is noted. A name replaces the destination exactly
/// if it is to override it, and else is noted beside it. If nothing is found,
/// nothing changes.
pub proof fn law_sniffing_of_flow(
    f: FlowView,
    found: sniff::Found,
    override_destination: bool,
)
    ensures
        ({
            let g = after_sniff_result(f, found, override_destination);
            &&& target::port_of(g.target) == target::port_of(f.target)
            &&& found is None ==> g == f
            &&& f.protocol is Some ==> g.protocol == f.protocol
            &&& found is Some && f.protocol is None ==> g.protocol == Some((found->0).1)
            &&& found is Some && (found->0).0 is None ==> g.target == f.target && g.domain
                == f.domain
            &&& found is Some && (found->0).0 is Some && override_destination ==> g.target
                == target::Destination::Domain((found->0).0->0, target::port_of(f.target))
                && g.domain == f.domain
            &&& found is Some && (found->0).0 is Some && !override_destination ==> g.target
                == f.target && g.domain == (found->0).0
        }),
{
}

/// DNS over TCP is noted for a message with its length before it, on port 53 and
/// where no protocol is noted; and nothing else of the flow ever changes.
pub proof fn law_dns_check_of_flow(f: FlowView, length: Seq<u8>, message: Seq<u8>)
    requires
        length.len() == 2,
    ensures
        ({
            let g = after_dns_check(f, length + message);
            &&& g.target == f.target && g.domain == f.domain
            &&& g.protocol == (if target::port_of(f.target) == 53 && f.protocol is None
                && message.len() >= 12 && sniff::looks_like_dns(message) {
                Some("dns"@)
            } else {
                f.protocol
            })
        }),
{
    assert((length + message).skip(2) =~= message);
}

/// A session that is open is kept for ten minutes after it was last seen, and no
/// longer.
pub proof fn law_session_is_kept(h: UdpSessionHandle, closed: Seq<u64>, now: u64)
    ensures
        session_kept(h, closed, now) <==> !closed.contains(h.id) && now < h.last_seen
            + 600_000_000_000,
{
}

/// Where routing goes after the router's answer. A rule that sniffs leads to
/// sniffing at once, with its settings. A rule that resolves leads to a lookup of
/// the destination's name, or straight on if it is an address. Everything else is
/// dispatched as it is. A datagram is not sniffed: it is routed again instead.
pub proof fn law_steps_of_routing(action: RouteAction, t: target::Destination, tcp: Next, udp: Next)
    requires
        routed_tcp(action, t, tcp),
        routed_udp(Stage::First, action, t, udp),
    ensures
        action is Sniff ==> (tcp matches Next::Sniff {
            timeout_ms,
            override_destination,
            sniff_types,
        } && action == (RouteAction::Sniff { timeout_ms, override_destination, sniff_types }))
            && udp is RouteAfterSniff,
        action is Resolve && t is Domain ==> (tcp matches Next::Lookup { host, port, server }
            && t == target::Destination::Domain(host@, port) && action == (RouteAction::Resolve {
            server,
        })) && (udp matches Next::Lookup { host, port, server } && t
            == target::Destination::Domain(host@, port)),
        action is Resolve && t is Socket ==> (tcp matches Next::RouteAfterResolve(x) && x@ == t)
            && (udp matches Next::RouteAfterResolve(x) && x@ == t),
        action is DnsOut || action is Outbound ==> tcp == Next::Dispatch(action) && udp
            == Next::Dispatch(action),
{
}

} // verus!
