//! Transparent proxying on Linux: original destinations and UDP sessions.
use vstd::prelude::*;
use crate::app::dispatcher;
use crate::dns::cache::NANOS;
use crate::inbound::tun::forms;
use crate::inbound::tun::forms_v6;
use crate::net;
use crate::net::{IpAddr, SocketAddr};
use crate::table::Table;

verus! {

/// The family of an IPv4 socket address.
pub const AF_INET: i32 = 2;

/// The family of an IPv6 socket address.
pub const AF_INET6: i32 = 10;

/// The level of IPv4 control items.
pub const IPPROTO_IP: i32 = 0;

/// The kind of the control item that holds an IPv4 destination.
pub const IP_ORIGDSTADDR: i32 = 20;

/// The level of IPv6 control items.
pub const IPPROTO_IPV6: i32 = 41;

/// The kind of the control item that holds an IPv6 destination.
pub const IPV6_ORIGDSTADDR: i32 = 74;

/// No more files can be opened, in the process or at all.
pub const EMFILE: i32 = 24;

pub const ENFILE: i32 = 23;

/// Milliseconds to wait once no more files can be opened.
pub const BACKOFF_MS: u64 = 200;

/// The milliseconds to wait after a failed accept, by the error's number.
pub fn accept_backoff_ms(raw: Option<i32>) -> (r: u64)
    ensures
        r == (if raw == Some(EMFILE) || raw == Some(ENFILE) {
            BACKOFF_MS
        } else {
            0
        }),
{
    match raw {
        Some(e) => if e == EMFILE || e == ENFILE {
            BACKOFF_MS
        } else {
            0
        },
        None => 0,
    }
}

/// The IPv4 address and port in the bytes of a socket address.
pub open spec fn v4_in(sa: Seq<u8>) -> SocketAddr {
    SocketAddr {
        ip: IpAddr::V4(net::from_octets(sa.subrange(4, 8)) as u32),
        port: (sa[2] * 256 + sa[3]) as u16,
    }
}

/// The IPv6 address and port in the bytes of a socket address.
pub open spec fn v6_in(sa: Seq<u8>) -> SocketAddr {
    SocketAddr {
        ip: IpAddr::V6(net::from_octets(sa.subrange(8, 24)) as u128),
        port: (sa[2] * 256 + sa[3]) as u16,
    }
}

fn read_v4(sa: &[u8]) -> (r: SocketAddr)
    requires
        sa@.len() >= 8,
    ensures
        r == v4_in(sa@),
{
    SocketAddr {
        ip: IpAddr::V4(net::v4_of_octets(vstd::slice::slice_subrange(sa, 4, 8))),
        port: sa[2] as u16 * 256 + sa[3] as u16,
    }
}

fn read_v6(sa: &[u8]) -> (r: SocketAddr)
    requires
        sa@.len() >= 24,
    ensures
        r == v6_in(sa@),
{
    SocketAddr {
        ip: IpAddr::V6(net::v6_of_octets(vstd::slice::slice_subrange(sa, 8, 24))),
        port: sa[2] as u16 * 256 + sa[3] as u16,
    }
}

/// The address in the bytes of a socket address, by its family. Another family
/// is handed back.
pub fn sockaddr_storage_to_socketaddr(family: i32, sa: &[u8]) -> (r: Result<SocketAddr, i32>)
    requires
        sa@.len() >= 24,
    ensures
        r == (if family == AF_INET {
            Ok(v4_in(sa@))
        } else if family == AF_INET6 {
            Ok(v6_in(sa@))
        } else {
            Err(family)
        }),
{
    if family == AF_INET {
        Ok(read_v4(sa))
    } else if family == AF_INET6 {
        Ok(read_v6(sa))
    } else {
        Err(family)
    }
}

/// A control item of a datagram.
pub struct ControlItem {
    pub level: i32,
    pub kind: i32,
    pub data: Vec<u8>,
}

/// Whether an item holds a destination.
pub open spec fn holds_destination(c: ControlItem) -> bool {
    ||| c.level == IPPROTO_IP && c.kind == IP_ORIGDSTADDR
    ||| c.level == IPPROTO_IPV6 && c.kind == IPV6_ORIGDSTADDR
}

/// The destination in the first item from `i` on that holds one.
pub open spec fn destination_in(items: Seq<ControlItem>, i: int) -> Option<SocketAddr>
    decreases items.len() - i,
{
    if i < 0 || i >= items.len() {
        None
    } else if items[i].level == IPPROTO_IP && items[i].kind == IP_ORIGDSTADDR {
        Some(v4_in(items[i].data@))
    } else if items[i].level == IPPROTO_IPV6 && items[i].kind == IPV6_ORIGDSTADDR {
        Some(v6_in(items[i].data@))
    } else {
        destination_in(items, i + 1)
    }
}

/// The original destination of a datagram, out of its control items.
pub fn extract_original_dst_from_cmsg(items: &Vec<ControlItem>) -> (r: Option<SocketAddr>)
    requires
        forall|i: int|
            0 <= i < items@.len() && holds_destination(#[trigger] items@[i])
                ==> items@[i].data@.len() >= 24 || (items@[i].level == IPPROTO_IP
                && items@[i].data@.len() >= 8),
    ensures
        r == destination_in(items@, 0),
{
    let mut i: usize = 0;
    while i < items.len()
        invariant
            i <= items@.len(),
            destination_in(items@, 0) == destination_in(items@, i as int),
            forall|k: int|
                0 <= k < items@.len() && holds_destination(#[trigger] items@[k])
                    ==> items@[k].data@.len() >= 24 || (items@[k].level == IPPROTO_IP
                    && items@[k].data@.len() >= 8),
        decreases items@.len() - i,
    {
        let c: &ControlItem = &items[i];
        if c.level == IPPROTO_IP && c.kind == IP_ORIGDSTADDR {
            assert(holds_destination(items@[i as int]));
            return Some(read_v4(c.data.as_slice()));
        }
        if c.level == IPPROTO_IPV6 && c.kind == IPV6_ORIGDSTADDR {
            assert(holds_destination(items@[i as int]));
            return Some(read_v6(c.data.as_slice()));
        }
        i = i + 1;
    }
    None
}

/// Seconds after which a UDP session to a port ends when nothing is seen of it.
pub fn tproxy_udp_timeout_for_port(port: u16) -> (r: u64)
    ensures
        r == dispatcher::idle_seconds(port),
{
    dispatcher::udp_timeout_for_port(port)
}

/// A UDP session.
#[derive(Clone, Copy)]
pub struct UdpSessionEntry {
    /// The reading of the monotonic clock at which it was last seen, in
    /// nanoseconds.
    pub last_seen: u64,
    /// Seconds after which it ends when nothing is seen of it.
    pub timeout: u64,
}

/// The UDP sessions, by source and destination.
pub struct TProxySessions {
    sessions: Table<(SocketAddr, SocketAddr), UdpSessionEntry>,
}

impl View for TProxySessions {
    type V = Map<(SocketAddr, SocketAddr), UdpSessionEntry>;

    closed spec fn view(&self) -> Map<(SocketAddr, SocketAddr), UdpSessionEntry> {
        self.sessions@
    }
}

/// Whether a session goes on at `now`.
pub open spec fn goes_on(e: UdpSessionEntry, now: u64) -> bool {
    (if now >= e.last_seen {
        now - e.last_seen
    } else {
        0
    }) < e.timeout * NANOS
}

impl TProxySessions {
    /// No session occurs twice.
    pub closed spec fn wf(self) -> bool {
        self.sessions.wf()
    }

    /// No sessions.
    pub fn new() -> (r: Self)
        ensures
            r.wf(),
            r@ == Map::<(SocketAddr, SocketAddr), UdpSessionEntry>::empty(),
    {
        TProxySessions { sessions: Table::new() }
    }

    /// Notes a datagram. A session keeps the timeout that it began with, which
    /// its destination's port gives. Tells whether it is new.
    pub fn touch(&mut self, src: SocketAddr, dst: SocketAddr, now: u64) -> (fresh: bool)
        requires
            old(self).wf(),
        ensures
            final(self).wf(),
            fresh == !old(self)@.contains_key((src, dst)),
            final(self)@ == old(self)@.insert(
                (src, dst),
                (UdpSessionEntry {
                    last_seen: now,
                    timeout: if fresh {
                        dispatcher::idle_seconds(dst.port)
                    } else {
                        old(self)@[(src, dst)].timeout
                    },
                }),
            ),
    {
        let key: (SocketAddr, SocketAddr) = (src, dst);
        let known: Option<u64> = match self.sessions.get(&key) {
            Some(e) => Some(e.timeout),
            None => None,
        };
        let (fresh, timeout): (bool, u64) = match known {
            Some(t) => (false, t),
            None => (true, tproxy_udp_timeout_for_port(dst.port)),
        };
        self.sessions.insert(key, UdpSessionEntry { last_seen: now, timeout });
        fresh
    }

    /// Ends the sessions whose time is over.
    pub fn gc(&mut self, now: u64)
        requires
            old(self).wf(),
        ensures
            final(self).wf(),
            final(self)@ == old(self)@.restrict(
                Set::new(
                    |k: (SocketAddr, SocketAddr)|
                        old(self)@.contains_key(k) && goes_on(old(self)@[k], now),
                ),
            ),
    {
        let ghost p = |k: (SocketAddr, SocketAddr), e: UdpSessionEntry| goes_on(e, now);
        let mut keep: Vec<bool> = Vec::new();
        let mut i: usize = 0;
        while i < self.sessions.len()
            invariant
                *self == *old(self),
                i <= self.sessions.entries().len(),
                keep@.len() == i,
                forall|j: int|
                    0 <= j < i ==> #[trigger] keep@[j] == goes_on(
                        self.sessions.entries()[j].1,
                        now,
                    ),
            decreases self.sessions.entries().len() - i,
        {
            let e: UdpSessionEntry = self.sessions.at(i).1;
            let age: u64 = if now >= e.last_seen {
                now - e.last_seen
            } else {
                0
            };
            keep.push((age as u128) < e.timeout as u128 * NANOS as u128);
            i = i + 1;
        }
        self.sessions.retain(&keep, Ghost(p));
        assert(Set::new(
            |k: (SocketAddr, SocketAddr)|
                old(self)@.contains_key(k) && goes_on(old(self)@[k], now),
        ) =~= Set::new(
            |k: (SocketAddr, SocketAddr)|
                old(self).sessions@.contains_key(k) && p(k, old(self).sessions@[k]),
        ));
    }
}

/// A port in two bytes, the high one first.
pub open spec fn port_bytes(port: u16) -> Seq<u8> {
    seq![(port / 256) as u8, (port % 256) as u8]
}

/// A socket address of IPv4 as the system writes it: family, port, address, and
/// what fills it up.
pub open spec fn system_v4(family: Seq<u8>, ip: u32, port: u16, fill: Seq<u8>) -> Seq<u8> {
    family + port_bytes(port) + forms::big_endian(ip as nat, 4) + fill
}

/// A socket address of IPv6 as the system writes it: family, port, flow,
/// address, and what fills it up.
pub open spec fn system_v6(
    family: Seq<u8>,
    ip: u128,
    port: u16,
    flow: Seq<u8>,
    fill: Seq<u8>,
) -> Seq<u8> {
    family + port_bytes(port) + flow + forms::big_endian(ip as nat, 16) + fill
}

/// A socket address is read as the system writes it, whatever its flow and what
/// fills it up are.
pub proof fn law_system_address_is_read(
    family: Seq<u8>,
    v4: u32,
    v6: u128,
    port: u16,
    flow: Seq<u8>,
    fill: Seq<u8>,
)
    requires
        family.len() == 2,
        flow.len() == 4,
    ensures
        v4_in(system_v4(family, v4, port, fill)) == (SocketAddr { ip: IpAddr::V4(v4), port }),
        v6_in(system_v6(family, v6, port, flow, fill)) == (SocketAddr { ip: IpAddr::V6(v6), port }),
{
    let a = system_v4(family, v4, port, fill);
    let b = system_v6(family, v6, port, flow, fill);
    forms::lemma_address_v4(v4);
    forms_v6::lemma_address_v6(v6);
    assert(a.subrange(4, 8) =~= forms::big_endian(v4 as nat, 4));
    assert(b.subrange(8, 24) =~= forms::big_endian(v6 as nat, 16));
    assert(a[2] == (port / 256) as u8 && a[3] == (port % 256) as u8);
    assert(b[2] == (port / 256) as u8 && b[3] == (port % 256) as u8);
}

proof fn lemma_destination(items: Seq<ControlItem>, i: int, k: int)
    requires
        0 <= i <= k <= items.len(),
        forall|j: int| i <= j < k ==> !holds_destination(#[trigger] items[j]),
    ensures
        destination_in(items, i) == destination_in(items, k),
    decreases k - i,
{
    if i < k {
        assert(!holds_destination(items[i]));
        lemma_destination(items, i + 1, k);
    }
}

/// The original destination of a datagram is the one in the first control item
/// of level 0 and kind 20, for IPv4, or of level 41 and kind 74, for IPv6. Items
/// of other kinds do not matter, and without such an item there is none.
pub proof fn law_original_destination_is_found(items: Seq<ControlItem>, k: int)
    requires
        0 <= k <= items.len(),
        forall|j: int|
            0 <= j < k ==> !((#[trigger] items[j]).level == 0 && items[j].kind == 20) && !(
            items[j].level == 41 && items[j].kind == 74),
    ensures
        k == items.len() ==> destination_in(items, 0) is None,
        k < items.len() && items[k].level == 0 && items[k].kind == 20 ==> destination_in(items, 0)
            == Some(v4_in(items[k].data@)),
        k < items.len() && items[k].level == 41 && items[k].kind == 74 ==> destination_in(items, 0)
            == Some(v6_in(items[k].data@)),
{
    assert forall|j: int| 0 <= j < k implies !holds_destination(#[trigger] items[j]) by {
    }
    lemma_destination(items, 0, k);
}

/// A session goes on as long as less than its timeout, in seconds, has passed
/// since it was last seen.
pub proof fn law_session_ends_in_time(e: UdpSessionEntry, now: u64)
    requires
        e.timeout > 0,
    ensures
        goes_on(e, now) <==> now < e.last_seen + e.timeout * 1_000_000_000,
{
}

} // verus!
