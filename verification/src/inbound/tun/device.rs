//! The life of a TUN inbound: which addresses it uses, how it reacts to its
//! device and its listeners, and which UDP sessions it knows.
use vstd::prelude::*;
use crate::dns::cache::NANOS;
use crate::inbound::tun::packet::TunEndpoint;
use crate::inbound::tun::route;
use crate::inbound::tun::route::TunInboundConfig;
use crate::inbound::tun::translation;
use crate::net::{IpAddr, SocketAddr};
use crate::text;

verus! {

/// Seconds after which an idle UDP session ends, unless the settings say
/// otherwise.
pub const DEFAULT_UDP_TIMEOUT_SECS: u64 = 300;

/// Bytes by which the read buffer is larger than the largest packet.
pub const PACKET_MARGIN: usize = 64;

/// How often binding a listener is tried.
pub const BIND_ATTEMPTS: u32 = 3;

/// Why a TUN inbound does not start.
#[derive(Clone, Copy, Debug, PartialEq, Eq, Structural)]
pub enum TunError {
    /// None of the configured addresses parses.
    NoAddress,
}

/// Seconds after which an idle UDP session ends.
pub fn udp_timeout_secs(cfg: &TunInboundConfig) -> (r: u64)
    ensures
        r == (if cfg.udp_timeout == 0 {
            DEFAULT_UDP_TIMEOUT_SECS
        } else {
            cfg.udp_timeout
        }),
{
    if cfg.udp_timeout == 0 {
        DEFAULT_UDP_TIMEOUT_SECS
    } else {
        cfg.udp_timeout
    }
}

/// Nanoseconds after which an idle UDP session or connection ends.
pub fn idle_nanos(cfg: &TunInboundConfig) -> (r: u128)
    ensures
        r == (if cfg.udp_timeout == 0 {
            DEFAULT_UDP_TIMEOUT_SECS
        } else {
            cfg.udp_timeout
        }) * NANOS,
{
    udp_timeout_secs(cfg) as u128 * NANOS as u128
}

/// The first address of a family among the settings.
pub open spec fn first_address(cfg: TunInboundConfig, v4: bool) -> Option<IpAddr> {
    let all = route::addresses_of(route::texts(cfg.address@), v4);
    if all.len() > 0 {
        Some(all[0].0)
    } else {
        None
    }
}

/// The device's addresses: of each family the first that is configured, and
/// the one after it for connections to seem to come from. The listeners have
/// no ports yet.
pub fn tun_addresses(cfg: &TunInboundConfig) -> (r: Result<TunEndpoint, TunError>)
    ensures
        match r {
            Ok(e) => {
                &&& first_address(*cfg, true) is Some || first_address(*cfg, false) is Some
                &&& match first_address(*cfg, true) {
                    Some(ip) => e.inet4_addr is Some && ip == IpAddr::V4(e.inet4_addr->0)
                        && e.inet4_next is Some && route::next_address(ip) == IpAddr::V4(
                        e.inet4_next->0,
                    ),
                    None => e.inet4_addr is None && e.inet4_next is None,
                }
                &&& match first_address(*cfg, false) {
                    Some(ip) => e.inet6_addr is Some && ip == IpAddr::V6(e.inet6_addr->0)
                        && e.inet6_next is Some && route::next_address(ip) == IpAddr::V6(
                        e.inet6_next->0,
                    ),
                    None => e.inet6_addr is None && e.inet6_next is None,
                }
                &&& e.tcp_port_v4 == 0
                &&& e.tcp_port_v6 == 0
            },
            Err(e) => e == TunError::NoAddress && first_address(*cfg, true) is None
                && first_address(*cfg, false) is None,
        },
{
    let all4: Vec<(IpAddr, u8)> = route::parse_addresses(&cfg.address, true);
    let all6: Vec<(IpAddr, u8)> = route::parse_addresses(&cfg.address, false);
    proof {
        route::lemma_addresses(route::texts(cfg.address@), true);
        route::lemma_addresses(route::texts(cfg.address@), false);
    }
    let mut e: TunEndpoint = TunEndpoint {
        inet4_addr: None,
        inet4_next: None,
        inet6_addr: None,
        inet6_next: None,
        tcp_port_v4: 0,
        tcp_port_v6: 0,
    };
    if all4.len() == 0 && all6.len() == 0 {
        return Err(TunError::NoAddress);
    }
    if all4.len() > 0 {
        assert(all4@[0].0 is V4);
        if let IpAddr::V4(v) = all4[0].0 {
            e.inet4_addr = Some(v);
            e.inet4_next = Some(v.wrapping_add(1));
        }
    }
    if all6.len() > 0 {
        assert(!(all6@[0].0 is V4));
        if let IpAddr::V6(v) = all6[0].0 {
            e.inet6_addr = Some(v);
            e.inet6_next = Some(v.wrapping_add(1));
        }
    }
    Ok(e)
}

/// The netmask of the device's IPv4 address.
pub fn device_netmask(cfg: &TunInboundConfig) -> (r: Option<u32>)
    ensures
        ({
            let all = route::addresses_of(route::texts(cfg.address@), true);
            r == (if all.len() > 0 {
                Some(route::mask_v4(all[0].1) as u32)
            } else {
                None
            })
        }),
{
    let all: Vec<(IpAddr, u8)> = route::parse_addresses(&cfg.address, true);
    if all.len() > 0 {
        Some(route::prefix_len_to_mask_v4(all[0].1))
    } else {
        None
    }
}

/// The name that the device goes by: the one that the system gave it, else the
/// configured one, else `tun0`.
pub fn interface_name(system: Option<&str>, configured: Option<&str>) -> (r: String)
    ensures
        r@ == (if system is Some && system->0@.len() > 0 {
            system->0@
        } else if configured is Some {
            configured->0@
        } else {
            "tun0"@
        }),
{
    if let Some(s) = system {
        if !s.is_empty() {
            return s.to_owned();
        }
    }
    match configured {
        Some(c) => c.to_owned(),
        None => "tun0".to_owned(),
    }
}

/// The size of the read buffer.
pub fn packet_buffer_len(cfg: &TunInboundConfig) -> (r: usize)
    requires
        cfg.mtu + PACKET_MARGIN <= usize::MAX,
    ensures
        r == cfg.mtu + PACKET_MARGIN,
{
    cfg.mtu as usize + PACKET_MARGIN
}

/// What follows an attempt to bind a listener.
#[derive(Clone, Copy, Debug, PartialEq, Eq, Structural)]
pub enum BindStep {
    /// The listener is there.
    Ready,
    /// Try again after this many seconds.
    RetryAfter(u64),
    /// Go on without a listener.
    GiveUp,
}

/// What follows the attempt with the number `attempt`, counted from zero.
pub fn after_bind(attempt: u32, bound: bool) -> (r: BindStep)
    ensures
        r == (if bound {
            BindStep::Ready
        } else if attempt + 1 < BIND_ATTEMPTS {
            BindStep::RetryAfter(1)
        } else {
            BindStep::GiveUp
        }),
{
    if bound {
        BindStep::Ready
    } else if attempt < BIND_ATTEMPTS - 1 {
        BindStep::RetryAfter(1)
    } else {
        BindStep::GiveUp
    }
}

/// The result of a read from the device.
#[derive(Clone, Copy, Debug, PartialEq, Eq, Structural)]
pub enum ReadEvent {
    /// This many bytes were read.
    Bytes(usize),
    /// The read failed.
    Failed,
}

/// What follows a read from the device.
#[derive(Clone, Copy, Debug, PartialEq, Eq, Structural)]
pub enum ReadStep {
    /// The device is closed.
    Stop,
    /// Process this many bytes.
    Process(usize),
    /// Read again after this many milliseconds.
    RetryAfterMillis(u64),
}

/// What follows a read from the device.
pub fn after_read(event: ReadEvent) -> (r: ReadStep)
    ensures
        r == match event {
            ReadEvent::Bytes(n) => if n == 0 {
                ReadStep::Stop
            } else {
                ReadStep::Process(n)
            },
            ReadEvent::Failed => ReadStep::RetryAfterMillis(10),
        },
{
    match event {
        ReadEvent::Bytes(n) => if n == 0 {
            ReadStep::Stop
        } else {
            ReadStep::Process(n)
        },
        ReadEvent::Failed => ReadStep::RetryAfterMillis(10),
    }
}

/// A UDP session between two addresses. `last_seen` is a reading of the monotonic
/// clock, in nanoseconds.
#[derive(Clone, Copy, Debug, PartialEq, Eq, Structural)]
pub struct UdpEntry {
    pub src: SocketAddr,
    pub dst: SocketAddr,
    pub last_seen: u64,
}

/// The UDP sessions of a device, at most one for two addresses.
pub struct UdpSessions {
    entries: Vec<UdpEntry>,
}

impl View for UdpSessions {
    type V = Map<(SocketAddr, SocketAddr), u64>;

    /// When each session was last seen.
    closed spec fn view(&self) -> Map<(SocketAddr, SocketAddr), u64> {
        session_map(self.entries@)
    }
}

/// When each session of a list was last seen.
pub closed spec fn session_map(entries: Seq<UdpEntry>) -> Map<(SocketAddr, SocketAddr), u64>
    decreases entries.len(),
{
    if entries.len() == 0 {
        Map::empty()
    } else {
        let e = entries.last();
        session_map(entries.drop_last()).insert((e.src, e.dst), e.last_seen)
    }
}

/// Whether no two entries are of the same session.
spec fn distinct(entries: Seq<UdpEntry>) -> bool {
    forall|i: int, j: int|
        0 <= i < j < entries.len() ==> (#[trigger] entries[i].src, entries[i].dst) != (
            #[trigger] entries[j].src,
            entries[j].dst,
        )
}

proof fn lemma_session_map(entries: Seq<UdpEntry>)
    requires
        distinct(entries),
    ensures
        forall|k: (SocketAddr, SocketAddr)| #[trigger]
            session_map(entries).contains_key(k) <==> exists|i: int|
                0 <= i < entries.len() && (#[trigger] entries[i].src, entries[i].dst) == k,
        forall|i: int|
            0 <= i < entries.len() ==> session_map(entries)[(
                #[trigger] entries[i].src,
                entries[i].dst,
            )] == entries[i].last_seen,
    decreases entries.len(),
{
    if entries.len() > 0 {
        let d = entries.drop_last();
        assert(distinct(d)) by {
            assert forall|i: int, j: int| 0 <= i < j < d.len() implies (
                #[trigger] d[i].src,
                d[i].dst,
            ) != (#[trigger] d[j].src, d[j].dst) by {
                assert((entries[i].src, entries[i].dst) != (entries[j].src, entries[j].dst));
            }
        }
        lemma_session_map(d);
        let n = entries.len() - 1;
        assert forall|k: (SocketAddr, SocketAddr)| #[trigger]
            session_map(entries).contains_key(k) <==> exists|i: int|
                0 <= i < entries.len() && (#[trigger] entries[i].src, entries[i].dst) == k by {
            if session_map(d).contains_key(k) {
                let i = choose|i: int| 0 <= i < d.len() && (#[trigger] d[i].src, d[i].dst) == k;
                assert((entries[i].src, entries[i].dst) == k);
            }
            if k == (entries[n].src, entries[n].dst) {
                assert((entries[n].src, entries[n].dst) == k);
            }
            if exists|i: int| 0 <= i < entries.len() && (#[trigger] entries[i].src, entries[i].dst)
                == k {
                let i = choose|i: int|
                    0 <= i < entries.len() && (#[trigger] entries[i].src, entries[i].dst) == k;
                if i < n {
                    assert((d[i].src, d[i].dst) == k);
                }
            }
        }
        assert forall|i: int| 0 <= i < entries.len() implies session_map(entries)[(
            #[trigger] entries[i].src,
            entries[i].dst,
        )] == entries[i].last_seen by {
            if i < n {
                assert(d[i] == entries[i]);
                assert((d[i].src, d[i].dst) == (entries[i].src, entries[i].dst));
                assert((entries[i].src, entries[i].dst) != (entries[n].src, entries[n].dst));
            }
        }
    }
}

impl UdpSessions {
    /// No two entries are of the same session.
    pub closed spec fn wf(self) -> bool {
        distinct(self.entries@)
    }

    /// No sessions.
    pub fn new() -> (r: Self)
        ensures
            r.wf(),
            r@ == Map::<(SocketAddr, SocketAddr), u64>::empty(),
    {
        UdpSessions { entries: Vec::new() }
    }

    /// Notes a datagram from `src` to `dst`; tells whether it begins a new
    /// session.
    pub fn touch(&mut self, src: SocketAddr, dst: SocketAddr, now: u64) -> (fresh: bool)
        requires
            old(self).wf(),
        ensures
            final(self).wf(),
            fresh == !old(self)@.contains_key((src, dst)),
            final(self)@ == old(self)@.insert((src, dst), now),
    {
        let ghost before = self.entries@;
        proof {
            lemma_session_map(before);
        }
        let n: usize = self.entries.len();
        let mut i: usize = 0;
        while i < n
            invariant
                n == self.entries@.len(),
                before == self.entries@,
                before == old(self).entries@,
                distinct(before),
                i <= n,
                forall|k: int|
                    0 <= k < i ==> (#[trigger] before[k].src, before[k].dst) != (src, dst),
            decreases n - i,
        {
            let e: UdpEntry = self.entries[i];
            if e.src == src && e.dst == dst {
                self.entries[i] = UdpEntry { src, dst, last_seen: now };
                proof {
                    let after = self.entries@;
                    lemma_session_map(before);
                    assert((before[i as int].src, before[i as int].dst) == (src, dst));
                    assert(distinct(after)) by {
                        assert forall|a: int, b: int| 0 <= a < b < after.len() implies (
                            #[trigger] after[a].src,
                            after[a].dst,
                        ) != (#[trigger] after[b].src, after[b].dst) by {
                            assert((before[a].src, before[a].dst) != (
                                before[b].src,
                                before[b].dst,
                            ));
                        }
                    }
                    lemma_session_map(after);
                    let goal = session_map(before).insert((src, dst), now);
                    assert forall|k: (SocketAddr, SocketAddr)| #[trigger]
                        session_map(after).contains_key(k) <==> goal.contains_key(k) by {
                        if session_map(after).contains_key(k) {
                            let a = choose|a: int|
                                0 <= a < after.len() && (#[trigger] after[a].src, after[a].dst)
                                    == k;
                            assert((before[a].src, before[a].dst) == k);
                        }
                        if goal.contains_key(k) && k != (src, dst) {
                            let a = choose|a: int|
                                0 <= a < before.len() && (#[trigger] before[a].src, before[a].dst)
                                    == k;
                            assert((after[a].src, after[a].dst) == k);
                        }
                        assert((after[i as int].src, after[i as int].dst) == (src, dst));
                    }
                    assert forall|k: (SocketAddr, SocketAddr)| #[trigger]
                        session_map(after).contains_key(k) implies session_map(after)[k]
                        == goal[k] by {
                        let a = choose|a: int|
                            0 <= a < after.len() && (#[trigger] after[a].src, after[a].dst) == k;
                        assert((before[a].src, before[a].dst) == k);
                        assert(session_map(after)[k] == after[a].last_seen);
                        assert(session_map(before)[k] == before[a].last_seen);
                        if a != i {
                            assert((before[a].src, before[a].dst) != (src, dst)) by {
                                if a < i {
                                    assert((before[a].src, before[a].dst) != (
                                        before[i as int].src,
                                        before[i as int].dst,
                                    ));
                                } else {
                                    assert((before[i as int].src, before[i as int].dst) != (
                                        before[a].src,
                                        before[a].dst,
                                    ));
                                }
                            }
                        }
                    }
                    assert(session_map(after) =~= goal);
                }
                return false;
            }
            i = i + 1;
        }
        self.entries.push(UdpEntry { src, dst, last_seen: now });
        proof {
            assert(self.entries@.drop_last() =~= before);
        }
        true
    }

    /// Ends the sessions that have not been seen for `timeout`, which is in
    /// nanoseconds, or longer.
    pub fn gc(&mut self, timeout: u128, now: u64)
        requires
            old(self).wf(),
        ensures
            final(self).wf(),
            forall|k: (SocketAddr, SocketAddr)| #[trigger]
                final(self)@.contains_key(k) <==> old(self)@.contains_key(k) && translation::age(
                    now,
                    old(self)@[k],
                ) < timeout,
            forall|k: (SocketAddr, SocketAddr)|
                final(self)@.contains_key(k) ==> #[trigger] final(self)@[k] == old(self)@[k],
    {
        let ghost before = self.entries@;
        let mut kept: Vec<UdpEntry> = Vec::new();
        let n: usize = self.entries.len();
        let mut i: usize = 0;
        while i < n
            invariant
                n == self.entries@.len(),
                before == self.entries@,
                distinct(before),
                i <= n,
                forall|a: int|
                    0 <= a < kept@.len() ==> exists|b: int|
                        0 <= b < i && #[trigger] before[b] == #[trigger] kept@[a],
                forall|b: int|
                    0 <= b < i && translation::age(now, before[b].last_seen) < timeout
                        ==> kept@.contains(#[trigger] before[b]),
                forall|a: int|
                    0 <= a < kept@.len() ==> translation::age(
                        now,
                        (#[trigger] kept@[a]).last_seen,
                    ) < timeout,
                distinct(kept@),
            decreases n - i,
        {
            let e: UdpEntry = self.entries[i];
            let age: u64 = if e.last_seen <= now {
                now - e.last_seen
            } else {
                0
            };
            if (age as u128) < timeout {
                let ghost old_kept = kept@;
                kept.push(e);
                proof {
                    assert forall|a: int| 0 <= a < kept@.len() implies exists|b: int|
                        0 <= b < i + 1 && #[trigger] before[b] == #[trigger] kept@[a] by {
                        if a < old_kept.len() {
                            assert(kept@[a] == old_kept[a]);
                            let b = choose|b: int| 0 <= b < i && #[trigger] before[b] == old_kept[a];
                            assert(before[b] == kept@[a]);
                        } else {
                            assert(before[i as int] == kept@[a]);
                        }
                    }
                    assert forall|b: int|
                        0 <= b < i + 1 && translation::age(now, before[b].last_seen)
                            < timeout implies kept@.contains(#[trigger] before[b]) by {
                        if b < i {
                            let a = choose|a: int|
                                0 <= a < old_kept.len() && old_kept[a] == before[b];
                            assert(kept@[a] == before[b]);
                        } else {
                            assert(kept@[old_kept.len() as int] == before[b]);
                        }
                    }
                    assert forall|x: int, y: int| 0 <= x < y < kept@.len() implies (
                        #[trigger] kept@[x].src,
                        kept@[x].dst,
                    ) != (#[trigger] kept@[y].src, kept@[y].dst) by {
                        if y < old_kept.len() {
                            assert((old_kept[x].src, old_kept[x].dst) != (
                                old_kept[y].src,
                                old_kept[y].dst,
                            ));
                        } else {
                            assert(kept@[x] == old_kept[x]);
                            let b = choose|b: int| 0 <= b < i && #[trigger] before[b] == old_kept[x];
                            assert((before[b].src, before[b].dst) != (
                                before[i as int].src,
                                before[i as int].dst,
                            ));
                        }
                    }
                }
            }
            i = i + 1;
        }
        proof {
            lemma_session_map(before);
            lemma_session_map(kept@);
            let m = session_map(before);
            let k2 = session_map(kept@);
            assert forall|k: (SocketAddr, SocketAddr)| #[trigger] k2.contains_key(k) implies
                m.contains_key(k) && k2[k] == m[k] && translation::age(now, m[k]) < timeout by {
                let a = choose|a: int|
                    0 <= a < kept@.len() && (#[trigger] kept@[a].src, kept@[a].dst) == k;
                let b = choose|b: int| 0 <= b < n && #[trigger] before[b] == kept@[a];
                assert((before[b].src, before[b].dst) == k);
                assert(m[k] == before[b].last_seen);
                assert(k2[k] == kept@[a].last_seen);
            }
            assert forall|k: (SocketAddr, SocketAddr)|
                m.contains_key(k) && translation::age(now, m[k]) < timeout implies #[trigger]
                k2.contains_key(k) by {
                let b = choose|b: int|
                    0 <= b < before.len() && (#[trigger] before[b].src, before[b].dst) == k;
                assert(m[k] == before[b].last_seen);
                assert(kept@.contains(before[b]));
                let a = choose|a: int| 0 <= a < kept@.len() && kept@[a] == before[b];
                assert((kept@[a].src, kept@[a].dst) == k);
            }
        }
        self.entries = kept;
    }
}

} // verus!
