//! Packets read from and written to the TUN device.
//!
//! TCP packets are redirected to a listener on the device's own address and
//! back, UDP datagrams are taken out, and echo requests to the device itself
//! are answered.
use vstd::prelude::*;
use crate::buf;
use crate::inbound::tun::checksum;
use crate::inbound::tun::translation::TcpNat;
use crate::net;
use crate::net::{IpAddr, SocketAddr};

verus! {

/// What a packet asks for.
pub enum TunAction {
    /// Nothing.
    Drop,
    /// A packet is to be written to the device.
    Write(Vec<u8>),
    /// A datagram is to be handed on.
    Udp { src: SocketAddr, dst: SocketAddr, data: bytes::Bytes },
}

/// `data` with `part` in place of what stood at `at`.
pub open spec fn overwritten(data: Seq<u8>, at: int, part: Seq<u8>) -> Seq<u8> {
    Seq::new(
        data.len(),
        |i: int|
            if at <= i < at + part.len() {
                part[i - at]
            } else {
                data[i]
            },
    )
}

/// The big-endian word at `at`.
pub open spec fn word_at(data: Seq<u8>, at: int) -> u16 {
    checksum::be_word(data[at], data[at + 1]) as u16
}

/// The header length that an IPv4 packet states.
pub open spec fn header_len(raw: Seq<u8>) -> int {
    (raw[0] % 16) * 4
}

/// Whether an IPv4 packet holds the header that it states.
pub open spec fn has_v4_header(raw: Seq<u8>) -> bool {
    raw.len() >= 20 && 20 <= header_len(raw) <= raw.len()
}

/// Whether an IPv4 packet is a fragment: more are to come, or it is not the
/// first.
pub open spec fn is_fragment(raw: Seq<u8>) -> bool {
    word_at(raw, 6) % 0x4000 != 0
}

/// An IPv4 packet's source address.
pub open spec fn v4_source(raw: Seq<u8>) -> u32 {
    net::from_octets(raw.subrange(12, 16)) as u32
}

/// An IPv4 packet's destination address.
pub open spec fn v4_destination(raw: Seq<u8>) -> u32 {
    net::from_octets(raw.subrange(16, 20)) as u32
}

/// An IPv6 packet's source address.
pub open spec fn v6_source(raw: Seq<u8>) -> u128 {
    net::from_octets(raw.subrange(8, 24)) as u128
}

/// An IPv6 packet's destination address.
pub open spec fn v6_destination(raw: Seq<u8>) -> u128 {
    net::from_octets(raw.subrange(24, 40)) as u128
}

/// A socket address of an IPv4 address.
pub open spec fn v4_socket(ip: u32, port: u16) -> SocketAddr {
    SocketAddr { ip: IpAddr::V4(ip), port }
}

/// A socket address of an IPv6 address.
pub open spec fn v6_socket(ip: u128, port: u16) -> SocketAddr {
    SocketAddr { ip: IpAddr::V6(ip), port }
}

/// The payload of a UDP datagram: as many bytes as its length field says, but
/// no more than there are.
pub open spec fn udp_payload(udp: Seq<u8>) -> Seq<u8> {
    let stated = word_at(udp, 4) - 8;
    let present = udp.len() - 8;
    let n = if stated < 0 {
        0
    } else if stated < present {
        stated
    } else {
        present
    };
    udp.subrange(8, 8 + n)
}

/// A TCP packet over IPv4 with other addresses and ports and both checksums
/// recomputed.
pub open spec fn readdressed_v4(
    raw: Seq<u8>,
    src: u32,
    src_port: u16,
    dst: u32,
    dst_port: u16,
) -> Seq<u8> {
    let ihl = header_len(raw);
    let p1 = overwritten(raw, 12, net::be_octets(src as nat, 4));
    let p2 = overwritten(p1, 16, net::be_octets(dst as nat, 4));
    let p3 = overwritten(p2, ihl, checksum::be_bytes(src_port));
    let p4 = overwritten(p3, ihl + 2, checksum::be_bytes(dst_port));
    checksum::with_ipv4_checksum(checksum::with_tcp_checksum_v4(p4, ihl))
}

/// A TCP packet over IPv6 with other addresses and ports and its checksum
/// recomputed.
pub open spec fn readdressed_v6(
    raw: Seq<u8>,
    src: u128,
    src_port: u16,
    dst: u128,
    dst_port: u16,
) -> Seq<u8> {
    let p1 = overwritten(raw, 8, net::be_octets(src as nat, 16));
    let p2 = overwritten(p1, 24, net::be_octets(dst as nat, 16));
    let p3 = overwritten(p2, 40, checksum::be_bytes(src_port));
    let p4 = overwritten(p3, 42, checksum::be_bytes(dst_port));
    checksum::with_tcp_checksum_v6(p4)
}

/// The answer to an ICMPv4 echo request: addresses exchanged, type zero, both
/// checksums recomputed.
pub open spec fn echo_reply_v4(raw: Seq<u8>) -> Seq<u8> {
    let ihl = header_len(raw);
    let p1 = overwritten(raw, 12, raw.subrange(16, 20));
    let p2 = overwritten(p1, 16, raw.subrange(12, 16));
    let p3 = checksum::with_word(p2.update(ihl, 0), ihl + 2, 0);
    let p4 = checksum::with_word(
        p3,
        ihl + 2,
        checksum::checksum_of(checksum::word_sum(p3.skip(ihl))),
    );
    checksum::with_ipv4_checksum(p4)
}

/// The answer to an ICMPv6 echo request: addresses exchanged, type 129,
/// checksum recomputed.
pub open spec fn echo_reply_v6(raw: Seq<u8>) -> Seq<u8> {
    let p1 = overwritten(raw, 8, raw.subrange(24, 40));
    let p2 = overwritten(p1, 24, raw.subrange(8, 24));
    checksum::with_echo_checksum_v6(p2.update(40, 129))
}

/// What a packet is, before the translation table has been asked.
pub ghost enum Request {
    /// Nothing that is handled.
    Ignored,
    /// A packet of the listener to the translated port.
    FromListener { port: u16 },
    /// A packet of a connection to be translated.
    ToListener { src: SocketAddr, dst: SocketAddr },
    /// A datagram.
    Datagram { src: SocketAddr, dst: SocketAddr, data: Seq<u8> },
    /// An echo request, with its answer.
    Echo { reply: Seq<u8> },
}

/// What an IPv4 packet is, on a device with address `addr` whose listener has
/// the port `tcp_port`.
pub open spec fn request_v4(raw: Seq<u8>, addr: Option<u32>, next: Option<u32>, tcp_port: u16) -> Request {
    let ihl = header_len(raw);
    let payload = raw.skip(ihl);
    let src = v4_source(raw);
    let dst = v4_destination(raw);
    if !has_v4_header(raw) {
        Request::Ignored
    } else if raw[9] == checksum::IPPROTO_TCP {
        if is_fragment(raw) || addr is None || next is None || payload.len() < 20 {
            Request::Ignored
        } else if src == addr->0 && word_at(payload, 0) == tcp_port {
            Request::FromListener { port: word_at(payload, 2) }
        } else if net::is_special_v4(dst) {
            Request::Ignored
        } else {
            Request::ToListener {
                src: v4_socket(src, word_at(payload, 0)),
                dst: v4_socket(dst, word_at(payload, 2)),
            }
        }
    } else if raw[9] == checksum::IPPROTO_UDP {
        if is_fragment(raw) || payload.len() < 8 {
            Request::Ignored
        } else {
            Request::Datagram {
                src: v4_socket(src, word_at(payload, 0)),
                dst: v4_socket(dst, word_at(payload, 2)),
                data: udp_payload(payload),
            }
        }
    } else if raw[9] == checksum::IPPROTO_ICMP {
        if payload.len() < 8 || payload[0] != 8 || payload[1] != 0 || (addr is Some && dst
            != addr->0) {
            Request::Ignored
        } else {
            Request::Echo { reply: echo_reply_v4(raw) }
        }
    } else {
        Request::Ignored
    }
}

/// What an IPv6 packet is, on a device with address `addr` whose listener has
/// the port `tcp_port`.
pub open spec fn request_v6(raw: Seq<u8>, addr: Option<u128>, next: Option<u128>, tcp_port: u16) -> Request {
    let payload = raw.skip(40);
    let src = v6_source(raw);
    let dst = v6_destination(raw);
    if raw.len() < 40 {
        Request::Ignored
    } else if raw[6] == checksum::IPPROTO_TCP {
        if addr is None || next is None || payload.len() < 20 {
            Request::Ignored
        } else if src == addr->0 && word_at(payload, 0) == tcp_port {
            Request::FromListener { port: word_at(payload, 2) }
        } else if net::is_special_v6(dst) {
            Request::Ignored
        } else {
            Request::ToListener {
                src: v6_socket(src, word_at(payload, 0)),
                dst: v6_socket(dst, word_at(payload, 2)),
            }
        }
    } else if raw[6] == checksum::IPPROTO_UDP {
        if payload.len() < 8 {
            Request::Ignored
        } else {
            Request::Datagram {
                src: v6_socket(src, word_at(payload, 0)),
                dst: v6_socket(dst, word_at(payload, 2)),
                data: udp_payload(payload),
            }
        }
    } else if raw[6] == checksum::IPPROTO_ICMPV6 {
        if raw.len() < 48 || raw[40] != 128 || (addr is Some && dst != addr->0) {
            Request::Ignored
        } else {
            Request::Echo { reply: echo_reply_v6(raw) }
        }
    } else {
        Request::Ignored
    }
}

/// Whether two tables hold the same.
pub open spec fn same_table(a: TcpNat, b: TcpNat) -> bool {
    a.ports() == b.ports() && a.addrs() == b.addrs() && a.cursor() == b.cursor()
}

/// What is done about an IPv4 packet, and what becomes of the table.
pub open spec fn handled_v4(
    raw: Seq<u8>,
    addr: Option<u32>,
    next: Option<u32>,
    tcp_port: u16,
    now: u64,
    before: TcpNat,
    after: TcpNat,
    r: TunAction,
) -> bool {
    match request_v4(raw, addr, next, tcp_port) {
        Request::Ignored => r is Drop && same_table(before, after),
        Request::Datagram { src, dst, data } => {
            &&& r matches TunAction::Udp { src: s, dst: d, data: b }
            &&& s == src && d == dst && buf::contents(b) == data
            &&& same_table(before, after)
        },
        Request::Echo { reply } => {
            &&& r matches TunAction::Write(p)
            &&& p@ == reply
            &&& same_table(before, after)
        },
        Request::FromListener { port } => {
            &&& before.looked_back(
                after,
                port,
                now,
                if before.ports().contains_key(port) {
                    Some((before.ports()[port].source, before.ports()[port].destination))
                } else {
                    None
                },
            )
            &&& match (before.ports()[port].source.ip, before.ports()[port].destination.ip) {
                (IpAddr::V4(s), IpAddr::V4(d)) if before.ports().contains_key(port) => {
                    &&& r matches TunAction::Write(p)
                    &&& p@ == readdressed_v4(
                        raw,
                        d,
                        before.ports()[port].destination.port,
                        s,
                        before.ports()[port].source.port,
                    )
                },
                _ => r is Drop,
            }
        },
        Request::ToListener { src, dst } => exists|port: u16|
            {
                &&& #[trigger] before.assigned(after, src, dst, now, port)
                &&& r matches TunAction::Write(p)
                &&& p@ == readdressed_v4(raw, next->0, port, addr->0, tcp_port)
            },
    }
}

/// What is done about an IPv6 packet, and what becomes of the table.
pub open spec fn handled_v6(
    raw: Seq<u8>,
    addr: Option<u128>,
    next: Option<u128>,
    tcp_port: u16,
    now: u64,
    before: TcpNat,
    after: TcpNat,
    r: TunAction,
) -> bool {
    match request_v6(raw, addr, next, tcp_port) {
        Request::Ignored => r is Drop && same_table(before, after),
        Request::Datagram { src, dst, data } => {
            &&& r matches TunAction::Udp { src: s, dst: d, data: b }
            &&& s == src && d == dst && buf::contents(b) == data
            &&& same_table(before, after)
        },
        Request::Echo { reply } => {
            &&& r matches TunAction::Write(p)
            &&& p@ == reply
            &&& same_table(before, after)
        },
        Request::FromListener { port } => {
            &&& before.looked_back(
                after,
                port,
                now,
                if before.ports().contains_key(port) {
                    Some((before.ports()[port].source, before.ports()[port].destination))
                } else {
                    None
                },
            )
            &&& match (before.ports()[port].source.ip, before.ports()[port].destination.ip) {
                (IpAddr::V6(s), IpAddr::V6(d)) if before.ports().contains_key(port) => {
                    &&& r matches TunAction::Write(p)
                    &&& p@ == readdressed_v6(
                        raw,
                        d,
                        before.ports()[port].destination.port,
                        s,
                        before.ports()[port].source.port,
                    )
                },
                _ => r is Drop,
            }
        },
        Request::ToListener { src, dst } => exists|port: u16|
            {
                &&& #[trigger] before.assigned(after, src, dst, now, port)
                &&& r matches TunAction::Write(p)
                &&& p@ == readdressed_v6(raw, next->0, port, addr->0, tcp_port)
            },
    }
}

/// Writes `part` over what stands at `at`.
fn overwrite(pkt: &mut Vec<u8>, at: usize, part: &[u8])
    requires
        at + part@.len() <= old(pkt)@.len(),
    ensures
        final(pkt)@ == overwritten(old(pkt)@, at as int, part@),
{
    let n: usize = part.len();
    let total: usize = pkt.len();
    let mut i: usize = 0;
    while i < n
        invariant
            total == old(pkt)@.len(),
            n == part@.len(),
            i <= n,
            at + n <= old(pkt)@.len(),
            pkt@ == overwritten(old(pkt)@, at as int, part@.take(i as int)),
        decreases n - i,
    {
        pkt[at + i] = part[i];
        i = i + 1;
        assert(pkt@ =~= overwritten(old(pkt)@, at as int, part@.take(i as int)));
    }
    assert(part@.take(n as int) =~= part@);
    assert(pkt@ =~= overwritten(old(pkt)@, at as int, part@));
}

/// Writes a big-endian word over what stands at `at`.
fn overwrite_word(pkt: &mut Vec<u8>, at: usize, w: u16)
    requires
        at + 2 <= old(pkt)@.len(),
    ensures
        final(pkt)@ == overwritten(old(pkt)@, at as int, checksum::be_bytes(w)),
{
    let total: usize = pkt.len();
    assert(at + 1 < total);
    pkt[at] = (w / 256) as u8;
    pkt[at + 1] = (w % 256) as u8;
    assert(pkt@ =~= overwritten(old(pkt)@, at as int, checksum::be_bytes(w)));
}

/// Takes a UDP datagram over IPv4 apart.
pub fn parse_udp_v4(udp: &[u8], src_ip: u32, dst_ip: u32) -> (r: Option<
    (SocketAddr, SocketAddr, bytes::Bytes),
>)
    ensures
        match r {
            Some((src, dst, data)) => {
                &&& udp@.len() >= 8
                &&& src == v4_socket(src_ip, word_at(udp@, 0))
                &&& dst == v4_socket(dst_ip, word_at(udp@, 2))
                &&& buf::contents(data) == udp_payload(udp@)
            },
            None => udp@.len() < 8,
        },
{
    if udp.len() < 8 {
        return None;
    }
    let data: bytes::Bytes = copy_udp_payload(udp);
    Some(
        (
            SocketAddr { ip: IpAddr::V4(src_ip), port: checksum::be16(udp[0], udp[1]) },
            SocketAddr { ip: IpAddr::V4(dst_ip), port: checksum::be16(udp[2], udp[3]) },
            data,
        ),
    )
}

/// Takes a UDP datagram over IPv6 apart.
pub fn parse_udp_v6(udp: &[u8], src_ip: u128, dst_ip: u128) -> (r: Option<
    (SocketAddr, SocketAddr, bytes::Bytes),
>)
    ensures
        match r {
            Some((src, dst, data)) => {
                &&& udp@.len() >= 8
                &&& src == v6_socket(src_ip, word_at(udp@, 0))
                &&& dst == v6_socket(dst_ip, word_at(udp@, 2))
                &&& buf::contents(data) == udp_payload(udp@)
            },
            None => udp@.len() < 8,
        },
{
    if udp.len() < 8 {
        return None;
    }
    let data: bytes::Bytes = copy_udp_payload(udp);
    Some(
        (
            SocketAddr { ip: IpAddr::V6(src_ip), port: checksum::be16(udp[0], udp[1]) },
            SocketAddr { ip: IpAddr::V6(dst_ip), port: checksum::be16(udp[2], udp[3]) },
            data,
        ),
    )
}

/// Copies the payload of a UDP datagram.
fn copy_udp_payload(udp: &[u8]) -> (r: bytes::Bytes)
    requires
        udp@.len() >= 8,
    ensures
        buf::contents(r) == udp_payload(udp@),
{
    let stated: usize = checksum::be16(udp[4], udp[5]) as usize;
    let present: usize = udp.len() - 8;
    let n: usize = if stated < 8 {
        0
    } else if stated - 8 < present {
        stated - 8
    } else {
        present
    };
    bytes::Bytes::copy_from_slice(&udp[8..8 + n])
}

/// Rewrites addresses and ports of a TCP packet over IPv4.
fn readdress_v4(raw: &[u8], ihl: usize, src: u32, src_port: u16, dst: u32, dst_port: u16) -> (r: Vec<
    u8,
>)
    requires
        has_v4_header(raw@),
        ihl == header_len(raw@),
        raw@.len() >= ihl + 20,
    ensures
        r@ == readdressed_v4(raw@, src, src_port, dst, dst_port),
{
    let mut pkt: Vec<u8> = vstd::slice::slice_to_vec(raw);
    overwrite(&mut pkt, 12, &net::octets_v4(src));
    overwrite(&mut pkt, 16, &net::octets_v4(dst));
    overwrite_word(&mut pkt, ihl, src_port);
    overwrite_word(&mut pkt, ihl + 2, dst_port);
    checksum::recompute_tcp_checksum_v4(&mut pkt, ihl);
    checksum::recompute_ipv4_checksum(&mut pkt);
    pkt
}

/// Rewrites addresses and ports of a TCP packet over IPv6.
fn readdress_v6(raw: &[u8], src: u128, src_port: u16, dst: u128, dst_port: u16) -> (r: Vec<u8>)
    requires
        raw@.len() >= 60,
    ensures
        r@ == readdressed_v6(raw@, src, src_port, dst, dst_port),
{
    let mut pkt: Vec<u8> = vstd::slice::slice_to_vec(raw);
    overwrite(&mut pkt, 8, &net::octets_v6(src));
    overwrite(&mut pkt, 24, &net::octets_v6(dst));
    overwrite_word(&mut pkt, 40, src_port);
    overwrite_word(&mut pkt, 42, dst_port);
    checksum::recompute_tcp_checksum_v6(&mut pkt);
    pkt
}

/// Redirects a TCP packet over IPv4 to the listener, or one of the listener
/// back to the connection that it belongs to.
pub fn handle_tcp_v4(
    raw: &[u8],
    addr: Option<u32>,
    next: Option<u32>,
    tcp_port: u16,
    nat_table: &mut TcpNat,
    now: u64,
) -> (r: TunAction)
    requires
        has_v4_header(raw@),
        raw@[9] == checksum::IPPROTO_TCP,
        !is_fragment(raw@),
        old(nat_table).wf(),
    ensures
        final(nat_table).wf(),
        handled_v4(raw@, addr, next, tcp_port, now, *old(nat_table), *final(nat_table), r),
{
    let (addr, next): (u32, u32) = match (addr, next) {
        (Some(a), Some(n)) => (a, n),
        _ => {
            return TunAction::Drop;
        },
    };
    let n: usize = raw.len();
    let ihl: usize = (raw[0] % 16) as usize * 4;
    assert(raw@.skip(ihl as int).len() == n - ihl);
    if n - ihl < 20 {
        return TunAction::Drop;
    }
    let src_ip: u32 = net::v4_of_octets(&raw[12..16]);
    let dst_ip: u32 = net::v4_of_octets(&raw[16..20]);
    let src_port: u16 = checksum::be16(raw[ihl], raw[ihl + 1]);
    let dst_port: u16 = checksum::be16(raw[ihl + 2], raw[ihl + 3]);
    assert(word_at(raw@.skip(ihl as int), 0) == src_port);
    assert(word_at(raw@.skip(ihl as int), 2) == dst_port);
    if src_ip == addr && src_port == tcp_port {
        return match nat_table.lookup_back(dst_port, now) {
            Some((orig_src, orig_dst)) => match (orig_src.ip, orig_dst.ip) {
                (IpAddr::V4(s), IpAddr::V4(d)) => TunAction::Write(
                    readdress_v4(raw, ihl, d, orig_dst.port, s, orig_src.port),
                ),
                _ => TunAction::Drop,
            },
            None => TunAction::Drop,
        };
    }
    if net::special_v4(dst_ip) {
        return TunAction::Drop;
    }
    let src: SocketAddr = SocketAddr { ip: IpAddr::V4(src_ip), port: src_port };
    let dst: SocketAddr = SocketAddr { ip: IpAddr::V4(dst_ip), port: dst_port };
    let nat_port: u16 = nat_table.lookup_or_insert(src, dst, now);
    assert(old(nat_table).assigned(*nat_table, src, dst, now, nat_port));
    TunAction::Write(readdress_v4(raw, ihl, next, nat_port, addr, tcp_port))
}

/// Redirects a TCP packet over IPv6 to the listener, or one of the listener
/// back to the connection that it belongs to.
pub fn handle_tcp_v6(
    raw: &[u8],
    addr: Option<u128>,
    next: Option<u128>,
    tcp_port: u16,
    nat_table: &mut TcpNat,
    now: u64,
) -> (r: TunAction)
    requires
        raw@.len() >= 40,
        raw@[6] == checksum::IPPROTO_TCP,
        old(nat_table).wf(),
    ensures
        final(nat_table).wf(),
        handled_v6(raw@, addr, next, tcp_port, now, *old(nat_table), *final(nat_table), r),
{
    let (addr, next): (u128, u128) = match (addr, next) {
        (Some(a), Some(n)) => (a, n),
        _ => {
            return TunAction::Drop;
        },
    };
    let n: usize = raw.len();
    assert(raw@.skip(40).len() == n - 40);
    if n < 60 {
        return TunAction::Drop;
    }
    let src_ip: u128 = net::v6_of_octets(&raw[8..24]);
    let dst_ip: u128 = net::v6_of_octets(&raw[24..40]);
    let src_port: u16 = checksum::be16(raw[40], raw[41]);
    let dst_port: u16 = checksum::be16(raw[42], raw[43]);
    assert(word_at(raw@.skip(40), 0) == src_port);
    assert(word_at(raw@.skip(40), 2) == dst_port);
    if src_ip == addr && src_port == tcp_port {
        return match nat_table.lookup_back(dst_port, now) {
            Some((orig_src, orig_dst)) => match (orig_src.ip, orig_dst.ip) {
                (IpAddr::V6(s), IpAddr::V6(d)) => TunAction::Write(
                    readdress_v6(raw, d, orig_dst.port, s, orig_src.port),
                ),
                _ => TunAction::Drop,
            },
            None => TunAction::Drop,
        };
    }
    if net::special_v6(dst_ip) {
        return TunAction::Drop;
    }
    let src: SocketAddr = SocketAddr { ip: IpAddr::V6(src_ip), port: src_port };
    let dst: SocketAddr = SocketAddr { ip: IpAddr::V6(dst_ip), port: dst_port };
    let nat_port: u16 = nat_table.lookup_or_insert(src, dst, now);
    assert(old(nat_table).assigned(*nat_table, src, dst, now, nat_port));
    TunAction::Write(readdress_v6(raw, next, nat_port, addr, tcp_port))
}

/// Answers an ICMPv4 echo request to the device itself.
pub fn handle_echo_v4(raw: &[u8], addr: Option<u32>) -> (r: TunAction)
    requires
        has_v4_header(raw@),
        raw@[9] == checksum::IPPROTO_ICMP,
    ensures
        match request_v4(raw@, addr, None, 0) {
            Request::Echo { reply } => r matches TunAction::Write(p) && p@ == reply,
            _ => r is Drop,
        },
{
    let n: usize = raw.len();
    let ihl: usize = (raw[0] % 16) as usize * 4;
    assert(raw@.skip(ihl as int).len() == n - ihl);
    if n - ihl < 8 {
        return TunAction::Drop;
    }
    assert(raw@.skip(ihl as int)[0] == raw@[ihl as int]);
    assert(raw@.skip(ihl as int)[1] == raw@[ihl + 1]);
    if raw[ihl] != 8 || raw[ihl + 1] != 0 {
        return TunAction::Drop;
    }
    let dst_ip: u32 = net::v4_of_octets(&raw[16..20]);
    if let Some(own) = addr {
        if dst_ip != own {
            return TunAction::Drop;
        }
    }
    let mut pkt: Vec<u8> = vstd::slice::slice_to_vec(raw);
    overwrite(&mut pkt, 12, &raw[16..20]);
    overwrite(&mut pkt, 16, &raw[12..16]);
    pkt[ihl] = 0;
    pkt[ihl + 2] = 0;
    pkt[ihl + 3] = 0;
    let ghost p3 = pkt@;
    let cksum: u16 = checksum::internet_checksum(
        vstd::slice::slice_subrange(pkt.as_slice(), ihl, n),
    );
    assert(p3.subrange(ihl as int, n as int) =~= p3.skip(ihl as int));
    pkt[ihl + 2] = (cksum / 256) as u8;
    pkt[ihl + 3] = (cksum % 256) as u8;
    checksum::recompute_ipv4_checksum(&mut pkt);
    TunAction::Write(pkt)
}

/// Answers an ICMPv6 echo request to the device itself.
pub fn handle_echo_v6(raw: &[u8], addr: Option<u128>) -> (r: TunAction)
    requires
        raw@.len() >= 40,
        raw@[6] == checksum::IPPROTO_ICMPV6,
    ensures
        match request_v6(raw@, addr, None, 0) {
            Request::Echo { reply } => r matches TunAction::Write(p) && p@ == reply,
            _ => r is Drop,
        },
{
    if raw.len() < 48 {
        return TunAction::Drop;
    }
    if raw[40] != 128 {
        return TunAction::Drop;
    }
    let dst_ip: u128 = net::v6_of_octets(&raw[24..40]);
    if let Some(own) = addr {
        if dst_ip != own {
            return TunAction::Drop;
        }
    }
    let mut pkt: Vec<u8> = vstd::slice::slice_to_vec(raw);
    overwrite(&mut pkt, 8, &raw[24..40]);
    overwrite(&mut pkt, 24, &raw[8..24]);
    pkt[40] = 129;
    checksum::recompute_echo_checksum_v6(&mut pkt);
    TunAction::Write(pkt)
}

/// Decides what is done about an IPv4 packet.
pub fn process_ipv4(
    raw: &[u8],
    addr: Option<u32>,
    next: Option<u32>,
    tcp_port: u16,
    nat_table: &mut TcpNat,
    now: u64,
) -> (r: TunAction)
    requires
        old(nat_table).wf(),
    ensures
        final(nat_table).wf(),
        handled_v4(raw@, addr, next, tcp_port, now, *old(nat_table), *final(nat_table), r),
{
    let n: usize = raw.len();
    if n < 20 {
        return TunAction::Drop;
    }
    let ihl: usize = (raw[0] % 16) as usize * 4;
    if n < ihl || ihl < 20 {
        return TunAction::Drop;
    }
    let fragment: bool = checksum::be16(raw[6], raw[7]) % 0x4000 != 0;
    let proto: u8 = raw[9];
    if proto == checksum::IPPROTO_TCP {
        if fragment {
            return TunAction::Drop;
        }
        handle_tcp_v4(raw, addr, next, tcp_port, nat_table, now)
    } else if proto == checksum::IPPROTO_UDP {
        if fragment {
            return TunAction::Drop;
        }
        assert(raw@.subrange(ihl as int, n as int) =~= raw@.skip(ihl as int));
        match parse_udp_v4(
            &raw[ihl..n],
            net::v4_of_octets(&raw[12..16]),
            net::v4_of_octets(&raw[16..20]),
        ) {
            Some((src, dst, data)) => TunAction::Udp { src, dst, data },
            None => TunAction::Drop,
        }
    } else if proto == checksum::IPPROTO_ICMP {
        handle_echo_v4(raw, addr)
    } else {
        TunAction::Drop
    }
}

/// Decides what is done about an IPv6 packet.
pub fn process_ipv6(
    raw: &[u8],
    addr: Option<u128>,
    next: Option<u128>,
    tcp_port: u16,
    nat_table: &mut TcpNat,
    now: u64,
) -> (r: TunAction)
    requires
        old(nat_table).wf(),
    ensures
        final(nat_table).wf(),
        handled_v6(raw@, addr, next, tcp_port, now, *old(nat_table), *final(nat_table), r),
{
    let n: usize = raw.len();
    if n < 40 {
        return TunAction::Drop;
    }
    let proto: u8 = raw[6];
    if proto == checksum::IPPROTO_TCP {
        handle_tcp_v6(raw, addr, next, tcp_port, nat_table, now)
    } else if proto == checksum::IPPROTO_UDP {
        assert(raw@.subrange(40, n as int) =~= raw@.skip(40));
        match parse_udp_v6(
            &raw[40..n],
            net::v6_of_octets(&raw[8..24]),
            net::v6_of_octets(&raw[24..40]),
        ) {
            Some((src, dst, data)) => TunAction::Udp { src, dst, data },
            None => TunAction::Drop,
        }
    } else if proto == checksum::IPPROTO_ICMPV6 {
        handle_echo_v6(raw, addr)
    } else {
        TunAction::Drop
    }
}

/// The addresses of a device, the addresses that connections seem to come from
/// on it, and the ports of its listeners.
#[derive(Clone, Copy, Debug, PartialEq, Eq, Structural)]
pub struct TunEndpoint {
    pub inet4_addr: Option<u32>,
    pub inet4_next: Option<u32>,
    pub inet6_addr: Option<u128>,
    pub inet6_next: Option<u128>,
    pub tcp_port_v4: u16,
    pub tcp_port_v6: u16,
}

/// What is done about a packet, and what becomes of the table: by the version in
/// its first four bits it is an IPv4 packet, an IPv6 packet, or nothing that is
/// handled.
pub open spec fn processed(
    raw: Seq<u8>,
    endpoint: TunEndpoint,
    now: u64,
    before: TcpNat,
    after: TcpNat,
    r: TunAction,
) -> bool {
    if raw.len() > 0 && raw[0] / 16 == 4 {
        handled_v4(
            raw,
            endpoint.inet4_addr,
            endpoint.inet4_next,
            endpoint.tcp_port_v4,
            now,
            before,
            after,
            r,
        )
    } else if raw.len() > 0 && raw[0] / 16 == 6 {
        handled_v6(
            raw,
            endpoint.inet6_addr,
            endpoint.inet6_next,
            endpoint.tcp_port_v6,
            now,
            before,
            after,
            r,
        )
    } else {
        r is Drop && same_table(before, after)
    }
}

/// Decides what is done about a packet: by the version in its first four bits
/// it is an IPv4 packet, an IPv6 packet, or nothing that is handled.
pub fn process_packet(raw: &[u8], endpoint: &TunEndpoint, nat_table: &mut TcpNat, now: u64) -> (r:
    TunAction)
    requires
        old(nat_table).wf(),
    ensures
        final(nat_table).wf(),
        processed(raw@, *endpoint, now, *old(nat_table), *final(nat_table), r),
{
    if raw.len() == 0 {
        return TunAction::Drop;
    }
    let version: u8 = raw[0] / 16;
    if version == 4 {
        process_ipv4(
            raw,
            endpoint.inet4_addr,
            endpoint.inet4_next,
            endpoint.tcp_port_v4,
            nat_table,
            now,
        )
    } else if version == 6 {
        process_ipv6(
            raw,
            endpoint.inet6_addr,
            endpoint.inet6_next,
            endpoint.tcp_port_v6,
            nat_table,
            now,
        )
    } else {
        TunAction::Drop
    }
}

/// A UDP datagram with its checksum field zero.
pub open spec fn udp_datagram(src_port: u16, dst_port: u16, payload: Seq<u8>) -> Seq<u8> {
    checksum::be_bytes(src_port) + checksum::be_bytes(dst_port) + checksum::be_bytes(
        ((8 + payload.len()) % 65536) as u16,
    ) + seq![0u8, 0u8] + payload
}

/// An IPv4 packet that carries a UDP datagram.
pub open spec fn udp_packet_v4(
    src: u32,
    src_port: u16,
    dst: u32,
    dst_port: u16,
    payload: Seq<u8>,
) -> Seq<u8> {
    let total = (20 + (8 + payload.len()) % 65536) as u16;
    let s = net::be_octets(src as nat, 4);
    let d = net::be_octets(dst as nat, 4);
    let header = seq![
        0x45u8,
        0,
        (total / 256) as u8,
        (total % 256) as u8,
        0,
        0,
        0x40,
        0,
        64,
        checksum::IPPROTO_UDP,
        0,
        0,
    ] + s + d;
    let udp = udp_datagram(src_port, dst_port, payload);
    checksum::with_word(
        header,
        10,
        checksum::checksum_of(checksum::word_sum(header)),
    ) + checksum::with_word(
        udp,
        6,
        checksum::checksum_of(
            checksum::pseudo_sum_v4(s, d, checksum::IPPROTO_UDP, udp.len()) + checksum::word_sum(
                udp,
            ),
        ),
    )
}

/// An IPv6 packet that carries a UDP datagram.
pub open spec fn udp_packet_v6(
    src: u128,
    src_port: u16,
    dst: u128,
    dst_port: u16,
    payload: Seq<u8>,
) -> Seq<u8> {
    let len = ((8 + payload.len()) % 65536) as u16;
    let s = net::be_octets(src as nat, 16);
    let d = net::be_octets(dst as nat, 16);
    let header = seq![0x60u8, 0, 0, 0] + checksum::be_bytes(len) + seq![
        checksum::IPPROTO_UDP,
        64u8,
    ] + s + d;
    let udp = udp_datagram(src_port, dst_port, payload);
    header + checksum::with_word(
        udp,
        6,
        checksum::checksum_of(
            checksum::pseudo_sum_v6(s, d, checksum::IPPROTO_UDP, udp.len()) + checksum::word_sum(
                udp,
            ),
        ),
    )
}

fn push_word(out: &mut Vec<u8>, w: u16)
    ensures
        final(out)@ == old(out)@ + checksum::be_bytes(w),
{
    out.push((w / 256) as u8);
    out.push((w % 256) as u8);
    assert(out@ =~= old(out)@ + checksum::be_bytes(w));
}

fn push_slice(out: &mut Vec<u8>, s: &[u8])
    ensures
        final(out)@ == old(out)@ + s@,
{
    out.extend_from_slice(s);
    assert(out@ =~= old(out)@ + s@);
}

/// Makes a UDP datagram with its checksum field zero.
fn make_udp_datagram(src_port: u16, dst_port: u16, payload: &[u8]) -> (r: Vec<u8>)
    requires
        payload@.len() + 8 <= usize::MAX,
    ensures
        r@ == udp_datagram(src_port, dst_port, payload@),
        r@.len() == 8 + payload@.len(),
{
    let mut udp: Vec<u8> = Vec::new();
    push_word(&mut udp, src_port);
    push_word(&mut udp, dst_port);
    push_word(&mut udp, ((8 + payload.len()) % 65536) as u16);
    udp.push(0);
    udp.push(0);
    push_slice(&mut udp, payload);
    assert(udp@ =~= udp_datagram(src_port, dst_port, payload@));
    udp
}

/// Makes an IPv4 packet that carries `payload` in a UDP datagram.
pub fn build_udp_reply_v4(
    src_ip: u32,
    src_port: u16,
    dst_ip: u32,
    dst_port: u16,
    payload: &[u8],
) -> (r: Option<Vec<u8>>)
    requires
        payload@.len() + 8 <= usize::MAX,
        20 + (8 + payload@.len()) % 65536 <= u16::MAX,
    ensures
        r matches Some(p) && p@ == udp_packet_v4(src_ip, src_port, dst_ip, dst_port, payload@),
{
    let udp_len: u16 = ((8 + payload.len()) % 65536) as u16;
    let total: u16 = 20 + udp_len;
    let src: [u8; 4] = net::octets_v4(src_ip);
    let dst: [u8; 4] = net::octets_v4(dst_ip);
    let mut pkt: Vec<u8> = Vec::new();
    pkt.push(0x45);
    pkt.push(0);
    push_word(&mut pkt, total);
    pkt.push(0);
    pkt.push(0);
    pkt.push(0x40);
    pkt.push(0);
    pkt.push(64);
    pkt.push(checksum::IPPROTO_UDP);
    pkt.push(0);
    pkt.push(0);
    push_slice(&mut pkt, &src);
    push_slice(&mut pkt, &dst);
    let ghost header = seq![
        0x45u8,
        0,
        (total / 256) as u8,
        (total % 256) as u8,
        0,
        0,
        0x40,
        0,
        64,
        checksum::IPPROTO_UDP,
        0,
        0,
    ] + src@ + dst@;
    assert(pkt@ =~= header);
    let cksum: u16 = checksum::internet_checksum(pkt.as_slice());
    pkt[10] = (cksum / 256) as u8;
    pkt[11] = (cksum % 256) as u8;
    let mut udp: Vec<u8> = make_udp_datagram(src_port, dst_port, payload);
    let cksum: u16 = checksum::udp_checksum_v4(&src, &dst, udp.as_slice());
    udp[6] = (cksum / 256) as u8;
    udp[7] = (cksum % 256) as u8;
    pkt.append(&mut udp);
    Some(pkt)
}

/// Makes an IPv6 packet that carries `payload` in a UDP datagram.
pub fn build_udp_reply_v6(
    src_ip: u128,
    src_port: u16,
    dst_ip: u128,
    dst_port: u16,
    payload: &[u8],
) -> (r: Option<Vec<u8>>)
    requires
        payload@.len() + 48 <= usize::MAX,
    ensures
        r matches Some(p) && p@ == udp_packet_v6(src_ip, src_port, dst_ip, dst_port, payload@),
{
    let udp_len: u16 = ((8 + payload.len()) % 65536) as u16;
    let src: [u8; 16] = net::octets_v6(src_ip);
    let dst: [u8; 16] = net::octets_v6(dst_ip);
    let mut pkt: Vec<u8> = Vec::new();
    pkt.push(0x60);
    pkt.push(0);
    pkt.push(0);
    pkt.push(0);
    push_word(&mut pkt, udp_len);
    pkt.push(checksum::IPPROTO_UDP);
    pkt.push(64);
    push_slice(&mut pkt, &src);
    push_slice(&mut pkt, &dst);
    assert(pkt@ =~= seq![0x60u8, 0, 0, 0] + checksum::be_bytes(udp_len) + seq![
        checksum::IPPROTO_UDP,
        64u8,
    ] + src@ + dst@);
    let mut udp: Vec<u8> = make_udp_datagram(src_port, dst_port, payload);
    let cksum: u16 = checksum::udp_checksum_v6(&src, &dst, udp.as_slice());
    udp[6] = (cksum / 256) as u8;
    udp[7] = (cksum % 256) as u8;
    pkt.append(&mut udp);
    Some(pkt)
}

/// Makes the packet that brings `payload` from `src` to `dst`. There is none
/// between addresses of different families.
pub fn build_udp_reply_packet(src: SocketAddr, dst: SocketAddr, payload: &[u8]) -> (r: Option<
    Vec<u8>,
>)
    requires
        payload@.len() + 48 <= usize::MAX,
        src.ip is V4 && dst.ip is V4 ==> 20 + (8 + payload@.len()) % 65536 <= u16::MAX,
    ensures
        match (src.ip, dst.ip) {
            (IpAddr::V4(s), IpAddr::V4(d)) => r matches Some(p) && p@ == udp_packet_v4(
                s,
                src.port,
                d,
                dst.port,
                payload@,
            ),
            (IpAddr::V6(s), IpAddr::V6(d)) => r matches Some(p) && p@ == udp_packet_v6(
                s,
                src.port,
                d,
                dst.port,
                payload@,
            ),
            _ => r is None,
        },
{
    match (src.ip, dst.ip) {
        (IpAddr::V4(s), IpAddr::V4(d)) => build_udp_reply_v4(s, src.port, d, dst.port, payload),
        (IpAddr::V6(s), IpAddr::V6(d)) => build_udp_reply_v6(s, src.port, d, dst.port, payload),
        _ => None,
    }
}

/// A receiver of a readdressed TCP packet over IPv4 finds the checksum of the
/// segment right, and that of the header where the header has no options.
pub proof fn law_readdressed_v4_verifies(
    raw: Seq<u8>,
    src: u32,
    src_port: u16,
    dst: u32,
    dst_port: u16,
)
    requires
        has_v4_header(raw),
        raw.len() >= header_len(raw) + 20,
    ensures
        ({
            let done = readdressed_v4(raw, src, src_port, dst, dst_port);
            let ihl = header_len(raw);
            &&& done.len() == raw.len()
            &&& ihl == 20 ==> checksum::folded(checksum::word_sum(done.take(ihl))) == 65535
            &&& checksum::folded(
                checksum::pseudo_sum_v4(
                    done.subrange(12, 16),
                    done.subrange(16, 20),
                    checksum::IPPROTO_TCP,
                    (done.len() - ihl) as nat,
                ) + checksum::word_sum(done.skip(ihl)),
            ) == 65535
        }),
{
    let ihl = header_len(raw);
    let p1 = overwritten(raw, 12, net::be_octets(src as nat, 4));
    let p2 = overwritten(p1, 16, net::be_octets(dst as nat, 4));
    let p3 = overwritten(p2, ihl, checksum::be_bytes(src_port));
    let p4 = overwritten(p3, ihl + 2, checksum::be_bytes(dst_port));
    let p5 = checksum::with_tcp_checksum_v4(p4, ihl);
    let done = checksum::with_ipv4_checksum(p5);
    checksum::law_tcp_checksum_v4_verifies(p4, ihl);
    checksum::law_ipv4_checksum_verifies(p5);
    assert(done.skip(ihl) =~= p5.skip(ihl));
    assert(done.subrange(12, 16) =~= p5.subrange(12, 16));
    assert(done.subrange(16, 20) =~= p5.subrange(16, 20));
}

/// Addresses and ports of a readdressed TCP packet over IPv4 are the new ones;
/// the rest of its header, its TCP header from the sequence number on, and its
/// data are unchanged but for the checksums.
pub proof fn law_readdressed_v4_keeps_payload(
    raw: Seq<u8>,
    src: u32,
    src_port: u16,
    dst: u32,
    dst_port: u16,
)
    requires
        has_v4_header(raw),
        raw.len() >= header_len(raw) + 20,
    ensures
        ({
            let done = readdressed_v4(raw, src, src_port, dst, dst_port);
            let ihl = header_len(raw);
            &&& v4_source(done) == src
            &&& v4_destination(done) == dst
            &&& word_at(done, ihl) == src_port
            &&& word_at(done, ihl + 2) == dst_port
            &&& done.subrange(ihl + 4, ihl + 16) == raw.subrange(ihl + 4, ihl + 16)
            &&& done.skip(ihl + 18) == raw.skip(ihl + 18)
            &&& done.take(10) == raw.take(10)
            &&& done.subrange(12, 16) == net::be_octets(src as nat, 4)
            &&& done.subrange(16, 20) == net::be_octets(dst as nat, 4)
            &&& done.subrange(20, ihl) == raw.subrange(20, ihl)
        }),
{
    let ihl = header_len(raw);
    let done = readdressed_v4(raw, src, src_port, dst, dst_port);
    net::lemma_be_octets_len(src as nat, 4);
    net::lemma_be_octets_len(dst as nat, 4);
    assert(done.take(10) =~= raw.take(10));
    assert(done.subrange(20, ihl) =~= raw.subrange(20, ihl));
    assert(net::pow256(4) == 0x1_0000_0000) by {
        reveal_with_fuel(net::pow256, 5);
    }
    net::law_octets_roundtrip(src as nat, 4);
    net::law_octets_roundtrip(dst as nat, 4);
    assert(done.subrange(12, 16) =~= net::be_octets(src as nat, 4));
    assert(done.subrange(16, 20) =~= net::be_octets(dst as nat, 4));
    assert(done.subrange(ihl + 4, ihl + 16) =~= raw.subrange(ihl + 4, ihl + 16));
    assert(done.skip(ihl + 18) =~= raw.skip(ihl + 18));
}

proof fn lemma_datagram_fields(src_port: u16, dst_port: u16, payload: Seq<u8>, c: u16)
    requires
        8 + payload.len() <= 65535,
    ensures
        ({
            let u = checksum::with_word(udp_datagram(src_port, dst_port, payload), 6, c);
            &&& u.len() == 8 + payload.len()
            &&& word_at(u, 0) == src_port
            &&& word_at(u, 2) == dst_port
            &&& udp_payload(u) == payload
        }),
{
    let u = checksum::with_word(udp_datagram(src_port, dst_port, payload), 6, c);
    assert(word_at(u, 4) == 8 + payload.len());
    assert(udp_payload(u) =~= payload);
}

proof fn lemma_v4_datagram(
    header: Seq<u8>,
    udp: Seq<u8>,
    addr: Option<u32>,
    next: Option<u32>,
    tcp_port: u16,
)
    requires
        header.len() == 20,
        header[0] == 0x45,
        header[6] == 0x40,
        header[7] == 0,
        header[9] == checksum::IPPROTO_UDP,
        udp.len() >= 8,
    ensures
        request_v4(header + udp, addr, next, tcp_port) == (Request::Datagram {
            src: v4_socket(net::from_octets(header.subrange(12, 16)) as u32, word_at(udp, 0)),
            dst: v4_socket(net::from_octets(header.subrange(16, 20)) as u32, word_at(udp, 2)),
            data: udp_payload(udp),
        }),
{
    let p = header + udp;
    assert(p.skip(20) =~= udp);
    assert(p.subrange(12, 16) =~= header.subrange(12, 16));
    assert(p.subrange(16, 20) =~= header.subrange(16, 20));
}

/// A UDP packet that was built for a client is one that carries the payload
/// between the two addresses.
pub proof fn law_built_udp_v4_parses(
    src: u32,
    src_port: u16,
    dst: u32,
    dst_port: u16,
    payload: Seq<u8>,
    addr: Option<u32>,
    next: Option<u32>,
    tcp_port: u16,
)
    requires
        28 + payload.len() <= 65535,
    ensures
        request_v4(
            udp_packet_v4(src, src_port, dst, dst_port, payload),
            addr,
            next,
            tcp_port,
        ) == (Request::Datagram {
            src: v4_socket(src, src_port),
            dst: v4_socket(dst, dst_port),
            data: payload,
        }),
{
    let total = (20 + (8 + payload.len()) % 65536) as u16;
    let so = net::be_octets(src as nat, 4);
    let d = net::be_octets(dst as nat, 4);
    let header = seq![
        0x45u8,
        0,
        (total / 256) as u8,
        (total % 256) as u8,
        0,
        0,
        0x40,
        0,
        64,
        checksum::IPPROTO_UDP,
        0,
        0,
    ] + so + d;
    let udp = udp_datagram(src_port, dst_port, payload);
    let hc = checksum::checksum_of(checksum::word_sum(header));
    let uc = checksum::checksum_of(
        checksum::pseudo_sum_v4(so, d, checksum::IPPROTO_UDP, udp.len()) + checksum::word_sum(udp),
    );
    assert(net::pow256(4) == 0x1_0000_0000) by {
        reveal_with_fuel(net::pow256, 5);
    }
    net::law_octets_roundtrip(src as nat, 4);
    net::law_octets_roundtrip(dst as nat, 4);
    let h = checksum::with_word(header, 10, hc);
    assert(h.subrange(12, 16) =~= so);
    assert(h.subrange(16, 20) =~= d);
    lemma_datagram_fields(src_port, dst_port, payload, uc);
    lemma_v4_datagram(h, checksum::with_word(udp, 6, uc), addr, next, tcp_port);
}

/// A UDP packet over IPv6 that was built for a client is one that carries the
/// payload between the two addresses.
pub proof fn law_built_udp_v6_parses(
    src: u128,
    src_port: u16,
    dst: u128,
    dst_port: u16,
    payload: Seq<u8>,
    addr: Option<u128>,
    next: Option<u128>,
    tcp_port: u16,
)
    requires
        8 + payload.len() <= 65535,
    ensures
        request_v6(
            udp_packet_v6(src, src_port, dst, dst_port, payload),
            addr,
            next,
            tcp_port,
        ) == (Request::Datagram {
            src: v6_socket(src, src_port),
            dst: v6_socket(dst, dst_port),
            data: payload,
        }),
{
    let p = udp_packet_v6(src, src_port, dst, dst_port, payload);
    let so = net::be_octets(src as nat, 16);
    let d = net::be_octets(dst as nat, 16);
    let udp = udp_datagram(src_port, dst_port, payload);
    let uc = checksum::checksum_of(
        checksum::pseudo_sum_v6(so, d, checksum::IPPROTO_UDP, udp.len()) + checksum::word_sum(udp),
    );
    assert(net::pow256(16) == 0x1_0000_0000_0000_0000_0000_0000_0000_0000) by {
        reveal_with_fuel(net::pow256, 17);
    }
    net::law_octets_roundtrip(src as nat, 16);
    net::law_octets_roundtrip(dst as nat, 16);
    lemma_datagram_fields(src_port, dst_port, payload, uc);
    assert(p.subrange(8, 24) =~= so);
    assert(p.subrange(24, 40) =~= d);
    assert(p[6] == checksum::IPPROTO_UDP);
    assert(p.skip(40) =~= checksum::with_word(udp, 6, uc));
}

/// The answer to an ICMPv4 echo request goes back to where the request came from
/// and carries what the request carried; its checksum is right, and so is that of
/// a header without options.
pub proof fn law_echo_reply_v4_returns(raw: Seq<u8>)
    requires
        has_v4_header(raw),
        raw.len() >= header_len(raw) + 8,
    ensures
        v4_source(echo_reply_v4(raw)) == v4_destination(raw),
        v4_destination(echo_reply_v4(raw)) == v4_source(raw),
        echo_reply_v4(raw)[header_len(raw)] == 0,
        echo_reply_v4(raw).skip(header_len(raw) + 4) == raw.skip(header_len(raw) + 4),
        checksum::folded(checksum::word_sum(echo_reply_v4(raw).skip(header_len(raw)))) == 65535,
        header_len(raw) == 20 ==> checksum::folded(
            checksum::word_sum(echo_reply_v4(raw).take(20)),
        ) == 65535,
{
    let r = echo_reply_v4(raw);
    let ihl = header_len(raw);
    assert(r.subrange(12, 16) =~= raw.subrange(16, 20));
    assert(r.subrange(16, 20) =~= raw.subrange(12, 16));
    assert(r.skip(ihl + 4) =~= raw.skip(ihl + 4));
    let p1 = overwritten(raw, 12, raw.subrange(16, 20));
    let p2 = overwritten(p1, 16, raw.subrange(12, 16));
    let p3 = checksum::with_word(p2.update(ihl, 0), ihl + 2, 0);
    let p4 = checksum::with_word(
        p3,
        ihl + 2,
        checksum::checksum_of(checksum::word_sum(p3.skip(ihl))),
    );
    checksum::law_ipv4_checksum_verifies(p4);
    checksum::law_internet_checksum_verifies(p3.skip(ihl), 2);
    assert(r.skip(ihl) =~= checksum::with_word(
        p3.skip(ihl),
        2,
        checksum::checksum_of(checksum::word_sum(p3.skip(ihl))),
    ));
}

/// A receiver of a readdressed TCP packet over IPv6 finds the new addresses and
/// ports, a right checksum, and everything else unchanged.
pub proof fn law_readdressed_v6_verifies(
    raw: Seq<u8>,
    src: u128,
    src_port: u16,
    dst: u128,
    dst_port: u16,
)
    requires
        raw.len() >= 60,
    ensures
        ({
            let done = readdressed_v6(raw, src, src_port, dst, dst_port);
            &&& done.len() == raw.len()
            &&& v6_source(done) == src
            &&& v6_destination(done) == dst
            &&& word_at(done, 40) == src_port
            &&& word_at(done, 42) == dst_port
            &&& done.take(8) == raw.take(8)
            &&& done.subrange(8, 24) == net::be_octets(src as nat, 16)
            &&& done.subrange(24, 40) == net::be_octets(dst as nat, 16)
            &&& done.subrange(44, 56) == raw.subrange(44, 56)
            &&& done.skip(58) == raw.skip(58)
            &&& checksum::folded(
                checksum::pseudo_sum_v6(
                    done.subrange(8, 24),
                    done.subrange(24, 40),
                    checksum::IPPROTO_TCP,
                    (done.len() - 40) as nat,
                ) + checksum::word_sum(done.skip(40)),
            ) == 65535
        }),
{
    let p1 = overwritten(raw, 8, net::be_octets(src as nat, 16));
    let p2 = overwritten(p1, 24, net::be_octets(dst as nat, 16));
    let p3 = overwritten(p2, 40, checksum::be_bytes(src_port));
    let p4 = overwritten(p3, 42, checksum::be_bytes(dst_port));
    let done = checksum::with_tcp_checksum_v6(p4);
    assert(net::pow256(16) == 0x1_0000_0000_0000_0000_0000_0000_0000_0000) by {
        reveal_with_fuel(net::pow256, 17);
    }
    net::law_octets_roundtrip(src as nat, 16);
    net::law_octets_roundtrip(dst as nat, 16);
    assert(done.subrange(8, 24) =~= net::be_octets(src as nat, 16));
    assert(done.subrange(24, 40) =~= net::be_octets(dst as nat, 16));
    assert(done.take(8) =~= raw.take(8));
    assert(done.subrange(44, 56) =~= raw.subrange(44, 56));
    assert(done.skip(58) =~= raw.skip(58));
    checksum::law_payload_checksum_v6_verifies(p4, checksum::IPPROTO_TCP, 16);
}

/// The answer to an ICMPv6 echo request goes back to where the request came
/// from, carries what the request carried, and has a right checksum.
pub proof fn law_echo_reply_v6_returns(raw: Seq<u8>)
    requires
        raw.len() >= 48,
    ensures
        ({
            let r = echo_reply_v6(raw);
            &&& v6_source(r) == v6_destination(raw)
            &&& v6_destination(r) == v6_source(raw)
            &&& r[40] == 129
            &&& r.skip(44) == raw.skip(44)
            &&& checksum::folded(
                checksum::pseudo_sum_v6(
                    r.subrange(8, 24),
                    r.subrange(24, 40),
                    checksum::IPPROTO_ICMPV6,
                    (r.len() - 40) as nat,
                ) + checksum::word_sum(r.skip(40)),
            ) == 65535
        }),
{
    let r = echo_reply_v6(raw);
    let p1 = overwritten(raw, 8, raw.subrange(24, 40));
    let p2 = overwritten(p1, 24, raw.subrange(8, 24));
    assert(r.subrange(8, 24) =~= raw.subrange(24, 40));
    assert(r.subrange(24, 40) =~= raw.subrange(8, 24));
    assert(r.skip(44) =~= raw.skip(44));
    checksum::law_payload_checksum_v6_verifies(p2.update(40, 129), checksum::IPPROTO_ICMPV6, 2);
}

/// What the listener sends back over IPv4 on a connection that is new to the
/// table reaches the client as if from where the client had turned to.
pub proof fn law_listener_reply_v4_returns(
    addr: u32,
    next: u32,
    tcp_port: u16,
    before: TcpNat,
    between: TcpNat,
    after: TcpNat,
    src: u32,
    src_port: u16,
    dst: u32,
    dst_port: u16,
    port: u16,
    back: Seq<u8>,
    t1: u64,
    t2: u64,
    r: TunAction,
)
    requires
        before.wf(),
        !before.addrs().contains_key(v4_socket(src, src_port)),
        before.assigned(
            between,
            v4_socket(src, src_port),
            v4_socket(dst, dst_port),
            t1,
            port,
        ),
        request_v4(back, Some(addr), Some(next), tcp_port) == (Request::FromListener { port }),
        handled_v4(back, Some(addr), Some(next), tcp_port, t2, between, after, r),
    ensures
        r matches TunAction::Write(p) && p@ == readdressed_v4(back, dst, dst_port, src, src_port),
{
    before.law_assignment_leads_back(
        between,
        v4_socket(src, src_port),
        v4_socket(dst, dst_port),
        t1,
        port,
    );
}

/// What the listener sends back over IPv6 on a connection that is new to the
/// table reaches the client as if from where the client had turned to.
pub proof fn law_listener_reply_v6_returns(
    addr: u128,
    next: u128,
    tcp_port: u16,
    before: TcpNat,
    between: TcpNat,
    after: TcpNat,
    src: u128,
    src_port: u16,
    dst: u128,
    dst_port: u16,
    port: u16,
    back: Seq<u8>,
    t1: u64,
    t2: u64,
    r: TunAction,
)
    requires
        before.wf(),
        !before.addrs().contains_key(v6_socket(src, src_port)),
        before.assigned(
            between,
            v6_socket(src, src_port),
            v6_socket(dst, dst_port),
            t1,
            port,
        ),
        request_v6(back, Some(addr), Some(next), tcp_port) == (Request::FromListener { port }),
        handled_v6(back, Some(addr), Some(next), tcp_port, t2, between, after, r),
    ensures
        r matches TunAction::Write(p) && p@ == readdressed_v6(back, dst, dst_port, src, src_port),
{
    before.law_assignment_leads_back(
        between,
        v6_socket(src, src_port),
        v6_socket(dst, dst_port),
        t1,
        port,
    );
}

} // verus!
