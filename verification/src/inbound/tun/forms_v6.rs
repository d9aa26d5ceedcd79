//! How IPv6 packets are written (RFC 8200), and what a device does with TCP
//! segments in packets that are written so.
use vstd::prelude::*;
use crate::inbound::tun::checksum;
use crate::inbound::tun::forms;
use crate::inbound::tun::packet;
use crate::inbound::tun::packet::{TunAction, TunEndpoint};
use crate::inbound::tun::translation::TcpNat;
use crate::net;
use crate::net::{IpAddr, SocketAddr};

verus! {

/// The fields of an IPv6 header.
pub ghost struct Ipv6Form {
    /// The low half of the first byte, and the three that follow.
    pub class: u8,
    pub label: Seq<u8>,
    pub length: u16,
    pub next: u8,
    pub hops: u8,
    pub src: u128,
    pub dst: u128,
}

/// Whether the fields can be written.
pub open spec fn v6_writable(f: Ipv6Form) -> bool {
    f.class < 16 && f.label.len() == 3
}

/// The first eight bytes of an IPv6 header.
pub open spec fn v6_front(f: Ipv6Form) -> Seq<u8> {
    seq![
        (0x60 + f.class) as u8,
        f.label[0],
        f.label[1],
        f.label[2],
        (f.length / 256) as u8,
        (f.length % 256) as u8,
        f.next,
        f.hops,
    ]
}

/// An IPv6 packet without extension headers.
pub open spec fn v6_packet(f: Ipv6Form, payload: Seq<u8>) -> Seq<u8> {
    v6_front(f) + forms::big_endian(f.src as nat, 16) + forms::big_endian(f.dst as nat, 16) + payload
}

/// Whether the checksum of what an IPv6 packet carries is right, pseudo header
/// included.
pub open spec fn payload_right_v6(f: Ipv6Form, payload: Seq<u8>) -> bool {
    (forms::ones_sum(forms::big_endian(f.src as nat, 16), 0) + forms::ones_sum(forms::big_endian(f.dst as nat, 16), 0) + f.next
        + (payload.len() / 65536) % 65536 + payload.len() % 65536 + forms::ones_sum(payload, 0)) % 65535
        == 0
}

/// Whether `p` is an IPv6 packet that carries `payload`, with a right checksum.
pub open spec fn right_v6(p: Seq<u8>, f: Ipv6Form, payload: Seq<u8>) -> bool {
    p == v6_packet(f, payload) && payload_right_v6(f, payload)
}

/// Whether `p` is the IPv6 packet with other addresses and ports, everything
/// else unchanged, and a right checksum.
pub open spec fn moved_v6(
    p: Seq<u8>,
    f: Ipv6Form,
    front: Seq<u8>,
    back: Seq<u8>,
    src: u128,
    src_port: u16,
    dst: u128,
    dst_port: u16,
) -> bool {
    exists|check: u16| #[trigger]
        right_v6(
            p,
            Ipv6Form { src, dst, ..f },
            forms::tcp_segment(src_port, dst_port, front, check, back),
        )
}

/// A socket address.
pub open spec fn v6(ip: u128, port: u16) -> SocketAddr {
    SocketAddr { ip: IpAddr::V6(ip), port }
}

pub(crate) proof fn lemma_address_v6(n: u128)
    ensures
        forms::big_endian(n as nat, 16).len() == 16,
        forms::big_endian(n as nat, 16) == net::be_octets(n as nat, 16),
        net::from_octets(forms::big_endian(n as nat, 16)) == n,
{
    forms::lemma_big_endian(n as nat, 16);
    assert(net::pow256(16) == 0x1_0000_0000_0000_0000_0000_0000_0000_0000) by {
        reveal_with_fuel(net::pow256, 17);
    }
    net::law_octets_roundtrip(n as nat, 16);
}

/// Where the fields of an IPv6 packet stand.
pub(crate) proof fn lemma_v6_fields(f: Ipv6Form, payload: Seq<u8>)
    requires
        v6_writable(f),
    ensures
        ({
            let raw = v6_packet(f, payload);
            &&& raw.len() == 40 + payload.len()
            &&& raw[0] / 16 == 6
            &&& raw[6] == f.next
            &&& raw.take(8) == v6_front(f)
            &&& raw.subrange(8, 24) == forms::big_endian(f.src as nat, 16)
            &&& raw.subrange(24, 40) == forms::big_endian(f.dst as nat, 16)
            &&& packet::v6_source(raw) == f.src
            &&& packet::v6_destination(raw) == f.dst
            &&& raw.skip(40) == payload
        }),
{
    let raw = v6_packet(f, payload);
    lemma_address_v6(f.src);
    lemma_address_v6(f.dst);
    assert(raw.take(8) =~= v6_front(f));
    assert(raw.subrange(8, 24) =~= forms::big_endian(f.src as nat, 16));
    assert(raw.subrange(24, 40) =~= forms::big_endian(f.dst as nat, 16));
    assert(raw.skip(40) =~= payload);
    assert(raw[0] == v6_front(f)[0] && raw[6] == v6_front(f)[6]);
}

/// A packet is known by its parts.
pub(crate) proof fn lemma_v6_whole(raw: Seq<u8>, f: Ipv6Form, payload: Seq<u8>)
    requires
        raw.len() == 40 + payload.len(),
        raw.take(8) == v6_front(f),
        raw.subrange(8, 24) == forms::big_endian(f.src as nat, 16),
        raw.subrange(24, 40) == forms::big_endian(f.dst as nat, 16),
        raw.skip(40) == payload,
    ensures
        raw == v6_packet(f, payload),
{
    lemma_address_v6(f.src);
    lemma_address_v6(f.dst);
    let p = v6_packet(f, payload);
    assert forall|i: int| 0 <= i < raw.len() implies raw[i] == p[i] by {
        if i < 8 {
            assert(raw.take(8)[i] == raw[i]);
        } else if i < 24 {
            assert(raw.subrange(8, 24)[i - 8] == raw[i]);
        } else if i < 40 {
            assert(raw.subrange(24, 40)[i - 24] == raw[i]);
        } else {
            assert(raw.skip(40)[i - 40] == raw[i]);
        }
    }
    assert(raw =~= p);
}

/// A checksum over IPv6 that a receiver finds right.
pub(crate) proof fn lemma_right_v6(done: Seq<u8>, f: Ipv6Form, payload: Seq<u8>)
    requires
        done == v6_packet(f, payload),
        done.subrange(8, 24) == forms::big_endian(f.src as nat, 16),
        done.subrange(24, 40) == forms::big_endian(f.dst as nat, 16),
        done.skip(40) == payload,
        done.len() == 40 + payload.len(),
        checksum::folded(
            checksum::pseudo_sum_v6(
                done.subrange(8, 24),
                done.subrange(24, 40),
                f.next,
                (done.len() - 40) as nat,
            ) + checksum::word_sum(done.skip(40)),
        ) == 65535,
    ensures
        right_v6(done, f, payload),
{
    forms::lemma_whole_sum(payload);
    forms::lemma_whole_sum(forms::big_endian(f.src as nat, 16));
    forms::lemma_whole_sum(forms::big_endian(f.dst as nat, 16));
    forms::lemma_all_ones(
        checksum::pseudo_sum_v6(
            done.subrange(8, 24),
            done.subrange(24, 40),
            f.next,
            (done.len() - 40) as nat,
        ) + checksum::word_sum(done.skip(40)),
    );
}

/// A packet that is readdressed is moved.
proof fn lemma_readdressed_v6(
    raw: Seq<u8>,
    f: Ipv6Form,
    front: Seq<u8>,
    back: Seq<u8>,
    segment: Seq<u8>,
    src: u128,
    src_port: u16,
    dst: u128,
    dst_port: u16,
)
    requires
        v6_writable(f),
        f.next == 6,
        front.len() == 12,
        back.len() >= 2,
        raw == v6_packet(f, segment),
        segment.len() == 18 + back.len(),
        segment.subrange(4, 16) == front,
        segment.skip(18) == back,
    ensures
        moved_v6(
            packet::readdressed_v6(raw, src, src_port, dst, dst_port),
            f,
            front,
            back,
            src,
            src_port,
            dst,
            dst_port,
        ),
{
    lemma_v6_fields(f, segment);
    packet::law_readdressed_v6_verifies(raw, src, src_port, dst, dst_port);
    lemma_address_v6(src);
    lemma_address_v6(dst);
    let done = packet::readdressed_v6(raw, src, src_port, dst, dst_port);
    assert(raw.subrange(44, 56) =~= raw.skip(40).subrange(4, 16));
    assert(raw.skip(58) =~= raw.skip(40).skip(18));
    lemma_moved_v6(done, f, front, back, src, src_port, dst, dst_port);
}

/// What a readdressed packet has to be like.
proof fn lemma_moved_v6(
    done: Seq<u8>,
    f: Ipv6Form,
    front: Seq<u8>,
    back: Seq<u8>,
    src: u128,
    src_port: u16,
    dst: u128,
    dst_port: u16,
)
    requires
        f.next == 6,
        front.len() == 12,
        done.len() == 58 + back.len(),
        done.take(8) == v6_front(f),
        done.subrange(8, 24) == forms::big_endian(src as nat, 16),
        done.subrange(24, 40) == forms::big_endian(dst as nat, 16),
        packet::word_at(done, 40) == src_port,
        packet::word_at(done, 42) == dst_port,
        done.subrange(44, 56) == front,
        done.skip(58) == back,
        checksum::folded(
            checksum::pseudo_sum_v6(
                done.subrange(8, 24),
                done.subrange(24, 40),
                6,
                (done.len() - 40) as nat,
            ) + checksum::word_sum(done.skip(40)),
        ) == 65535,
    ensures
        moved_v6(done, f, front, back, src, src_port, dst, dst_port),
{
    let g = Ipv6Form { src, dst, ..f };
    let t = done.skip(40);
    assert(v6_front(g) =~= v6_front(f));
    assert(t.subrange(4, 16) =~= done.subrange(44, 56));
    assert(t.skip(18) =~= done.skip(58));
    assert(packet::word_at(t, 0) == packet::word_at(done, 40));
    assert(packet::word_at(t, 2) == packet::word_at(done, 42));
    forms::lemma_tcp_whole(t, front, back);
    lemma_v6_whole(done, g, t);
    lemma_right_v6(done, g, t);
    assert(right_v6(done, g, forms::tcp_segment(src_port, dst_port, front, packet::word_at(t, 16), back)));
}

/// A TCP packet over IPv6 is led to the listener, whatever its other header
/// fields are: it comes from the next address and a port that now stands for its
/// connection. What the listener answers to such a port goes back to the client,
/// as if from where the client had turned to. Packets to a multicast group or to
/// no address are dropped.
pub proof fn law_tcp_v6_is_translated(
    f: Ipv6Form,
    src_port: u16,
    dst_port: u16,
    front: Seq<u8>,
    check: u16,
    back: Seq<u8>,
    endpoint: TunEndpoint,
    addr: u128,
    next: u128,
    now: u64,
    before: TcpNat,
    after: TcpNat,
    r: TunAction,
)
    requires
        v6_writable(f),
        f.next == 6,
        front.len() == 12,
        back.len() >= 2,
        endpoint.inet6_addr == Some(addr),
        endpoint.inet6_next == Some(next),
        before.wf(),
        packet::processed(
            v6_packet(f, forms::tcp_segment(src_port, dst_port, front, check, back)),
            endpoint,
            now,
            before,
            after,
            r,
        ),
    ensures
        ({
            let from_listener = f.src == addr && src_port == endpoint.tcp_port_v6;
            let nowhere = f.dst == 0 || f.dst >= 0xff00_0000_0000_0000_0000_0000_0000_0000;
            if from_listener && before.ports().contains_key(dst_port) {
                match (before.ports()[dst_port].source.ip, before.ports()[dst_port].destination.ip) {
                    (IpAddr::V6(client), IpAddr::V6(server)) => r matches TunAction::Write(p)
                        && moved_v6(
                        p@,
                        f,
                        front,
                        back,
                        server,
                        before.ports()[dst_port].destination.port,
                        client,
                        before.ports()[dst_port].source.port,
                    ),
                    _ => r is Drop,
                }
            } else if from_listener || nowhere {
                r is Drop
            } else {
                r matches TunAction::Write(p) && exists|port: u16|
                    {
                        &&& after.ports().contains_key(port)
                        &&& after.ports()[port].source == v6(f.src, src_port)
                        &&& !before.addrs().contains_key(v6(f.src, src_port))
                            ==> after.ports()[port].destination == v6(f.dst, dst_port)
                        &&& #[trigger] moved_v6(
                            p@,
                            f,
                            front,
                            back,
                            next,
                            port,
                            addr,
                            endpoint.tcp_port_v6,
                        )
                    }
            }
        }),
{
    let segment = forms::tcp_segment(src_port, dst_port, front, check, back);
    let raw = v6_packet(f, segment);
    let tcp_port = endpoint.tcp_port_v6;
    forms::lemma_tcp_fields(src_port, dst_port, front, check, back);
    lemma_v6_fields(f, segment);
    lemma_tcp_request_v6(f, segment, addr, next, tcp_port);
    let src = v6(f.src, src_port);
    let dst = v6(f.dst, dst_port);
    match packet::request_v6(raw, Some(addr), Some(next), tcp_port) {
        packet::Request::FromListener { port } => {
            let e = before.ports()[port];
            if let (IpAddr::V6(client), IpAddr::V6(server)) = (e.source.ip, e.destination.ip) {
                lemma_readdressed_v6(
                    raw,
                    f,
                    front,
                    back,
                    segment,
                    server,
                    e.destination.port,
                    client,
                    e.source.port,
                );
            }
        },
        packet::Request::ToListener { src: s, dst: d } => {
            let port = choose|port: u16|
                {
                    &&& #[trigger] before.assigned(after, s, d, now, port)
                    &&& r matches TunAction::Write(p)
                    &&& p@ == packet::readdressed_v6(raw, next, port, addr, tcp_port)
                };
            before.law_assignment_leads_back(after, src, dst, now, port);
            lemma_readdressed_v6(raw, f, front, back, segment, next, port, addr, tcp_port);
        },
        _ => {},
    }
}

/// What a TCP packet over IPv6 is.
proof fn lemma_tcp_request_v6(
    f: Ipv6Form,
    segment: Seq<u8>,
    addr: u128,
    next: u128,
    tcp_port: u16,
)
    requires
        v6_writable(f),
        f.next == 6,
        segment.len() >= 20,
    ensures
        packet::request_v6(v6_packet(f, segment), Some(addr), Some(next), tcp_port) == (if f.src
            == addr && packet::word_at(segment, 0) == tcp_port {
            packet::Request::FromListener { port: packet::word_at(segment, 2) }
        } else if f.dst == 0 || f.dst >= 0xff00_0000_0000_0000_0000_0000_0000_0000 {
            packet::Request::Ignored
        } else {
            packet::Request::ToListener {
                src: v6(f.src, packet::word_at(segment, 0)),
                dst: v6(f.dst, packet::word_at(segment, 2)),
            }
        }),
{
    lemma_v6_fields(f, segment);
}

} // verus!
