//! How IPv4 packets and TCP segments are written (RFC 791, RFC 9293, RFC 1071),
//! and what a device does with packets that are written so.
use vstd::prelude::*;
use crate::inbound::tun::checksum;
use crate::inbound::tun::packet;
use crate::inbound::tun::packet::{TunAction, TunEndpoint};
use crate::inbound::tun::translation::TcpNat;
use crate::net;
use crate::net::{IpAddr, SocketAddr};

verus! {

/// A number in `k` bytes, the highest first.
pub open spec fn big_endian(n: nat, k: nat) -> Seq<u8>
    decreases k,
{
    if k == 0 {
        Seq::empty()
    } else {
        big_endian(n / 256, (k - 1) as nat).push((n % 256) as u8)
    }
}

/// A number in two bytes, the high one first.
pub open spec fn two_bytes(n: int) -> Seq<u8> {
    seq![(n / 256) as u8, (n % 256) as u8]
}

/// The sum of the 16-bit words of `data` from `i` on: bytes at even places are
/// high halves, those at odd places low ones.
pub open spec fn ones_sum(data: Seq<u8>, i: int) -> int
    decreases data.len() - i,
{
    if i < 0 || i >= data.len() {
        0
    } else {
        data[i] * (if i % 2 == 0 {
            256int
        } else {
            1
        }) + ones_sum(data, i + 1)
    }
}

/// The fields of an IPv4 header.
pub ghost struct Ipv4Form {
    pub tos: u8,
    pub length: u16,
    pub id: u16,
    pub reserved: bool,
    pub dont_fragment: bool,
    pub more_fragments: bool,
    pub offset: int,
    pub ttl: u8,
    pub protocol: u8,
    pub checksum: u16,
    pub src: u32,
    pub dst: u32,
    pub options: Seq<u8>,
}

/// Whether the fields can be written.
pub open spec fn v4_writable(f: Ipv4Form) -> bool {
    0 <= f.offset < 8192 && f.options.len() <= 40 && f.options.len() % 4 == 0
}

/// Flags and fragment offset.
pub open spec fn v4_flags(f: Ipv4Form) -> int {
    (if f.reserved {
        0x8000int
    } else {
        0
    }) + (if f.dont_fragment {
        0x4000int
    } else {
        0
    }) + (if f.more_fragments {
        0x2000int
    } else {
        0
    }) + f.offset
}

/// The first twelve bytes of an IPv4 header.
pub open spec fn v4_front(f: Ipv4Form) -> Seq<u8> {
    seq![
        (0x45 + f.options.len() / 4) as u8,
        f.tos,
        (f.length / 256) as u8,
        (f.length % 256) as u8,
        (f.id / 256) as u8,
        (f.id % 256) as u8,
        (v4_flags(f) / 256) as u8,
        (v4_flags(f) % 256) as u8,
        f.ttl,
        f.protocol,
        (f.checksum / 256) as u8,
        (f.checksum % 256) as u8,
    ]
}

/// An IPv4 packet.
pub open spec fn v4_packet(f: Ipv4Form, payload: Seq<u8>) -> Seq<u8> {
    v4_front(f) + big_endian(f.src as nat, 4) + big_endian(f.dst as nat, 4) + f.options + payload
}

/// A TCP segment: its ports, the twelve bytes up to its checksum, the checksum,
/// and the rest.
pub open spec fn tcp_segment(
    src_port: u16,
    dst_port: u16,
    front: Seq<u8>,
    check: u16,
    back: Seq<u8>,
) -> Seq<u8> {
    two_bytes(src_port as int) + two_bytes(dst_port as int) + front + two_bytes(check as int) + back
}

/// Whether the checksum of an IPv4 header without options is right.
pub open spec fn header_right(f: Ipv4Form) -> bool {
    (ones_sum(v4_front(f), 0) + ones_sum(big_endian(f.src as nat, 4), 0) + ones_sum(
        big_endian(f.dst as nat, 4),
        0,
    )) % 65535 == 0
}

/// Whether the checksum of what an IPv4 packet carries is right, pseudo header
/// included.
pub open spec fn payload_right_v4(f: Ipv4Form, payload: Seq<u8>) -> bool {
    (ones_sum(big_endian(f.src as nat, 4), 0) + ones_sum(big_endian(f.dst as nat, 4), 0)
        + f.protocol + payload.len() % 65536 + ones_sum(payload, 0)) % 65535 == 0
}

/// The fields of an IPv4 header with other addresses and another checksum.
pub open spec fn v4_moved(f: Ipv4Form, src: u32, dst: u32, checksum: u16) -> Ipv4Form {
    Ipv4Form { src, dst, checksum, ..f }
}

/// Whether `p` is an IPv4 packet that carries `payload`, with right checksums.
pub open spec fn right_v4(p: Seq<u8>, f: Ipv4Form, payload: Seq<u8>) -> bool {
    &&& p == v4_packet(f, payload)
    &&& f.options.len() == 0 ==> header_right(f)
    &&& payload_right_v4(f, payload)
}

/// Whether `p` is the IPv4 packet with other addresses and ports, everything
/// else unchanged, and right checksums.
pub open spec fn moved_v4(
    p: Seq<u8>,
    f: Ipv4Form,
    front: Seq<u8>,
    back: Seq<u8>,
    src: u32,
    src_port: u16,
    dst: u32,
    dst_port: u16,
) -> bool {
    exists|c: u16, check: u16| #[trigger]
        right_v4(
            p,
            v4_moved(f, src, dst, c),
            tcp_segment(src_port, dst_port, front, check, back),
        )
}

/// A socket address.
pub open spec fn v4(ip: u32, port: u16) -> SocketAddr {
    SocketAddr { ip: IpAddr::V4(ip), port }
}

pub(crate) proof fn lemma_big_endian(n: nat, k: nat)
    ensures
        big_endian(n, k) == net::be_octets(n, k),
        big_endian(n, k).len() == k,
    decreases k,
{
    if k > 0 {
        lemma_big_endian(n / 256, (k - 1) as nat);
    }
}

pub(crate) proof fn lemma_address_v4(n: u32)
    ensures
        big_endian(n as nat, 4).len() == 4,
        big_endian(n as nat, 4) == net::be_octets(n as nat, 4),
        net::from_octets(big_endian(n as nat, 4)) == n,
{
    lemma_big_endian(n as nat, 4);
    assert(net::pow256(4) == 0x1_0000_0000) by {
        reveal_with_fuel(net::pow256, 5);
    }
    net::law_octets_roundtrip(n as nat, 4);
}

proof fn lemma_ones_sum(data: Seq<u8>, i: int)
    requires
        0 <= i <= data.len(),
        i % 2 == 0,
    ensures
        ones_sum(data, i) == checksum::word_sum(data.skip(i)),
    decreases data.len() - i,
{
    let d = data.skip(i);
    if i == data.len() {
    } else if i + 1 == data.len() {
        assert(ones_sum(data, i + 1) == 0);
        assert(d.len() == 1 && d[0] == data[i]);
    } else {
        lemma_ones_sum(data, i + 2);
        assert(d.skip(2) =~= data.skip(i + 2));
        assert(d[0] == data[i] && d[1] == data[i + 1]);
        assert(ones_sum(data, i) == data[i] * 256 + ones_sum(data, i + 1));
        assert(ones_sum(data, i + 1) == data[i + 1] * 1 + ones_sum(data, i + 2));
    }
}

pub(crate) proof fn lemma_whole_sum(data: Seq<u8>)
    ensures
        ones_sum(data, 0) == checksum::word_sum(data),
{
    lemma_ones_sum(data, 0);
    assert(data.skip(0) =~= data);
}

pub(crate) proof fn lemma_all_ones(sum: nat)
    requires
        checksum::folded(sum) == 65535,
    ensures
        sum % 65535 == 0,
{
}

/// Where the fields of an IPv4 packet stand.
pub(crate) proof fn lemma_v4_fields(f: Ipv4Form, payload: Seq<u8>)
    requires
        v4_writable(f),
    ensures
        ({
            let raw = v4_packet(f, payload);
            let ihl = 20 + f.options.len();
            &&& raw.len() == ihl + payload.len()
            &&& raw[0] / 16 == 4
            &&& packet::header_len(raw) == ihl
            &&& packet::has_v4_header(raw)
            &&& raw[9] == f.protocol
            &&& packet::word_at(raw, 6) == v4_flags(f)
            &&& raw.take(12) == v4_front(f)
            &&& raw.subrange(12, 16) == big_endian(f.src as nat, 4)
            &&& raw.subrange(16, 20) == big_endian(f.dst as nat, 4)
            &&& raw.subrange(20, ihl as int) == f.options
            &&& packet::v4_source(raw) == f.src
            &&& packet::v4_destination(raw) == f.dst
            &&& raw.skip(ihl as int) == payload
        }),
{
    let raw = v4_packet(f, payload);
    let ihl = 20 + f.options.len();
    lemma_address_v4(f.src);
    lemma_address_v4(f.dst);
    assert(raw.take(12) =~= v4_front(f));
    assert(raw.subrange(12, 16) =~= big_endian(f.src as nat, 4));
    assert(raw.subrange(16, 20) =~= big_endian(f.dst as nat, 4));
    assert(raw.subrange(20, ihl as int) =~= f.options);
    assert(raw.skip(ihl as int) =~= payload);
    assert(raw[0] == v4_front(f)[0] && raw[6] == v4_front(f)[6] && raw[7] == v4_front(f)[7]
        && raw[9] == v4_front(f)[9]);
    assert(0 <= v4_flags(f) < 65536);
}

/// A packet is known by its parts.
pub(crate) proof fn lemma_v4_whole(raw: Seq<u8>, f: Ipv4Form, payload: Seq<u8>)
    requires
        raw.len() == 20 + f.options.len() + payload.len(),
        raw.take(12) == v4_front(f),
        raw.subrange(12, 16) == big_endian(f.src as nat, 4),
        raw.subrange(16, 20) == big_endian(f.dst as nat, 4),
        raw.subrange(20, (20 + f.options.len()) as int) == f.options,
        raw.skip((20 + f.options.len()) as int) == payload,
    ensures
        raw == v4_packet(f, payload),
{
    lemma_address_v4(f.src);
    lemma_address_v4(f.dst);
    let p = v4_packet(f, payload);
    assert forall|i: int| 0 <= i < raw.len() implies raw[i] == p[i] by {
        if i < 12 {
            assert(raw.take(12)[i] == raw[i]);
        } else if i < 16 {
            assert(raw.subrange(12, 16)[i - 12] == raw[i]);
        } else if i < 20 {
            assert(raw.subrange(16, 20)[i - 16] == raw[i]);
        } else if i < 20 + f.options.len() {
            assert(raw.subrange(20, (20 + f.options.len()) as int)[i - 20] == raw[i]);
        } else {
            assert(raw.skip((20 + f.options.len()) as int)[i - 20 - f.options.len()] == raw[i]);
        }
    }
    assert(raw =~= p);
}

/// Where the fields of a TCP segment stand.
pub(crate) proof fn lemma_tcp_fields(
    src_port: u16,
    dst_port: u16,
    front: Seq<u8>,
    check: u16,
    back: Seq<u8>,
)
    requires
        front.len() == 12,
    ensures
        ({
            let s = tcp_segment(src_port, dst_port, front, check, back);
            &&& s.len() == 18 + back.len()
            &&& packet::word_at(s, 0) == src_port
            &&& packet::word_at(s, 2) == dst_port
            &&& s.subrange(4, 16) == front
            &&& s.skip(18) == back
        }),
{
    let s = tcp_segment(src_port, dst_port, front, check, back);
    assert(s.subrange(4, 16) =~= front);
    assert(s.skip(18) =~= back);
}

/// A segment is known by its parts.
pub(crate) proof fn lemma_tcp_whole(s: Seq<u8>, front: Seq<u8>, back: Seq<u8>)
    requires
        s.len() == 18 + back.len(),
        front.len() == 12,
        s.subrange(4, 16) == front,
        s.skip(18) == back,
    ensures
        s == tcp_segment(
            packet::word_at(s, 0),
            packet::word_at(s, 2),
            front,
            packet::word_at(s, 16),
            back,
        ),
{
    let t = tcp_segment(
        packet::word_at(s, 0),
        packet::word_at(s, 2),
        front,
        packet::word_at(s, 16),
        back,
    );
    assert forall|i: int| 0 <= i < s.len() implies s[i] == t[i] by {
        if 4 <= i < 16 {
            assert(s.subrange(4, 16)[i - 4] == s[i]);
        } else if i >= 18 {
            assert(s.skip(18)[i - 18] == s[i]);
        }
    }
    assert(s =~= t);
}

/// What a readdressed packet has to be like.
proof fn lemma_moved_v4(
    done: Seq<u8>,
    f: Ipv4Form,
    front: Seq<u8>,
    back: Seq<u8>,
    src: u32,
    src_port: u16,
    dst: u32,
    dst_port: u16,
)
    requires
        f.protocol == 6,
        front.len() == 12,
        done.len() == 38 + f.options.len() + back.len(),
        done.take(10) == v4_front(f).take(10),
        done.subrange(12, 16) == big_endian(src as nat, 4),
        done.subrange(16, 20) == big_endian(dst as nat, 4),
        done.subrange(20, (20 + f.options.len()) as int) == f.options,
        packet::word_at(done, (20 + f.options.len()) as int) == src_port,
        packet::word_at(done, (22 + f.options.len()) as int) == dst_port,
        done.subrange((24 + f.options.len()) as int, (36 + f.options.len()) as int) == front,
        done.skip((38 + f.options.len()) as int) == back,
        f.options.len() == 0 ==> checksum::folded(checksum::word_sum(done.take(20))) == 65535,
        checksum::folded(
            checksum::pseudo_sum_v4(
                done.subrange(12, 16),
                done.subrange(16, 20),
                checksum::IPPROTO_TCP,
                (done.len() - 20 - f.options.len()) as nat,
            ) + checksum::word_sum(done.skip((20 + f.options.len()) as int)),
        ) == 65535,
    ensures
        moved_v4(done, f, front, back, src, src_port, dst, dst_port),
{
    let ihl = (20 + f.options.len()) as int;
    lemma_address_v4(src);
    lemma_address_v4(dst);
    let c = packet::word_at(done, 10);
    let g = v4_moved(f, src, dst, c);
    let t = done.skip(ihl);
    assert forall|i: int| 0 <= i < 12 implies done.take(12)[i] == #[trigger] v4_front(g)[i] by {
        if i < 10 {
            assert(done.take(10)[i] == done[i]);
            assert(v4_front(f).take(10)[i] == v4_front(f)[i]);
        }
    }
    assert(done.take(12) =~= v4_front(g));
    assert(t.subrange(4, 16) =~= done.subrange(ihl + 4, ihl + 16));
    assert(t.skip(18) =~= done.skip(ihl + 18));
    assert(packet::word_at(t, 0) == packet::word_at(done, ihl));
    assert(packet::word_at(t, 2) == packet::word_at(done, ihl + 2));
    lemma_tcp_whole(t, front, back);
    lemma_v4_whole(done, g, t);
    lemma_whole_sum(t);
    lemma_whole_sum(big_endian(src as nat, 4));
    lemma_whole_sum(big_endian(dst as nat, 4));
    lemma_all_ones(
        checksum::pseudo_sum_v4(
            done.subrange(12, 16),
            done.subrange(16, 20),
            checksum::IPPROTO_TCP,
            (done.len() - ihl) as nat,
        ) + checksum::word_sum(t),
    );
    assert(payload_right_v4(g, t));
    if f.options.len() == 0 {
        lemma_header_sum(done, g);
        lemma_all_ones(checksum::word_sum(done.take(20)));
    }
    assert(right_v4(done, g, tcp_segment(src_port, dst_port, front, packet::word_at(t, 16), back)));
}

/// A packet that is readdressed is moved.
proof fn lemma_readdressed_v4(
    raw: Seq<u8>,
    f: Ipv4Form,
    front: Seq<u8>,
    back: Seq<u8>,
    segment: Seq<u8>,
    src: u32,
    src_port: u16,
    dst: u32,
    dst_port: u16,
)
    requires
        v4_writable(f),
        f.protocol == 6,
        front.len() == 12,
        back.len() >= 2,
        raw == v4_packet(f, segment),
        segment.len() == 18 + back.len(),
        segment.subrange(4, 16) == front,
        segment.skip(18) == back,
    ensures
        moved_v4(
            packet::readdressed_v4(raw, src, src_port, dst, dst_port),
            f,
            front,
            back,
            src,
            src_port,
            dst,
            dst_port,
        ),
{
    let ihl = (20 + f.options.len()) as int;
    lemma_v4_fields(f, segment);
    packet::law_readdressed_v4_verifies(raw, src, src_port, dst, dst_port);
    packet::law_readdressed_v4_keeps_payload(raw, src, src_port, dst, dst_port);
    lemma_address_v4(src);
    lemma_address_v4(dst);
    assert(raw.take(10) =~= raw.take(12).take(10));
    assert(raw.subrange(ihl + 4, ihl + 16) =~= raw.skip(ihl).subrange(4, 16));
    assert(raw.skip(ihl + 18) =~= raw.skip(ihl).skip(18));
    lemma_moved_v4(
        packet::readdressed_v4(raw, src, src_port, dst, dst_port),
        f,
        front,
        back,
        src,
        src_port,
        dst,
        dst_port,
    );
}

/// The sum of a header without options is that of its parts.
pub(crate) proof fn lemma_header_sum(raw: Seq<u8>, f: Ipv4Form)
    requires
        raw.len() >= 20,
        raw.take(12) == v4_front(f),
        raw.subrange(12, 16) == big_endian(f.src as nat, 4),
        raw.subrange(16, 20) == big_endian(f.dst as nat, 4),
    ensures
        checksum::word_sum(raw.take(20)) == ones_sum(v4_front(f), 0) + ones_sum(
            big_endian(f.src as nat, 4),
            0,
        ) + ones_sum(big_endian(f.dst as nat, 4), 0),
{
    let h = raw.take(20);
    checksum::lemma_word_sum_split(h, 12);
    checksum::lemma_word_sum_split(h.skip(12), 4);
    assert(h.take(12) =~= raw.take(12));
    assert(h.skip(12).take(4) =~= raw.subrange(12, 16));
    assert(h.skip(12).skip(4) =~= raw.subrange(16, 20));
    lemma_whole_sum(v4_front(f));
    lemma_whole_sum(big_endian(f.src as nat, 4));
    lemma_whole_sum(big_endian(f.dst as nat, 4));
}

/// A TCP packet over IPv4 that is no fragment is led to the listener, whatever
/// its other header fields are: it comes from the next address and a port that
/// now stands for its connection. What the listener answers to such a port goes
/// back to the client, as if from where the client had turned to. Fragments, and
/// packets to the broadcast address, to a multicast group or to no address, are
/// dropped.
pub proof fn law_tcp_v4_is_translated(
    f: Ipv4Form,
    src_port: u16,
    dst_port: u16,
    front: Seq<u8>,
    check: u16,
    back: Seq<u8>,
    endpoint: TunEndpoint,
    addr: u32,
    next: u32,
    now: u64,
    before: TcpNat,
    after: TcpNat,
    r: TunAction,
)
    requires
        v4_writable(f),
        f.protocol == 6,
        front.len() == 12,
        back.len() >= 2,
        endpoint.inet4_addr == Some(addr),
        endpoint.inet4_next == Some(next),
        before.wf(),
        packet::processed(
            v4_packet(f, tcp_segment(src_port, dst_port, front, check, back)),
            endpoint,
            now,
            before,
            after,
            r,
        ),
    ensures
        ({
            let from_listener = f.src == addr && src_port == endpoint.tcp_port_v4;
            let nowhere = f.dst == 0 || f.dst == 0xffff_ffff || 0xe000_0000 <= f.dst
                <= 0xefff_ffff;
            if f.more_fragments || f.offset != 0 {
                r is Drop
            } else if from_listener && before.ports().contains_key(dst_port) {
                match (before.ports()[dst_port].source.ip, before.ports()[dst_port].destination.ip) {
                    (IpAddr::V4(client), IpAddr::V4(server)) => r matches TunAction::Write(p)
                        && moved_v4(
                        p@,
                        f,
                        front,
                        back,
                        server,
                        before.ports()[dst_port].destination.port,
                        client,
                        before.ports()[dst_port].source.port,
                    ),
                    _ => r is Drop,
                }
            } else if from_listener || nowhere {
                r is Drop
            } else {
                r matches TunAction::Write(p) && exists|port: u16|
                    {
                        &&& after.ports().contains_key(port)
                        &&& after.ports()[port].source == v4(f.src, src_port)
                        &&& !before.addrs().contains_key(v4(f.src, src_port))
                            ==> after.ports()[port].destination == v4(f.dst, dst_port)
                        &&& #[trigger] moved_v4(
                            p@,
                            f,
                            front,
                            back,
                            next,
                            port,
                            addr,
                            endpoint.tcp_port_v4,
                        )
                    }
            }
        }),
{
    let segment = tcp_segment(src_port, dst_port, front, check, back);
    let raw = v4_packet(f, segment);
    let tcp_port = endpoint.tcp_port_v4;
    lemma_tcp_fields(src_port, dst_port, front, check, back);
    lemma_v4_fields(f, segment);
    lemma_tcp_request_v4(f, segment, addr, next, tcp_port);
    let src = v4(f.src, src_port);
    let dst = v4(f.dst, dst_port);
    match packet::request_v4(raw, Some(addr), Some(next), tcp_port) {
        packet::Request::FromListener { port } => {
            let e = before.ports()[port];
            if let (IpAddr::V4(client), IpAddr::V4(server)) = (e.source.ip, e.destination.ip) {
                lemma_readdressed_v4(
                    raw,
                    f,
                    front,
                    back,
                    segment,
                    server,
                    e.destination.port,
                    client,
                    e.source.port,
                );
            }
        },
        packet::Request::ToListener { src: s, dst: d } => {
            let port = choose|port: u16|
                {
                    &&& #[trigger] before.assigned(after, s, d, now, port)
                    &&& r matches TunAction::Write(p)
                    &&& p@ == packet::readdressed_v4(raw, next, port, addr, tcp_port)
                };
            before.law_assignment_leads_back(after, src, dst, now, port);
            lemma_readdressed_v4(raw, f, front, back, segment, next, port, addr, tcp_port);
        },
        _ => {},
    }
}

/// What a TCP packet over IPv4 is.
proof fn lemma_tcp_request_v4(
    f: Ipv4Form,
    segment: Seq<u8>,
    addr: u32,
    next: u32,
    tcp_port: u16,
)
    requires
        v4_writable(f),
        f.protocol == 6,
        segment.len() >= 20,
    ensures
        packet::request_v4(v4_packet(f, segment), Some(addr), Some(next), tcp_port) == (
        if f.more_fragments || f.offset != 0 {
            packet::Request::Ignored
        } else if f.src == addr && packet::word_at(segment, 0) == tcp_port {
            packet::Request::FromListener { port: packet::word_at(segment, 2) }
        } else if f.dst == 0 || f.dst == 0xffff_ffff || 0xe000_0000 <= f.dst <= 0xefff_ffff {
            packet::Request::Ignored
        } else {
            packet::Request::ToListener {
                src: v4(f.src, packet::word_at(segment, 0)),
                dst: v4(f.dst, packet::word_at(segment, 2)),
            }
        }),
{
    lemma_v4_fields(f, segment);
}

} // verus!
