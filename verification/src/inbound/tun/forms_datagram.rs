//! How UDP datagrams and echo messages are written (RFC 768, RFC 792, RFC 4443),
//! and what a device does with packets that carry them.
use vstd::prelude::*;
use crate::buf;
use crate::inbound::tun::checksum;
use crate::inbound::tun::forms;
use crate::inbound::tun::forms_v6;
use crate::inbound::tun::packet;
use crate::inbound::tun::packet::{TunAction, TunEndpoint};
use crate::inbound::tun::translation::TcpNat;
use crate::net;

verus! {

/// A UDP datagram: its ports, the length that it states, its checksum, and the
/// rest.
pub open spec fn udp_datagram(
    src_port: u16,
    dst_port: u16,
    length: u16,
    check: u16,
    rest: Seq<u8>,
) -> Seq<u8> {
    forms::two_bytes(src_port as int) + forms::two_bytes(dst_port as int) + forms::two_bytes(length as int) + forms::two_bytes(
        check as int,
    ) + rest
}

/// An ICMP message: type, code, checksum, and the rest.
pub open spec fn control_message(kind: u8, code: u8, check: u16, rest: Seq<u8>) -> Seq<u8> {
    seq![kind, code] + forms::two_bytes(check as int) + rest
}

/// Whether datagram `b` holds what a UDP datagram carries: nothing past the
/// length that it states, header included, and nothing past its end.
pub open spec fn carried(data: Seq<u8>, length: u16, rest: Seq<u8>) -> bool {
    &&& length <= 8 ==> data.len() == 0
    &&& 8 < length <= 8 + rest.len() ==> data == rest.take(length - 8)
    &&& length > 8 + rest.len() ==> data == rest
}

proof fn lemma_udp_fields(src_port: u16, dst_port: u16, length: u16, check: u16, rest: Seq<u8>)
    ensures
        ({
            let u = udp_datagram(src_port, dst_port, length, check, rest);
            &&& u.len() == 8 + rest.len()
            &&& packet::word_at(u, 0) == src_port
            &&& packet::word_at(u, 2) == dst_port
            &&& carried(packet::udp_payload(u), length, rest)
        }),
{
    let u = udp_datagram(src_port, dst_port, length, check, rest);
    assert(packet::word_at(u, 4) == length);
    assert(u.skip(8) =~= rest);
    if 8 < length <= 8 + rest.len() {
        assert(packet::udp_payload(u) =~= rest.take(length - 8));
    }
    if length > 8 + rest.len() {
        assert(packet::udp_payload(u) =~= rest);
    }
}

/// A UDP datagram over IPv4 that is no fragment is handed on, between the two
/// addresses and ports that it names, whatever its other header fields are, with
/// what it carries. Fragments are dropped.
pub proof fn law_udp_v4_is_handed_on(
    f: forms::Ipv4Form,
    src_port: u16,
    dst_port: u16,
    length: u16,
    check: u16,
    rest: Seq<u8>,
    endpoint: TunEndpoint,
    now: u64,
    before: TcpNat,
    after: TcpNat,
    r: TunAction,
)
    requires
        forms::v4_writable(f),
        f.protocol == 17,
        packet::processed(
            forms::v4_packet(f, udp_datagram(src_port, dst_port, length, check, rest)),
            endpoint,
            now,
            before,
            after,
            r,
        ),
    ensures
        packet::same_table(before, after),
        if f.more_fragments || f.offset != 0 {
            r is Drop
        } else {
            &&& r matches TunAction::Udp { src, dst, data }
            &&& src == forms::v4(f.src, src_port)
            &&& dst == forms::v4(f.dst, dst_port)
            &&& carried(buf::contents(data), length, rest)
        },
{
    let u = udp_datagram(src_port, dst_port, length, check, rest);
    forms::lemma_v4_fields(f, u);
    lemma_udp_fields(src_port, dst_port, length, check, rest);
}

/// A UDP datagram over IPv6 is handed on, between the two addresses and ports
/// that it names, with what it carries.
pub proof fn law_udp_v6_is_handed_on(
    f: forms_v6::Ipv6Form,
    src_port: u16,
    dst_port: u16,
    length: u16,
    check: u16,
    rest: Seq<u8>,
    endpoint: TunEndpoint,
    now: u64,
    before: TcpNat,
    after: TcpNat,
    r: TunAction,
)
    requires
        forms_v6::v6_writable(f),
        f.next == 17,
        packet::processed(
            forms_v6::v6_packet(f, udp_datagram(src_port, dst_port, length, check, rest)),
            endpoint,
            now,
            before,
            after,
            r,
        ),
    ensures
        packet::same_table(before, after),
        r matches TunAction::Udp { src, dst, data } && src == forms_v6::v6(f.src, src_port) && dst == forms_v6::v6(
            f.dst,
            dst_port,
        ) && carried(buf::contents(data), length, rest),
{
    let u = udp_datagram(src_port, dst_port, length, check, rest);
    forms_v6::lemma_v6_fields(f, u);
    lemma_udp_fields(src_port, dst_port, length, check, rest);
}

/// Whether `p` is the packet with its two addresses exchanged, which carries the
/// message, and whose checksums are right.
pub open spec fn answered_v4(p: Seq<u8>, f: forms::Ipv4Form, c: u16, message: Seq<u8>) -> bool {
    let g = forms::v4_moved(f, f.dst, f.src, c);
    &&& p == forms::v4_packet(g, message)
    &&& f.options.len() == 0 ==> forms::header_right(g)
    &&& forms::ones_sum(message, 0) % 65535 == 0
}

/// An echo request over IPv4 to the device's own address, or to any address
/// where the device has none, is answered: addresses exchanged, type zero,
/// everything else unchanged, right checksums. Any other control message is
/// dropped.
pub proof fn law_echo_v4_is_answered(
    f: forms::Ipv4Form,
    kind: u8,
    code: u8,
    check: u16,
    rest: Seq<u8>,
    endpoint: TunEndpoint,
    now: u64,
    before: TcpNat,
    after: TcpNat,
    r: TunAction,
)
    requires
        forms::v4_writable(f),
        f.protocol == 1,
        packet::processed(
            forms::v4_packet(f, control_message(kind, code, check, rest)),
            endpoint,
            now,
            before,
            after,
            r,
        ),
    ensures
        packet::same_table(before, after),
        if kind == 8 && code == 0 && rest.len() >= 4 && (endpoint.inet4_addr is None
            || endpoint.inet4_addr == Some(f.dst)) {
            r matches TunAction::Write(p) && exists|c: u16, check: u16| #[trigger]
                answered_v4(p@, f, c, control_message(0, 0, check, rest))
        } else {
            r is Drop
        },
{
    let m = control_message(kind, code, check, rest);
    let raw = forms::v4_packet(f, m);
    forms::lemma_v4_fields(f, m);
    assert(m[0] == kind && m[1] == code);
    if kind == 8 && code == 0 && rest.len() >= 4 && (endpoint.inet4_addr is None
        || endpoint.inet4_addr == Some(f.dst)) {
        assert(m.skip(4) =~= rest);
        lemma_echo_v4(raw, f, m, rest);
    }
}

/// The answer to an echo request over IPv4.
proof fn lemma_echo_v4(raw: Seq<u8>, f: forms::Ipv4Form, m: Seq<u8>, rest: Seq<u8>)
    requires
        forms::v4_writable(f),
        raw == forms::v4_packet(f, m),
        m.len() == 4 + rest.len(),
        m.len() >= 8,
        m[1] == 0,
        m.skip(4) == rest,
    ensures
        exists|c: u16, check: u16| #[trigger]
            answered_v4(
                packet::echo_reply_v4(raw),
                f,
                c,
                control_message(0, 0, check, rest),
            ),
{
    let ihl = (20 + f.options.len()) as int;
    forms::lemma_v4_fields(f, m);
    packet::law_echo_reply_v4_returns(raw);
    let done = packet::echo_reply_v4(raw);
    assert(done.len() == raw.len());
    assert(done.take(10) =~= raw.take(12).take(10));
    assert(done.subrange(12, 16) =~= raw.subrange(16, 20));
    assert(done.subrange(16, 20) =~= raw.subrange(12, 16));
    assert(done.subrange(20, ihl) =~= raw.subrange(20, ihl));
    assert(done[ihl + 1] == raw[ihl + 1]);
    assert(raw.skip(ihl)[1] == raw[ihl + 1]);
    assert(raw.skip(ihl + 4) =~= raw.skip(ihl).skip(4));
    lemma_answered_v4(done, f, rest);
}

proof fn lemma_answered_v4(done: Seq<u8>, f: forms::Ipv4Form, rest: Seq<u8>)
    requires
        done.len() == 24 + f.options.len() + rest.len(),
        done.take(10) == forms::v4_front(f).take(10),
        done.subrange(12, 16) == forms::big_endian(f.dst as nat, 4),
        done.subrange(16, 20) == forms::big_endian(f.src as nat, 4),
        done.subrange(20, (20 + f.options.len()) as int) == f.options,
        done[(20 + f.options.len()) as int] == 0,
        done[(21 + f.options.len()) as int] == 0,
        done.skip((24 + f.options.len()) as int) == rest,
        checksum::folded(checksum::word_sum(done.skip((20 + f.options.len()) as int))) == 65535,
        f.options.len() == 0 ==> checksum::folded(checksum::word_sum(done.take(20))) == 65535,
    ensures
        exists|c: u16, check: u16| #[trigger]
            answered_v4(done, f, c, control_message(0, 0, check, rest)),
{
    let ihl = (20 + f.options.len()) as int;
    let c = packet::word_at(done, 10);
    let g = forms::v4_moved(f, f.dst, f.src, c);
    let t = done.skip(ihl);
    let check = packet::word_at(t, 2);
    assert forall|i: int| 0 <= i < 12 implies done.take(12)[i] == #[trigger] forms::v4_front(g)[i] by {
        if i < 10 {
            assert(done.take(10)[i] == done[i]);
            assert(forms::v4_front(f).take(10)[i] == forms::v4_front(f)[i]);
        }
    }
    assert(done.take(12) =~= forms::v4_front(g));
    let m = control_message(0, 0, check, rest);
    assert forall|i: int| 0 <= i < t.len() implies t[i] == m[i] by {
        if i >= 4 {
            assert(done.skip(ihl + 4)[i - 4] == t[i]);
        }
    }
    assert(t =~= m);
    forms::lemma_v4_whole(done, g, t);
    forms::lemma_whole_sum(t);
    forms::lemma_all_ones(checksum::word_sum(t));
    if f.options.len() == 0 {
        forms::lemma_header_sum(done, g);
        forms::lemma_all_ones(checksum::word_sum(done.take(20)));
    }
    assert(answered_v4(done, f, c, control_message(0, 0, check, rest)));
}

/// An echo request over IPv6 to the device's own address, or to any address
/// where the device has none, is answered: addresses exchanged, type 129,
/// everything else unchanged, a right checksum. Any other control message is
/// dropped.
pub proof fn law_echo_v6_is_answered(
    f: forms_v6::Ipv6Form,
    kind: u8,
    code: u8,
    check: u16,
    rest: Seq<u8>,
    endpoint: TunEndpoint,
    now: u64,
    before: TcpNat,
    after: TcpNat,
    r: TunAction,
)
    requires
        forms_v6::v6_writable(f),
        f.next == 58,
        packet::processed(
            forms_v6::v6_packet(f, control_message(kind, code, check, rest)),
            endpoint,
            now,
            before,
            after,
            r,
        ),
    ensures
        packet::same_table(before, after),
        if kind == 128 && rest.len() >= 4 && (endpoint.inet6_addr is None || endpoint.inet6_addr
            == Some(f.dst)) {
            r matches TunAction::Write(p) && exists|check: u16| #[trigger]
                forms_v6::right_v6(
                    p@,
                    (forms_v6::Ipv6Form { src: f.dst, dst: f.src, ..f }),
                    control_message(129, code, check, rest),
                )
        } else {
            r is Drop
        },
{
    let m = control_message(kind, code, check, rest);
    let raw = forms_v6::v6_packet(f, m);
    forms_v6::lemma_v6_fields(f, m);
    assert(m[0] == kind && m[1] == code);
    assert(raw.skip(40)[0] == raw[40] && raw.skip(40)[1] == raw[41]);
    if kind == 128 && rest.len() >= 4 && (endpoint.inet6_addr is None || endpoint.inet6_addr
        == Some(f.dst)) {
        assert(m.skip(4) =~= rest);
        packet::law_echo_reply_v6_returns(raw);
        let done = packet::echo_reply_v6(raw);
        assert(done.len() == raw.len());
        assert(done.take(8) =~= raw.take(8));
        assert(done.subrange(8, 24) =~= raw.subrange(24, 40));
        assert(done.subrange(24, 40) =~= raw.subrange(8, 24));
        assert(done[41] == raw[41]);
        assert(raw.skip(44) =~= raw.skip(40).skip(4));
        lemma_answered_v6(done, f, code, rest);
    }
}

proof fn lemma_answered_v6(done: Seq<u8>, f: forms_v6::Ipv6Form, code: u8, rest: Seq<u8>)
    requires
        f.next == 58,
        done.len() == 44 + rest.len(),
        done.take(8) == forms_v6::v6_front(f),
        done.subrange(8, 24) == forms::big_endian(f.dst as nat, 16),
        done.subrange(24, 40) == forms::big_endian(f.src as nat, 16),
        done[40] == 129,
        done[41] == code,
        done.skip(44) == rest,
        checksum::folded(
            checksum::pseudo_sum_v6(
                done.subrange(8, 24),
                done.subrange(24, 40),
                58,
                (done.len() - 40) as nat,
            ) + checksum::word_sum(done.skip(40)),
        ) == 65535,
    ensures
        exists|check: u16| #[trigger]
            forms_v6::right_v6(
                done,
                (forms_v6::Ipv6Form { src: f.dst, dst: f.src, ..f }),
                control_message(129, code, check, rest),
            ),
{
    let g = forms_v6::Ipv6Form { src: f.dst, dst: f.src, ..f };
    let t = done.skip(40);
    let check = packet::word_at(t, 2);
    let m = control_message(129, code, check, rest);
    assert(forms_v6::v6_front(g) =~= forms_v6::v6_front(f));
    assert forall|i: int| 0 <= i < t.len() implies t[i] == m[i] by {
        if i >= 4 {
            assert(done.skip(44)[i - 4] == t[i]);
        }
    }
    assert(t =~= m);
    forms_v6::lemma_v6_whole(done, g, t);
    forms_v6::lemma_right_v6(done, g, t);
    assert(forms_v6::right_v6(
        done,
        (forms_v6::Ipv6Form { src: f.dst, dst: f.src, ..f }),
        control_message(129, code, check, rest),
    ));
}

/// What carries neither TCP nor UDP nor a control message of its own kind, and
/// what is no IP packet, is dropped.
pub proof fn law_other_packets_are_dropped(
    raw: Seq<u8>,
    endpoint: TunEndpoint,
    now: u64,
    before: TcpNat,
    after: TcpNat,
    r: TunAction,
)
    requires
        packet::processed(raw, endpoint, now, before, after, r),
        raw.len() < 20 || !(0x40 <= raw[0] < 0x70) || 0x50 <= raw[0] < 0x60 || (0x40 <= raw[0]
            < 0x45) || (0x60 <= raw[0] && raw.len() < 40) || (0x40 <= raw[0] < 0x50 && raw[9] != 1
            && raw[9] != 6 && raw[9] != 17) || (0x60 <= raw[0] && raw[6] != 6 && raw[6] != 17
            && raw[6] != 58),
    ensures
        r is Drop,
        packet::same_table(before, after),
{
}

/// A UDP packet over IPv4 that is built for a client is one header without
/// options, not to be fragmented, and the datagram, with right checksums.
pub proof fn law_built_udp_v4_is_right(
    src: u32,
    src_port: u16,
    dst: u32,
    dst_port: u16,
    payload: Seq<u8>,
)
    requires
        28 + payload.len() <= 65535,
    ensures
        exists|f: forms::Ipv4Form, check: u16|
            {
                &&& #[trigger] forms::right_v4(
                    packet::udp_packet_v4(src, src_port, dst, dst_port, payload),
                    f,
                    udp_datagram(src_port, dst_port, (8 + payload.len()) as u16, check, payload),
                )
                &&& f.src == src && f.dst == dst && f.protocol == 17 && f.length == 28
                    + payload.len()
                &&& f.dont_fragment && !f.more_fragments && f.offset == 0 && f.options.len() == 0
                &&& f.ttl == 64
            },
{
    let p = packet::udp_packet_v4(src, src_port, dst, dst_port, payload);
    let total = (28 + payload.len()) as u16;
    let s = net::be_octets(src as nat, 4);
    let d = net::be_octets(dst as nat, 4);
    forms::lemma_address_v4(src);
    forms::lemma_address_v4(dst);
    let header = seq![
        0x45u8,
        0,
        (total / 256) as u8,
        (total % 256) as u8,
        0,
        0,
        0x40,
        0,
        64,
        17u8,
        0,
        0,
    ] + s + d;
    let udp = packet::udp_datagram(src_port, dst_port, payload);
    let hc = checksum::checksum_of(checksum::word_sum(header));
    let check = checksum::checksum_of(
        checksum::pseudo_sum_v4(s, d, 17, udp.len()) + checksum::word_sum(udp),
    );
    let h = checksum::with_word(header, 10, hc);
    let u = checksum::with_word(udp, 6, check);
    assert(p == h + u);
    let f = forms::Ipv4Form {
        tos: 0,
        length: total,
        id: 0,
        reserved: false,
        dont_fragment: true,
        more_fragments: false,
        offset: 0,
        ttl: 64,
        protocol: 17,
        checksum: hc,
        src,
        dst,
        options: Seq::empty(),
    };
    let t = udp_datagram(src_port, dst_port, (8 + payload.len()) as u16, check, payload);
    assert(forms::v4_flags(f) == 0x4000);
    assert(h.take(12) =~= forms::v4_front(f));
    assert(u =~= t);
    assert(p.take(12) =~= h.take(12));
    assert(p.subrange(12, 16) =~= s);
    assert(p.subrange(16, 20) =~= d);
    assert(p.subrange(20, 20) =~= f.options);
    assert(p.skip(20) =~= u);
    forms::lemma_v4_whole(p, f, t);
    checksum::law_internet_checksum_verifies(header, 10);
    assert(p.take(20) =~= h);
    forms::lemma_header_sum(p, f);
    forms::lemma_all_ones(checksum::word_sum(h));
    checksum::law_payload_checksum_verifies(checksum::pseudo_sum_v4(s, d, 17, udp.len()), udp, 6);
    forms::lemma_whole_sum(t);
    forms::lemma_whole_sum(s);
    forms::lemma_whole_sum(d);
    forms::lemma_all_ones(
        checksum::pseudo_sum_v4(s, d, 17, udp.len()) + checksum::word_sum(u),
    );
    assert(forms::payload_right_v4(f, t));
    assert(forms::right_v4(p, f, t));
}

/// A UDP packet over IPv6 that is built for a client is one header and the
/// datagram, with a right checksum.
pub proof fn law_built_udp_v6_is_right(
    src: u128,
    src_port: u16,
    dst: u128,
    dst_port: u16,
    payload: Seq<u8>,
)
    requires
        8 + payload.len() <= 65535,
    ensures
        exists|f: forms_v6::Ipv6Form, check: u16|
            {
                &&& #[trigger] forms_v6::right_v6(
                    packet::udp_packet_v6(src, src_port, dst, dst_port, payload),
                    f,
                    udp_datagram(src_port, dst_port, (8 + payload.len()) as u16, check, payload),
                )
                &&& forms_v6::v6_writable(f)
                &&& f.src == src && f.dst == dst && f.next == 17 && f.length == 8 + payload.len()
                &&& f.hops == 64
            },
{
    let p = packet::udp_packet_v6(src, src_port, dst, dst_port, payload);
    let len = (8 + payload.len()) as u16;
    let s = net::be_octets(src as nat, 16);
    let d = net::be_octets(dst as nat, 16);
    forms_v6::lemma_address_v6(src);
    forms_v6::lemma_address_v6(dst);
    let udp = packet::udp_datagram(src_port, dst_port, payload);
    let check = checksum::checksum_of(
        checksum::pseudo_sum_v6(s, d, 17, udp.len()) + checksum::word_sum(udp),
    );
    let u = checksum::with_word(udp, 6, check);
    let f = forms_v6::Ipv6Form {
        class: 0,
        label: seq![0u8, 0u8, 0u8],
        length: len,
        next: 17,
        hops: 64,
        src,
        dst,
    };
    let t = udp_datagram(src_port, dst_port, len, check, payload);
    assert(u =~= t);
    assert(p.take(8) =~= forms_v6::v6_front(f));
    assert(p.subrange(8, 24) =~= s);
    assert(p.subrange(24, 40) =~= d);
    assert(p.skip(40) =~= u);
    forms_v6::lemma_v6_whole(p, f, t);
    checksum::law_payload_checksum_verifies(checksum::pseudo_sum_v6(s, d, 17, udp.len()), udp, 6);
    forms_v6::lemma_right_v6(p, f, t);
    assert(forms_v6::right_v6(p, f, t));
}

} // verus!
