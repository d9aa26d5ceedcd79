//! Internet checksums, with and without pseudo headers.
//!
//! Sums are kept folded below 2^17 while they are accumulated, so data of any
//! length is accepted.
use vstd::prelude::*;

verus! {

/// IP protocol number of TCP.
pub const IPPROTO_TCP: u8 = 6;

/// IP protocol number of UDP.
pub const IPPROTO_UDP: u8 = 17;

/// IP protocol number of ICMP.
pub const IPPROTO_ICMP: u8 = 1;

/// IP protocol number of ICMPv6.
pub const IPPROTO_ICMPV6: u8 = 58;

/// The sum of the big-endian 16-bit words of `data`; an odd last byte is the
/// high half of a word whose low half is zero.
pub open spec fn word_sum(data: Seq<u8>) -> nat
    decreases data.len(),
{
    if data.len() == 0 {
        0
    } else if data.len() == 1 {
        (data[0] * 256) as nat
    } else {
        (data[0] * 256 + data[1]) as nat + word_sum(data.skip(2))
    }
}

/// The value of `sum` once its carries have been added back until it fits in
/// 16 bits: zero for zero, else the representative of `sum` modulo 65535 in
/// `1..=65535`.
pub open spec fn folded(sum: nat) -> nat {
    if sum == 0 {
        0
    } else {
        ((sum - 1) % 65535 + 1) as nat
    }
}

/// The ones' complement checksum of a word sum.
pub open spec fn checksum_of(sum: nat) -> u16 {
    (65535 - folded(sum)) as u16
}

/// The word sum of the IPv4 pseudo header for `len` bytes of protocol `proto`.
/// The length field has 16 bits.
pub open spec fn pseudo_sum_v4(src: Seq<u8>, dst: Seq<u8>, proto: u8, len: nat) -> nat {
    word_sum(src) + word_sum(dst) + proto as nat + len % 65536
}

/// The word sum of the IPv6 pseudo header for `len` bytes of protocol `proto`.
/// The length field has 32 bits.
pub open spec fn pseudo_sum_v6(src: Seq<u8>, dst: Seq<u8>, proto: u8, len: nat) -> nat {
    word_sum(src) + word_sum(dst) + (len / 65536) % 65536 + len % 65536 + proto as nat
}

/// The two bytes of `w`, high half first.
pub open spec fn be_bytes(w: u16) -> Seq<u8> {
    seq![(w / 256) as u8, (w % 256) as u8]
}

/// Reads a big-endian 16-bit word.
pub open spec fn be_word(hi: u8, lo: u8) -> nat {
    (hi * 256 + lo) as nat
}

/// `data` with the 16-bit word at `at` replaced by `w`.
pub open spec fn with_word(data: Seq<u8>, at: int, w: u16) -> Seq<u8> {
    data.update(at, (w / 256) as u8).update(at + 1, (w % 256) as u8)
}

/// An IPv4 packet whose header checksum, taken over the first 20 bytes, has
/// been recomputed.
pub open spec fn with_ipv4_checksum(pkt: Seq<u8>) -> Seq<u8> {
    if pkt.len() < 20 {
        pkt
    } else {
        let zeroed = with_word(pkt, 10, 0);
        with_word(zeroed, 10, checksum_of(word_sum(zeroed.take(20))))
    }
}

/// An IPv4 packet with header length `ihl` whose TCP checksum has been
/// recomputed.
pub open spec fn with_tcp_checksum_v4(pkt: Seq<u8>, ihl: int) -> Seq<u8> {
    if pkt.len() < ihl + 18 {
        pkt
    } else {
        let zeroed = with_word(pkt, ihl + 16, 0);
        let sum = pseudo_sum_v4(
            pkt.subrange(12, 16),
            pkt.subrange(16, 20),
            IPPROTO_TCP,
            (pkt.len() - ihl) as nat,
        ) + word_sum(zeroed.skip(ihl));
        with_word(zeroed, ihl + 16, checksum_of(sum))
    }
}

/// An IPv6 packet whose checksum at offset `at` of the payload has been
/// recomputed for protocol `proto`.
pub open spec fn with_payload_checksum_v6(pkt: Seq<u8>, proto: u8, at: int) -> Seq<u8> {
    let zeroed = with_word(pkt, 40 + at, 0);
    let sum = pseudo_sum_v6(
        pkt.subrange(8, 24),
        pkt.subrange(24, 40),
        proto,
        (pkt.len() - 40) as nat,
    ) + word_sum(zeroed.skip(40));
    with_word(zeroed, 40 + at, checksum_of(sum))
}

/// An IPv6 packet whose TCP checksum has been recomputed.
pub open spec fn with_tcp_checksum_v6(pkt: Seq<u8>) -> Seq<u8> {
    if pkt.len() < 58 {
        pkt
    } else {
        with_payload_checksum_v6(pkt, IPPROTO_TCP, 16)
    }
}

/// An IPv6 packet whose ICMPv6 checksum has been recomputed.
pub open spec fn with_echo_checksum_v6(pkt: Seq<u8>) -> Seq<u8> {
    if pkt.len() < 48 {
        pkt
    } else {
        with_payload_checksum_v6(pkt, IPPROTO_ICMPV6, 2)
    }
}

/// Reads a big-endian 16-bit word.
pub fn be16(hi: u8, lo: u8) -> (w: u16)
    ensures
        w == be_word(hi, lo),
{
    hi as u16 * 256 + lo as u16
}

/// Adds one word to a folded sum.
fn add_word(acc: u32, w: u32) -> (r: u32)
    requires
        acc <= 65535,
        w <= 65535,
    ensures
        r <= 65535,
        r == folded((acc + w) as nat),
{
    let s: u32 = acc + w;
    if s > 65535 {
        s - 65535
    } else {
        s
    }
}

proof fn lemma_folded_step(a: nat, b: nat)
    ensures
        folded(folded(a) + b) == folded(a + b),
{
    if a == 0 {
    } else {
        let x: int = a as int - 1;
        assert(x == 65535 * (x / 65535) + x % 65535) by (nonlinear_arith);
        let y: int = x % 65535 + b as int;
        assert((y + 65535 * (x / 65535)) % 65535 == y % 65535) by {
            vstd::arithmetic::div_mod::lemma_mod_multiples_vanish(x / 65535, y, 65535);
        }
        assert(folded(a) + b - 1 == y);
        assert(a + b - 1 == y + 65535 * (x / 65535));
    }
}

pub(crate) proof fn lemma_word_sum_split(data: Seq<u8>, i: int)
    requires
        0 <= i <= data.len(),
        i % 2 == 0,
    ensures
        word_sum(data) == word_sum(data.take(i)) + word_sum(data.skip(i)),
    decreases i,
{
    if i == 0 {
        assert(data.skip(0) =~= data);
        assert(data.take(0).len() == 0);
    } else {
        lemma_word_sum_split(data.skip(2), i - 2);
        assert(data.skip(2).take(i - 2) =~= data.take(i).skip(2));
        assert(data.skip(2).skip(i - 2) =~= data.skip(i));
        assert(data.take(i)[0] == data[0] && data.take(i)[1] == data[1]);
    }
}

/// Adds the words of `data` to a folded sum.
fn add_bytes(start: u32, data: &[u8], Ghost(sum): Ghost<nat>) -> (r: u32)
    requires
        start == folded(sum),
    ensures
        r == folded(sum + word_sum(data@)),
        r <= 65535,
{
    let n: usize = data.len();
    let mut acc: u32 = start;
    let mut i: usize = 0;
    assert(data@.take(0).len() == 0);
    while n - i >= 2
        invariant
            n == data@.len(),
            i <= n,
            i % 2 == 0,
            acc <= 65535,
            acc == folded(sum + word_sum(data@.take(i as int))),
        decreases n - i,
    {
        let w: u16 = be16(data[i], data[i + 1]);
        proof {
            let t = data@.take(i + 2);
            lemma_word_sum_split(t, i as int);
            assert(t.take(i as int) =~= data@.take(i as int));
            assert(t.skip(i as int).len() == 2);
            assert(word_sum(t.skip(i as int).skip(2)) == 0);
            assert(t.skip(i as int)[0] == data@[i as int]);
            assert(t.skip(i as int)[1] == data@[i + 1]);
            assert(word_sum(t) == word_sum(data@.take(i as int)) + w);
            lemma_folded_step(sum + word_sum(data@.take(i as int)), w as nat);
        }
        acc = add_word(acc, w as u32);
        i = i + 2;
    }
    proof {
        lemma_word_sum_split(data@, i as int);
        assert(data@.skip(i as int).len() == n - i);
        if i < n {
            assert(data@.skip(i as int)[0] == data@[i as int]);
            lemma_folded_step(
                sum + word_sum(data@.take(i as int)),
                (data@[i as int] * 256) as nat,
            );
        }
    }
    if i < n {
        acc = add_word(acc, data[i] as u32 * 256);
    }
    acc
}

/// The checksum of `data` as an IP header or ICMPv4 message carries it.
pub fn internet_checksum(data: &[u8]) -> (r: u16)
    ensures
        r == checksum_of(word_sum(data@)),
{
    let acc: u32 = add_bytes(0, data, Ghost(0nat));
    (65535 - acc) as u16
}

/// The checksum of `data` and an IPv4 pseudo header.
pub fn checksum_with_pseudo_v4(src: &[u8; 4], dst: &[u8; 4], proto: u8, data: &[u8]) -> (r: u16)
    ensures
        r == checksum_of(
            pseudo_sum_v4(src@, dst@, proto, data@.len()) + word_sum(data@),
        ),
{
    let len: u32 = (data.len() % 65536) as u32;
    let ghost s1 = word_sum(src@);
    let acc: u32 = add_bytes(0, src, Ghost(0nat));
    let ghost s2 = s1 + word_sum(dst@);
    let acc: u32 = add_bytes(acc, dst, Ghost(s1));
    proof {
        lemma_folded_step(s2, proto as nat);
        lemma_folded_step(s2 + proto as nat, len as nat);
    }
    let acc: u32 = add_word(acc, proto as u32);
    let acc: u32 = add_word(acc, len);
    let acc: u32 = add_bytes(acc, data, Ghost(s2 + proto as nat + len as nat));
    (65535 - acc) as u16
}

/// The checksum of `data` and an IPv6 pseudo header.
pub fn checksum_with_pseudo_v6(src: &[u8; 16], dst: &[u8; 16], proto: u8, data: &[u8]) -> (r: u16)
    ensures
        r == checksum_of(
            pseudo_sum_v6(src@, dst@, proto, data@.len()) + word_sum(data@),
        ),
{
    let hi: u32 = (data.len() / 65536 % 65536) as u32;
    let lo: u32 = (data.len() % 65536) as u32;
    let ghost s1 = word_sum(src@);
    let acc: u32 = add_bytes(0, src, Ghost(0nat));
    let ghost s2 = s1 + word_sum(dst@);
    let acc: u32 = add_bytes(acc, dst, Ghost(s1));
    proof {
        lemma_folded_step(s2, hi as nat);
        lemma_folded_step(s2 + hi as nat, lo as nat);
        lemma_folded_step(s2 + hi as nat + lo as nat, proto as nat);
    }
    let acc: u32 = add_word(acc, hi);
    let acc: u32 = add_word(acc, lo);
    let acc: u32 = add_word(acc, proto as u32);
    let acc: u32 = add_bytes(
        acc,
        data,
        Ghost(s2 + hi as nat + lo as nat + proto as nat),
    );
    (65535 - acc) as u16
}

/// The UDP checksum over IPv4.
pub fn udp_checksum_v4(src: &[u8; 4], dst: &[u8; 4], udp: &[u8]) -> (r: u16)
    ensures
        r == checksum_of(
            pseudo_sum_v4(src@, dst@, IPPROTO_UDP, udp@.len()) + word_sum(udp@),
        ),
{
    checksum_with_pseudo_v4(src, dst, IPPROTO_UDP, udp)
}

/// The UDP checksum over IPv6.
pub fn udp_checksum_v6(src: &[u8; 16], dst: &[u8; 16], udp: &[u8]) -> (r: u16)
    ensures
        r == checksum_of(
            pseudo_sum_v6(src@, dst@, IPPROTO_UDP, udp@.len()) + word_sum(udp@),
        ),
{
    checksum_with_pseudo_v6(src, dst, IPPROTO_UDP, udp)
}

/// Stores `w` big-endian at `at`.
fn put_word(pkt: &mut [u8], at: usize, w: u16)
    requires
        at + 1 < old(pkt)@.len(),
    ensures
        final(pkt)@ == with_word(old(pkt)@, at as int, w),
{
    pkt[at] = (w / 256) as u8;
    pkt[at + 1] = (w % 256) as u8;
}

/// Copies four bytes out of a packet.
pub fn four_bytes(pkt: &[u8], at: usize) -> (r: [u8; 4])
    requires
        at + 4 <= pkt@.len(),
    ensures
        r@ == pkt@.subrange(at as int, at + 4),
{
    let r: [u8; 4] = [pkt[at], pkt[at + 1], pkt[at + 2], pkt[at + 3]];
    assert(r@ =~= pkt@.subrange(at as int, at + 4));
    r
}

/// Copies sixteen bytes out of a packet.
pub fn sixteen_bytes(pkt: &[u8], at: usize) -> (r: [u8; 16])
    requires
        at + 16 <= pkt@.len(),
    ensures
        r@ == pkt@.subrange(at as int, at + 16),
{
    let r: [u8; 16] = [
        pkt[at],
        pkt[at + 1],
        pkt[at + 2],
        pkt[at + 3],
        pkt[at + 4],
        pkt[at + 5],
        pkt[at + 6],
        pkt[at + 7],
        pkt[at + 8],
        pkt[at + 9],
        pkt[at + 10],
        pkt[at + 11],
        pkt[at + 12],
        pkt[at + 13],
        pkt[at + 14],
        pkt[at + 15],
    ];
    assert(r@ =~= pkt@.subrange(at as int, at + 16));
    r
}

/// Recomputes the IPv4 header checksum over the first 20 bytes of a packet.
/// Shorter packets are left as they are.
pub fn recompute_ipv4_checksum(pkt: &mut [u8])
    ensures
        final(pkt)@ == with_ipv4_checksum(old(pkt)@),
{
    if pkt.len() < 20 {
        return ;
    }
    put_word(pkt, 10, 0);
    let cksum: u16 = internet_checksum(&pkt[0..20]);
    assert(with_word(old(pkt)@, 10, 0).take(20) =~= with_word(old(pkt)@, 10, 0).subrange(0, 20));
    put_word(pkt, 10, cksum);
}

/// Recomputes the TCP checksum of an IPv4 packet whose header has `ihl`
/// bytes. Packets that end before the checksum field are left as they are.
pub fn recompute_tcp_checksum_v4(pkt: &mut [u8], ihl: usize)
    requires
        ihl + 18 <= usize::MAX,
        old(pkt)@.len() >= ihl + 18 ==> old(pkt)@.len() >= 20,
    ensures
        final(pkt)@ == with_tcp_checksum_v4(old(pkt)@, ihl as int),
{
    let n: usize = pkt.len();
    if n < ihl + 18 {
        return ;
    }
    let src: [u8; 4] = four_bytes(pkt, 12);
    let dst: [u8; 4] = four_bytes(pkt, 16);
    put_word(pkt, ihl + 16, 0);
    let cksum: u16 = checksum_with_pseudo_v4(&src, &dst, IPPROTO_TCP, &pkt[ihl..n]);
    assert(with_word(old(pkt)@, ihl + 16, 0).skip(ihl as int) =~= with_word(
        old(pkt)@,
        ihl + 16,
        0,
    ).subrange(ihl as int, n as int));
    put_word(pkt, ihl + 16, cksum);
}

/// Recomputes the checksum at offset `at` of an IPv6 packet's payload.
fn recompute_payload_checksum_v6(pkt: &mut [u8], proto: u8, at: usize)
    requires
        at < 1000,
        40 + at + 1 < old(pkt)@.len(),
    ensures
        final(pkt)@ == with_payload_checksum_v6(old(pkt)@, proto, at as int),
{
    let n: usize = pkt.len();
    let src: [u8; 16] = sixteen_bytes(pkt, 8);
    let dst: [u8; 16] = sixteen_bytes(pkt, 24);
    put_word(pkt, 40 + at, 0);
    let cksum: u16 = checksum_with_pseudo_v6(&src, &dst, proto, &pkt[40..n]);
    assert(with_word(old(pkt)@, 40 + at, 0).skip(40) =~= with_word(
        old(pkt)@,
        40 + at,
        0,
    ).subrange(40, n as int));
    put_word(pkt, 40 + at, cksum);
}

/// Recomputes the TCP checksum of an IPv6 packet. Packets that end before the
/// checksum field are left as they are.
pub fn recompute_tcp_checksum_v6(pkt: &mut [u8])
    ensures
        final(pkt)@ == with_tcp_checksum_v6(old(pkt)@),
{
    if pkt.len() < 58 {
        return ;
    }
    recompute_payload_checksum_v6(pkt, IPPROTO_TCP, 16);
}

/// Recomputes the ICMPv6 checksum of an IPv6 packet. Packets that end before
/// the echo header does are left as they are.
pub fn recompute_echo_checksum_v6(pkt: &mut [u8])
    ensures
        final(pkt)@ == with_echo_checksum_v6(old(pkt)@),
{
    if pkt.len() < 48 {
        return ;
    }
    recompute_payload_checksum_v6(pkt, IPPROTO_ICMPV6, 2);
}

proof fn lemma_word_sum_update(data: Seq<u8>, at: int, w: u16)
    requires
        0 <= at,
        at + 1 < data.len(),
        at % 2 == 0,
    ensures
        word_sum(with_word(data, at, w)) == word_sum(data) - be_word(data[at], data[at + 1]) + w,
    decreases at,
{
    let upd = with_word(data, at, w);
    if at == 0 {
        assert(upd.skip(2) =~= data.skip(2));
    } else {
        lemma_word_sum_update(data.skip(2), at - 2, w);
        assert(upd.skip(2) =~= with_word(data.skip(2), at - 2, w));
    }
}

proof fn lemma_folded_complement(s: nat)
    ensures
        folded(s + checksum_of(s) as nat) == 65535,
{
    let x: int = s as int - 1;
    if s > 0 {
        assert(x == 65535 * (x / 65535) + x % 65535) by (nonlinear_arith);
        // s + (65535 - folded(s)) is a positive multiple of 65535
        let total: int = s + checksum_of(s);
        assert(total == 65535 * (x / 65535 + 1)) by {
            assert(65535 * (x / 65535 + 1) == 65535 * (x / 65535) + 65535) by (nonlinear_arith);
        }
        let q: int = x / 65535;
        assert(total - 1 == 65535 * q + 65534) by (nonlinear_arith)
            requires
                total == 65535 * (q + 1),
        ;
        vstd::arithmetic::div_mod::lemma_mod_multiples_vanish(q, 65534, 65535);
    }
}

/// A receiver that sums data into which its checksum has been put, at an even
/// place that held zeroes, gets all ones.
pub proof fn law_internet_checksum_verifies(data: Seq<u8>, at: int)
    requires
        0 <= at,
        at % 2 == 0,
        at + 1 < data.len(),
        data[at] == 0,
        data[at + 1] == 0,
    ensures
        folded(word_sum(with_word(data, at, checksum_of(word_sum(data))))) == 65535,
{
    lemma_word_sum_update(data, at, checksum_of(word_sum(data)));
    lemma_folded_complement(word_sum(data));
}

/// A checksum over data and a further sum, written into the data where zeros
/// stood, makes the whole sum all ones.
pub proof fn law_payload_checksum_verifies(extra: nat, data: Seq<u8>, at: int)
    requires
        0 <= at,
        at % 2 == 0,
        at + 1 < data.len(),
        data[at] == 0,
        data[at + 1] == 0,
    ensures
        folded(
            extra + word_sum(with_word(data, at, checksum_of(extra + word_sum(data)))),
        ) == 65535,
{
    lemma_word_sum_update(data, at, checksum_of(extra + word_sum(data)));
    lemma_folded_complement(extra + word_sum(data));
}

/// A receiver that sums the twenty bytes of a recomputed IPv4 header without
/// options, checksum included, gets all ones: the header verifies.
pub proof fn law_ipv4_checksum_verifies(pkt: Seq<u8>)
    requires
        pkt.len() >= 20,
    ensures
        folded(word_sum(with_ipv4_checksum(pkt).take(20))) == 65535,
{
    let zeroed = with_word(pkt, 10, 0);
    let hdr = zeroed.take(20);
    let c = checksum_of(word_sum(hdr));
    assert(with_ipv4_checksum(pkt).take(20) =~= with_word(hdr, 10, c));
    law_internet_checksum_verifies(hdr, 10);
}

/// A receiver that sums a recomputed TCP segment together with its IPv4 pseudo
/// header gets all ones.
pub proof fn law_tcp_checksum_v4_verifies(pkt: Seq<u8>, ihl: int)
    requires
        20 <= ihl,
        pkt.len() >= ihl + 18,
    ensures
        ({
            let done = with_tcp_checksum_v4(pkt, ihl);
            folded(
                pseudo_sum_v4(
                    done.subrange(12, 16),
                    done.subrange(16, 20),
                    IPPROTO_TCP,
                    (done.len() - ihl) as nat,
                ) + word_sum(done.skip(ihl)),
            ) == 65535
        }),
{
    let zeroed = with_word(pkt, ihl + 16, 0);
    let tcp = zeroed.skip(ihl);
    let pseudo = pseudo_sum_v4(
        pkt.subrange(12, 16),
        pkt.subrange(16, 20),
        IPPROTO_TCP,
        (pkt.len() - ihl) as nat,
    );
    let c = checksum_of(pseudo + word_sum(tcp));
    let done = with_tcp_checksum_v4(pkt, ihl);
    assert(done.skip(ihl) =~= with_word(tcp, 16, c));
    assert(done.subrange(12, 16) =~= pkt.subrange(12, 16));
    assert(done.subrange(16, 20) =~= pkt.subrange(16, 20));
    lemma_word_sum_update(tcp, 16, c);
    lemma_folded_complement(pseudo + word_sum(tcp));
}

/// A receiver that sums a recomputed IPv6 payload together with its pseudo
/// header gets all ones.
pub proof fn law_payload_checksum_v6_verifies(pkt: Seq<u8>, proto: u8, at: int)
    requires
        0 <= at,
        at % 2 == 0,
        40 + at + 1 < pkt.len(),
    ensures
        ({
            let done = with_payload_checksum_v6(pkt, proto, at);
            folded(
                pseudo_sum_v6(
                    done.subrange(8, 24),
                    done.subrange(24, 40),
                    proto,
                    (done.len() - 40) as nat,
                ) + word_sum(done.skip(40)),
            ) == 65535
        }),
{
    let zeroed = with_word(pkt, 40 + at, 0);
    let payload = zeroed.skip(40);
    let pseudo = pseudo_sum_v6(
        pkt.subrange(8, 24),
        pkt.subrange(24, 40),
        proto,
        (pkt.len() - 40) as nat,
    );
    let c = checksum_of(pseudo + word_sum(payload));
    let done = with_payload_checksum_v6(pkt, proto, at);
    assert(done.skip(40) =~= with_word(payload, at, c));
    assert(done.subrange(8, 24) =~= pkt.subrange(8, 24));
    assert(done.subrange(24, 40) =~= pkt.subrange(24, 40));
    lemma_word_sum_update(payload, at, c);
    lemma_folded_complement(pseudo + word_sum(payload));
}

} // verus!
