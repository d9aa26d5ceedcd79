//! SHA-256 (FIPS 180-4), HMAC (RFC 2104) and HKDF (RFC 5869, RFC 8446).
use vstd::prelude::*;
use crate::net;

verus! {

/// The round constants.
pub const K: [u32; 64] = [
    0x428a2f98, 0x71374491, 0xb5c0fbcf, 0xe9b5dba5, 0x3956c25b, 0x59f111f1, 0x923f82a4,
    0xab1c5ed5, 0xd807aa98, 0x12835b01, 0x243185be, 0x550c7dc3, 0x72be5d74, 0x80deb1fe,
    0x9bdc06a7, 0xc19bf174, 0xe49b69c1, 0xefbe4786, 0x0fc19dc6, 0x240ca1cc, 0x2de92c6f,
    0x4a7484aa, 0x5cb0a9dc, 0x76f988da, 0x983e5152, 0xa831c66d, 0xb00327c8, 0xbf597fc7,
    0xc6e00bf3, 0xd5a79147, 0x06ca6351, 0x14292967, 0x27b70a85, 0x2e1b2138, 0x4d2c6dfc,
    0x53380d13, 0x650a7354, 0x766a0abb, 0x81c2c92e, 0x92722c85, 0xa2bfe8a1, 0xa81a664b,
    0xc24b8b70, 0xc76c51a3, 0xd192e819, 0xd6990624, 0xf40e3585, 0x106aa070, 0x19a4c116,
    0x1e376c08, 0x2748774c, 0x34b0bcb5, 0x391c0cb3, 0x4ed8aa4a, 0x5b9cca4f, 0x682e6ff3,
    0x748f82ee, 0x78a5636f, 0x84c87814, 0x8cc70208, 0x90befffa, 0xa4506ceb, 0xbef9a3f7,
    0xc67178f2,
];

/// The eight working variables.
#[derive(Clone, Copy, Debug, PartialEq, Eq, Structural)]
pub struct HashState {
    pub a: u32,
    pub b: u32,
    pub c: u32,
    pub d: u32,
    pub e: u32,
    pub f: u32,
    pub g: u32,
    pub h: u32,
}

/// Addition modulo 2^32.
pub open spec fn add32(x: u32, y: u32) -> u32 {
    ((x + y) % 0x1_0000_0000) as u32
}

/// Rotation to the right.
pub open spec fn rotr(x: u32, n: u32) -> u32 {
    (x >> n) | (x << ((32 - n) as u32))
}

/// The function sigma-0 of the message schedule.
pub open spec fn small_sigma0(x: u32) -> u32 {
    rotr(x, 7) ^ rotr(x, 18) ^ (x >> 3)
}

/// The function sigma-1 of the message schedule.
pub open spec fn small_sigma1(x: u32) -> u32 {
    rotr(x, 17) ^ rotr(x, 19) ^ (x >> 10)
}

/// The function Sigma-0 of the rounds.
pub open spec fn big_sigma0(x: u32) -> u32 {
    rotr(x, 2) ^ rotr(x, 13) ^ rotr(x, 22)
}

/// The function Sigma-1 of the rounds.
pub open spec fn big_sigma1(x: u32) -> u32 {
    rotr(x, 6) ^ rotr(x, 11) ^ rotr(x, 25)
}

/// The function Ch.
pub open spec fn ch(x: u32, y: u32, z: u32) -> u32 {
    (x & y) ^ (!x & z)
}

/// The function Maj.
pub open spec fn maj(x: u32, y: u32, z: u32) -> u32 {
    (x & y) ^ (x & z) ^ (y & z)
}

/// The initial hash value.
pub open spec fn initial_state() -> HashState {
    HashState {
        a: 0x6a09e667,
        b: 0xbb67ae85,
        c: 0x3c6ef372,
        d: 0xa54ff53a,
        e: 0x510e527f,
        f: 0x9b05688c,
        g: 0x1f83d9ab,
        h: 0x5be0cd19,
    }
}

/// The `i`-th big-endian word of a block.
pub open spec fn block_word(block: Seq<u8>, i: int) -> u32 {
    net::from_octets(block.subrange(4 * i, 4 * i + 4)) as u32
}

/// Word `t` of the message schedule of a block.
pub open spec fn schedule(block: Seq<u8>, t: int) -> u32
    decreases t,
{
    if t < 16 {
        block_word(block, t)
    } else {
        add32(
            add32(
                add32(schedule(block, t - 16), small_sigma0(schedule(block, t - 15))),
                schedule(block, t - 7),
            ),
            small_sigma1(schedule(block, t - 2)),
        )
    }
}

/// One round with schedule word `w` and constant `k`.
pub open spec fn round(s: HashState, k: u32, w: u32) -> HashState {
    let t1 = add32(add32(add32(add32(s.h, big_sigma1(s.e)), ch(s.e, s.f, s.g)), k), w);
    let t2 = add32(big_sigma0(s.a), maj(s.a, s.b, s.c));
    HashState {
        a: add32(t1, t2),
        b: s.a,
        c: s.b,
        d: s.c,
        e: add32(s.d, t1),
        f: s.e,
        g: s.f,
        h: s.g,
    }
}

/// The working variables after `t` rounds on a block.
pub open spec fn rounds(s: HashState, block: Seq<u8>, t: int) -> HashState
    decreases t,
{
    if t <= 0 {
        s
    } else {
        round(rounds(s, block, t - 1), K[t - 1], schedule(block, t - 1))
    }
}

/// The hash value after a block.
pub open spec fn compress(s: HashState, block: Seq<u8>) -> HashState {
    let r = rounds(s, block, 64);
    HashState {
        a: add32(s.a, r.a),
        b: add32(s.b, r.b),
        c: add32(s.c, r.c),
        d: add32(s.d, r.d),
        e: add32(s.e, r.e),
        f: add32(s.f, r.f),
        g: add32(s.g, r.g),
        h: add32(s.h, r.h),
    }
}

/// The hash value after the first `n` blocks of 64 bytes.
pub open spec fn compress_blocks(msg: Seq<u8>, n: int) -> HashState
    decreases n,
{
    if n <= 0 {
        initial_state()
    } else {
        compress(compress_blocks(msg, n - 1), msg.subrange(64 * (n - 1), 64 * n))
    }
}

/// `n` zero bytes.
pub open spec fn zeros(n: nat) -> Seq<u8> {
    Seq::new(n, |i: int| 0u8)
}

/// A message with its padding: a one bit, zeros up to eight bytes before a
/// block's end, and the length in bits.
pub open spec fn padded(data: Seq<u8>) -> Seq<u8> {
    data + seq![0x80u8] + zeros(((119 - data.len() % 64) % 64) as nat) + net::be_octets(
        8 * data.len(),
        8,
    )
}

/// The bytes of a hash value.
pub open spec fn state_bytes(s: HashState) -> Seq<u8> {
    net::be_octets(s.a as nat, 4) + net::be_octets(s.b as nat, 4) + net::be_octets(s.c as nat, 4)
        + net::be_octets(s.d as nat, 4) + net::be_octets(s.e as nat, 4) + net::be_octets(
        s.f as nat,
        4,
    ) + net::be_octets(s.g as nat, 4) + net::be_octets(s.h as nat, 4)
}

/// The SHA-256 digest.
#[verifier::opaque]
pub open spec fn sha256_digest(data: Seq<u8>) -> Seq<u8> {
    state_bytes(compress_blocks(padded(data), (padded(data).len() / 64) as int))
}

pub(crate) fn add32_of(x: u32, y: u32) -> (r: u32)
    ensures
        r == add32(x, y),
{
    x.wrapping_add(y)
}

fn rotr_of(x: u32, n: u32) -> (r: u32)
    requires
        0 < n < 32,
    ensures
        r == rotr(x, n),
{
    (x >> n) | (x << (32 - n))
}

fn small_sigma0_of(x: u32) -> (r: u32)
    ensures
        r == small_sigma0(x),
{
    rotr_of(x, 7) ^ rotr_of(x, 18) ^ (x >> 3)
}

fn small_sigma1_of(x: u32) -> (r: u32)
    ensures
        r == small_sigma1(x),
{
    rotr_of(x, 17) ^ rotr_of(x, 19) ^ (x >> 10)
}

fn round_of(s: HashState, k: u32, w: u32) -> (r: HashState)
    ensures
        r == round(s, k, w),
{
    let s1: u32 = rotr_of(s.e, 6) ^ rotr_of(s.e, 11) ^ rotr_of(s.e, 25);
    let c: u32 = (s.e & s.f) ^ (!s.e & s.g);
    let t1: u32 = add32_of(add32_of(add32_of(add32_of(s.h, s1), c), k), w);
    let s0: u32 = rotr_of(s.a, 2) ^ rotr_of(s.a, 13) ^ rotr_of(s.a, 22);
    let m: u32 = (s.a & s.b) ^ (s.a & s.c) ^ (s.b & s.c);
    let t2: u32 = add32_of(s0, m);
    HashState {
        a: add32_of(t1, t2),
        b: s.a,
        c: s.b,
        d: s.c,
        e: add32_of(s.d, t1),
        f: s.e,
        g: s.f,
        h: s.g,
    }
}

fn compress_of(s: HashState, block: &[u8]) -> (r: HashState)
    requires
        block@.len() == 64,
    ensures
        r == compress(s, block@),
{
    let mut w: Vec<u32> = Vec::new();
    let mut i: usize = 0;
    while i < 16
        invariant
            block@.len() == 64,
            i <= 16,
            w@.len() == i,
            forall|t: int| 0 <= t < i ==> w@[t] == #[trigger] schedule(block@, t),
        decreases 16 - i,
    {
        w.push(net::v4_of_octets(&block[4 * i..4 * i + 4]));
        i = i + 1;
    }
    while i < 64
        invariant
            16 <= i <= 64,
            w@.len() == i,
            forall|t: int| 0 <= t < i ==> w@[t] == #[trigger] schedule(block@, t),
        decreases 64 - i,
    {
        let s0: u32 = small_sigma0_of(w[i - 15]);
        let s1: u32 = small_sigma1_of(w[i - 2]);
        proof {
            assert(w@[i - 16] == schedule(block@, i - 16));
            assert(w@[i - 15] == schedule(block@, i - 15));
            assert(w@[i - 7] == schedule(block@, i - 7));
            assert(w@[i - 2] == schedule(block@, i - 2));
        }
        let x: u32 = add32_of(add32_of(add32_of(w[i - 16], s0), w[i - 7]), s1);
        w.push(x);
        i = i + 1;
    }
    let mut r: HashState = s;
    let mut t: usize = 0;
    while t < 64
        invariant
            t <= 64,
            w@.len() == 64,
            forall|t: int| 0 <= t < 64 ==> w@[t] == #[trigger] schedule(block@, t),
            r == rounds(s, block@, t as int),
        decreases 64 - t,
    {
        assert(w@[t as int] == schedule(block@, t as int));
        r = round_of(r, K[t], w[t]);
        t = t + 1;
    }
    HashState {
        a: add32_of(s.a, r.a),
        b: add32_of(s.b, r.b),
        c: add32_of(s.c, r.c),
        d: add32_of(s.d, r.d),
        e: add32_of(s.e, r.e),
        f: add32_of(s.f, r.f),
        g: add32_of(s.g, r.g),
        h: add32_of(s.h, r.h),
    }
}

/// Appends `s`.
pub(crate) fn push_bytes(out: &mut Vec<u8>, s: &[u8])
    ensures
        final(out)@ == old(out)@ + s@,
{
    out.extend_from_slice(s);
    assert(out@ =~= old(out)@ + s@);
}

pub(crate) fn push_octets4(out: &mut Vec<u8>, x: u32)
    ensures
        final(out)@ == old(out)@ + net::be_octets(x as nat, 4),
{
    let o: [u8; 4] = net::octets_v4(x);
    push_bytes(out, &o);
}

proof fn lemma_padding(n: int)
    requires
        n >= 0,
    ensures
        (n + 1 + (119 - n % 64) % 64 + 8) % 64 == 0,
{
    let m = n % 64;
    let q = n / 64;
    assert(n == 64 * q + m);
    if m <= 55 {
        assert((119 - m) % 64 == 55 - m);
        assert(n + 1 + 55 - m + 8 == 64 * (q + 1));
    } else {
        assert((119 - m) % 64 == 119 - m);
        assert(n + 1 + 119 - m + 8 == 64 * (q + 2));
    }
}

/// A message with its padding.
pub(crate) fn pad(data: &[u8]) -> (r: Vec<u8>)
    requires
        data@.len() < 0x2000_0000_0000_0000,
    ensures
        r@ == padded(data@),
        r@.len() % 64 == 0,
{
    let n: usize = data.len();
    let mut msg: Vec<u8> = vstd::slice::slice_to_vec(data);
    msg.push(0x80);
    let zeros_needed: usize = (119 - n % 64) % 64;
    let ghost head = msg@;
    let mut i: usize = 0;
    assert(head + zeros(0) =~= head);
    while i < zeros_needed
        invariant
            i <= zeros_needed,
            msg@ == head + zeros(i as nat),
        decreases zeros_needed - i,
    {
        msg.push(0);
        i = i + 1;
        assert(msg@ =~= head + zeros(i as nat));
    }
    let bits: u64 = n as u64 * 8;
    let tail: Vec<u8> = net::octets_vec(bits as u128, 8);
    push_bytes(&mut msg, tail.as_slice());
    proof {
        assert(head =~= data@ + seq![0x80u8]);
        lemma_padding(n as int);
    }
    msg
}

/// The SHA-256 digest of `data`.
pub fn sha256(data: &[u8]) -> (r: [u8; 32])
    requires
        data@.len() < 0x2000_0000_0000_0000,
    ensures
        r@ == sha256_digest(data@),
{
    let msg: Vec<u8> = pad(data);
    let total: usize = msg.len();
    let blocks: usize = total / 64;
    let mut s: HashState = HashState {
        a: 0x6a09e667,
        b: 0xbb67ae85,
        c: 0x3c6ef372,
        d: 0xa54ff53a,
        e: 0x510e527f,
        f: 0x9b05688c,
        g: 0x1f83d9ab,
        h: 0x5be0cd19,
    };
    let mut i: usize = 0;
    while i < blocks
        invariant
            total == msg@.len(),
            blocks == total / 64,
            i <= blocks,
            s == compress_blocks(msg@, i as int),
        decreases blocks - i,
    {
        assert(64 * i + 64 <= total);
        s = compress_of(s, vstd::slice::slice_subrange(msg.as_slice(), 64 * i, 64 * i + 64));
        i = i + 1;
    }
    let mut out: Vec<u8> = Vec::new();
    push_octets4(&mut out, s.a);
    push_octets4(&mut out, s.b);
    push_octets4(&mut out, s.c);
    push_octets4(&mut out, s.d);
    push_octets4(&mut out, s.e);
    push_octets4(&mut out, s.f);
    push_octets4(&mut out, s.g);
    push_octets4(&mut out, s.h);
    proof {
        net::lemma_be_octets_len(s.a as nat, 4);
        net::lemma_be_octets_len(s.b as nat, 4);
        net::lemma_be_octets_len(s.c as nat, 4);
        net::lemma_be_octets_len(s.d as nat, 4);
        net::lemma_be_octets_len(s.e as nat, 4);
        net::lemma_be_octets_len(s.f as nat, 4);
        net::lemma_be_octets_len(s.g as nat, 4);
        net::lemma_be_octets_len(s.h as nat, 4);
        assert(out@ =~= state_bytes(s));
        reveal(sha256_digest);
    }
    let mut r: [u8; 32] = [0; 32];
    let mut k: usize = 0;
    while k < 32
        invariant
            k <= 32,
            out@.len() == 32,
            forall|j: int| 0 <= j < k ==> r@[j] == out@[j],
        decreases 32 - k,
    {
        r[k] = out[k];
        k = k + 1;
    }
    assert(r@ =~= out@);
    r
}

/// A key of 64 bytes for HMAC: longer ones are hashed, shorter ones filled up
/// with zeros.
pub open spec fn hmac_key(key: Seq<u8>) -> Seq<u8> {
    let k = if key.len() > 64 {
        sha256_digest(key)
    } else {
        key
    };
    k + zeros((64 - k.len()) as nat)
}

/// Every byte of `s` combined with `b` by exclusive or.
pub open spec fn xor_each(s: Seq<u8>, b: u8) -> Seq<u8> {
    s.map_values(|x: u8| b ^ x)
}

/// HMAC with SHA-256.
#[verifier::opaque]
pub open spec fn hmac(key: Seq<u8>, data: Seq<u8>) -> Seq<u8> {
    let k = hmac_key(key);
    sha256_digest(xor_each(k, 0x5c) + sha256_digest(xor_each(k, 0x36) + data))
}

fn xor_each_of(s: &Vec<u8>, b: u8) -> (r: Vec<u8>)
    ensures
        r@ == xor_each(s@, b),
{
    let mut r: Vec<u8> = Vec::new();
    let mut i: usize = 0;
    while i < s.len()
        invariant
            i <= s@.len(),
            r@ == xor_each(s@.take(i as int), b),
        decreases s@.len() - i,
    {
        r.push(b ^ s[i]);
        i = i + 1;
        assert(xor_each(s@.take(i as int), b) =~= xor_each(s@.take(i - 1), b).push(b ^ s@[i - 1]));
    }
    assert(s@.take(i as int) =~= s@);
    r
}

/// HMAC with SHA-256.
pub fn hmac_sha256(key: &[u8], data: &[u8]) -> (r: Vec<u8>)
    requires
        key@.len() < 0x2000_0000_0000_0000,
        data@.len() + 64 < 0x2000_0000_0000_0000,
    ensures
        r@ == hmac(key@, data@),
        r@.len() == 32,
{
    let mut k: Vec<u8> = if key.len() > 64 {
        vstd::slice::slice_to_vec(&sha256(key))
    } else {
        vstd::slice::slice_to_vec(key)
    };
    let ghost k0 = k@;
    assert(k0 + zeros(0) =~= k0);
    while k.len() < 64
        invariant
            k0.len() <= k@.len() <= 64,
            k@ == k0 + zeros((k@.len() - k0.len()) as nat),
        decreases 64 - k@.len(),
    {
        let ghost n = k@.len() - k0.len();
        k.push(0);
        assert(k@ =~= k0 + zeros((n + 1) as nat));
    }
    assert(k@ =~= hmac_key(key@));
    proof {
        reveal(hmac);
    }
    let mut inner: Vec<u8> = xor_each_of(&k, 0x36);
    push_bytes(&mut inner, data);
    let inner_hash: [u8; 32] = sha256(inner.as_slice());
    let mut outer: Vec<u8> = xor_each_of(&k, 0x5c);
    push_bytes(&mut outer, &inner_hash);
    vstd::slice::slice_to_vec(&sha256(outer.as_slice()))
}

/// HKDF-Extract with SHA-256.
pub fn hkdf_extract_sha256(salt: &[u8], ikm: &[u8]) -> (r: Vec<u8>)
    requires
        salt@.len() < 0x2000_0000_0000_0000,
        ikm@.len() + 64 < 0x2000_0000_0000_0000,
    ensures
        r@ == hmac(salt@, ikm@),
        r@.len() == 32,
{
    hmac_sha256(salt, ikm)
}

/// The label structure of HKDF-Expand-Label: the length, the label with its
/// prefix, and the context. Lengths are cut to the width of their fields.
pub open spec fn hkdf_label(label: Seq<u8>, context: Seq<u8>, len: nat) -> Seq<u8> {
    seq![(len / 256 % 256) as u8, (len % 256) as u8, ((6 + label.len()) % 256) as u8]
        + vstd::utf8::encode_utf8("tls13 "@) + label + seq![(context.len() % 256) as u8] + context
}

/// The first `len` bytes of the first block of HKDF-Expand-Label.
#[verifier::opaque]
pub open spec fn expand_label(secret: Seq<u8>, label: Seq<u8>, context: Seq<u8>, len: nat) -> Seq<
    u8,
> {
    hmac(secret, hkdf_label(label, context, len).push(1u8)).take(len as int)
}

/// HKDF-Expand-Label with SHA-256, for lengths of at most one block.
pub fn hkdf_expand_label_sha256(secret: &[u8], label: &[u8], context: &[u8], len: usize) -> (r:
    Option<Vec<u8>>)
    requires
        secret@.len() < 0x2000_0000_0000_0000,
        label@.len() + context@.len() + 100 < 0x2000_0000_0000_0000,
        label@.len() + 6 <= usize::MAX,
    ensures
        r is Some <==> len <= 32,
        r matches Some(t) ==> t@ == expand_label(secret@, label@, context@, len as nat) && t@.len()
            == len,
{
    if len > 32 {
        return None;
    }
    let mut info: Vec<u8> = Vec::new();
    info.push((len / 256 % 256) as u8);
    info.push((len % 256) as u8);
    info.push(((6 + label.len()) % 256) as u8);
    push_bytes(&mut info, "tls13 ".as_bytes());
    push_bytes(&mut info, label);
    info.push((context.len() % 256) as u8);
    push_bytes(&mut info, context);
    info.push(0x01);
    proof {
        reveal(expand_label);
        assert(info@ =~= hkdf_label(label@, context@, len as nat).push(1u8));
        reveal_strlit("tls13 ");
        vstd::utf8::is_ascii_chars_encode_utf8("tls13 "@);
    }
    let t: Vec<u8> = hmac_sha256(secret, info.as_slice());
    let r: Vec<u8> = vstd::slice::slice_to_vec(vstd::slice::slice_subrange(t.as_slice(), 0, len));
    assert(t@.subrange(0, len as int) =~= t@.take(len as int));
    Some(r)
}

} // verus!
