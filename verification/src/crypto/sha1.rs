//! SHA-1 (FIPS 180-4).
use vstd::prelude::*;
use crate::crypto::sha256;
use crate::net;

verus! {

/// The five working variables.
#[derive(Clone, Copy, Debug, PartialEq, Eq, Structural)]
pub struct Sha1State {
    pub a: u32,
    pub b: u32,
    pub c: u32,
    pub d: u32,
    pub e: u32,
}

/// Rotation to the left.
pub open spec fn rotl(x: u32, n: u32) -> u32 {
    (x << n) | (x >> ((32 - n) as u32))
}

/// The initial hash value.
pub open spec fn initial_state() -> Sha1State {
    Sha1State { a: 0x67452301, b: 0xEFCDAB89, c: 0x98BADCFE, d: 0x10325476, e: 0xC3D2E1F0 }
}

/// Word `t` of the message schedule of a block.
pub open spec fn schedule(block: Seq<u8>, t: int) -> u32
    decreases t,
{
    if t < 16 {
        sha256::block_word(block, t)
    } else {
        rotl(
            schedule(block, t - 3) ^ schedule(block, t - 8) ^ schedule(block, t - 14) ^ schedule(
                block,
                t - 16,
            ),
            1,
        )
    }
}

/// The logical function of round `t`.
pub open spec fn logical(t: int, b: u32, c: u32, d: u32) -> u32 {
    if t < 20 {
        (b & c) | (!b & d)
    } else if t < 40 {
        b ^ c ^ d
    } else if t < 60 {
        (b & c) | (b & d) | (c & d)
    } else {
        b ^ c ^ d
    }
}

/// The constant of round `t`.
pub open spec fn constant(t: int) -> u32 {
    if t < 20 {
        0x5A827999
    } else if t < 40 {
        0x6ED9EBA1
    } else if t < 60 {
        0x8F1BBCDC
    } else {
        0xCA62C1D6
    }
}

/// Round `t` with schedule word `w`.
pub open spec fn round(s: Sha1State, t: int, w: u32) -> Sha1State {
    Sha1State {
        a: sha256::add32(
            sha256::add32(
                sha256::add32(
                    sha256::add32(rotl(s.a, 5), logical(t, s.b, s.c, s.d)),
                    s.e,
                ),
                constant(t),
            ),
            w,
        ),
        b: s.a,
        c: rotl(s.b, 30),
        d: s.c,
        e: s.d,
    }
}

/// The working variables after `t` rounds on a block.
pub open spec fn rounds(s: Sha1State, block: Seq<u8>, t: int) -> Sha1State
    decreases t,
{
    if t <= 0 {
        s
    } else {
        round(rounds(s, block, t - 1), t - 1, schedule(block, t - 1))
    }
}

/// The hash value after a block.
pub open spec fn compress(s: Sha1State, block: Seq<u8>) -> Sha1State {
    let r = rounds(s, block, 80);
    Sha1State {
        a: sha256::add32(s.a, r.a),
        b: sha256::add32(s.b, r.b),
        c: sha256::add32(s.c, r.c),
        d: sha256::add32(s.d, r.d),
        e: sha256::add32(s.e, r.e),
    }
}

/// The hash value after the first `n` blocks of 64 bytes.
pub open spec fn compress_blocks(msg: Seq<u8>, n: int) -> Sha1State
    decreases n,
{
    if n <= 0 {
        initial_state()
    } else {
        compress(compress_blocks(msg, n - 1), msg.subrange(64 * (n - 1), 64 * n))
    }
}

/// The bytes of a hash value.
pub open spec fn state_bytes(s: Sha1State) -> Seq<u8> {
    net::be_octets(s.a as nat, 4) + net::be_octets(s.b as nat, 4) + net::be_octets(s.c as nat, 4)
        + net::be_octets(s.d as nat, 4) + net::be_octets(s.e as nat, 4)
}

/// The SHA-1 digest.
pub open spec fn sha1_digest(data: Seq<u8>) -> Seq<u8> {
    let msg = sha256::padded(data);
    state_bytes(compress_blocks(msg, (msg.len() / 64) as int))
}

fn rotl_of(x: u32, n: u32) -> (r: u32)
    requires
        0 < n < 32,
    ensures
        r == rotl(x, n),
{
    (x << n) | (x >> (32 - n))
}

fn round_of(s: Sha1State, t: usize, w: u32) -> (r: Sha1State)
    requires
        t < 80,
    ensures
        r == round(s, t as int, w),
{
    let (f, k): (u32, u32) = if t < 20 {
        ((s.b & s.c) | (!s.b & s.d), 0x5A827999)
    } else if t < 40 {
        (s.b ^ s.c ^ s.d, 0x6ED9EBA1)
    } else if t < 60 {
        ((s.b & s.c) | (s.b & s.d) | (s.c & s.d), 0x8F1BBCDC)
    } else {
        (s.b ^ s.c ^ s.d, 0xCA62C1D6)
    };
    let x: u32 = sha256::add32_of(rotl_of(s.a, 5), f);
    let x: u32 = sha256::add32_of(x, s.e);
    let x: u32 = sha256::add32_of(x, k);
    Sha1State { a: sha256::add32_of(x, w), b: s.a, c: rotl_of(s.b, 30), d: s.c, e: s.d }
}

fn compress_of(s: Sha1State, block: &[u8]) -> (r: Sha1State)
    requires
        block@.len() == 64,
    ensures
        r == compress(s, block@),
{
    let mut w: Vec<u32> = Vec::new();
    let mut i: usize = 0;
    while i < 16
        invariant
            block@.len() == 64,
            i <= 16,
            w@.len() == i,
            forall|t: int| 0 <= t < i ==> w@[t] == #[trigger] schedule(block@, t),
        decreases 16 - i,
    {
        w.push(net::v4_of_octets(&block[4 * i..4 * i + 4]));
        i = i + 1;
    }
    while i < 80
        invariant
            16 <= i <= 80,
            w@.len() == i,
            forall|t: int| 0 <= t < i ==> w@[t] == #[trigger] schedule(block@, t),
        decreases 80 - i,
    {
        proof {
            assert(w@[i - 3] == schedule(block@, i - 3));
            assert(w@[i - 8] == schedule(block@, i - 8));
            assert(w@[i - 14] == schedule(block@, i - 14));
            assert(w@[i - 16] == schedule(block@, i - 16));
        }
        let x: u32 = rotl_of(w[i - 3] ^ w[i - 8] ^ w[i - 14] ^ w[i - 16], 1);
        w.push(x);
        i = i + 1;
    }
    let mut r: Sha1State = s;
    let mut t: usize = 0;
    while t < 80
        invariant
            t <= 80,
            w@.len() == 80,
            forall|t: int| 0 <= t < 80 ==> w@[t] == #[trigger] schedule(block@, t),
            r == rounds(s, block@, t as int),
        decreases 80 - t,
    {
        assert(w@[t as int] == schedule(block@, t as int));
        r = round_of(r, t, w[t]);
        t = t + 1;
    }
    Sha1State {
        a: sha256::add32_of(s.a, r.a),
        b: sha256::add32_of(s.b, r.b),
        c: sha256::add32_of(s.c, r.c),
        d: sha256::add32_of(s.d, r.d),
        e: sha256::add32_of(s.e, r.e),
    }
}

/// The SHA-1 digest of `data`.
pub fn sha1_bytes(data: &[u8]) -> (r: [u8; 20])
    requires
        data@.len() < 0x2000_0000_0000_0000,
    ensures
        r@ == sha1_digest(data@),
{
    let msg: Vec<u8> = sha256::pad(data);
    let total: usize = msg.len();
    let blocks: usize = total / 64;
    let mut s: Sha1State = Sha1State {
        a: 0x67452301,
        b: 0xEFCDAB89,
        c: 0x98BADCFE,
        d: 0x10325476,
        e: 0xC3D2E1F0,
    };
    let mut i: usize = 0;
    while i < blocks
        invariant
            total == msg@.len(),
            blocks == total / 64,
            i <= blocks,
            s == compress_blocks(msg@, i as int),
        decreases blocks - i,
    {
        assert(64 * i + 64 <= total);
        s = compress_of(s, vstd::slice::slice_subrange(msg.as_slice(), 64 * i, 64 * i + 64));
        i = i + 1;
    }
    let mut out: Vec<u8> = Vec::new();
    sha256::push_octets4(&mut out, s.a);
    sha256::push_octets4(&mut out, s.b);
    sha256::push_octets4(&mut out, s.c);
    sha256::push_octets4(&mut out, s.d);
    sha256::push_octets4(&mut out, s.e);
    proof {
        net::lemma_be_octets_len(s.a as nat, 4);
        net::lemma_be_octets_len(s.b as nat, 4);
        net::lemma_be_octets_len(s.c as nat, 4);
        net::lemma_be_octets_len(s.d as nat, 4);
        net::lemma_be_octets_len(s.e as nat, 4);
        assert(out@ =~= state_bytes(s));
    }
    let mut r: [u8; 20] = [0; 20];
    let mut k: usize = 0;
    while k < 20
        invariant
            k <= 20,
            out@.len() == 20,
            forall|j: int| 0 <= j < k ==> r@[j] == out@[j],
        decreases 20 - k,
    {
        r[k] = out[k];
        k = k + 1;
    }
    assert(r@ =~= out@);
    r
}

} // verus!
