//! AES-128 (FIPS 197) and its Galois/Counter Mode (NIST SP 800-38D).
use vstd::prelude::*;
use crate::net;

verus! {

/// The substitution table.
pub const SBOX: [u8; 256] = [
    0x63, 0x7c, 0x77, 0x7b, 0xf2, 0x6b, 0x6f, 0xc5, 0x30, 0x01, 0x67, 0x2b, 0xfe, 0xd7, 0xab, 0x76,
    0xca, 0x82, 0xc9, 0x7d, 0xfa, 0x59, 0x47, 0xf0, 0xad, 0xd4, 0xa2, 0xaf, 0x9c, 0xa4, 0x72, 0xc0,
    0xb7, 0xfd, 0x93, 0x26, 0x36, 0x3f, 0xf7, 0xcc, 0x34, 0xa5, 0xe5, 0xf1, 0x71, 0xd8, 0x31, 0x15,
    0x04, 0xc7, 0x23, 0xc3, 0x18, 0x96, 0x05, 0x9a, 0x07, 0x12, 0x80, 0xe2, 0xeb, 0x27, 0xb2, 0x75,
    0x09, 0x83, 0x2c, 0x1a, 0x1b, 0x6e, 0x5a, 0xa0, 0x52, 0x3b, 0xd6, 0xb3, 0x29, 0xe3, 0x2f, 0x84,
    0x53, 0xd1, 0x00, 0xed, 0x20, 0xfc, 0xb1, 0x5b, 0x6a, 0xcb, 0xbe, 0x39, 0x4a, 0x4c, 0x58, 0xcf,
    0xd0, 0xef, 0xaa, 0xfb, 0x43, 0x4d, 0x33, 0x85, 0x45, 0xf9, 0x02, 0x7f, 0x50, 0x3c, 0x9f, 0xa8,
    0x51, 0xa3, 0x40, 0x8f, 0x92, 0x9d, 0x38, 0xf5, 0xbc, 0xb6, 0xda, 0x21, 0x10, 0xff, 0xf3, 0xd2,
    0xcd, 0x0c, 0x13, 0xec, 0x5f, 0x97, 0x44, 0x17, 0xc4, 0xa7, 0x7e, 0x3d, 0x64, 0x5d, 0x19, 0x73,
    0x60, 0x81, 0x4f, 0xdc, 0x22, 0x2a, 0x90, 0x88, 0x46, 0xee, 0xb8, 0x14, 0xde, 0x5e, 0x0b, 0xdb,
    0xe0, 0x32, 0x3a, 0x0a, 0x49, 0x06, 0x24, 0x5c, 0xc2, 0xd3, 0xac, 0x62, 0x91, 0x95, 0xe4, 0x79,
    0xe7, 0xc8, 0x37, 0x6d, 0x8d, 0xd5, 0x4e, 0xa9, 0x6c, 0x56, 0xf4, 0xea, 0x65, 0x7a, 0xae, 0x08,
    0xba, 0x78, 0x25, 0x2e, 0x1c, 0xa6, 0xb4, 0xc6, 0xe8, 0xdd, 0x74, 0x1f, 0x4b, 0xbd, 0x8b, 0x8a,
    0x70, 0x3e, 0xb5, 0x66, 0x48, 0x03, 0xf6, 0x0e, 0x61, 0x35, 0x57, 0xb9, 0x86, 0xc1, 0x1d, 0x9e,
    0xe1, 0xf8, 0x98, 0x11, 0x69, 0xd9, 0x8e, 0x94, 0x9b, 0x1e, 0x87, 0xe9, 0xce, 0x55, 0x28, 0xdf,
    0x8c, 0xa1, 0x89, 0x0d, 0xbf, 0xe6, 0x42, 0x68, 0x41, 0x99, 0x2d, 0x0f, 0xb0, 0x54, 0xbb, 0x16,
];

/// The round constants of the key expansion.
pub const RCON: [u8; 10] = [0x01, 0x02, 0x04, 0x08, 0x10, 0x20, 0x40, 0x80, 0x1b, 0x36];

/// The constant by which products in GF(2^128) are reduced.
pub const REDUCTION: u128 = 0xe100_0000_0000_0000_0000_0000_0000_0000;

/// Two byte sequences combined by exclusive or.
pub open spec fn xor_bytes(a: Seq<u8>, b: Seq<u8>) -> Seq<u8> {
    Seq::new(a.len(), |i: int| a[i] ^ b[i])
}

/// Multiplication by x in GF(2^8).
pub open spec fn xtime(x: u8) -> u8 {
    (x << 1) ^ (if x >= 128 {
        0x1bu8
    } else {
        0u8
    })
}

/// SubBytes.
pub open spec fn sub_bytes(s: Seq<u8>) -> Seq<u8> {
    s.map_values(|b: u8| SBOX[b as int])
}

/// ShiftRows; the state is stored by columns.
pub open spec fn shift_rows(s: Seq<u8>) -> Seq<u8> {
    seq![
        s[0], s[5], s[10], s[15],
        s[4], s[9], s[14], s[3],
        s[8], s[13], s[2], s[7],
        s[12], s[1], s[6], s[11],
    ]
}

/// One column of MixColumns.
pub open spec fn mix_column(s0: u8, s1: u8, s2: u8, s3: u8) -> Seq<u8> {
    seq![
        xtime(s0) ^ xtime(s1) ^ s1 ^ s2 ^ s3,
        s0 ^ xtime(s1) ^ xtime(s2) ^ s2 ^ s3,
        s0 ^ s1 ^ xtime(s2) ^ xtime(s3) ^ s3,
        xtime(s0) ^ s0 ^ s1 ^ s2 ^ xtime(s3),
    ]
}

/// MixColumns.
pub open spec fn mix_columns(s: Seq<u8>) -> Seq<u8> {
    mix_column(s[0], s[1], s[2], s[3]) + mix_column(s[4], s[5], s[6], s[7]) + mix_column(
        s[8],
        s[9],
        s[10],
        s[11],
    ) + mix_column(s[12], s[13], s[14], s[15])
}

/// Word `i` of the expanded key.
pub open spec fn key_word(key: Seq<u8>, i: int) -> Seq<u8>
    decreases i,
{
    if i < 4 {
        key.subrange(4 * i, 4 * i + 4)
    } else {
        let t = key_word(key, i - 1);
        let m = if i % 4 == 0 {
            seq![
                SBOX[t[1] as int] ^ RCON[i / 4 - 1],
                SBOX[t[2] as int],
                SBOX[t[3] as int],
                SBOX[t[0] as int],
            ]
        } else {
            t
        };
        xor_bytes(key_word(key, i - 4), m)
    }
}

/// The key of round `r`.
pub open spec fn round_key(key: Seq<u8>, r: int) -> Seq<u8> {
    key_word(key, 4 * r) + key_word(key, 4 * r + 1) + key_word(key, 4 * r + 2) + key_word(
        key,
        4 * r + 3,
    )
}

/// The state after `r` of the first nine rounds.
pub open spec fn cipher_rounds(key: Seq<u8>, block: Seq<u8>, r: int) -> Seq<u8>
    decreases r,
{
    if r <= 0 {
        xor_bytes(block, round_key(key, 0))
    } else {
        xor_bytes(
            mix_columns(shift_rows(sub_bytes(cipher_rounds(key, block, r - 1)))),
            round_key(key, r),
        )
    }
}

/// A block encrypted under a key of 16 bytes.
#[verifier::opaque]
pub open spec fn cipher(key: Seq<u8>, block: Seq<u8>) -> Seq<u8> {
    xor_bytes(
        shift_rows(sub_bytes(cipher_rounds(key, block, 9))),
        round_key(key, 10),
    )
}

fn xtime_of(x: u8) -> (r: u8)
    ensures
        r == xtime(x),
{
    (x << 1) ^ (if x >= 128 {
        0x1b
    } else {
        0
    })
}

fn sub_byte(b: u8) -> (r: u8)
    ensures
        r == SBOX[b as int],
{
    SBOX[b as usize]
}

fn key_word_of(prev: [u8; 4], back: [u8; 4], i: usize) -> (r: [u8; 4])
    requires
        4 <= i < 44,
    ensures
        r@ == xor_bytes(
            back@,
            if i % 4 == 0 {
                seq![
                    SBOX[prev@[1] as int] ^ RCON[i / 4 - 1],
                    SBOX[prev@[2] as int],
                    SBOX[prev@[3] as int],
                    SBOX[prev@[0] as int],
                ]
            } else {
                prev@
            },
        ),
{
    if i % 4 == 0 {
        let r: [u8; 4] = [
            back[0] ^ (sub_byte(prev[1]) ^ RCON[i / 4 - 1]),
            back[1] ^ sub_byte(prev[2]),
            back[2] ^ sub_byte(prev[3]),
            back[3] ^ sub_byte(prev[0]),
        ];
        assert(r@ =~= xor_bytes(
            back@,
            seq![
                SBOX[prev@[1] as int] ^ RCON[i / 4 - 1],
                SBOX[prev@[2] as int],
                SBOX[prev@[3] as int],
                SBOX[prev@[0] as int],
            ],
        ));
        r
    } else {
        let r: [u8; 4] = [
            back[0] ^ prev[0],
            back[1] ^ prev[1],
            back[2] ^ prev[2],
            back[3] ^ prev[3],
        ];
        assert(r@ =~= xor_bytes(back@, prev@));
        r
    }
}

/// The keys of all rounds.
pub struct RoundKeys {
    words: Vec<[u8; 4]>,
    key: Ghost<Seq<u8>>,
}

impl RoundKeys {
    /// The key that these were expanded from.
    pub closed spec fn key(self) -> Seq<u8> {
        self.key@
    }

    /// These are the words of the expanded key.
    pub closed spec fn wf(self) -> bool {
        &&& self.words@.len() == 44
        &&& self.key@.len() == 16
        &&& forall|i: int| 0 <= i < 44 ==> (#[trigger] self.words@[i])@ == key_word(self.key@, i)
    }
}

/// Expands a key.
pub fn aes128_key_schedule(key: &[u8]) -> (r: RoundKeys)
    requires
        key@.len() == 16,
    ensures
        r.wf(),
        r.key() == key@,
{
    let mut words: Vec<[u8; 4]> = Vec::new();
    let mut i: usize = 0;
    while i < 4
        invariant
            key@.len() == 16,
            i <= 4,
            words@.len() == i,
            forall|j: int| 0 <= j < i ==> (#[trigger] words@[j])@ == key_word(key@, j),
        decreases 4 - i,
    {
        let w: [u8; 4] = [key[4 * i], key[4 * i + 1], key[4 * i + 2], key[4 * i + 3]];
        assert(w@ =~= key@.subrange(4 * i, 4 * i + 4));
        words.push(w);
        i = i + 1;
    }
    while i < 44
        invariant
            4 <= i <= 44,
            words@.len() == i,
            forall|j: int| 0 <= j < i ==> (#[trigger] words@[j])@ == key_word(key@, j),
        decreases 44 - i,
    {
        let prev: [u8; 4] = words[i - 1];
        let back: [u8; 4] = words[i - 4];
        assert(words@[i - 1]@ == key_word(key@, i - 1));
        assert(words@[i - 4]@ == key_word(key@, i - 4));
        let w: [u8; 4] = key_word_of(prev, back, i);
        words.push(w);
        i = i + 1;
    }
    RoundKeys { words, key: Ghost(key@) }
}

fn add_round_key(s: [u8; 16], keys: &RoundKeys, r: usize) -> (t: [u8; 16])
    requires
        keys.wf(),
        r <= 10,
    ensures
        t@ == xor_bytes(s@, round_key(keys.key(), r as int)),
{
    let a: [u8; 4] = keys.words[4 * r];
    let b: [u8; 4] = keys.words[4 * r + 1];
    let c: [u8; 4] = keys.words[4 * r + 2];
    let d: [u8; 4] = keys.words[4 * r + 3];
    let t: [u8; 16] = [
        s[0] ^ a[0], s[1] ^ a[1], s[2] ^ a[2], s[3] ^ a[3],
        s[4] ^ b[0], s[5] ^ b[1], s[6] ^ b[2], s[7] ^ b[3],
        s[8] ^ c[0], s[9] ^ c[1], s[10] ^ c[2], s[11] ^ c[3],
        s[12] ^ d[0], s[13] ^ d[1], s[14] ^ d[2], s[15] ^ d[3],
    ];
    proof {
        assert(keys.words@[4 * r]@ == key_word(keys.key(), 4 * r as int));
        assert(keys.words@[4 * r + 1]@ == key_word(keys.key(), 4 * r + 1));
        assert(keys.words@[4 * r + 2]@ == key_word(keys.key(), 4 * r + 2));
        assert(keys.words@[4 * r + 3]@ == key_word(keys.key(), 4 * r + 3));
        let k = a@ + b@ + c@ + d@;
        assert(k == round_key(keys.key(), r as int));
        assert(t@ =~= xor_bytes(s@, k));
    }
    t
}

fn sub_and_shift(s: [u8; 16]) -> (t: [u8; 16])
    ensures
        t@ == shift_rows(sub_bytes(s@)),
{
    let t: [u8; 16] = [
        sub_byte(s[0]), sub_byte(s[5]), sub_byte(s[10]), sub_byte(s[15]),
        sub_byte(s[4]), sub_byte(s[9]), sub_byte(s[14]), sub_byte(s[3]),
        sub_byte(s[8]), sub_byte(s[13]), sub_byte(s[2]), sub_byte(s[7]),
        sub_byte(s[12]), sub_byte(s[1]), sub_byte(s[6]), sub_byte(s[11]),
    ];
    assert(t@ =~= shift_rows(sub_bytes(s@)));
    t
}

fn mix_column_of(s0: u8, s1: u8, s2: u8, s3: u8) -> (r: [u8; 4])
    ensures
        r@ == mix_column(s0, s1, s2, s3),
{
    let r: [u8; 4] = [
        xtime_of(s0) ^ xtime_of(s1) ^ s1 ^ s2 ^ s3,
        s0 ^ xtime_of(s1) ^ xtime_of(s2) ^ s2 ^ s3,
        s0 ^ s1 ^ xtime_of(s2) ^ xtime_of(s3) ^ s3,
        xtime_of(s0) ^ s0 ^ s1 ^ s2 ^ xtime_of(s3),
    ];
    assert(r@ =~= mix_column(s0, s1, s2, s3));
    r
}

fn mix(s: [u8; 16]) -> (t: [u8; 16])
    ensures
        t@ == mix_columns(s@),
{
    let a: [u8; 4] = mix_column_of(s[0], s[1], s[2], s[3]);
    let b: [u8; 4] = mix_column_of(s[4], s[5], s[6], s[7]);
    let c: [u8; 4] = mix_column_of(s[8], s[9], s[10], s[11]);
    let d: [u8; 4] = mix_column_of(s[12], s[13], s[14], s[15]);
    let t: [u8; 16] = [
        a[0], a[1], a[2], a[3],
        b[0], b[1], b[2], b[3],
        c[0], c[1], c[2], c[3],
        d[0], d[1], d[2], d[3],
    ];
    assert(t@ =~= a@ + b@ + c@ + d@);
    t
}

/// Encrypts a block.
pub fn aes128_encrypt_block(state: &mut [u8; 16], keys: &RoundKeys)
    requires
        keys.wf(),
    ensures
        final(state)@ == cipher(keys.key(), old(state)@),
{
    let mut s: [u8; 16] = add_round_key(*state, keys, 0);
    let mut r: usize = 0;
    while r < 9
        invariant
            keys.wf(),
            r <= 9,
            s@ == cipher_rounds(keys.key(), old(state)@, r as int),
        decreases 9 - r,
    {
        r = r + 1;
        s = add_round_key(mix(sub_and_shift(s)), keys, r);
    }
    *state = add_round_key(sub_and_shift(s), keys, 10);
    proof {
        reveal(cipher);
    }
}

/// The first sixteen bytes as an array.
fn block_of(s: &[u8]) -> (r: [u8; 16])
    requires
        s@.len() >= 16,
    ensures
        r@ == s@.take(16),
{
    let r: [u8; 16] = [
        s[0], s[1], s[2], s[3], s[4], s[5], s[6], s[7],
        s[8], s[9], s[10], s[11], s[12], s[13], s[14], s[15],
    ];
    assert(r@ =~= s@.take(16));
    r
}

/// Encrypts the first sixteen bytes of `block` under `key`, which must have
/// sixteen.
pub fn aes128_ecb_block(key: &[u8], block: &[u8]) -> (r: Option<[u8; 16]>)
    ensures
        r is Some <==> key@.len() == 16 && block@.len() >= 16,
        r matches Some(c) ==> c@ == cipher(key@, block@.take(16)),
{
    if key.len() != 16 || block.len() < 16 {
        return None;
    }
    let keys: RoundKeys = aes128_key_schedule(key);
    let mut state: [u8; 16] = block_of(block);
    aes128_encrypt_block(&mut state, &keys);
    Some(state)
}

// Galois/Counter Mode

/// The multiplicand after `i` steps of the multiplication in GF(2^128): it is
/// multiplied by x each time. Bit 127 is the coefficient of x^0.
pub open spec fn gf_shifted(y: u128, i: int) -> u128
    decreases i,
{
    if i <= 0 {
        y
    } else {
        let v = gf_shifted(y, i - 1);
        (v >> 1) ^ (if v % 2 == 1 {
            REDUCTION
        } else {
            0u128
        })
    }
}

/// The product of the first `i` coefficients of `x` with `y`.
pub open spec fn gf_partial(x: u128, y: u128, i: int) -> u128
    decreases i,
{
    if i <= 0 {
        0
    } else {
        gf_partial(x, y, i - 1) ^ (if (x >> ((128 - i) as u128)) % 2 == 1 {
            gf_shifted(y, i - 1)
        } else {
            0u128
        })
    }
}

/// The product in GF(2^128) modulo x^128 + x^7 + x^2 + x + 1.
pub open spec fn gf_product(x: u128, y: u128) -> u128 {
    gf_partial(x, y, 128)
}

/// The product in GF(2^128).
pub fn gf128_mul(x: u128, y: u128) -> (r: u128)
    ensures
        r == gf_product(x, y),
{
    let mut z: u128 = 0;
    let mut v: u128 = y;
    let mut i: u128 = 0;
    proof {
        assert(z ^ 0 == z) by (bit_vector);
    }
    while i < 128
        invariant
            i <= 128,
            v == gf_shifted(y, i as int),
            z == gf_partial(x, y, i as int),
        decreases 128 - i,
    {
        let shift: u128 = 127 - i;
        let bit: u128 = (x >> shift) % 2;
        z = z ^ (if bit == 1 {
            v
        } else {
            0
        });
        v = (v >> 1) ^ (if v % 2 == 1 {
            REDUCTION
        } else {
            0
        });
        i = i + 1;
    }
    z
}

/// The number of a block of up to sixteen bytes, filled up with zeros.
pub open spec fn block_number(s: Seq<u8>) -> u128 {
    net::from_octets(s + Seq::new((16 - s.len()) as nat, |i: int| 0u8)) as u128
}

/// GHASH continued from `y` over the blocks of `data`.
pub open spec fn ghash(h: u128, y: u128, data: Seq<u8>) -> u128
    decreases data.len(),
{
    if data.len() == 0 {
        y
    } else if data.len() <= 16 {
        gf_product(y ^ block_number(data), h)
    } else {
        ghash(h, gf_product(y ^ block_number(data.take(16)), h), data.skip(16))
    }
}

/// The lengths in bits that GHASH ends with.
pub open spec fn length_block(aad: nat, data: nat) -> u128 {
    (8 * aad * 0x1_0000_0000_0000_0000 + 8 * data) as u128
}

/// GHASH over additional data, ciphertext and their lengths.
pub open spec fn gcm_hash(h: u128, aad: Seq<u8>, ciphertext: Seq<u8>) -> u128 {
    let y = ghash(h, ghash(h, 0, aad), ciphertext);
    gf_product(y ^ length_block(aad.len(), ciphertext.len()), h)
}

/// Counter block `n` of a nonce.
pub open spec fn counter_block(nonce: Seq<u8>, n: nat) -> Seq<u8> {
    nonce + net::be_octets(n % 0x1_0000_0000, 4)
}

/// The authentication tag.
#[verifier::opaque]
pub open spec fn gcm_tag_of(key: Seq<u8>, nonce: Seq<u8>, aad: Seq<u8>, ciphertext: Seq<u8>) -> Seq<
    u8,
> {
    let h = net::from_octets(cipher(key, Seq::new(16, |i: int| 0u8))) as u128;
    xor_bytes(
        net::be_octets(gcm_hash(h, aad, ciphertext) as nat, 16),
        cipher(key, counter_block(nonce, 1)),
    )
}

/// Data combined with the key stream, from counter block 2 on. The same
/// operation encrypts and decrypts.
pub open spec fn gcm_crypt(key: Seq<u8>, nonce: Seq<u8>, data: Seq<u8>) -> Seq<u8> {
    Seq::new(
        data.len(),
        |i: int| data[i] ^ cipher(key, counter_block(nonce, (2 + i / 16) as nat))[i % 16],
    )
}

/// The number of a block of up to sixteen bytes, filled up with zeros.
fn padded_block(s: &[u8]) -> (r: u128)
    requires
        s@.len() <= 16,
    ensures
        r == block_number(s@),
{
    let mut b: Vec<u8> = vstd::slice::slice_to_vec(s);
    assert(b@ =~= s@ + Seq::new(0, |i: int| 0u8));
    while b.len() < 16
        invariant
            s@.len() <= b@.len() <= 16,
            b@ == s@ + Seq::new((b@.len() - s@.len()) as nat, |i: int| 0u8),
        decreases 16 - b@.len(),
    {
        let ghost n = b@.len() - s@.len();
        b.push(0);
        assert(b@ =~= s@ + Seq::new((n + 1) as nat, |i: int| 0u8));
    }
    net::v6_of_octets(b.as_slice())
}

fn ghash_of(h: u128, start: u128, data: &[u8]) -> (r: u128)
    ensures
        r == ghash(h, start, data@),
{
    let n: usize = data.len();
    let mut y: u128 = start;
    let mut i: usize = 0;
    assert(data@.skip(0) =~= data@);
    while n - i > 16
        invariant
            n == data@.len(),
            i <= n,
            ghash(h, start, data@) == ghash(h, y, data@.skip(i as int)),
        decreases n - i,
    {
        proof {
            let rest = data@.skip(i as int);
            assert(data@.subrange(i as int, i + 16) =~= rest.take(16));
            assert(rest.skip(16) =~= data@.skip(i + 16));
        }
        y = gf128_mul(y ^ padded_block(&data[i..i + 16]), h);
        i = i + 16;
    }
    if i < n {
        assert(data@.subrange(i as int, n as int) =~= data@.skip(i as int));
        y = gf128_mul(y ^ padded_block(&data[i..n]), h);
    } else {
        assert(data@.skip(i as int).len() == 0);
    }
    y
}

/// GHASH over additional data, ciphertext and their lengths.
fn gcm_hash_of(h: u128, aad: &[u8], ciphertext: &[u8]) -> (r: u128)
    requires
        aad@.len() < 0x2000_0000_0000_0000,
        ciphertext@.len() < 0x2000_0000_0000_0000,
    ensures
        r == gcm_hash(h, aad@, ciphertext@),
{
    let y: u128 = ghash_of(h, 0, aad);
    let y: u128 = ghash_of(h, y, ciphertext);
    let lengths: u128 = 8 * aad.len() as u128 * 0x1_0000_0000_0000_0000 + 8 * ciphertext.len()
        as u128;
    gf128_mul(y ^ lengths, h)
}

/// Counter block `n` of a nonce.
fn counter_block_of(nonce: &[u8], n: u32) -> (r: [u8; 16])
    requires
        nonce@.len() == 12,
    ensures
        r@ == counter_block(nonce@, n as nat),
{
    let c: [u8; 4] = net::octets_v4(n);
    let r: [u8; 16] = [
        nonce[0], nonce[1], nonce[2], nonce[3], nonce[4], nonce[5], nonce[6], nonce[7],
        nonce[8], nonce[9], nonce[10], nonce[11], c[0], c[1], c[2], c[3],
    ];
    assert(r@ =~= nonce@ + c@);
    r
}

/// Two blocks combined by exclusive or.
fn xor16(a: &[u8; 16], b: &[u8; 16]) -> (r: [u8; 16])
    ensures
        r@ == xor_bytes(a@, b@),
{
    let r: [u8; 16] = [
        a[0] ^ b[0], a[1] ^ b[1], a[2] ^ b[2], a[3] ^ b[3],
        a[4] ^ b[4], a[5] ^ b[5], a[6] ^ b[6], a[7] ^ b[7],
        a[8] ^ b[8], a[9] ^ b[9], a[10] ^ b[10], a[11] ^ b[11],
        a[12] ^ b[12], a[13] ^ b[13], a[14] ^ b[14], a[15] ^ b[15],
    ];
    assert(r@ =~= xor_bytes(a@, b@));
    r
}

/// The authentication tag.
pub fn gcm_tag(keys: &RoundKeys, nonce: &[u8], aad: &[u8], ciphertext: &[u8]) -> (r: [u8; 16])
    requires
        keys.wf(),
        nonce@.len() == 12,
        aad@.len() < 0x2000_0000_0000_0000,
        ciphertext@.len() < 0x2000_0000_0000_0000,
    ensures
        r@ == gcm_tag_of(keys.key(), nonce@, aad@, ciphertext@),
{
    let mut h_block: [u8; 16] = [0; 16];
    assert(h_block@ =~= Seq::new(16, |i: int| 0u8));
    aes128_encrypt_block(&mut h_block, keys);
    let h: u128 = net::v6_of_octets(&h_block);
    let s: [u8; 16] = net::octets_v6(gcm_hash_of(h, aad, ciphertext));
    let mut t: [u8; 16] = counter_block_of(nonce, 1);
    aes128_encrypt_block(&mut t, keys);
    proof {
        reveal(gcm_tag_of);
    }
    xor16(&s, &t)
}

/// Combines data with the key stream.
pub fn gcm_crypt_of(keys: &RoundKeys, nonce: &[u8], data: &[u8]) -> (r: Vec<u8>)
    requires
        keys.wf(),
        nonce@.len() == 12,
    ensures
        r@ == gcm_crypt(keys.key(), nonce@, data@),
{
    let mut out: Vec<u8> = Vec::new();
    let mut stream: [u8; 16] = [0; 16];
    let mut i: usize = 0;
    while i < data.len()
        invariant
            keys.wf(),
            nonce@.len() == 12,
            i <= data@.len(),
            out@.len() == i,
            i % 16 != 0 ==> stream@ == cipher(
                keys.key(),
                counter_block(nonce@, (2 + i / 16) as nat),
            ),
            forall|k: int|
                0 <= k < i ==> out@[k] == data@[k] ^ cipher(
                    keys.key(),
                    counter_block(nonce@, (2 + k / 16) as nat),
                )[k % 16],
        decreases data@.len() - i,
    {
        if i % 16 == 0 {
            let count: u32 = ((2 + (i / 16) as u64) % 0x1_0000_0000) as u32;
            stream = counter_block_of(nonce, count);
            assert(stream@ == counter_block(nonce@, (2 + i / 16) as nat));
            aes128_encrypt_block(&mut stream, keys);
        }
        out.push(data[i] ^ stream[i % 16]);
        i = i + 1;
    }
    assert(out@ =~= gcm_crypt(keys.key(), nonce@, data@));
    out
}

/// Whether two slices hold the same bytes.
pub(crate) fn same_bytes(a: &[u8], b: &[u8]) -> (r: bool)
    ensures
        r == (a@ == b@),
{
    if a.len() != b.len() {
        return false;
    }
    let mut i: usize = 0;
    while i < a.len()
        invariant
            a@.len() == b@.len(),
            i <= a@.len(),
            forall|k: int| 0 <= k < i ==> a@[k] == b@[k],
        decreases a@.len() - i,
    {
        if a[i] != b[i] {
            assert(a@[i as int] != b@[i as int]);
            return false;
        }
        i = i + 1;
    }
    assert(a@ =~= b@);
    true
}

/// Decrypts `ciphertext` and verifies its tag. There is no plaintext if a
/// length is wrong or the tag does not fit.
pub fn aes128_gcm_decrypt(
    key: &[u8],
    nonce: &[u8],
    aad: &[u8],
    ciphertext: &[u8],
    tag: &[u8],
) -> (r: Option<Vec<u8>>)
    requires
        aad@.len() < 0x2000_0000_0000_0000,
        ciphertext@.len() < 0x2000_0000_0000_0000,
    ensures
        r is Some <==> key@.len() == 16 && nonce@.len() == 12 && tag@.len() == 16 && tag@
            == gcm_tag_of(key@, nonce@, aad@, ciphertext@),
        r matches Some(p) ==> p@ == gcm_crypt(key@, nonce@, ciphertext@),
{
    if key.len() != 16 || nonce.len() != 12 || tag.len() != 16 {
        return None;
    }
    let keys: RoundKeys = aes128_key_schedule(key);
    let computed: [u8; 16] = gcm_tag(&keys, nonce, aad, ciphertext);
    if !same_bytes(&computed, tag) {
        return None;
    }
    Some(gcm_crypt_of(&keys, nonce, ciphertext))
}

/// Decryption undoes encryption: combining with the key stream twice gives the
/// data back.
pub proof fn law_crypt_involution(key: Seq<u8>, nonce: Seq<u8>, data: Seq<u8>)
    ensures
        gcm_crypt(key, nonce, gcm_crypt(key, nonce, data)) == data,
{
    let once = gcm_crypt(key, nonce, data);
    let twice = gcm_crypt(key, nonce, once);
    assert forall|i: int| 0 <= i < data.len() implies twice[i] == data[i] by {
        let a = data[i];
        let k = cipher(key, counter_block(nonce, (2 + i / 16) as nat))[i % 16];
        assert((a ^ k) ^ k == a) by (bit_vector);
    }
    assert(twice =~= data);
}

} // verus!
