//! Base64 (RFC 4648) with padding.
use vstd::prelude::*;
use crate::text;

verus! {

/// The character of a value below 64.
pub open spec fn digit(v: int) -> char {
    if v < 26 {
        ('A' as u32 + v) as char
    } else if v < 52 {
        ('a' as u32 + (v - 26)) as char
    } else if v < 62 {
        ('0' as u32 + (v - 52)) as char
    } else if v == 62 {
        '+'
    } else {
        '/'
    }
}

/// The four characters of up to three bytes.
pub open spec fn quad(chunk: Seq<u8>) -> Seq<char> {
    let n = chunk[0] * 65536 + (if chunk.len() > 1 {
        chunk[1] * 256
    } else {
        0
    }) + (if chunk.len() > 2 {
        chunk[2] as int
    } else {
        0
    });
    seq![
        digit(n / 262144 % 64),
        digit(n / 4096 % 64),
        if chunk.len() > 1 {
            digit(n / 64 % 64)
        } else {
            '='
        },
        if chunk.len() > 2 {
            digit(n % 64)
        } else {
            '='
        },
    ]
}

/// The Base64 text of `data`.
pub open spec fn encoded(data: Seq<u8>) -> Seq<char>
    decreases data.len(),
{
    if data.len() == 0 {
        Seq::empty()
    } else if data.len() <= 3 {
        quad(data)
    } else {
        quad(data.take(3)) + encoded(data.skip(3))
    }
}

fn digit_of(v: u32) -> (r: char)
    requires
        v < 64,
    ensures
        r == digit(v as int),
{
    let b: u8 = v as u8;
    if b < 26 {
        (65 + b) as char
    } else if b < 52 {
        (71 + b) as char
    } else if b < 62 {
        (b - 4) as char
    } else if b == 62 {
        '+'
    } else {
        '/'
    }
}

fn push_quad(out: &mut Vec<char>, chunk: &[u8])
    requires
        1 <= chunk@.len() <= 3,
    ensures
        final(out)@ == old(out)@ + quad(chunk@),
{
    let len: usize = chunk.len();
    let second: u32 = if len > 1 {
        chunk[1] as u32
    } else {
        0
    };
    let third: u32 = if len > 2 {
        chunk[2] as u32
    } else {
        0
    };
    let n: u32 = chunk[0] as u32 * 65536 + second * 256 + third;
    out.push(digit_of(n / 262144 % 64));
    out.push(digit_of(n / 4096 % 64));
    out.push(
        if len > 1 {
            digit_of(n / 64 % 64)
        } else {
            '='
        },
    );
    out.push(
        if len > 2 {
            digit_of(n % 64)
        } else {
            '='
        },
    );
    assert(out@ =~= old(out)@ + quad(chunk@));
}

/// The Base64 text of `data`.
pub fn base64_encode(data: &[u8]) -> (r: String)
    ensures
        r@ == encoded(data@),
{
    let n: usize = data.len();
    let mut out: Vec<char> = Vec::new();
    let mut i: usize = 0;
    assert(data@.skip(0) =~= data@);
    assert(Seq::<char>::empty() + encoded(data@) =~= encoded(data@));
    while n - i > 3
        invariant
            n == data@.len(),
            i <= n,
            encoded(data@) == out@ + encoded(data@.skip(i as int)),
        decreases n - i,
    {
        let ghost rest = data@.skip(i as int);
        let ghost before = out@;
        push_quad(&mut out, &data[i..i + 3]);
        proof {
            assert(data@.subrange(i as int, i + 3) =~= rest.take(3));
            assert(rest.skip(3) =~= data@.skip(i + 3));
            assert(before + (quad(rest.take(3)) + encoded(rest.skip(3))) =~= before + quad(
                rest.take(3),
            ) + encoded(rest.skip(3)));
        }
        i = i + 3;
    }
    if i < n {
        assert(data@.subrange(i as int, n as int) =~= data@.skip(i as int));
        push_quad(&mut out, &data[i..n]);
    } else {
        assert(data@.skip(i as int).len() == 0);
        assert(out@ + encoded(data@.skip(i as int)) =~= out@);
    }
    text::string_of(&out)
}

/// The text has four characters for every three bytes or part of them.
pub proof fn law_encoded_length(data: Seq<u8>)
    ensures
        encoded(data).len() == 4 * ((data.len() + 2) / 3),
    decreases data.len(),
{
    if data.len() > 3 {
        law_encoded_length(data.skip(3));
    }
}

/// The value of a Base64 character.
pub open spec fn digit_value(c: char) -> int {
    if 'A' <= c && c <= 'Z' {
        c as u32 - 'A' as u32
    } else if 'a' <= c && c <= 'z' {
        c as u32 - 'a' as u32 + 26
    } else if '0' <= c && c <= '9' {
        c as u32 - '0' as u32 + 52
    } else if c == '+' {
        62
    } else {
        63
    }
}

/// The bytes that four characters stand for.
pub open spec fn unquad(q: Seq<char>) -> Seq<u8> {
    let n = digit_value(q[0]) * 262144 + digit_value(q[1]) * 4096 + (if q[2] == '=' {
        0
    } else {
        digit_value(q[2]) * 64
    }) + (if q[3] == '=' {
        0
    } else {
        digit_value(q[3])
    });
    if q[2] == '=' {
        seq![(n / 65536) as u8]
    } else if q[3] == '=' {
        seq![(n / 65536) as u8, (n / 256 % 256) as u8]
    } else {
        seq![(n / 65536) as u8, (n / 256 % 256) as u8, (n % 256) as u8]
    }
}

/// The bytes that a Base64 text stands for.
pub open spec fn decoded(s: Seq<char>) -> Seq<u8>
    decreases s.len(),
{
    if s.len() < 4 {
        Seq::empty()
    } else {
        unquad(s.take(4)) + decoded(s.skip(4))
    }
}

proof fn lemma_digit(v: int)
    requires
        0 <= v < 64,
    ensures
        digit_value(digit(v)) == v,
        digit(v) != '=',
{
}

proof fn lemma_recombine(b0: u32, b1: u32, b2: u32, n: u32)
    by (bit_vector)
    requires
        b0 < 256,
        b1 < 256,
        b2 < 256,
        n == b0 * 65536 + b1 * 256 + b2,
    ensures
        n / 262144 % 64 * 262144 + n / 4096 % 64 * 4096 + n / 64 % 64 * 64 + n % 64 == n,
        n / 65536 == b0,
        n / 256 % 256 == b1,
        n % 256 == b2,
        b2 == 0 ==> n % 64 == 0,
        b1 == 0 && b2 == 0 ==> n / 64 % 64 == 0,
{
}

proof fn lemma_unquad(chunk: Seq<u8>)
    requires
        1 <= chunk.len() <= 3,
    ensures
        unquad(quad(chunk)) == chunk,
{
    let b0 = chunk[0] as int;
    let b1 = if chunk.len() > 1 {
        chunk[1] as int
    } else {
        0
    };
    let b2 = if chunk.len() > 2 {
        chunk[2] as int
    } else {
        0
    };
    let n = b0 * 65536 + b1 * 256 + b2;
    lemma_recombine(b0 as u32, b1 as u32, b2 as u32, n as u32);
    let (d0, d1, d2, d3) = (n / 262144 % 64, n / 4096 % 64, n / 64 % 64, n % 64);
    lemma_digit(d0);
    lemma_digit(d1);
    lemma_digit(d2);
    lemma_digit(d3);
    let q = quad(chunk);
    assert(q[0] == digit(d0) && q[1] == digit(d1));
    if chunk.len() == 1 {
        assert(unquad(q) =~= chunk);
    } else if chunk.len() == 2 {
        assert(unquad(q) =~= chunk);
    } else {
        assert(unquad(q) =~= chunk);
    }
}

/// No two byte sequences have the same text: decoding gives the bytes back.
pub proof fn law_decoding_inverts_encoding(data: Seq<u8>)
    ensures
        decoded(encoded(data)) == data,
    decreases data.len(),
{
    let e = encoded(data);
    if data.len() == 0 {
        assert(decoded(e) =~= data);
    } else if data.len() <= 3 {
        lemma_unquad(data);
        assert(e.take(4) =~= e);
        assert(decoded(e.skip(4)) =~= Seq::<u8>::empty());
        assert(decoded(e) =~= data);
    } else {
        lemma_unquad(data.take(3));
        law_decoding_inverts_encoding(data.skip(3));
        assert(e.take(4) =~= quad(data.take(3)));
        assert(e.skip(4) =~= encoded(data.skip(3)));
        assert(data.take(3) + data.skip(3) =~= data);
    }
}

} // verus!
