//! DNS over TCP: every message has its length in two bytes before it.
use vstd::prelude::*;
use crate::text;

verus! {

/// The longest message that is taken from a connection.
pub const MAX_MESSAGE: usize = 4096;

/// The longest datagram that is taken from a socket.
pub const MAX_DATAGRAM: usize = 4096;

/// What the bytes of a connection begin with.
pub enum Framed {
    /// Less than a whole message.
    Incomplete,
    /// A message of a length that is not taken.
    TooLarge(usize),
    /// A message; what follows it begins at `next`.
    Message { body: Vec<u8>, next: usize },
}

/// The length that the first two bytes give.
pub open spec fn framed_length(bytes: Seq<u8>) -> int {
    bytes[0] * 256 + bytes[1]
}

/// Takes the first message of a connection off its bytes.
pub fn split_message(bytes: &[u8]) -> (r: Framed)
    ensures
        if bytes@.len() < 2 {
            r is Incomplete
        } else if framed_length(bytes@) > MAX_MESSAGE {
            r == Framed::TooLarge(framed_length(bytes@) as usize)
        } else if bytes@.len() < 2 + framed_length(bytes@) {
            r is Incomplete
        } else {
            r matches Framed::Message { body, next } && body@ == bytes@.subrange(
                2,
                2 + framed_length(bytes@),
            ) && next == 2 + framed_length(bytes@)
        },
{
    let n: usize = bytes.len();
    if n < 2 {
        return Framed::Incomplete;
    }
    let len: usize = bytes[0] as usize * 256 + bytes[1] as usize;
    if len > MAX_MESSAGE {
        return Framed::TooLarge(len);
    }
    if n < 2 + len {
        return Framed::Incomplete;
    }
    Framed::Message {
        body: vstd::slice::slice_to_vec(vstd::slice::slice_subrange(bytes, 2, 2 + len)),
        next: 2 + len,
    }
}

/// The error for a message that is too long.
pub fn too_large_message(len: usize) -> (r: String)
    ensures
        r@ == "DNS TCP message too large: "@ + text::decimal(len as nat),
{
    let mut t: Vec<char> = text::chars_of("DNS TCP message too large: ");
    let n: Vec<char> = text::decimal_chars(len as u64);
    text::push_chars(&mut t, n.as_slice());
    text::string_of(t.as_slice())
}

/// A message with its length before it; of the length the two low bytes count.
pub open spec fn framed(body: Seq<u8>) -> Seq<u8> {
    seq![((body.len() / 256) % 256) as u8, (body.len() % 256) as u8] + body
}

/// Puts the length before a message.
pub fn frame_message(body: &[u8]) -> (r: Vec<u8>)
    ensures
        r@ == framed(body@),
{
    let n: usize = body.len();
    let mut r: Vec<u8> = Vec::new();
    r.push(((n / 256) % 256) as u8);
    r.push((n % 256) as u8);
    r.extend_from_slice(body);
    assert(r@ =~= framed(body@));
    r
}

/// A message that is sent with its length before it arrives as it is, and what
/// follows it is left.
pub proof fn law_framed_message_arrives(body: Seq<u8>, rest: Seq<u8>)
    requires
        body.len() <= MAX_MESSAGE,
    ensures
        framed_length(framed(body) + rest) == body.len(),
        (framed(body) + rest).subrange(2, 2 + body.len() as int) == body,
        (framed(body) + rest).skip(2 + body.len() as int) == rest,
{
    let all = framed(body) + rest;
    assert(all[0] == ((body.len() / 256) % 256) as u8);
    assert(all[1] == (body.len() % 256) as u8);
    assert(all.subrange(2, 2 + body.len() as int) =~= body);
    assert(all.skip(2 + body.len() as int) =~= rest);
}

} // verus!
