//! The server's side of WebSocket: the handshake and text frames.
use vstd::prelude::*;
use crate::crypto::base64;
use crate::crypto::sha1;
use crate::net;
use crate::text;

verus! {

/// What is put behind a client's key.
pub const MAGIC: &'static str = "258EAFA5-E914-47DA-95CA-C5AB0DC85B11";

/// The answer to a client's key.
pub open spec fn accept_key(key: Seq<char>) -> Seq<char> {
    base64::encoded(sha1::sha1_digest(vstd::utf8::encode_utf8(key + MAGIC@)))
}

/// The response that accepts a handshake.
pub open spec fn upgrade_text(key: Seq<char>) -> Seq<char> {
    "HTTP/1.1 101 Switching Protocols\r\nUpgrade: websocket\r\nConnection: Upgrade\r\nSec-WebSocket-Accept: "@
        + accept_key(key) + "\r\nAccess-Control-Allow-Origin: *\r\n\r\n"@
}

/// The head of a frame that holds `len` bytes of text: the length in one, two
/// or eight bytes.
pub open spec fn frame_head(len: nat) -> Seq<u8> {
    if len <= 125 {
        seq![0x81u8, len as u8]
    } else if len <= 65535 {
        seq![0x81u8, 126u8] + net::be_octets(len, 2)
    } else {
        seq![0x81u8, 127u8] + net::be_octets(len, 8)
    }
}

/// A frame of text.
pub open spec fn frame(data: Seq<u8>) -> Seq<u8> {
    frame_head(data.len()) + data
}

/// The answer to a client's key.
pub fn ws_accept_key(client_key: &str) -> (r: String)
    requires
        vstd::utf8::encode_utf8(client_key@).len() < 0x1000_0000_0000_0000,
    ensures
        r@ == accept_key(client_key@),
{
    let mut t: Vec<char> = text::chars_of(client_key);
    text::push_text(&mut t, MAGIC);
    let both: String = text::string_of(t.as_slice());
    proof {
        reveal_strlit("258EAFA5-E914-47DA-95CA-C5AB0DC85B11");
        lemma_encoded_sum(client_key@, MAGIC@);
        vstd::utf8::is_ascii_chars_encode_utf8(MAGIC@);
    }
    base64::base64_encode(&sha1::sha1_bytes(both.as_str().as_bytes()))
}

proof fn lemma_encoded_sum(a: Seq<char>, b: Seq<char>)
    ensures
        vstd::utf8::encode_utf8(a + b) == vstd::utf8::encode_utf8(a) + vstd::utf8::encode_utf8(b),
    decreases a.len(),
{
    if a.len() == 0 {
        assert(a + b =~= b);
        assert(vstd::utf8::encode_utf8(a) + vstd::utf8::encode_utf8(b) =~= vstd::utf8::encode_utf8(
            b,
        ));
    } else {
        lemma_encoded_sum(a.drop_first(), b);
        assert((a + b).drop_first() =~= a.drop_first() + b);
        assert(vstd::utf8::encode_utf8(a + b) =~= vstd::utf8::encode_utf8(a)
            + vstd::utf8::encode_utf8(b));
    }
}

/// The response that accepts a handshake.
pub fn ws_upgrade_response(client_key: &str) -> (r: String)
    requires
        vstd::utf8::encode_utf8(client_key@).len() < 0x1000_0000_0000_0000,
    ensures
        r@ == upgrade_text(client_key@),
{
    let mut t: Vec<char> = text::chars_of(
        "HTTP/1.1 101 Switching Protocols\r\nUpgrade: websocket\r\nConnection: Upgrade\r\nSec-WebSocket-Accept: ",
    );
    let accept: String = ws_accept_key(client_key);
    text::push_text(&mut t, accept.as_str());
    text::push_text(&mut t, "\r\nAccess-Control-Allow-Origin: *\r\n\r\n");
    text::string_of(t.as_slice())
}

/// A frame of text.
pub fn ws_text_frame(data: &[u8]) -> (r: Vec<u8>)
    ensures
        r@ == frame(data@),
{
    let len: usize = data.len();
    let mut r: Vec<u8> = Vec::new();
    r.push(0x81);
    if len <= 125 {
        r.push(len as u8);
        assert(r@ =~= frame_head(data@.len()));
    } else if len <= 65535 {
        r.push(126);
        let mut o: Vec<u8> = net::octets_vec(len as u128, 2);
        r.append(&mut o);
        assert(r@ =~= frame_head(data@.len()));
    } else {
        r.push(127);
        let mut o: Vec<u8> = net::octets_vec(len as u128, 8);
        r.append(&mut o);
        assert(r@ =~= frame_head(data@.len()));
    }
    r.extend_from_slice(data);
    assert(r@ =~= frame(data@));
    r
}

/// How many bytes the head of a frame takes.
pub open spec fn head_len(f: Seq<u8>) -> int {
    if f[1] <= 125 {
        2
    } else if f[1] == 126 {
        4
    } else {
        10
    }
}

/// The length that the head of a frame gives.
pub open spec fn payload_len(f: Seq<u8>) -> nat {
    if f[1] <= 125 {
        f[1] as nat
    } else {
        net::from_octets(f.subrange(2, head_len(f)))
    }
}

/// A reader finds in a frame the length and the bytes that went in.
pub proof fn law_frame_holds_data(data: Seq<u8>)
    requires
        data.len() <= u64::MAX,
    ensures
        payload_len(frame(data)) == data.len(),
        frame(data).skip(head_len(frame(data))) == data,
{
    let f = frame(data);
    let n = data.len();
    assert(net::pow256(2) == 65536) by {
        reveal_with_fuel(net::pow256, 3);
    }
    assert(net::pow256(8) == 0x1_0000_0000_0000_0000) by {
        reveal_with_fuel(net::pow256, 9);
    }
    if n <= 125 {
        assert(f[1] == n as u8);
        assert(f.skip(2) =~= data);
    } else if n <= 65535 {
        net::law_octets_roundtrip(n, 2);
        assert(f[1] == 126);
        assert(f.subrange(2, 4) =~= net::be_octets(n, 2));
        assert(f.skip(4) =~= data);
    } else {
        net::law_octets_roundtrip(n, 8);
        assert(f[1] == 127);
        assert(f.subrange(2, 10) =~= net::be_octets(n, 8));
        assert(f.skip(10) =~= data);
    }
}

} // verus!
