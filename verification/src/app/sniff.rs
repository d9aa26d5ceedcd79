//! Protocol sniffing: the first bytes of a stream or a datagram tell the
//! protocol and often the domain.
//!
//! - TLS: the server name of a ClientHello (RFC 6066), and whether it offers
//!   `h2` (RFC 7301).
//! - HTTP/1.x: the `Host` header.
//! - QUIC: the server name of the ClientHello in an Initial packet, decrypted
//!   as RFC 9001 and RFC 9369 say.
//! - SSH and BitTorrent: their opening bytes.
use vstd::prelude::*;
use crate::crypto::aes;
use crate::crypto::sha256;
use crate::inbound::tun::checksum;
use crate::net;
use crate::text;

verus! {

/// Milliseconds for which sniffing waits, unless a rule says otherwise.
pub const DEFAULT_TIMEOUT_MS: u64 = 300;

/// Bytes that are read for sniffing at most.
pub const PEEK_BUF_SIZE: usize = 2048;

/// What sniffing has found.
#[derive(Debug)]
pub struct SniffResult {
    /// The domain without its port, if the protocol carries one.
    pub domain: Option<String>,
    /// The protocol: `tls`, `h2`, `http`, `quic`, `ssh` or `bittorrent`.
    pub protocol: &'static str,
}

/// A protocol to look for.
#[derive(Clone, Copy, Debug, PartialEq, Eq, Hash, Structural)]
pub enum SniffType {
    Tls,
    Http,
    Quic,
    Ssh,
    BitTorrent,
}

/// What sniffing has found: the domain and the protocol.
pub type Found = Option<(Option<Seq<char>>, Seq<char>)>;

/// The domain and the protocol of a result.
pub open spec fn found(r: Option<SniffResult>) -> Found {
    match r {
        Some(s) => Some(
            (
                match s.domain {
                    Some(d) => Some(d@),
                    None => None,
                },
                s.protocol@,
            ),
        ),
        None => None,
    }
}

/// The protocol that a word names, whatever the case of its letters.
pub open spec fn sniff_type_named(s: Seq<char>) -> Option<SniffType> {
    let l = text::lowercase(s);
    if l == "tls"@ {
        Some(SniffType::Tls)
    } else if l == "http"@ {
        Some(SniffType::Http)
    } else if l == "quic"@ {
        Some(SniffType::Quic)
    } else if l == "ssh"@ {
        Some(SniffType::Ssh)
    } else if l == "bittorrent"@ || l == "bt"@ {
        Some(SniffType::BitTorrent)
    } else {
        None
    }
}

/// All protocols, in the order in which they are tried.
pub open spec fn default_types() -> Seq<SniffType> {
    seq![
        SniffType::Tls,
        SniffType::Http,
        SniffType::Quic,
        SniffType::Ssh,
        SniffType::BitTorrent,
    ]
}

impl SniffType {
    /// The protocol that a word names.
    pub fn parse(s: &str) -> (r: Option<Self>)
        ensures
            r == sniff_type_named(s@),
    {
        let l: String = text::lowercase_text(s);
        if text::same_text(l.as_str(), "tls") {
            Some(SniffType::Tls)
        } else if text::same_text(l.as_str(), "http") {
            Some(SniffType::Http)
        } else if text::same_text(l.as_str(), "quic") {
            Some(SniffType::Quic)
        } else if text::same_text(l.as_str(), "ssh") {
            Some(SniffType::Ssh)
        } else if text::same_text(l.as_str(), "bittorrent") || text::same_text(l.as_str(), "bt") {
            Some(SniffType::BitTorrent)
        } else {
            None
        }
    }

    /// All protocols, in the order in which they are tried.
    pub fn defaults() -> (r: Vec<Self>)
        ensures
            r@ == default_types(),
    {
        let mut v: Vec<SniffType> = Vec::new();
        v.push(SniffType::Tls);
        v.push(SniffType::Http);
        v.push(SniffType::Quic);
        v.push(SniffType::Ssh);
        v.push(SniffType::BitTorrent);
        assert(v@ =~= default_types());
        v
    }
}

/// The big-endian word at `at`.
pub open spec fn word(buf: Seq<u8>, at: int) -> int {
    checksum::be_word(buf[at], buf[at + 1]) as int
}

/// The smaller of two numbers.
pub open spec fn lesser(a: int, b: int) -> int {
    if a < b {
        a
    } else {
        b
    }
}

// TLS

/// The server name in the data of a server name extension: the first entry of
/// the list, if it is a host name and lies within the extension as UTF-8 text.
pub open spec fn server_name(buf: Seq<u8>, at: int, end: int) -> Option<Seq<char>> {
    if at + 2 < end && buf[at + 2] == 0 && at + 5 <= end {
        let n = word(buf, at + 3);
        let name = buf.subrange(at + 5, at + 5 + n);
        if at + 5 + n <= end && vstd::utf8::valid_utf8(name) {
            Some(vstd::utf8::decode_utf8(name))
        } else {
            None
        }
    } else {
        None
    }
}

/// Whether a list of protocol names from `at` up to `end` holds `h2`. The list
/// ends with the first name that does not fit.
pub open spec fn lists_h2(buf: Seq<u8>, at: int, end: int) -> bool
    decreases end - at,
{
    if at >= end {
        false
    } else {
        let n = buf[at] as int;
        if at + 1 + n <= end {
            buf.subrange(at + 1, at + 1 + n) == seq![0x68u8, 0x32u8] || lists_h2(
                buf,
                at + 1 + n,
                end,
            )
        } else {
            false
        }
    }
}

/// Whether the data of a protocol negotiation extension offers `h2`.
pub open spec fn offers_h2(buf: Seq<u8>, at: int, end: int) -> bool {
    at + 2 <= end && lists_h2(buf, at + 2, lesser(at + 2 + word(buf, at), end))
}

/// Server name and offer of `h2` after the extensions from `at` up to `end`,
/// if `name` and `h2` are known already. The walk ends as soon as both are.
pub open spec fn walk_extensions(
    buf: Seq<u8>,
    at: int,
    end: int,
    name: Option<Seq<char>>,
    h2: bool,
) -> (Option<Seq<char>>, bool)
    decreases end - at,
{
    if at + 4 > end || (name is Some && h2) {
        (name, h2)
    } else {
        let kind = word(buf, at);
        let data_end = lesser(at + 4 + word(buf, at + 2), end);
        let here = if kind == 0 {
            server_name(buf, at + 4, data_end)
        } else {
            None
        };
        walk_extensions(
            buf,
            data_end,
            end,
            if here is Some {
                here
            } else {
                name
            },
            h2 || (kind == 0x10 && offers_h2(buf, at + 4, data_end)),
        )
    }
}

/// Where the extensions of a ClientHello begin, after their length.
pub open spec fn extensions_start(buf: Seq<u8>) -> Option<int> {
    if buf.len() < 44 || buf[0] != 0x16 || buf[1] != 0x03 || buf[5] != 0x01 {
        None
    } else {
        let p1 = 44 + buf[43];
        if p1 + 2 > buf.len() {
            None
        } else {
            let p2 = p1 + 2 + word(buf, p1);
            if p2 + 1 > buf.len() {
                None
            } else {
                let p3 = p2 + 1 + buf[p2];
                if p3 + 2 > buf.len() {
                    None
                } else {
                    Some(p3 + 2)
                }
            }
        }
    }
}

/// What a TLS record with a ClientHello tells.
pub open spec fn tls_found(buf: Seq<u8>) -> Found {
    match extensions_start(buf) {
        None => None,
        Some(at) => {
            let end = lesser(at + word(buf, at - 2), buf.len() as int);
            match walk_extensions(buf, at, end, None, false) {
                (Some(name), h2) => Some(
                    (
                        Some(name),
                        if h2 {
                            "h2"@
                        } else {
                            "tls"@
                        },
                    ),
                ),
                _ => None,
            }
        },
    }
}

fn word_at(buf: &[u8], at: usize) -> (r: usize)
    requires
        at + 2 <= buf@.len(),
    ensures
        r == word(buf@, at as int),
        r <= 65535,
{
    let n: usize = buf.len();
    assert(at + 1 < n);
    checksum::be16(buf[at], buf[at + 1]) as usize
}

fn min_of(a: usize, b: usize) -> (r: usize)
    ensures
        r == lesser(a as int, b as int),
{
    if a < b {
        a
    } else {
        b
    }
}

/// Reads the server name in the data of a server name extension.
fn read_server_name(buf: &[u8], at: usize, end: usize) -> (r: Option<String>)
    requires
        at <= end <= buf@.len(),
    ensures
        r is Some <==> server_name(buf@, at as int, end as int) is Some,
        r matches Some(s) ==> s@ == server_name(buf@, at as int, end as int)->0,
{
    let n: usize = buf.len();
    if end - at < 3 {
        return None;
    }
    if buf[at + 2] != 0 || end - at < 5 {
        return None;
    }
    let len: usize = word_at(buf, at + 3);
    if len > end - at - 5 {
        return None;
    }
    match text::utf8_text(&buf[at + 5..at + 5 + len]) {
        Ok(name) => Some(name),
        Err(_) => None,
    }
}

/// Whether the data of a protocol negotiation extension offers `h2`.
fn read_offers_h2(buf: &[u8], at: usize, end: usize) -> (r: bool)
    requires
        at <= end <= buf@.len(),
        end + 70000 <= usize::MAX,
    ensures
        r == offers_h2(buf@, at as int, end as int),
{
    let total: usize = buf.len();
    if end - at < 2 {
        return false;
    }
    let list_end: usize = min_of(at + 2 + word_at(buf, at), end);
    let mut p: usize = at + 2;
    while p < list_end
        invariant
            total == buf@.len(),
            at + 2 <= p,
            p <= list_end || p == at + 2,
            at + 2 <= end,
            list_end <= end <= total,
            end + 70000 <= usize::MAX,
            list_end == lesser(at + 2 + word(buf@, at as int), end as int),
            lists_h2(buf@, at + 2, list_end as int) == lists_h2(buf@, p as int, list_end as int),
        decreases list_end - p,
    {
        let n: usize = buf[p] as usize;
        if p + 1 + n > list_end {
            return false;
        }
        let name: &[u8] = &buf[p + 1..p + 1 + n];
        if n == 2 && name[0] == 0x68 && name[1] == 0x32 {
            assert(name@ =~= seq![0x68u8, 0x32u8]);
            return true;
        }
        assert(name@ != seq![0x68u8, 0x32u8]) by {
            if name@ == seq![0x68u8, 0x32u8] {
                assert(name@.len() == 2);
                assert(name@[0] == 0x68 && name@[1] == 0x32);
            }
        }
        p = p + 1 + n;
    }
    false
}

/// Sniffs a TLS ClientHello.
pub fn try_tls(buf: &[u8]) -> (r: Option<SniffResult>)
    requires
        buf@.len() + 200000 <= usize::MAX,
    ensures
        found(r) == tls_found(buf@),
{
    let n: usize = buf.len();
    if n < 44 {
        return None;
    }
    if buf[0] != 0x16 || buf[1] != 0x03 {
        return None;
    }
    if buf[5] != 0x01 {
        return None;
    }
    let pos: usize = 44 + buf[43] as usize;
    if pos + 2 > n {
        return None;
    }
    let pos: usize = pos + 2 + word_at(buf, pos);
    if pos + 1 > n {
        return None;
    }
    let pos: usize = pos + 1 + buf[pos] as usize;
    if pos + 2 > n {
        return None;
    }
    let start: usize = pos + 2;
    let end: usize = min_of(start + word_at(buf, pos), n);
    let mut at: usize = start;
    let mut name: Option<String> = None;
    let mut h2: bool = false;
    let ghost goal = walk_extensions(buf@, start as int, end as int, None, false);
    while at + 4 <= end && !(name.is_some() && h2)
        invariant
            n == buf@.len(),
            n + 200000 <= usize::MAX,
            start <= at,
            at <= end || at == start,
            end <= n,
            at <= n,
            goal == walk_extensions(
                buf@,
                at as int,
                end as int,
                match name {
                    Some(s) => Some(s@),
                    None => None,
                },
                h2,
            ),
        decreases n - at,
    {
        let kind: usize = word_at(buf, at);
        let data: usize = at + 4;
        let data_end: usize = min_of(data + word_at(buf, at + 2), end);
        if kind == 0 {
            let here: Option<String> = read_server_name(buf, data, data_end);
            if here.is_some() {
                name = here;
            }
        } else if kind == 0x10 {
            if read_offers_h2(buf, data, data_end) {
                h2 = true;
            }
        }
        at = data_end;
    }
    match name {
        Some(domain) => {
            let protocol: &'static str = if h2 {
                "h2"
            } else {
                "tls"
            };
            Some(SniffResult { domain: Some(domain), protocol })
        },
        None => None,
    }
}

// HTTP

/// The first position at or after `from` at which a line ends in `t`, or -1.
pub open spec fn line_end(t: Seq<char>, from: int) -> int
    decreases t.len() - from,
{
    if from + 1 >= t.len() {
        -1
    } else if t[from] == '\r' && t[from + 1] == '\n' {
        from
    } else {
        line_end(t, from + 1)
    }
}

/// Whether `part` stands somewhere in `t`.
pub open spec fn occurs(t: Seq<char>, part: Seq<char>) -> bool {
    exists|i: int| 0 <= i <= t.len() - part.len() && #[trigger] t.subrange(i, i + part.len()) == part
}

/// The domain that a header line names, if it is a `Host` header that names
/// one: without white space and port, in small letters.
pub open spec fn host_of_line(line: Seq<char>) -> Option<Seq<char>> {
    let l = text::lowercase(line);
    if text::has_prefix(l, "host:"@) {
        let host = text::trimmed(l.skip("host:"@.len() as int));
        let domain = host.take(text::index_of(host, ':'));
        if domain.len() > 0 {
            Some(domain)
        } else {
            None
        }
    } else {
        None
    }
}

/// The domain of the first header line from `at` on that names one; headers
/// end with an empty line.
pub open spec fn host_in_headers(t: Seq<char>, at: int) -> Option<Seq<char>>
    decreases t.len() - at,
{
    if at < 0 || at > t.len() {
        None
    } else {
        let k = line_end(t, at);
        let line = if k < 0 {
            t.skip(at)
        } else {
            t.subrange(at, k)
        };
        proof {
            lemma_line_end(t, at);
        }
        if line.len() == 0 {
            None
        } else if host_of_line(line) is Some {
            host_of_line(line)
        } else if k < 0 {
            None
        } else {
            host_in_headers(t, k + 2)
        }
    }
}

/// What an HTTP request tells.
pub open spec fn http_found(buf: Seq<u8>) -> Found {
    if !vstd::utf8::valid_utf8(buf) {
        None
    } else {
        let t = vstd::utf8::decode_utf8(buf);
        let k = line_end(t, 0);
        if k < 0 || !occurs(t.take(k), " HTTP/"@) {
            None
        } else {
            match host_in_headers(t, k + 2) {
                Some(d) => Some((Some(d), "http"@)),
                None => None,
            }
        }
    }
}

pub proof fn lemma_line_end(t: Seq<char>, from: int)
    requires
        0 <= from <= t.len(),
    ensures
        line_end(t, from) == -1 || from <= line_end(t, from) <= t.len() - 2,
    decreases t.len() - from,
{
    if from + 1 < t.len() {
        lemma_line_end(t, from + 1);
    }
}

fn find_line_end(t: &[char], from: usize) -> (r: Option<usize>)
    requires
        from <= t@.len(),
    ensures
        r is Some <==> line_end(t@, from as int) >= 0,
        r matches Some(k) ==> k == line_end(t@, from as int) && from <= k && k + 2 <= t@.len(),
{
    let n: usize = t.len();
    proof {
        lemma_line_end(t@, from as int);
    }
    let mut i: usize = from;
    while n - i >= 2
        invariant
            n == t@.len(),
            from <= i <= n,
            line_end(t@, from as int) == line_end(t@, i as int),
        decreases n - i,
    {
        if t[i] == '\r' && t[i + 1] == '\n' {
            return Some(i);
        }
        i = i + 1;
    }
    None
}

/// Whether `part` stands somewhere in `t`.
pub(crate) fn contains_text(t: &[char], part: &str) -> (r: bool)
    ensures
        r == occurs(t@, part@),
{
    let p: Vec<char> = text::chars_of(part);
    let n: usize = t.len();
    let m: usize = p.len();
    if m > n {
        return false;
    }
    if m == 0 {
        assert(t@.subrange(0int, 0int + part@.len()) =~= part@);
        return true;
    }
    let mut i: usize = 0;
    while i <= n - m
        invariant
            n == t@.len(),
            m == p@.len(),
            p@ == part@,
            1 <= m <= n,
            i <= n - m + 1,
            forall|k: int| 0 <= k < i ==> #[trigger] t@.subrange(k, k + m) != part@,
        decreases n - m + 1 - i,
    {
        if text::same_chars(&t[i..i + m], &p) {
            assert(t@.subrange(i as int, i + m) == part@);
            return true;
        }
        i = i + 1;
    }
    false
}

/// The domain that a header line names.
fn read_host_of_line(line: &[char]) -> (r: Option<String>)
    ensures
        r is Some <==> host_of_line(line@) is Some,
        r matches Some(s) ==> s@ == host_of_line(line@)->0,
{
    let l: Vec<char> = text::lowercase_chars(line);
    match text::strip_prefix(&l, "host:") {
        Some(rest) => {
            let host: &[char] = text::trim(rest);
            let i: usize = text::find_from(host, ':', 0);
            assert(host@.subrange(0, i as int) =~= host@.take(i as int));
            if i > 0 {
                Some(text::string_of(&host[0..i]))
            } else {
                None
            }
        },
        None => None,
    }
}

/// Sniffs an HTTP/1.x request.
pub fn try_http_host(buf: &[u8]) -> (r: Option<SniffResult>)
    ensures
        found(r) == http_found(buf@),
{
    let whole: String = match text::utf8_text(buf) {
        Ok(s) => s,
        Err(_) => {
            return None;
        },
    };
    let t: Vec<char> = text::chars_of(whole.as_str());
    let n: usize = t.len();
    let first: usize = match find_line_end(&t, 0) {
        Some(k) => k,
        None => {
            return None;
        },
    };
    assert(t@.subrange(0, first as int) =~= t@.take(first as int));
    if !contains_text(text::slice_of(&t, 0, first), " HTTP/") {
        return None;
    }
    let mut at: usize = first + 2;
    loop
        invariant
            n == t@.len(),
            at <= n,
            vstd::utf8::valid_utf8(buf@),
            t@ == vstd::utf8::decode_utf8(buf@),
            first == line_end(t@, 0),
            occurs(t@.take(first as int), " HTTP/"@),
            host_in_headers(t@, first + 2) == host_in_headers(t@, at as int),
        decreases n - at,
    {
        let next: Option<usize> = find_line_end(&t, at);
        let end: usize = match next {
            Some(k) => k,
            None => n,
        };
        let line: &[char] = text::slice_of(&t, at, end);
        assert(next is None ==> line@ =~= t@.skip(at as int));
        if line.len() == 0 {
            return None;
        }
        if let Some(d) = read_host_of_line(line) {
            return Some(SniffResult { domain: Some(d), protocol: "http" });
        }
        match next {
            Some(k) => {
                at = k + 2;
            },
            None => {
                return None;
            },
        }
    }
}

// SSH and BitTorrent

/// Whether `s` begins with `prefix`.
pub open spec fn begins_with(s: Seq<u8>, prefix: Seq<u8>) -> bool {
    prefix.len() <= s.len() && s.take(prefix.len() as int) == prefix
}

fn bytes_begin_with(s: &[u8], prefix: &[u8]) -> (r: bool)
    ensures
        r == begins_with(s@, prefix@),
{
    if prefix.len() > s.len() {
        return false;
    }
    assert(s@.subrange(0, prefix@.len() as int) =~= s@.take(prefix@.len() as int));
    aes::same_bytes(&s[0..prefix.len()], prefix)
}

/// What a connection that begins like SSH tells.
pub open spec fn ssh_found(buf: Seq<u8>) -> Found {
    if begins_with(buf, vstd::utf8::encode_utf8("SSH-"@)) {
        Some((None, "ssh"@))
    } else {
        None
    }
}

/// What a connection that begins like BitTorrent tells: a byte of value 19 and
/// the name of the protocol.
pub open spec fn bittorrent_found(buf: Seq<u8>) -> Found {
    if buf.len() > 0 && buf[0] == 19 && begins_with(
        buf.skip(1),
        vstd::utf8::encode_utf8("BitTorrent protocol"@),
    ) {
        Some((None, "bittorrent"@))
    } else {
        None
    }
}

/// Sniffs an SSH connection.
pub fn try_ssh(buf: &[u8]) -> (r: Option<SniffResult>)
    ensures
        found(r) == ssh_found(buf@),
{
    if bytes_begin_with(buf, "SSH-".as_bytes()) {
        Some(SniffResult { domain: None, protocol: "ssh" })
    } else {
        None
    }
}

/// Sniffs a BitTorrent handshake.
pub fn try_bittorrent(buf: &[u8]) -> (r: Option<SniffResult>)
    ensures
        found(r) == bittorrent_found(buf@),
{
    let n: usize = buf.len();
    if n == 0 || buf[0] != 19 {
        return None;
    }
    assert(buf@.subrange(1, n as int) =~= buf@.skip(1));
    if bytes_begin_with(&buf[1..n], "BitTorrent protocol".as_bytes()) {
        Some(SniffResult { domain: None, protocol: "bittorrent" })
    } else {
        None
    }
}

// DNS

/// Whether `buf` looks like a DNS message: it holds a header, its opcode is at
/// most 5, and it asks something.
pub open spec fn looks_like_dns(buf: Seq<u8>) -> bool {
    buf.len() >= 12 && (buf[2] / 8) % 16 <= 5 && word(buf, 4) > 0
}

/// Whether `buf` looks like a DNS message.
pub fn is_dns_wire(buf: &[u8]) -> (r: bool)
    ensures
        r == looks_like_dns(buf@),
{
    if buf.len() < 12 {
        return false;
    }
    let opcode: u8 = (buf[2] / 8) % 16;
    if opcode > 5 {
        return false;
    }
    checksum::be16(buf[4], buf[5]) > 0
}

// QUIC

/// The salt of Initial packets of version 1.
pub const QUIC_V1_INITIAL_SALT: [u8; 20] = [
    0x38, 0x76, 0x2c, 0xf7, 0xf5, 0x59, 0x34, 0xb3, 0x4d, 0x17, 0x9a, 0xe6, 0xa4, 0xc8, 0x0c, 0xad,
    0xcc, 0xbb, 0x7f, 0x0a,
];

/// The salt of Initial packets of version 2.
pub const QUIC_V2_INITIAL_SALT: [u8; 20] = [
    0x0d, 0xed, 0xe3, 0xde, 0xf7, 0x00, 0xa6, 0xdb, 0x81, 0x93, 0x81, 0xbe, 0x6e, 0x26, 0x9d, 0xcb,
    0xf9, 0xbd, 0x2e, 0xd9,
];

/// The salt of Initial packets of draft 29.
pub const QUIC_DRAFT29_INITIAL_SALT: [u8; 20] = [
    0xaf, 0xbf, 0xec, 0x28, 0x99, 0x93, 0xd2, 0x4c, 0x9e, 0x97, 0x86, 0xf1, 0x9c, 0x61, 0x11, 0xe0,
    0x43, 0x90, 0xa8, 0x99,
];

/// The number of bytes of a variable-length integer with first byte `b`.
pub open spec fn varint_len(b: u8) -> int {
    if b < 64 {
        1
    } else if b < 128 {
        2
    } else if b < 192 {
        4
    } else {
        8
    }
}

/// The variable-length integer at `at` and its number of bytes. The two
/// highest bits of its first byte tell the length.
pub open spec fn varint(buf: Seq<u8>, at: int) -> Option<(nat, int)> {
    if at >= buf.len() || at + varint_len(buf[at]) > buf.len() {
        None
    } else {
        let n = varint_len(buf[at]);
        Some(
            (
                net::from_octets(seq![(buf[at] % 64) as u8] + buf.subrange(at + 1, at + n)),
                n,
            ),
        )
    }
}

/// Reads the variable-length integer at `pos`.
pub fn read_varint(buf: &[u8], pos: usize) -> (r: Option<(u64, usize)>)
    ensures
        r is Some <==> varint(buf@, pos as int) is Some,
        r matches Some((v, n)) ==> varint(buf@, pos as int) == Some((v as nat, n as int)) && 1 <= n
            && pos + n <= buf@.len(),
{
    let len: usize = buf.len();
    if pos >= len {
        return None;
    }
    let first: u8 = buf[pos];
    let n: usize = if first < 64 {
        1
    } else if first < 128 {
        2
    } else if first < 192 {
        4
    } else {
        8
    };
    if n > len - pos {
        return None;
    }
    let mut octets: Vec<u8> = Vec::new();
    octets.push(first % 64);
    sha256::push_bytes(&mut octets, &buf[pos + 1..pos + n]);
    proof {
        assert(octets@ =~= seq![(first % 64) as u8] + buf@.subrange(pos + 1, pos + n));
        net::lemma_from_octets_bound(octets@);
        reveal_with_fuel(net::pow256, 9);
        assert(net::pow256(octets@.len()) <= 0x1_0000_0000_0000_0000);
    }
    Some((net::number_of_octets(octets.as_slice()) as u64, n))
}

/// What is needed to decrypt an Initial packet: the connection id and the salt
/// that the keys are made of, whether the version is 2, where the packet
/// number begins, and where the packet ends.
pub ghost struct QuicInitial {
    pub dcid: Seq<u8>,
    pub salt: Seq<u8>,
    pub v2: bool,
    pub number_at: int,
    pub end: int,
}

/// The salt of a version, and whether it is version 2. Only versions 1 and 2
/// and draft 29 are known.
pub open spec fn version_salt(version: nat) -> Option<(Seq<u8>, bool)> {
    if version == 0x00000001 {
        Some((QUIC_V1_INITIAL_SALT@, false))
    } else if version == 0x6b3343cf {
        Some((QUIC_V2_INITIAL_SALT@, true))
    } else if version == 0xff00001d {
        Some((QUIC_DRAFT29_INITIAL_SALT@, false))
    } else {
        None
    }
}

/// The header of an Initial packet: long form with the fixed bit set, a known
/// version, the packet type of that version, a destination connection id of 1
/// to 20 bytes, a source connection id, a token and the length of the rest.
pub open spec fn quic_initial(buf: Seq<u8>) -> Option<QuicInitial> {
    if buf.len() < 6 || buf[0] < 192 {
        None
    } else {
        match version_salt(net::from_octets(buf.subrange(1, 5))) {
            None => None,
            Some((salt, v2)) => {
                let kind = (buf[0] / 16) % 4;
                let dlen = buf[5] as int;
                let slen_at = 6 + dlen;
                if kind != (if v2 {
                    1int
                } else {
                    0int
                }) || dlen == 0 || dlen > 20 || slen_at >= buf.len() {
                    None
                } else {
                    let token_at = slen_at + 1 + buf[slen_at];
                    match varint(buf, token_at) {
                        None => None,
                        Some((token, n1)) => {
                            let len_at = token_at + n1 + token;
                            match varint(buf, len_at) {
                                None => None,
                                Some((len, n2)) => {
                                    let number_at = len_at + n2;
                                    let end = lesser(number_at + len, buf.len() as int);
                                    if number_at >= end {
                                        None
                                    } else {
                                        Some(
                                            QuicInitial {
                                                dcid: buf.subrange(6, 6 + dlen),
                                                salt,
                                                v2,
                                                number_at,
                                                end,
                                            },
                                        )
                                    }
                                },
                            }
                        },
                    }
                }
            },
        }
    }
}

/// The bytes of an ASCII label.
pub open spec fn label(s: Seq<char>) -> Seq<u8> {
    vstd::utf8::encode_utf8(s)
}

/// The secret that a client's keys for Initial packets are made of.
pub open spec fn client_secret(dcid: Seq<u8>, salt: Seq<u8>) -> Seq<u8> {
    sha256::expand_label(sha256::hmac(salt, dcid), label("client in"@), Seq::empty(), 32)
}

/// Key, initialisation vector and header protection key of a secret.
pub open spec fn initial_keys(secret: Seq<u8>, v2: bool) -> (Seq<u8>, Seq<u8>, Seq<u8>) {
    (
        sha256::expand_label(
            secret,
            label(if v2 {
                "quicv2 key"@
            } else {
                "quic key"@
            }),
            Seq::empty(),
            16,
        ),
        sha256::expand_label(
            secret,
            label(if v2 {
                "quicv2 iv"@
            } else {
                "quic iv"@
            }),
            Seq::empty(),
            12,
        ),
        sha256::expand_label(
            secret,
            label(if v2 {
                "quicv2 hp"@
            } else {
                "quic hp"@
            }),
            Seq::empty(),
            16,
        ),
    )
}

/// A nonce: the packet number, right-aligned, combined with `iv` by exclusive
/// or.
pub open spec fn nonce_of(iv: Seq<u8>, number: Seq<u8>) -> Seq<u8> {
    Seq::new(
        12,
        |i: int|
            if i >= 12 - number.len() {
                iv[i] ^ number[i - (12 - number.len())]
            } else {
                iv[i]
            },
    )
}

/// The plaintext of a packet with the given keys, header and protected rest
/// from the packet number on, if it is authentic. The header protection is
/// taken off first byte and packet number; the header without protection is
/// the additional data.
pub open spec fn packet_plaintext(
    key: Seq<u8>,
    iv: Seq<u8>,
    hp: Seq<u8>,
    header: Seq<u8>,
    payload: Seq<u8>,
) -> Option<Seq<u8>> {
    let mask = aes::cipher(hp, payload.subrange(4, 20));
    let first = header[0] ^ (mask[0] % 16) as u8;
    let n = first % 4 + 1;
    let number = Seq::new(n as nat, |i: int| payload[i] ^ mask[1 + i]);
    let nonce = nonce_of(iv, number);
    let aad = seq![first] + header.skip(1) + number;
    let ciphertext = payload.subrange(n, payload.len() - 16);
    let tag = payload.skip(payload.len() - 16);
    if payload.len() >= 20 && tag == aes::gcm_tag_of(key, nonce, aad, ciphertext) {
        Some(aes::gcm_crypt(key, nonce, ciphertext))
    } else {
        None
    }
}

/// The plaintext of an Initial packet.
pub open spec fn quic_plaintext(
    dcid: Seq<u8>,
    salt: Seq<u8>,
    header: Seq<u8>,
    payload: Seq<u8>,
    v2: bool,
) -> Option<Seq<u8>> {
    let (key, iv, hp) = initial_keys(client_secret(dcid, salt), v2);
    packet_plaintext(key, iv, hp, header, payload)
}

/// What the frames of an Initial packet from `at` on tell. Padding is passed
/// over; the first frame with a ClientHello decides; any other frame ends the
/// search.
pub open spec fn frames_found(data: Seq<u8>, at: int) -> Found
    decreases data.len() - at,
{
    if at < 0 || at >= data.len() {
        None
    } else if data[at] == 0 {
        frames_found(data, at + 1)
    } else if data[at] == 6 {
        match varint(data, at + 1) {
            None => None,
            Some((_, n1)) => match varint(data, at + 1 + n1) {
                None => None,
                Some((len, n2)) => {
                    let from = at + 1 + n1 + n2;
                    let end = lesser(from + len, data.len() as int);
                    let crypto = data.subrange(from, end);
                    if end <= at {
                        None
                    } else if crypto.len() >= 4 && crypto[0] == 1 {
                        match tls_found(seq![0x16u8, 0x03, 0x03, 0x00, 0x00] + crypto) {
                            Some((domain, _)) => Some((domain, "quic"@)),
                            None => None,
                        }
                    } else {
                        frames_found(data, end)
                    }
                },
            },
        }
    } else {
        None
    }
}

/// What a QUIC packet tells.
pub open spec fn quic_found(buf: Seq<u8>) -> Found {
    match quic_initial(buf) {
        None => None,
        Some(q) => match quic_plaintext(
            q.dcid,
            q.salt,
            buf.take(q.number_at),
            buf.subrange(q.number_at, q.end),
            q.v2,
        ) {
            None => None,
            Some(p) => frames_found(p, 0),
        },
    }
}

proof fn lemma_label_len(s: Seq<char>)
    requires
        vstd::utf8::is_ascii_chars(s),
    ensures
        vstd::utf8::encode_utf8(s).len() == s.len(),
{
    vstd::utf8::is_ascii_chars_encode_utf8(s);
}

/// One of the keys of a secret.
fn derive(secret: &[u8], name: &str, len: usize) -> (r: Vec<u8>)
    requires
        secret@.len() == 32,
        name@.len() < 100,
        vstd::utf8::is_ascii_chars(name@),
        len <= 32,
    ensures
        r@ == sha256::expand_label(secret@, label(name@), Seq::empty(), len as nat),
        r@.len() == len,
{
    proof {
        lemma_label_len(name@);
    }
    let context: Vec<u8> = Vec::new();
    assert(context@ =~= Seq::<u8>::empty());
    match sha256::hkdf_expand_label_sha256(secret, name.as_bytes(), context.as_slice(), len) {
        Some(k) => k,
        None => Vec::new(),
    }
}

/// The keys for Initial packets of a client.
fn derive_initial_keys(dcid: &[u8], initial_salt: &[u8], is_v2: bool) -> (r: (
    Vec<u8>,
    Vec<u8>,
    Vec<u8>,
))
    requires
        dcid@.len() <= 20,
        initial_salt@.len() == 20,
    ensures
        (r.0@, r.1@, r.2@) == initial_keys(client_secret(dcid@, initial_salt@), is_v2),
        r.0@.len() == 16,
        r.1@.len() == 12,
        r.2@.len() == 16,
{
    proof {
        reveal_strlit("client in");
        reveal_strlit("quicv2 key");
        reveal_strlit("quicv2 iv");
        reveal_strlit("quicv2 hp");
        reveal_strlit("quic key");
        reveal_strlit("quic iv");
        reveal_strlit("quic hp");
    }
    let initial: Vec<u8> = sha256::hkdf_extract_sha256(initial_salt, dcid);
    let secret: Vec<u8> = derive(initial.as_slice(), "client in", 32);
    if is_v2 {
        (
            derive(secret.as_slice(), "quicv2 key", 16),
            derive(secret.as_slice(), "quicv2 iv", 12),
            derive(secret.as_slice(), "quicv2 hp", 16),
        )
    } else {
        (
            derive(secret.as_slice(), "quic key", 16),
            derive(secret.as_slice(), "quic iv", 12),
            derive(secret.as_slice(), "quic hp", 16),
        )
    }
}

/// The packet number without its protection.
fn unmask_number(payload: &[u8], mask: &[u8; 16], len: usize) -> (r: Vec<u8>)
    requires
        1 <= len <= 4,
        payload@.len() >= 20,
    ensures
        r@ == Seq::new(len as nat, |i: int| payload@[i] ^ mask@[1 + i]),
{
    let n: usize = payload.len();
    let mut number: Vec<u8> = Vec::new();
    let mut i: usize = 0;
    while i < len
        invariant
            len <= 4,
            n == payload@.len(),
            n >= 20,
            i <= len,
            number@.len() == i,
            forall|k: int| 0 <= k < i ==> number@[k] == payload@[k] ^ mask@[1 + k],
        decreases len - i,
    {
        number.push(payload[i] ^ mask[1 + i]);
        i = i + 1;
    }
    assert(number@ =~= Seq::new(len as nat, |i: int| payload@[i] ^ mask@[1 + i]));
    number
}

/// The nonce of a packet number.
fn make_nonce(iv: &Vec<u8>, number: &Vec<u8>) -> (r: Vec<u8>)
    requires
        iv@.len() == 12,
        1 <= number@.len() <= 4,
    ensures
        r@ == nonce_of(iv@, number@),
{
    let len: usize = number.len();
    let mut nonce: Vec<u8> = Vec::new();
    let mut k: usize = 0;
    while k < 12
        invariant
            k <= 12,
            1 <= len <= 4,
            iv@.len() == 12,
            number@.len() == len,
            nonce@.len() == k,
            forall|j: int| 0 <= j < k ==> nonce@[j] == nonce_of(iv@, number@)[j],
        decreases 12 - k,
    {
        if k >= 12 - len {
            nonce.push(iv[k] ^ number[k - (12 - len)]);
        } else {
            nonce.push(iv[k]);
        }
        k = k + 1;
    }
    assert(nonce@ =~= nonce_of(iv@, number@));
    nonce
}

/// Takes the protection off a packet and decrypts it.
fn decrypt_packet(key: &Vec<u8>, iv: &Vec<u8>, hp: &Vec<u8>, header: &[u8], payload: &[u8]) -> (r:
    Option<Vec<u8>>)
    requires
        key@.len() == 16,
        iv@.len() == 12,
        hp@.len() == 16,
        0 < header@.len() < 0x1000_0000_0000_0000,
        payload@.len() < 0x1000_0000_0000_0000,
    ensures
        r is Some <==> packet_plaintext(key@, iv@, hp@, header@, payload@) is Some,
        r matches Some(p) ==> p@ == packet_plaintext(key@, iv@, hp@, header@, payload@)->0,
{
    let n: usize = payload.len();
    if n < 20 {
        return None;
    }
    let sample: &[u8] = &payload[4..20];
    assert(sample@.take(16) =~= payload@.subrange(4, 20));
    let mask: [u8; 16] = match aes::aes128_ecb_block(hp.as_slice(), sample) {
        Some(m) => m,
        None => {
            return None;
        },
    };
    let first: u8 = header[0] ^ (mask[0] % 16);
    let len: usize = (first % 4 + 1) as usize;
    let number: Vec<u8> = unmask_number(payload, &mask, len);
    let nonce: Vec<u8> = make_nonce(iv, &number);
    let mut aad: Vec<u8> = Vec::new();
    aad.push(first);
    sha256::push_bytes(&mut aad, &header[1..header.len()]);
    sha256::push_bytes(&mut aad, number.as_slice());
    assert(aad@ =~= seq![first] + header@.skip(1) + number@);
    assert(payload@.subrange(n - 16, n as int) =~= payload@.skip(n - 16));
    aes::aes128_gcm_decrypt(
        key.as_slice(),
        nonce.as_slice(),
        aad.as_slice(),
        &payload[len..n - 16],
        &payload[n - 16..n],
    )
}

/// Decrypts an Initial packet; `header` is what stands before the packet
/// number and `payload` the rest.
pub fn decrypt_quic_initial(
    dcid: &[u8],
    initial_salt: &[u8],
    header: &[u8],
    payload: &[u8],
    is_v2: bool,
) -> (r: Option<Vec<u8>>)
    requires
        dcid@.len() <= 20,
        initial_salt@.len() == 20,
        0 < header@.len() < 0x1000_0000_0000_0000,
        payload@.len() < 0x1000_0000_0000_0000,
    ensures
        r is Some <==> quic_plaintext(dcid@, initial_salt@, header@, payload@, is_v2) is Some,
        r matches Some(p) ==> p@ == quic_plaintext(
            dcid@,
            initial_salt@,
            header@,
            payload@,
            is_v2,
        )->0,
{
    let keys: (Vec<u8>, Vec<u8>, Vec<u8>) = derive_initial_keys(dcid, initial_salt, is_v2);
    decrypt_packet(&keys.0, &keys.1, &keys.2, header, payload)
}

/// Looks for a ClientHello in the frames of an Initial packet.
pub fn extract_sni_from_quic_crypto(data: &[u8]) -> (r: Option<SniffResult>)
    requires
        data@.len() + 300000 <= usize::MAX,
    ensures
        found(r) == frames_found(data@, 0),
{
    let n: usize = data.len();
    let mut at: usize = 0;
    while at < n
        invariant
            n == data@.len(),
            n + 300000 <= usize::MAX,
            at <= n,
            frames_found(data@, 0) == frames_found(data@, at as int),
        decreases n - at,
    {
        let kind: u8 = data[at];
        if kind == 0 {
            at = at + 1;
        } else if kind == 6 {
            let (_, n1): (u64, usize) = match read_varint(data, at + 1) {
                Some(v) => v,
                None => {
                    return None;
                },
            };
            let (len, n2): (u64, usize) = match read_varint(data, at + 1 + n1) {
                Some(v) => v,
                None => {
                    return None;
                },
            };
            let from: usize = at + 1 + n1 + n2;
            let end: usize = if len < (n - from) as u64 {
                from + len as usize
            } else {
                n
            };
            let crypto: &[u8] = &data[from..end];
            if crypto.len() >= 4 && crypto[0] == 1 {
                let mut record: Vec<u8> = Vec::new();
                record.push(0x16);
                record.push(0x03);
                record.push(0x03);
                record.push(0x00);
                record.push(0x00);
                sha256::push_bytes(&mut record, crypto);
                assert(record@ =~= seq![0x16u8, 0x03, 0x03, 0x00, 0x00] + crypto@);
                return match try_tls(record.as_slice()) {
                    Some(r) => Some(SniffResult { domain: r.domain, protocol: "quic" }),
                    None => None,
                };
            }
            at = end;
        } else {
            return None;
        }
    }
    None
}

fn salt_of(version: u32) -> (r: Option<(Vec<u8>, bool)>)
    ensures
        r is Some <==> version_salt(version as nat) is Some,
        r matches Some((s, v2)) ==> version_salt(version as nat) == Some((s@, v2)) && s@.len()
            == 20,
{
    if version == 0x00000001 {
        Some((vstd::slice::slice_to_vec(&QUIC_V1_INITIAL_SALT), false))
    } else if version == 0x6b3343cf {
        Some((vstd::slice::slice_to_vec(&QUIC_V2_INITIAL_SALT), true))
    } else if version == 0xff00001d {
        Some((vstd::slice::slice_to_vec(&QUIC_DRAFT29_INITIAL_SALT), false))
    } else {
        None
    }
}

/// The header of an Initial packet.
struct InitialHeader {
    salt: Vec<u8>,
    is_v2: bool,
    dcid_len: usize,
    number_at: usize,
    end: usize,
}

/// Reads the header of an Initial packet.
fn read_quic_initial(buf: &[u8]) -> (r: Option<InitialHeader>)
    requires
        buf@.len() + 300000 <= usize::MAX,
    ensures
        r is Some <==> quic_initial(buf@) is Some,
        r matches Some(h) ==> {
            &&& quic_initial(buf@) == Some(
                QuicInitial {
                    dcid: buf@.subrange(6, 6 + h.dcid_len),
                    salt: h.salt@,
                    v2: h.is_v2,
                    number_at: h.number_at as int,
                    end: h.end as int,
                },
            )
            &&& h.salt@.len() == 20
            &&& 1 <= h.dcid_len <= 20
            &&& 6 + h.dcid_len <= h.number_at < h.end <= buf@.len()
        },
{
    let n: usize = buf.len();
    if n < 6 || buf[0] < 192 {
        return None;
    }
    let version: u32 = net::v4_of_octets(&buf[1..5]);
    let (salt, is_v2): (Vec<u8>, bool) = match salt_of(version) {
        Some(s) => s,
        None => {
            return None;
        },
    };
    let kind: u8 = (buf[0] / 16) % 4;
    let expected: u8 = if is_v2 {
        1
    } else {
        0
    };
    let dlen: usize = buf[5] as usize;
    if kind != expected || dlen == 0 || dlen > 20 || 6 + dlen >= n {
        return None;
    }
    let token_at: usize = 7 + dlen + buf[6 + dlen] as usize;
    let (token, n1): (u64, usize) = match read_varint(buf, token_at) {
        Some(v) => v,
        None => {
            return None;
        },
    };
    if token > (n - token_at - n1) as u64 {
        assert(varint(buf@, token_at + n1 + token) is None);
        return None;
    }
    let len_at: usize = token_at + n1 + token as usize;
    let (len, n2): (u64, usize) = match read_varint(buf, len_at) {
        Some(v) => v,
        None => {
            return None;
        },
    };
    let number_at: usize = len_at + n2;
    let end: usize = if len < (n - number_at) as u64 {
        number_at + len as usize
    } else {
        n
    };
    if number_at >= end {
        return None;
    }
    Some(InitialHeader { salt, is_v2, dcid_len: dlen, number_at, end })
}

/// Sniffs a QUIC Initial packet.
pub fn try_quic(buf: &[u8]) -> (r: Option<SniffResult>)
    requires
        buf@.len() + 300000 <= usize::MAX,
        buf@.len() < 0x1000_0000_0000_0000,
    ensures
        found(r) == quic_found(buf@),
{
    let h: InitialHeader = match read_quic_initial(buf) {
        Some(h) => h,
        None => {
            return None;
        },
    };
    assert(buf@.subrange(0, h.number_at as int) =~= buf@.take(h.number_at as int));
    match decrypt_quic_initial(
        &buf[6..6 + h.dcid_len],
        h.salt.as_slice(),
        &buf[0..h.number_at],
        &buf[h.number_at..h.end],
        h.is_v2,
    ) {
        Some(p) => {
            assert(p@.len() <= buf@.len());
            extract_sni_from_quic_crypto(p.as_slice())
        },
        None => None,
    }
}

// All protocols

/// What the bytes tell if they are taken for one protocol.
#[verifier::opaque]
pub open spec fn found_as(kind: SniffType, data: Seq<u8>) -> Found {
    match kind {
        SniffType::Tls => tls_found(data),
        SniffType::Http => http_found(data),
        SniffType::Quic => quic_found(data),
        SniffType::Ssh => ssh_found(data),
        SniffType::BitTorrent => bittorrent_found(data),
    }
}

/// What the first protocol of a list that fits tells.
pub open spec fn first_found(kinds: Seq<SniffType>, data: Seq<u8>) -> Found
    decreases kinds.len(),
{
    if kinds.len() == 0 {
        None
    } else if found_as(kinds[0], data) is Some {
        found_as(kinds[0], data)
    } else {
        first_found(kinds.skip(1), data)
    }
}

/// The protocols to try: all of them if none are named.
pub open spec fn effective_types(kinds: Seq<SniffType>) -> Seq<SniffType> {
    if kinds.len() == 0 {
        default_types()
    } else {
        kinds
    }
}

/// Takes the bytes for one protocol.
fn sniff_as(kind: SniffType, data: &[u8]) -> (r: Option<SniffResult>)
    requires
        data@.len() + 300000 <= usize::MAX,
        data@.len() < 0x1000_0000_0000_0000,
    ensures
        found(r) == found_as(kind, data@),
{
    proof {
        reveal(found_as);
    }
    match kind {
        SniffType::Tls => try_tls(data),
        SniffType::Http => try_http_host(data),
        SniffType::Quic => try_quic(data),
        SniffType::Ssh => try_ssh(data),
        SniffType::BitTorrent => try_bittorrent(data),
    }
}

fn sniff_list(data: &[u8], kinds: &[SniffType]) -> (r: Option<SniffResult>)
    requires
        data@.len() + 300000 <= usize::MAX,
        data@.len() < 0x1000_0000_0000_0000,
    ensures
        found(r) == first_found(kinds@, data@),
{
    let mut i: usize = 0;
    assert(kinds@.skip(0) =~= kinds@);
    while i < kinds.len()
        invariant
            data@.len() + 300000 <= usize::MAX,
            data@.len() < 0x1000_0000_0000_0000,
            i <= kinds@.len(),
            first_found(kinds@, data@) == first_found(kinds@.skip(i as int), data@),
        decreases kinds@.len() - i,
    {
        let r: Option<SniffResult> = sniff_as(kinds[i], data);
        assert(kinds@.skip(i as int)[0] == kinds@[i as int]);
        assert(kinds@.skip(i as int).skip(1) =~= kinds@.skip(i + 1));
        if r.is_some() {
            return r;
        }
        i = i + 1;
    }
    assert(kinds@.skip(i as int).len() == 0);
    None
}

/// Sniffs the first bytes of a stream, trying the protocols in order.
pub fn sniff_bytes(data: &[u8], sniff_types: &[SniffType]) -> (r: Option<SniffResult>)
    requires
        data@.len() + 300000 <= usize::MAX,
        data@.len() < 0x1000_0000_0000_0000,
    ensures
        found(r) == first_found(effective_types(sniff_types@), data@),
{
    if sniff_types.len() == 0 {
        sniff_list(data, SniffType::defaults().as_slice())
    } else {
        sniff_list(data, sniff_types)
    }
}

/// Milliseconds for which sniffing waits; zero stands for the default.
pub fn sniff_timeout_ms(timeout_ms: u64) -> (r: u64)
    ensures
        r == (if timeout_ms == 0 {
            DEFAULT_TIMEOUT_MS
        } else {
            timeout_ms
        }),
{
    if timeout_ms == 0 {
        DEFAULT_TIMEOUT_MS
    } else {
        timeout_ms
    }
}

/// What a datagram is found to be: only QUIC is looked for, and only if it is
/// among the protocols to try.
pub open spec fn packet_found(kinds: Seq<SniffType>, data: Seq<u8>) -> Found {
    if effective_types(kinds).contains(SniffType::Quic) {
        quic_found(data)
    } else {
        None
    }
}

/// Sniffs a datagram: only QUIC is looked for, and only if it is among the
/// protocols to try.
pub fn sniff_packet(data: &[u8], sniff_types: &[SniffType]) -> (r: Option<SniffResult>)
    requires
        data@.len() + 300000 <= usize::MAX,
        data@.len() < 0x1000_0000_0000_0000,
    ensures
        found(r) == packet_found(sniff_types@, data@),
{
    let mut wanted: bool = sniff_types.len() == 0;
    proof {
        if wanted {
            assert(default_types()[2] == SniffType::Quic);
        }
    }
    let mut i: usize = 0;
    while i < sniff_types.len()
        invariant
            i <= sniff_types@.len(),
            wanted == (sniff_types@.len() == 0 || exists|k: int|
                0 <= k < i && sniff_types@[k] == SniffType::Quic),
        decreases sniff_types@.len() - i,
    {
        if sniff_types[i] == SniffType::Quic {
            wanted = true;
        }
        i = i + 1;
    }
    if wanted {
        try_quic(data)
    } else {
        None
    }
}

/// The first protocol of the list that fits decides, whatever follows it.
pub proof fn law_first_match_wins(kinds: Seq<SniffType>, data: Seq<u8>, i: int)
    requires
        0 <= i < kinds.len(),
        found_as(kinds[i], data) is Some,
        forall|k: int| 0 <= k < i ==> found_as(#[trigger] kinds[k], data) is None,
    ensures
        first_found(kinds, data) == found_as(kinds[i], data),
    decreases i,
{
    if i > 0 {
        assert(found_as(kinds[0], data) is None);
        assert forall|k: int| 0 <= k < i - 1 implies found_as(
            #[trigger] kinds.skip(1)[k],
            data,
        ) is None by {
            assert(kinds.skip(1)[k] == kinds[k + 1]);
        }
        law_first_match_wins(kinds.skip(1), data, i - 1);
    }
}

/// For a datagram it only matters whether QUIC is among the protocols to try:
/// no list at all stands for the defaults, a list without QUIC finds nothing,
/// and any two lists with QUIC find the same.
pub proof fn law_only_quic_matters(kinds: Seq<SniffType>, others: Seq<SniffType>, data: Seq<u8>)
    ensures
        packet_found(Seq::empty(), data) == packet_found(default_types(), data),
        packet_found(default_types(), data) == quic_found(data),
        kinds.len() > 0 && !kinds.contains(SniffType::Quic) ==> packet_found(kinds, data) is None,
        kinds.contains(SniffType::Quic) && others.contains(SniffType::Quic) ==> packet_found(
            kinds,
            data,
        ) == packet_found(others, data),
{
    assert(default_types()[2] == SniffType::Quic);
    assert(default_types().contains(SniffType::Quic));
}

} // verus!
