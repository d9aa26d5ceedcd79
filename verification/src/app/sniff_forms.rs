//! How the first bytes of HTTP, SSH, BitTorrent, DNS and QUIC are written (RFC
//! 9112, RFC 4253, BEP 3, RFC 1035, RFC 9000, RFC 9369), and that sniffing finds
//! in them what was written.
use vstd::prelude::*;
use crate::app::client_hello;
use crate::app::sniff;
use crate::crypto::aes;
use crate::inbound::tun::forms;
use crate::net;
use crate::text;

verus! {

// HTTP

/// Whether a text is `host`, in whatever letters.
pub open spec fn names_host(name: Seq<char>) -> bool {
    &&& name.len() == 4
    &&& name[0] == 'h' || name[0] == 'H'
    &&& name[1] == 'o' || name[1] == 'O'
    &&& name[2] == 's' || name[2] == 'S'
    &&& name[3] == 't' || name[3] == 'T'
}

/// Whether a line is a header with the name `host`.
pub open spec fn is_host_line(line: Seq<char>) -> bool {
    line.len() >= 5 && names_host(line.take(4)) && line[4] == ':'
}

/// Lines, each with its end.
pub open spec fn lines(l: Seq<Seq<char>>) -> Seq<char>
    decreases l.len(),
{
    if l.len() == 0 {
        Seq::empty()
    } else {
        l[0] + seq!['\r', '\n'] + lines(l.skip(1))
    }
}

/// A request: its first line, its headers, an empty line, and its content.
pub open spec fn request(first: Seq<char>, headers: Seq<Seq<char>>, content: Seq<char>) -> Seq<char> {
    first + seq!['\r', '\n'] + lines(headers) + seq!['\r', '\n'] + content
}

/// Whether a text can stand between the name of a header and its value, or
/// behind it.
pub open spec fn is_gap(s: Seq<char>) -> bool {
    forall|i: int| 0 <= i < s.len() ==> #[trigger] s[i] == ' ' || s[i] == '\t'
}

/// Whether a text is the name of a host: not empty, and without white space,
/// colon and line end.
pub open spec fn is_host(s: Seq<char>) -> bool {
    &&& s.len() > 0
    &&& forall|i: int|
        0 <= i < s.len() ==> !text::is_space(#[trigger] s[i]) && s[i] != ':' && s[i] != '\r'
}

/// Whether a text is a colon and digits, or nothing.
pub open spec fn is_port(s: Seq<char>) -> bool {
    s.len() == 0 || (s[0] == ':' && forall|i: int|
        1 <= i < s.len() ==> '0' <= #[trigger] s[i] && s[i] <= '9')
}

proof fn lemma_line(t: Seq<char>, at: int, line: Seq<char>)
    requires
        0 <= at,
        at + line.len() + 2 <= t.len(),
        t.subrange(at, at + line.len()) == line,
        t[at + line.len()] == '\r',
        t[at + line.len() + 1] == '\n',
        !line.contains('\r'),
    ensures
        sniff::line_end(t, at) == at + line.len(),
    decreases line.len(),
{
    if line.len() > 0 {
        assert(line.contains(line[0]));
        assert(t[at] == t.subrange(at, at + line.len())[0]);
        let rest = line.skip(1);
        assert(t.subrange(at + 1, at + 1 + rest.len()) =~= rest) by {
            assert forall|i: int| 0 <= i < rest.len() implies t[at + 1 + i] == rest[i] by {
                assert(t.subrange(at, at + line.len())[i + 1] == line[i + 1]);
            }
        }
        if rest.contains('\r') {
            let i = choose|i: int| 0 <= i < rest.len() && rest[i] == '\r';
            assert(line[i + 1] == '\r');
        }
        lemma_line(t, at + 1, rest);
    }
}

proof fn lemma_lower(c: char)
    ensures
        text::is_space(text::lower(c)) == text::is_space(c),
        text::lower(c) == ':' <==> c == ':',
        text::lower(c) == '\r' <==> c == '\r',
        text::lower(c) == 'h' <==> c == 'h' || c == 'H',
        text::lower(c) == 'o' <==> c == 'o' || c == 'O',
        text::lower(c) == 's' <==> c == 's' || c == 'S',
        text::lower(c) == 't' <==> c == 't' || c == 'T',
{
}

proof fn lemma_host_prefix(line: Seq<char>)
    ensures
        text::has_prefix(text::lowercase(line), "host:"@) <==> is_host_line(line),
{
    reveal_strlit("host:");
    let l = text::lowercase(line);
    if line.len() >= 5 {
        let h = l.take(5);
        assert forall|i: int| 0 <= i < 5 implies h[i] == text::lower(line[i]) by {
        }
        lemma_lower(line[0]);
        lemma_lower(line[1]);
        lemma_lower(line[2]);
        lemma_lower(line[3]);
        lemma_lower(line[4]);
        if is_host_line(line) {
            assert(line.take(4)[0] == line[0] && line.take(4)[1] == line[1] && line.take(4)[2]
                == line[2] && line.take(4)[3] == line[3]);
            assert(h =~= "host:"@);
        }
        if h == "host:"@ {
            assert(h[0] == 'h' && h[1] == 'o' && h[2] == 's' && h[3] == 't' && h[4] == ':');
        }
    }
}

pub(crate) proof fn lemma_trimmed_start(gap: Seq<char>, s: Seq<char>)
    requires
        forall|i: int| 0 <= i < gap.len() ==> text::is_space(#[trigger] gap[i]),
        s.len() > 0,
        !text::is_space(s[0]),
    ensures
        text::trimmed_start(gap + s) == s,
    decreases gap.len(),
{
    if gap.len() == 0 {
        assert(gap + s =~= s);
    } else {
        assert((gap + s)[0] == gap[0]);
        assert((gap + s).skip(1) =~= gap.skip(1) + s);
        assert forall|i: int| 0 <= i < gap.skip(1).len() implies text::is_space(
            #[trigger] gap.skip(1)[i],
        ) by {
            assert(gap.skip(1)[i] == gap[i + 1]);
        }
        lemma_trimmed_start(gap.skip(1), s);
    }
}

pub(crate) proof fn lemma_trimmed_end(s: Seq<char>, gap: Seq<char>)
    requires
        forall|i: int| 0 <= i < gap.len() ==> text::is_space(#[trigger] gap[i]),
        s.len() > 0,
        !text::is_space(s.last()),
    ensures
        text::trimmed_end(s + gap) == s,
    decreases gap.len(),
{
    if gap.len() == 0 {
        assert(s + gap =~= s);
    } else {
        assert((s + gap).last() == gap.last());
        assert((s + gap).drop_last() =~= s + gap.drop_last());
        lemma_trimmed_end(s, gap.drop_last());
    }
}

proof fn lemma_host_line(
    name: Seq<char>,
    gap: Seq<char>,
    host: Seq<char>,
    port: Seq<char>,
    tail: Seq<char>,
)
    requires
        names_host(name),
        is_gap(gap),
        is_gap(tail),
        is_host(host),
        is_port(port),
    ensures
        ({
            let line = name + seq![':'] + gap + host + port + tail;
            sniff::host_of_line(line) == Some(text::lowercase(host)) && is_host_line(line)
        }),
{
    reveal_strlit("host:");
    let line = name + seq![':'] + gap + host + port + tail;
    let value = host + port;
    assert(line.take(4) =~= name);
    assert(line[4] == ':');
    lemma_host_prefix(line);
    let l = text::lowercase(line);
    let lg = text::lowercase(gap);
    let lv = text::lowercase(value);
    let lt = text::lowercase(tail);
    assert(l.skip(5) =~= lg + lv + lt);
    assert forall|i: int| 0 <= i < lg.len() implies text::is_space(#[trigger] lg[i]) by {
        assert(gap[i] == ' ' || gap[i] == '\t');
        lemma_lower(gap[i]);
    }
    assert forall|i: int| 0 <= i < lt.len() implies text::is_space(#[trigger] lt[i]) by {
        assert(tail[i] == ' ' || tail[i] == '\t');
        lemma_lower(tail[i]);
    }
    assert(value[0] == host[0]);
    lemma_lower(value[0]);
    lemma_lower(value.last());
    if port.len() == 0 {
        assert(value =~= host);
        assert(value.last() == host.last());
    } else {
        assert(value.last() == port.last());
        assert(port.last() == port[port.len() - 1]);
    }
    assert(lv.last() == text::lower(value.last()));
    assert(lg + lv + lt =~= lg + (lv + lt));
    lemma_trimmed_start(lg, lv + lt);
    lemma_trimmed_end(lv, lt);
    assert forall|k: int| 0 <= k < host.len() implies lv[k] != ':' by {
        assert(value[k] == host[k]);
        lemma_lower(host[k]);
    }
    if port.len() > 0 {
        assert(value[host.len() as int] == port[0]);
        lemma_lower(port[0]);
    }
    text::lemma_index_of(lv, ':', host.len() as int);
    assert(lv.take(host.len() as int) =~= text::lowercase(host));
}

proof fn lemma_headers(
    t: Seq<char>,
    at: int,
    headers: Seq<Seq<char>>,
    k: int,
    content: Seq<char>,
)
    requires
        0 <= at <= t.len(),
        t.skip(at) == lines(headers) + seq!['\r', '\n'] + content,
        forall|i: int|
            0 <= i < headers.len() ==> (#[trigger] headers[i]).len() > 0 && !headers[i].contains(
                '\r',
            ),
        0 <= k <= headers.len(),
        forall|i: int| 0 <= i < k ==> !is_host_line(#[trigger] headers[i]),
        k < headers.len() ==> sniff::host_of_line(headers[k]) is Some,
    ensures
        sniff::host_in_headers(t, at) == (if k < headers.len() {
            sniff::host_of_line(headers[k])
        } else {
            None
        }),
    decreases headers.len(),
{
    let crlf = seq!['\r', '\n'];
    let rest = t.skip(at);
    if headers.len() == 0 {
        assert(rest =~= crlf + content);
        assert(t[at] == rest[0] && t[at + 1] == rest[1]);
        assert(t.subrange(at, at) =~= Seq::<char>::empty());
        lemma_line(t, at, Seq::empty());
    } else {
        let line = headers[0];
        let n = line.len() as int;
        let after = lines(headers.skip(1)) + crlf + content;
        assert(rest =~= line + crlf + after);
        assert forall|i: int| 0 <= i < rest.len() implies t[at + i] == rest[i] by {
        }
        assert(t.subrange(at, at + n) =~= line);
        assert(t[at + n] == rest[n] && t[at + n + 1] == rest[n + 1]);
        assert(headers[0].len() > 0);
        lemma_line(t, at, line);
        if k > 0 {
            lemma_host_prefix(line);
            assert(t.skip(at + n + 2) =~= rest.skip(n + 2));
            assert(rest.skip(n + 2) =~= after);
            let h2 = headers.skip(1);
            assert forall|i: int| 0 <= i < h2.len() implies (#[trigger] h2[i]).len() > 0
                && !h2[i].contains('\r') by {
                assert(h2[i] == headers[i + 1]);
            }
            assert forall|i: int| 0 <= i < k - 1 implies !is_host_line(#[trigger] h2[i]) by {
                assert(h2[i] == headers[i + 1]);
            }
            if k < headers.len() {
                assert(h2[k - 1] == headers[k]);
            }
            lemma_headers(t, at + n + 2, h2, k - 1, content);
        }
    }
}

/// The host that a client writes in its request is found, whatever the first
/// line, the headers before and behind and the content are: the value of the
/// first header with the name `host`, in whatever letters, without the port, in
/// small letters. Without such a header nothing is found.
pub proof fn law_http_host_is_found(
    front: Seq<char>,
    version: Seq<char>,
    headers: Seq<Seq<char>>,
    content: Seq<char>,
    k: int,
    name: Seq<char>,
    gap: Seq<char>,
    host: Seq<char>,
    port: Seq<char>,
    tail: Seq<char>,
)
    requires
        !front.contains('\r'),
        !version.contains('\r'),
        forall|i: int|
            0 <= i < headers.len() ==> (#[trigger] headers[i]).len() > 0 && !headers[i].contains(
                '\r',
            ),
        0 <= k <= headers.len(),
        forall|i: int| 0 <= i < k ==> !is_host_line(#[trigger] headers[i]),
        k < headers.len() ==> names_host(name) && is_gap(gap) && is_host(host) && is_port(port)
            && is_gap(tail) && headers[k] == name + seq![':'] + gap + host + port + tail,
    ensures
        sniff::http_found(
            vstd::utf8::encode_utf8(request(front + " HTTP/"@ + version, headers, content)),
        ) == (if k < headers.len() {
            Some((Some(text::lowercase(host)), "http"@))
        } else {
            None
        }),
{
    reveal_strlit(" HTTP/");
    let first = front + " HTTP/"@ + version;
    let t = request(first, headers, content);
    let n = first.len() as int;
    let m = front.len() as int;
    vstd::utf8::encode_utf8_valid_utf8(t);
    vstd::utf8::encode_utf8_decode_utf8(t);
    if first.contains('\r') {
        let i = choose|i: int| 0 <= i < first.len() && first[i] == '\r';
        if i < m {
            assert(front[i] == '\r');
        } else if i >= m + 6 {
            assert(version[i - m - 6] == '\r');
        }
    }
    assert(t.subrange(0, n) =~= first);
    assert(t.take(n) =~= first);
    assert(t[n] == '\r' && t[n + 1] == '\n');
    lemma_line(t, 0, first);
    assert(first.subrange(m, m + 6) =~= " HTTP/"@);
    assert(sniff::occurs(t.take(n), " HTTP/"@));
    assert(t.skip(n + 2) =~= lines(headers) + seq!['\r', '\n'] + content);
    if k < headers.len() {
        lemma_host_line(name, gap, host, port, tail);
    }
    lemma_headers(t, n + 2, headers, k, content);
}

// SSH and BitTorrent

/// SSH is found exactly in what begins with the bytes of `SSH-`.
pub proof fn law_ssh_begins_so(buf: Seq<u8>)
    ensures
        sniff::ssh_found(buf) == (if buf.len() >= 4 && buf[0] == 0x53 && buf[1] == 0x53 && buf[2]
            == 0x48 && buf[3] == 0x2d {
            Some((None::<Seq<char>>, "ssh"@))
        } else {
            None
        }),
{
    reveal_strlit("SSH-");
    vstd::utf8::is_ascii_chars_encode_utf8("SSH-"@);
    let p = vstd::utf8::encode_utf8("SSH-"@);
    assert("SSH-"@[0] as u8 == p[0] && "SSH-"@[1] as u8 == p[1] && "SSH-"@[2] as u8 == p[2]
        && "SSH-"@[3] as u8 == p[3]);
    if buf.len() >= 4 {
        let h = buf.take(4);
        if h == p {
            assert(h[0] == p[0] && h[1] == p[1] && h[2] == p[2] && h[3] == p[3]);
        }
        if buf[0] == 0x53 && buf[1] == 0x53 && buf[2] == 0x48 && buf[3] == 0x2d {
            assert(h =~= p);
        }
    }
}

/// The bytes that a BitTorrent handshake begins with.
pub open spec fn bittorrent_front() -> Seq<u8> {
    seq![
        0x13u8, 0x42, 0x69, 0x74, 0x54, 0x6f, 0x72, 0x72, 0x65, 0x6e, 0x74, 0x20, 0x70, 0x72, 0x6f,
        0x74, 0x6f, 0x63, 0x6f, 0x6c,
    ]
}

/// BitTorrent is found exactly in what begins with its handshake.
pub proof fn law_bittorrent_begins_so(buf: Seq<u8>)
    ensures
        sniff::bittorrent_found(buf) == (if bittorrent_front().is_prefix_of(buf) {
            Some((None::<Seq<char>>, "bittorrent"@))
        } else {
            None
        }),
{
    reveal_strlit("BitTorrent protocol");
    let s = "BitTorrent protocol"@;
    vstd::utf8::is_ascii_chars_encode_utf8(s);
    let p = vstd::utf8::encode_utf8(s);
    let f = bittorrent_front();
    assert forall|i: int| 0 <= i < 19 implies p[i] == f[i + 1] by {
        assert(s[i] as u8 == p[i]);
    }
    if buf.len() >= 20 {
        assert(buf.skip(1).take(19) =~= buf.subrange(1, 20));
        if f.is_prefix_of(buf) {
            assert(buf.subrange(0, 20) == f);
            assert forall|i: int| 0 <= i < 20 implies buf[i] == f[i] by {
                assert(buf.subrange(0, 20)[i] == buf[i]);
            }
            assert(buf.skip(1).take(19) =~= p);
        }
        if buf[0] == 19 && buf.skip(1).take(19) == p {
            assert forall|i: int| 0 <= i < 20 implies buf.subrange(0, 20)[i] == f[i] by {
                if i > 0 {
                    assert(buf.skip(1).take(19)[i - 1] == buf[i]);
                }
            }
            assert(buf.subrange(0, 20) =~= f);
        }
    }
}

// DNS

/// The header of a DNS message: its identifier, its flags, its operation, its
/// code and its counts.
pub open spec fn dns_header(
    id: u16,
    response: bool,
    operation: int,
    low: int,
    code: u8,
    questions: u16,
    counts: Seq<u8>,
) -> Seq<u8> {
    forms::two_bytes(id as int) + seq![
        ((if response {
            128int
        } else {
            0
        }) + operation * 8 + low) as u8,
        code,
    ] + forms::two_bytes(questions as int) + counts
}

/// A message is taken for DNS exactly if it asks something and its operation is
/// at most 5, whatever else its header says.
pub proof fn law_dns_is_known_by_its_header(
    id: u16,
    response: bool,
    operation: int,
    low: int,
    code: u8,
    questions: u16,
    counts: Seq<u8>,
)
    requires
        0 <= operation < 16,
        0 <= low < 8,
    ensures
        sniff::looks_like_dns(dns_header(id, response, operation, low, code, questions, counts))
            <==> operation <= 5 && questions > 0 && counts.len() >= 6,
{
    let h = dns_header(id, response, operation, low, code, questions, counts);
    assert(h.len() == 6 + counts.len());
    let f = (if response {
        128int
    } else {
        0
    }) + operation * 8 + low;
    assert(0 <= f < 256);
    assert(h[2] == f as u8);
    assert((f / 8) % 16 == operation);
    assert(sniff::word(h, 4) == questions);
}

// QUIC

/// The number of values that `k` bytes can have.
pub open spec fn span(k: int) -> int
    decreases k,
{
    if k <= 0 {
        1
    } else {
        256 * span(k - 1)
    }
}

/// A variable-length integer in `k` bytes: the two highest bits of its first
/// byte tell how many there are.
pub open spec fn varint_bytes(n: int, k: int) -> Seq<u8> {
    seq![
        ((if k == 1 {
            0int
        } else if k == 2 {
            64
        } else if k == 4 {
            128
        } else {
            192
        }) + n / span(k - 1)) as u8,
    ] + forms::big_endian((n % span(k - 1)) as nat, (k - 1) as nat)
}

/// Whether `n` fits into a variable-length integer of `k` bytes.
pub open spec fn varint_fits(n: int, k: int) -> bool {
    (k == 1 || k == 2 || k == 4 || k == 8) && 0 <= n < 64 * span(k - 1)
}

proof fn lemma_span(k: nat)
    ensures
        span(k as int) == net::pow256(k),
        span(k as int) > 0,
    decreases k,
{
    if k > 0 {
        lemma_span((k - 1) as nat);
    }
}

proof fn lemma_from_front(b: u8, s: Seq<u8>)
    ensures
        net::from_octets(seq![b] + s) == b * span(s.len() as int) + net::from_octets(s),
    decreases s.len(),
{
    let w = seq![b] + s;
    if s.len() == 0 {
        assert(w.drop_last() =~= Seq::<u8>::empty());
        assert(net::from_octets(Seq::<u8>::empty()) == 0);
        assert(w.last() == b);
    } else {
        assert(w.drop_last() =~= seq![b] + s.drop_last());
        lemma_from_front(b, s.drop_last());
        let p = span(s.len() - 1);
        assert((b * p) * 256 == b * (256 * p)) by (nonlinear_arith);
    }
}

/// A variable-length integer is read as it was written.
pub proof fn law_varint_is_read(front: Seq<u8>, n: int, k: int, back: Seq<u8>)
    requires
        varint_fits(n, k),
    ensures
        sniff::varint(front + varint_bytes(n, k) + back, front.len() as int) == Some(
            (n as nat, k),
        ),
        varint_bytes(n, k).len() == k,
{
    let w = varint_bytes(n, k);
    let buf = front + w + back;
    let at = front.len() as int;
    let p = span(k - 1);
    lemma_span((k - 1) as nat);
    let hi = n / p;
    let lo = n % p;
    assert(0 <= hi < 64 && 0 <= lo < p && n == hi * p + lo) by (nonlinear_arith)
        requires
            0 <= n < 64 * p,
            p > 0,
            hi == n / p,
            lo == n % p,
    ;
    forms::lemma_big_endian(lo as nat, (k - 1) as nat);
    net::law_octets_roundtrip(lo as nat, (k - 1) as nat);
    assert(buf[at] == w[0]);
    assert(w[0] % 64 == hi);
    let s = forms::big_endian(lo as nat, (k - 1) as nat);
    assert(buf.subrange(at + 1, at + k) =~= s);
    lemma_from_front(hi as u8, s);
}

/// The salt of the Initial packets of a version.
pub open spec fn initial_salt(version: u32) -> Seq<u8> {
    if version == 1 {
        seq![
            0x38u8, 0x76, 0x2c, 0xf7, 0xf5, 0x59, 0x34, 0xb3, 0x4d, 0x17, 0x9a, 0xe6, 0xa4, 0xc8,
            0x0c, 0xad, 0xcc, 0xbb, 0x7f, 0x0a,
        ]
    } else if version == 0x6b33_43cf {
        seq![
            0x0du8, 0xed, 0xe3, 0xde, 0xf7, 0x00, 0xa6, 0xdb, 0x81, 0x93, 0x81, 0xbe, 0x6e, 0x26,
            0x9d, 0xcb, 0xf9, 0xbd, 0x2e, 0xd9,
        ]
    } else {
        seq![
            0xafu8, 0xbf, 0xec, 0x28, 0x99, 0x93, 0xd2, 0x4c, 0x9e, 0x97, 0x86, 0xf1, 0x9c, 0x61,
            0x11, 0xe0, 0x43, 0x90, 0xa8, 0x99,
        ]
    }
}

/// The bytes of an Initial packet up to its packet number. `kt` and `kl` are the
/// numbers of bytes that its two variable-length integers take.
pub open spec fn initial_header(
    kind: int,
    low: int,
    version: u32,
    dcid: Seq<u8>,
    scid: Seq<u8>,
    token: Seq<u8>,
    kt: int,
    length: int,
    kl: int,
) -> Seq<u8> {
    seq![(0xc0 + kind * 16 + low) as u8] + forms::big_endian(version as nat, 4) + seq![
        dcid.len() as u8,
    ] + dcid + seq![scid.len() as u8] + scid + varint_bytes(token.len() as int, kt) + token
        + varint_bytes(length, kl)
}

proof fn lemma_salts()
    ensures
        sniff::version_salt(1) == Some((initial_salt(1), false)),
        sniff::version_salt(0x6b33_43cf) == Some((initial_salt(0x6b33_43cf), true)),
        sniff::version_salt(0xff00_001d) == Some((initial_salt(0xff00_001d), false)),
{
    assert(sniff::QUIC_V1_INITIAL_SALT@ =~= initial_salt(1));
    assert(sniff::QUIC_V2_INITIAL_SALT@ =~= initial_salt(0x6b33_43cf));
    assert(sniff::QUIC_DRAFT29_INITIAL_SALT@ =~= initial_salt(0xff00_001d));
}

/// The parts of an Initial packet are found, whatever its connection ids, its
/// token and what comes behind it are: type 0 in version 1 and draft 29, type 1
/// in version 2.
pub proof fn law_initial_packet_is_read(
    kind: int,
    low: int,
    version: u32,
    dcid: Seq<u8>,
    scid: Seq<u8>,
    token: Seq<u8>,
    kt: int,
    length: int,
    kl: int,
    payload: Seq<u8>,
    back: Seq<u8>,
)
    requires
        version == 1 || version == 0x6b33_43cf || version == 0xff00_001d,
        0 <= kind < 4,
        0 <= low < 16,
        dcid.len() < 256,
        scid.len() < 256,
        varint_fits(token.len() as int, kt),
        varint_fits(length, kl),
        payload.len() == length,
        length > 0,
    ensures
        ({
            let header = initial_header(kind, low, version, dcid, scid, token, kt, length, kl);
            let v2 = version == 0x6b33_43cf;
            sniff::quic_initial(header + payload + back) == (if 1 <= dcid.len() <= 20 && kind == (
            if v2 {
                1int
            } else {
                0
            }) {
                Some(
                    sniff::QuicInitial {
                        dcid,
                        salt: initial_salt(version),
                        v2,
                        number_at: header.len() as int,
                        end: (header.len() + length) as int,
                    },
                )
            } else {
                None
            })
        }),
{
    let header = initial_header(kind, low, version, dcid, scid, token, kt, length, kl);
    let buf = header + payload + back;
    let v = forms::big_endian(version as nat, 4);
    let d = dcid.len() as int;
    let c = scid.len() as int;
    let f1 = seq![(0xc0 + kind * 16 + low) as u8] + v + seq![dcid.len() as u8] + dcid + seq![
        scid.len() as u8,
    ] + scid;
    let wt = varint_bytes(token.len() as int, kt);
    let wl = varint_bytes(length, kl);
    lemma_salts();
    forms::lemma_address_v4(version);
    assert(f1.len() == 7 + d + c);
    let after_token = token + wl + payload + back;
    assert(buf =~= f1 + wt + after_token);
    law_varint_is_read(f1, token.len() as int, kt, after_token);
    let f2 = f1 + wt + token;
    assert(buf =~= f2 + wl + (payload + back));
    law_varint_is_read(f2, length, kl, payload + back);
    assert forall|i: int| 0 <= i < f1.len() implies buf[i] == f1[i] by {
    }
    lemma_initial_front(buf, f1, kind, low, v, dcid, scid);
    assert(header.len() == f2.len() + kl);
}

/// Where the first fields of an Initial packet stand.
proof fn lemma_initial_front(
    buf: Seq<u8>,
    f: Seq<u8>,
    kind: int,
    low: int,
    v: Seq<u8>,
    dcid: Seq<u8>,
    scid: Seq<u8>,
)
    requires
        0 <= kind < 4,
        0 <= low < 16,
        v.len() == 4,
        dcid.len() < 256,
        scid.len() < 256,
        f == seq![(0xc0 + kind * 16 + low) as u8] + v + seq![dcid.len() as u8] + dcid + seq![
            scid.len() as u8,
        ] + scid,
        buf.len() >= f.len(),
        forall|i: int| 0 <= i < f.len() ==> buf[i] == f[i],
    ensures
        buf[0] >= 192,
        (buf[0] / 16) % 4 == kind,
        buf.subrange(1, 5) == v,
        buf[5] == dcid.len(),
        buf.subrange(6, (6 + dcid.len()) as int) == dcid,
        buf[(6 + dcid.len()) as int] == scid.len(),
{
    assert(buf[0] == f[0]);
    assert(buf.subrange(1, 5) =~= v);
    assert(buf[5] == f[5]);
    assert(buf.subrange(6, (6 + dcid.len()) as int) =~= dcid);
    assert(buf[(6 + dcid.len()) as int] == f[(6 + dcid.len()) as int]);
}

/// `n` padding frames.
pub open spec fn padding(n: nat) -> Seq<u8> {
    Seq::new(n, |i: int| 0u8)
}

/// A frame with data of the handshake. `ko` and `kl` are the numbers of bytes
/// that its two variable-length integers take.
pub open spec fn crypto_frame(offset: int, ko: int, data: Seq<u8>, kl: int) -> Seq<u8> {
    seq![6u8] + varint_bytes(offset, ko) + varint_bytes(data.len() as int, kl) + data
}

proof fn lemma_padding(n: nat, rest: Seq<u8>, at: int)
    requires
        0 <= at <= n,
    ensures
        sniff::frames_found(padding(n) + rest, at) == sniff::frames_found(
            padding(n) + rest,
            n as int,
        ),
    decreases n - at,
{
    if at < n {
        lemma_padding(n, rest, at + 1);
    }
}

/// The server name in the ClientHello that the frames of an Initial packet carry
/// is found, behind padding and before whatever comes.
pub proof fn law_quic_server_name_is_found(
    pad: nat,
    offset: int,
    ko: int,
    kl: int,
    random: Seq<u8>,
    session: Seq<u8>,
    suites: Seq<u8>,
    compressions: Seq<u8>,
    es: Seq<client_hello::HelloExtension>,
    host: Seq<char>,
    back: Seq<u8>,
)
    requires
        varint_fits(offset, ko),
        random.len() == 32,
        session.len() <= 32,
        suites.len() < 65536,
        compressions.len() < 256,
        client_hello::extension_list(es).len() < 65536,
        forall|i: int| 0 <= i < es.len() ==> client_hello::writable(#[trigger] es[i]),
        forall|i: int|
            0 <= i < es.len() && (#[trigger] es[i]) is ServerName ==> es[i]
                == client_hello::HelloExtension::ServerName(host),
        varint_fits(
            client_hello::hello_message(
                client_hello::hello_body(random, session, suites, compressions, es),
            ).len() as int,
            kl,
        ),
    ensures
        sniff::frames_found(
            padding(pad) + (crypto_frame(
                offset,
                ko,
                client_hello::hello_message(
                    client_hello::hello_body(random, session, suites, compressions, es),
                ),
                kl,
            ) + back),
            0,
        ) == (if client_hello::names_server(es, host) {
            Some((Some(host), "quic"@))
        } else {
            None
        }),
{
    let body = client_hello::hello_body(random, session, suites, compressions, es);
    let message = client_hello::hello_message(body);
    let frame = crypto_frame(offset, ko, message, kl);
    let data = padding(pad) + (frame + back);
    lemma_padding(pad, frame + back, 0);
    lemma_crypto_frame(data, pad as int, offset, ko, message, kl, back);
    let buf = seq![0x16u8, 0x03, 0x03, 0x00, 0x00] + message;
    assert(message.len() == 4 + body.len());
    assert(buf[5] == message[0]);
    assert forall|i: int| 0 <= i < body.len() implies buf[i + 9] == #[trigger] body[i] by {
        assert(buf[i + 9] == message[i + 4]);
        assert(message[i + 4] == body[i]);
    }
    client_hello::lemma_found(buf, random, session, suites, compressions, es, host);
}

proof fn lemma_crypto_frame(
    data: Seq<u8>,
    at: int,
    offset: int,
    ko: int,
    message: Seq<u8>,
    kl: int,
    back: Seq<u8>,
)
    requires
        at >= 0,
        data == padding(at as nat) + (crypto_frame(offset, ko, message, kl) + back),
        varint_fits(offset, ko),
        varint_fits(message.len() as int, kl),
        message.len() >= 4,
        message[0] == 1,
    ensures
        sniff::frames_found(data, at) == (match sniff::tls_found(
            seq![0x16u8, 0x03, 0x03, 0x00, 0x00] + message,
        ) {
            Some((domain, _)) => Some((domain, "quic"@)),
            None => None,
        }),
{
    let pad = padding(at as nat);
    let wo = varint_bytes(offset, ko);
    let wl = varint_bytes(message.len() as int, kl);
    let f1 = pad + seq![6u8];
    assert(data =~= f1 + wo + (wl + message + back));
    law_varint_is_read(f1, offset, ko, wl + message + back);
    let f2 = f1 + wo;
    assert(data =~= f2 + wl + (message + back));
    law_varint_is_read(f2, message.len() as int, kl, message + back);
    assert(data[at] == 6);
    let from = at + 1 + ko + kl;
    assert(data.subrange(from, from + message.len()) =~= message);
}

/// The nonce of a packet: its number, which stands for a number of twelve bytes,
/// laid over the vector.
pub open spec fn packet_nonce(iv: Seq<u8>, number: Seq<u8>) -> Seq<u8> {
    let wide = Seq::new((12 - number.len()) as nat, |i: int| 0u8) + number;
    Seq::new(12, |i: int| iv[i] ^ wide[i])
}

/// What a packet is protected to: its header with its low bits masked, and its
/// masked number, its sealed content and the tag.
pub open spec fn protected(
    key: Seq<u8>,
    iv: Seq<u8>,
    hp: Seq<u8>,
    header: Seq<u8>,
    number: Seq<u8>,
    content: Seq<u8>,
) -> (Seq<u8>, Seq<u8>) {
    let nonce = packet_nonce(iv, number);
    let sealed = aes::gcm_crypt(key, nonce, content);
    let tag = aes::gcm_tag_of(key, nonce, header + number, sealed);
    let sample = (number + sealed + tag).subrange(4, 20);
    let mask = aes::cipher(hp, sample);
    (
        header.update(0, header[0] ^ (mask[0] % 16) as u8),
        Seq::new(number.len(), |i: int| number[i] ^ mask[1 + i]) + sealed + tag,
    )
}

proof fn lemma_twice(a: u8, b: u8)
    ensures
        (a ^ b) ^ b == a,
        a ^ 0 == a,
{
    assert((a ^ b) ^ b == a) by (bit_vector);
    assert(a ^ 0 == a) by (bit_vector);
}

/// What was protected is opened again, for every key, header, number and content
/// with enough bytes to sample.
pub proof fn law_protected_packet_is_opened(
    key: Seq<u8>,
    iv: Seq<u8>,
    hp: Seq<u8>,
    header: Seq<u8>,
    number: Seq<u8>,
    content: Seq<u8>,
)
    requires
        iv.len() == 12,
        header.len() > 0,
        1 <= number.len() <= 4,
        header[0] % 4 == number.len() - 1,
        number.len() + content.len() >= 4,
        aes::gcm_tag_of(
            key,
            packet_nonce(iv, number),
            header + number,
            aes::gcm_crypt(key, packet_nonce(iv, number), content),
        ).len() == 16,
    ensures
        ({
            let (h, p) = protected(key, iv, hp, header, number, content);
            sniff::packet_plaintext(key, iv, hp, h, p) == Some(content)
        }),
{
    let nonce = packet_nonce(iv, number);
    let sealed = aes::gcm_crypt(key, nonce, content);
    let tag = aes::gcm_tag_of(key, nonce, header + number, sealed);
    let (h, p) = protected(key, iv, hp, header, number, content);
    let k = number.len() as int;
    let sample = (number + sealed + tag).subrange(4, 20);
    let mask = aes::cipher(hp, sample);
    assert(p.len() == k + sealed.len() + 16);
    assert(p.subrange(4, 20) =~= sample);
    lemma_twice(header[0], (mask[0] % 16) as u8);
    let first = h[0] ^ (mask[0] % 16) as u8;
    assert(first == header[0]);
    let number2 = Seq::new(k as nat, |i: int| p[i] ^ mask[1 + i]);
    assert forall|i: int| 0 <= i < k implies number2[i] == number[i] by {
        lemma_twice(number[i], mask[1 + i]);
    }
    assert(number2 =~= number);
    assert forall|i: int| 0 <= i < 12 implies sniff::nonce_of(iv, number)[i] == nonce[i] by {
        lemma_twice(iv[i], 0);
    }
    assert(sniff::nonce_of(iv, number) =~= nonce);
    assert(seq![first] + h.skip(1) =~= header);
    assert(seq![first] + h.skip(1) + number =~= header + number);
    assert(p.subrange(k, p.len() - 16) =~= sealed);
    assert(p.skip(p.len() - 16) =~= tag);
    aes::law_crypt_involution(key, nonce, content);
}

} // verus!
