//! How a TLS ClientHello is written (RFC 8446, RFC 6066, RFC 7301), and that
//! sniffing finds in it what was written.
use vstd::prelude::*;
use crate::app::sniff;
use crate::inbound::tun::checksum;

verus! {

/// An extension of a ClientHello.
pub ghost enum HelloExtension {
    /// The name of the server.
    ServerName(Seq<char>),
    /// The names of the protocols that the client can speak.
    Protocols(Seq<Seq<u8>>),
    /// Another extension: its type and its data.
    Other(int, Seq<u8>),
}

/// A number in two bytes, the high one first.
pub open spec fn two_bytes(n: int) -> Seq<u8> {
    seq![(n / 256) as u8, (n % 256) as u8]
}

/// Data with its length in two bytes before it.
pub open spec fn vector16(data: Seq<u8>) -> Seq<u8> {
    two_bytes(data.len() as int) + data
}

/// Data with its length in one byte before it.
pub open spec fn vector8(data: Seq<u8>) -> Seq<u8> {
    seq![data.len() as u8] + data
}

/// The names of protocols, each with its length before it.
pub open spec fn protocol_list(names: Seq<Seq<u8>>) -> Seq<u8>
    decreases names.len(),
{
    if names.len() == 0 {
        Seq::empty()
    } else {
        vector8(names[0]) + protocol_list(names.skip(1))
    }
}

/// The type of an extension: 0 for the server name, 16 for the protocols.
pub open spec fn extension_type(e: HelloExtension) -> int {
    match e {
        HelloExtension::ServerName(_) => 0,
        HelloExtension::Protocols(_) => 16,
        HelloExtension::Other(kind, _) => kind,
    }
}

/// The data of an extension. The server name is the only entry of a list of
/// names, of the type for host names, which is 0.
pub open spec fn extension_data(e: HelloExtension) -> Seq<u8> {
    match e {
        HelloExtension::ServerName(host) => vector16(
            seq![0u8] + vector16(vstd::utf8::encode_utf8(host)),
        ),
        HelloExtension::Protocols(names) => vector16(protocol_list(names)),
        HelloExtension::Other(_, data) => data,
    }
}

/// Extensions one after the other.
pub open spec fn extension_list(es: Seq<HelloExtension>) -> Seq<u8>
    decreases es.len(),
{
    if es.len() == 0 {
        Seq::empty()
    } else {
        two_bytes(extension_type(es[0])) + vector16(extension_data(es[0])) + extension_list(
            es.skip(1),
        )
    }
}

/// Whether an extension can be written: its lengths fit, and its type is not
/// one that has a form of its own.
pub open spec fn writable(e: HelloExtension) -> bool {
    &&& extension_data(e).len() < 65536
    &&& match e {
        HelloExtension::ServerName(host) => true,
        HelloExtension::Protocols(names) => forall|i: int|
            0 <= i < names.len() ==> (#[trigger] names[i]).len() < 256,
        HelloExtension::Other(kind, _) => 0 < kind < 65536 && kind != 16,
    }
}

/// The body of a ClientHello.
pub open spec fn hello_body(
    random: Seq<u8>,
    session: Seq<u8>,
    suites: Seq<u8>,
    compressions: Seq<u8>,
    es: Seq<HelloExtension>,
) -> Seq<u8> {
    seq![3u8, 3u8] + random + vector8(session) + vector16(suites) + vector8(compressions)
        + vector16(extension_list(es))
}

/// A handshake message of type 1: a ClientHello.
pub open spec fn hello_message(body: Seq<u8>) -> Seq<u8> {
    seq![
        1u8,
        (body.len() / 65536) as u8,
        ((body.len() / 256) % 256) as u8,
        (body.len() % 256) as u8,
    ] + body
}

/// A TLS record of type 22, which carries handshake messages.
pub open spec fn handshake_record(minor: u8, message: Seq<u8>) -> Seq<u8> {
    seq![22u8, 3u8, minor] + vector16(message)
}

/// Whether extensions name the server.
pub open spec fn names_server(es: Seq<HelloExtension>, host: Seq<char>) -> bool {
    es.contains(HelloExtension::ServerName(host))
}

/// Whether extensions offer the protocol `h2`.
pub open spec fn offers_h2(es: Seq<HelloExtension>) -> bool {
    exists|i: int, k: int|
        0 <= i < es.len() && es[i] is Protocols && 0 <= k < es[i]->Protocols_0.len()
            && #[trigger] es[i]->Protocols_0[k] == seq![0x68u8, 0x32u8]
}

proof fn lemma_two_bytes(n: int)
    requires
        0 <= n < 65536,
    ensures
        two_bytes(n).len() == 2,
        checksum::be_word(two_bytes(n)[0], two_bytes(n)[1]) == n,
{
}

proof fn lemma_word(buf: Seq<u8>, at: int, n: int)
    requires
        0 <= n < 65536,
        0 <= at,
        at + 2 <= buf.len(),
        buf.subrange(at, at + 2) == two_bytes(n),
    ensures
        sniff::word(buf, at) == n,
{
    lemma_two_bytes(n);
    assert(buf.subrange(at, at + 2)[0] == buf[at]);
    assert(buf.subrange(at, at + 2)[1] == buf[at + 1]);
}

proof fn lemma_lists_h2(buf: Seq<u8>, at: int, end: int, names: Seq<Seq<u8>>)
    requires
        0 <= at <= end <= buf.len(),
        buf.subrange(at, end) == protocol_list(names),
        forall|i: int| 0 <= i < names.len() ==> (#[trigger] names[i]).len() < 256,
    ensures
        sniff::lists_h2(buf, at, end) <==> names.contains(seq![0x68u8, 0x32u8]),
    decreases names.len(),
{
    let h2 = seq![0x68u8, 0x32u8];
    if names.len() > 0 {
        let first = names[0];
        let rest = names.skip(1);
        let list = protocol_list(names);
        let next = at + 1 + first.len();
        assert(first.len() < 256);
        assert(list.len() == end - at);
        assert(list[0] == first.len() as u8);
        assert(buf[at] == buf.subrange(at, end)[0]);
        assert(buf.subrange(at + 1, next) =~= first) by {
            assert forall|i: int| 0 <= i < first.len() implies buf.subrange(at + 1, next)[i]
                == first[i] by {
                assert(buf.subrange(at, end)[i + 1] == list[i + 1]);
            }
        }
        assert(buf.subrange(next, end) =~= protocol_list(rest)) by {
            assert forall|i: int| 0 <= i < protocol_list(rest).len() implies buf.subrange(
                next,
                end,
            )[i] == protocol_list(rest)[i] by {
                assert(buf.subrange(at, end)[i + 1 + first.len()] == list[i + 1 + first.len()]);
            }
        }
        assert forall|i: int| 0 <= i < rest.len() implies (#[trigger] rest[i]).len() < 256 by {
            assert(rest[i] == names[i + 1]);
        }
        lemma_lists_h2(buf, next, end, rest);
        if names.contains(h2) {
            let i = choose|i: int| 0 <= i < names.len() && names[i] == h2;
            if i > 0 {
                assert(rest[i - 1] == h2);
            }
        }
        if rest.contains(h2) {
            let i = choose|i: int| 0 <= i < rest.len() && rest[i] == h2;
            assert(names[i + 1] == h2);
        }
    } else {
        assert(buf.subrange(at, end).len() == 0);
    }
}

/// What the walk through the extensions makes of one of them.
proof fn lemma_extension(buf: Seq<u8>, at: int, end: int, e: HelloExtension)
    requires
        0 <= at <= end <= buf.len(),
        buf.subrange(at, end) == extension_data(e),
        writable(e),
    ensures
        e matches HelloExtension::ServerName(host) ==> sniff::server_name(buf, at, end) == Some(
            host,
        ),
        e matches HelloExtension::Protocols(names) ==> (sniff::offers_h2(buf, at, end)
            <==> names.contains(seq![0x68u8, 0x32u8])),
{
    let data = extension_data(e);
    assert(data.len() == end - at);
    assert forall|i: int| 0 <= i < data.len() implies #[trigger] buf[at + i] == data[i] by {
        assert(buf.subrange(at, end)[i] == data[i]);
    }
    match e {
        HelloExtension::ServerName(host) => {
            let h = vstd::utf8::encode_utf8(host);
            let entry = seq![0u8] + vector16(h);
            assert(data =~= two_bytes(entry.len() as int) + (seq![0u8] + (two_bytes(
                h.len() as int,
            ) + h)));
            assert(buf[at + 2] == data[2]);
            assert(data[2] == 0);
            assert(buf[at + 3] == data[3] && buf[at + 4] == data[4]);
            assert(data[3] == two_bytes(h.len() as int)[0]);
            assert(data[4] == two_bytes(h.len() as int)[1]);
            assert(buf.subrange(at + 3, at + 5) =~= two_bytes(h.len() as int));
            lemma_word(buf, at + 3, h.len() as int);
            assert(buf.subrange(at + 5, at + 5 + h.len()) =~= h) by {
                assert forall|i: int| 0 <= i < h.len() implies buf.subrange(
                    at + 5,
                    at + 5 + h.len(),
                )[i] == h[i] by {
                    assert(buf[at + (5 + i)] == data[5 + i]);
                }
            }
            vstd::utf8::encode_utf8_valid_utf8(host);
            vstd::utf8::encode_utf8_decode_utf8(host);
        },
        HelloExtension::Protocols(names) => {
            let list = protocol_list(names);
            assert(buf.subrange(at, at + 2) =~= two_bytes(list.len() as int));
            lemma_word(buf, at, list.len() as int);
            assert(buf.subrange(at + 2, end) =~= list) by {
                assert forall|i: int| 0 <= i < list.len() implies buf.subrange(at + 2, end)[i]
                    == list[i] by {
                    assert(buf[at + (2 + i)] == data[2 + i]);
                }
            }
            lemma_lists_h2(buf, at + 2, end, names);
        },
        HelloExtension::Other(_, _) => {},
    }
}

proof fn lemma_walk(
    buf: Seq<u8>,
    at: int,
    es: Seq<HelloExtension>,
    host: Seq<char>,
    name: Option<Seq<char>>,
    h2: bool,
)
    requires
        0 <= at <= buf.len(),
        buf.skip(at) == extension_list(es),
        forall|i: int| 0 <= i < es.len() ==> writable(#[trigger] es[i]),
        forall|i: int|
            0 <= i < es.len() && (#[trigger] es[i]) is ServerName ==> es[i]
                == HelloExtension::ServerName(host),
        name is Some ==> name == Some(host),
    ensures
        sniff::walk_extensions(buf, at, buf.len() as int, name, h2) == (
            if names_server(es, host) {
                Some(host)
            } else {
                name
            },
            h2 || offers_h2(es),
        ) || (name is Some && h2 && sniff::walk_extensions(buf, at, buf.len() as int, name, h2) == (
            name,
            h2,
        )),
    decreases es.len(),
{
    let end = buf.len() as int;
    if es.len() == 0 {
        assert(buf.skip(at).len() == 0);
    } else if name is Some && h2 {
    } else {
        let e = es[0];
        let rest = es.skip(1);
        let data = extension_data(e);
        let list = extension_list(es);
        let next = at + 4 + data.len();
        assert(writable(es[0]));
        assert(list =~= two_bytes(extension_type(e)) + two_bytes(data.len() as int) + data
            + extension_list(rest));
        assert(list.len() == end - at);
        assert forall|i: int| 0 <= i < list.len() implies #[trigger] buf[at + i] == list[i] by {
            assert(buf.skip(at)[i] == list[i]);
        }
        assert(buf.subrange(at, at + 2) =~= two_bytes(extension_type(e)));
        assert(buf.subrange(at + 2, at + 4) =~= two_bytes(data.len() as int)) by {
            assert(buf[at + 2] == list[2]);
            assert(buf[at + 3] == list[3]);
        }
        lemma_word(buf, at, extension_type(e));
        lemma_word(buf, at + 2, data.len() as int);
        assert(buf.subrange(at + 4, next) =~= data) by {
            assert forall|i: int| 0 <= i < data.len() implies buf.subrange(at + 4, next)[i]
                == data[i] by {
                assert(buf[at + (4 + i)] == list[4 + i]);
            }
        }
        lemma_extension(buf, at + 4, next, e);
        assert(buf.skip(next) =~= extension_list(rest)) by {
            assert forall|i: int| 0 <= i < extension_list(rest).len() implies buf.skip(next)[i]
                == extension_list(rest)[i] by {
                assert(buf[at + (4 + data.len() + i)] == list[4 + data.len() + i]);
            }
        }
        assert forall|i: int| 0 <= i < rest.len() implies writable(#[trigger] rest[i]) by {
            assert(rest[i] == es[i + 1]);
        }
        assert forall|i: int| 0 <= i < rest.len() && (#[trigger] rest[i]) is ServerName implies
            rest[i] == HelloExtension::ServerName(host) by {
            assert(rest[i] == es[i + 1]);
        }
        let name2 = if e is ServerName {
            Some(host)
        } else {
            name
        };
        let here = e is Protocols && e->Protocols_0.contains(seq![0x68u8, 0x32u8]);
        lemma_walk(buf, next, rest, host, name2, h2 || here);
        assert(sniff::walk_extensions(buf, at, end, name, h2) == sniff::walk_extensions(
            buf,
            next,
            end,
            name2,
            h2 || here,
        ));
        lemma_names_server(es, host);
        lemma_offers_h2(es);
    }
}

proof fn lemma_names_server(es: Seq<HelloExtension>, host: Seq<char>)
    requires
        es.len() > 0,
    ensures
        names_server(es, host) <==> es[0] == HelloExtension::ServerName(host) || names_server(
            es.skip(1),
            host,
        ),
{
    let x = HelloExtension::ServerName(host);
    if es.contains(x) {
        let i = choose|i: int| 0 <= i < es.len() && es[i] == x;
        if i > 0 {
            assert(es.skip(1)[i - 1] == x);
        }
    }
    if es.skip(1).contains(x) {
        let i = choose|i: int| 0 <= i < es.skip(1).len() && es.skip(1)[i] == x;
        assert(es[i + 1] == x);
    }
}

proof fn lemma_offers_h2(es: Seq<HelloExtension>)
    requires
        es.len() > 0,
    ensures
        offers_h2(es) <==> (es[0] is Protocols && es[0]->Protocols_0.contains(
            seq![0x68u8, 0x32u8],
        )) || offers_h2(es.skip(1)),
{
    let rest = es.skip(1);
    if offers_h2(es) {
        let (i, k) = choose|i: int, k: int|
            0 <= i < es.len() && es[i] is Protocols && 0 <= k < es[i]->Protocols_0.len()
                && #[trigger] es[i]->Protocols_0[k] == seq![0x68u8, 0x32u8];
        if i > 0 {
            assert(rest[i - 1]->Protocols_0[k] == seq![0x68u8, 0x32u8]);
        }
    }
    if es[0] is Protocols && es[0]->Protocols_0.contains(seq![0x68u8, 0x32u8]) {
        let k = choose|k: int|
            0 <= k < es[0]->Protocols_0.len() && es[0]->Protocols_0[k] == seq![0x68u8, 0x32u8];
        assert(es[0]->Protocols_0[k] == seq![0x68u8, 0x32u8]);
    }
    if offers_h2(rest) {
        let (i, k) = choose|i: int, k: int|
            0 <= i < rest.len() && rest[i] is Protocols && 0 <= k < rest[i]->Protocols_0.len()
                && #[trigger] rest[i]->Protocols_0[k] == seq![0x68u8, 0x32u8];
        assert(es[i + 1]->Protocols_0[k] == seq![0x68u8, 0x32u8]);
    }
}

/// The server name that a client writes in its ClientHello is found, whatever
/// its random bytes, its session id, its cipher suites, its compression methods
/// and its other extensions are, and wherever among them the name stands. The
/// protocol is `h2` exactly if the client offers it, and else `tls`. Without a
/// server name nothing is found.
pub proof fn law_server_name_is_found(
    minor: u8,
    random: Seq<u8>,
    session: Seq<u8>,
    suites: Seq<u8>,
    compressions: Seq<u8>,
    es: Seq<HelloExtension>,
    host: Seq<char>,
)
    requires
        random.len() == 32,
        session.len() <= 32,
        suites.len() < 65536,
        compressions.len() < 256,
        extension_list(es).len() < 65536,
        forall|i: int| 0 <= i < es.len() ==> writable(#[trigger] es[i]),
        forall|i: int|
            0 <= i < es.len() && (#[trigger] es[i]) is ServerName ==> es[i]
                == HelloExtension::ServerName(host),
    ensures
        sniff::tls_found(
            handshake_record(
                minor,
                hello_message(hello_body(random, session, suites, compressions, es)),
            ),
        ) == (if names_server(es, host) {
            Some(
                (
                    Some(host),
                    if offers_h2(es) {
                        "h2"@
                    } else {
                        "tls"@
                    },
                ),
            )
        } else {
            None
        }),
{
    let body = hello_body(random, session, suites, compressions, es);
    let buf = handshake_record(minor, hello_message(body));
    lemma_record(minor, body);
    lemma_found(buf, random, session, suites, compressions, es, host);
}

/// What is found in nine bytes and the body of a message.
pub(crate) proof fn lemma_found(
    buf: Seq<u8>,
    random: Seq<u8>,
    session: Seq<u8>,
    suites: Seq<u8>,
    compressions: Seq<u8>,
    es: Seq<HelloExtension>,
    host: Seq<char>,
)
    requires
        random.len() == 32,
        session.len() <= 32,
        suites.len() < 65536,
        compressions.len() < 256,
        extension_list(es).len() < 65536,
        forall|i: int| 0 <= i < es.len() ==> writable(#[trigger] es[i]),
        forall|i: int|
            0 <= i < es.len() && (#[trigger] es[i]) is ServerName ==> es[i]
                == HelloExtension::ServerName(host),
        ({
            let body = hello_body(random, session, suites, compressions, es);
            &&& buf.len() == 9 + body.len()
            &&& buf[0] == 22
            &&& buf[1] == 3
            &&& buf[5] == 1
            &&& forall|i: int| 0 <= i < body.len() ==> buf[i + 9] == #[trigger] body[i]
        }),
    ensures
        sniff::tls_found(buf) == (if names_server(es, host) {
            Some(
                (
                    Some(host),
                    if offers_h2(es) {
                        "h2"@
                    } else {
                        "tls"@
                    },
                ),
            )
        } else {
            None
        }),
{
    let body = hello_body(random, session, suites, compressions, es);
    let list = extension_list(es);
    let n = session.len() as int;
    let m = suites.len() as int;
    let c = compressions.len() as int;
    let p3 = 47 + n + m + c;
    lemma_body(random, session, suites, compressions, list, body);
    assert(buf[43] == body[34]);
    assert(buf.subrange(44 + n, 46 + n) =~= body.subrange(35 + n, 37 + n));
    lemma_word(buf, 44 + n, m);
    assert(buf[46 + n + m] == body[37 + n + m]);
    assert(buf.subrange(p3, p3 + 2) =~= body.subrange(38 + n + m + c, 40 + n + m + c));
    lemma_word(buf, p3, list.len() as int);
    assert(sniff::extensions_start(buf) == Some(p3 + 2));
    assert(buf.skip(p3 + 2) =~= body.skip(40 + n + m + c));
    lemma_walk(buf, p3 + 2, es, host, None, false);
}

/// A record is nine bytes and the body of its message.
proof fn lemma_record(minor: u8, body: Seq<u8>)
    ensures
        ({
            let buf = handshake_record(minor, hello_message(body));
            &&& buf.len() == 9 + body.len()
            &&& buf[0] == 22
            &&& buf[1] == 3
            &&& buf[5] == 1
            &&& forall|i: int| 0 <= i < body.len() ==> buf[i + 9] == #[trigger] body[i]
        }),
{
    let message = hello_message(body);
    let buf = handshake_record(minor, message);
    assert(buf.len() == 5 + message.len());
    assert(buf[5] == message[0]);
    assert forall|i: int| 0 <= i < body.len() implies buf[i + 9] == #[trigger] body[i] by {
        assert(buf[i + 9] == message[i + 4]);
        assert(message[i + 4] == body[i]);
    }
}

/// Where the parts of a body stand.
proof fn lemma_body(
    random: Seq<u8>,
    session: Seq<u8>,
    suites: Seq<u8>,
    compressions: Seq<u8>,
    list: Seq<u8>,
    body: Seq<u8>,
)
    requires
        random.len() == 32,
        session.len() < 256,
        compressions.len() < 256,
        body == seq![3u8, 3u8] + random + vector8(session) + vector16(suites) + vector8(
            compressions,
        ) + vector16(list),
    ensures
        ({
            let n = session.len() as int;
            let m = suites.len() as int;
            let c = compressions.len() as int;
            let k = 38 + n + m + c;
            &&& body.len() == k + 2 + list.len()
            &&& body[34] == n
            &&& body.subrange(35 + n, 37 + n) == two_bytes(m)
            &&& body[37 + n + m] == c
            &&& body.subrange(k, k + 2) == two_bytes(list.len() as int)
            &&& body.skip(k + 2) == list
        }),
{
    let n = session.len() as int;
    let m = suites.len() as int;
    let c = compressions.len() as int;
    let x0 = seq![3u8, 3u8] + random;
    let x1 = x0 + vector8(session);
    let x2 = x1 + vector16(suites);
    let x3 = x2 + vector8(compressions);
    assert(x0.len() == 34);
    assert(x1.len() == 35 + n);
    assert(x2.len() == 37 + n + m);
    assert(x3.len() == 38 + n + m + c);
    assert(x1[34] == vector8(session)[0]);
    assert(x2[34] == x1[34] && x3[34] == x2[34] && body[34] == x3[34]);
    assert forall|i: int| 0 <= i < 2 implies #[trigger] body[35 + n + i] == two_bytes(m)[i] by {
        assert(x2[35 + n + i] == vector16(suites)[i]);
        assert(x3[35 + n + i] == x2[35 + n + i]);
        assert(body[35 + n + i] == x3[35 + n + i]);
    }
    assert(body.subrange(35 + n, 37 + n) =~= two_bytes(m)) by {
        assert(body[35 + n + 0] == two_bytes(m)[0]);
        assert(body[35 + n + 1] == two_bytes(m)[1]);
    }
    assert(x3[37 + n + m] == vector8(compressions)[0]);
    assert(body[37 + n + m] == x3[37 + n + m]);
    assert(body.skip(x3.len() as int) =~= vector16(list));
    assert(body.subrange(38 + n + m + c, 40 + n + m + c) =~= two_bytes(list.len() as int)) by {
        assert(body.skip(x3.len() as int)[0] == vector16(list)[0]);
        assert(body.skip(x3.len() as int)[1] == vector16(list)[1]);
    }
    assert(body.skip(40 + n + m + c) =~= vector16(list).skip(2));
    assert(vector16(list).skip(2) =~= list);
}

} // verus!
