use reflex::app::sniff::{
    decrypt_quic_initial, extract_sni_from_quic_crypto, is_dns_wire, read_varint, sniff_bytes,
    sniff_packet, sniff_timeout_ms, try_bittorrent, try_http_host, try_quic, try_ssh, try_tls,
    SniffResult, SniffType, DEFAULT_TIMEOUT_MS, QUIC_DRAFT29_INITIAL_SALT, QUIC_V1_INITIAL_SALT,
    QUIC_V2_INITIAL_SALT,
};
use reflex::crypto::aes::{aes128_ecb_block, aes128_key_schedule, gcm_crypt_of, gcm_tag};
use reflex::crypto::sha256::{hkdf_expand_label_sha256, hkdf_extract_sha256, sha256};

fn domain(r: Option<SniffResult>) -> Option<String> {
    r.and_then(|r| r.domain)
}

fn protocol(r: Option<SniffResult>) -> Option<&'static str> {
    r.map(|r| r.protocol)
}

#[test]
fn parse_http_host() {
    let req = b"GET / HTTP/1.1\r\nHost: example.com\r\nConnection: keep-alive\r\n\r\n";
    assert_eq!(domain(try_http_host(req)), Some("example.com".into()));
    assert_eq!(protocol(try_http_host(req)), Some("http"));
}

#[test]
fn parse_http_host_with_port() {
    let req = b"POST /api HTTP/1.1\r\nHost: api.example.com:8080\r\n\r\n";
    assert_eq!(domain(try_http_host(req)), Some("api.example.com".into()));
}

#[test]
fn http_host_case_insensitive() {
    let req = b"GET / HTTP/1.1\r\nHOST: Example.COM\r\n\r\n";
    assert_eq!(domain(try_http_host(req)), Some("example.com".into()));
}

#[test]
fn not_http_returns_none() {
    let data = b"\x16\x03\x01 not tls either";
    assert!(try_http_host(data).is_none());
}

#[test]
fn tls_too_short() {
    let data = b"\x16\x03\x01\x00\x05\x01";
    assert!(try_tls(data).is_none());
}

#[test]
fn ssh_detection() {
    let data = b"SSH-2.0-OpenSSH_8.0\r\n";
    assert_eq!(protocol(try_ssh(data)), Some("ssh"));
}

#[test]
fn bittorrent_detection() {
    let mut data = vec![0x13u8];
    data.extend_from_slice(b"BitTorrent protocol");
    data.extend_from_slice(&[0u8; 28]);
    assert_eq!(protocol(try_bittorrent(&data)), Some("bittorrent"));
}

#[test]
fn sniff_type_from_str() {
    assert_eq!(SniffType::parse("tls"), Some(SniffType::Tls));
    assert_eq!(SniffType::parse("TLS"), Some(SniffType::Tls));
    assert_eq!(SniffType::parse("http"), Some(SniffType::Http));
    assert_eq!(SniffType::parse("quic"), Some(SniffType::Quic));
    assert_eq!(SniffType::parse("ssh"), Some(SniffType::Ssh));
    assert_eq!(SniffType::parse("bittorrent"), Some(SniffType::BitTorrent));
    assert_eq!(SniffType::parse("unknown"), None);
}

#[test]
fn sha256_empty() {
    let hash = sha256(b"");
    assert_eq!(hash[0], 0xe3);
    assert_eq!(hash[1], 0xb0);
}

/// A client hello inside a TLS record, naming `host`.
fn client_hello(host: &str) -> Vec<u8> {
    let h = host.as_bytes();
    let mut name = vec![0u8, 0, 0, 0, 0, 0, 0, 0, 0];
    let list = (h.len() + 3) as u16;
    name[2..4].copy_from_slice(&(list + 2).to_be_bytes());
    name[4..6].copy_from_slice(&list.to_be_bytes());
    name[7..9].copy_from_slice(&(h.len() as u16).to_be_bytes());
    name.extend_from_slice(h);
    let mut body = vec![3u8, 3];
    body.extend_from_slice(&[7u8; 32]);
    body.push(0);
    body.extend_from_slice(&[0, 2, 0x13, 0x01, 1, 0]);
    body.extend_from_slice(&(name.len() as u16).to_be_bytes());
    body.extend_from_slice(&name);
    let mut msg = vec![1u8, 0];
    msg.extend_from_slice(&(body.len() as u16).to_be_bytes());
    msg.extend_from_slice(&body);
    msg
}

fn tls_record(msg: &[u8]) -> Vec<u8> {
    let mut r = vec![0x16u8, 3, 1];
    r.extend_from_slice(&(msg.len() as u16).to_be_bytes());
    r.extend_from_slice(msg);
    r
}

#[test]
fn a_client_hello_names_its_server() {
    let r = try_tls(&tls_record(&client_hello("www.Example.org"))).unwrap();
    assert_eq!(r.protocol, "tls");
    assert_eq!(r.domain, Some("www.Example.org".to_string()));
}

#[test]
fn types_are_tried_in_the_order_given() {
    let req = b"GET / HTTP/1.1\r\nHost: example.com\r\n\r\n";
    assert_eq!(protocol(sniff_bytes(req, &[SniffType::Tls, SniffType::Http])), Some("http"));
    assert!(sniff_bytes(req, &[SniffType::Tls, SniffType::Ssh]).is_none());
    // No types stand for all of them.
    assert_eq!(protocol(sniff_bytes(req, &[])), Some("http"));
    assert_eq!(
        SniffType::defaults(),
        vec![SniffType::Tls, SniffType::Http, SniffType::Quic, SniffType::Ssh, SniffType::BitTorrent]
    );
}

#[test]
fn timeouts_default_when_none_is_given() {
    assert_eq!(sniff_timeout_ms(0), DEFAULT_TIMEOUT_MS);
    assert_eq!(sniff_timeout_ms(25), 25);
}

#[test]
fn dns_is_recognised_on_the_wire() {
    let query = [
        0u8, 1, 1, 0, 0, 1, 0, 0, 0, 0, 0, 0, 1, b'a', 3, b'c', b'o', b'm', 0, 0, 1, 0, 1,
    ];
    assert!(is_dns_wire(&query));
    assert!(!is_dns_wire(&query[..11]));
    assert!(sniff_packet(&query, &[SniffType::Quic]).is_none());
}

#[test]
fn variable_length_numbers() {
    assert_eq!(read_varint(&[0x25], 0), Some((37, 1)));
    assert_eq!(read_varint(&[0x7b, 0xbd], 0), Some((15293, 2)));
    assert_eq!(read_varint(&[0x9d, 0x7f, 0x3e, 0x7d], 0), Some((494878333, 4)));
    assert_eq!(
        read_varint(&[0, 0xc2, 0x19, 0x7c, 0x5e, 0xff, 0x14, 0xe8, 0x8c], 1),
        Some((151288809941952652, 8))
    );
    assert_eq!(read_varint(&[0x7b], 0), None);
    assert_eq!(read_varint(&[], 0), None);
}

#[test]
fn short_datagrams_hold_no_quic() {
    assert!(try_quic(&[0xc0, 0, 0, 0, 1]).is_none());
    assert!(try_quic(&[0x40; 64]).is_none());
}

#[test]
fn a_crypto_frame_names_its_server() {
    let hello = client_hello("quic.example");
    let mut frames = vec![0u8, 0, 6, 0];
    frames.push(0x40 | (hello.len() >> 8) as u8);
    frames.push(hello.len() as u8);
    frames.extend_from_slice(&hello);
    let r = extract_sni_from_quic_crypto(&frames).unwrap();
    assert_eq!(r.domain, Some("quic.example".to_string()));
    assert!(extract_sni_from_quic_crypto(&[0, 0, 0]).is_none());
}

#[test]
fn initial_packets_need_their_own_salt() {
    let dcid = [0x83u8, 0x94, 0xc8, 0xf0, 0x3e, 0x51, 0x57, 0x08];
    let header = [0xc3u8, 0, 0, 0, 1, 8, 0x83, 0x94];
    let payload = [0x55u8; 64];
    assert!(decrypt_quic_initial(&dcid, &QUIC_V1_INITIAL_SALT, &header, &payload, false).is_none());
    assert!(decrypt_quic_initial(&dcid, &QUIC_DRAFT29_INITIAL_SALT, &header, &payload, false)
        .is_none());
}

/// An Initial packet of a client whose only frame is the given CRYPTO data.
fn initial_packet(version: u32, salt: &[u8], labels: [&str; 3], first: u8, hello: &[u8]) -> Vec<u8> {
    let dcid = [0x83u8, 0x94, 0xc8, 0xf0, 0x3e, 0x51, 0x57, 0x08];
    let initial = hkdf_extract_sha256(salt, &dcid);
    let secret = hkdf_expand_label_sha256(&initial, b"client in", b"", 32).unwrap();
    let key = hkdf_expand_label_sha256(&secret, labels[0].as_bytes(), b"", 16).unwrap();
    let iv = hkdf_expand_label_sha256(&secret, labels[1].as_bytes(), b"", 12).unwrap();
    let hp = hkdf_expand_label_sha256(&secret, labels[2].as_bytes(), b"", 16).unwrap();

    let mut plain = vec![6u8, 0, 0x40 | (hello.len() >> 8) as u8, hello.len() as u8];
    plain.extend_from_slice(hello);
    plain.resize(400, 0);

    let number = [0u8, 0, 0, 2];
    let mut header = vec![first | 3];
    header.extend_from_slice(&version.to_be_bytes());
    header.push(8);
    header.extend_from_slice(&dcid);
    header.extend_from_slice(&[0, 0]);
    let len = number.len() + plain.len() + 16;
    header.extend_from_slice(&(0x4000u16 | len as u16).to_be_bytes());

    let mut aad = header.clone();
    aad.extend_from_slice(&number);
    let mut nonce = iv.clone();
    for i in 0..4 {
        nonce[8 + i] ^= number[i];
    }
    let keys = aes128_key_schedule(&key);
    let sealed = gcm_crypt_of(&keys, &nonce, &plain);
    let tag = gcm_tag(&keys, &nonce, &aad, &sealed);

    let mask = aes128_ecb_block(&hp, &sealed[..16]).unwrap();
    header[0] ^= mask[0] & 0x0f;
    let mut packet = header;
    for i in 0..4 {
        packet.push(number[i] ^ mask[1 + i]);
    }
    packet.extend_from_slice(&sealed);
    packet.extend_from_slice(&tag);
    packet
}

#[test]
fn initial_packets_are_opened() {
    let hello = client_hello("Quic.Example");
    let p = initial_packet(
        1,
        &QUIC_V1_INITIAL_SALT,
        ["quic key", "quic iv", "quic hp"],
        0xc0,
        &hello,
    );
    let r = try_quic(&p).unwrap();
    assert_eq!(r.protocol, "quic");
    assert_eq!(r.domain, Some("Quic.Example".to_string()));

    let mut broken = p.clone();
    let last = broken.len() - 1;
    broken[last] ^= 1;
    assert!(try_quic(&broken).is_none());
    assert!(try_quic(&p[..5]).is_none());
    let mut old = p.clone();
    old[4] = 9;
    assert!(try_quic(&old).is_none());
}

#[test]
fn initial_packets_of_the_second_version_are_opened() {
    let hello = client_hello("second.example");
    let p = initial_packet(
        0x6b3343cf,
        &QUIC_V2_INITIAL_SALT,
        ["quicv2 key", "quicv2 iv", "quicv2 hp"],
        0xd0,
        &hello,
    );
    let r = sniff_packet(&p, &[SniffType::Quic]).unwrap();
    assert_eq!(r.protocol, "quic");
    assert_eq!(r.domain, Some("second.example".to_string()));
    assert!(sniff_packet(&p, &[SniffType::Tls]).is_none());
    for types in [&[][..], &[SniffType::Ssh, SniffType::Quic, SniffType::Quic]] {
        let same = sniff_packet(&p, types).unwrap();
        assert_eq!((&same.protocol, &same.domain), (&r.protocol, &r.domain));
    }
}
