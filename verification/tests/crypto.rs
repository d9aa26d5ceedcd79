use reflex::crypto::aes::{
    aes128_ecb_block, aes128_encrypt_block, aes128_gcm_decrypt, aes128_key_schedule, gcm_crypt_of,
    gcm_tag, gf128_mul,
};
use reflex::crypto::base64::base64_encode;
use reflex::crypto::sha1::sha1_bytes;
use reflex::crypto::sha256::{hkdf_expand_label_sha256, hkdf_extract_sha256, hmac_sha256, sha256};

fn hex(s: &str) -> Vec<u8> {
    (0..s.len() / 2).map(|i| u8::from_str_radix(&s[2 * i..2 * i + 2], 16).unwrap()).collect()
}

#[test]
fn sha256_of_known_messages() {
    assert_eq!(
        sha256(b"").to_vec(),
        hex("e3b0c44298fc1c149afbf4c8996fb92427ae41e4649b934ca495991b7852b855")
    );
    assert_eq!(
        sha256(b"abc").to_vec(),
        hex("ba7816bf8f01cfea414140de5dae2223b00361a396177a9cb410ff61f20015ad")
    );
    assert_eq!(
        sha256(b"abcdbcdecdefdefgefghfghighijhijkijkljklmklmnlmnomnopnopq").to_vec(),
        hex("248d6a61d20638b8e5c026930c3e6039a33ce45964ff2167f6ecedd419db06c1")
    );
}

#[test]
fn sha1_of_known_messages() {
    assert_eq!(sha1_bytes(b"").to_vec(), hex("da39a3ee5e6b4b0d3255bfef95601890afd80709"));
    assert_eq!(sha1_bytes(b"abc").to_vec(), hex("a9993e364706816aba3e25717850c26c9cd0d89d"));
}

#[test]
fn hmac_of_known_messages() {
    assert_eq!(
        hmac_sha256(&[0x0b; 20], b"Hi There"),
        hex("b0344c61d8db38535ca8afceaf0bf12b881dc200c9833da726e9376c2e32cff7")
    );
    assert_eq!(
        hmac_sha256(b"Jefe", b"what do ya want for nothing?"),
        hex("5bdcc146bf60754e6a042426089575c75a003f089d2739839dec58b964ec3843")
    );
    assert_eq!(
        hmac_sha256(&[0xaa; 131], b"Test Using Larger Than Block-Size Key - Hash Key First"),
        hex("60e431591ee0b67f0d8a26aacbf5b77f8e0bc6213728c5140546040f0ee37f54")
    );
}

#[test]
fn initial_secrets_of_a_connection() {
    let salt = hex("38762cf7f55934b34d179ae6a4c80cadccbb7f0a");
    let initial = hkdf_extract_sha256(&salt, &hex("8394c8f03e515708"));
    let client = hkdf_expand_label_sha256(&initial, b"client in", b"", 32).unwrap();
    assert_eq!(
        client,
        hex("c00cf151ca5be075ed0ebfb5c80323c42d6b7db67881289af4008f1f6c357aea")
    );
    assert_eq!(
        hkdf_expand_label_sha256(&client, b"quic key", b"", 16).unwrap(),
        hex("1f369613dd76d5467730efcbe3b1a22d")
    );
    assert_eq!(
        hkdf_expand_label_sha256(&client, b"quic iv", b"", 12).unwrap(),
        hex("fa044b2f42a3fd3b46fb255c")
    );
    assert_eq!(
        hkdf_expand_label_sha256(&client, b"quic hp", b"", 16).unwrap(),
        hex("9f50449e04a0e810283a1e9933adedd2")
    );
    assert!(hkdf_expand_label_sha256(&client, b"quic key", b"", 33).is_none());
}

#[test]
fn one_block_of_aes() {
    let key = hex("000102030405060708090a0b0c0d0e0f");
    let mut block = [0u8; 16];
    block.copy_from_slice(&hex("00112233445566778899aabbccddeeff"));
    assert_eq!(
        aes128_ecb_block(&key, &block).unwrap().to_vec(),
        hex("69c4e0d86a7b0430d8cdb78070b4c55a")
    );
    aes128_encrypt_block(&mut block, &aes128_key_schedule(&key));
    assert_eq!(block.to_vec(), hex("69c4e0d86a7b0430d8cdb78070b4c55a"));
    assert!(aes128_ecb_block(&key[..15], &block).is_none());
    assert!(aes128_ecb_block(&key, &block[..15]).is_none());
}

#[test]
fn products_in_the_field() {
    // The neutral element is the polynomial 1, which is the leftmost bit.
    let one = 1u128 << 127;
    let x = 0x66e94bd4ef8a2c3b884cfa59ca342b2eu128;
    assert_eq!(gf128_mul(x, one), x);
    assert_eq!(gf128_mul(one, x), x);
    assert_eq!(gf128_mul(0x0388dace60b6a392f328c2b971b2fe78, x), 0x5e2ec746917062882c85b0685353deb7);
}

#[test]
fn sealing_with_known_keys() {
    let keys = aes128_key_schedule(&[0u8; 16]);
    let nonce = [0u8; 12];
    assert_eq!(gcm_tag(&keys, &nonce, b"", b"").to_vec(), hex("58e2fccefa7e3061367f1d57a4e7455a"));
    let sealed = gcm_crypt_of(&keys, &nonce, &[0u8; 16]);
    assert_eq!(sealed, hex("0388dace60b6a392f328c2b971b2fe78"));
    assert_eq!(
        gcm_tag(&keys, &nonce, b"", &sealed).to_vec(),
        hex("ab6e47d42cec13bdf53a67b21257bddf")
    );
    // Applying the keystream twice gives the data back.
    assert_eq!(gcm_crypt_of(&keys, &nonce, &sealed), vec![0u8; 16]);
}

#[test]
fn opening_with_additional_data() {
    let key = hex("feffe9928665731c6d6a8f9467308308");
    let nonce = hex("cafebabefacedbaddecaf888");
    let aad = hex("feedfacedeadbeeffeedfacedeadbeefabaddad2");
    let plain = hex(
        "d9313225f88406e5a55909c5aff5269a86a7a9531534f7da2e4c303d8a318a721c3c0c95956809532fcf0e2449a6b525b16aedf5aa0de657ba637b39",
    );
    let sealed = hex(
        "42831ec2217774244b7221b784d0d49ce3aa212f2c02a4e035c17e2329aca12e21d514b25466931c7d8f6a5aac84aa051ba30b396a0aac973d58e091",
    );
    let tag = hex("5bc94fbc3221a5db94fae95ae7121a47");
    assert_eq!(aes128_gcm_decrypt(&key, &nonce, &aad, &sealed, &tag), Some(plain));
    assert_eq!(aes128_gcm_decrypt(&key, &nonce, b"", &sealed, &tag), None);
    assert_eq!(aes128_gcm_decrypt(&key, &nonce, &aad, &sealed[1..], &tag), None);
    assert_eq!(aes128_gcm_decrypt(&key, &nonce[..11], &aad, &sealed, &tag), None);
    assert_eq!(aes128_gcm_decrypt(&key, &nonce, &aad, &sealed, &tag[..15]), None);
}

#[test]
fn base64_of_known_messages() {
    assert_eq!(base64_encode(b""), "");
    assert_eq!(base64_encode(b"f"), "Zg==");
    assert_eq!(base64_encode(b"fo"), "Zm8=");
    assert_eq!(base64_encode(b"foo"), "Zm9v");
    assert_eq!(base64_encode(b"foobar"), "Zm9vYmFy");
    assert_eq!(base64_encode(&[0xfb, 0xff]), "+/8=");
}
