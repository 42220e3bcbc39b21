//! Session ciphers.

use aes::{Aes128, Aes256};
use cfb_mode::cipher::AsyncStreamCipher;
use chacha20::cipher::{KeyIvInit, StreamCipher};
use nextppp::crypto::cipher::{encode_base32, xor_store};
use nextppp::{CipherRole, Method, SessionCipher};

fn all_methods() -> [Method; 5] {
    [
        Method::Aes128Cfb,
        Method::Aes256Cfb,
        Method::Aes128Ctr,
        Method::Aes256Ctr,
        Method::ChaCha20,
    ]
}

#[test]
fn method_name_roundtrip() {
    for m in all_methods() {
        assert_eq!(Method::from_name(m.name()), Some(m));
    }
    assert_eq!(Method::from_name("AES-128-CFB"), Some(Method::Aes128Cfb));
    assert_eq!(Method::from_name("chacha20-ietf"), Some(Method::ChaCha20));
    assert_eq!(Method::from_name("rc4-md5"), None);
    assert_eq!(Method::from_name(""), None);
    assert_eq!(Method::from_name(" \taes-256-ctr\u{3000}\n"), Some(Method::Aes256Ctr));
}

#[test]
fn method_sizes() {
    assert_eq!(Method::Aes128Cfb.key_len(), 16);
    assert_eq!(Method::Aes128Ctr.key_len(), 16);
    assert_eq!(Method::Aes256Cfb.key_len(), 32);
    assert_eq!(Method::Aes256Ctr.key_len(), 32);
    assert_eq!(Method::ChaCha20.key_len(), 32);
    assert_eq!(Method::Aes256Cfb.iv_len(), 16);
    assert_eq!(Method::ChaCha20.iv_len(), 12);
    assert_eq!(CipherRole::Protocol.name(), "protocol");
    assert_eq!(CipherRole::Transport.name(), "transport");
}

#[test]
fn encrypt_decrypt_roundtrip_all_methods() {
    for m in all_methods() {
        let mut enc = SessionCipher::new(m, CipherRole::Transport, "password-1");
        let mut dec = SessionCipher::new(m, CipherRole::Transport, "password-1").for_decryption();
        let plaintext: Vec<u8> = (0..1000u32).map(|i| (i % 251) as u8).collect();

        let mut ciphertext = plaintext.clone();
        enc.apply(&mut ciphertext);
        assert_ne!(ciphertext, plaintext, "{m:?} should encrypt");
        assert_eq!(ciphertext.len(), plaintext.len());
        dec.apply(&mut ciphertext);
        assert_eq!(ciphertext, plaintext, "{m:?} roundtrip failed");
    }
}

#[test]
fn roles_derive_independent_keystreams() {
    for m in all_methods() {
        let mut p = SessionCipher::new(m, CipherRole::Protocol, "shared");
        let mut t = SessionCipher::new(m, CipherRole::Transport, "shared");
        let mut header = [0u8; 32];
        let mut body = [0u8; 32];
        p.apply(&mut header);
        t.apply(&mut body);
        assert_ne!(header, body, "{m:?} role separation failed");
    }
}

#[test]
fn nonce_never_repeats() {
    for m in all_methods() {
        let mut c = SessionCipher::new(m, CipherRole::Transport, "pw");
        let mut a = [0x41u8; 32];
        let mut b = [0x41u8; 32];
        c.apply(&mut a);
        c.apply(&mut b);
        assert_ne!(a, b, "{m:?} keystream reused");
        assert_eq!(c.sequence(), 2);
    }
}

#[test]
fn streams_stay_independent_per_direction() {
    for m in all_methods() {
        let mut enc = SessionCipher::new(m, CipherRole::Transport, "pw");
        let mut dec = SessionCipher::new(m, CipherRole::Transport, "pw").for_decryption();
        for n in [1usize, 2, 3, 17, 100] {
            let original: Vec<u8> = (0..n).map(|i| (i * 37) as u8).collect();
            let mut wire = original.clone();
            enc.apply(&mut wire);
            dec.apply(&mut wire);
            assert_eq!(wire, original);
        }
        assert_eq!(enc.sequence(), 5);
        assert_eq!(dec.sequence(), 5);
    }
}

#[test]
fn ivv_changes_derived_keys() {
    let mut a = SessionCipher::new(Method::Aes256Cfb, CipherRole::Transport, "pw");
    let mut b = SessionCipher::derive(
        Method::Aes256Cfb,
        CipherRole::Transport,
        "pw",
        Some(0xdead_beef),
    );
    let mut buf_a = [0u8; 16];
    let mut buf_b = [0u8; 16];
    a.apply(&mut buf_a);
    b.apply(&mut buf_b);
    assert_ne!(buf_a, buf_b, "ivv must rekey the cipher");
}

#[test]
fn base32_matches_reference_format() {
    let mut buf = [0u8; 26];
    let len = encode_base32(0, &mut buf);
    assert_eq!(&buf[..len], b"0");
    let len = encode_base32(31, &mut buf);
    assert_eq!(&buf[..len], b"v");
    let len = encode_base32(32, &mut buf);
    assert_eq!(&buf[..len], b"10");
    let len = encode_base32(u128::MAX, &mut buf);
    let mut expected = vec![b'7'];
    expected.extend(std::iter::repeat_n(b'v', 25));
    assert_eq!(len, expected.len());
    assert_eq!(&buf[..len], &expected[..]);
}

/// Key and base IV of a session, derived with the reference crates.
fn material(method: Method, role: &str, ikm: &[u8]) -> ([u8; 32], [u8; 16]) {
    let salt = format!("nextppp/{}/{}", role, method.name());
    let mut okm = [0u8; 48];
    hkdf::Hkdf::<sha2::Sha256>::new(Some(salt.as_bytes()), ikm)
        .expand(b"nextppp-session-key", &mut okm)
        .unwrap();
    (okm[..32].try_into().unwrap(), okm[32..].try_into().unwrap())
}

fn ref_nonce(method: Method, base_iv: &[u8; 16], seq: u64) -> [u8; 16] {
    let mut nonce = *base_iv;
    let xor_width = if method == Method::ChaCha20 { 4 } else { 8 };
    let start = method.iv_len() - xor_width;
    let seq = seq.to_be_bytes();
    for i in 0..xor_width {
        nonce[start + i] ^= seq[8 - xor_width + i];
    }
    nonce
}

fn sample(n: usize) -> Vec<u8> {
    let mut v = vec![0u8; n];
    let mut s = 0x0bad_c0de_dead_beefu64;
    for b in &mut v {
        s ^= s << 13;
        s ^= s >> 7;
        s ^= s << 17;
        *b = (s >> 32) as u8;
    }
    v
}

/// One message under the reference crates.
fn reference(method: Method, encrypting: bool, key: &[u8; 32], nonce: &[u8; 16], data: &mut [u8]) {
    match (method, encrypting) {
        (Method::Aes128Cfb, true) => cfb_mode::Encryptor::<Aes128>::new_from_slices(&key[..16], nonce)
            .expect("static lengths")
            .encrypt(data),
        (Method::Aes128Cfb, false) => cfb_mode::Decryptor::<Aes128>::new_from_slices(&key[..16], nonce)
            .expect("static lengths")
            .decrypt(data),
        (Method::Aes256Cfb, true) => cfb_mode::Encryptor::<Aes256>::new_from_slices(&key[..32], nonce)
            .expect("static lengths")
            .encrypt(data),
        (Method::Aes256Cfb, false) => cfb_mode::Decryptor::<Aes256>::new_from_slices(&key[..32], nonce)
            .expect("static lengths")
            .decrypt(data),
        (Method::Aes128Ctr, _) => ctr::Ctr128BE::<Aes128>::new_from_slices(&key[..16], nonce)
            .expect("static lengths")
            .apply_keystream(data),
        (Method::Aes256Ctr, _) => ctr::Ctr128BE::<Aes256>::new_from_slices(&key[..32], nonce)
            .expect("static lengths")
            .apply_keystream(data),
        (Method::ChaCha20, _) => chacha20::ChaCha20::new_from_slices(key, &nonce[..12])
            .expect("static lengths")
            .apply_keystream(data),
    }
}

#[test]
fn manual_cfb_ctr_match_reference_crates() {
    for method in all_methods() {
        for encrypting in [true, false] {
            let base = SessionCipher::new(method, CipherRole::Transport, "cross-check");
            let (key, base_iv) = material(method, "transport", b"cross-check");
            let mut mine = if encrypting { base } else { base.for_decryption() };
            for len in [0usize, 1, 2, 15, 16, 17, 31, 128, 129, 1000, 65536] {
                let data = sample(len);
                let nonce = ref_nonce(method, &base_iv, mine.sequence());
                let mut expected = data.clone();
                reference(method, encrypting, &key, &nonce, &mut expected);
                let mut got = data;
                mine.apply(&mut got);
                assert_eq!(got, expected, "{method:?} encrypting={encrypting} len={len}");
            }
        }
    }
}

#[test]
fn rekeyed_cipher_matches_reference_crates() {
    for (ivv, suffix) in [(0u128, "0"), (31, "+v"), (u128::MAX, "+7vvvvvvvvvvvvvvvvvvvvvvvvv")] {
        let mut mine = SessionCipher::derive(
            Method::ChaCha20,
            CipherRole::Protocol,
            "pässword",
            Some(ivv),
        );
        let ikm = format!("pässword{suffix}");
        let (key, base_iv) = material(Method::ChaCha20, "protocol", ikm.as_bytes());
        let mut expected = sample(100);
        reference(Method::ChaCha20, true, &key, &ref_nonce(Method::ChaCha20, &base_iv, 0), &mut expected);
        let mut got = sample(100);
        mine.apply(&mut got);
        assert_eq!(got, expected, "ivv {ivv}");
    }
}

#[test]
fn counter_block_wraps_around() {
    // A base IV of all ones: the second counter block is all zeros.
    let mut okm = [0xffu8; 48];
    okm[..32].copy_from_slice(&[7u8; 32]);
    let mut mine = SessionCipher::from_material(Method::Aes256Ctr, &okm);
    let mut got = vec![0u8; 40];
    mine.apply(&mut got);
    let mut expected = vec![0u8; 40];
    reference(Method::Aes256Ctr, true, &[7u8; 32], &[0xff; 16], &mut expected);
    assert_eq!(got, expected);
    assert_eq!(mine.method(), Method::Aes256Ctr);
}

#[test]
fn keystream_is_applied_at_its_place() {
    let mut data = [0u8, 1, 2, 3];
    xor_store(&mut data, 1, 2, &[0xf0; 16]);
    assert_eq!(data, [0, 0xf1, 0xf2, 3]);
}
