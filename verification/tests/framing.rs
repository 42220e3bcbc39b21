//! Checksum, base94 frames and binary packets.

use nextppp::base94::encoded_len;
use nextppp::frame::base94::{Base94Framer, HEADER_EXTENDED, HEADER_SIMPLE};
use nextppp::frame::binary::{
    header_decrypt, header_encrypt, header_encrypt_with, payload_deobfuscate, payload_obfuscate,
    read_payload, PayloadFlags, HEADER_SIZE,
};
use nextppp::frame::checksum::inet_chksum;
use nextppp::{CipherRole, Error, Method, SessionCipher, BASE94_MAX_FRAME, PPP_BUFFER_SIZE};
use rand::rngs::StdRng;
use rand::SeedableRng;

#[test]
fn rfc1071_example() {
    assert_eq!(
        inet_chksum(&[0x00, 0x01, 0xf2, 0x03, 0xf4, 0xf5, 0xf6, 0xf7]),
        0x220d
    );
}

#[test]
fn odd_length_and_zeros() {
    assert_eq!(
        inet_chksum(&[0x00, 0x01, 0xf2, 0x03, 0xf4, 0xf5, 0xf7]),
        0x2204
    );
    assert_eq!(inet_chksum(&[0u8; 6]), 0xffff);
    assert_eq!(inet_chksum(&[]), 0xffff);
}

fn rng() -> StdRng {
    StdRng::seed_from_u64(0xc0de)
}

fn pair(kf: u32) -> (Base94Framer, Base94Framer) {
    (Base94Framer::new(kf), Base94Framer::new(kf))
}

fn roundtrip(kf: u32, payloads: &[Vec<u8>]) {
    let (mut tx, mut rx) = pair(kf);
    let mut rx_mem = Base94Framer::new(kf);
    let mut rng = rng();
    for payload in payloads {
        let mut wire = Vec::new();
        tx.encode_frame(&mut rng, &mut wire, payload).unwrap();
        let mut stream: &[u8] = &wire;
        let decoded = rx.read_frame(&mut stream).unwrap();
        assert_eq!(decoded, *payload, "kf={kf}");
        assert!(stream.is_empty(), "frame must be consumed exactly");
        assert_eq!(rx_mem.decode_packet(&wire).unwrap(), *payload);
    }
}

#[test]
fn frame_roundtrip_sequences() {
    let payloads: Vec<Vec<u8>> = vec![
        vec![1],
        vec![0xff; 3],
        (0..300u32).map(|i| (i % 256) as u8).collect(),
        vec![0x20; 1000],
    ];
    for kf in [0u32, 1, 154_543_927, u32::MAX] {
        roundtrip(kf, &payloads);
    }
}

#[test]
fn first_frame_is_extended_then_simple() {
    let (mut tx, _) = pair(154_543_927);
    let mut rng = rng();
    let mut first = Vec::new();
    tx.encode_frame(&mut rng, &mut first, b"hello").unwrap();
    assert_eq!(first.len() - encoded_len(b"hello", 154_543_927), HEADER_EXTENDED);
    let mut second = Vec::new();
    tx.encode_frame(&mut rng, &mut second, b"second").unwrap();
    assert_eq!(second.len() - encoded_len(b"second", 154_543_927), HEADER_SIMPLE);
}

#[test]
fn all_frames_are_printable() {
    let (mut tx, _) = pair(0x1234_5678);
    let mut rng = rng();
    let payload: Vec<u8> = (0..255u32).map(|i| i as u8).collect();
    let mut wire = Vec::new();
    tx.encode_frame(&mut rng, &mut wire, &payload).unwrap();
    assert!(wire.iter().all(|&c| (0x20..=0x7e).contains(&c)));
}

#[test]
fn tampered_first_frame_fails_checksum() {
    let (mut tx, mut rx) = pair(154_543_927);
    let mut rng = rng();
    let mut wire = Vec::new();
    tx.encode_frame(&mut rng, &mut wire, b"payload").unwrap();
    wire[4] ^= 0x01;
    let mut stream: &[u8] = &wire;
    assert!(matches!(
        rx.read_frame(&mut stream),
        Err(Error::ChecksumMismatch)
    ));
}

#[test]
fn every_guard_byte_is_checked() {
    let (mut tx, mut rx) = pair(154_543_927);
    let mut rng = rng();
    let mut wire = Vec::new();
    tx.encode_frame(&mut rng, &mut wire, b"payload").unwrap();
    for i in 4..7 {
        let mut bad = wire.clone();
        bad[i] ^= 0x01;
        let mut stream: &[u8] = &bad;
        assert!(matches!(
            rx.read_frame(&mut stream),
            Err(Error::ChecksumMismatch)
        ));
    }
    // The receiver still waits for a first frame.
    let mut stream: &[u8] = &wire;
    assert_eq!(rx.read_frame(&mut stream).unwrap(), b"payload");
}

#[test]
fn wrong_kf_fails_first_frame() {
    let (mut tx, _) = pair(111);
    let (_, mut rx) = pair(222);
    let mut rng = rng();
    let mut wire = Vec::new();
    tx.encode_frame(&mut rng, &mut wire, b"payload").unwrap();
    let mut stream: &[u8] = &wire;
    assert!(rx.read_frame(&mut stream).is_err());
}

#[test]
fn in_memory_length_mismatch_rejected() {
    let (mut tx, mut rx) = pair(154_543_927);
    let mut rng = rng();
    let mut wire = Vec::new();
    tx.encode_frame(&mut rng, &mut wire, b"abcdef").unwrap();
    assert!(rx.decode_packet(&wire[..wire.len() - 1]).is_err());
    let mut doubled = wire.clone();
    doubled.extend_from_slice(&wire);
    assert!(rx.decode_packet(&doubled).is_err());
    assert_eq!(rx.decode_packet(&wire).unwrap(), b"abcdef");
}

#[test]
fn empty_payload_is_refused_at_encode_time() {
    let (mut tx, _) = pair(7);
    let mut wire = Vec::new();
    assert_eq!(
        tx.encode_frame(&mut rng(), &mut wire, &[]),
        Err(Error::ZeroLength)
    );
    assert!(wire.is_empty());
}

#[test]
fn oversized_payload_is_refused() {
    let (mut tx, _) = pair(0);
    let mut wire = Vec::new();
    let big = vec![0xffu8; 65_569];
    assert_eq!(
        tx.encode_frame(&mut rng(), &mut wire, &big),
        Err(Error::FrameTooLarge { len: BASE94_MAX_FRAME + 2 })
    );
    assert!(wire.is_empty());
}

#[test]
fn header_bytes_follow_the_draws() {
    // kf = 0: no offset. A body of one char has one digit, so the second byte
    // is filler and the first is even; the guard number has to be large enough.
    let mut tx = Base94Framer::new(0);
    let mut wire = Vec::new();
    tx.encode_frame_with(0x20, 0x21, &mut wire, &[0]).unwrap();
    // head = 20 21 21 20, sum 4141, checksum bebe, guard bebe ^ 1 = 48831.
    assert_eq!(wire[..4], [0x20, 0x21, 0x21, 0x20]);
    let mut digits = [wire[4], wire[5], wire[6]];
    nextppp::crypto::ssea::unshuffle(&mut digits, 0);
    assert_eq!(digits, [0x20 + 5, 0x20 + 49, 0x20 + 45]);
    assert_eq!(wire[7..], [0x20]);

    // An odd draw moves to the next even byte.
    let mut later = Vec::new();
    tx.encode_frame_with(0x21, 0x7e, &mut later, &[0]).unwrap();
    assert_eq!(later, [0x22, 0x7e, 0x21, 0x20, 0x20]);

    // Three digits: the first byte turns odd, 0x7e wraps to 0x21.
    let body = vec![1u8; 10_000];
    let mut long = Vec::new();
    tx.encode_frame_with(0x7e, 0x55, &mut long, &body).unwrap();
    // 10000 = 1 * 8836 + 12 * 94 + 36.
    assert_eq!(long[..4], [0x21, 0x21, 0x20 + 36, 0x20 + 12]);
}

#[test]
fn small_guard_number_fails_the_first_frame() {
    // head = 7e 7e 7d 20, sum fb9e, checksum 0461, guard 0461 ^ 93 = 1084, which
    // has two digits only. The framer stays as it was.
    let mut tx = Base94Framer::new(0);
    let mut wire = Vec::new();
    let body = vec![1u8; 93];
    assert_eq!(
        tx.encode_frame_with(0x7e, 0x7e, &mut wire, &body),
        Err(Error::InvalidFrame)
    );
    assert!(wire.is_empty());
    tx.encode_frame_with(0x20, 0x20, &mut wire, &body).unwrap();
    assert_eq!(wire.len(), HEADER_EXTENDED + 93);
}

#[test]
fn header_errors_are_told_apart() {
    let mut tx = Base94Framer::new(154_543_927);
    let mut first = Vec::new();
    tx.encode_frame(&mut rng(), &mut first, b"x").unwrap();
    let mut second = Vec::new();
    tx.encode_frame(&mut rng(), &mut second, b"y").unwrap();

    // Fresh receivers see the first frame; a failed one does not advance.
    let mut rx = Base94Framer::new(154_543_927);
    assert_eq!(rx.header_len(), HEADER_EXTENDED);
    assert!(rx.decode_packet(&first[..3]).is_err());
    let mut bad = first.clone();
    bad[2] = 0x7e;
    assert_eq!(rx.decode_packet(&bad), Err(Error::InvalidBase94));
    let n = bad.len();
    bad = first.clone();
    bad[n - 1] = 0x7f;
    assert_eq!(rx.decode_packet(&bad), Err(Error::InvalidBase94));
    assert_eq!(rx.header_len(), HEADER_EXTENDED);
    assert_eq!(rx.decode_packet(&first).unwrap(), b"x");
    assert_eq!(rx.header_len(), HEADER_SIMPLE);
    assert_eq!(rx.decode_packet(&second).unwrap(), b"y");

    // A length of zero and one beyond the ceiling.
    let mut plain = Base94Framer::new(0);
    let mut out = Vec::new();
    plain.encode_frame_with(0x20, 0x20, &mut out, &[0]).unwrap();
    let mut rx = Base94Framer::new(0);
    rx.decode_packet(&out).unwrap();
    assert_eq!(rx.decode_packet(&[0x20, 0x20, 0x20, 0x20]), Err(Error::InvalidFrame));
    assert_eq!(
        rx.decode_packet(&[0x21, 0x20 + 15, 0x20, 0x20]),
        Err(Error::FrameTooLarge { len: 15 * 8836 })
    );
}

#[test]
fn stream_reading_stops_at_the_end() {
    let mut tx = Base94Framer::new(154_543_927);
    let mut wire = Vec::new();
    tx.encode_frame(&mut rng(), &mut wire, b"stream").unwrap();
    for cut in [0usize, 6, 7, wire.len() - 1] {
        let mut rx = Base94Framer::new(154_543_927);
        let mut stream: &[u8] = &wire[..cut];
        let err = rx.read_frame(&mut stream).unwrap_err();
        assert!(err.is_eof(), "cut {cut}");
        assert!(stream.is_empty());
    }
    let mut two = wire.clone();
    two.extend_from_slice(b"rest");
    let mut rx = Base94Framer::new(154_543_927);
    let mut stream: &[u8] = &two;
    let mut scratch = vec![9u8; 3];
    let mut out = vec![8u8; 2];
    rx.read_frame_into(&mut stream, &mut scratch, &mut out).unwrap();
    assert_eq!(out, b"stream");
    assert_eq!(scratch, wire[7..]);
    assert_eq!(stream, b"rest");

    let mut rx = Base94Framer::new(154_543_927);
    let mut stream: &[u8] = &wire;
    assert_eq!(rx.read_frame_with(&mut stream, &mut scratch).unwrap(), b"stream");
}

fn roundtrip_case(flags: PayloadFlags, use_protocol: bool, len: usize) {
    let kf = 154_543_927u32;
    let mut rng = StdRng::seed_from_u64(len as u64);
    let mut proto_tx = SessionCipher::new(Method::Aes128Cfb, CipherRole::Protocol, "test");
    let mut proto_rx =
        SessionCipher::new(Method::Aes128Cfb, CipherRole::Protocol, "test").for_decryption();

    let plaintext: Vec<u8> = (0..len).map(|i| (i * 89 + 7) as u8).collect();
    let (header, hkf) = header_encrypt(
        &mut rng,
        kf,
        use_protocol.then_some(&mut proto_tx),
        plaintext.len(),
    )
    .unwrap();

    let mut wire = plaintext.clone();
    payload_obfuscate(&mut wire, &flags, hkf, kf);
    let mut packet = header.to_vec();
    packet.extend_from_slice(&wire);

    let hdr: [u8; HEADER_SIZE] = packet[..HEADER_SIZE].try_into().unwrap();
    let (decoded_len, decoded_hkf) =
        header_decrypt(kf, use_protocol.then_some(&mut proto_rx), &hdr).unwrap();
    assert_eq!(decoded_len, plaintext.len());
    assert_eq!(decoded_hkf, hkf);

    let mut body = packet[HEADER_SIZE..].to_vec();
    payload_deobfuscate(&mut body, &flags, decoded_hkf, kf);
    assert_eq!(body, plaintext);
}

#[test]
fn header_and_payload_roundtrip() {
    roundtrip_case(PayloadFlags::safest(), false, 1);
    roundtrip_case(PayloadFlags::safest(), false, 100);
    roundtrip_case(PayloadFlags::none(), false, 100);
    roundtrip_case(PayloadFlags::none(), true, PPP_BUFFER_SIZE);
    roundtrip_case(
        PayloadFlags {
            masked: true,
            shuffle: false,
            delta: true,
        },
        true,
        999,
    );
}

#[test]
fn length_field_wraps_correctly() {
    let kf = 42u32;
    let mut rng = StdRng::seed_from_u64(1);
    let (header, _) = header_encrypt(&mut rng, kf, None, PPP_BUFFER_SIZE).unwrap();
    let (len, _) = header_decrypt(kf, None, &header).unwrap();
    assert_eq!(len, PPP_BUFFER_SIZE);
}

#[test]
fn zero_length_rejected() {
    let mut rng = StdRng::seed_from_u64(1);
    assert!(header_encrypt(&mut rng, 0, None, 0).is_err());
    assert!(header_encrypt(&mut rng, 0, None, PPP_BUFFER_SIZE + 1).is_err());
    assert_eq!(
        header_encrypt(&mut rng, 0, None, 0),
        Err(Error::FrameTooLarge { len: 0 })
    );
}

#[test]
fn header_known_bytes() {
    // kf = 0, seed 1: key 1, length 0x0203 + 1. Field 02 03 ^ 01 = 03 02; two
    // bytes do not move; delta: 01, 02, ff.
    let (header, key) = header_encrypt_with(1, 0, None, 0x0204);
    assert_eq!(key, 1);
    assert_eq!(header, [1, 2, 0xff]);
    let mut cipher = SessionCipher::new(Method::ChaCha20, CipherRole::Protocol, "k");
    let (other, _) = header_encrypt_with(1, 0, Some(&mut cipher), 0x0204);
    assert_ne!(other, header);
    assert_eq!(cipher.sequence(), 1);
}

#[test]
fn flags_combine() {
    let a = PayloadFlags { masked: true, shuffle: false, delta: false };
    let b = PayloadFlags { masked: false, shuffle: false, delta: true };
    assert_eq!(a.or(b), PayloadFlags { masked: true, shuffle: false, delta: true });
    assert_eq!(PayloadFlags::none().or(PayloadFlags::safest()), PayloadFlags::safest());
}

#[test]
fn payload_is_read_exactly() {
    let mut stream: &[u8] = b"abcdef";
    assert_eq!(read_payload(&mut stream, 4).unwrap(), b"abcd");
    assert_eq!(stream, b"ef");
    let err = read_payload(&mut stream, 3).unwrap_err();
    assert!(err.is_eof());
    assert_eq!(err.message(), "io error: failed to fill whole buffer");
}
