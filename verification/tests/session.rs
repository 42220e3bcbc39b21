//! Handshake packets and transmissions.

use nextppp::codec::{RxCore, TxCore};
use nextppp::crypto::cipher::CipherRole;
use nextppp::error::{IoError, IoErrorKind};
use nextppp::handshake::{
    append_decimal, build_nmux, check_canary, flag_canary, max_nop_packets, nop_rounds,
    pack_session_id, pack_session_id_with, unpack_session_id, SessionPacket, CANARY_MAGIC,
    CANARY_MAGIC_MASK,
};
use nextppp::transmission::{decide, HandshakeState, HandshakeStep, Transmission, Verdict};
use nextppp::{Error, Method, ObfuscationKey, SessionCipher, PPP_BUFFER_SIZE};
use rand::rngs::StdRng;
use rand::SeedableRng;

fn rng() -> StdRng {
    StdRng::seed_from_u64(0xbeef)
}

fn with_key(f: impl Fn(&mut ObfuscationKey)) -> ObfuscationKey {
    let mut key = ObfuscationKey::default();
    f(&mut key);
    key
}

// ---------------------------------------------------------------------------
// Session-id packets
// ---------------------------------------------------------------------------

#[test]
fn session_id_roundtrip() {
    let key = ObfuscationKey::default();
    let mut r = rng();
    for id in [
        1u128,
        42,
        i64::MAX as u128,
        u128::MAX - 3,
        0x1234_5678_9abc_def0,
    ] {
        let packet = pack_session_id(&mut r, &key, id);
        assert_eq!(
            unpack_session_id(&key, &packet).unwrap(),
            SessionPacket::Session(id)
        );
    }
}

#[test]
fn dummy_packets_are_tagged_and_skipped() {
    let key = ObfuscationKey::default();
    let mut r = rng();
    for _ in 0..64 {
        let packet = pack_session_id(&mut r, &key, 0);
        assert_eq!(packet[0] & 0x80, 0x80);
        assert_eq!(
            unpack_session_id(&key, &packet).unwrap(),
            SessionPacket::Dummy
        );
    }
}

#[test]
fn packets_are_printable_except_header() {
    let key = ObfuscationKey::default();
    let mut r = rng();
    let packet = pack_session_id(&mut r, &key, 12345);
    assert!(packet.len() > 4);
    let dummy = pack_session_id(&mut r, &key, 0);
    assert!(dummy.len() > 4);
    // Behind the net mask everything is printable.
    for p in [packet, dummy] {
        let mask = p[1] ^ p[3];
        assert!(p[4..].iter().all(|b| (0x20..=0x7e).contains(&(b ^ mask))));
    }
}

#[test]
fn xor_layer_is_kf_invariant() {
    let key = ObfuscationKey::default();
    let mut other = key.clone();
    other.kf ^= 0x7f01_2345;
    let mut r = rng();
    let packet = pack_session_id(&mut r, &key, 555);
    assert_eq!(
        unpack_session_id(&other, &packet).unwrap(),
        SessionPacket::Session(555)
    );
}

#[test]
fn body_decoding_is_deterministic() {
    let key = ObfuscationKey::default();
    let packet = [0x01, 0x02, 0x03, 0x04, 0xf9, 0x06];
    assert_eq!(
        unpack_session_id(&key, &packet),
        Err(Error::InvalidSessionId)
    );
    let packet = [0x01, 0x02, 0x03, 0x04, 0x37, 0x34, 0x26];
    assert_eq!(
        unpack_session_id(&key, &packet).unwrap(),
        SessionPacket::Session(12)
    );
}

#[test]
fn short_packet_rejected() {
    let key = ObfuscationKey::default();
    assert!(unpack_session_id(&key, &[]).is_err());
    assert!(unpack_session_id(&key, &[1, 2, 3]).is_err());
    assert!(unpack_session_id(&key, &[1, 2, 3, 4]).is_err());
}

#[test]
fn oversized_number_rejected() {
    let key = ObfuscationKey::default();
    // kfs[1] == kfs[3]: no net mask. 2^128 has 39 digits.
    let mut packet = vec![1u8, 5, 9, 5];
    packet.extend_from_slice(b"340282366920938463463374607431768211455 ");
    assert_eq!(
        unpack_session_id(&key, &packet).unwrap(),
        SessionPacket::Session(u128::MAX)
    );
    let last = packet.len() - 2;
    packet[last] = b'6';
    assert_eq!(unpack_session_id(&key, &packet), Err(Error::InvalidSessionId));
}

#[test]
fn packet_bytes_follow_the_draws() {
    let key = with_key(|k| k.kx = 3);
    let packet = pack_session_id_with(&key, 907, &[0, 1, 2, 3], 0, b' ', b"abc", b"xy");
    // The net mask is 1 ^ 3 = 2.
    let plain: Vec<u8> = packet[4..].iter().map(|b| b ^ 2).collect();
    assert_eq!(packet[..4], [0, 1, 2, 3]);
    assert_eq!(plain, b"907 abc/xy");
    // Noise: the drawn number, 1 where it is zero; no padding when kx % 256 is 0.
    let bare = with_key(|k| k.kx = 256);
    let dummy = pack_session_id_with(&bare, 0, &[0x80, 1, 1, 1], 0, b'+', b"abc", b"xy");
    assert_eq!(dummy[4..], *b"1+");
    let dummy = pack_session_id_with(&bare, 0, &[0x80, 1, 1, 1], 77, b'+', b"", b"");
    assert_eq!(dummy[4..], *b"77+");
}

#[test]
fn decimal_digits_are_appended() {
    let mut out = b"n=".to_vec();
    append_decimal(&mut out, 0);
    append_decimal(&mut out, u128::MAX);
    assert_eq!(out, b"n=0340282366920938463463374607431768211455");
}

#[test]
fn canary_encodes_all_flag_bits() {
    let key = ObfuscationKey::default();
    let c = flag_canary(&key);
    assert_eq!(c & CANARY_MAGIC_MASK, CANARY_MAGIC);
    assert_eq!((c >> 48) & 1, u64::from(key.masked));
    assert_eq!((c >> 49) & 1, u64::from(key.plaintext));
    assert_eq!((c >> 50) & 1, u64::from(key.delta_encode));
    assert_eq!((c >> 51) & 1, u64::from(key.shuffle_data));
    assert_eq!((c >> 52) & 0xfff, u64::from(key.kf & 0xfff));

    let mut other = key.clone();
    other.delta_encode = !other.delta_encode;
    assert_ne!(flag_canary(&other), c);

    other = key.clone();
    other.kf ^= 0x1000;
    assert_eq!(flag_canary(&other), c);
}

#[test]
fn nmux_carries_canary_and_parity() {
    let key = ObfuscationKey::default();
    for (low, mux) in [(u64::MAX, false), (0, true), (7, true), (8, false)] {
        let nmux = build_nmux(&key, low, mux);
        assert_eq!((nmux >> 64) as u64, flag_canary(&key));
        assert_eq!(nmux & 1 == 1, mux);
        assert_eq!((nmux as u64) >> 1, low >> 1);
        assert!(check_canary(&key, nmux));
        assert!(!check_canary(&with_key(|k| k.masked = false), nmux));
    }
    // A peer without the magic is accepted.
    assert!(check_canary(&key, 5));
}

#[test]
fn nop_rounds_bounds() {
    let mut key = ObfuscationKey::default();
    let mut r = rng();
    for _ in 0..100 {
        let rounds = nop_rounds(&mut r, &key);
        assert!((1..=3).contains(&rounds), "default config yields 1..3");
    }
    assert_eq!(max_nop_packets(&key), 3);
    key.kl = 0;
    key.kh = 0;
    assert_eq!(nop_rounds(&mut r, &key), 1);
    key.kl = 5;
    key.kh = 5;
    assert_eq!(nop_rounds(&mut r, &key), 1);
    key.kl = 14;
    key.kh = 14;
    assert_eq!(nop_rounds(&mut r, &key), 12);
    assert_eq!(max_nop_packets(&key), 12);
    key.kl = 12;
    key.kh = 10;
    for _ in 0..50 {
        assert!((1..=3).contains(&nop_rounds(&mut r, &key)));
    }
}

// ---------------------------------------------------------------------------
// Transmissions
// ---------------------------------------------------------------------------

const TEST_SID: u128 = 0x1234_5678_9abc_def0_1234_5678_9abc_def0;

type Pair = (Transmission<()>, Transmission<()>);

/// One end of a handshake with the bytes on their way to it.
struct End {
    t: Transmission<()>,
    state: HandshakeState,
    inbox: Vec<u8>,
}

fn done(end: &End) -> bool {
    matches!(end.state, HandshakeState::Done { .. })
}

/// Takes every complete message out of the inbox; gives the bytes to send.
fn advance(end: &mut End) -> Result<Vec<u8>, Error> {
    let mut out = Vec::new();
    while !done(end) && !end.inbox.is_empty() {
        let inbox = end.inbox.clone();
        let mut stream: &[u8] = &inbox;
        let msg = end.t.read(&mut stream)?;
        end.inbox = stream.to_vec();
        let step = end.t.handshake_receive(end.state, &msg)?;
        end.state = step.state;
        out.extend(step.send);
    }
    Ok(out)
}

/// How a client ends whose server has torn the connection down: it takes what
/// is still on its way, and then the stream is cut.
fn cut_off(client: &mut End) -> Error {
    match advance(client) {
        Ok(_) => client.t.read(&mut &client.inbox[..]).unwrap_err(),
        Err(e) => e,
    }
}

/// Runs a handshake to its end on both sides.
fn shake(
    client_key: ObfuscationKey,
    server_key: ObfuscationKey,
    mux: bool,
) -> (Result<Pair, Error>, Result<(), Error>) {
    let mut client = Transmission::new((), client_key).unwrap();
    let mut server = Transmission::new((), server_key).unwrap();
    let c = match client.handshake_client() {
        Ok(step) => step,
        Err(e) => return (Err(e), Ok(())),
    };
    let s = match server.handshake_server(TEST_SID, mux) {
        Ok(step) => step,
        Err(e) => {
            let mut client = End { t: client, state: c.state, inbox: Vec::new() };
            return (Err(cut_off(&mut client)), Err(e));
        }
    };
    let mut client = End { t: client, state: c.state, inbox: s.send };
    let mut server = End { t: server, state: s.state, inbox: c.send };
    let mut server_result = Ok(());
    loop {
        let moved = !client.inbox.is_empty() || !server.inbox.is_empty();
        match advance(&mut client) {
            Ok(bytes) => server.inbox.extend(bytes),
            Err(e) => return (Err(e), server_result),
        }
        match advance(&mut server) {
            Ok(bytes) => client.inbox.extend(bytes),
            Err(e) => {
                server_result = Err(e);
                if !done(&client) {
                    return (Err(cut_off(&mut client)), server_result);
                }
            }
        }
        if done(&client) && done(&server) {
            let want = HandshakeState::Done { session_id: TEST_SID, mux };
            assert_eq!(client.state, want);
            assert_eq!(server.state, want);
            return (Ok((client.t, server.t)), Ok(()));
        }
        if done(&client) && server_result.is_err() {
            return (Ok((client.t, server.t)), server_result);
        }
        assert!(moved, "neither side has anything to read");
    }
}

fn make_pair(client_key: ObfuscationKey, server_key: ObfuscationKey, mux: bool) -> Pair {
    let (client, server) = shake(client_key, server_key, mux);
    server.unwrap();
    client.unwrap()
}

fn default_pair() -> Pair {
    make_pair(ObfuscationKey::default(), ObfuscationKey::default(), false)
}

/// Sends one message through the streaming path.
fn carry(from: &mut Transmission<()>, to: &mut Transmission<()>, msg: &[u8]) {
    let wire = from.write(msg).unwrap();
    let mut stream: &[u8] = &wire;
    assert_eq!(to.read(&mut stream).unwrap(), msg);
    assert!(stream.is_empty());
}

#[test]
fn handshake_and_bidirectional_transfer() {
    let (mut client, mut server) = default_pair();
    let payloads: Vec<Vec<u8>> = vec![
        b"hello".to_vec(),
        vec![0u8; 1],
        (0..=255u32).map(|i| i as u8).collect(),
        vec![0xab; 65536],
    ];
    for payload in &payloads {
        carry(&mut client, &mut server, payload);
        carry(&mut server, &mut client, payload);
    }
}

#[test]
fn many_small_messages_in_sequence() {
    let (mut client, mut server) = default_pair();
    for i in 0..200u32 {
        let msg = format!("message-{i}").into_bytes();
        carry(&mut client, &mut server, &msg);
    }
}

#[test]
fn pre_handshake_traffic_is_printable() {
    let mut client = Transmission::new((), ObfuscationKey::default()).unwrap();
    let wire = client.write(b"probe").unwrap();
    assert!(!wire.is_empty());
    for &b in &wire {
        assert!((0x20..=0x7e).contains(&b), "non-printable byte {b:#04x}");
    }
    let step = client.handshake_client().unwrap();
    assert!(step.send.iter().all(|b| (0x20..=0x7e).contains(b)));
}

#[test]
fn mux_negotiation_parity() {
    let (mut client, mut server) =
        make_pair(ObfuscationKey::default(), ObfuscationKey::default(), true);
    carry(&mut client, &mut server, b"post-mux");
}

#[test]
fn flag_canary_mismatch_client_error() {
    let client_key = with_key(|k| k.shuffle_data = !k.shuffle_data);
    let (client, _) = shake(client_key, ObfuscationKey::default(), false);
    match client {
        Err(e) => assert_eq!(e, Error::FlagsMismatch),
        Ok(_) => panic!("flags must not match"),
    }
}

#[test]
fn kf_mismatch_breaks_handshake() {
    let client_key = with_key(|k| k.kf ^= 0x0101);
    let (client, _) = shake(client_key, ObfuscationKey::default(), false);
    // A successful handshake is impossible with mismatched `kf`.
    assert!(client.is_err());
}

#[test]
fn wrong_password_yields_garbage_not_plaintext() {
    let server_key = with_key(|k| k.transport_key = String::from("different-password"));
    let mut a = Transmission::new((), ObfuscationKey::default()).unwrap();
    let mut b = Transmission::new((), server_key).unwrap();

    let mut wire = Vec::new();
    a.encrypt_into(&mut wire, b"secret").unwrap();
    let garbage = b.decrypt(&wire).unwrap();
    assert_eq!(garbage.len(), b"secret".len());
    assert_ne!(&garbage, b"secret");
}

#[test]
fn zero_length_write_rejected() {
    let (mut client, _server) = default_pair();
    assert_eq!(client.write(&[]), Err(Error::ZeroLength));
    assert_eq!(
        client.encrypt_into(&mut Vec::new(), b""),
        Err(Error::ZeroLength)
    );
}

#[test]
fn oversized_write_rejected() {
    let (mut client, _server) = default_pair();
    let big = vec![0u8; PPP_BUFFER_SIZE + 1];
    assert_eq!(
        client.write(&big),
        Err(Error::FrameTooLarge { len: PPP_BUFFER_SIZE + 1 })
    );
}

#[test]
fn in_memory_path_interops_with_streaming() {
    let mut a = Transmission::new((), ObfuscationKey::default()).unwrap();
    let mut b = Transmission::new((), ObfuscationKey::default()).unwrap();

    let mut wire = Vec::new();
    a.encrypt_into(&mut wire, b"pre-handshake").unwrap();
    assert_eq!(b.decrypt(&wire).unwrap(), b"pre-handshake");

    let mut wire = Vec::new();
    b.encrypt_into(&mut wire, b"reply-pre").unwrap();
    assert_eq!(a.decrypt(&wire).unwrap(), b"reply-pre");

    let (mut client, mut server) = default_pair();
    let mut wire = Vec::new();
    client.encrypt_into(&mut wire, b"after-handshake").unwrap();
    assert_eq!(server.decrypt(&wire).unwrap(), b"after-handshake");

    let mut wire = Vec::new();
    server.encrypt_into(&mut wire, b"reply-post").unwrap();
    assert_eq!(client.decrypt(&wire).unwrap(), b"reply-post");
}

#[test]
fn all_cipher_methods_interop() {
    for (proto, transport) in [
        (Method::Aes128Cfb, Method::Aes256Cfb),
        (Method::Aes256Ctr, Method::Aes256Ctr),
        (Method::Aes128Ctr, Method::ChaCha20),
        (Method::ChaCha20, Method::ChaCha20),
        (Method::Aes256Cfb, Method::Aes128Ctr),
    ] {
        let key = with_key(|k| {
            k.protocol = proto;
            k.transport = transport;
        });
        let (mut client, mut server) = make_pair(key.clone(), key, false);
        carry(&mut client, &mut server, b"cipher-interop");
        carry(&mut server, &mut client, b"ok");
    }
}

#[test]
fn binary_mode_after_handshake() {
    let key = with_key(|k| k.plaintext = false);
    let (mut client, mut server) = make_pair(key.clone(), key, false);
    let payload = vec![0x5a; 4096];
    carry(&mut client, &mut server, &payload);
    carry(&mut server, &mut client, &payload);
    // The compact header is three bytes.
    assert_eq!(client.write(&payload).unwrap().len(), 4096 + 3);
}

#[test]
fn random_sized_roundtrip() {
    let mut state = 0x1234_5678u64;
    let mut next = |n: u64| {
        state = state
            .wrapping_mul(6_364_136_223_846_793_005)
            .wrapping_add(1_442_695_040_888_963_407);
        (state >> 33) % n
    };
    let (mut client, mut server) = default_pair();
    for _ in 0..30 {
        let len = 1 + next(8000) as usize;
        let payload: Vec<u8> = (0..len).map(|_| next(256) as u8).collect();
        carry(&mut client, &mut server, &payload);
    }
}

#[test]
fn truncated_packet_rejected_in_memory() {
    let (mut client, mut server) = default_pair();
    let mut wire = Vec::new();
    client.encrypt_into(&mut wire, b"will-be-truncated").unwrap();
    assert_eq!(
        server.decrypt(&wire[..wire.len() - 1]).unwrap_err(),
        Error::InvalidFrame
    );
    let mut doubled = wire.clone();
    doubled.extend_from_slice(&wire);
    assert_eq!(server.decrypt(&doubled).unwrap_err(), Error::InvalidFrame);
    assert_eq!(server.decrypt(&wire).unwrap(), b"will-be-truncated");
}

#[test]
fn truncated_binary_packet_rejected() {
    let key = with_key(|k| k.plaintext = false);
    let (mut client, mut server) = make_pair(key.clone(), key, false);
    let wire = client.write(b"binary").unwrap();
    assert_eq!(
        server.decrypt(&wire[..wire.len() - 1]).unwrap_err(),
        Error::InvalidFrame
    );
    assert_eq!(server.decrypt(&wire[..3]).unwrap_err(), Error::InvalidFrame);
}

#[test]
fn session_id_and_state_reported() {
    let (client, _server) = default_pair();
    assert!(client.is_handshaked());
    assert_eq!(client.session_id(), TEST_SID);
}

#[test]
fn abrupt_close_surfaces_io_error() {
    let mut client = Transmission::new((), ObfuscationKey::default()).unwrap();
    let _ = client.handshake_client().unwrap();
    let mut stream: &[u8] = &[];
    let err = client.read(&mut stream).unwrap_err();
    assert!(err.is_eof(), "expected EOF, got {err:?}");

    let key = with_key(|k| k.plaintext = false);
    let (mut client, mut server) = make_pair(key.clone(), key, false);
    let wire = client.write(b"cut off").unwrap();
    let mut stream: &[u8] = &wire[..5];
    let err = server.read(&mut stream).unwrap_err();
    assert!(err.is_eof());
    assert_eq!(err.message(), "io error: truncated binary frame");
}

#[test]
fn split_halves_interop_with_unsplit_peer() {
    for plaintext in [true, false] {
        let key = with_key(|k| k.plaintext = plaintext);
        let (client, mut server) = make_pair(key.clone(), key, false);
        let (mut tx, mut rx) = client.split_with(());
        assert!(tx.is_handshaked() && rx.is_handshaked());
        for i in 0..50u32 {
            let up = format!("cli-{i}").into_bytes();
            let wire = tx.write(&up).unwrap();
            let mut stream: &[u8] = &wire;
            assert_eq!(server.read_buf(&mut stream).unwrap(), up);
            let down = format!("srv-{i}").into_bytes();
            let wire = server.write(&down).unwrap();
            let mut stream: &[u8] = &wire;
            assert_eq!(rx.read_buf(&mut stream).unwrap(), down);
        }
        let wire = tx.write_tagged(7, b"tagged").unwrap();
        assert_eq!(server.decrypt(&wire).unwrap(), b"\x07tagged");
        let mut wire = Vec::new();
        tx.encrypt_into(&mut wire, b"plain").unwrap();
        assert_eq!(server.decrypt(&wire).unwrap(), b"plain");
        let mut wire = server.write(b"in place").unwrap();
        assert_eq!(rx.decrypt_in_place(&mut wire).unwrap(), b"in place");
        let wire = server.write(b"last").unwrap();
        let mut stream: &[u8] = &wire;
        assert_eq!(rx.read(&mut stream).unwrap(), b"last");
        assert!(tx.can_send() && rx.can_receive());
    }
}

#[test]
fn tagged_write_roundtrip_pre_handshake() {
    let key = ObfuscationKey::default();
    let mut wire = Vec::new();
    let mut tx = TxCore::new(key.clone(), rng());
    tx.encrypt_into_tagged(&mut wire, 0xd1, b"hello tagged").unwrap();

    let mut rx = RxCore::new(key);
    let mut stream: &[u8] = &wire;
    let msg = rx.read_buf(&mut stream).unwrap();
    assert_eq!(
        msg,
        [0xd1, b'h', b'e', b'l', b'l', b'o', b' ', b't', b'a', b'g', b'g', b'e', b'd']
    );
}

#[test]
fn in_place_matches_allocating_decrypt() {
    for plaintext in [false, true] {
        let key = with_key(|k| k.plaintext = plaintext);
        let mut tx = Transmission::new((), key.clone()).unwrap();
        let wire = tx.write(b"datagram body").unwrap();

        let mut rx_a = Transmission::new((), key.clone()).unwrap();
        let alloc = rx_a.decrypt(&wire).unwrap();

        let mut rx_b = Transmission::new((), key).unwrap();
        let mut owned = wire.clone();
        let in_place = rx_b.decrypt_in_place(&mut owned).unwrap();
        assert_eq!(alloc, in_place);
        assert_eq!(in_place, b"datagram body");
    }
}

#[test]
fn reading_in_pieces_matches_reading_whole() {
    for plaintext in [false, true] {
        let key = with_key(|k| k.plaintext = plaintext);
        let (mut client, mut server) = make_pair(key.clone(), key, false);
        for msg in [b"one".as_slice(), b"two two"] {
            let wire = client.write(msg).unwrap();
            let rx = server.receiver();
            let n = rx.head_len();
            let head = rx.read_head(&wire[..n]).unwrap();
            assert_eq!(n + head.len, wire.len());
            assert_eq!(rx.read_body(head, &wire[n..]).unwrap(), msg);
        }
    }
}

#[test]
fn handshake_failures_name_their_stage() {
    let key = with_key(|k| k.kx = 0);
    let zero = [0u8, 1, 0, 1, b'0', b' '];
    let sid = HandshakeState::AwaitSid { budget: 1 };
    let mux = HandshakeState::AwaitMux { sid: 9, ivv: 5, budget: 0 };
    let ivv = HandshakeState::AwaitIvv { session_id: 9, mux: true, budget: 2 };
    for (state, text) in [
        (sid, "handshake failed: server session id is zero"),
        (mux, "handshake failed: nmux is zero"),
        (ivv, "handshake failed: client ivv is zero"),
    ] {
        match decide(&key, state, &zero) {
            Verdict::Fail(e) => assert_eq!(e.message(), text),
            _ => panic!("zero must fail"),
        }
    }
    let noise = [0x80u8, 1, 1, 1, b'5', b' '];
    match decide(&key, ivv, &noise) {
        Verdict::Skip(next) => assert_eq!(
            next,
            HandshakeState::AwaitIvv { session_id: 9, mux: true, budget: 1 }
        ),
        _ => panic!("noise is skipped"),
    }
    match decide(&key, mux, &noise) {
        Verdict::Fail(e) => assert_eq!(e, Error::HandshakeFailed("too many dummy packets")),
        _ => panic!("the budget is used up"),
    }
    match decide(&key, sid, &[1, 2]) {
        Verdict::Fail(e) => assert_eq!(e, Error::InvalidFrame),
        _ => panic!("short packets fail"),
    }

    let mut t = Transmission::new((), key).unwrap();
    match t.handshake_server(0, false) {
        Err(e) => assert_eq!(e, Error::InvalidSessionId),
        Ok(_) => panic!("a session id of zero is refused"),
    }
    match t.accept_sid(9, 0) {
        Err(e) => assert_eq!(e, Error::HandshakeFailed("ivv generated as zero")),
        Ok(_) => panic!("an ivv of zero is refused"),
    }
    let step: HandshakeStep = t.accept_sid(9, 5).unwrap();
    assert_eq!(step.state, HandshakeState::AwaitMux { sid: 9, ivv: 5, budget: 3 });
    assert!(!step.send.is_empty());
}

#[test]
fn transport_is_carried_along() {
    let mut t = Transmission::with_rng(41u32, ObfuscationKey::default(), rng());
    *t.io_mut() += 1;
    assert_eq!(*t.io(), 42);
    assert!(!t.is_handshaked());
    assert_eq!(t.session_id(), 0);
    assert!(t.can_send() && t.can_receive() && t.can_handshake());
    let (mut tx, mut rx) = t.split_with(7);
    *tx.io_mut() += 1;
    *rx.io_mut() += 1;
    assert_eq!((*tx.io(), *rx.io()), (43, 8));
}

#[test]
fn error_texts_and_equality() {
    let eof = |m: &str| Error::Io(IoError::new(IoErrorKind::UnexpectedEof, m));
    assert_eq!(eof("a"), eof("b"));
    assert_ne!(eof("a"), Error::Io(IoError::new(IoErrorKind::Other, "a")));
    assert_ne!(Error::ZeroLength, Error::InvalidFrame);
    assert_ne!(Error::FrameTooLarge { len: 1 }, Error::FrameTooLarge { len: 2 });
    assert_ne!(Error::HandshakeFailed("a"), Error::HandshakeFailed("b"));
    assert_eq!(Error::InvalidConfig("a"), Error::InvalidConfig("a"));
    for (e, text) in [
        (eof("gone"), "io error: gone"),
        (Error::InvalidFrame, "invalid frame"),
        (Error::InvalidBase94, "invalid base94 data"),
        (Error::ChecksumMismatch, "first-frame checksum mismatch"),
        (Error::InvalidSessionId, "invalid session id"),
        (Error::HandshakeFailed("x"), "handshake failed: x"),
        (
            Error::FlagsMismatch,
            "obfuscation flags mismatch between client and server",
        ),
        (Error::FrameTooLarge { len: 70_000 }, "frame too large: 70000"),
        (Error::ZeroLength, "zero-length payload rejected"),
    ] {
        assert_eq!(e.message(), text);
    }
    assert_eq!(Error::from(nextppp::base94::DecodeError), Error::InvalidBase94);
}

#[test]
fn invalid_keys_are_refused() {
    assert_eq!(ObfuscationKey::default().validate(), Ok(()));
    let exponent = Err(Error::InvalidConfig("kl/kh exceed MAX_NOP_EXPONENT"));
    assert_eq!(with_key(|k| k.kl = 21).validate(), exponent);
    assert_eq!(with_key(|k| k.kh = 32).validate(), exponent);
    let empty = Err(Error::InvalidConfig("cipher password is empty"));
    assert_eq!(with_key(|k| k.protocol_key = String::new()).validate(), empty);
    assert_eq!(with_key(|k| k.transport_key = String::new()).validate(), empty);
}

#[test]
fn sealed_packets_open_with_the_mirrored_ciphers() {
    let key = ObfuscationKey::default();
    let mut tx = TxCore::new(key.clone(), rng());
    let packet = tx.seal(9, None, b"sealed");
    assert_eq!(packet.len(), 6 + 3);
    let mut proto =
        SessionCipher::new(key.protocol, CipherRole::Protocol, "nextppp").for_decryption();
    let head = [packet[0], packet[1], packet[2]];
    let (len, hkf) =
        nextppp::frame::binary::header_decrypt(key.kf, Some(&mut proto), &head).unwrap();
    assert_eq!((len, hkf), (6, key.kf ^ 9));
}
