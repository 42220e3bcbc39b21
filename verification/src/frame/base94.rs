//! Base94 framing: the printable envelope used before the handshake completes
//! (and permanently in `plaintext` mode).
//!
//! ```text
//! first frame:  [k][f|d1][d3][d2][c1][c2][c3]   (7-byte extended header)
//! later frames: [k][f|d1][d3][d2]               (4-byte simple header)
//!               [ base94-encoded binary packet ... ]
//! ```
//!
//! * `d1..d3`: the three digits of `(encoded_len + kf_mod) % mod`, with the
//!   last two exchanged.
//! * Parity: `k` is even when the second byte is random filler (the number has
//!   fewer than three digits) and odd when it is the digit `d1`.
//! * `c1..c3` in the first frame: the three digits of
//!   `((checksum(header) ^ encoded_len) + kf_mod) % mod`, shuffled, so that a
//!   corrupted stream or another `kf` fails at once.

use crate::base94::{
    all_digits, decimal_decode, decimal_value, decode_into, decoded, encode_into_with_len, encoded,
    encoded_len, is_digit, law_decode_inverts_encode, law_encode_printable, printable,
};
use crate::bytes::append;
use crate::crypto::ssea::{
    law_shuffle_permutes, law_unshuffle_inverts_shuffle, lcg_output, lcg_range,
    lemma_swap_chain_len, lemma_unshuffle_update, shuffle, shuffled, unshuffle, unshuffled,
};
use crate::error::{Error, IoErrorKind};
use crate::frame::checksum::{checksum, inet_chksum, lemma_word_sum_bound};
use crate::rng::draw_u8;
use crate::stream::take_exact;
use crate::{BASE94_MAX_FRAME, MOD_MAX, MOD_MIN};
use rand::rngs::StdRng;
use vstd::prelude::*;
use vstd::slice::slice_subrange;

verus! {

/// Simple header size (all frames).
pub const HEADER_SIMPLE: usize = 4;

/// Extended header size (first frame per direction, with the checksum).
pub const HEADER_EXTENDED: usize = 7;

// ---------------------------------------------------------------------------
// Model
// ---------------------------------------------------------------------------

/// What a framer holds: the key and, for each direction, whether its first
/// frame is still to come.
pub struct FramerModel {
    /// The obfuscation key.
    pub kf: u32,
    /// No frame has been sent yet.
    pub tx_first: bool,
    /// No frame has been received yet.
    pub rx_first: bool,
}

/// The length modulus: the first draw of a generator seeded with the key,
/// in `MOD_MIN..=MOD_MAX`.
pub open spec fn length_mod(kf: u32) -> int {
    262_144 + lcg_output(kf) as int % 568_441
}

/// The length offset: the magnitude of the key as a signed number, modulo the
/// length modulus.
pub open spec fn length_offset(kf: u32) -> int {
    (if kf < 0x8000_0000 {
        kf as int
    } else {
        0x1_0000_0000 - kf
    }) % length_mod(kf)
}

/// A number under the length obfuscation.
pub open spec fn disguised(kf: u32, n: int) -> int {
    (n + length_offset(kf)) % length_mod(kf)
}

/// The number behind a disguise.
pub open spec fn undisguised(kf: u32, n: int) -> int {
    (n + length_mod(kf) - length_offset(kf)) % length_mod(kf)
}

/// The three base94 digits of a number below `94^3`.
pub open spec fn three_digits(n: int) -> Seq<u8> {
    seq![(0x20 + n / 8836) as u8, (0x20 + n / 94 % 94) as u8, (0x20 + n % 94) as u8]
}

/// A random printable byte, moved to the parity that says what follows: odd
/// before a digit, even before filler.
pub open spec fn parity_byte(k: u8, digit_follows: bool) -> u8 {
    if digit_follows {
        if k % 2 == 1 {
            k
        } else if k >= 0x7e {
            0x21
        } else {
            (k + 1) as u8
        }
    } else if k % 2 == 0 {
        k
    } else {
        (k + 1) as u8
    }
}

/// The simple header for an encoded length, from a random byte `k` and a
/// random `filler`.
pub open spec fn simple_header(kf: u32, len: int, k: u8, filler: u8) -> Seq<u8> {
    let n: int = disguised(kf, len);
    let d: Seq<u8> = three_digits(n);
    seq![
        parity_byte(k, n >= 8836),
        if n >= 8836 {
            d[0]
        } else {
            filler
        },
        d[2],
        d[1],
    ]
}

/// The number that guards a first frame.
pub open spec fn guard_number(head: Seq<u8>, len: int) -> u32 {
    (checksum(head) as u32) ^ (len as u32)
}

/// The header of a frame. A first frame has none where its disguised guard
/// number has fewer than three digits.
pub open spec fn frame_header(kf: u32, first: bool, len: int, k: u8, filler: u8) -> Option<
    Seq<u8>,
> {
    let head: Seq<u8> = simple_header(kf, len, k, filler);
    let guard: int = disguised(kf, guard_number(head, len) as int);
    if !first {
        Some(head)
    } else if guard < 8836 {
        None
    } else {
        Some(head + shuffled(three_digits(guard), kf))
    }
}

/// The frame of a binary packet, for two random printable bytes.
pub open spec fn framed(m: FramerModel, k: u8, filler: u8, binary: Seq<u8>) -> Result<
    Seq<u8>,
    Error,
> {
    let body: Seq<u8> = encoded(binary, m.kf);
    if binary.len() == 0 {
        Err(Error::ZeroLength)
    } else if body.len() > BASE94_MAX_FRAME {
        Err(Error::FrameTooLarge { len: body.len() as usize })
    } else {
        match frame_header(m.kf, m.tx_first, body.len() as int, k, filler) {
            Some(head) => Ok(head + body),
            None => Err(Error::InvalidFrame),
        }
    }
}

/// The framer after sending a frame.
pub open spec fn after_send(m: FramerModel) -> FramerModel {
    FramerModel { tx_first: false, ..m }
}

/// The framer after receiving a frame.
pub open spec fn after_receive(m: FramerModel) -> FramerModel {
    FramerModel { rx_first: false, ..m }
}

/// How long the header of the next received frame is.
pub open spec fn rx_header_len(m: FramerModel) -> int {
    if m.rx_first {
        7
    } else {
        4
    }
}

/// The length digits of a received header, filler cleared and the exchange
/// undone.
pub open spec fn header_digits(h: Seq<u8>) -> Seq<u8> {
    seq![
        if h[0] % 2 == 0 {
            0x20u8
        } else {
            h[1]
        },
        h[3],
        h[2],
    ]
}

/// The number that three received digits disguise.
pub open spec fn digits_length(kf: u32, digits: Seq<u8>) -> Option<int> {
    if all_digits(digits) {
        Some(undisguised(kf, decimal_value(digits) as int))
    } else {
        None
    }
}

/// The encoded length that a received header announces.
pub open spec fn header_decoded(kf: u32, first: bool, h: Seq<u8>) -> Result<int, Error> {
    match digits_length(kf, header_digits(h)) {
        None => Err(Error::InvalidBase94),
        Some(len) => if len < 1 {
            Err(Error::InvalidFrame)
        } else if first && digits_length(kf, unshuffled(h.subrange(4, 7), kf)) is None {
            Err(Error::InvalidBase94)
        } else if first && digits_length(kf, unshuffled(h.subrange(4, 7), kf))
            != Some(guard_number(h.take(4), len) as int) {
            Err(Error::ChecksumMismatch)
        } else if len > BASE94_MAX_FRAME {
            Err(Error::FrameTooLarge { len: len as usize })
        } else {
            Ok(len)
        },
    }
}

/// The binary packet behind a frame body.
pub open spec fn body_decoded(kf: u32, body: Seq<u8>) -> Result<Seq<u8>, Error> {
    match decoded(body, kf) {
        Some(bytes) => Ok(bytes),
        None => Err(Error::InvalidBase94),
    }
}

/// The binary packet of a frame that is a whole datagram.
pub open spec fn packet_decoded(m: FramerModel, packet: Seq<u8>) -> Result<Seq<u8>, Error> {
    let h: int = rx_header_len(m);
    if packet.len() < h {
        Err(Error::InvalidFrame)
    } else {
        match header_decoded(m.kf, m.rx_first, packet.take(h)) {
            Err(e) => Err(e),
            Ok(len) => if len + h != packet.len() {
                Err(Error::InvalidFrame)
            } else {
                body_decoded(m.kf, packet.skip(h))
            },
        }
    }
}

/// What reading a frame off the front of a stream gives.
pub enum StreamFrame {
    /// The stream ends inside the frame.
    Cut,
    /// The header is refused; the rest of the stream follows it.
    BadHeader(Error),
    /// The body is refused; the rest of the stream follows it.
    BadBody(Error),
    /// The binary packet, and how many stream bytes the frame has.
    Frame(Seq<u8>, int),
}

/// Reads one frame off the front of a stream.
pub open spec fn stream_decoded(m: FramerModel, s: Seq<u8>) -> StreamFrame {
    let h: int = rx_header_len(m);
    if s.len() < h {
        StreamFrame::Cut
    } else {
        match header_decoded(m.kf, m.rx_first, s.take(h)) {
            Err(e) => StreamFrame::BadHeader(e),
            Ok(len) => if s.len() < h + len {
                StreamFrame::Cut
            } else {
                match body_decoded(m.kf, s.subrange(h, h + len)) {
                    Err(e) => StreamFrame::BadBody(e),
                    Ok(bytes) => StreamFrame::Frame(bytes, h + len),
                }
            },
        }
    }
}

/// An error for a stream that ends where more was to be read.
pub open spec fn cut_short(e: Error) -> bool {
    e matches Error::Io(f) && f.kind == IoErrorKind::UnexpectedEof && f.message@
        == "failed to fill whole buffer"@
}

/// What is left of a stream after reading a frame off its front: nothing where
/// it ends inside the frame, else what follows the bytes that were read.
pub open spec fn stream_rest(m: FramerModel, s: Seq<u8>) -> Seq<u8> {
    let h: int = rx_header_len(m);
    if s.len() < h {
        Seq::empty()
    } else {
        match header_decoded(m.kf, m.rx_first, s.take(h)) {
            Err(e) => s.skip(h),
            Ok(len) => if s.len() < h + len {
                Seq::empty()
            } else {
                s.skip(h + len)
            },
        }
    }
}

/// Whether the header of a datagram is accepted, so that its body is decoded.
pub open spec fn reaches_body(m: FramerModel, packet: Seq<u8>) -> bool {
    let h: int = rx_header_len(m);
    packet.len() >= h && header_decoded(m.kf, m.rx_first, packet.take(h)) == Ok::<int, Error>(
        packet.len() - h,
    )
}

// ---------------------------------------------------------------------------
// Laws
// ---------------------------------------------------------------------------

/// A receiver in the sender's state reads back the packet of every frame that
/// was sent, whatever the random bytes were: as a datagram, and off the front
/// of a stream, of which exactly the frame is consumed.
pub proof fn law_frame_roundtrip(
    tx: FramerModel,
    rx: FramerModel,
    k: u8,
    filler: u8,
    binary: Seq<u8>,
    rest: Seq<u8>,
)
    requires
        tx.kf == rx.kf,
        tx.tx_first == rx.rx_first,
        0x20 <= k <= 0x7e,
        0x20 <= filler <= 0x7e,
    ensures
        framed(tx, k, filler, binary) matches Ok(frame) ==> packet_decoded(rx, frame)
            == Ok::<Seq<u8>, Error>(binary) && stream_decoded(rx, frame + rest)
            == StreamFrame::Frame(binary, frame.len() as int),
{
    if framed(tx, k, filler, binary) is Ok {
        let kf: u32 = tx.kf;
        let first: bool = tx.tx_first;
        let body: Seq<u8> = encoded(binary, kf);
        let frame: Seq<u8> = framed(tx, k, filler, binary)->Ok_0;
        let h: int = rx_header_len(rx);
        let head: Seq<u8> = frame_header(kf, first, body.len() as int, k, filler)->Some_0;
        law_decode_inverts_encode(binary, kf);
        law_encode_printable(binary, kf);
        lemma_header_roundtrip(kf, first, body.len() as int, k, filler);
        assert(frame.take(h) =~= head);
        assert(frame.skip(h) =~= body);
        assert((frame + rest).take(h) =~= head);
        assert((frame + rest).subrange(h, h + body.len()) =~= body);
    }
}

/// Frames hold nothing but printable characters, and are as long as their
/// header and their encoded body: 7 more than the body for the first frame of
/// a direction, 4 more for the later ones.
pub proof fn law_frame_printable(m: FramerModel, k: u8, filler: u8, binary: Seq<u8>)
    requires
        0x20 <= k <= 0x7e,
        0x20 <= filler <= 0x7e,
    ensures
        framed(m, k, filler, binary) matches Ok(frame) ==> printable(frame) && frame.len()
            == encoded(binary, m.kf).len() + if m.tx_first {
            7int
        } else {
            4int
        },
{
    if framed(m, k, filler, binary) is Ok {
        let body: Seq<u8> = encoded(binary, m.kf);
        let len: int = body.len() as int;
        let frame: Seq<u8> = framed(m, k, filler, binary)->Ok_0;
        let n: int = disguised(m.kf, len);
        lemma_mod_bounds(m.kf);
        law_encode_printable(binary, m.kf);
        let head: Seq<u8> = simple_header(m.kf, len, k, filler);
        assert(printable(head));
        if m.tx_first {
            let guard: int = disguised(m.kf, guard_number(head, len) as int);
            let digits: Seq<u8> = three_digits(guard);
            assert(printable(digits));
            law_shuffle_permutes(digits, m.kf);
            let mixed: Seq<u8> = shuffled(digits, m.kf);
            assert forall|i: int| 0 <= i < 3 implies 0x20 <= #[trigger] mixed[i] <= 0x7e by {
                digits.to_multiset_ensures();
                mixed.to_multiset_ensures();
                assert(mixed.contains(mixed[i]));
                assert(digits.to_multiset().count(mixed[i]) > 0);
                assert(digits.contains(mixed[i]));
            }
        }
    }
}

/// The guard digits of a first frame are pinned: two accepted headers with the
/// same first four bytes carry guard numbers that agree modulo the length
/// modulus.
pub proof fn law_guard_pinned(kf: u32, a: Seq<u8>, b: Seq<u8>)
    requires
        a.len() == 7,
        b.len() == 7,
        a.take(4) == b.take(4),
        header_decoded(kf, true, a) is Ok,
        header_decoded(kf, true, b) is Ok,
    ensures
        undisguised(kf, decimal_value(unshuffled(a.subrange(4, 7), kf)) as int) == undisguised(
            kf,
            decimal_value(unshuffled(b.subrange(4, 7), kf)) as int,
        ),
{
    assert forall|i: int| 0 <= i < 4 implies a[i] == b[i] by {
        assert(a.take(4)[i] == a[i]);
        assert(b.take(4)[i] == b[i]);
    }
    assert(header_digits(a) =~= header_digits(b));
}

/// One flipped low bit in any guard byte of an accepted first header fails the
/// checksum.
pub proof fn law_flipped_guard_refused(kf: u32, h: Seq<u8>, i: int)
    requires
        h.len() == 7,
        header_decoded(kf, true, h) is Ok,
        4 <= i < 7,
    ensures
        header_decoded(kf, true, h.update(i, h[i] ^ 1u8)) == Err::<int, Error>(
            Error::ChecksumMismatch,
        ),
{
    let x: u8 = h[i] ^ 1u8;
    let bad: Seq<u8> = h.update(i, x);
    let guard: Seq<u8> = h.subrange(4, 7);
    let digits: Seq<u8> = unshuffled(guard, kf);
    let p: int = lemma_unshuffle_update(guard, kf, i - 4, x);
    assert(bad.subrange(4, 7) =~= guard.update(i - 4, x));
    assert(bad.take(4) =~= h.take(4));
    assert(header_digits(bad) =~= header_digits(h));
    let c: u8 = digits[p];
    assert(is_digit(c));
    assert(0x20u8 <= c <= 0x7du8 ==> (c ^ 1u8) == (if c % 2 == 0 {
        (c + 1) as u8
    } else {
        (c - 1) as u8
    }) && 0x20u8 <= (c ^ 1u8) <= 0x7du8) by (bit_vector);
    let flipped: Seq<u8> = digits.update(p, x);
    assert(all_digits(flipped));
    lemma_three_digit_value(digits);
    lemma_three_digit_value(flipped);
    lemma_mod_bounds(kf);
    lemma_near_numbers_differ(
        decimal_value(digits) + length_mod(kf) - length_offset(kf),
        decimal_value(flipped) + length_mod(kf) - length_offset(kf),
        length_mod(kf),
    );
}

/// A first frame with one flipped low bit in any guard byte is refused, as a
/// datagram and off the front of a stream.
pub proof fn law_tampered_first_frame_refused(
    tx: FramerModel,
    rx: FramerModel,
    k: u8,
    filler: u8,
    binary: Seq<u8>,
    rest: Seq<u8>,
    i: int,
)
    requires
        tx.kf == rx.kf,
        tx.tx_first,
        rx.rx_first,
        0x20 <= k <= 0x7e,
        0x20 <= filler <= 0x7e,
        4 <= i < 7,
    ensures
        framed(tx, k, filler, binary) matches Ok(frame) ==> packet_decoded(
            rx,
            frame.update(i, frame[i] ^ 1u8),
        ) == Err::<Seq<u8>, Error>(Error::ChecksumMismatch) && stream_decoded(
            rx,
            frame.update(i, frame[i] ^ 1u8) + rest,
        ) == StreamFrame::BadHeader(Error::ChecksumMismatch),
{
    if framed(tx, k, filler, binary) is Ok {
        let frame: Seq<u8> = framed(tx, k, filler, binary)->Ok_0;
        let bad: Seq<u8> = frame.update(i, frame[i] ^ 1u8);
        law_frame_roundtrip(tx, rx, k, filler, binary, rest);
        law_flipped_guard_refused(rx.kf, frame.take(7), i);
        assert(bad.take(7) =~= frame.take(7).update(i, frame[i] ^ 1u8));
        assert((bad + rest).take(7) =~= bad.take(7));
    }
}

proof fn lemma_three_digit_value(d: Seq<u8>)
    requires
        d.len() == 3,
        all_digits(d),
    ensures
        decimal_value(d) == (d[0] - 0x20) * 8836 + (d[1] - 0x20) * 94 + (d[2] - 0x20),
{
    reveal_with_fuel(decimal_value, 4);
    assert(is_digit(d[0]) && is_digit(d[1]) && is_digit(d[2]));
    assert(d.drop_last()[1] == d[1]);
    assert(d.drop_last().drop_last()[0] == d[0]);
}

proof fn lemma_near_numbers_differ(a: int, b: int, m: int)
    requires
        m > 0,
        a != b,
        -m < a - b < m,
    ensures
        a % m != b % m,
{
    if a % m == b % m {
        vstd::arithmetic::div_mod::lemma_fundamental_div_mod(a, m);
        vstd::arithmetic::div_mod::lemma_fundamental_div_mod(b, m);
        let q: int = a / m - b / m;
        assert(m * q == a - b) by (nonlinear_arith)
            requires
                q == a / m - b / m,
                a == m * (a / m) + a % m,
                b == m * (b / m) + b % m,
                a % m == b % m,
        ;
        assert(q == 0) by (nonlinear_arith)
            requires
                m > 0,
                -m < m * q < m,
        ;
    }
}

/// The header in characters. Behind a first character that is odd where three
/// digits count and even where two do, stand the first digit, or filler, and
/// then the third and the second; they are the base94 digits of the encoded
/// length plus the magnitude of the key, modulo a number that a generator draws
/// from the key. The first header goes on with three shuffled digits, of the
/// checksum of those four characters XORed with the length, disguised alike.
pub proof fn law_header_layout(kf: u32, first: bool, len: int, k: u8, filler: u8)
    requires
        1 <= len <= 131_136,
        0x20 <= k <= 0x7e,
        frame_header(kf, first, len, k, filler) is Some,
    ensures
        ({
            let h: Seq<u8> = frame_header(kf, first, len, k, filler)->Some_0;
            let m: int = 262_144 + lcg_output(kf) as int % 568_441;
            let o: int = (if kf < 0x8000_0000 {
                kf as int
            } else {
                0x1_0000_0000 - kf
            }) % m;
            let n: int = (len + o) % m;
            &&& h.len() == if first {
                7int
            } else {
                4int
            }
            &&& n >= 94 * 94 ==> h[0] % 2 == 1 && (h[1] - 0x20) * 8836 + (h[3] - 0x20) * 94 + (h[2]
                - 0x20) == n
            &&& n < 94 * 94 ==> h[0] % 2 == 0 && h[1] == filler && (h[3] - 0x20) * 94 + (h[2] - 0x20)
                == n
            &&& 0x20 <= h[2] <= 0x7d && 0x20 <= h[3] <= 0x7d
            &&& h[0] == k || h[0] == k + 1 || (k == 0x7e && h[0] == 0x21)
            &&& (k % 2 == 1) == (n >= 94 * 94) ==> h[0] == k
            &&& first ==> {
                let d: Seq<u8> = unshuffled(h.subrange(4, 7), kf);
                let g: int = (((checksum(h.take(4)) as u32) ^ (len as u32)) + o) % m;
                (d[0] - 0x20) * 8836 + (d[1] - 0x20) * 94 + (d[2] - 0x20) == g
            }
        }),
{
    lemma_mod_bounds(kf);
    let h: Seq<u8> = frame_header(kf, first, len, k, filler)->Some_0;
    let head: Seq<u8> = simple_header(kf, len, k, filler);
    let n: int = disguised(kf, len);
    assert(n / 8836 < 94);
    assert(n / 94 / 94 == n / 8836);
    assert(n == n / 8836 * 8836 + n / 94 % 94 * 94 + n % 94);
    if first {
        let g: int = disguised(kf, guard_number(head, len) as int);
        lemma_three_digits(g);
        lemma_three_digit_value(three_digits(g));
        lemma_swap_chain_len(three_digits(g), kf, 3);
        law_unshuffle_inverts_shuffle(three_digits(g), kf);
        assert(h.take(4) =~= head);
        assert(h.subrange(4, 7) =~= shuffled(three_digits(g), kf));
    }
}

/// Every first header has its three guard digits, or there is no header: it is
/// missing exactly where the disguised guard number has fewer.
pub proof fn law_header_missing(kf: u32, len: int, k: u8, filler: u8)
    ensures
        frame_header(kf, false, len, k, filler) is Some,
        frame_header(kf, true, len, k, filler) is None <==> disguised(
            kf,
            ((checksum(simple_header(kf, len, k, filler)) as u32) ^ (len as u32)) as int,
        ) < 8836,
        frame_header(kf, true, len, k, filler) matches Some(h) ==> frame_header(
            kf,
            false,
            len,
            k,
            filler,
        ) == Some(h.take(4)),
{
    if let Some(h) = frame_header(kf, true, len, k, filler) {
        assert(h.take(4) =~= simple_header(kf, len, k, filler));
    }
}

/// The length modulus lies between `64^3` and `94^3`, so that three digits
/// always do, and every disguise comes off again.
pub proof fn law_disguise_comes_off(kf: u32, n: int)
    requires
        0 <= n < 262_144,
    ensures
        262_144 <= length_mod(kf) <= 830_584,
        length_mod(kf) == 262_144 + lcg_output(kf) as int % 568_441,
        0 <= disguised(kf, n) < length_mod(kf),
        undisguised(kf, disguised(kf, n)) == n,
{
    lemma_mod_bounds(kf);
    lemma_undisguise(kf, n);
}

/// How long frames are: there is no frame of nothing, none whose text is longer
/// than 131136 characters is sent, and none is accepted.
pub proof fn law_frame_sizes(
    m: FramerModel,
    k: u8,
    filler: u8,
    binary: Seq<u8>,
    first: bool,
    h: Seq<u8>,
)
    ensures
        framed(m, k, filler, Seq::empty()) == Err::<Seq<u8>, Error>(Error::ZeroLength),
        binary.len() > 0 && encoded(binary, m.kf).len() > 131_136 ==> framed(m, k, filler, binary)
            == Err::<Seq<u8>, Error>(
            Error::FrameTooLarge { len: encoded(binary, m.kf).len() as usize },
        ),
        binary.len() > 0 && encoded(binary, m.kf).len() <= 131_136 && !m.tx_first ==> framed(
            m,
            k,
            filler,
            binary,
        ) is Ok,
        header_decoded(m.kf, first, h) matches Ok(len) ==> 1 <= len <= 131_136,
{
}

/// What a header of four characters says: digits that are none are refused, and
/// else the length is what they disguise, refused where it is zero or above
/// 131136.
pub proof fn law_header_reading(kf: u32, h: Seq<u8>)
    requires
        h.len() == 4,
    ensures
        ({
            let a: u8 = if h[0] % 2 == 0 {
                0x20
            } else {
                h[1]
            };
            let value: int = (a - 0x20) * 8836 + (h[3] - 0x20) * 94 + (h[2] - 0x20);
            let digits: bool = 0x20 <= a <= 0x7d && 0x20 <= h[2] <= 0x7d && 0x20 <= h[3] <= 0x7d;
            let len: int = (value + length_mod(kf) - length_offset(kf)) % length_mod(kf);
            &&& !digits ==> header_decoded(kf, false, h) == Err::<int, Error>(Error::InvalidBase94)
            &&& digits && len == 0 ==> header_decoded(kf, false, h) == Err::<int, Error>(
                Error::InvalidFrame,
            )
            &&& digits && len > 131_136 ==> header_decoded(kf, false, h) == Err::<int, Error>(
                Error::FrameTooLarge { len: len as usize },
            )
            &&& digits && 1 <= len <= 131_136 ==> header_decoded(kf, false, h) == Ok::<int, Error>(
                len,
            )
        }),
{
    let d: Seq<u8> = header_digits(h);
    lemma_mod_bounds(kf);
    if all_digits(d) {
        assert(is_digit(d[0]) && is_digit(d[1]) && is_digit(d[2]));
        lemma_three_digit_value(d);
    } else {
        let i: int = choose|i: int| 0 <= i < d.len() && !is_digit(#[trigger] d[i]);
        assert(!is_digit(d[i]));
    }
}

/// A frame is first in its direction once: sending or receiving one leaves the
/// other direction and the key alone.
pub proof fn law_first_frames(m: FramerModel)
    ensures
        !after_send(m).tx_first && after_send(m).rx_first == m.rx_first && after_send(m).kf == m.kf,
        !after_receive(m).rx_first && after_receive(m).tx_first == m.tx_first && after_receive(m).kf
            == m.kf,
        rx_header_len(m) == if m.rx_first {
            7int
        } else {
            4int
        },
{
}

/// A frame off a stream is the frame that the same bytes are as a datagram, and
/// nothing behind it matters; one byte less of it and the stream is cut, and all
/// of it used up.
pub proof fn law_stream_is_datagrams(m: FramerModel, s: Seq<u8>, n: int)
    requires
        0 <= n <= s.len(),
    ensures
        stream_decoded(m, s) matches StreamFrame::Frame(binary, used) ==> {
            &&& rx_header_len(m) < used <= s.len()
            &&& packet_decoded(m, s.take(used)) == Ok::<Seq<u8>, Error>(binary)
            &&& stream_rest(m, s) == s.skip(used)
            &&& n < used ==> stream_decoded(m, s.take(n)) is Cut
        },
        stream_decoded(m, s) is Cut ==> stream_rest(m, s) == Seq::<u8>::empty(),
        stream_decoded(m, s) matches StreamFrame::BadHeader(e) ==> stream_rest(m, s) == s.skip(
            rx_header_len(m),
        ) && packet_decoded(m, s) == Err::<Seq<u8>, Error>(e),
        stream_decoded(m, s) matches StreamFrame::BadBody(e) ==> e == Error::InvalidBase94,
        packet_decoded(m, s) matches Ok(binary) ==> stream_decoded(m, s) == StreamFrame::Frame(
            binary,
            s.len() as int,
        ),
{
    let h: int = rx_header_len(m);
    if s.len() >= h {
        assert(s.subrange(h, s.len() as int) =~= s.skip(h));
        if n >= h {
            assert(s.take(n).take(h) =~= s.take(h));
        }
        if let StreamFrame::Frame(binary, used) = stream_decoded(m, s) {
            assert(s.take(used).take(h) =~= s.take(h));
            assert(s.take(used).skip(h) =~= s.subrange(h, used));
        }
    }
}

/// A frame whose header announces another length than the datagram has is
/// refused: nothing may be cut off or appended.
pub proof fn law_datagram_length_exact(m: FramerModel, packet: Seq<u8>)
    ensures
        packet_decoded(m, packet) matches Ok(bytes) ==> header_decoded(
            m.kf,
            m.rx_first,
            packet.take(rx_header_len(m)),
        ) == Ok::<int, Error>(packet.len() - rx_header_len(m)),
{
}

proof fn lemma_mod_bounds(kf: u32)
    ensures
        262_144 <= length_mod(kf) <= 830_584,
        0 <= length_offset(kf) < length_mod(kf),
        forall|n: int| 0 <= #[trigger] disguised(kf, n) < 830_584,
{
    assert forall|n: int| 0 <= #[trigger] disguised(kf, n) < 830_584 by {
        let m: int = length_mod(kf);
        assert(0 <= (n + length_offset(kf)) % m < m);
    }
}

proof fn lemma_undisguise(kf: u32, n: int)
    requires
        0 <= n < length_mod(kf),
    ensures
        undisguised(kf, disguised(kf, n)) == n,
{
    lemma_mod_bounds(kf);
    let m: int = length_mod(kf);
    let o: int = length_offset(kf);
    let t: int = n + o;
    if t < m {
        assert(t % m == t) by (nonlinear_arith)
            requires
                0 <= t < m,
        ;
        assert((t + m - o) % m == n) by (nonlinear_arith)
            requires
                t == n + o,
                0 <= n < m,
        ;
    } else {
        assert(t % m == t - m) by (nonlinear_arith)
            requires
                m <= t < 2 * m,
        ;
        assert((t - m + m - o) % m == n) by (nonlinear_arith)
            requires
                t == n + o,
                0 <= n < m,
        ;
    }
}

proof fn lemma_three_digits(n: int)
    requires
        0 <= n < 830_584,
    ensures
        all_digits(three_digits(n)),
        three_digits(n).len() == 3,
        decimal_value(three_digits(n)) == n,
{
    let d: Seq<u8> = three_digits(n);
    reveal_with_fuel(decimal_value, 4);
    assert(d.drop_last() =~= seq![d[0], d[1]]);
    assert(d.drop_last().drop_last() =~= seq![d[0]]);
    assert(d.drop_last().drop_last().drop_last() =~= Seq::<u8>::empty());
    assert(n / 94 / 94 == n / 8836);
}

proof fn lemma_digits_bound(d: Seq<u8>)
    requires
        d.len() == 3,
        all_digits(d),
    ensures
        decimal_value(d) < 830_584,
{
    reveal_with_fuel(decimal_value, 4);
    assert(is_digit(d[0]) && is_digit(d[1]) && is_digit(d[2]));
    assert(d.drop_last().last() == d[1]);
    assert(d.drop_last().drop_last().last() == d[0]);
    assert(d.drop_last().drop_last().drop_last() =~= Seq::<u8>::empty());
}

proof fn lemma_guard_small(head: Seq<u8>, len: int)
    requires
        0 <= len <= BASE94_MAX_FRAME,
    ensures
        guard_number(head, len) < 262_144,
{
    let a: u32 = checksum(head) as u32;
    let b: u32 = len as u32;
    assert(a < 65_536u32 && b < 262_144u32 ==> (a ^ b) < 262_144u32) by (bit_vector);
}

proof fn lemma_header_roundtrip(kf: u32, first: bool, len: int, k: u8, filler: u8)
    requires
        1 <= len <= BASE94_MAX_FRAME,
        0x20 <= k <= 0x7e,
        frame_header(kf, first, len, k, filler) is Some,
    ensures
        frame_header(kf, first, len, k, filler)->Some_0.len() == if first {
            7int
        } else {
            4int
        },
        header_decoded(kf, first, frame_header(kf, first, len, k, filler)->Some_0) == Ok::<
            int,
            Error,
        >(len),
{
    lemma_mod_bounds(kf);
    let h: Seq<u8> = frame_header(kf, first, len, k, filler)->Some_0;
    let head: Seq<u8> = simple_header(kf, len, k, filler);
    let n: int = disguised(kf, len);
    lemma_three_digits(n);
    lemma_undisguise(kf, len);
    assert(header_digits(h) =~= three_digits(n));
    if first {
        let guard: int = guard_number(head, len) as int;
        let g: int = disguised(kf, guard);
        lemma_guard_small(head, len);
        lemma_three_digits(g);
        lemma_undisguise(kf, guard);
        lemma_swap_chain_len(three_digits(g), kf, 3);
        law_unshuffle_inverts_shuffle(three_digits(g), kf);
        assert(h.take(4) =~= head);
        assert(h.subrange(4, 7) =~= shuffled(three_digits(g), kf));
    }
}

// ---------------------------------------------------------------------------
// The framer
// ---------------------------------------------------------------------------

/// Stateful base94 frame codec. The first-frame states of the two directions
/// are independent of each other.
#[derive(Clone, Copy)]
pub struct Base94Framer {
    kf: u32,
    tx_first: bool,
    rx_first: bool,
}

impl View for Base94Framer {
    type V = FramerModel;

    closed spec fn view(&self) -> FramerModel {
        FramerModel { kf: self.kf, tx_first: self.tx_first, rx_first: self.rx_first }
    }
}

/// The length modulus of a key.
fn modulus(kf: u32) -> (r: u32)
    ensures
        r == length_mod(kf),
        262_144 <= r <= 830_584,
{
    let mut seed: u32 = kf;
    lcg_range(&mut seed, MOD_MIN, MOD_MAX)
}

/// The length offset of a key.
fn offset(kf: u32) -> (r: u32)
    ensures
        r == length_offset(kf),
        r < length_mod(kf),
{
    let m: u32 = modulus(kf);
    let magnitude: u32 = if kf < 0x8000_0000 { kf } else { u32::MAX - kf + 1 };
    magnitude % m
}

/// A number under the length obfuscation.
fn disguise(kf: u32, n: u32) -> (r: u32)
    requires
        n < 0x8000_0000,
    ensures
        r == disguised(kf, n as int),
        r < 830_584,
{
    proof {
        lemma_mod_bounds(kf);
    }
    (n + offset(kf)) % modulus(kf)
}

/// The three digits of a number.
fn to_three_digits(n: u32) -> (r: [u8; 3])
    requires
        n < 830_584,
    ensures
        r@ == three_digits(n as int),
{
    let digits: [u8; 3] = [
        (n / 8836) as u8 + 0x20,
        (n / 94 % 94) as u8 + 0x20,
        (n % 94) as u8 + 0x20,
    ];
    assert(digits@ =~= three_digits(n as int));
    digits
}

/// The number that three received digits disguise.
fn decode_length(kf: u32, digits: &[u8]) -> (r: Result<u32, Error>)
    requires
        digits@.len() == 3,
    ensures
        match digits_length(kf, digits@) {
            Some(n) => r == Ok::<u32, Error>(n as u32) && 0 <= n < 830_584,
            None => r == Err::<u32, Error>(Error::InvalidBase94),
        },
{
    proof {
        lemma_mod_bounds(kf);
        if all_digits(digits@) {
            lemma_digits_bound(digits@);
        }
    }
    match decimal_decode(digits) {
        Ok(n) => {
            let m: u64 = modulus(kf) as u64;
            let o: u64 = offset(kf) as u64;
            Ok(((n + (m - o)) % m) as u32)
        },
        Err(e) => Err(Error::from(e)),
    }
}

/// Whether a byte is printable.
pub open spec fn is_printable(c: u8) -> bool {
    0x20 <= c <= 0x7e
}

impl Base94Framer {
    /// A framer for a key, with both first frames still to come.
    pub fn new(kf: u32) -> (r: Base94Framer)
        ensures
            r@ == (FramerModel { kf, tx_first: true, rx_first: true }),
    {
        Base94Framer { kf, tx_first: true, rx_first: true }
    }

    /// Encodes one framed packet (header and base94 payload) and appends it to
    /// `out`. `binary` is the encrypted binary-frame packet.
    pub fn encode_frame(&mut self, rng: &mut StdRng, out: &mut Vec<u8>, binary: &[u8]) -> (r:
        Result<(), Error>)
        requires
            encoded(binary@, old(self)@.kf).len() <= usize::MAX,
        ensures
            exists|k: u8, filler: u8|
                is_printable(k) && is_printable(filler) && match #[trigger] framed(
                    old(self)@,
                    k,
                    filler,
                    binary@,
                ) {
                    Ok(frame) => r == Ok::<(), Error>(()) && final(out)@ == old(out)@ + frame
                        && final(self)@ == after_send(old(self)@),
                    Err(e) => r == Err::<(), Error>(e) && final(out)@ == old(out)@ && final(self)@
                        == old(self)@,
                },
    {
        let mut k: u8 = 0x20;
        let mut filler: u8 = 0x20;
        if binary.len() > 0 {
            let len: usize = encoded_len(binary, self.kf);
            if len <= BASE94_MAX_FRAME {
                k = draw_u8(rng, 0x20, 0x7e);
                if disguise(self.kf, len as u32) < 8836 {
                    filler = draw_u8(rng, 0x20, 0x7e);
                }
            }
        }
        let ghost before: FramerModel = self@;
        let r: Result<(), Error> = self.encode_frame_with(k, filler, out, binary);
        proof {
            let outcome: Result<Seq<u8>, Error> = framed(before, k, filler, binary@);
            assert(is_printable(k) && is_printable(filler));
        }
        r
    }

    /// [`Base94Framer::encode_frame`] for given random bytes; `filler` takes
    /// part only where the length has fewer than three digits.
    pub fn encode_frame_with(&mut self, k: u8, filler: u8, out: &mut Vec<u8>, binary: &[u8]) -> (r:
        Result<(), Error>)
        requires
            0x20 <= k <= 0x7e,
            encoded(binary@, old(self)@.kf).len() <= usize::MAX,
        ensures
            match framed(old(self)@, k, filler, binary@) {
                Ok(frame) => r == Ok::<(), Error>(()) && final(out)@ == old(out)@ + frame
                    && final(self)@ == after_send(old(self)@),
                Err(e) => r == Err::<(), Error>(e) && final(out)@ == old(out)@ && final(self)@
                    == old(self)@,
            },
    {
        if binary.len() == 0 {
            return Err(Error::ZeroLength);
        }
        let len: usize = encoded_len(binary, self.kf);
        if len > BASE94_MAX_FRAME {
            return Err(Error::FrameTooLarge { len });
        }
        let head: [u8; 4] = self.encode_header_with(k, filler, len);
        let ghost before: Seq<u8> = out@;
        if self.tx_first {
            proof {
                lemma_word_sum_bound(head@);
                lemma_guard_small(head@, len as int);
            }
            let guard: u32 = (inet_chksum(head.as_slice()) as u32) ^ (len as u32);
            let number: u32 = disguise(self.kf, guard);
            if number < 8836 {
                return Err(Error::InvalidFrame);
            }
            let mut digits: [u8; 3] = to_three_digits(number);
            shuffle(&mut digits, self.kf);
            self.tx_first = false;
            append(out, head.as_slice());
            append(out, digits.as_slice());
            encode_into_with_len(out, binary, self.kf, len);
            assert(out@ =~= before + (head@ + digits@ + encoded(binary@, self@.kf)));
        } else {
            append(out, head.as_slice());
            encode_into_with_len(out, binary, self.kf, len);
            assert(out@ =~= before + (head@ + encoded(binary@, self@.kf)));
        }
        Ok(())
    }

    /// Builds the simple header for an encoded payload of `len` chars.
    fn encode_header_with(&self, k: u8, filler: u8, len: usize) -> (r: [u8; 4])
        requires
            0x20 <= k <= 0x7e,
            len <= BASE94_MAX_FRAME,
        ensures
            r@ == simple_header(self@.kf, len as int, k, filler),
    {
        let n: u32 = disguise(self.kf, len as u32);
        let d: [u8; 3] = to_three_digits(n);
        let mut seed: u8 = k;
        let mut second: u8 = d[0];
        if n < 8836 {
            if seed % 2 != 0 {
                seed += 1;
            }
            second = filler;
        } else if seed % 2 == 0 {
            seed += 1;
            if seed > 0x7e {
                seed = 0x21;
            }
        }
        let head: [u8; 4] = [seed, second, d[2], d[1]];
        assert(head@ =~= simple_header(self@.kf, len as int, k, filler));
        head
    }

    /// How many header bytes the next received frame starts with.
    pub fn header_len(&self) -> (r: usize)
        ensures
            r == rx_header_len(self@),
    {
        if self.rx_first {
            HEADER_EXTENDED
        } else {
            HEADER_SIMPLE
        }
    }

    /// Decodes and validates a received header. Does not advance the
    /// first-frame state: that happens once the whole frame has been
    /// validated.
    pub fn decode_header(&self, header: &[u8]) -> (r: Result<usize, Error>)
        requires
            header@.len() == rx_header_len(self@),
        ensures
            match header_decoded(self@.kf, self@.rx_first, header@) {
                Ok(len) => r == Ok::<usize, Error>(len as usize) && 1 <= len <= BASE94_MAX_FRAME,
                Err(e) => r == Err::<usize, Error>(e),
            },
    {
        let digits: [u8; 3] = [
            if header[0] % 2 == 0 { 0x20 } else { header[1] },
            header[3],
            header[2],
        ];
        assert(digits@ =~= header_digits(header@));
        let len: u32 = match decode_length(self.kf, digits.as_slice()) {
            Ok(n) => n,
            Err(e) => return Err(e),
        };
        if len < 1 {
            return Err(Error::InvalidFrame);
        }
        if self.rx_first {
            let mut check: [u8; 3] = [header[4], header[5], header[6]];
            assert(check@ =~= header@.subrange(4, 7));
            unshuffle(&mut check, self.kf);
            let n: u32 = match decode_length(self.kf, check.as_slice()) {
                Ok(n) => n,
                Err(e) => return Err(e),
            };
            let head: &[u8] = slice_subrange(header, 0, 4);
            assert(head@ =~= header@.take(4));
            proof {
                lemma_word_sum_bound(head@);
            }
            let guard: u32 = (inet_chksum(head) as u32) ^ len;
            if n != guard {
                return Err(Error::ChecksumMismatch);
            }
        }
        if len as usize > BASE94_MAX_FRAME {
            return Err(Error::FrameTooLarge { len: len as usize });
        }
        Ok(len as usize)
    }

    /// Decodes a received frame body into `out`, which is cleared first, and
    /// advances the first-frame state when the body is well formed.
    pub fn decode_body(&mut self, body: &[u8], out: &mut Vec<u8>) -> (r: Result<(), Error>)
        ensures
            match body_decoded(old(self)@.kf, body@) {
                Ok(bytes) => r == Ok::<(), Error>(()) && final(out)@ == bytes && final(self)@
                    == after_receive(old(self)@),
                Err(e) => r == Err::<(), Error>(e) && final(out)@.len() == 0 && final(self)@
                    == old(self)@,
            },
    {
        out.clear();
        match decode_into(out, body, self.kf) {
            Ok(()) => {
                self.rx_first = false;
                assert(out@ =~= decoded(body@, self@.kf)->Some_0);
                Ok(())
            },
            Err(e) => Err(Error::from(e)),
        }
    }

    /// Reads one complete base94 frame from `r` and returns the decoded binary
    /// packet. The first-frame state advances only after the entire frame
    /// validates.
    pub fn read_frame(&mut self, r: &mut &[u8]) -> (out: Result<Vec<u8>, Error>)
        ensures
            match stream_decoded(old(self)@, (*old(r))@) {
                StreamFrame::Frame(bytes, used) => (out matches Ok(v) && v@ == bytes) && final(self)@
                    == after_receive(old(self)@),
                StreamFrame::Cut => (out matches Err(e) && cut_short(e)) && final(self)@ == old(self)@,
                StreamFrame::BadHeader(e) => out == Err::<Vec<u8>, Error>(e)
                    && final(self)@ == old(self)@,
                StreamFrame::BadBody(e) => out == Err::<Vec<u8>, Error>(e)
                    && final(self)@ == old(self)@,
            },
            (*final(r))@ == stream_rest(old(self)@, (*old(r))@),
    {
        let mut scratch: Vec<u8> = Vec::new();
        self.read_frame_with(r, &mut scratch)
    }

    /// [`Base94Framer::read_frame`] with a buffer of the caller for the encoded
    /// bytes.
    pub fn read_frame_with(&mut self, r: &mut &[u8], scratch: &mut Vec<u8>) -> (out: Result<
        Vec<u8>,
        Error,
    >)
        ensures
            match stream_decoded(old(self)@, (*old(r))@) {
                StreamFrame::Frame(bytes, used) => {
                    &&& out matches Ok(v) && v@ == bytes
                    &&& final(self)@ == after_receive(old(self)@)
                    &&& final(scratch)@ == (*old(r))@.subrange(rx_header_len(old(self)@), used)
                },
                StreamFrame::Cut => (out matches Err(e) && cut_short(e)) && final(self)@ == old(self)@,
                StreamFrame::BadHeader(e) => out == Err::<Vec<u8>, Error>(e)
                    && final(self)@ == old(self)@,
                StreamFrame::BadBody(e) => out == Err::<Vec<u8>, Error>(e)
                    && final(self)@ == old(self)@,
            },
            (*final(r))@ == stream_rest(old(self)@, (*old(r))@),
    {
        let mut packet: Vec<u8> = Vec::new();
        match self.read_frame_into(r, scratch, &mut packet) {
            Ok(()) => Ok(packet),
            Err(e) => Err(e),
        }
    }

    /// [`Base94Framer::read_frame`] with buffers of the caller for the encoded
    /// bytes and the decoded binary packet. `out` is cleared and refilled with
    /// the full binary packet, its header included.
    pub fn read_frame_into(&mut self, r: &mut &[u8], scratch: &mut Vec<u8>, out: &mut Vec<u8>) -> (res:
        Result<(), Error>)
        ensures
            match stream_decoded(old(self)@, (*old(r))@) {
                StreamFrame::Frame(bytes, used) => {
                    &&& res == Ok::<(), Error>(())
                    &&& final(out)@ == bytes
                    &&& final(self)@ == after_receive(old(self)@)
                    &&& final(scratch)@ == (*old(r))@.subrange(rx_header_len(old(self)@), used)
                },
                StreamFrame::Cut => {
                    &&& res matches Err(e) && cut_short(e)
                    &&& final(self)@ == old(self)@
                    &&& final(out)@ == old(out)@
                },
                StreamFrame::BadHeader(e) => {
                    &&& res == Err::<(), Error>(e)
                    &&& final(self)@ == old(self)@
                    &&& final(out)@ == old(out)@
                },
                StreamFrame::BadBody(e) => {
                    &&& res == Err::<(), Error>(e)
                    &&& final(self)@ == old(self)@
                    &&& final(out)@.len() == 0
                },
            },
            (*final(r))@ == stream_rest(old(self)@, (*old(r))@),
    {
        let ghost s: Seq<u8> = (*r)@;
        let hlen: usize = self.header_len();
        let header: &[u8] = match take_exact(r, hlen) {
            Ok(h) => h,
            Err(e) => return Err(Error::Io(e)),
        };
        let len: usize = match self.decode_header(header) {
            Ok(n) => n,
            Err(e) => return Err(e),
        };
        let body: &[u8] = match take_exact(r, len) {
            Ok(b) => b,
            Err(e) => return Err(Error::Io(e)),
        };
        scratch.clear();
        append(scratch, body);
        proof {
            assert(body@ =~= s.subrange(hlen as int, hlen + len));
            assert(scratch@ =~= body@);
            assert((*r)@ =~= s.skip(hlen + len));
        }
        self.decode_body(body, out)
    }

    /// In-memory variant of [`Base94Framer::read_frame`] for datagrams: decodes
    /// the one frame that `packet` is. Failed decodes do not advance the
    /// first-frame state.
    pub fn decode_packet(&mut self, packet: &[u8]) -> (r: Result<Vec<u8>, Error>)
        ensures
            match packet_decoded(old(self)@, packet@) {
                Ok(bytes) => (r matches Ok(v) && v@ == bytes) && final(self)@ == after_receive(
                    old(self)@,
                ),
                Err(e) => r == Err::<Vec<u8>, Error>(e) && final(self)@ == old(self)@,
            },
    {
        let mut out: Vec<u8> = Vec::new();
        match self.decode_packet_into(&mut out, packet) {
            Ok(()) => Ok(out),
            Err(e) => Err(e),
        }
    }

    /// [`Base94Framer::decode_packet`] into a buffer of the caller, which is
    /// cleared and refilled with the binary packet.
    pub fn decode_packet_into(&mut self, out: &mut Vec<u8>, packet: &[u8]) -> (r: Result<
        (),
        Error,
    >)
        ensures
            match packet_decoded(old(self)@, packet@) {
                Ok(bytes) => r == Ok::<(), Error>(()) && final(out)@ == bytes && final(self)@
                    == after_receive(old(self)@),
                Err(e) => r == Err::<(), Error>(e) && final(self)@ == old(self)@ && final(out)@
                    == if reaches_body(old(self)@, packet@) {
                    Seq::empty()
                } else {
                    old(out)@
                },
            },
    {
        let hlen: usize = self.header_len();
        let n: usize = packet.len();
        if n < hlen {
            return Err(Error::InvalidFrame);
        }
        let header: &[u8] = slice_subrange(packet, 0, hlen);
        assert(header@ =~= packet@.take(hlen as int));
        let len: usize = match self.decode_header(header) {
            Ok(x) => x,
            Err(e) => return Err(e),
        };
        if len + hlen != n {
            return Err(Error::InvalidFrame);
        }
        let body: &[u8] = slice_subrange(packet, hlen, n);
        assert(body@ =~= packet@.skip(hlen as int));
        self.decode_body(body, out)
    }
}

} // verus!
