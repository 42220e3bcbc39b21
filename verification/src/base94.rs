//! Base94 codec: binary data in printable ASCII.
//!
//! Each byte `b` maps to `(b - kf) mod 256`. Mixed values below 93 become one
//! char, the others escape into two chars (a `0x7D`/`0x7E` leader and a
//! follower), so every emitted char stays in `0x20..=0x7E` and the output is
//! at most twice the input. Only the low byte of the key-mixing parameter
//! `kf` takes part; `0` gives the plain codec.

use vstd::prelude::*;

verus! {

/// Number of printable digit symbols, `0x20..=0x7D`.
pub const SYMBOL_COUNT: u8 = 94;

/// Mixed values from here on are encoded as two characters.
pub const ESCAPE_RADIX: u8 = 93;

/// Most digits that a `u64` has in base 94.
pub const DECIMAL_MAX_LEN: usize = 10;

/// The input holds characters outside the printable alphabet or a truncated
/// or overflowing escape sequence.
#[derive(Debug, Clone, Copy, PartialEq, Eq, Structural)]
pub struct DecodeError;

impl DecodeError {
    /// The error as text.
    pub fn message(&self) -> (r: &'static str)
        ensures
            r@ == "invalid base94 data"@,
    {
        "invalid base94 data"
    }
}

// ---------------------------------------------------------------------------
// Model of the codec
// ---------------------------------------------------------------------------

/// The value of byte `b` after key mixing.
pub open spec fn mixed(b: u8, kf: u32) -> int {
    (b as int - kf as int % 256) % 256
}

/// The byte whose mixed value is `v`.
pub open spec fn unmixed(v: int, kf: u32) -> u8 {
    ((v + kf as int % 256) % 256) as u8
}

/// The one or two characters that stand for `b`.
pub open spec fn encoded_byte(b: u8, kf: u32) -> Seq<u8> {
    let v: int = mixed(b, kf);
    if v < 93 {
        seq![(0x20 + v) as u8]
    } else {
        seq![(0x7c + v / 93) as u8, (0x20 + v % 93) as u8]
    }
}

/// The text of a byte sequence.
pub open spec fn encoded(src: Seq<u8>, kf: u32) -> Seq<u8>
    decreases src.len(),
{
    if src.len() == 0 {
        Seq::empty()
    } else {
        encoded_byte(src[0], kf) + encoded(src.skip(1), kf)
    }
}

/// How many characters the first symbol of `text` has: one for a plain
/// character, two for a well-formed escape pair, none where neither starts
/// the text.
pub open spec fn symbol_len(text: Seq<u8>) -> int {
    if text.len() >= 1 && 0x20 <= text[0] <= 0x7c {
        1
    } else if text.len() >= 2 && 0x7d <= text[0] <= 0x7e && 0x20 <= text[1] <= 0x7d && pair_value(
        text[0],
        text[1],
    ) <= 0xff {
        2
    } else {
        0
    }
}

/// The mixed value of an escape pair.
pub open spec fn pair_value(leader: u8, follower: u8) -> int {
    (leader - 0x7c) * 93 + (follower - 0x20)
}

/// The mixed value of the first symbol of `text`.
pub open spec fn symbol_value(text: Seq<u8>) -> int {
    if symbol_len(text) == 1 {
        text[0] - 0x20
    } else {
        pair_value(text[0], text[1])
    }
}

/// The bytes that a text stands for, where it is well formed.
pub open spec fn decoded(text: Seq<u8>, kf: u32) -> Option<Seq<u8>>
    decreases text.len(),
{
    if text.len() == 0 {
        Some(Seq::empty())
    } else if symbol_len(text) == 0 {
        None
    } else {
        match decoded(text.skip(symbol_len(text)), kf) {
            Some(rest) => Some(seq![unmixed(symbol_value(text), kf)] + rest),
            None => None,
        }
    }
}

/// Every character of `text` is printable.
pub open spec fn printable(text: Seq<u8>) -> bool {
    forall|i: int| 0 <= i < text.len() ==> 0x20 <= #[trigger] text[i] <= 0x7e
}

/// How many bytes of `src`, taken modulo 256 after `sub` was subtracted, reach
/// the threshold.
pub open spec fn sub_ge_count(src: Seq<u8>, sub: u8, threshold: u8) -> nat
    decreases src.len(),
{
    if src.len() == 0 {
        0
    } else {
        sub_ge_count(src.drop_last(), sub, threshold) + if (src.last() - sub) % 256 >= threshold {
            1nat
        } else {
            0nat
        }
    }
}

// ---------------------------------------------------------------------------
// Laws of the codec
// ---------------------------------------------------------------------------

/// Decoding gives back what was encoded, for every key.
pub proof fn law_decode_inverts_encode(src: Seq<u8>, kf: u32)
    ensures
        decoded(encoded(src, kf), kf) == Some(src),
    decreases src.len(),
{
    if src.len() > 0 {
        let rest: Seq<u8> = src.skip(1);
        law_decode_inverts_encode(rest, kf);
        lemma_decoded_symbol(src[0], encoded(rest, kf), kf);
        assert(seq![src[0]] + rest =~= src);
    } else {
        assert(src =~= Seq::empty());
    }
}

/// Two byte sequences with the same text are equal.
pub proof fn law_encode_injective(a: Seq<u8>, b: Seq<u8>, kf: u32)
    requires
        encoded(a, kf) == encoded(b, kf),
    ensures
        a == b,
{
    law_decode_inverts_encode(a, kf);
    law_decode_inverts_encode(b, kf);
}

/// Every emitted character is printable, and the text is at least as long as
/// the input and at most twice as long.
pub proof fn law_encode_printable(src: Seq<u8>, kf: u32)
    ensures
        printable(encoded(src, kf)),
        src.len() <= encoded(src, kf).len() <= 2 * src.len(),
    decreases src.len(),
{
    if src.len() > 0 {
        law_encode_printable(src.skip(1), kf);
        let head: Seq<u8> = encoded_byte(src[0], kf);
        assert(printable(head));
        assert forall|i: int| 0 <= i < encoded(src, kf).len() implies 0x20 <= #[trigger] encoded(
            src,
            kf,
        )[i] <= 0x7e by {
            if i >= head.len() {
                assert(encoded(src, kf)[i] == encoded(src.skip(1), kf)[i - head.len()]);
            }
        }
    }
}

/// The text has one character for every byte, and one more for every byte whose
/// mixed value is 93 or above.
pub proof fn law_encoded_len(src: Seq<u8>, kf: u32)
    ensures
        encoded(src, kf).len() == src.len() + sub_ge_count(src, (kf % 256) as u8, 93),
        src.len() <= encoded(src, kf).len() <= 2 * src.len(),
    decreases src.len(),
{
    law_encode_printable(src, kf);
    if src.len() > 0 {
        let init: Seq<u8> = src.drop_last();
        law_encoded_len(init, kf);
        lemma_encoded_push(init, src.last(), kf);
        assert(init.push(src.last()) =~= src);
    }
}

/// Only printable text decodes, and it decodes to no more bytes than it has
/// characters and no fewer than half of them.
pub proof fn law_decode_accepts_only_printable(text: Seq<u8>, kf: u32)
    ensures
        decoded(text, kf) matches Some(bytes) ==> printable(text) && text.len() <= 2 * bytes.len()
            && bytes.len() <= text.len(),
    decreases text.len(),
{
    if text.len() > 0 && symbol_len(text) != 0 {
        let k: int = symbol_len(text);
        let rest: Seq<u8> = text.skip(k);
        law_decode_accepts_only_printable(rest, kf);
        if decoded(text, kf) is Some {
            assert forall|i: int| 0 <= i < text.len() implies 0x20 <= #[trigger] text[i] <= 0x7e by {
                if i >= k {
                    assert(text[i] == rest[i - k]);
                }
            }
        }
    }
}

/// Texts decode piece by piece: the decoding of `encoded(a) + b` is `a`
/// followed by the decoding of `b`.
pub proof fn law_decode_concat(a: Seq<u8>, b: Seq<u8>, kf: u32)
    ensures
        decoded(encoded(a, kf) + b, kf) == match decoded(b, kf) {
            Some(t) => Some(a + t),
            None => None::<Seq<u8>>,
        },
    decreases a.len(),
{
    if a.len() == 0 {
        assert(encoded(a, kf) + b =~= b);
        if decoded(b, kf) is Some {
            assert(a + decoded(b, kf)->Some_0 =~= decoded(b, kf)->Some_0);
        }
    } else {
        let rest: Seq<u8> = a.skip(1);
        law_decode_concat(rest, b, kf);
        assert(encoded(a, kf) + b =~= encoded_byte(a[0], kf) + (encoded(rest, kf) + b));
        lemma_decoded_symbol(a[0], encoded(rest, kf) + b, kf);
        if decoded(b, kf) is Some {
            let t: Seq<u8> = decoded(b, kf)->Some_0;
            assert(seq![a[0]] + (rest + t) =~= a + t);
        }
    }
}

/// Byte by byte: with the low byte of the key taken off modulo 256, a value below
/// 93 is the character that many above the space, and a larger one is `0x7d`, or
/// from 186 on `0x7e`, and the character for the rest.
pub proof fn law_byte_characters(src: Seq<u8>, b: u8, kf: u32)
    ensures
        encoded(Seq::empty(), kf) == Seq::<u8>::empty(),
        ({
            let v: int = (b + 256 - kf as int % 256) % 256;
            encoded(src.push(b), kf) == encoded(src, kf) + if v < 93 {
                seq![(0x20 + v) as u8]
            } else if v < 186 {
                seq![0x7du8, (0x20 + (v - 93)) as u8]
            } else {
                seq![0x7eu8, (0x20 + (v - 186)) as u8]
            }
        }),
{
    lemma_encoded_push(src, b, kf);
    let v: int = mixed(b, kf);
    assert(v == (b + 256 - kf as int % 256) % 256);
    if v >= 186 {
        assert(v / 93 == 2 && v % 93 == v - 186);
    } else if v >= 93 {
        assert(v / 93 == 1 && v % 93 == v - 93);
    }
}

/// Character by character: what a text that starts with `c`, or with `c` and
/// `d`, decodes to, and where it does not.
pub proof fn law_characters_read(c: u8, d: u8, rest: Seq<u8>, kf: u32)
    ensures
        decoded(Seq::empty(), kf) == Some(Seq::<u8>::empty()),
        c < 0x20 || c > 0x7e ==> decoded(seq![c] + rest, kf) is None,
        c > 0x7c ==> decoded(seq![c], kf) is None,
        0x20 <= c <= 0x7c ==> decoded(seq![c] + rest, kf) == match decoded(rest, kf) {
            Some(t) => Some(seq![((c - 0x20 + kf) % 256) as u8] + t),
            None => None::<Seq<u8>>,
        },
        c == 0x7d && 0x20 <= d <= 0x7d ==> decoded(seq![c, d] + rest, kf) == match decoded(rest, kf) {
            Some(t) => Some(seq![((93 + (d - 0x20) + kf) % 256) as u8] + t),
            None => None::<Seq<u8>>,
        },
        c == 0x7e && 0x20 <= d <= 0x65 ==> decoded(seq![c, d] + rest, kf) == match decoded(rest, kf) {
            Some(t) => Some(seq![((186 + (d - 0x20) + kf) % 256) as u8] + t),
            None => None::<Seq<u8>>,
        },
        c == 0x7d && !(0x20 <= d <= 0x7d) ==> decoded(seq![c, d] + rest, kf) is None,
        c == 0x7e && !(0x20 <= d <= 0x65) ==> decoded(seq![c, d] + rest, kf) is None,
{
    let one: Seq<u8> = seq![c] + rest;
    let two: Seq<u8> = seq![c, d] + rest;
    assert(one[0] == c);
    assert(two[0] == c && two[1] == d);
    assert(one.skip(1) =~= rest);
    assert(two.skip(2) =~= rest);
    assert(seq![c].len() == 1);
    let k: int = kf as int;
    assert forall|v: int| 0 <= v < 512 implies #[trigger] ((v + k % 256) % 256) == (v + k)
        % 256 by {}
}

/// The base94 digits of a number, most significant first; the count of bytes
/// that reach a threshold grows by those that do.
pub proof fn law_digits_read(s: Seq<u8>, c: u8, sub: u8, threshold: u8)
    requires
        0x20 <= c <= 0x7d,
    ensures
        decimal_value(Seq::empty()) == 0,
        decimal_value(s.push(c)) == 94 * decimal_value(s) + (c - 0x20),
        all_digits(s.push(c)) <==> all_digits(s),
        sub_ge_count(Seq::empty(), sub, threshold) == 0,
        sub_ge_count(s.push(c), sub, threshold) == sub_ge_count(s, sub, threshold) + if (c + 256
            - sub) % 256 >= threshold {
            1int
        } else {
            0int
        },
{
    assert(s.push(c).drop_last() =~= s);
    if all_digits(s) {
        assert forall|i: int| 0 <= i < s.push(c).len() implies is_digit(
            #[trigger] s.push(c)[i],
        ) by {
            if i < s.len() {
                assert(is_digit(s[i]));
            }
        }
    }
    if all_digits(s.push(c)) {
        assert forall|i: int| 0 <= i < s.len() implies is_digit(#[trigger] s[i]) by {
            assert(is_digit(s.push(c)[i]));
        }
    }
}

proof fn lemma_decoded_symbol(b: u8, tail: Seq<u8>, kf: u32)
    ensures
        decoded(encoded_byte(b, kf) + tail, kf) == match decoded(tail, kf) {
            Some(t) => Some(seq![b] + t),
            None => None::<Seq<u8>>,
        },
{
    let head: Seq<u8> = encoded_byte(b, kf);
    let text: Seq<u8> = head + tail;
    let v: int = mixed(b, kf);
    assert(0 <= v < 256);
    assert(unmixed(v, kf) == b) by {
        let k: int = kf as int % 256;
        assert(((b as int - k) % 256 + k) % 256 == b as int);
    }
    assert(text[0] == head[0]);
    if v < 93 {
        assert(symbol_len(text) == 1);
    } else {
        assert(text[1] == head[1]);
        assert(v / 93 == 1 || v / 93 == 2);
        assert(v == (v / 93) * 93 + v % 93);
        assert(pair_value(text[0], text[1]) == v);
        assert(symbol_len(text) == 2);
    }
    assert(symbol_value(text) == v);
    assert(text.skip(symbol_len(text)) =~= tail);
}

proof fn lemma_low_char_blocks_decoding(text: Seq<u8>, kf: u32, i: int)
    requires
        0 <= i < text.len(),
        text[i] < 0x20,
    ensures
        decoded(text, kf) is None,
{
    law_decode_accepts_only_printable(text, kf);
}

proof fn lemma_encoded_push(src: Seq<u8>, b: u8, kf: u32)
    ensures
        encoded(src.push(b), kf) == encoded(src, kf) + encoded_byte(b, kf),
    decreases src.len(),
{
    let whole: Seq<u8> = src.push(b);
    if src.len() == 0 {
        assert(whole.skip(1) =~= Seq::<u8>::empty());
        assert(encoded(whole.skip(1), kf) =~= Seq::<u8>::empty());
        assert(encoded(whole, kf) =~= encoded_byte(b, kf));
        assert(encoded(src, kf) + encoded_byte(b, kf) =~= encoded_byte(b, kf));
    } else {
        lemma_encoded_push(src.skip(1), b, kf);
        assert(whole.skip(1) =~= src.skip(1).push(b));
        assert(encoded_byte(src[0], kf) + (encoded(src.skip(1), kf) + encoded_byte(b, kf))
            =~= encoded(src, kf) + encoded_byte(b, kf));
    }
}

// ---------------------------------------------------------------------------
// The codec
// ---------------------------------------------------------------------------

/// How many bytes satisfy `b - sub (mod 256) >= threshold`.
pub fn count_sub_ge(src: &[u8], sub: u8, threshold: u8) -> (r: usize)
    ensures
        r == sub_ge_count(src@, sub, threshold),
        r <= src@.len(),
{
    let mut count: usize = 0;
    let mut i: usize = 0;
    while i < src.len()
        invariant
            i <= src@.len(),
            count <= i,
            count == sub_ge_count(src@.take(i as int), sub, threshold),
        decreases src@.len() - i,
    {
        proof {
            assert(src@.take(i + 1).drop_last() =~= src@.take(i as int));
        }
        if src[i].wrapping_sub(sub) >= threshold {
            count += 1;
        }
        i += 1;
    }
    proof {
        assert(src@.take(i as int) =~= src@);
    }
    count
}

/// Whether every byte reaches the threshold.
pub fn all_ge(src: &[u8], threshold: u8) -> (r: bool)
    ensures
        r == (forall|i: int| 0 <= i < src@.len() ==> #[trigger] src@[i] >= threshold),
{
    let mut i: usize = 0;
    while i < src.len()
        invariant
            i <= src@.len(),
            forall|j: int| 0 <= j < i ==> #[trigger] src@[j] >= threshold,
        decreases src@.len() - i,
    {
        if src[i] < threshold {
            return false;
        }
        i += 1;
    }
    true
}

/// Encodes binary bytes into printable characters, appending to `out`.
pub fn encode_into(out: &mut Vec<u8>, src: &[u8], kf: u32)
    ensures
        final(out)@ == old(out)@ + encoded(src@, kf),
{
    let kf8: u8 = (kf % 256) as u8;
    let ghost start: Seq<u8> = out@;
    let mut i: usize = 0;
    proof {
        assert(src@.take(0) =~= Seq::<u8>::empty());
        assert(start + encoded(src@.take(0), kf) =~= start);
    }
    while i < src.len()
        invariant
            i <= src@.len(),
            kf8 == kf % 256,
            out@ == start + encoded(src@.take(i as int), kf),
        decreases src@.len() - i,
    {
        let b: u8 = src[i];
        let v: u8 = b.wrapping_sub(kf8);
        proof {
            lemma_encoded_push(src@.take(i as int), b, kf);
            assert(src@.take(i as int).push(b) =~= src@.take(i + 1));
            assert(v as int == mixed(b, kf));
        }
        if v < ESCAPE_RADIX {
            out.push(0x20 + v);
            assert(out@ =~= start + encoded(src@.take(i + 1), kf));
        } else {
            let second: u8 = if v >= 2 * ESCAPE_RADIX { 1 } else { 0 };
            proof {
                assert(v as int / 93 == 1 + second);
                assert(v as int % 93 == v - 93 - 93 * second);
            }
            out.push(0x7d + second);
            out.push(0x20 + (v - ESCAPE_RADIX - ESCAPE_RADIX * second));
            assert(out@ =~= start + encoded(src@.take(i + 1), kf));
        }
        i += 1;
    }
    proof {
        assert(src@.take(i as int) =~= src@);
    }
}

/// [`encode_into`] with an output length that the caller has computed with
/// [`encoded_len`]; the length serves to reserve the space.
pub fn encode_into_with_len(out: &mut Vec<u8>, src: &[u8], kf: u32, len: usize)
    requires
        len == encoded(src@, kf).len(),
    ensures
        final(out)@ == old(out)@ + encoded(src@, kf),
{
    out.reserve(len);
    encode_into(out, src, kf);
}

/// Number of characters that [`encode_into`] emits for `src`.
pub fn encoded_len(src: &[u8], kf: u32) -> (r: usize)
    requires
        encoded(src@, kf).len() <= usize::MAX,
    ensures
        r == encoded(src@, kf).len(),
        r == src@.len() + sub_ge_count(src@, (kf % 256) as u8, 93),
        src@.len() <= r <= 2 * src@.len(),
{
    proof {
        law_encoded_len(src@, kf);
    }
    let escapes: usize = count_sub_ge(src, (kf % 256) as u8, ESCAPE_RADIX);
    src.len() + escapes
}

/// Decodes base94 text (see [`encode_into`]) and appends the bytes to `out`.
/// On invalid input `out` is left unchanged and an error is returned.
pub fn decode_into(out: &mut Vec<u8>, src: &[u8], kf: u32) -> (r: Result<(), DecodeError>)
    ensures
        match decoded(src@, kf) {
            Some(bytes) => r is Ok && final(out)@ == old(out)@ + bytes,
            None => r is Err && final(out)@ == old(out)@,
        },
{
    if !all_ge(src, 0x20) {
        proof {
            let i: int = choose|i: int| 0 <= i < src@.len() && src@[i] < 0x20;
            lemma_low_char_blocks_decoding(src@, kf, i);
        }
        return Err(DecodeError);
    }
    let kf8: u8 = (kf % 256) as u8;
    let n: usize = src.len();
    let start: usize = out.len();
    let mut i: usize = 0;
    proof {
        assert(src@.skip(0) =~= src@);
        if decoded(src@, kf) is Some {
            assert(out@.skip(start as int) + decoded(src@, kf)->Some_0 =~= decoded(
                src@,
                kf,
            )->Some_0);
        }
    }
    while i < n
        invariant
            n == src@.len(),
            i <= n,
            kf8 == kf % 256,
            forall|j: int| 0 <= j < n ==> #[trigger] src@[j] >= 0x20,
            start == old(out)@.len(),
            start <= out@.len(),
            out@.take(start as int) == old(out)@,
            decoded(src@, kf) == match decoded(src@.skip(i as int), kf) {
                Some(rest) => Some(out@.skip(start as int) + rest),
                None => None::<Seq<u8>>,
            },
        decreases n - i,
    {
        let ghost text: Seq<u8> = src@.skip(i as int);
        let ghost before: Seq<u8> = out@;
        let b: u8 = src[i] - 0x20;
        let mut v: u8 = b;
        let mut width: usize = 1;
        if b >= ESCAPE_RADIX {
            if b > 94 || n - i < 2 {
                out.truncate(start);
                return Err(DecodeError);
            }
            let b2: u8 = src[i + 1] - 0x20;
            let pair: u16 = (b as u16 - 92) * 93 + b2 as u16;
            if b2 > ESCAPE_RADIX || pair > 0xff {
                out.truncate(start);
                return Err(DecodeError);
            }
            v = pair as u8;
            width = 2;
        }
        proof {
            assert(symbol_len(text) == width);
            assert(symbol_value(text) == v);
            assert(text.skip(width as int) =~= src@.skip(i + width));
        }
        out.push(v.wrapping_add(kf8));
        proof {
            assert(unmixed(v as int, kf) == out@.last());
            assert(out@.take(start as int) =~= before.take(start as int));
            if decoded(src@.skip(i + width), kf) is Some {
                let rest: Seq<u8> = decoded(src@.skip(i + width), kf)->Some_0;
                assert(before.skip(start as int) + (seq![out@.last()] + rest) =~= out@.skip(
                    start as int,
                ) + rest);
            }
        }
        i += width;
    }
    proof {
        let rest: Seq<u8> = src@.skip(i as int);
        assert(rest =~= Seq::<u8>::empty());
        assert(out@.skip(start as int) + Seq::<u8>::empty() =~= out@.skip(start as int));
        assert(out@ =~= out@.take(start as int) + out@.skip(start as int));
    }
    Ok(())
}

// ---------------------------------------------------------------------------
// Numbers in base 94
// ---------------------------------------------------------------------------

/// The digits of `v`, most significant first, without leading zeros.
pub open spec fn decimal_digits(v: nat) -> Seq<u8>
    decreases v,
{
    if v < 94 {
        seq![(0x20 + v) as u8]
    } else {
        decimal_digits(v / 94).push((0x20 + v % 94) as u8)
    }
}

/// Whether `c` is a digit.
pub open spec fn is_digit(c: u8) -> bool {
    0x20 <= c <= 0x7d
}

/// Every character is a digit.
pub open spec fn all_digits(s: Seq<u8>) -> bool {
    forall|i: int| 0 <= i < s.len() ==> is_digit(#[trigger] s[i])
}

/// The number that a digit string stands for.
pub open spec fn decimal_value(s: Seq<u8>) -> nat
    decreases s.len(),
{
    if s.len() == 0 {
        0
    } else {
        decimal_value(s.drop_last()) * 94 + (s.last() as int - 0x20) as nat
    }
}

/// `94` to the power of `k`.
pub open spec fn pow94(k: nat) -> nat
    decreases k,
{
    if k == 0 {
        1
    } else {
        94 * pow94((k - 1) as nat)
    }
}

/// The digits of a number stand for that number, and only zero starts with
/// the zero digit.
pub proof fn law_decimal_roundtrip(v: nat)
    ensures
        all_digits(decimal_digits(v)),
        decimal_digits(v).len() >= 1,
        decimal_value(decimal_digits(v)) == v,
        v > 0 ==> decimal_digits(v)[0] != 0x20,
    decreases v,
{
    if v >= 94 {
        law_decimal_roundtrip(v / 94);
        let d: Seq<u8> = decimal_digits(v);
        assert(d.drop_last() =~= decimal_digits(v / 94));
    } else {
        let d: Seq<u8> = decimal_digits(v);
        assert(d.drop_last() =~= Seq::<u8>::empty());
        assert(decimal_value(d.drop_last()) == 0);
    }
}

/// Zero digits in front do not change the number.
pub proof fn law_decimal_zero_padding(s: Seq<u8>, zeros: nat)
    ensures
        decimal_value(Seq::new(zeros, |i: int| 0x20u8) + s) == decimal_value(s),
        all_digits(s) ==> all_digits(Seq::new(zeros, |i: int| 0x20u8) + s),
    decreases s.len(), zeros,
{
    let pad: Seq<u8> = Seq::new(zeros, |i: int| 0x20u8);
    let whole: Seq<u8> = pad + s;
    if s.len() > 0 {
        law_decimal_zero_padding(s.drop_last(), zeros);
        assert(whole.drop_last() =~= pad + s.drop_last());
    } else if zeros > 0 {
        law_decimal_zero_padding(s, (zeros - 1) as nat);
        assert(whole.drop_last() =~= Seq::new((zeros - 1) as nat, |i: int| 0x20u8) + s);
    } else {
        assert(whole =~= s);
    }
}

/// A number has at most `k` digits exactly when it is below `94^k`.
pub proof fn law_decimal_len(v: nat, k: nat)
    requires
        k >= 1,
    ensures
        decimal_digits(v).len() <= k <==> v < pow94(k),
    decreases v,
{
    if v >= 94 {
        if k == 1 {
            assert(pow94(1) == 94) by {
                reveal_with_fuel(pow94, 2);
            }
            law_decimal_roundtrip(v / 94);
        } else {
            law_decimal_len(v / 94, (k - 1) as nat);
            let p: nat = pow94((k - 1) as nat);
            assert(v / 94 < p <==> v < 94 * p);
        }
    } else {
        lemma_pow94_positive((k - 1) as nat);
    }
}

proof fn lemma_pow94_positive(k: nat)
    ensures
        pow94(k) >= 1,
    decreases k,
{
    if k > 0 {
        lemma_pow94_positive((k - 1) as nat);
    }
}

proof fn lemma_decimal_value_monotonic(s: Seq<u8>, i: int)
    requires
        0 <= i <= s.len(),
        all_digits(s),
    ensures
        decimal_value(s.take(i)) <= decimal_value(s),
    decreases s.len(),
{
    if i < s.len() {
        let init: Seq<u8> = s.drop_last();
        lemma_decimal_value_monotonic(init, i);
        assert(init.take(i) =~= s.take(i));
        assert(is_digit(s[s.len() - 1]));
    } else {
        assert(s.take(i) =~= s);
    }
}

/// Writes the minimal base94 digits of `v` to the front of `out` and returns
/// how many they are.
pub fn decimal_encode(v: u64, out: &mut [u8; DECIMAL_MAX_LEN]) -> (r: usize)
    ensures
        1 <= r <= DECIMAL_MAX_LEN,
        r == decimal_digits(v as nat).len(),
        final(out)@ == decimal_digits(v as nat) + old(out)@.skip(r as int),
{
    let ghost before: Seq<u8> = out@;
    proof {
        law_decimal_len(v as nat, 10);
        law_decimal_roundtrip(v as nat);
        reveal_with_fuel(pow94, 11);
    }
    let mut len: usize = 1;
    let mut m: u64 = v / 94;
    while m > 0
        invariant
            decimal_digits(v as nat).len() <= 10,
            decimal_digits(v as nat).len() == len + (if m == 0 {
                0
            } else {
                decimal_digits(m as nat).len() as int
            }),
        decreases m,
    {
        proof {
            law_decimal_roundtrip(m as nat);
            if m < 94 {
                assert(m / 94 == 0);
            }
        }
        len += 1;
        m /= 94;
    }
    let ghost digits: Seq<u8> = decimal_digits(v as nat);
    let mut idx: usize = len;
    let mut n: u64 = v;
    while idx > 0
        invariant
            len <= 10,
            len == digits.len(),
            idx <= len,
            before.len() == 10,
            out@.len() == 10,
            idx > 0 ==> decimal_digits(n as nat) == digits.take(idx as int),
            forall|j: int| idx <= j < len ==> #[trigger] out@[j] == digits[j],
            forall|j: int| len <= j < 10 ==> #[trigger] out@[j] == before[j],
        decreases idx,
    {
        proof {
            assert(digits.take(idx as int).last() == digits[idx - 1]);
            if idx > 1 {
                assert(n >= 94);
                assert(decimal_digits(n as nat).drop_last() =~= decimal_digits(n as nat / 94));
                assert(digits.take(idx as int).drop_last() =~= digits.take(idx - 1));
            } else {
                assert(n < 94) by {
                    law_decimal_roundtrip(n as nat / 94);
                }
            }
        }
        idx -= 1;
        out[idx] = (n % 94) as u8 + 0x20;
        n /= 94;
    }
    assert(out@ =~= digits + before.skip(len as int));
    len
}

/// Parses base94 digits (produced by [`decimal_encode`], possibly padded in
/// front with zero digits) back into a `u64`.
pub fn decimal_decode(s: &[u8]) -> (r: Result<u64, DecodeError>)
    ensures
        r is Ok <==> s@.len() > 0 && all_digits(s@) && decimal_value(s@) <= u64::MAX,
        r matches Ok(v) ==> v == decimal_value(s@),
{
    if s.len() == 0 {
        return Err(DecodeError);
    }
    let mut n: u64 = 0;
    let mut i: usize = 0;
    while i < s.len()
        invariant
            i <= s@.len(),
            n == decimal_value(s@.take(i as int)),
            forall|j: int| 0 <= j < i ==> is_digit(#[trigger] s@[j]),
        decreases s@.len() - i,
    {
        let c: u8 = s[i];
        if c < 0x20 || c - 0x20 >= SYMBOL_COUNT {
            assert(!is_digit(s@[i as int]));
            return Err(DecodeError);
        }
        let d: u64 = (c - 0x20) as u64;
        proof {
            assert(s@.take(i + 1).drop_last() =~= s@.take(i as int));
            if all_digits(s@) {
                lemma_decimal_value_monotonic(s@, i + 1);
            }
        }
        let scaled: u64 = match n.checked_mul(94) {
            Some(x) => x,
            None => return Err(DecodeError),
        };
        n = match scaled.checked_add(d) {
            Some(x) => x,
            None => return Err(DecodeError),
        };
        i += 1;
    }
    assert(s@.take(i as int) =~= s@);
    Ok(n)
}

} // verus!
