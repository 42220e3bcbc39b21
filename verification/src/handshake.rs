//! Handshake layer: noise prelude, session-id packets and the obfuscation
//! flag canary.
//!
//! ```text
//! client: nop* ->          <- sid (server session id)
//! client:      ivv ->      <- nmux (mux parity + flag canary in high 64 bits)
//! both:   rekey ciphers from ivv, switch to data-plane framing
//! ```
//!
//! Session-id packet: `kfs[4]`, then a body under four rounds of XOR. The body
//! starts with the decimal id and a random separator `0x20..=0x2F`; random
//! printable padding follows. `kfs[0] >= 0x80` marks noise packets, which
//! receivers skip.

use crate::base94::printable;
use crate::bytes::append;
use crate::config::ObfuscationKey;
use crate::error::Error;
use crate::rng::{draw_any_u128, draw_u32, draw_u8, draw_usize};
use crate::SessionId;
use rand::rngs::StdRng;
use vstd::arithmetic::div_mod::{
    lemma_div_denominator, lemma_fundamental_div_mod, lemma_fundamental_div_mod_converse,
};
use vstd::arithmetic::power2::{lemma2_to64, lemma_pow2_pos, lemma_pow2_strictly_increases, pow2};
use vstd::prelude::*;
use vstd::slice::slice_subrange;

verus! {

/// Magic prefix of the obfuscation-flag canary (low 48 bits).
pub const CANARY_MAGIC: u64 = 0xc0de_c0de_c0de;

/// Mask selecting the 48 magic bits inside the canary.
pub const CANARY_MAGIC_MASK: u64 = 0x0000_ffff_ffff_ffff;

/// A parsed handshake session-id packet.
#[derive(Debug, Clone, Copy, PartialEq, Eq, Structural)]
pub enum SessionPacket {
    /// Tagged noise packet, to be skipped by receivers.
    Dummy,
    /// Real session id with its 128-bit value.
    Session(SessionId),
}

// ---------------------------------------------------------------------------
// Flag canary
// ---------------------------------------------------------------------------

/// One for `true`, zero for `false`.
pub open spec fn bit(b: bool) -> int {
    if b {
        1
    } else {
        0
    }
}

/// The four data-plane switches as a number.
pub open spec fn flag_bits(key: ObfuscationKey) -> int {
    bit(key.masked) + 2 * bit(key.plaintext) + 4 * bit(key.delta_encode) + 8 * bit(key.shuffle_data)
}

/// The canary: 48 magic bits, the four switches above them, and the low 12
/// bits of `kf` on top.
pub open spec fn canary(key: ObfuscationKey) -> u64 {
    (0xc0de_c0de_c0de + flag_bits(key) * 0x1_0000_0000_0000 + (key.kf % 4096)
        * 0x10_0000_0000_0000) as u64
}

/// The canary carries the magic, every switch and the low 12 bits of `kf`,
/// each at its place.
pub proof fn law_canary_fields(key: ObfuscationKey)
    ensures
        canary(key) % 0x1_0000_0000_0000 == CANARY_MAGIC,
        canary(key) / 0x1_0000_0000_0000 % 2 == bit(key.masked),
        canary(key) / 0x2_0000_0000_0000 % 2 == bit(key.plaintext),
        canary(key) / 0x4_0000_0000_0000 % 2 == bit(key.delta_encode),
        canary(key) / 0x8_0000_0000_0000 % 2 == bit(key.shuffle_data),
        canary(key) / 0x10_0000_0000_0000 == key.kf % 4096,
{
    let c: int = canary(key) as int;
    let f: int = flag_bits(key);
    let k: int = key.kf as int % 4096;
    let q: int = f + 16 * k;
    assert(c == 0xc0de_c0de_c0de + q * 0x1_0000_0000_0000);
    lemma_nested_div(c, 0xc0de_c0de_c0de, q);
}

proof fn lemma_nested_div(c: int, low: int, q: int)
    requires
        0 <= low < 0x1_0000_0000_0000,
        q >= 0,
        c == low + q * 0x1_0000_0000_0000,
    ensures
        c % 0x1_0000_0000_0000 == low,
        c / 0x1_0000_0000_0000 == q,
        c / 0x2_0000_0000_0000 == q / 2,
        c / 0x4_0000_0000_0000 == q / 4,
        c / 0x8_0000_0000_0000 == q / 8,
        c / 0x10_0000_0000_0000 == q / 16,
{
    let w: int = 0x1_0000_0000_0000;
    lemma_fundamental_div_mod_converse(c, w, q, low);
    assert(w * 2 == 0x2_0000_0000_0000);
    assert(w * 4 == 0x4_0000_0000_0000);
    assert(w * 8 == 0x8_0000_0000_0000);
    assert(w * 16 == 0x10_0000_0000_0000);
    lemma_div_denominator(c, w, 2);
    lemma_div_denominator(c, w, 4);
    lemma_div_denominator(c, w, 8);
    lemma_div_denominator(c, w, 16);
}

/// Two configurations have the same canary exactly when their switches and the
/// low 12 bits of their keys agree.
pub proof fn law_canary_pins_flags(a: ObfuscationKey, b: ObfuscationKey)
    ensures
        canary(a) == canary(b) <==> a.masked == b.masked && a.plaintext == b.plaintext
            && a.delta_encode == b.delta_encode && a.shuffle_data == b.shuffle_data && a.kf % 4096
            == b.kf % 4096,
{
    law_canary_fields(a);
    law_canary_fields(b);
}

/// Builds the 64-bit canary that pins the framing switches and the low bits of
/// the key.
pub fn flag_canary(key: &ObfuscationKey) -> (r: u64)
    ensures
        r == canary(*key),
{
    let mut flags: u64 = 0;
    if key.masked {
        flags += 1;
    }
    if key.plaintext {
        flags += 2;
    }
    if key.delta_encode {
        flags += 4;
    }
    if key.shuffle_data {
        flags += 8;
    }
    CANARY_MAGIC + flags * 0x1_0000_0000_0000 + (key.kf % 4096) as u64 * 0x10_0000_0000_0000
}

/// The verdict of a client on the `nmux` of its server: a peer without the
/// magic is accepted, one with it must carry the local canary.
pub open spec fn canary_accepted(key: ObfuscationKey, nmux: u128) -> bool {
    let high: int = nmux as int / 0x1_0000_0000_0000_0000;
    high % 0x1_0000_0000_0000 == CANARY_MAGIC ==> high == canary(key)
}

/// Checks the canary in the high half of `nmux`.
pub fn check_canary(key: &ObfuscationKey, nmux: u128) -> (r: bool)
    ensures
        r == canary_accepted(*key, nmux),
{
    let high: u64 = (nmux / 0x1_0000_0000_0000_0000) as u64;
    if high % 0x1_0000_0000_0000 == CANARY_MAGIC {
        high == flag_canary(key)
    } else {
        true
    }
}

/// The `nmux` of a server: the canary in the high half, random bits in the low
/// half, and the mux decision in the lowest bit.
pub open spec fn nmux_of(key: ObfuscationKey, low: u64, mux: bool) -> u128 {
    (canary(key) * 0x1_0000_0000_0000_0000 + (low - low % 2) + bit(mux)) as u128
}

/// A client with the same configuration accepts the `nmux` of a server and
/// reads its mux decision; with other switches or other low key bits it
/// refuses.
pub proof fn law_nmux_negotiation(
    server: ObfuscationKey,
    client: ObfuscationKey,
    low: u64,
    mux: bool,
)
    ensures
        nmux_of(server, low, mux) != 0,
        nmux_of(server, low, mux) % 2 == bit(mux),
        nmux_of(server, low, mux) as int / 0x1_0000_0000_0000_0000 == canary(server),
        canary_accepted(client, nmux_of(server, low, mux)) <==> canary(client) == canary(server),
{
    law_canary_fields(server);
    let c: int = canary(server) as int;
    let w: int = 0x1_0000_0000_0000_0000;
    let rest: int = low - low % 2 + bit(mux);
    assert(0 <= rest < w);
    assert(c * w + rest <= u128::MAX);
    let n: int = nmux_of(server, low, mux) as int;
    assert(n == c * w + rest);
    assert(n / w == c);
}

/// The `nmux` is the canary above 63 of the random bits above the mux decision.
pub proof fn law_nmux_layout(key: ObfuscationKey, low: u64, mux: bool)
    ensures
        nmux_of(key, low, mux) / 0x1_0000_0000_0000_0000 == canary(key),
        nmux_of(key, low, mux) % 0x1_0000_0000_0000_0000 / 2 == low / 2,
        nmux_of(key, low, mux) % 2 == if mux {
            1int
        } else {
            0int
        },
{
    law_nmux_negotiation(key, key, low, mux);
    let c: int = canary(key) as int;
    let w: int = 0x1_0000_0000_0000_0000;
    let rest: int = low - low % 2 + bit(mux);
    assert(0 <= rest < w);
    assert(c * w + rest <= u128::MAX);
    let n: int = nmux_of(key, low, mux) as int;
    assert(n == c * w + rest);
    assert(n % w == rest);
    assert(rest / 2 == low / 2);
}

/// A client accepts every `nmux` whose bits 64 to 111 are not the magic number,
/// and of the others those alone that carry its own four switches in the bits
/// above, and the low 12 bits of its `kf` above these.
#[verifier::spinoff_prover]
pub proof fn law_canary_verdict(key: ObfuscationKey, nmux: u128)
    ensures
        ({
            let high: int = nmux as int / 0x1_0000_0000_0000_0000;
            canary_accepted(key, nmux) <==> (high % 0x1_0000_0000_0000 == 0xc0de_c0de_c0de ==> {
                &&& high / 0x1_0000_0000_0000 % 2 == 1 <==> key.masked
                &&& high / 0x2_0000_0000_0000 % 2 == 1 <==> key.plaintext
                &&& high / 0x4_0000_0000_0000 % 2 == 1 <==> key.delta_encode
                &&& high / 0x8_0000_0000_0000 % 2 == 1 <==> key.shuffle_data
                &&& high / 0x10_0000_0000_0000 == key.kf % 4096
            })
        }),
{
    law_canary_fields(key);
    let high: int = nmux as int / 0x1_0000_0000_0000_0000;
    let own: int = canary(key) as int;
    if high % 0x1_0000_0000_0000 == 0xc0de_c0de_c0de {
        let q: int = high / 0x1_0000_0000_0000;
        let p: int = own / 0x1_0000_0000_0000;
        lemma_fundamental_div_mod(high, 0x1_0000_0000_0000);
        lemma_fundamental_div_mod(own, 0x1_0000_0000_0000);
        lemma_nested_div(high, 0xc0de_c0de_c0de, q);
        lemma_nested_div(own, 0xc0de_c0de_c0de, p);
        lemma_low_bits(q);
        lemma_low_bits(p);
    }
}

proof fn lemma_low_bits(q: int)
    requires
        q >= 0,
    ensures
        q == q % 2 + 2 * (q / 2 % 2) + 4 * (q / 4 % 2) + 8 * (q / 8 % 2) + 16 * (q / 16),
        q % 2 == 0 || q % 2 == 1,
        q / 2 % 2 == 0 || q / 2 % 2 == 1,
        q / 4 % 2 == 0 || q / 4 % 2 == 1,
        q / 8 % 2 == 0 || q / 8 % 2 == 1,
{
    let a: int = q / 2;
    let b: int = a / 2;
    let c: int = b / 2;
    assert(q / 4 == b && q / 8 == c && q / 16 == c / 2);
}

/// Builds the `nmux` that tells a client the canary and the mux decision.
pub fn build_nmux(key: &ObfuscationKey, low: u64, mux: bool) -> (r: u128)
    ensures
        r == nmux_of(*key, low, mux),
{
    let even: u64 = low - low % 2;
    let parity: u128 = if mux { 1 } else { 0 };
    (flag_canary(key) as u128) * 0x1_0000_0000_0000_0000 + even as u128 + parity
}

// ---------------------------------------------------------------------------
// Noise prelude
// ---------------------------------------------------------------------------

/// The smaller of the two powers of two that bound the noise volume.
pub open spec fn noise_low(key: ObfuscationKey) -> nat {
    pow2(if key.kl <= key.kh { key.kl as nat } else { key.kh as nat })
}

/// The larger of the two.
pub open spec fn noise_high(key: ObfuscationKey) -> nat {
    pow2(if key.kl <= key.kh { key.kh as nat } else { key.kl as nat })
}

/// How many packets of 1400 bytes a noise volume takes.
pub open spec fn noise_packets(volume: nat) -> nat {
    (volume + 1399) / 1400
}

/// The noise volume lies between two to the power of `kl` and two to the power
/// of `kh`, whichever of the two is the larger.
pub proof fn law_noise_volume(key: ObfuscationKey)
    ensures
        key.kl <= key.kh ==> noise_low(key) == pow2(key.kl as nat) && noise_high(key) == pow2(
            key.kh as nat,
        ),
        key.kl >= key.kh ==> noise_low(key) == pow2(key.kh as nat) && noise_high(key) == pow2(
            key.kl as nat,
        ),
        1 <= noise_low(key) <= noise_high(key),
{
    lemma_pow2_pos(key.kl as nat);
    lemma_pow2_pos(key.kh as nat);
    if key.kl < key.kh {
        lemma_pow2_strictly_increases(key.kl as nat, key.kh as nat);
    } else if key.kh < key.kl {
        lemma_pow2_strictly_increases(key.kh as nat, key.kl as nat);
    }
}

/// A volume takes the least number of packets of 1400 bytes that holds it.
pub proof fn law_noise_packets_least(volume: nat, n: nat)
    ensures
        1400 * noise_packets(volume) >= volume,
        1400 * n >= volume ==> noise_packets(volume) <= n,
{
}

fn power_of_two(e: u8) -> (r: u32)
    requires
        e < 32,
    ensures
        r == pow2(e as nat),
        r >= 1,
{
    proof {
        lemma2_to64();
    }
    let mut r: u32 = 1;
    let mut i: u8 = 0;
    while i < e
        invariant
            i <= e < 32,
            r == pow2(i as nat),
            pow2(31) == 0x8000_0000,
        decreases e - i,
    {
        proof {
            vstd::arithmetic::power2::lemma_pow2_unfold((i + 1) as nat);
            if i + 1 < 31 {
                lemma_pow2_strictly_increases((i + 1) as nat, 31);
            }
        }
        r = r * 2;
        i += 1;
    }
    proof {
        lemma_pow2_pos(e as nat);
    }
    r
}

/// The two bounds of the noise volume in order.
fn noise_bounds(key: &ObfuscationKey) -> (r: (u32, u32))
    requires
        key.kl < 32,
        key.kh < 32,
    ensures
        r.0 == noise_low(*key),
        r.1 == noise_high(*key),
        1 <= r.0 <= r.1 <= 0x8000_0000,
{
    let a: u32 = power_of_two(key.kl);
    let b: u32 = power_of_two(key.kh);
    proof {
        lemma2_to64();
        if key.kl < key.kh {
            lemma_pow2_strictly_increases(key.kl as nat, key.kh as nat);
        }
        if key.kh < key.kl {
            lemma_pow2_strictly_increases(key.kh as nat, key.kl as nat);
        }
        if key.kl < 31 {
            lemma_pow2_strictly_increases(key.kl as nat, 31);
        }
        if key.kh < 31 {
            lemma_pow2_strictly_increases(key.kh as nat, 31);
        }
    }
    if key.kl <= key.kh {
        (a, b)
    } else {
        (b, a)
    }
}

/// Number of noise packets to emit before the real handshake: a random volume
/// in `2^kl ..= 2^kh`, in packets of 1400 bytes.
pub fn nop_rounds(rng: &mut StdRng, key: &ObfuscationKey) -> (r: u32)
    requires
        key.kl < 32,
        key.kh < 32,
    ensures
        exists|volume: nat|
            noise_low(*key) <= volume <= noise_high(*key) && r == #[trigger] noise_packets(volume),
        1 <= r <= noise_packets(noise_high(*key)),
{
    let (lo, hi): (u32, u32) = noise_bounds(key);
    let volume: u32 = if lo == hi { lo } else { draw_u32(rng, lo, hi) };
    let r: u32 = (volume + 1399) / 1400;
    assert(r == noise_packets(volume as nat));
    r
}

/// The most noise packets that a peer with this configuration may send: the
/// budget of a receiver that skips them.
pub fn max_nop_packets(key: &ObfuscationKey) -> (r: u32)
    requires
        key.kl < 32,
        key.kh < 32,
    ensures
        r == noise_packets(noise_high(*key)),
        r >= 1,
{
    let (lo, hi): (u32, u32) = noise_bounds(key);
    (hi + 1399) / 1400
}

// ---------------------------------------------------------------------------
// Session-id packets
// ---------------------------------------------------------------------------

/// The ASCII decimal digits of `v`, most significant first, without leading
/// zeros.
pub open spec fn decimal_bytes(v: nat) -> Seq<u8>
    decreases v,
{
    if v < 10 {
        seq![(0x30 + v) as u8]
    } else {
        decimal_bytes(v / 10).push((0x30 + v % 10) as u8)
    }
}

/// Whether a byte is an ASCII decimal digit.
pub open spec fn is_decimal(b: u8) -> bool {
    0x30 <= b <= 0x39
}

/// The number of decimal digits.
pub open spec fn decimal_number(s: Seq<u8>) -> nat
    decreases s.len(),
{
    if s.len() == 0 {
        0
    } else {
        decimal_number(s.drop_last()) * 10 + (s.last() as int - 0x30) as nat
    }
}

/// How many decimal digits `s` starts with.
pub open spec fn digit_run(s: Seq<u8>) -> nat
    decreases s.len(),
{
    if s.len() > 0 && is_decimal(s[0]) {
        1 + digit_run(s.skip(1))
    } else {
        0
    }
}

/// Decimal digits are read most significant first, and the run of them that a
/// body starts with ends at the first byte that is none.
pub proof fn law_decimal_reading(s: Seq<u8>, b: u8)
    requires
        0x30 <= b <= 0x39,
    ensures
        decimal_number(Seq::empty()) == 0,
        decimal_number(s.push(b)) == 10 * decimal_number(s) + (b - 0x30),
        digit_run(s) <= s.len(),
        forall|j: int| 0 <= j < digit_run(s) ==> 0x30 <= #[trigger] s[j] <= 0x39,
        digit_run(s) < s.len() ==> !(0x30 <= s[digit_run(s) as int] <= 0x39),
{
    assert(s.push(b).drop_last() =~= s);
    lemma_run_len(s);
    lemma_run_ends(s);
}

proof fn lemma_run_ends(s: Seq<u8>)
    ensures
        digit_run(s) < s.len() ==> !is_decimal(s[digit_run(s) as int]),
    decreases s.len(),
{
    if s.len() > 0 && is_decimal(s[0]) {
        lemma_run_ends(s.skip(1));
    }
}

/// The body under four rounds of XOR: the key of each round is the one before
/// it XORed with the next header byte, started from the low byte of `kf`.
pub open spec fn layered(body: Seq<u8>, kf: u32, kfs: Seq<u8>) -> Seq<u8> {
    let r0: u8 = ((kf % 256) as u8) ^ kfs[0];
    let r1: u8 = r0 ^ kfs[1];
    let r2: u8 = r1 ^ kfs[2];
    let r3: u8 = r2 ^ kfs[3];
    Seq::new(body.len(), |i: int| body[i] ^ r0 ^ r1 ^ r2 ^ r3)
}

/// What the random draws of a session-id packet gave.
pub struct PackDraws {
    /// The four header bytes.
    pub kfs: Seq<u8>,
    /// The number in the body of a noise packet.
    pub noise: u128,
    /// The separator behind the number.
    pub separator: u8,
    /// The padding of fixed length.
    pub pad: Seq<u8>,
    /// The padding of random length.
    pub tail: Seq<u8>,
}

/// The padding amount of a configuration.
pub open spec fn padding(key: ObfuscationKey) -> int {
    (key.kx % 256) as int
}

/// The number in the body of a packet.
pub open spec fn packet_number(id: u128, noise: u128) -> nat {
    if id != 0 {
        id as nat
    } else if noise == 0 {
        1
    } else {
        noise as nat
    }
}

/// The longest random-length padding behind `len` bytes of body.
pub open spec fn tail_max(key: ObfuscationKey, len: int) -> int {
    4 * if padding(key) >= len + 4 {
        padding(key)
    } else {
        len + 4
    }
}

/// The body of a packet before the XOR rounds.
pub open spec fn packet_body(key: ObfuscationKey, id: u128, d: PackDraws) -> Seq<u8> {
    let head: Seq<u8> = decimal_bytes(packet_number(id, d.noise)).push(d.separator);
    if padding(key) > 0 {
        (head + d.pad).push(0x2f) + d.tail
    } else {
        head
    }
}

/// The packet for an id; zero makes a noise packet.
pub open spec fn packed(key: ObfuscationKey, id: u128, d: PackDraws) -> Seq<u8> {
    d.kfs + layered(packet_body(key, id, d), key.kf, d.kfs)
}

impl PackDraws {
    /// What every outcome of the draws satisfies.
    pub open spec fn possible(self, key: ObfuscationKey, id: u128) -> bool {
        &&& self.kfs.len() == 4
        &&& id != 0 <==> self.kfs[0] < 0x80
        &&& self.kfs[1] >= 1 && self.kfs[2] >= 1 && self.kfs[3] >= 1
        &&& 0x20 <= self.separator <= 0x2f
        &&& printable(self.pad)
        &&& printable(self.tail)
        &&& padding(key) > 0 ==> self.pad.len() == padding(key) && 1 <= self.tail.len() <= tail_max(
            key,
            decimal_bytes(packet_number(id, self.noise)).len() + 2 + padding(key),
        )
    }
}

/// What a packet parses to. Noise packets are reported, not decoded.
pub open spec fn unpacked(key: ObfuscationKey, packet: Seq<u8>) -> Result<SessionPacket, Error> {
    let body: Seq<u8> = layered(packet.skip(4), key.kf, packet.take(4));
    let digits: Seq<u8> = body.take(digit_run(body) as int);
    if packet.len() < 4 {
        Err(Error::InvalidFrame)
    } else if packet[0] >= 0x80 {
        Ok(SessionPacket::Dummy)
    } else if packet.len() == 4 {
        Err(Error::InvalidFrame)
    } else if digits.len() == 0 || decimal_number(digits) > u128::MAX {
        Err(Error::InvalidSessionId)
    } else {
        Ok(SessionPacket::Session(decimal_number(digits) as u128))
    }
}

/// A packet byte for byte. Four header bytes come first, the first of them with
/// its top bit set for noise alone, the others not zero. The rest, under the XOR
/// of the second and the fourth of them, is the number in decimal, a separator
/// between `0x20` and `0x2f` and, where the padding amount `kx % 256` is not
/// zero, so many printable bytes, a `/` and at least one printable byte more.
pub proof fn law_packet_layout(key: ObfuscationKey, id: u128, d: PackDraws)
    requires
        d.possible(key, id),
    ensures
        ({
            let p: Seq<u8> = packed(key, id, d);
            let b: Seq<u8> = Seq::new((p.len() - 4) as nat, |i: int| p[4 + i] ^ p[1] ^ p[3]);
            let n: int = digit_run(b) as int;
            let x: int = key.kx as int % 256;
            &&& p[0] < 0x80 <==> id != 0
            &&& p[1] != 0 && p[2] != 0 && p[3] != 0
            &&& 1 <= n < b.len()
            &&& id != 0 ==> decimal_number(b.take(n)) == id
            &&& id == 0 ==> 1 <= decimal_number(b.take(n)) <= u128::MAX
            &&& id == 0 && d.noise != 0 ==> decimal_number(b.take(n)) == d.noise
            &&& 0x20 <= b[n] <= 0x2f
            &&& x == 0 ==> b.len() == n + 1
            &&& x > 0 ==> n + x + 3 <= b.len() && b[n + x + 1] == 0x2f
            &&& x > 0 && x >= n + x + 6 ==> b.len() <= n + x + 2 + 4 * x
            &&& x > 0 && x < n + x + 6 ==> b.len() <= n + x + 2 + 4 * (n + x + 6)
            &&& forall|i: int| n <= i < b.len() ==> 0x20 <= #[trigger] b[i] <= 0x7e
        }),
{
    let p: Seq<u8> = packed(key, id, d);
    let body: Seq<u8> = packet_body(key, id, d);
    let b: Seq<u8> = Seq::new((p.len() - 4) as nat, |i: int| p[4 + i] ^ p[1] ^ p[3]);
    let number: nat = packet_number(id, d.noise);
    let digits: Seq<u8> = decimal_bytes(number);
    assert(p.take(4) =~= d.kfs);
    assert(p[0] == d.kfs[0] && p[1] == d.kfs[1] && p[2] == d.kfs[2] && p[3] == d.kfs[3]);
    law_layer_net_mask(body, key.kf, d.kfs);
    assert(b =~= body) by {
        assert forall|i: int| 0 <= i < body.len() implies b[i] == body[i] by {
            assert(p[4 + i] == body[i] ^ d.kfs[1] ^ d.kfs[3]);
            lemma_net_twice(body[i], d.kfs[1], d.kfs[3]);
        }
    }
    lemma_decimal_roundtrip(number);
    assert(body.take(digits.len() as int) =~= digits);
    assert(body[digits.len() as int] == d.separator);
    lemma_digit_run(body, digits.len());
    let n: int = digits.len() as int;
    let x: int = padding(key);
    assert forall|i: int| n <= i < b.len() implies 0x20 <= #[trigger] b[i] <= 0x7e by {
        if x > 0 && n < i < n + 1 + x {
            assert(b[i] == d.pad[i - n - 1]);
        } else if x > 0 && i >= n + x + 2 {
            assert(b[i] == d.tail[i - n - x - 2]);
        }
    }
}

/// What every packet is read as: one of fewer than four bytes is no frame; a top
/// bit in the first byte makes it noise; else something must follow the header,
/// and start, under the XOR of the second and the fourth header byte, with the
/// decimal digits of a 128-bit number.
pub proof fn law_packet_reading(key: ObfuscationKey, p: Seq<u8>)
    ensures
        ({
            let b: Seq<u8> = Seq::new((p.len() - 4) as nat, |i: int| p[4 + i] ^ p[1] ^ p[3]);
            let n: int = digit_run(b) as int;
            &&& p.len() < 4 ==> unpacked(key, p) == Err::<SessionPacket, Error>(Error::InvalidFrame)
            &&& p.len() >= 4 && p[0] >= 0x80 ==> unpacked(key, p) == Ok::<SessionPacket, Error>(
                SessionPacket::Dummy,
            )
            &&& p.len() == 4 && p[0] < 0x80 ==> unpacked(key, p) == Err::<SessionPacket, Error>(
                Error::InvalidFrame,
            )
            &&& p.len() > 4 && p[0] < 0x80 && n == 0 ==> unpacked(key, p) == Err::<
                SessionPacket,
                Error,
            >(Error::InvalidSessionId)
            &&& p.len() > 4 && p[0] < 0x80 && decimal_number(b.take(n)) > u128::MAX ==> unpacked(
                key,
                p,
            ) == Err::<SessionPacket, Error>(Error::InvalidSessionId)
            &&& p.len() > 4 && p[0] < 0x80 && n > 0 && decimal_number(b.take(n)) <= u128::MAX ==> (
            unpacked(key, p) matches Ok(SessionPacket::Session(id)) && id == decimal_number(
                b.take(n),
            ))
        }),
{
    if p.len() >= 4 {
        let b: Seq<u8> = Seq::new((p.len() - 4) as nat, |i: int| p[4 + i] ^ p[1] ^ p[3]);
        let kfs: Seq<u8> = p.take(4);
        law_layer_net_mask(p.skip(4), key.kf, kfs);
        assert(kfs[1] == p[1] && kfs[3] == p[3]);
        assert(layered(p.skip(4), key.kf, kfs) =~= b);
        lemma_run_len(b);
    }
}

/// A receiver reads back the id of every packet, whatever the draws were and
/// whatever `kf` it has itself.
pub proof fn law_unpack_inverts_pack(
    sender: ObfuscationKey,
    receiver: ObfuscationKey,
    id: u128,
    d: PackDraws,
)
    requires
        id != 0,
        d.possible(sender, id),
    ensures
        unpacked(receiver, packed(sender, id, d)) == Ok::<SessionPacket, Error>(
            SessionPacket::Session(id),
        ),
{
    let packet: Seq<u8> = packed(sender, id, d);
    let body: Seq<u8> = packet_body(sender, id, d);
    let digits: Seq<u8> = decimal_bytes(id as nat);
    assert(packet.take(4) =~= d.kfs);
    assert(packet.skip(4) =~= layered(body, sender.kf, d.kfs));
    law_layer_net_mask(body, sender.kf, d.kfs);
    law_layer_net_mask(layered(body, sender.kf, d.kfs), receiver.kf, d.kfs);
    let plain: Seq<u8> = layered(packet.skip(4), receiver.kf, d.kfs);
    assert(plain =~= body) by {
        assert forall|i: int| 0 <= i < body.len() implies plain[i] == body[i] by {
            lemma_net_twice(body[i], d.kfs[1], d.kfs[3]);
        }
    }
    lemma_decimal_roundtrip(id as nat);
    assert(body.take(digits.len() as int) =~= digits);
    assert(body[digits.len() as int] == d.separator);
    lemma_digit_run(body, digits.len());
    assert(packet[0] == d.kfs[0]);
}

/// Noise packets are tagged, and receivers recognise every one.
pub proof fn law_dummy_packets_skipped(
    sender: ObfuscationKey,
    receiver: ObfuscationKey,
    d: PackDraws,
)
    requires
        d.possible(sender, 0),
    ensures
        packed(sender, 0, d)[0] >= 0x80,
        unpacked(receiver, packed(sender, 0, d)) == Ok::<SessionPacket, Error>(
            SessionPacket::Dummy,
        ),
{
    assert(packed(sender, 0, d)[0] == d.kfs[0]);
}

/// A packet is longer than its four header bytes and at most 3000 bytes long,
/// so that it always fits in a frame.
pub proof fn law_packet_len(key: ObfuscationKey, id: u128, d: PackDraws)
    requires
        d.possible(key, id),
    ensures
        5 <= packed(key, id, d).len() <= 3000,
{
    let n: nat = packet_number(id, d.noise);
    reveal_with_fuel(pow10, 40);
    lemma_decimal_len(n, 39);
    lemma_decimal_roundtrip(n);
}

/// The four rounds amount to one XOR with `kfs[1] ^ kfs[3]`: the layer is the
/// same for every `kf`, and hides nothing.
pub proof fn law_layer_net_mask(body: Seq<u8>, kf: u32, kfs: Seq<u8>)
    requires
        kfs.len() == 4,
    ensures
        layered(body, kf, kfs) == Seq::new(body.len(), |i: int| body[i] ^ kfs[1] ^ kfs[3]),
{
    let low: u8 = (kf % 256) as u8;
    assert forall|i: int| 0 <= i < body.len() implies layered(body, kf, kfs)[i] == body[i] ^ kfs[1]
        ^ kfs[3] by {
        lemma_rounds_cancel(body[i], low, kfs[0], kfs[1], kfs[2], kfs[3]);
    }
    assert(layered(body, kf, kfs) =~= Seq::new(body.len(), |i: int| body[i] ^ kfs[1] ^ kfs[3]));
}

proof fn lemma_rounds_cancel(b: u8, l: u8, k0: u8, k1: u8, k2: u8, k3: u8)
    ensures
        b ^ (l ^ k0) ^ (l ^ k0 ^ k1) ^ (l ^ k0 ^ k1 ^ k2) ^ (l ^ k0 ^ k1 ^ k2 ^ k3) == b ^ k1 ^ k3,
{
    assert(b ^ (l ^ k0) ^ (l ^ k0 ^ k1) ^ (l ^ k0 ^ k1 ^ k2) ^ (l ^ k0 ^ k1 ^ k2 ^ k3) == b ^ k1
        ^ k3) by (bit_vector);
}

proof fn lemma_net_twice(b: u8, k1: u8, k3: u8)
    ensures
        b ^ k1 ^ k3 ^ k1 ^ k3 == b,
{
    assert(b ^ k1 ^ k3 ^ k1 ^ k3 == b) by (bit_vector);
}

/// `10` to the power of `k`.
pub open spec fn pow10(k: nat) -> nat
    decreases k,
{
    if k == 0 {
        1
    } else {
        10 * pow10((k - 1) as nat)
    }
}

proof fn lemma_decimal_len(v: nat, k: nat)
    requires
        k >= 1,
        v < pow10(k),
    ensures
        decimal_bytes(v).len() <= k,
    decreases v,
{
    if v >= 10 {
        if k == 1 {
            reveal_with_fuel(pow10, 2);
        } else {
            lemma_decimal_len(v / 10, (k - 1) as nat);
        }
    }
}

proof fn lemma_decimal_roundtrip(v: nat)
    ensures
        decimal_bytes(v).len() >= 1,
        forall|i: int| 0 <= i < decimal_bytes(v).len() ==> is_decimal(#[trigger] decimal_bytes(v)[i]),
        decimal_number(decimal_bytes(v)) == v,
    decreases v,
{
    let d: Seq<u8> = decimal_bytes(v);
    if v >= 10 {
        lemma_decimal_roundtrip(v / 10);
        assert(d.drop_last() =~= decimal_bytes(v / 10));
    } else {
        assert(d.drop_last() =~= Seq::<u8>::empty());
        assert(decimal_number(d.drop_last()) == 0);
    }
}

proof fn lemma_digit_run(s: Seq<u8>, n: nat)
    requires
        n < s.len(),
        forall|i: int| 0 <= i < n ==> is_decimal(#[trigger] s.take(n as int)[i]),
        !is_decimal(s[n as int]),
    ensures
        digit_run(s) == n,
    decreases n,
{
    if n > 0 {
        assert(is_decimal(s.take(n as int)[0]));
        let t: Seq<u8> = s.skip(1);
        assert forall|i: int| 0 <= i < n - 1 implies is_decimal(#[trigger] t.take(n - 1)[i]) by {
            assert(s.take(n as int)[i + 1] == t.take(n - 1)[i]);
        }
        lemma_digit_run(t, (n - 1) as nat);
    }
}

proof fn lemma_run_len(s: Seq<u8>)
    ensures
        digit_run(s) <= s.len(),
        forall|j: int| 0 <= j < digit_run(s) ==> is_decimal(#[trigger] s[j]),
    decreases s.len(),
{
    if s.len() > 0 && is_decimal(s[0]) {
        lemma_run_len(s.skip(1));
        assert forall|j: int| 0 <= j < digit_run(s) implies is_decimal(#[trigger] s[j]) by {
            if j > 0 {
                assert(s.skip(1)[j - 1] == s[j]);
            }
        }
    }
}

proof fn lemma_number_monotonic(s: Seq<u8>, i: int)
    requires
        0 <= i <= s.len(),
    ensures
        decimal_number(s.take(i)) <= decimal_number(s),
    decreases s.len(),
{
    if i < s.len() {
        lemma_number_monotonic(s.drop_last(), i);
        assert(s.drop_last().take(i) =~= s.take(i));
    } else {
        assert(s.take(i) =~= s);
    }
}

/// Appends the decimal digits of `v`.
pub fn append_decimal(out: &mut Vec<u8>, v: u128)
    ensures
        final(out)@ == old(out)@ + decimal_bytes(v as nat),
    decreases v,
{
    let ghost before: Seq<u8> = out@;
    if v >= 10 {
        append_decimal(out, v / 10);
    }
    out.push(0x30 + (v % 10) as u8);
    assert(out@ =~= before + decimal_bytes(v as nat));
}

/// Runs the four XOR rounds over `body` in place.
fn xor_rounds(body: &mut Vec<u8>, kf: u32, kfs: &[u8; 4])
    ensures
        final(body)@ == layered(old(body)@, kf, kfs@),
{
    let r0: u8 = (kf % 256) as u8 ^ kfs[0];
    let r1: u8 = r0 ^ kfs[1];
    let r2: u8 = r1 ^ kfs[2];
    let r3: u8 = r2 ^ kfs[3];
    let ghost start: Seq<u8> = body@;
    let mut i: usize = 0;
    while i < body.len()
        invariant
            body@.len() == start.len(),
            i <= body@.len(),
            forall|j: int| 0 <= j < i ==> #[trigger] body@[j] == start[j] ^ r0 ^ r1 ^ r2 ^ r3,
            forall|j: int| i <= j < start.len() ==> #[trigger] body@[j] == start[j],
        decreases start.len() - i,
    {
        let b: u8 = body[i];
        body[i] = b ^ r0 ^ r1 ^ r2 ^ r3;
        i += 1;
    }
    assert(body@ =~= layered(start, kf, kfs@));
}

/// Draws `n` printable bytes.
fn draw_printable(rng: &mut StdRng, n: usize) -> (r: Vec<u8>)
    ensures
        r@.len() == n,
        printable(r@),
{
    let mut out: Vec<u8> = Vec::new();
    while out.len() < n
        invariant
            out@.len() <= n,
            printable(out@),
        decreases n - out@.len(),
    {
        let c: u8 = draw_u8(rng, 0x20, 0x7e);
        out.push(c);
    }
    out
}

/// Packs a session-id packet. `id == 0` produces a noise packet.
pub fn pack_session_id(rng: &mut StdRng, key: &ObfuscationKey, id: SessionId) -> (r: Vec<u8>)
    ensures
        exists|d: PackDraws|
            #[trigger] d.possible(*key, id) && r@ == packed(*key, id, d),
        5 <= r@.len() <= 3000,
{
    let k0: u8 = if id != 0 { draw_u8(rng, 0, 0x7f) } else { draw_u8(rng, 0x80, 0xff) };
    let k1: u8 = draw_u8(rng, 1, 0xff);
    let k2: u8 = draw_u8(rng, 1, 0xff);
    let k3: u8 = draw_u8(rng, 1, 0xff);
    let kfs: [u8; 4] = [k0, k1, k2, k3];
    let noise: u128 = if id != 0 { 0 } else { draw_any_u128(rng) };
    let separator: u8 = draw_u8(rng, 0x20, 0x2f);
    let max: usize = (key.kx % 256) as usize;
    let number: u128 = if id != 0 { id } else if noise == 0 { 1 } else { noise };
    let mut pad: Vec<u8> = Vec::new();
    let mut tail: Vec<u8> = Vec::new();
    if max > 0 {
        pad = draw_printable(rng, max);
        let digits: usize = decimal_count(number);
        let min: usize = digits + 2 + max + 4;
        let effective: usize = if max >= min { max } else { min };
        let loops: usize = draw_usize(rng, 1, effective * 4);
        tail = draw_printable(rng, loops);
    }
    let r: Vec<u8> = pack_session_id_with(
        key,
        id,
        &kfs,
        noise,
        separator,
        pad.as_slice(),
        tail.as_slice(),
    );
    proof {
        let d: PackDraws = PackDraws { kfs: kfs@, noise, separator, pad: pad@, tail: tail@ };
        assert(d.possible(*key, id));
        law_packet_len(*key, id, d);
    }
    r
}

/// How many decimal digits `v` has.
fn decimal_count(v: u128) -> (r: usize)
    ensures
        r == decimal_bytes(v as nat).len(),
        1 <= r <= 39,
{
    proof {
        reveal_with_fuel(pow10, 40);
        lemma_decimal_len(v as nat, 39);
    }
    let mut n: u128 = v / 10;
    let mut count: usize = 1;
    while n > 0
        invariant
            decimal_bytes(v as nat).len() <= 39,
            decimal_bytes(v as nat).len() == count + (if n == 0 {
                0
            } else {
                decimal_bytes(n as nat).len() as int
            }),
            count >= 1,
        decreases n,
    {
        n /= 10;
        count += 1;
    }
    count
}

/// [`pack_session_id`] for given draws. `noise` takes part in noise packets
/// only, and the two paddings only where the configuration asks for padding.
pub fn pack_session_id_with(
    key: &ObfuscationKey,
    id: SessionId,
    kfs: &[u8; 4],
    noise: u128,
    separator: u8,
    pad: &[u8],
    tail: &[u8],
) -> (r: Vec<u8>)
    ensures
        r@ == packed(
            *key,
            id,
            PackDraws { kfs: kfs@, noise, separator, pad: pad@, tail: tail@ },
        ),
{
    let number: u128 = if id != 0 { id } else if noise == 0 { 1 } else { noise };
    let mut body: Vec<u8> = Vec::new();
    append_decimal(&mut body, number);
    body.push(separator);
    if key.kx % 256 > 0 {
        append(&mut body, pad);
        body.push(0x2f);
        append(&mut body, tail);
    }
    let ghost d: PackDraws = PackDraws { kfs: kfs@, noise, separator, pad: pad@, tail: tail@ };
    assert(body@ =~= packet_body(*key, id, d));
    xor_rounds(&mut body, key.kf, kfs);
    let mut packet: Vec<u8> = Vec::new();
    append(&mut packet, kfs.as_slice());
    append(&mut packet, body.as_slice());
    assert(packet@ =~= packed(*key, id, d));
    packet
}

/// Unpacks a session-id packet; noise packets are reported, not decoded.
pub fn unpack_session_id(key: &ObfuscationKey, packet: &[u8]) -> (r: Result<SessionPacket, Error>)
    ensures
        r == unpacked(*key, packet@),
{
    let n: usize = packet.len();
    if n < 4 {
        return Err(Error::InvalidFrame);
    }
    if packet[0] >= 0x80 {
        return Ok(SessionPacket::Dummy);
    }
    if n == 4 {
        return Err(Error::InvalidFrame);
    }
    let kfs: [u8; 4] = [packet[0], packet[1], packet[2], packet[3]];
    let mut body: Vec<u8> = Vec::new();
    append(&mut body, slice_subrange(packet, 4, n));
    proof {
        assert(kfs@ =~= packet@.take(4));
        assert(body@ =~= packet@.skip(4));
    }
    xor_rounds(&mut body, key.kf, &kfs);
    let ghost plain: Seq<u8> = body@;
    let ghost digits: Seq<u8> = plain.take(digit_run(plain) as int);
    proof {
        lemma_run_len(plain);
        assert(plain.skip(0) =~= plain);
    }
    let mut id: u128 = 0;
    let mut i: usize = 0;
    while i < body.len() && 0x30 <= body[i] && body[i] <= 0x39
        invariant
            body@ == plain,
            packet@.len() > 4,
            packet@[0] < 0x80,
            plain == layered(packet@.skip(4), key.kf, packet@.take(4)),
            digits == plain.take(digit_run(plain) as int),
            digit_run(plain) <= plain.len(),
            i <= plain.len(),
            forall|j: int| 0 <= j < i ==> is_decimal(#[trigger] plain[j]),
            digit_run(plain) == i + digit_run(plain.skip(i as int)),
            id == decimal_number(plain.take(i as int)),
        decreases plain.len() - i,
    {
        let b: u8 = body[i];
        proof {
            assert(is_decimal(plain[i as int]));
            assert(plain.skip(i as int)[0] == plain[i as int]);
            assert(plain.skip(i as int).skip(1) =~= plain.skip(i + 1));
            assert(plain.take(i + 1).drop_last() =~= plain.take(i as int));
            assert(digits.take(i + 1) =~= plain.take(i + 1));
            lemma_number_monotonic(digits, i + 1);
        }
        let scaled: u128 = match id.checked_mul(10) {
            Some(x) => x,
            None => return Err(Error::InvalidSessionId),
        };
        id = match scaled.checked_add((b - 0x30) as u128) {
            Some(x) => x,
            None => return Err(Error::InvalidSessionId),
        };
        i += 1;
    }
    proof {
        if i < plain.len() {
            assert(plain.skip(i as int)[0] == plain[i as int]);
        }
        assert(digit_run(plain.skip(i as int)) == 0);
    }
    if i == 0 {
        return Err(Error::InvalidSessionId);
    }
    Ok(SessionPacket::Session(id))
}

} // verus!
