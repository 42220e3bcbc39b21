//! Binary framing: the inner encrypted packet layout.
//!
//! ```text
//! packet = header[3] || payload
//!   header = delta_encode(seed || enc16(len-1))
//!     * seed: random per packet, defines header_kf = kf ^ seed
//!     * len-1 lets the largest frame fit in two bytes
//!     * the 2 length bytes are optionally protocol-cipher encrypted, then
//!       XOR-masked and shuffled with header_kf
//!   payload = transform(transport_cipher(plaintext), header_kf)
//!     * transform = masked_xor? shuffle? delta?
//! ```

use crate::crypto::cipher::{law_cipher_roundtrip, CipherModel, SessionCipher};
use crate::crypto::ssea::{
    delta_decode, delta_decoded, delta_encode, delta_encoded, law_delta_decode_inverts_encode,
    law_mask_self_inverse, law_shuffle_short_identity, law_unshuffle_inverts_shuffle,
    lemma_swap_chain_back_len,
    lemma_swap_chain_len, masked, masked_xor_random_next, shuffle, shuffled, unshuffle, unshuffled,
};
use crate::bytes::append;
use crate::error::Error;
use crate::frame::base94::cut_short;
use crate::rng::draw_u8;
use crate::stream::take_exact;
use crate::PPP_BUFFER_SIZE;
use rand::rngs::StdRng;
use vstd::prelude::*;

verus! {

/// Binary header size in bytes.
pub const HEADER_SIZE: usize = 3;

/// Effective payload-transform switches. Before the handshake all three are
/// on regardless of configuration.
#[derive(Clone, Copy, Debug, PartialEq, Eq, Structural)]
pub struct PayloadFlags {
    /// Generator-driven XOR mask with the header key.
    pub masked: bool,
    /// Key-driven byte permutation with the header key.
    pub shuffle: bool,
    /// Delta encoding with the configured key.
    pub delta: bool,
}

impl PayloadFlags {
    /// No transforms at all.
    pub fn none() -> (r: PayloadFlags)
        ensures
            !r.masked && !r.shuffle && !r.delta,
    {
        PayloadFlags { masked: false, shuffle: false, delta: false }
    }

    /// All transforms enabled.
    pub fn safest() -> (r: PayloadFlags)
        ensures
            r.masked && r.shuffle && r.delta,
    {
        PayloadFlags { masked: true, shuffle: true, delta: true }
    }

    /// The transforms that either side asks for.
    pub fn or(self, other: PayloadFlags) -> (r: PayloadFlags)
        ensures
            r.masked == (self.masked || other.masked),
            r.shuffle == (self.shuffle || other.shuffle),
            r.delta == (self.delta || other.delta),
    {
        PayloadFlags {
            masked: self.masked || other.masked,
            shuffle: self.shuffle || other.shuffle,
            delta: self.delta || other.delta,
        }
    }
}

// ---------------------------------------------------------------------------
// Model
// ---------------------------------------------------------------------------

/// The key of one packet's transforms.
pub open spec fn header_key(kf: u32, seed: u8) -> u32 {
    kf ^ (seed as u32)
}

/// The two big-endian bytes of a payload length less one.
pub open spec fn length_field(len: nat) -> Seq<u8> {
    seq![((len - 1) / 256) as u8, ((len - 1) % 256) as u8]
}

/// What an optional cipher makes of `data`.
pub open spec fn cipher_over(c: Option<CipherModel>, data: Seq<u8>) -> Seq<u8> {
    match c {
        Some(c) => c.applied(data),
        None => data,
    }
}

/// Two bytes, each XORed with the low byte of a key.
pub open spec fn low_masked(field: Seq<u8>, key: u32) -> Seq<u8> {
    seq![field[0] ^ ((key % 256) as u8), field[1] ^ ((key % 256) as u8)]
}

/// The header of a packet with a payload of `len` bytes.
pub open spec fn header_encrypted(kf: u32, c: Option<CipherModel>, seed: u8, len: nat) -> Seq<u8> {
    let key: u32 = header_key(kf, seed);
    let field: Seq<u8> = low_masked(cipher_over(c, length_field(len)), key);
    delta_encoded(seq![seed] + shuffled(field, key), kf)
}

/// The seed byte that a header carries.
pub open spec fn header_seed(kf: u32, header: Seq<u8>) -> u8 {
    delta_decoded(header, kf)[0]
}

/// The payload length that a header carries.
pub open spec fn header_length(kf: u32, c: Option<CipherModel>, header: Seq<u8>) -> nat {
    let key: u32 = header_key(kf, header_seed(kf, header));
    let field: Seq<u8> = unshuffled(delta_decoded(header, kf).subrange(1, 3), key);
    let plain: Seq<u8> = cipher_over(c, low_masked(field, key));
    (plain[0] * 256 + plain[1] + 1) as nat
}

/// The payload under its transforms: mask, then shuffle, then delta.
pub open spec fn obfuscated(data: Seq<u8>, flags: PayloadFlags, key: u32, kf: u32) -> Seq<u8> {
    let a: Seq<u8> = if flags.masked { masked(data, key) } else { data };
    let b: Seq<u8> = if flags.shuffle { shuffled(a, key) } else { a };
    if flags.delta { delta_encoded(b, kf) } else { b }
}

/// The payload with its transforms taken off, in reverse order.
pub open spec fn deobfuscated(data: Seq<u8>, flags: PayloadFlags, key: u32, kf: u32) -> Seq<u8> {
    let a: Seq<u8> = if flags.delta { delta_decoded(data, kf) } else { data };
    let b: Seq<u8> = if flags.shuffle { unshuffled(a, key) } else { a };
    if flags.masked { masked(b, key) } else { b }
}

// ---------------------------------------------------------------------------
// Laws
// ---------------------------------------------------------------------------

/// Taking the transforms off gives back the payload, for every choice of
/// switches and keys, and the length never changes.
pub proof fn law_deobfuscate_inverts_obfuscate(
    data: Seq<u8>,
    flags: PayloadFlags,
    key: u32,
    kf: u32,
)
    ensures
        obfuscated(data, flags, key, kf).len() == data.len(),
        deobfuscated(obfuscated(data, flags, key, kf), flags, key, kf) == data,
{
    let a: Seq<u8> = if flags.masked { masked(data, key) } else { data };
    let b: Seq<u8> = if flags.shuffle { shuffled(a, key) } else { a };
    lemma_swap_chain_len(a, key, a.len());
    law_delta_decode_inverts_encode(b, kf);
    law_unshuffle_inverts_shuffle(a, key);
    law_mask_self_inverse(data, key);
}

/// Taking transforms off keeps the length.
pub proof fn lemma_deobfuscated_len(data: Seq<u8>, flags: PayloadFlags, key: u32, kf: u32)
    ensures
        deobfuscated(data, flags, key, kf).len() == data.len(),
{
    let a: Seq<u8> = if flags.delta { delta_decoded(data, kf) } else { data };
    lemma_swap_chain_back_len(a, key, a.len());
}

/// The mirrored cipher reads the length and the packet key back from a header,
/// for every payload length that a frame may have.
pub proof fn law_header_roundtrip(kf: u32, c: Option<CipherModel>, seed: u8, len: nat)
    requires
        1 <= len <= PPP_BUFFER_SIZE,
        c matches Some(m) ==> m.encrypting,
    ensures
        header_encrypted(kf, c, seed, len).len() == 3,
        header_seed(kf, header_encrypted(kf, c, seed, len)) == seed,
        header_length(
            kf,
            match c {
                Some(m) => Some(m.decrypting()),
                None => None::<CipherModel>,
            },
            header_encrypted(kf, c, seed, len),
        ) == len,
{
    let key: u32 = header_key(kf, seed);
    let plain: Seq<u8> = length_field(len);
    let field: Seq<u8> = low_masked(cipher_over(c, plain), key);
    let mixed: Seq<u8> = shuffled(field, key);
    lemma_swap_chain_len(field, key, 2);
    law_delta_decode_inverts_encode(seq![seed] + mixed, kf);
    assert((seq![seed] + mixed).subrange(1, 3) =~= mixed);
    law_unshuffle_inverts_shuffle(field, key);
    if c is Some {
        law_cipher_roundtrip(c->Some_0, plain);
    }
    let sent: Seq<u8> = cipher_over(c, plain);
    crate::crypto::ssea::lemma_xor_twice(sent[0], (key % 256) as u8);
    crate::crypto::ssea::lemma_xor_twice(sent[1], (key % 256) as u8);
    assert(low_masked(field, key) =~= sent);
}

/// The header in bytes, under the delta: the seed, and the length less one, high
/// byte first, encrypted where there is a cipher and XORed with the low byte of
/// the key that the seed makes.
pub proof fn law_header_layout(kf: u32, c: Option<CipherModel>, seed: u8, len: nat)
    requires
        1 <= len <= 65_536,
        c matches Some(m) ==> m.encrypting,
    ensures
        ({
            let h: Seq<u8> = delta_decoded(header_encrypted(kf, c, seed, len), kf);
            let low: u8 = ((kf ^ (seed as u32)) % 256) as u8;
            let field: Seq<u8> = seq![((len - 1) / 256) as u8, ((len - 1) % 256) as u8];
            let sent: Seq<u8> = match c {
                Some(m) => m.applied(field),
                None => field,
            };
            &&& h == seq![seed, sent[0] ^ low, sent[1] ^ low]
            &&& field[0] * 256 + field[1] + 1 == len
        }),
{
    let key: u32 = header_key(kf, seed);
    let field: Seq<u8> = low_masked(cipher_over(c, length_field(len)), key);
    law_shuffle_short_identity(field, key);
    law_delta_decode_inverts_encode(seq![seed] + shuffled(field, key), kf);
    assert(seq![seed] + field =~= seq![seed, field[0], field[1]]);
}

/// Which key the payload of a packet is transformed under: that of the seed in
/// its header, whatever the header says of the length.
pub proof fn law_packet_key(kf: u32, header: Seq<u8>)
    requires
        header.len() == 3,
    ensures
        header_key(kf, header_seed(kf, header)) == kf ^ (delta_decoded(header, kf)[0] as u32),
{
}

// ---------------------------------------------------------------------------
// Headers
// ---------------------------------------------------------------------------

/// Builds the 3-byte encrypted header with a random seed. Returns the header
/// and the packet key used later for the payload transform.
///
/// A payload length outside `1..=PPP_BUFFER_SIZE` is refused.
pub fn header_encrypt(
    rng: &mut StdRng,
    kf: u32,
    protocol: Option<&mut SessionCipher>,
    payload_len: usize,
) -> (r: Result<([u8; 3], u32), Error>)
    requires
        protocol matches Some(c) ==> c@.accepts(2),
    ensures
        payload_len == 0 || payload_len > PPP_BUFFER_SIZE ==> r == Err::<([u8; 3], u32), Error>(
            Error::FrameTooLarge { len: payload_len },
        ) && (protocol matches Some(c) ==> final(c)@ == c@),
        1 <= payload_len <= PPP_BUFFER_SIZE ==> {
            &&& r matches Ok(h) && exists|seed: u8|
                1 <= seed && h.0@ == #[trigger] header_encrypted(
                    kf,
                    cipher_view(protocol),
                    seed,
                    payload_len as nat,
                ) && h.1 == header_key(kf, seed)
            &&& protocol matches Some(c) ==> final(c)@ == c@.next()
        },
{
    if payload_len == 0 || payload_len > PPP_BUFFER_SIZE {
        return Err(Error::FrameTooLarge { len: payload_len });
    }
    let seed: u8 = draw_u8(rng, 1, 0xff);
    Ok(header_encrypt_with(seed, kf, protocol, payload_len))
}

/// What an optional cipher holds.
pub open spec fn cipher_view(c: Option<&mut SessionCipher>) -> Option<CipherModel> {
    match c {
        Some(c) => Some(c@),
        None => None,
    }
}

/// [`header_encrypt`] for a given seed.
pub fn header_encrypt_with(
    seed: u8,
    kf: u32,
    protocol: Option<&mut SessionCipher>,
    payload_len: usize,
) -> (r: ([u8; 3], u32))
    requires
        1 <= payload_len <= PPP_BUFFER_SIZE,
        protocol matches Some(c) ==> c@.accepts(2),
    ensures
        r.0@ == header_encrypted(kf, cipher_view(protocol), seed, payload_len as nat),
        r.1 == header_key(kf, seed),
        protocol matches Some(c) ==> final(c)@ == c@.next(),
{
    let ghost model: Option<CipherModel> = cipher_view(protocol);
    let adjusted: usize = payload_len - 1;
    let key: u32 = kf ^ (seed as u32);
    let low: u8 = (key % 256) as u8;
    let mut field: [u8; 2] = [(adjusted / 256) as u8, (adjusted % 256) as u8];
    proof {
        assert(field@ =~= length_field(payload_len as nat));
    }
    match protocol {
        Some(cipher) => cipher.apply(&mut field),
        None => {},
    }
    assert(field@ == cipher_over(model, length_field(payload_len as nat)));
    let ghost sent: Seq<u8> = field@;
    field[0] = field[0] ^ low;
    field[1] = field[1] ^ low;
    assert(field@ =~= low_masked(sent, key));
    shuffle(&mut field, key);
    let mut header: [u8; 3] = [seed, field[0], field[1]];
    assert(header@ =~= seq![seed] + field@);
    delta_encode(&mut header, kf);
    (header, key)
}

/// Decrypts a 3-byte header. Returns the payload length and the packet key.
pub fn header_decrypt(kf: u32, protocol: Option<&mut SessionCipher>, header: &[u8; 3]) -> (r:
    Result<(usize, u32), Error>)
    requires
        protocol matches Some(c) ==> c@.accepts(2),
    ensures
        r matches Ok(h) && h.0 == header_length(kf, cipher_view(protocol), header@) && h.1
            == header_key(kf, header_seed(kf, header@)) && 1 <= h.0 <= PPP_BUFFER_SIZE,
        protocol matches Some(c) ==> final(c)@ == c@.next(),
{
    let ghost model: Option<CipherModel> = cipher_view(protocol);
    let mut array: [u8; 3] = *header;
    delta_decode(&mut array, kf);
    let key: u32 = kf ^ (array[0] as u32);
    let low: u8 = (key % 256) as u8;
    let mut field: [u8; 2] = [array[1], array[2]];
    assert(field@ =~= array@.subrange(1, 3));
    unshuffle(&mut field, key);
    let ghost before: Seq<u8> = field@;
    field[0] = field[0] ^ low;
    field[1] = field[1] ^ low;
    assert(field@ =~= low_masked(before, key));
    match protocol {
        Some(cipher) => cipher.apply(&mut field),
        None => {},
    }
    assert(field@ == cipher_over(model, low_masked(before, key)));
    let len: usize = field[0] as usize * 256 + field[1] as usize + 1;
    Ok((len, key))
}

// ---------------------------------------------------------------------------
// Payloads
// ---------------------------------------------------------------------------

/// Applies the payload transform chain in place (mask, then shuffle, then
/// delta).
pub fn payload_obfuscate(data: &mut [u8], flags: &PayloadFlags, header_kf: u32, kf: u32)
    requires
        flags.shuffle ==> old(data)@.len() <= u32::MAX,
    ensures
        final(data)@ == obfuscated(old(data)@, *flags, header_kf, kf),
        final(data)@.len() == old(data)@.len(),
{
    if flags.masked {
        masked_xor_random_next(data, header_kf);
    }
    if flags.shuffle {
        shuffle(data, header_kf);
    }
    if flags.delta {
        delta_encode(data, kf);
    }
}

/// Reverses [`payload_obfuscate`] in place.
pub fn payload_deobfuscate(data: &mut [u8], flags: &PayloadFlags, header_kf: u32, kf: u32)
    requires
        flags.shuffle ==> old(data)@.len() <= u32::MAX,
    ensures
        final(data)@ == deobfuscated(old(data)@, *flags, header_kf, kf),
        final(data)@.len() == old(data)@.len(),
{
    if flags.delta {
        delta_decode(data, kf);
    }
    if flags.shuffle {
        unshuffle(data, header_kf);
    }
    if flags.masked {
        masked_xor_random_next(data, header_kf);
    }
}

/// Reads `len` bytes from `r` into a fresh buffer.
pub fn read_payload(r: &mut &[u8], len: usize) -> (out: Result<Vec<u8>, Error>)
    ensures
        len <= (*old(r))@.len() ==> (out matches Ok(bytes) && bytes@ == (*old(r))@.take(len as int)
            && (*final(r))@ == (*old(r))@.skip(len as int)),
        len > (*old(r))@.len() ==> (out matches Err(e) && cut_short(e) && (*final(r))@.len() == 0),
{
    match take_exact(r, len) {
        Ok(bytes) => {
            let mut payload: Vec<u8> = Vec::new();
            append(&mut payload, bytes);
            assert(payload@ =~= bytes@);
            Ok(payload)
        },
        Err(e) => Err(Error::Io(e)),
    }
}

} // verus!
