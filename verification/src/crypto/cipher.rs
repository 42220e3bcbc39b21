//! Session ciphers for the protocol and transport layers.
//!
//! * Keys come from HKDF-SHA256 over the password, seasoned after the
//!   handshake with the per-connection `ivv`. The salt names the layer and the
//!   method, so that every pair of them has a key domain of its own.
//! * Every message takes a fresh nonce: the base IV XORed with a 64-bit
//!   big-endian counter per direction.
//! * AES runs in CFB128 or CTR mode over single block encryptions; ChaCha20
//!   runs as it is.

use crate::bytes::{be_bytes, be_bytes_u128, be_bytes_u64, be_value, pow256, u128_from_be, xored};
use crate::bytes::{
    append, lemma_be_bytes_of_value, lemma_be_low_bytes, lemma_be_value_bound,
    lemma_be_value_of_bytes, lemma_xored_twice,
};
use crate::crypto::primitives::{
    aes128_block, aes128_encrypt_block, aes256_block, aes256_encrypt_block, chacha20_apply,
    chacha20_keystream, hkdf_sha256, hkdf_sha256_48,
};
use crate::text::{chars_of, lower, push_str, spells, to_lower, trim, trimmed};
use vstd::prelude::*;
use vstd::utf8::encode_utf8;

verus! {

/// Which protocol layer a cipher instance protects. Mixed into the key
/// derivation salt, so that the two layers have different key domains even
/// with the same method and the same password.
#[derive(Clone, Copy, Debug, PartialEq, Eq, Hash, Structural)]
pub enum CipherRole {
    /// Frame-header length protection (the "protocol" cipher).
    Protocol,
    /// Packet payload protection (the "transport" cipher).
    Transport,
}

impl CipherRole {
    /// The name of the role.
    pub open spec fn name_text(self) -> Seq<char> {
        match self {
            CipherRole::Protocol => "protocol"@,
            CipherRole::Transport => "transport"@,
        }
    }

    /// Lowercase name mixed into the key derivation salt.
    pub fn name(self) -> (r: &'static str)
        ensures
            r@ == self.name_text(),
    {
        match self {
            CipherRole::Protocol => "protocol",
            CipherRole::Transport => "transport",
        }
    }
}

/// Supported stream-cipher methods.
#[derive(Clone, Copy, Debug, PartialEq, Eq, Hash, Structural)]
pub enum Method {
    /// AES-128 in CFB128 mode (the default protocol cipher).
    Aes128Cfb,
    /// AES-256 in CFB128 mode (the default transport cipher).
    Aes256Cfb,
    /// AES-128 in CTR mode.
    Aes128Ctr,
    /// AES-256 in CTR mode.
    Aes256Ctr,
    /// ChaCha20 with a 96-bit nonce, fast on machines without AES instructions.
    ChaCha20,
}

impl Method {
    /// The canonical name of the method.
    pub open spec fn name_text(self) -> Seq<char> {
        match self {
            Method::Aes128Cfb => "aes-128-cfb"@,
            Method::Aes256Cfb => "aes-256-cfb"@,
            Method::Aes128Ctr => "aes-128-ctr"@,
            Method::Aes256Ctr => "aes-256-ctr"@,
            Method::ChaCha20 => "chacha20"@,
        }
    }

    /// The method that a cipher name stands for, in any case and with white
    /// space around it.
    pub open spec fn named(name: Seq<char>) -> Option<Method> {
        let text: Seq<char> = lower(trimmed(name));
        if text == "aes-128-cfb"@ {
            Some(Method::Aes128Cfb)
        } else if text == "aes-256-cfb"@ {
            Some(Method::Aes256Cfb)
        } else if text == "aes-128-ctr"@ {
            Some(Method::Aes128Ctr)
        } else if text == "aes-256-ctr"@ {
            Some(Method::Aes256Ctr)
        } else if text == "chacha20"@ || text == "chacha20-ietf"@ {
            Some(Method::ChaCha20)
        } else {
            None
        }
    }

    /// Key length in bytes.
    pub open spec fn key_size(self) -> nat {
        match self {
            Method::Aes128Cfb | Method::Aes128Ctr => 16,
            Method::Aes256Cfb | Method::Aes256Ctr | Method::ChaCha20 => 32,
        }
    }

    /// Nonce length in bytes.
    pub open spec fn iv_size(self) -> nat {
        match self {
            Method::ChaCha20 => 12,
            _ => 16,
        }
    }

    /// How many low bytes of the nonce the counter is mixed into.
    pub open spec fn counter_size(self) -> nat {
        match self {
            Method::ChaCha20 => 4,
            _ => 8,
        }
    }

    /// Parses a cipher name (used by the configuration layer).
    pub fn from_name(name: &str) -> (r: Option<Method>)
        ensures
            r == Method::named(name@),
    {
        let chars: Vec<char> = chars_of(name);
        let text: Vec<char> = to_lower(trim(chars.as_slice()));
        if spells(text.as_slice(), "aes-128-cfb") {
            Some(Method::Aes128Cfb)
        } else if spells(text.as_slice(), "aes-256-cfb") {
            Some(Method::Aes256Cfb)
        } else if spells(text.as_slice(), "aes-128-ctr") {
            Some(Method::Aes128Ctr)
        } else if spells(text.as_slice(), "aes-256-ctr") {
            Some(Method::Aes256Ctr)
        } else if spells(text.as_slice(), "chacha20") || spells(text.as_slice(), "chacha20-ietf") {
            Some(Method::ChaCha20)
        } else {
            None
        }
    }

    /// Canonical name (inverse of [`Method::from_name`]).
    pub fn name(self) -> (r: &'static str)
        ensures
            r@ == self.name_text(),
    {
        match self {
            Method::Aes128Cfb => "aes-128-cfb",
            Method::Aes256Cfb => "aes-256-cfb",
            Method::Aes128Ctr => "aes-128-ctr",
            Method::Aes256Ctr => "aes-256-ctr",
            Method::ChaCha20 => "chacha20",
        }
    }

    /// Key length in bytes for this method.
    pub fn key_len(self) -> (r: usize)
        ensures
            r == self.key_size(),
    {
        match self {
            Method::Aes128Cfb | Method::Aes128Ctr => 16,
            Method::Aes256Cfb | Method::Aes256Ctr | Method::ChaCha20 => 32,
        }
    }

    /// Nonce length in bytes for this method.
    pub fn iv_len(self) -> (r: usize)
        ensures
            r == self.iv_size(),
    {
        match self {
            Method::Aes128Cfb | Method::Aes256Cfb | Method::Aes128Ctr | Method::Aes256Ctr => 16,
            Method::ChaCha20 => 12,
        }
    }
}

/// The canonical name of each method parses back to it.
pub proof fn law_method_name_roundtrip(m: Method)
    ensures
        Method::named(m.name_text()) == Some(m),
{
    reveal_strlit("aes-128-cfb");
    reveal_strlit("aes-256-cfb");
    reveal_strlit("aes-128-ctr");
    reveal_strlit("aes-256-ctr");
    reveal_strlit("chacha20");
    reveal_strlit("chacha20-ietf");
    let name: Seq<char> = m.name_text();
    assert(trimmed(name) == name);
    assert(lower(name) =~= name);
    let a: Seq<char> = "aes-128-cfb"@;
    let b: Seq<char> = "aes-256-cfb"@;
    let c: Seq<char> = "aes-128-ctr"@;
    let d: Seq<char> = "aes-256-ctr"@;
    let e: Seq<char> = "chacha20"@;
    assert(a[4] == '1' && b[4] == '2' && c[4] == '1' && d[4] == '2');
    assert(a[9] == 'f' && b[9] == 'f' && c[9] == 't' && d[9] == 't');
    assert(e.len() == 8 && a.len() == 11);
}

// ---------------------------------------------------------------------------
// Modes of operation
// ---------------------------------------------------------------------------

/// One AES block encryption, with a 256-bit key where `wide` and else with
/// the first 128 bits of it.
pub open spec fn aes_block(wide: bool, key: Seq<u8>, block: Seq<u8>) -> Seq<u8> {
    if wide {
        aes256_block(key, block)
    } else {
        aes128_block(key.take(16), block)
    }
}

/// No other block has the same encryption as `block`.
pub open spec fn block_pinned(wide: bool, key: Seq<u8>, block: Seq<u8>) -> bool {
    forall|other: Seq<u8>|
        #![trigger aes_block(wide, key, other)]
        other.len() == 16 && same_block(aes_block(wide, key, other), aes_block(wide, key, block))
            ==> other == block
}

/// Sixteen bytes agree.
pub open spec fn same_block(a: Seq<u8>, b: Seq<u8>) -> bool {
    forall|i: int| 0 <= i < 16 ==> #[trigger] a[i] == b[i]
}

/// CFB128 encryption: each block is XORed with the encryption of the
/// ciphertext block before it, the first with that of the IV.
pub open spec fn cfb_encrypted(wide: bool, key: Seq<u8>, iv: Seq<u8>, data: Seq<u8>) -> Seq<u8>
    decreases data.len(),
{
    let keystream: Seq<u8> = aes_block(wide, key, iv);
    if data.len() <= 16 {
        xored(data, keystream)
    } else {
        let block: Seq<u8> = xored(data.take(16), keystream);
        block + cfb_encrypted(wide, key, block, data.skip(16))
    }
}

/// CFB128 decryption.
pub open spec fn cfb_decrypted(wide: bool, key: Seq<u8>, iv: Seq<u8>, data: Seq<u8>) -> Seq<u8>
    decreases data.len(),
{
    let keystream: Seq<u8> = aes_block(wide, key, iv);
    if data.len() <= 16 {
        xored(data, keystream)
    } else {
        xored(data.take(16), keystream) + cfb_decrypted(wide, key, data.take(16), data.skip(16))
    }
}

/// The counter block that masks data block `n`: the IV as a 128-bit number
/// plus `n`, modulo `2^128`.
pub open spec fn ctr_block(iv: Seq<u8>, n: int) -> Seq<u8> {
    be_bytes(((be_value(iv) + n) % (u128::MAX as int + 1)) as nat, 16)
}

/// CTR mode: byte `i` is XORed with byte `i % 16` of the encryption of counter
/// block `i / 16`.
pub open spec fn ctr_applied(wide: bool, key: Seq<u8>, iv: Seq<u8>, data: Seq<u8>) -> Seq<u8> {
    Seq::new(
        data.len(),
        |i: int| data[i] ^ aes_block(wide, key, ctr_block(iv, i / 16))[i % 16],
    )
}

/// ChaCha20: byte `i` is XORed with byte `i` of the keystream.
pub open spec fn chacha_applied(key: Seq<u8>, nonce: Seq<u8>, data: Seq<u8>) -> Seq<u8> {
    Seq::new(data.len(), |i: int| data[i] ^ chacha20_keystream(key, nonce, i))
}

proof fn lemma_cfb_roundtrip(wide: bool, key: Seq<u8>, iv: Seq<u8>, data: Seq<u8>)
    ensures
        cfb_encrypted(wide, key, iv, data).len() == data.len(),
        cfb_decrypted(wide, key, iv, cfb_encrypted(wide, key, iv, data)) == data,
    decreases data.len(),
{
    let keystream: Seq<u8> = aes_block(wide, key, iv);
    let sent: Seq<u8> = cfb_encrypted(wide, key, iv, data);
    if data.len() <= 16 {
        lemma_xored_twice(data, keystream);
    } else {
        let block: Seq<u8> = xored(data.take(16), keystream);
        lemma_cfb_roundtrip(wide, key, block, data.skip(16));
        lemma_xored_twice(data.take(16), keystream);
        assert(sent.take(16) =~= block);
        assert(sent.skip(16) =~= cfb_encrypted(wide, key, block, data.skip(16)));
        assert(data.take(16) + data.skip(16) =~= data);
    }
}

proof fn lemma_cfb_decrypted_len(wide: bool, key: Seq<u8>, iv: Seq<u8>, data: Seq<u8>)
    ensures
        cfb_decrypted(wide, key, iv, data).len() == data.len(),
    decreases data.len(),
{
    if data.len() > 16 {
        lemma_cfb_decrypted_len(wide, key, data.take(16), data.skip(16));
    }
}

/// The first sixteen bytes of a key.
fn half_key(key: &[u8; 32]) -> (r: [u8; 16])
    ensures
        r@ == key@.take(16),
{
    let half: [u8; 16] = [
        key[0],
        key[1],
        key[2],
        key[3],
        key[4],
        key[5],
        key[6],
        key[7],
        key[8],
        key[9],
        key[10],
        key[11],
        key[12],
        key[13],
        key[14],
        key[15],
    ];
    assert(half@ =~= key@.take(16));
    half
}

/// Sixteen bytes of `data` from `pos` on.
fn block_at(data: &[u8], pos: usize) -> (r: [u8; 16])
    requires
        pos + 16 <= data@.len(),
    ensures
        r@ == data@.subrange(pos as int, pos + 16),
{
    let n: usize = data.len();
    let mut out: [u8; 16] = [0u8; 16];
    let mut i: usize = 0;
    while i < 16
        invariant
            i <= 16,
            n == data@.len(),
            pos + 16 <= n,
            forall|j: int| 0 <= j < i ==> #[trigger] out@[j] == data@[pos + j],
        decreases 16 - i,
    {
        out[i] = data[pos + i];
        i += 1;
    }
    assert(out@ =~= data@.subrange(pos as int, pos + 16));
    out
}

fn encrypt_block(wide: bool, key: &[u8; 32], block: &[u8; 16]) -> (r: [u8; 16])
    ensures
        r@ == aes_block(wide, key@, block@),
        block_pinned(wide, key@, block@),
{
    let r: [u8; 16] = if wide {
        aes256_encrypt_block(key, block)
    } else {
        let half: [u8; 16] = half_key(key);
        aes128_encrypt_block(&half, block)
    };
    proof {
        assert forall|other: Seq<u8>|
            #![trigger aes_block(wide, key@, other)]
            other.len() == 16 && same_block(
                aes_block(wide, key@, other),
                aes_block(wide, key@, block@),
            ) implies other == block@ by {
            let e: Seq<u8> = aes_block(wide, key@, other);
            assert forall|i: int| 0 <= i < 16 implies #[trigger] r@[i] == e[i] by {
                assert(e[i] == aes_block(wide, key@, block@)[i]);
            }
        }
    }
    r
}

/// XORs `len` bytes of `data` from `pos` on with a keystream block.
pub fn xor_store(data: &mut [u8], pos: usize, len: usize, keystream: &[u8; 16])
    requires
        len <= 16,
        pos + len <= old(data)@.len(),
    ensures
        final(data)@ == old(data)@.take(pos as int) + xored(
            old(data)@.subrange(pos as int, pos + len),
            keystream@,
        ) + old(data)@.skip(pos + len),
{
    let ghost start: Seq<u8> = data@;
    let n: usize = data.len();
    let mut i: usize = 0;
    while i < len
        invariant
            i <= len <= 16,
            data@.len() == start.len(),
            n == start.len(),
            pos + len <= n,
            forall|j: int|
                0 <= j < start.len() ==> #[trigger] data@[j] == if pos <= j < pos + i {
                    start[j] ^ keystream@[j - pos]
                } else {
                    start[j]
                },
        decreases len - i,
    {
        data[pos + i] = data[pos + i] ^ keystream[i];
        i += 1;
    }
    assert(data@ =~= start.take(pos as int) + xored(
        start.subrange(pos as int, pos + len),
        keystream@,
    ) + start.skip(pos + len));
}

/// AES-CFB128 encryption of `data` in place.
fn cfb_encrypt(wide: bool, key: &[u8; 32], iv: &[u8; 16], data: &mut [u8])
    ensures
        final(data)@ == cfb_encrypted(wide, key@, iv@, old(data)@),
        final(data)@.len() == old(data)@.len(),
        block_pinned(wide, key@, iv@),
{
    let ghost start: Seq<u8> = data@;
    let n: usize = data.len();
    let mut feedback: [u8; 16] = *iv;
    let mut pos: usize = 0;
    proof {
        assert(start.skip(0) =~= start);
        assert(data@.take(0) + cfb_encrypted(wide, key@, iv@, start) =~= cfb_encrypted(
            wide,
            key@,
            iv@,
            start,
        ));
    }
    while n - pos > 16
        invariant
            n == start.len(),
            n == data@.len(),
            pos <= n,
            data@.skip(pos as int) == start.skip(pos as int),
            pos == 0 ==> feedback@ == iv@,
            pos > 0 ==> block_pinned(wide, key@, iv@),
            cfb_encrypted(wide, key@, iv@, start) == data@.take(pos as int) + cfb_encrypted(
                wide,
                key@,
                feedback@,
                start.skip(pos as int),
            ),
        decreases n - pos,
    {
        let ghost before: Seq<u8> = data@;
        let ghost rest: Seq<u8> = start.skip(pos as int);
        let keystream: [u8; 16] = encrypt_block(wide, key, &feedback);
        xor_store(data, pos, 16, &keystream);
        feedback = block_at(data, pos);
        proof {
            assert(before.subrange(pos as int, pos + 16) =~= rest.take(16));
            assert(feedback@ =~= xored(rest.take(16), keystream@));
            assert(rest.skip(16) =~= start.skip(pos + 16));
            assert(before.skip(pos + 16) =~= before.skip(pos as int).skip(16));
            assert(data@.skip(pos + 16) =~= start.skip(pos + 16));
            assert(data@.take(pos + 16) =~= before.take(pos as int) + feedback@);
            let tail: Seq<u8> = cfb_encrypted(wide, key@, feedback@, start.skip(pos + 16));
            assert(before.take(pos as int) + (feedback@ + tail) =~= data@.take(pos + 16) + tail);
        }
        pos += 16;
    }
    let ghost before: Seq<u8> = data@;
    let keystream: [u8; 16] = encrypt_block(wide, key, &feedback);
    xor_store(data, pos, n - pos, &keystream);
    proof {
        assert(before.subrange(pos as int, n as int) =~= start.skip(pos as int));
        assert(data@ =~= before.take(pos as int) + xored(start.skip(pos as int), keystream@));
    }
}

/// AES-CFB128 decryption of `data` in place.
fn cfb_decrypt(wide: bool, key: &[u8; 32], iv: &[u8; 16], data: &mut [u8])
    ensures
        final(data)@ == cfb_decrypted(wide, key@, iv@, old(data)@),
        final(data)@.len() == old(data)@.len(),
        block_pinned(wide, key@, iv@),
{
    let ghost start: Seq<u8> = data@;
    let n: usize = data.len();
    let mut feedback: [u8; 16] = *iv;
    let mut pos: usize = 0;
    proof {
        assert(start.skip(0) =~= start);
        assert(data@.take(0) + cfb_decrypted(wide, key@, iv@, start) =~= cfb_decrypted(
            wide,
            key@,
            iv@,
            start,
        ));
    }
    while n - pos > 16
        invariant
            n == start.len(),
            n == data@.len(),
            pos <= n,
            data@.skip(pos as int) == start.skip(pos as int),
            pos == 0 ==> feedback@ == iv@,
            pos > 0 ==> block_pinned(wide, key@, iv@),
            cfb_decrypted(wide, key@, iv@, start) == data@.take(pos as int) + cfb_decrypted(
                wide,
                key@,
                feedback@,
                start.skip(pos as int),
            ),
        decreases n - pos,
    {
        let ghost before: Seq<u8> = data@;
        let ghost rest: Seq<u8> = start.skip(pos as int);
        let keystream: [u8; 16] = encrypt_block(wide, key, &feedback);
        feedback = block_at(data, pos);
        xor_store(data, pos, 16, &keystream);
        proof {
            assert(before.subrange(pos as int, pos + 16) =~= rest.take(16)) by {
                assert forall|j: int| 0 <= j < 16 implies before[pos + j] == rest[j] by {
                    assert(before[pos + j] == before.skip(pos as int)[j]);
                }
            }
            assert(rest.skip(16) =~= start.skip(pos + 16));
            assert(before.skip(pos + 16) =~= before.skip(pos as int).skip(16));
            assert(data@.skip(pos + 16) =~= start.skip(pos + 16));
            let block: Seq<u8> = xored(rest.take(16), keystream@);
            assert(data@.take(pos + 16) =~= before.take(pos as int) + block);
            let tail: Seq<u8> = cfb_decrypted(wide, key@, feedback@, start.skip(pos + 16));
            assert(before.take(pos as int) + (block + tail) =~= data@.take(pos + 16) + tail);
        }
        pos += 16;
    }
    let ghost before: Seq<u8> = data@;
    let keystream: [u8; 16] = encrypt_block(wide, key, &feedback);
    xor_store(data, pos, n - pos, &keystream);
    proof {
        assert(before.subrange(pos as int, n as int) =~= start.skip(pos as int)) by {
            assert(before.skip(pos as int) =~= before.subrange(pos as int, n as int));
        }
        assert(data@ =~= before.take(pos as int) + xored(start.skip(pos as int), keystream@));
    }
}

/// AES-CTR over `data` in place, in either direction.
fn ctr_apply(wide: bool, key: &[u8; 32], iv: &[u8; 16], data: &mut [u8])
    ensures
        final(data)@ == ctr_applied(wide, key@, iv@, old(data)@),
        final(data)@.len() == old(data)@.len(),
        old(data)@.len() > 0 ==> block_pinned(wide, key@, ctr_block(iv@, 0)),
{
    let ghost start: Seq<u8> = data@;
    let n: usize = data.len();
    let mut counter: u128 = u128_from_be(iv.as_slice());
    let mut pos: usize = 0;
    while pos < n
        invariant
            n == start.len(),
            n == data@.len(),
            pos <= n,
            pos % 16 == 0 || pos == n,
            pos > 0 ==> block_pinned(wide, key@, ctr_block(iv@, 0)),
            pos < n ==> counter as int == (be_value(iv@) + pos as int / 16)
                % (u128::MAX as int + 1),
            forall|j: int|
                0 <= j < n ==> #[trigger] data@[j] == if j < pos {
                    ctr_applied(wide, key@, iv@, start)[j]
                } else {
                    start[j]
                },
        decreases n - pos,
    {
        let ghost before: Seq<u8> = data@;
        let take: usize = if n - pos < 16 { n - pos } else { 16 };
        let block: [u8; 16] = be_bytes_u128(counter);
        let keystream: [u8; 16] = encrypt_block(wide, key, &block);
        xor_store(data, pos, take, &keystream);
        proof {
            let k: int = pos as int / 16;
            assert(block@ == ctr_block(iv@, k));
            assert forall|j: int| 0 <= j < n implies #[trigger] data@[j] == (if j < pos + take {
                ctr_applied(wide, key@, iv@, start)[j]
            } else {
                start[j]
            }) by {
                if pos <= j < pos + take {
                    assert(j / 16 == k);
                    assert(j % 16 == j - pos);
                    assert(data@[j] == before[j] ^ keystream@[j - pos]);
                } else {
                    assert(data@[j] == before[j]);
                }
            }
            if take == 16 {
                assert((pos + 16) as int / 16 == k + 1);
                lemma_wrapping_step(be_value(iv@) as int + k, counter as int);
            }
        }
        counter = counter.wrapping_add(1);
        pos += take;
    }
    assert(data@ =~= ctr_applied(wide, key@, iv@, start));
}

proof fn lemma_wrapping_step(n: int, c: int)
    requires
        c == n % (u128::MAX as int + 1),
    ensures
        (c + 1) % (u128::MAX as int + 1) == (n + 1)
            % (u128::MAX as int + 1),
{
}

// ---------------------------------------------------------------------------
// Key derivation
// ---------------------------------------------------------------------------

/// The base32 digit of a value below 32: `0-9`, then `a-v`.
pub open spec fn base32_digit(d: nat) -> u8 {
    if d < 10 {
        (0x30 + d) as u8
    } else {
        (0x57 + d) as u8
    }
}

/// The lower-case base32 digits of `v`, most significant first, without
/// leading zeros.
pub open spec fn base32_digits(v: nat) -> Seq<u8>
    decreases v,
{
    if v < 32 {
        seq![base32_digit(v)]
    } else {
        base32_digits(v / 32).push(base32_digit(v % 32))
    }
}

/// `32` to the power of `k`.
pub open spec fn pow32(k: nat) -> nat
    decreases k,
{
    if k == 0 {
        1
    } else {
        32 * pow32((k - 1) as nat)
    }
}

proof fn lemma_base32_len(v: nat, k: nat)
    requires
        k >= 1,
        v < pow32(k),
    ensures
        1 <= base32_digits(v).len() <= k,
    decreases v,
{
    if v >= 32 {
        if k == 1 {
            reveal_with_fuel(pow32, 2);
        } else {
            lemma_base32_len(v / 32, (k - 1) as nat);
        }
    }
}

/// The salt of a layer and a method: `nextppp/<role>/<method>`.
pub open spec fn salt_text(role: CipherRole, method: Method) -> Seq<char> {
    "nextppp/"@ + role.name_text() + "/"@ + method.name_text()
}

/// The input key material: the password and, after the handshake, `+` and the
/// base32 digits of `ivv` (only the digit `0` where it is zero).
pub open spec fn key_material(password: Seq<char>, ivv: Option<u128>) -> Seq<u8> {
    encode_utf8(password) + match ivv {
        Some(v) => (if v > 0 {
            seq![0x2bu8]
        } else {
            Seq::empty()
        }) + base32_digits(v as nat),
        None => Seq::empty(),
    }
}

/// The 48 bytes that a session cipher takes its key and base IV from.
pub open spec fn session_okm(
    method: Method,
    role: CipherRole,
    password: Seq<char>,
    ivv: Option<u128>,
) -> Seq<u8> {
    hkdf_sha256_48(
        encode_utf8(salt_text(role, method)),
        key_material(password, ivv),
        encode_utf8("nextppp-session-key"@),
    )
}

/// What a session cipher holds.
pub struct CipherModel {
    /// The cipher method.
    pub method: Method,
    /// 32 key bytes, of which the method uses its key size.
    pub key: Seq<u8>,
    /// 16 bytes of base IV, of which the method uses its IV size.
    pub base_iv: Seq<u8>,
    /// Messages processed so far.
    pub seq: nat,
    /// The direction.
    pub encrypting: bool,
}

impl CipherModel {
    /// The cipher of 48 bytes of key material: the key, then the base IV.
    pub open spec fn from_okm(method: Method, okm: Seq<u8>) -> CipherModel {
        CipherModel {
            method,
            key: okm.subrange(0, 32),
            base_iv: okm.subrange(32, 48),
            seq: 0,
            encrypting: true,
        }
    }

    /// The cipher of a fresh session.
    pub open spec fn derived(
        method: Method,
        role: CipherRole,
        password: Seq<char>,
        ivv: Option<u128>,
    ) -> CipherModel {
        CipherModel::from_okm(method, session_okm(method, role, password, ivv))
    }

    /// The same cipher in the other direction.
    pub open spec fn decrypting(self) -> CipherModel {
        CipherModel { encrypting: false, ..self }
    }

    /// The same cipher before message number `seq`.
    pub open spec fn at(self, seq: nat) -> CipherModel {
        CipherModel { seq, ..self }
    }

    /// The AES variant of the method, for the methods that have one: whether the
    /// key has 256 bits.
    pub open spec fn wide(self) -> bool {
        self.method == Method::Aes256Cfb || self.method == Method::Aes256Ctr
    }

    /// The nonce of the next message: the big-endian counter XORed into the
    /// low bytes of the method's part of the base IV.
    pub open spec fn nonce(self) -> Seq<u8> {
        let end: int = self.method.iv_size() as int;
        let start: int = end - self.method.counter_size();
        let counter: Seq<u8> = be_bytes(self.seq, 8);
        Seq::new(
            16,
            |i: int|
                if start <= i < end {
                    self.base_iv[i] ^ counter[i - end + 8]
                } else {
                    self.base_iv[i]
                },
        )
    }

    /// A message after the cipher went over it.
    pub open spec fn applied(self, data: Seq<u8>) -> Seq<u8> {
        match self.method {
            Method::Aes128Cfb => if self.encrypting {
                cfb_encrypted(false, self.key, self.nonce(), data)
            } else {
                cfb_decrypted(false, self.key, self.nonce(), data)
            },
            Method::Aes256Cfb => if self.encrypting {
                cfb_encrypted(true, self.key, self.nonce(), data)
            } else {
                cfb_decrypted(true, self.key, self.nonce(), data)
            },
            Method::Aes128Ctr => ctr_applied(false, self.key, self.nonce(), data),
            Method::Aes256Ctr => ctr_applied(true, self.key, self.nonce(), data),
            Method::ChaCha20 => chacha_applied(self.key, self.nonce().take(12), data),
        }
    }

    /// The cipher after one message.
    pub open spec fn next(self) -> CipherModel {
        CipherModel { seq: self.seq + 1, ..self }
    }

    /// Whether the cipher can take a message of `len` bytes: the counter has a
    /// value left, and a ChaCha20 keystream is long enough.
    pub open spec fn accepts(self, len: nat) -> bool {
        &&& self.seq < u64::MAX
        &&& self.method == Method::ChaCha20 ==> len <= 64 * 0xffff_ffff
    }
}

/// What one side encrypts, the mirrored cipher of the other side decrypts, and
/// the length never changes.
pub proof fn law_cipher_roundtrip(c: CipherModel, data: Seq<u8>)
    requires
        c.encrypting,
    ensures
        c.applied(data).len() == data.len(),
        c.decrypting().applied(c.applied(data)) == data,
        c.decrypting().next() == c.next().decrypting(),
{
    let d: CipherModel = c.decrypting();
    assert(d.nonce() =~= c.nonce());
    let sent: Seq<u8> = c.applied(data);
    match c.method {
        Method::Aes128Cfb => {
            lemma_cfb_roundtrip(false, c.key, c.nonce(), data);
        },
        Method::Aes256Cfb => {
            lemma_cfb_roundtrip(true, c.key, c.nonce(), data);
        },
        _ => {
            assert forall|i: int| 0 <= i < data.len() implies d.applied(sent)[i] == data[i] by {
                let mask: u8 = match c.method {
                    Method::Aes128Ctr => aes_block(false, c.key, ctr_block(c.nonce(), i / 16))[i
                        % 16],
                    Method::Aes256Ctr => aes_block(true, c.key, ctr_block(c.nonce(), i / 16))[i
                        % 16],
                    _ => chacha20_keystream(c.key, c.nonce().take(12), i),
                };
                crate::crypto::ssea::lemma_xor_twice(data[i], mask);
            }
            assert(d.applied(sent) =~= data);
        },
    }
}

/// A cipher keeps the length of every message, in either direction.
pub proof fn law_cipher_keeps_length(c: CipherModel, data: Seq<u8>)
    ensures
        c.applied(data).len() == data.len(),
{
    match c.method {
        Method::Aes128Cfb => {
            lemma_cfb_roundtrip(false, c.key, c.nonce(), data);
            lemma_cfb_decrypted_len(false, c.key, c.nonce(), data);
        },
        Method::Aes256Cfb => {
            lemma_cfb_roundtrip(true, c.key, c.nonce(), data);
            lemma_cfb_decrypted_len(true, c.key, c.nonce(), data);
        },
        _ => {},
    }
}

/// The nonces of two messages of one AES session differ.
pub proof fn law_aes_nonces_distinct(c: CipherModel, a: nat, b: nat)
    requires
        c.method != Method::ChaCha20,
        a <= u64::MAX,
        b <= u64::MAX,
        a != b,
    ensures
        c.at(a).nonce() != c.at(b).nonce(),
{
    let x: CipherModel = c.at(a);
    let y: CipherModel = c.at(b);
    if x.nonce() == y.nonce() {
        assert forall|i: int| 0 <= i < 8 implies be_bytes(a, 8)[i] == be_bytes(b, 8)[i] by {
            assert(x.nonce()[8 + i] == y.nonce()[8 + i]);
            lemma_xor_cancel(c.base_iv[8 + i], be_bytes(a, 8)[i], be_bytes(b, 8)[i]);
        }
        lemma_be_value_of_bytes(a, 8);
        lemma_be_value_of_bytes(b, 8);
        assert(be_bytes(a, 8) =~= be_bytes(b, 8));
        reveal_with_fuel(pow256, 9);
    }
}

/// The nonces of two messages of one ChaCha20 session differ, as long as fewer
/// than `2^32` messages lie between them.
pub proof fn law_chacha_nonces_distinct(c: CipherModel, a: nat, b: nat)
    requires
        c.method == Method::ChaCha20,
        a % 0x1_0000_0000 != b % 0x1_0000_0000,
    ensures
        c.at(a).nonce().take(12) != c.at(b).nonce().take(12),
{
    let x: CipherModel = c.at(a);
    let y: CipherModel = c.at(b);
    let p: Seq<u8> = x.nonce().take(12);
    let q: Seq<u8> = y.nonce().take(12);
    if p == q {
        assert forall|j: int| 4 <= j < 8 implies be_bytes(a, 8)[j] == be_bytes(b, 8)[j] by {
            assert(p[4 + j] == x.nonce()[4 + j]);
            assert(q[4 + j] == y.nonce()[4 + j]);
            lemma_xor_cancel(c.base_iv[4 + j], be_bytes(a, 8)[j], be_bytes(b, 8)[j]);
        }
        lemma_be_low_bytes(a, 8, 4);
        lemma_be_low_bytes(b, 8, 4);
        reveal_with_fuel(pow256, 5);
        assert(be_bytes(a, 8).subrange(4, 8) =~= be_bytes(b, 8).subrange(4, 8));
    }
}

/// Two messages of one session with the same text come out the same only where
/// their nonces give the same keystream: the same first block of sixteen bytes
/// with AES, the same bytes all along with ChaCha20.
pub proof fn law_repeat_needs_same_keystream(c: CipherModel, a: nat, b: nat, data: Seq<u8>)
    requires
        c.at(a).applied(data) == c.at(b).applied(data),
    ensures
        c.method != Method::ChaCha20 && data.len() >= 16 ==> same_block(
            aes_block(c.wide(), c.key, c.at(a).nonce()),
            aes_block(c.wide(), c.key, c.at(b).nonce()),
        ),
        c.method == Method::ChaCha20 ==> forall|i: int|
            0 <= i < data.len() ==> #[trigger] chacha20_keystream(
                c.key,
                c.at(a).nonce().take(12),
                i,
            ) == chacha20_keystream(c.key, c.at(b).nonce().take(12), i),
{
    let x: CipherModel = c.at(a);
    let y: CipherModel = c.at(b);
    if c.method == Method::ChaCha20 {
        assert forall|i: int| 0 <= i < data.len() implies #[trigger] chacha20_keystream(
            c.key,
            x.nonce().take(12),
            i,
        ) == chacha20_keystream(c.key, y.nonce().take(12), i) by {
            assert(x.applied(data)[i] == y.applied(data)[i]);
            lemma_xor_cancel(
                data[i],
                chacha20_keystream(c.key, x.nonce().take(12), i),
                chacha20_keystream(c.key, y.nonce().take(12), i),
            );
        }
    } else if data.len() >= 16 {
        let p: Seq<u8> = aes_block(c.wide(), c.key, x.nonce());
        let q: Seq<u8> = aes_block(c.wide(), c.key, y.nonce());
        assert forall|i: int| 0 <= i < 16 implies #[trigger] p[i] == q[i] by {
            lemma_first_block(x, data, i);
            lemma_first_block(y, data, i);
            lemma_xor_cancel(data[i], p[i], q[i]);
        }
    }
}

/// The first sixteen bytes of a message are XORed with the encryption of the
/// nonce.
proof fn lemma_first_block(c: CipherModel, data: Seq<u8>, i: int)
    requires
        c.method != Method::ChaCha20,
        0 <= i < 16 <= data.len(),
    ensures
        c.applied(data)[i] == data[i] ^ aes_block(c.wide(), c.key, c.nonce())[i],
{
    lemma_first_counter(c.nonce());
}

/// The first counter block is the nonce.
proof fn lemma_first_counter(iv: Seq<u8>)
    requires
        iv.len() == 16,
    ensures
        ctr_block(iv, 0) == iv,
{
    lemma_be_bytes_of_value(iv);
    lemma_be_value_bound(iv);
    reveal_with_fuel(pow256, 17);
}

proof fn lemma_xor_cancel(k: u8, a: u8, b: u8)
    requires
        k ^ a == k ^ b,
    ensures
        a == b,
{
    assert(k ^ a == k ^ b ==> a == b) by (bit_vector);
}

/// What a session cipher is derived from: HKDF over the salt
/// `nextppp/<layer>/<method>`, the password, and the text
/// `nextppp-session-key`. The first 32 bytes are the key, the last 16 the base
/// IV. With key material of a handshake, a plus sign and its base32 digits
/// stand behind the password; for zero, the digit alone.
pub proof fn law_derivation(method: Method, role: CipherRole, password: Seq<char>, v: u128)
    ensures
        ({
            let salt: Seq<u8> = encode_utf8(
                "nextppp/"@ + (if role == CipherRole::Protocol {
                    "protocol"@
                } else {
                    "transport"@
                }) + "/"@ + (match method {
                    Method::Aes128Cfb => "aes-128-cfb"@,
                    Method::Aes256Cfb => "aes-256-cfb"@,
                    Method::Aes128Ctr => "aes-128-ctr"@,
                    Method::Aes256Ctr => "aes-256-ctr"@,
                    Method::ChaCha20 => "chacha20"@,
                }),
            );
            let info: Seq<u8> = encode_utf8("nextppp-session-key"@);
            let plain: Seq<u8> = hkdf_sha256_48(salt, encode_utf8(password), info);
            let rekeyed: Seq<u8> = hkdf_sha256_48(
                salt,
                encode_utf8(password) + seq![0x2bu8] + base32_digits(v as nat),
                info,
            );
            let zero: Seq<u8> = hkdf_sha256_48(salt, encode_utf8(password) + seq![0x30u8], info);
            let before: CipherModel = CipherModel::derived(method, role, password, None);
            let after: CipherModel = CipherModel::derived(method, role, password, Some(v));
            &&& before.key == plain.subrange(0, 32)
            &&& before.base_iv == plain.subrange(32, 48)
            &&& before.method == method && before.seq == 0 && before.encrypting
            &&& v > 0 ==> after.key == rekeyed.subrange(0, 32) && after.base_iv
                == rekeyed.subrange(32, 48)
            &&& v == 0 ==> after.key == zero.subrange(0, 32) && after.base_iv == zero.subrange(
                32,
                48,
            )
            &&& after.method == method && after.seq == 0 && after.encrypting
        }),
{
    assert(encode_utf8(password) + Seq::<u8>::empty() =~= encode_utf8(password));
    assert(encode_utf8(password) + (seq![0x2bu8] + base32_digits(v as nat)) =~= encode_utf8(
        password,
    ) + seq![0x2bu8] + base32_digits(v as nat));
    assert(Seq::<u8>::empty() + base32_digits(0) =~= seq![0x30u8]);
}

/// The value of a base32 digit.
pub open spec fn base32_worth(c: u8) -> nat {
    if c <= 0x39 {
        (c as int - 0x30) as nat
    } else {
        (c as int - 0x57) as nat
    }
}

/// The number that base32 digits stand for.
pub open spec fn base32_value(s: Seq<u8>) -> nat
    decreases s.len(),
{
    if s.len() == 0 {
        0
    } else {
        base32_value(s.drop_last()) * 32 + base32_worth(s.last())
    }
}

/// The base32 digits of a number are `0` to `9` and `a` to `v`, without a
/// leading zero but for zero itself, and stand for that number.
pub proof fn law_base32_digits(v: nat)
    ensures
        base32_digits(v).len() >= 1,
        forall|i: int|
            0 <= i < base32_digits(v).len() ==> 0x30 <= #[trigger] base32_digits(v)[i] <= 0x39
                || 0x61 <= base32_digits(v)[i] <= 0x76,
        base32_value(base32_digits(v)) == v,
        v > 0 ==> base32_digits(v)[0] != 0x30,
    decreases v,
{
    let t: Seq<u8> = base32_digits(v);
    if v >= 32 {
        law_base32_digits(v / 32);
        assert(t.drop_last() =~= base32_digits(v / 32));
        assert(t[0] == base32_digits(v / 32)[0]);
        assert forall|i: int| 0 <= i < t.len() implies 0x30 <= #[trigger] t[i] <= 0x39 || 0x61 <= t[i]
            <= 0x76 by {
            if i < t.len() - 1 {
                assert(t[i] == base32_digits(v / 32)[i]);
            }
        }
    } else {
        assert(t.drop_last() =~= Seq::<u8>::empty());
        assert(base32_value(t.drop_last()) == 0);
    }
}

/// Different key material of two handshakes, under one password, gives
/// different input to the derivation, and so does a handshake at all.
pub proof fn law_key_material_distinct(password: Seq<char>, v: u128, w: u128)
    requires
        v != w,
    ensures
        key_material(password, Some(v)) != key_material(password, Some(w)),
        key_material(password, Some(v)) != key_material(password, None),
{
    law_base32_digits(v as nat);
    law_base32_digits(w as nat);
    let p: Seq<u8> = encode_utf8(password);
    let a: Seq<u8> = key_material(password, Some(v));
    let b: Seq<u8> = key_material(password, Some(w));
    let x: Seq<u8> = a.skip(p.len() as int);
    let y: Seq<u8> = b.skip(p.len() as int);
    if a == b {
        if v > 0 {
            assert(x[0] == 0x2b);
            assert(x.skip(1) =~= base32_digits(v as nat));
        } else {
            assert(x =~= base32_digits(0));
        }
        if w > 0 {
            assert(y[0] == 0x2b);
            assert(y.skip(1) =~= base32_digits(w as nat));
        } else {
            assert(y =~= base32_digits(0));
        }
        assert(0x30 <= base32_digits(0)[0]);
    }
    assert(a.len() > p.len());
}

/// The nonce of a message: the base IV with the number of the message, as a
/// big-endian counter, XORed into its last eight bytes with AES, and into the
/// last four of twelve with ChaCha20.
pub proof fn law_nonce_carries_counter(c: CipherModel)
    requires
        c.base_iv.len() == 16,
        c.seq <= u64::MAX,
    ensures
        c.nonce().len() == 16,
        c.nonce().take(8) == c.base_iv.take(8),
        c.method != Method::ChaCha20 ==> be_value(
            xored(c.nonce().subrange(8, 16), c.base_iv.subrange(8, 16)),
        ) == c.seq,
        c.method == Method::ChaCha20 ==> be_value(
            xored(c.nonce().subrange(8, 12), c.base_iv.subrange(8, 12)),
        ) == c.seq % 0x1_0000_0000,
{
    let n: Seq<u8> = c.nonce();
    let counter: Seq<u8> = be_bytes(c.seq, 8);
    lemma_be_value_of_bytes(c.seq, 8);
    reveal_with_fuel(pow256, 9);
    assert(n.take(8) =~= c.base_iv.take(8));
    if c.method == Method::ChaCha20 {
        let x: Seq<u8> = xored(n.subrange(8, 12), c.base_iv.subrange(8, 12));
        assert forall|i: int| 0 <= i < 4 implies #[trigger] x[i] == counter[4 + i] by {
            lemma_xor_back(c.base_iv[8 + i], counter[4 + i]);
        }
        assert(x =~= counter.subrange(4, 8));
        lemma_be_low_bytes(c.seq, 8, 4);
    } else {
        let x: Seq<u8> = xored(n.subrange(8, 16), c.base_iv.subrange(8, 16));
        assert forall|i: int| 0 <= i < 8 implies #[trigger] x[i] == counter[i] by {
            lemma_xor_back(c.base_iv[8 + i], counter[i]);
        }
        assert(x =~= counter);
    }
}

proof fn lemma_xor_back(a: u8, b: u8)
    ensures
        (a ^ b) ^ a == b,
{
    assert((a ^ b) ^ a == b) by (bit_vector);
}

/// The counter moves on by one with each message, and nothing else changes; the
/// other direction differs in the direction alone.
pub proof fn law_cipher_steps(c: CipherModel)
    ensures
        c.next().seq == c.seq + 1,
        c.next().key == c.key && c.next().base_iv == c.base_iv && c.next().method == c.method
            && c.next().encrypting == c.encrypting,
        c.decrypting().seq == c.seq && c.decrypting().key == c.key && c.decrypting().base_iv
            == c.base_iv && c.decrypting().method == c.method,
        !c.decrypting().encrypting,
{
}

/// With AES the first sixteen bytes of a message are XORed with the encryption
/// of the nonce, under the first 128 bits of the key or under all of it; with
/// ChaCha20 every byte is XORed with the keystream of the nonce.
pub proof fn law_keystream(c: CipherModel, data: Seq<u8>, i: int)
    requires
        0 <= i < data.len(),
    ensures
        (c.method == Method::Aes128Cfb || c.method == Method::Aes128Ctr) && i < 16 <= data.len()
            ==> c.applied(data)[i] == data[i] ^ aes128_block(c.key.take(16), c.nonce())[i],
        (c.method == Method::Aes256Cfb || c.method == Method::Aes256Ctr) && i < 16 <= data.len()
            ==> c.applied(data)[i] == data[i] ^ aes256_block(c.key, c.nonce())[i],
        c.method == Method::ChaCha20 ==> c.applied(data)[i] == data[i] ^ chacha20_keystream(
            c.key,
            c.nonce().take(12),
            i,
        ),
{
    if c.method != Method::ChaCha20 && i < 16 <= data.len() {
        lemma_first_block(c, data, i);
    }
}

/// In CTR mode byte `i` is masked with byte `i % 16` of the encryption of the
/// nonce plus `i / 16`, and in CFB mode each block with the encryption of the
/// ciphertext block in front of it.
pub proof fn law_block_chaining(c: CipherModel, data: Seq<u8>, i: int)
    requires
        c.encrypting,
        16 <= i < data.len(),
    ensures
        c.method == Method::Aes128Ctr || c.method == Method::Aes256Ctr ==> c.applied(data)[i]
            == data[i] ^ aes_block(c.wide(), c.key, ctr_block(c.nonce(), i / 16))[i % 16]
            && be_value(ctr_block(c.nonce(), i / 16)) == (be_value(c.nonce()) + i / 16)
            % (0xffff_ffff_ffff_ffff_ffff_ffff_ffff_ffffint + 1),
        c.method == Method::Aes128Cfb || c.method == Method::Aes256Cfb ==> c.applied(data)[i]
            == data[i] ^ aes_block(
            c.wide(),
            c.key,
            c.applied(data).subrange(i / 16 * 16 - 16, i / 16 * 16),
        )[i % 16],
{
    if c.method == Method::Aes128Ctr || c.method == Method::Aes256Ctr {
        let n: nat = ((be_value(c.nonce()) + i / 16) % (u128::MAX as int + 1)) as nat;
        lemma_be_value_of_bytes(n, 16);
        reveal_with_fuel(pow256, 17);
    } else if c.method == Method::Aes128Cfb || c.method == Method::Aes256Cfb {
        lemma_cfb_block(c.wide(), c.key, c.nonce(), data, i);
    }
}

proof fn lemma_cfb_block(wide: bool, key: Seq<u8>, iv: Seq<u8>, data: Seq<u8>, i: int)
    requires
        16 <= i < data.len(),
    ensures
        cfb_encrypted(wide, key, iv, data)[i] == data[i] ^ aes_block(
            wide,
            key,
            cfb_encrypted(wide, key, iv, data).subrange(i / 16 * 16 - 16, i / 16 * 16),
        )[i % 16],
    decreases data.len(),
{
    let sent: Seq<u8> = cfb_encrypted(wide, key, iv, data);
    let block: Seq<u8> = xored(data.take(16), aes_block(wide, key, iv));
    let rest: Seq<u8> = data.skip(16);
    let tail: Seq<u8> = cfb_encrypted(wide, key, block, rest);
    lemma_cfb_roundtrip(wide, key, block, rest);
    assert(sent[i] == tail[i - 16]);
    assert(rest[i - 16] == data[i]);
    assert((i - 16) % 16 == i % 16);
    if i < 32 {
        assert(i / 16 == 1);
        assert(sent.subrange(0, 16) =~= block);
        let ks: Seq<u8> = aes_block(wide, key, block);
        if rest.len() <= 16 {
            assert(tail[i - 16] == rest[i - 16] ^ ks[i - 16]);
        } else {
            assert(tail[i - 16] == xored(rest.take(16), ks)[i - 16]);
        }
    } else {
        lemma_cfb_block(wide, key, block, rest, i - 16);
        let b: int = i / 16 * 16;
        assert((i - 16) / 16 * 16 == b - 16);
        assert(sent.subrange(b - 16, b) =~= tail.subrange(b - 32, b - 16));
    }
}

/// A cipher name means the same in any case and with white space around it, and
/// the five methods have six names; nothing else is a name.
pub proof fn law_method_names(name: Seq<char>)
    ensures
        Method::named(name) == Method::named(lower(trimmed(name))),
        Method::named(name) == Some(Method::Aes128Cfb) <==> lower(trimmed(name)) == "aes-128-cfb"@,
        Method::named(name) == Some(Method::Aes256Cfb) <==> lower(trimmed(name)) == "aes-256-cfb"@,
        Method::named(name) == Some(Method::Aes128Ctr) <==> lower(trimmed(name)) == "aes-128-ctr"@,
        Method::named(name) == Some(Method::Aes256Ctr) <==> lower(trimmed(name)) == "aes-256-ctr"@,
        Method::named(name) == Some(Method::ChaCha20) <==> lower(trimmed(name)) == "chacha20"@
            || lower(trimmed(name)) == "chacha20-ietf"@,
        Method::Aes128Cfb.key_size() == 16 && Method::Aes128Ctr.key_size() == 16,
        Method::Aes256Cfb.key_size() == 32 && Method::Aes256Ctr.key_size() == 32
            && Method::ChaCha20.key_size() == 32,
        Method::ChaCha20.iv_size() == 12,
        forall|m: Method| m != Method::ChaCha20 ==> #[trigger] m.iv_size() == 16,
{
    reveal_strlit("aes-128-cfb");
    reveal_strlit("aes-256-cfb");
    reveal_strlit("aes-128-ctr");
    reveal_strlit("aes-256-ctr");
    reveal_strlit("chacha20");
    reveal_strlit("chacha20-ietf");
    let t: Seq<char> = trimmed(name);
    let text: Seq<char> = lower(t);
    crate::text::law_trimmed(name);
    crate::text::law_lower(t);
    if text.len() > 0 {
        assert(crate::text::is_space(text[0]) ==> crate::text::is_space(t[0]));
        assert(crate::text::is_space(text.last()) ==> crate::text::is_space(t.last()));
    }
    crate::text::law_trim_keeps_tight_text(text);
    let a: Seq<char> = "aes-128-cfb"@;
    let b: Seq<char> = "aes-256-cfb"@;
    let c: Seq<char> = "aes-128-ctr"@;
    let d: Seq<char> = "aes-256-ctr"@;
    assert(a[4] != b[4] && a[9] != c[9] && a[4] != d[4] && b[4] != c[4] && b[9] != d[9] && c[4]
        != d[4]);
    assert("chacha20"@.len() == 8 && "chacha20-ietf"@.len() == 13);
}

/// Different layers or different methods have different salts, so that one
/// password may serve both layers.
pub proof fn law_salts_distinct(r1: CipherRole, m1: Method, r2: CipherRole, m2: Method)
    requires
        r1 != r2 || m1 != m2,
    ensures
        salt_text(r1, m1) != salt_text(r2, m2),
        encode_utf8(salt_text(r1, m1)) != encode_utf8(salt_text(r2, m2)),
{
    let s1: Seq<char> = salt_text(r1, m1);
    let s2: Seq<char> = salt_text(r2, m2);
    vstd::utf8::encode_utf8_decode_utf8(s1);
    vstd::utf8::encode_utf8_decode_utf8(s2);
    reveal_strlit("nextppp/");
    reveal_strlit("/");
    reveal_strlit("protocol");
    reveal_strlit("transport");
    if s1 == s2 {
        assert(s1[8] == r1.name_text()[0]);
        assert(s2[8] == r2.name_text()[0]);
        assert(r1 == r2);
        let k: int = 9 + r1.name_text().len() as int;
        assert(s1.skip(k) =~= m1.name_text());
        assert(s2.skip(k) =~= m2.name_text());
        law_method_name_roundtrip(m1);
        law_method_name_roundtrip(m2);
    }
}

/// Writes the lower-case base32 digits of `v` to the front of `out` and returns
/// how many they are.
pub fn encode_base32(v: u128, out: &mut [u8]) -> (r: usize)
    requires
        base32_digits(v as nat).len() <= old(out)@.len(),
    ensures
        r == base32_digits(v as nat).len(),
        1 <= r <= 26,
        final(out)@ == base32_digits(v as nat) + old(out)@.skip(r as int),
{
    let ghost before: Seq<u8> = out@;
    let ghost digits: Seq<u8> = base32_digits(v as nat);
    proof {
        reveal_with_fuel(pow32, 27);
        lemma_base32_len(v as nat, 26);
    }
    let mut len: usize = 1;
    let mut m: u128 = v / 32;
    while m > 0
        invariant
            digits.len() <= 26,
            digits.len() == len + (if m == 0 { 0 } else { base32_digits(m as nat).len() as int }),
        decreases m,
    {
        len += 1;
        m /= 32;
    }
    let mut idx: usize = len;
    let mut n: u128 = v;
    while idx > 0
        invariant
            len == digits.len(),
            len <= before.len(),
            idx <= len,
            out@.len() == before.len(),
            idx > 0 ==> base32_digits(n as nat) == digits.take(idx as int),
            forall|j: int| idx <= j < len ==> #[trigger] out@[j] == digits[j],
            forall|j: int| len <= j < before.len() ==> #[trigger] out@[j] == before[j],
        decreases idx,
    {
        proof {
            assert(digits.take(idx as int).last() == digits[idx - 1]);
            if idx > 1 {
                assert(n >= 32);
                assert(base32_digits(n as nat).drop_last() =~= base32_digits(n as nat / 32));
                assert(digits.take(idx as int).drop_last() =~= digits.take(idx - 1));
            } else if n >= 32 {
                lemma_base32_nonempty(n as nat / 32);
            }
        }
        idx -= 1;
        let d: u8 = (n % 32) as u8;
        out[idx] = if d < 10 { 0x30 + d } else { 0x57 + d };
        n /= 32;
    }
    assert(out@ =~= digits + before.skip(len as int));
    len
}

proof fn lemma_base32_nonempty(v: nat)
    ensures
        base32_digits(v).len() >= 1,
{
}

// ---------------------------------------------------------------------------
// The session cipher
// ---------------------------------------------------------------------------

/// One-directional session cipher with a monotonically advancing nonce
/// counter. One instance serves one message stream; each direction has its
/// own.
pub struct SessionCipher {
    method: Method,
    key: [u8; 32],
    base_iv: [u8; 16],
    seq: u64,
    encrypting: bool,
}

impl View for SessionCipher {
    type V = CipherModel;

    closed spec fn view(&self) -> CipherModel {
        CipherModel {
            method: self.method,
            key: self.key@,
            base_iv: self.base_iv@,
            seq: self.seq as nat,
            encrypting: self.encrypting,
        }
    }
}

impl SessionCipher {
    /// Derives a cipher from `password` alone (before the handshake).
    pub fn new(method: Method, role: CipherRole, password: &str) -> (r: SessionCipher)
        ensures
            r@ == CipherModel::derived(method, role, password@, None),
    {
        Self::derive(method, role, password, None)
    }

    /// Derives a cipher from `password` seasoned with the per-connection `ivv`
    /// (after the handshake).
    pub fn derive(method: Method, role: CipherRole, password: &str, ivv: Option<u128>) -> (r:
        SessionCipher)
        ensures
            r@ == CipherModel::derived(method, role, password@, ivv),
    {
        let mut ikm: Vec<u8> = Vec::new();
        append(&mut ikm, password.as_bytes());
        match ivv {
            Some(v) => {
                if v > 0 {
                    ikm.push(0x2b);
                }
                let mut buf: [u8; 26] = [0u8; 26];
                proof {
                    reveal_with_fuel(pow32, 27);
                    lemma_base32_len(v as nat, 26);
                }
                let len: usize = encode_base32(v, &mut buf);
                let digits: &[u8] = vstd::slice::slice_subrange(buf.as_slice(), 0, len);
                append(&mut ikm, digits);
                assert(digits@ =~= base32_digits(v as nat));
            },
            None => {},
        }
        assert(ikm@ =~= key_material(password@, ivv));

        let mut salt: String = String::new();
        push_str(&mut salt, "nextppp/");
        push_str(&mut salt, role.name());
        push_str(&mut salt, "/");
        push_str(&mut salt, method.name());
        assert(salt@ =~= salt_text(role, method));

        let okm: [u8; 48] = hkdf_sha256(
            salt.as_str().as_bytes(),
            ikm.as_slice(),
            "nextppp-session-key".as_bytes(),
        );
        Self::from_material(method, &okm)
    }

    /// A cipher from 48 bytes of key material: the key, then the base IV.
    pub fn from_material(method: Method, okm: &[u8; 48]) -> (r: SessionCipher)
        ensures
            r@ == CipherModel::from_okm(method, okm@),
    {
        let mut key: [u8; 32] = [0u8; 32];
        let mut base_iv: [u8; 16] = [0u8; 16];
        let mut i: usize = 0;
        while i < 32
            invariant
                i <= 32,
                forall|j: int| 0 <= j < i ==> #[trigger] key@[j] == okm@[j],
            decreases 32 - i,
        {
            key[i] = okm[i];
            i += 1;
        }
        i = 0;
        while i < 16
            invariant
                i <= 16,
                forall|j: int| 0 <= j < i ==> #[trigger] base_iv@[j] == okm@[32 + j],
            decreases 16 - i,
        {
            base_iv[i] = okm[32 + i];
            i += 1;
        }
        assert(key@ =~= okm@.subrange(0, 32));
        assert(base_iv@ =~= okm@.subrange(32, 48));
        SessionCipher { method, key, base_iv, seq: 0, encrypting: true }
    }

    /// Marks this instance as the decrypting direction (CFB encryption and
    /// decryption differ; CTR and ChaCha20 are symmetric).
    pub fn for_decryption(self) -> (r: SessionCipher)
        ensures
            r@ == self@.decrypting(),
    {
        SessionCipher {
            method: self.method,
            key: self.key,
            base_iv: self.base_iv,
            seq: self.seq,
            encrypting: false,
        }
    }

    /// Encrypts (or decrypts, for a `for_decryption` instance) `data` in
    /// place, consuming one nonce. The length never changes. No nonce serves
    /// twice: with AES the same sixteen bytes or more come out otherwise in
    /// every other message of the session.
    pub fn apply(&mut self, data: &mut [u8])
        requires
            old(self)@.accepts(old(data)@.len()),
        ensures
            final(self)@ == old(self)@.next(),
            final(data)@ == old(self)@.applied(old(data)@),
            final(data)@.len() == old(data)@.len(),
            old(self)@.method != Method::ChaCha20 && old(data)@.len() >= 16 ==> forall|other: nat|
                other <= u64::MAX && other != old(self)@.seq ==> #[trigger] old(self)@.at(
                    other,
                ).applied(old(data)@) != final(data)@,
    {
        let ghost start: Seq<u8> = data@;
        let ghost c: CipherModel = self@;
        let nonce: [u8; 16] = self.next_nonce();
        match self.method {
            Method::Aes128Cfb => if self.encrypting {
                cfb_encrypt(false, &self.key, &nonce, data);
            } else {
                cfb_decrypt(false, &self.key, &nonce, data);
            },
            Method::Aes256Cfb => if self.encrypting {
                cfb_encrypt(true, &self.key, &nonce, data);
            } else {
                cfb_decrypt(true, &self.key, &nonce, data);
            },
            Method::Aes128Ctr => ctr_apply(false, &self.key, &nonce, data),
            Method::Aes256Ctr => ctr_apply(true, &self.key, &nonce, data),
            Method::ChaCha20 => {
                let short: [u8; 12] = [
                    nonce[0],
                    nonce[1],
                    nonce[2],
                    nonce[3],
                    nonce[4],
                    nonce[5],
                    nonce[6],
                    nonce[7],
                    nonce[8],
                    nonce[9],
                    nonce[10],
                    nonce[11],
                ];
                assert(short@ =~= nonce@.take(12));
                chacha20_apply(&self.key, &short, data);
                assert(data@ =~= chacha_applied(self.key@, short@, start));
            },
        }
        proof {
            assert(c.at(c.seq) == c);
            if c.method != Method::ChaCha20 && start.len() >= 16 {
                lemma_first_counter(nonce@);
                assert(block_pinned(c.wide(), c.key, nonce@));
                assert forall|other: nat|
                    other <= u64::MAX && other != c.seq implies #[trigger] c.at(other).applied(
                    start,
                ) != data@ by {
                    law_aes_nonces_distinct(c, other, c.seq);
                    if c.at(other).applied(start) == c.applied(start) {
                        law_repeat_needs_same_keystream(c, other, c.seq, start);
                        assert(c.at(other).nonce().len() == 16);
                    }
                }
            }
        }
    }

    /// The method of this cipher.
    pub fn method(&self) -> (r: Method)
        ensures
            r == self@.method,
    {
        self.method
    }

    /// Number of nonces consumed so far (messages processed).
    pub fn sequence(&self) -> (r: u64)
        ensures
            r == self@.seq,
    {
        self.seq
    }

    /// Computes the nonce for the current counter and advances the counter.
    fn next_nonce(&mut self) -> (r: [u8; 16])
        requires
            old(self)@.seq < u64::MAX,
        ensures
            final(self)@ == old(self)@.next(),
            r@ == old(self)@.nonce(),
    {
        let mut nonce: [u8; 16] = self.base_iv;
        let width: usize = if self.method == Method::ChaCha20 { 4 } else { 8 };
        let start: usize = self.method.iv_len() - width;
        let counter: [u8; 8] = be_bytes_u64(self.seq);
        let ghost base: Seq<u8> = nonce@;
        let mut i: usize = 0;
        while i < width
            invariant
                i <= width <= 8,
                start + width <= 16,
                base.len() == 16,
                forall|j: int|
                    0 <= j < 16 ==> #[trigger] nonce@[j] == if start <= j < start + i {
                        base[j] ^ counter@[j - start + 8 - width]
                    } else {
                        base[j]
                    },
            decreases width - i,
        {
            nonce[start + i] = nonce[start + i] ^ counter[8 - width + i];
            i += 1;
        }
        assert(nonce@ =~= self@.nonce());
        self.seq = self.seq + 1;
        nonce
    }
}

} // verus!
