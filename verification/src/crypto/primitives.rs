//! The cryptographic primitives that other crates compute.

use aes::cipher::BlockEncrypt;
use aes::cipher::KeyInit;
use chacha20::cipher::KeyIvInit;
use chacha20::cipher::StreamCipher;
use vstd::prelude::*;

verus! {

/// The AES-128 encryption of one 16-byte block under a 16-byte key.
pub uninterp spec fn aes128_block(key: Seq<u8>, block: Seq<u8>) -> Seq<u8>;

/// The AES-256 encryption of one 16-byte block under a 32-byte key.
pub uninterp spec fn aes256_block(key: Seq<u8>, block: Seq<u8>) -> Seq<u8>;

/// Byte `i` of the ChaCha20 keystream of a 32-byte key and a 12-byte nonce,
/// counted from block zero.
pub uninterp spec fn chacha20_keystream(key: Seq<u8>, nonce: Seq<u8>, i: int) -> u8;

/// 48 bytes of HKDF-SHA256 output key material.
pub uninterp spec fn hkdf_sha256_48(salt: Seq<u8>, ikm: Seq<u8>, info: Seq<u8>) -> Seq<u8>;

/// `aes::Aes128::encrypt_block` under a schedule made by `aes::Aes128::new`.
/// The block that comes back depends on the key and the block alone. Since
/// `decrypt_block` takes it back to the block that went in, no other block
/// comes out the same under this key.
#[verifier::external_body]
pub(crate) fn aes128_encrypt_block(key: &[u8; 16], block: &[u8; 16]) -> (r: [u8; 16])
    ensures
        r@ == aes128_block(key@, block@),
        forall|other: Seq<u8>|
            #![trigger aes128_block(key@, other)]
            other.len() == 16 && (forall|i: int|
                0 <= i < 16 ==> #[trigger] r@[i] == aes128_block(key@, other)[i]) ==> other
                == block@,
{
    let mut out = aes::Block::from(*block);
    aes::Aes128::new(key.into()).encrypt_block(&mut out);
    out.into()
}

/// `aes::Aes256::encrypt_block` under a schedule made by `aes::Aes256::new`.
/// The block that comes back depends on the key and the block alone. Since
/// `decrypt_block` takes it back to the block that went in, no other block
/// comes out the same under this key.
#[verifier::external_body]
pub(crate) fn aes256_encrypt_block(key: &[u8; 32], block: &[u8; 16]) -> (r: [u8; 16])
    ensures
        r@ == aes256_block(key@, block@),
        forall|other: Seq<u8>|
            #![trigger aes256_block(key@, other)]
            other.len() == 16 && (forall|i: int|
                0 <= i < 16 ==> #[trigger] r@[i] == aes256_block(key@, other)[i]) ==> other
                == block@,
{
    let mut out = aes::Block::from(*block);
    aes::Aes256::new(key.into()).encrypt_block(&mut out);
    out.into()
}

/// `chacha20::ChaCha20::apply_keystream` on a fresh cipher: each byte is XORed
/// with the keystream byte at its position. The keystream ends, and the call
/// panics, after `2^32 - 1` blocks of 64 bytes.
#[verifier::external_body]
pub(crate) fn chacha20_apply(key: &[u8; 32], nonce: &[u8; 12], data: &mut [u8])
    requires
        old(data)@.len() <= 64 * 0xffff_ffff,
    ensures
        final(data)@.len() == old(data)@.len(),
        forall|i: int|
            0 <= i < old(data)@.len() ==> #[trigger] final(data)@[i] == old(data)@[i]
                ^ chacha20_keystream(key@, nonce@, i),
{
    let mut c = chacha20::ChaCha20::new(key.into(), nonce.into());
    c.apply_keystream(data);
}

/// `hkdf::Hkdf::<sha2::Sha256>::new`, which extracts, and `expand` to 48
/// bytes, a length far below the limit at which it fails.
#[verifier::external_body]
pub(crate) fn hkdf_sha256(salt: &[u8], ikm: &[u8], info: &[u8]) -> (r: [u8; 48])
    ensures
        r@ == hkdf_sha256_48(salt@, ikm@, info@),
{
    let mut okm = [0u8; 48];
    hkdf::Hkdf::<sha2::Sha256>::new(Some(salt), ikm).expand(info, &mut okm).expect("48 bytes");
    okm
}

} // verus!
