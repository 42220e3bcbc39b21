//! Protocol configuration.

use crate::crypto::cipher::Method;
use crate::error::Error;
use vstd::prelude::*;

verus! {

/// Highest noise exponent accepted by [`ObfuscationKey::validate`]. `kl` and
/// `kh` feed `1 << exp`, so values from 32 on overflow, and anything above 20
/// stalls the handshake under thousands of noise packets.
pub const MAX_NOP_EXPONENT: u8 = 20;

/// Obfuscation and cipher parameters shared by both endpoints. The four
/// data-plane switches and the low bits of `kf` feed the flag canary, so that
/// a mismatched pair fails the handshake with `Error::FlagsMismatch` instead
/// of hanging.
#[derive(Debug, PartialEq, Eq)]
pub struct ObfuscationKey {
    /// Global obfuscation key: drives the base94, delta and mask transforms
    /// and the length modulus.
    pub kf: u32,
    /// Noise prelude lower exponent: rounds sampled in `2^kl ..= 2^kh`.
    pub kl: u8,
    /// Noise prelude upper exponent.
    pub kh: u8,
    /// Handshake packet padding amount, used as `kx % 256`.
    pub kx: u32,
    /// Cipher protecting the frame header length field (2 bytes per packet).
    pub protocol: Method,
    /// Password for the protocol cipher. **Must be changed per deployment.**
    pub protocol_key: String,
    /// Cipher protecting the packet payload.
    pub transport: Method,
    /// Password for the transport cipher. **Must be changed per deployment.**
    pub transport_key: String,
    /// Payload mask switch (data plane only; always on before the handshake).
    pub masked: bool,
    /// Keep the printable base94 shell after the handshake. `true` keeps all
    /// traffic printable ASCII; `false` switches to the compact 3-byte binary
    /// header after the handshake.
    pub plaintext: bool,
    /// Payload delta-encoding switch.
    pub delta_encode: bool,
    /// Payload shuffle switch.
    pub shuffle_data: bool,
}

impl ObfuscationKey {
    /// What [`ObfuscationKey::validate`] accepts: both noise exponents in
    /// range and both passwords there.
    pub open spec fn valid(self) -> bool {
        &&& self.kl <= MAX_NOP_EXPONENT
        &&& self.kh <= MAX_NOP_EXPONENT
        &&& self.protocol_key@.len() > 0
        &&& self.transport_key@.len() > 0
    }

    /// Checks the invariants that the protocol stack relies on. The
    /// configuration layer runs this on every loaded key.
    pub fn validate(&self) -> (r: Result<(), Error>)
        ensures
            r == if self.kl > MAX_NOP_EXPONENT || self.kh > MAX_NOP_EXPONENT {
                Err::<(), Error>(Error::InvalidConfig("kl/kh exceed MAX_NOP_EXPONENT"))
            } else if self.protocol_key@.len() == 0 || self.transport_key@.len() == 0 {
                Err::<(), Error>(Error::InvalidConfig("cipher password is empty"))
            } else {
                Ok::<(), Error>(())
            },
            r is Ok <==> self.valid(),
    {
        if self.kl > MAX_NOP_EXPONENT || self.kh > MAX_NOP_EXPONENT {
            return Err(Error::InvalidConfig("kl/kh exceed MAX_NOP_EXPONENT"));
        }
        if self.protocol_key.as_str().is_empty() || self.transport_key.as_str().is_empty() {
            return Err(Error::InvalidConfig("cipher password is empty"));
        }
        Ok(())
    }
}

impl Clone for ObfuscationKey {
    fn clone(&self) -> (r: ObfuscationKey)
        ensures
            r == *self,
    {
        ObfuscationKey {
            kf: self.kf,
            kl: self.kl,
            kh: self.kh,
            kx: self.kx,
            protocol: self.protocol,
            protocol_key: self.protocol_key.clone(),
            transport: self.transport,
            transport_key: self.transport_key.clone(),
            masked: self.masked,
            plaintext: self.plaintext,
            delta_encode: self.delta_encode,
            shuffle_data: self.shuffle_data,
        }
    }
}

impl Default for ObfuscationKey {
    /// The built-in parameters, with placeholder passwords.
    fn default() -> (r: ObfuscationKey)
        ensures
            r.kf == 154_543_927,
            r.kl == 10,
            r.kh == 12,
            r.kx == 128,
            r.protocol == Method::Aes128Cfb,
            r.protocol_key@ == "nextppp"@,
            r.transport == Method::Aes256Cfb,
            r.transport_key@ == "nextppp"@,
            r.masked,
            r.plaintext,
            r.delta_encode,
            r.shuffle_data,
            r.valid(),
    {
        proof {
            reveal_strlit("nextppp");
        }
        ObfuscationKey {
            kf: 154_543_927,
            kl: 10,
            kh: 12,
            kx: 128,
            protocol: Method::Aes128Cfb,
            protocol_key: "nextppp".to_owned(),
            transport: Method::Aes256Cfb,
            transport_key: "nextppp".to_owned(),
            masked: true,
            plaintext: true,
            delta_encode: true,
            shuffle_data: true,
        }
    }
}

} // verus!
