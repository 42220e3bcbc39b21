//! Obfuscated transport: a printable codec, keyed byte transforms, session
//! ciphers, record framing and the session handshake, with the proxy rules
//! that a client and a server build on top of them.
//!
//! Every function states what it computes over mathematical models of its
//! data; `app/` wraps the library with sockets, files and command lines.

use vstd::prelude::*;

pub mod addr;
pub mod base94;
pub mod bytes;
pub mod codec;
pub mod config;
pub mod crypto;
pub mod endpoint;
pub mod error;
pub mod fmt;
pub mod frame;
pub mod handshake;
pub mod http;
pub mod proto;
pub mod pump;
pub mod rng;
pub mod rule;
pub mod service;
pub mod settings;
pub mod socks5;
pub mod stream;
pub mod text;
pub mod transmission;


pub use config::ObfuscationKey;
pub use crypto::cipher::{CipherRole, Method, SessionCipher};
pub use error::Error;

verus! {

/// 128-bit session identifier.
pub type SessionId = u128;

/// Maximum single-frame plaintext size.
pub const PPP_BUFFER_SIZE: usize = 65536;

/// Ceiling of the encoded length of a base94 frame: every input byte may
/// expand to 2 chars.
pub const BASE94_MAX_FRAME: usize = 131_136;

/// Length-modulus lower bound (`64^3`).
pub const MOD_MIN: u32 = 262_144;

/// Length-modulus upper bound (`94^3`).
pub const MOD_MAX: u32 = 830_584;

} // verus!
