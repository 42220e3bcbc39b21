//! Keyed byte transforms and session ciphers.

pub mod cipher;
pub mod primitives;
pub mod ssea;
