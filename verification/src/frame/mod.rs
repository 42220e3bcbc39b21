//! Record framing.

pub mod base94;
pub mod binary;
pub mod checksum;
