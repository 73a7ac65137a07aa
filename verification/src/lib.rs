//! Base58 text codec for fixed-size byte arrays (16, 32 and 64 bytes).
//!
//! The codec turns a byte array into a fixed-width Base58 string, left-padded
//! with the zero digit `1`, and back.  The conversion is driven by a
//! fixed-width unsigned integer that processes ten Base58 digits per 64-bit
//! word of work.

pub mod arith;
pub mod base58;
pub mod nums;
pub mod strings;
pub mod uint;

pub use crate::base58::DecodeError;
pub use crate::base58::ToBase58;
pub use crate::strings::String16;
pub use crate::strings::String32;
pub use crate::strings::String64;
