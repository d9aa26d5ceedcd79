//! Cryptographic primitives.

pub mod aes;
pub mod base64;
pub mod sha1;
pub mod sha256;
