//! Builds, encodes, signs and verifies compact denylist membership filters
//! over participant public keys and the edges between them.
pub mod base64_serde;
pub mod cmd;
pub mod codec;
pub mod descriptor;
pub mod error;
pub mod filter;
pub mod keys;
pub mod manifest;
