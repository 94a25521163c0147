//! Turns a compiled native library into a signed, installable Android
//! package and drives its deployment to an attached device.
//!
//! The pipeline runs in stages: the config model normalizes the project's
//! Android metadata, the build driver interprets per-ABI build outcomes,
//! the manifest synthesizer emits deterministic package markup, the
//! assembler lays entries out in a zip-compatible archive with aligned
//! native libraries, the signer embeds a digest-based signature block,
//! and the deployer decides the push/install/launch protocol.

pub mod archive;
pub mod bytes;
pub mod config;
pub mod deploy;
pub mod driver;
pub mod manifest;
pub mod pipeline;
pub mod sign;
