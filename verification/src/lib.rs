//! Pushes the closure of a store path into a binary cache: the archive
//! format, the addressing of objects, the records that describe them, and
//! the protocol by which the cache is told what it lacks and is sent it.
//!
//! The library decides and computes; it neither reads the filesystem nor
//! talks to the network. Its callers do both, and hand back what came of it.

pub mod hashing;
pub mod nar;
pub mod narinfo;
pub mod nix_base32;
pub mod nix_store;
pub mod push;
pub mod string_map;
pub mod text;
pub mod upload;
