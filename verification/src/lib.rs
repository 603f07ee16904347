//! A minimal content-addressed object database and staging engine, compatible
//! with the on-disk layout of the standard distributed version control system.
//!
//! The crate covers the object codec (canonical `<kind> <size>\0<payload>`
//! framing), the content-addressed object store (SHA-1 named, zlib wrapped),
//! the binary staging index (big-endian, checksum trailed, eight-aligned
//! entries), and the commit-formation logic that links index, tree, commit and
//! branch tip. Filesystem access, the command-line front end and configuration
//! files live outside the library; callers hand in bytes and get bytes back.

pub mod commit;
pub mod encoding;
pub mod error;
pub mod index;
pub mod object;
pub mod sha;
pub mod stage;
pub mod store;
pub mod zlib;
