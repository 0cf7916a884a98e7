//! Packing and unpacking of EDAT and SDAT containers.
//!
//! A container is a 0x80-byte NPD header, a 0x10-byte EDAT header, a hash
//! area up to offset 0x100, and then the payload cut into blocks, each with
//! its metadata. The library works on bytes in memory: reading and writing
//! files, the clock and the command line stay with the caller.
//!
//! The console's fixed keys are data, not code: every function that needs
//! one takes a [`constants::KeySet`].
//!
//! Two modules hold no executable code. [`format`] says what the bytes of a
//! container are, and [`coding`] how a compressed stream is made; their laws
//! tie what the other modules do to that.

pub mod blocks;
pub mod bruteforce;
pub mod cli;
pub mod coding;
pub mod constants;
pub mod container;
pub mod crypto;
pub mod error;
pub mod format;
pub mod hashes;
pub mod image;
pub mod lz;
pub mod npdata;
pub mod pack;
pub mod primitives;
pub mod rap;
pub mod unpack;
pub mod util;
