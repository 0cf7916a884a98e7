//! The reasons for which an operation of the library is refused.

use vstd::prelude::*;

verus! {

/// Why an operation was refused.
#[derive(Clone, Copy, Debug, PartialEq, Eq, Structural)]
pub enum Error {
    /// Fewer than 0x80 bytes where an NPD header is read.
    NpdHeaderTruncated,
    /// Fewer than 0x10 bytes after the NPD header.
    EdatHeaderTruncated,
    /// The first four bytes are not `NPD\0`.
    InvalidMagic,
    /// A read reaches past the end of the data.
    UnexpectedEof,
    /// The EDAT header gives a block size of zero.
    ZeroBlockSize,
    /// The flags hold bits that this NPD version does not define.
    BadFlags {
        /// The NPD version.
        version: u32,
    },
    /// No such NPD version.
    UnknownVersion {
        /// The NPD version.
        version: u32,
    },
    /// AES-CBC input whose length is not a multiple of 16.
    CbcLength,
    /// The top four bits of a crypto mode name no way to derive the key.
    UnknownKeyMode {
        /// The top four bits, in place.
        mode: u32,
    },
    /// The top four bits of a hash mode name no way to derive the hash key.
    UnknownHashMode {
        /// The top four bits, in place.
        mode: u32,
    },
    /// The low byte of a crypto mode names no cipher.
    UnknownCryptoAlgorithm {
        /// The low byte.
        algorithm: u32,
    },
    /// The low byte of a hash mode names no hash.
    UnknownHashAlgorithm {
        /// The low byte.
        algorithm: u32,
    },
    /// A compressed stream of fewer than five bytes.
    StreamTooShort,
    /// A compressed stream that ends where the decoder needs one more byte.
    StreamEnded,
    /// A position outside the decoder's probability model.
    ModelOffset,
    /// A stored block that is longer than the output or the input.
    InvalidStoredBlock,
    /// A back-reference with a distance of zero or less.
    InvalidBackReference,
    /// A back-reference that reaches before the start of the output.
    LzUnderflow,
    /// A back-reference that runs past the end of the output.
    LzOverflow,
    /// Text that is not exactly 32 hexadecimal digits.
    BadHexKey,
    /// The license of the container asks for a RAP or RIF key, and none was
    /// given.
    RifKeyNeeded,
    /// Containers under a network license cannot be made.
    NetworkLicense,
    /// SDAT containers start at version 2.
    InvalidSdatVersion,
    /// An SCE file whose header places the NPD header before the file's start.
    InvalidNpdOffset,
    /// Fewer than 0x60 bytes where the signed part of an NPD header is read.
    SignedPartTruncated,
    /// Fewer than 0x10 bytes where a dev hash is read.
    DevHashTruncated,
}

} // verus!
