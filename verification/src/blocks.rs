//! How the payload is cut into blocks: where each block and its metadata lie,
//! under which keys it is sealed, and how its metadata is scrambled.

use vstd::prelude::*;

use crate::constants::{
    EDAT_COMPRESSED_FLAG, EDAT_ENCRYPTED_KEY_FLAG, EDAT_FLAG_0X02, EDAT_FLAG_0X10, EDAT_FLAG_0X20,
};
use crate::crypto::aes_ecb128_encrypt_block;
use crate::error::Error;
use crate::npdata;
use crate::npdata::{EdatHeader, NpdHeader};
use crate::primitives;
use crate::util;

verus! {

/// Whether a flag is set.
pub open spec fn flagged(flags: u32, flag: u32) -> bool {
    flags & flag != 0
}

/// How many blocks the payload is cut into. The sum is taken in 64 bits and
/// the count in 32.
#[verifier::opaque]
pub open spec fn blocks_of(edat: EdatHeader) -> nat {
    ((edat.file_size + edat.block_size - 1) as nat % 0x1_0000_0000_0000_0000 / (
    edat.block_size as nat)) % 0x1_0000_0000
}

/// How many bytes of metadata a block has.
pub open spec fn section_size(flags: u32) -> nat {
    if flagged(flags, EDAT_COMPRESSED_FLAG) || flagged(flags, EDAT_FLAG_0X20) {
        0x20
    } else {
        0x10
    }
}

/// How many payload bytes an uncompressed block holds: a full block, but for
/// a shorter last one.
pub open spec fn chunk_len(edat: EdatHeader, i: nat) -> nat {
    if i == blocks_of(edat) - 1 && edat.file_size as nat % edat.block_size as nat != 0 {
        edat.file_size as nat % edat.block_size as nat
    } else {
        edat.block_size as nat
    }
}

/// A length rounded up to whole cipher blocks.
pub open spec fn padded(n: nat) -> nat {
    (n + 15) / 16 * 16
}

/// Where a block's metadata lies. It precedes all blocks, or its own block.
pub open spec fn section_at(edat: EdatHeader, i: nat) -> nat {
    if flagged(edat.flags, EDAT_COMPRESSED_FLAG) || !flagged(edat.flags, EDAT_FLAG_0X20) {
        0x100 + i * section_size(edat.flags)
    } else {
        0x100 + i * edat.block_size as nat + i * 0x20
    }
}

/// Where a block's data lies.
pub open spec fn data_at(edat: EdatHeader, i: nat) -> nat {
    if flagged(edat.flags, EDAT_COMPRESSED_FLAG) || !flagged(edat.flags, EDAT_FLAG_0X20) {
        0x100 + i * edat.block_size as nat + blocks_of(edat) * section_size(edat.flags)
    } else {
        0x100 + i * edat.block_size as nat + (i + 1) * 0x20
    }
}

/// The mask that a block's tag puts over the rest of its metadata: four words,
/// each the exclusive or of two words of the tag.
pub open spec fn section_mask(tag: Seq<u8>) -> Seq<u8> {
    Seq::new(
        16,
        |i: int|
            tag[(if i / 4 % 2 == 0 {
                12 + i % 4
            } else {
                4 + i % 4
            })] ^ tag[(if i < 8 {
                8 + i % 4
            } else {
                i % 4
            })],
    )
}

/// The second half of a block's metadata, unmasked.
pub open spec fn section_unmasked(metadata: Seq<u8>) -> Seq<u8> {
    util::xor_bytes(section_mask(metadata.take(16)), metadata.subrange(16, 32))
}

/// Masking a block's metadata and unmasking it gives it back.
pub proof fn law_section_mask_involution(metadata: Seq<u8>)
    requires
        metadata.len() == 32,
    ensures
        section_unmasked(metadata.take(16) + section_unmasked(metadata)) == metadata.skip(16),
{
    let tag = metadata.take(16);
    let masked = section_unmasked(metadata);
    let both = tag + masked;
    assert(both.take(16) =~= tag);
    assert(both.subrange(16, 32) =~= masked);
    assert forall|i: int| 0 <= i < 16 implies section_unmasked(both)[i] == metadata.skip(16)[i] by {
        let m = section_mask(tag)[i];
        let x = metadata[16 + i];
        assert(m ^ (m ^ x) == x) by (bit_vector);
    }
    assert(section_unmasked(both) =~= metadata.skip(16));
}

/// What identifies a block under its container's key: a part of the dev hash,
/// from version 2 on, and the block's number.
pub open spec fn block_id(npd: NpdHeader, i: u32) -> Seq<u8> {
    (if npd.version > 1 {
        npd.dev_hash@.take(12)
    } else {
        util::zeros(12)
    }) + util::be_bytes_u32(i)
}

/// No two blocks of a container have the same identity.
pub proof fn law_block_ids_differ(npd: NpdHeader, i: u32, j: u32)
    requires
        i != j,
    ensures
        block_id(npd, i) != block_id(npd, j),
{
    let a = block_id(npd, i);
    let b = block_id(npd, j);
    util::law_be_u32_round_trip(i);
    util::law_be_u32_round_trip(j);
    assert(a.skip(12) =~= util::be_bytes_u32(i));
    assert(b.skip(12) =~= util::be_bytes_u32(j));
}

/// The key of a block.
pub open spec fn block_key(npd: NpdHeader, crypt_key: Seq<u8>, i: u32) -> Seq<u8> {
    primitives::aes128_encrypted(crypt_key, block_id(npd, i))
}

/// The hash key of a block.
pub open spec fn block_hash_key(flags: u32, npd: NpdHeader, crypt_key: Seq<u8>, i: u32) -> Seq<u8> {
    if flagged(flags, EDAT_FLAG_0X10) {
        primitives::aes128_encrypted(crypt_key, block_key(npd, crypt_key, i))
    } else {
        block_key(npd, crypt_key, i)
    }
}

/// How blocks are encrypted.
pub open spec fn block_crypto_mode(flags: u32) -> u32 {
    let algorithm: u32 = if flagged(flags, EDAT_FLAG_0X02) {
        1
    } else {
        2
    };
    if flagged(flags, EDAT_ENCRYPTED_KEY_FLAG) {
        algorithm | 0x1000_0000
    } else {
        algorithm
    }
}

/// How blocks are hashed.
pub open spec fn block_hash_mode(flags: u32) -> u32 {
    let algorithm: u32 = if !flagged(flags, EDAT_FLAG_0X10) {
        2
    } else if !flagged(flags, EDAT_FLAG_0X20) {
        4
    } else {
        1
    };
    if flagged(flags, EDAT_ENCRYPTED_KEY_FLAG) {
        algorithm | 0x1000_0000
    } else {
        algorithm
    }
}

/// Whatever the flags, the modes of blocks name a way to derive each key, a
/// cipher and a hash.
pub proof fn law_block_modes_known(flags: u32)
    ensures
        block_crypto_mode(flags) & 0xF000_0000 == 0 || block_crypto_mode(flags) & 0xF000_0000
            == 0x1000_0000,
        block_crypto_mode(flags) & 0xFF == 1 || block_crypto_mode(flags) & 0xFF == 2,
        block_hash_mode(flags) & 0xF000_0000 == 0 || block_hash_mode(flags) & 0xF000_0000
            == 0x1000_0000,
        block_hash_mode(flags) & 0xFF == 1 || block_hash_mode(flags) & 0xFF == 2
            || block_hash_mode(flags) & 0xFF == 4,
{
    let crypto = block_crypto_mode(flags);
    assert(crypto == 1 || crypto == 2 || crypto == 1u32 | 0x1000_0000 || crypto == 2u32
        | 0x1000_0000);
    assert((crypto & 0xF000_0000 == 0 || crypto & 0xF000_0000 == 0x1000_0000) && (crypto & 0xFF == 1
        || crypto & 0xFF == 2)) by (bit_vector)
        requires
            crypto == 1 || crypto == 2 || crypto == 1u32 | 0x1000_0000 || crypto == 2u32
                | 0x1000_0000,
    ;
    let hash = block_hash_mode(flags);
    assert(hash == 1 || hash == 2 || hash == 4 || hash == 1u32 | 0x1000_0000 || hash == 2u32
        | 0x1000_0000 || hash == 4u32 | 0x1000_0000);
    assert((hash & 0xF000_0000 == 0 || hash & 0xF000_0000 == 0x1000_0000) && (hash & 0xFF == 1
        || hash & 0xFF == 2 || hash & 0xFF == 4)) by (bit_vector)
        requires
            hash == 1 || hash == 2 || hash == 4 || hash == 1u32 | 0x1000_0000 || hash == 2u32
                | 0x1000_0000 || hash == 4u32 | 0x1000_0000,
    ;
}

/// The initial vector of every block.
pub open spec fn block_iv(npd: NpdHeader) -> Seq<u8> {
    if npd.version <= 1 {
        util::zeros(16)
    } else {
        npd.digest@
    }
}

/// Unmasks the second half of a block's metadata.
pub fn dec_section(metadata: &[u8; 0x20]) -> (dec: [u8; 0x10])
    ensures
        dec@ == section_unmasked(metadata@),
{
    let mut dec: [u8; 0x10] = [0u8; 0x10];
    let mut i: usize = 0;
    while i < 16
        invariant
            i <= 16,
            forall|j: int| 0 <= j < i ==> #[trigger] dec[j] == section_unmasked(metadata@)[j],
        decreases 16 - i,
    {
        let a: usize = if i / 4 % 2 == 0 {
            12 + i % 4
        } else {
            4 + i % 4
        };
        let b: usize = if i < 8 {
            8 + i % 4
        } else {
            i % 4
        };
        dec[i] = metadata[a] ^ metadata[b] ^ metadata[16 + i];
        i = i + 1;
    }
    assert(dec@ =~= section_unmasked(metadata@));
    dec
}

/// What identifies a block under its container's key.
pub fn get_block_key(block: u32, npd: &NpdHeader) -> (dest: [u8; 16])
    ensures
        dest@ == block_id(*npd, block),
{
    let mut dest: [u8; 16] = [0u8; 16];
    if npd.version > 1 {
        let mut i: usize = 0;
        while i < 12
            invariant
                i <= 12,
                forall|j: int| 0 <= j < i ==> #[trigger] dest[j] == npd.dev_hash[j],
            decreases 12 - i,
        {
            dest[i] = npd.dev_hash[i];
            i = i + 1;
        }
    }
    let number: [u8; 4] = npdata::to_be_u32(block);
    assert(number@.len() == 4);
    dest[12] = number[0];
    dest[13] = number[1];
    dest[14] = number[2];
    dest[15] = number[3];
    assert(dest@ =~= block_id(*npd, block));
    dest
}

/// How many blocks the payload is cut into.
pub fn block_count(edat: &EdatHeader) -> (r: Result<u32, Error>)
    ensures
        match r {
            Ok(blocks) => edat.block_size != 0 && blocks == blocks_of(*edat),
            Err(e) => edat.block_size == 0 && e == Error::ZeroBlockSize,
        },
{
    reveal(blocks_of);
    if edat.block_size == 0 {
        return Err(Error::ZeroBlockSize);
    }
    let sum: u64 = edat.file_size.wrapping_add(edat.block_size as u64 - 1);
    let count: u64 = sum / edat.block_size as u64;
    Ok((count % 0x1_0000_0000) as u32)
}

/// How many bytes of metadata a block has.
pub fn metadata_section_size(edat: &EdatHeader) -> (size: u64)
    ensures
        size == section_size(edat.flags),
{
    if (edat.flags & EDAT_COMPRESSED_FLAG) != 0 || (edat.flags & EDAT_FLAG_0X20) != 0 {
        0x20
    } else {
        0x10
    }
}

/// How many payload bytes an uncompressed block holds.
pub(crate) fn chunk_size(edat: &EdatHeader, blocks: u32, i: u32) -> (n: u64)
    requires
        edat.block_size != 0,
        blocks == blocks_of(*edat),
        i < blocks,
    ensures
        n == chunk_len(*edat, i as nat),
        0 < n <= edat.block_size,
{
    let rest: u64 = edat.file_size % edat.block_size as u64;
    if i == blocks - 1 && rest != 0 {
        rest
    } else {
        edat.block_size as u64
    }
}

/// A length rounded up to whole cipher blocks.
pub(crate) fn padded_size(n: u64) -> (m: u64)
    requires
        n <= 0xFFFF_FFFF,
    ensures
        m == padded(n as nat),
        n <= m < n + 16,
        m % 16 == 0,
{
    (n + 15) / 16 * 16
}

/// Where a block's metadata lies.
pub(crate) fn section_offset(edat: &EdatHeader, i: u32) -> (at: u128)
    ensures
        at == section_at(*edat, i as nat),
        at <= 0x2_0000_0000_0000_0000,
{
    let number: u128 = i as u128;
    let size: u128 = edat.block_size as u128;
    assert(number * size <= 0xFFFF_FFFF * 0xFFFF_FFFF) by (nonlinear_arith)
        requires
            number <= 0xFFFF_FFFF,
            size <= 0xFFFF_FFFF,
    ;
    if (edat.flags & EDAT_COMPRESSED_FLAG) != 0 || (edat.flags & EDAT_FLAG_0X20) == 0 {
        let each: u128 = metadata_section_size(edat) as u128;
        if each == 0x20 {
            0x100 + number * 0x20
        } else {
            0x100 + number * 0x10
        }
    } else {
        0x100 + number * size + number * 0x20
    }
}

/// Where a block's data lies.
pub(crate) fn data_offset(edat: &EdatHeader, blocks: u32, i: u32) -> (at: u128)
    requires
        blocks == blocks_of(*edat),
    ensures
        at == data_at(*edat, i as nat),
        at <= 0x2_0000_0000_0000_0000,
{
    let number: u128 = i as u128;
    let size: u128 = edat.block_size as u128;
    assert(number * size <= 0xFFFF_FFFF * 0xFFFF_FFFF) by (nonlinear_arith)
        requires
            number <= 0xFFFF_FFFF,
            size <= 0xFFFF_FFFF,
    ;
    if (edat.flags & EDAT_COMPRESSED_FLAG) != 0 || (edat.flags & EDAT_FLAG_0X20) == 0 {
        let each: u128 = metadata_section_size(edat) as u128;
        if each == 0x20 {
            0x100 + number * size + blocks as u128 * 0x20
        } else {
            0x100 + number * size + blocks as u128 * 0x10
        }
    } else {
        0x100 + number * size + (number + 1) * 0x20
    }
}

/// How blocks are encrypted.
pub(crate) fn crypto_mode_of(flags: u32) -> (mode: u32)
    ensures
        mode == block_crypto_mode(flags),
{
    let algorithm: u32 = if (flags & EDAT_FLAG_0X02) == 0 {
        2
    } else {
        1
    };
    if (flags & EDAT_ENCRYPTED_KEY_FLAG) != 0 {
        algorithm | 0x1000_0000
    } else {
        algorithm
    }
}

/// How blocks are hashed.
pub(crate) fn hash_mode_of(flags: u32) -> (mode: u32)
    ensures
        mode == block_hash_mode(flags),
{
    let algorithm: u32 = if (flags & EDAT_FLAG_0X10) == 0 {
        2
    } else if (flags & EDAT_FLAG_0X20) == 0 {
        4
    } else {
        1
    };
    if (flags & EDAT_ENCRYPTED_KEY_FLAG) != 0 {
        algorithm | 0x1000_0000
    } else {
        algorithm
    }
}

/// The key and the hash key of a block.
pub(crate) fn keys_of_block(flags: u32, npd: &NpdHeader, crypt_key: &[u8; 16], i: u32) -> (r: (
    [u8; 16],
    [u8; 16],
))
    ensures
        r.0@ == block_key(*npd, crypt_key@, i),
        r.1@ == block_hash_key(flags, *npd, crypt_key@, i),
{
    let id: [u8; 16] = get_block_key(i, npd);
    let key: [u8; 16] = aes_ecb128_encrypt_block(crypt_key, &id);
    if (flags & EDAT_FLAG_0X10) != 0 {
        (key, aes_ecb128_encrypt_block(crypt_key, &key))
    } else {
        (key, key)
    }
}

/// The initial vector of every block.
pub(crate) fn iv_of_blocks(npd: &NpdHeader) -> (iv: [u8; 16])
    ensures
        iv@ == block_iv(*npd),
{
    if npd.version <= 1 {
        let zero: [u8; 16] = [0u8; 16];
        assert(zero@ =~= util::zeros(16));
        zero
    } else {
        npd.digest
    }
}

} // verus!
