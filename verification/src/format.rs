//! The container format, described by itself: what each flag says, where the
//! parts of a block lie, and what its bytes are. Nothing here is executed: the
//! laws say that what the library reads and writes is this format.

use vstd::prelude::*;

use crate::blocks;
use crate::constants::{
    KeySet, EDAT_COMPRESSED_FLAG, EDAT_DEBUG_DATA_FLAG, EDAT_ENCRYPTED_KEY_FLAG, EDAT_FLAG_0X02,
    EDAT_FLAG_0X10, EDAT_FLAG_0X20, SDAT_FLAG,
};
use crate::container;
use crate::crypto;
use crate::error::Error;
use crate::hashes;
use crate::image;
use crate::lz;
use crate::npdata;
use crate::npdata::{EdatHeader, HeaderPair, NpdHeader};
use crate::pack;
use crate::primitives;
use crate::unpack;
use crate::unpack::Unpacked;
use crate::util;

verus! {

/// Bit 0: each block's metadata carries its offset and length.
pub open spec fn compressed(flags: u32) -> bool {
    flags % 2 == 1
}

/// Bit 1: the blocks are not encrypted.
pub open spec fn unencrypted(flags: u32) -> bool {
    flags / 2 % 2 == 1
}

/// Bit 3: the keys of a block are unwrapped before use.
pub open spec fn wrapped(flags: u32) -> bool {
    flags / 8 % 2 == 1
}

/// Bit 4: a block's hash key is encrypted once more.
pub open spec fn rehashed(flags: u32) -> bool {
    flags / 16 % 2 == 1
}

/// Bit 5: each block follows its own metadata.
pub open spec fn interleaved(flags: u32) -> bool {
    flags / 32 % 2 == 1
}

/// Bit 24: an SDAT container.
pub open spec fn sdat(flags: u32) -> bool {
    flags / 0x100_0000 % 2 == 1
}

/// Bit 31: the payload lies in the clear.
pub open spec fn clear(flags: u32) -> bool {
    flags / 0x8000_0000 % 2 == 1
}

/// A flag is set where its bit is one.
pub proof fn law_flag_bits(flags: u32)
    ensures
        blocks::flagged(flags, EDAT_COMPRESSED_FLAG) == compressed(flags),
        blocks::flagged(flags, EDAT_FLAG_0X02) == unencrypted(flags),
        blocks::flagged(flags, EDAT_ENCRYPTED_KEY_FLAG) == wrapped(flags),
        blocks::flagged(flags, EDAT_FLAG_0X10) == rehashed(flags),
        blocks::flagged(flags, EDAT_FLAG_0X20) == interleaved(flags),
        blocks::flagged(flags, SDAT_FLAG) == sdat(flags),
        (flags & SDAT_FLAG == SDAT_FLAG) == sdat(flags),
        blocks::flagged(flags, EDAT_DEBUG_DATA_FLAG) == clear(flags),
{
    assert((flags & 1 != 0) == (flags % 2 == 1) && (flags & 2 != 0) == (flags / 2 % 2 == 1) && (flags
        & 8 != 0) == (flags / 8 % 2 == 1) && (flags & 0x10 != 0) == (flags / 16 % 2 == 1) && (flags
        & 0x20 != 0) == (flags / 32 % 2 == 1) && (flags & 0x100_0000 != 0) == (flags / 0x100_0000
        % 2 == 1) && (flags & 0x100_0000 == 0x100_0000) == (flags / 0x100_0000 % 2 == 1) && (flags
        & 0x8000_0000 != 0) == (flags / 0x8000_0000 % 2 == 1)) by (bit_vector);
}

/// A new container has exactly the flags of its version: none in the first, an
/// unwrapping of keys in the others, and interleaved blocks with a second hash
/// key from the third on where they are not compressed. To these come one for
/// SDAT and one where it is not finalized. A number that is no version counts
/// among the later ones.
pub proof fn law_new_flags(version: u32, use_compression: bool, is_edat: bool, is_finalized: bool)
    ensures
        ({
            let flags = container::pack_flags(version, use_compression, is_edat, is_finalized);
            let late = version != 1 && version != 2 && (!use_compression || version == 0);
            &&& flags == (if version == 1 {
                0
            } else {
                0x0Cint
            }) + (if late {
                0x30int
            } else {
                0
            }) + (if use_compression {
                1int
            } else {
                0
            }) + (if is_edat {
                0int
            } else {
                0x100_0000
            }) + (if is_finalized {
                0int
            } else {
                0x8000_0000
            })
            &&& sdat(flags) == !is_edat
            &&& clear(flags) == !is_finalized
            &&& compressed(flags) == use_compression
            &&& !unencrypted(flags)
            &&& wrapped(flags) == (version != 1)
            &&& rehashed(flags) == late
            &&& interleaved(flags) == late
        }),
{
    let flags = container::pack_flags(version, use_compression, is_edat, is_finalized);
    assert(0x00u32 | 0x01 == 0x01 && 0x0Cu32 | 0x01 == 0x0D && 0x3Cu32 | 0x01 == 0x3D)
        by (bit_vector);
    let late = version != 1 && version != 2 && (!use_compression || version == 0);
    let layout: u32 = if version == 1 {
        if use_compression {
            1
        } else {
            0
        }
    } else if late {
        if use_compression {
            0x3D
        } else {
            0x3C
        }
    } else if use_compression {
        0x0D
    } else {
        0x0C
    };
    let format: u32 = if is_edat {
        layout
    } else {
        layout | 0x0100_0000
    };
    assert(format == layout + (if is_edat {
        0u32
    } else {
        0x100_0000
    }) && format | 0x8000_0000 == format + 0x8000_0000) by (bit_vector)
        requires
            layout <= 0x3D,
            format == (if is_edat {
                layout
            } else {
                layout | 0x0100_0000
            }),
    ;
}

/// What identifies a block: from the second version on the first twelve bytes
/// of the dev hash, and the number of the block.
pub open spec fn identity(npd: NpdHeader, i: u32) -> Seq<u8> {
    (if npd.version <= 1 {
        Seq::new(12, |k: int| 0u8)
    } else {
        npd.dev_hash@.subrange(0, 12)
    }) + seq![
        (i / 0x100_0000) as u8,
        (i / 0x1_0000 % 0x100) as u8,
        (i / 0x100 % 0x100) as u8,
        (i % 0x100) as u8,
    ]
}

/// A key as it is used: where the flags say so, decrypted under the wrapping
/// key of the version.
pub open spec fn unwrapped(keys: KeySet, flags: u32, version: u32, key: Seq<u8>) -> Seq<u8> {
    if wrapped(flags) {
        let wrapping = if version == 4 {
            keys.edat_key_1@
        } else {
            keys.edat_key_0@
        };
        crypto::cbc_decrypted(wrapping, keys.edat_iv@, key)
    } else {
        key
    }
}

/// The key that a block's data is encrypted under.
pub open spec fn data_key(keys: KeySet, flags: u32, npd: NpdHeader, key: Seq<u8>, i: u32) -> Seq<u8> {
    unwrapped(keys, flags, npd.version, primitives::aes128_encrypted(key, identity(npd, i)))
}

/// The key that a block's tag is made under.
pub open spec fn tag_key(keys: KeySet, flags: u32, npd: NpdHeader, key: Seq<u8>, i: u32) -> Seq<u8> {
    let first = primitives::aes128_encrypted(key, identity(npd, i));
    unwrapped(
        keys,
        flags,
        npd.version,
        if rehashed(flags) {
            primitives::aes128_encrypted(key, first)
        } else {
            first
        },
    )
}

/// What a block's data is chained to: zeros in the first version, and then the
/// digest of the container.
pub open spec fn first_vector(npd: NpdHeader) -> Seq<u8> {
    if npd.version <= 1 {
        Seq::new(16, |k: int| 0u8)
    } else {
        npd.digest@
    }
}

/// The tag of a block's data as it is stored. Its first sixteen bytes count.
pub open spec fn tag_of(
    keys: KeySet,
    flags: u32,
    npd: NpdHeader,
    key: Seq<u8>,
    i: u32,
    data: Seq<u8>,
) -> Seq<u8> {
    let under = tag_key(keys, flags, npd, key, i);
    if !rehashed(flags) {
        primitives::cmac_aes128(under, data)
    } else if !interleaved(flags) {
        primitives::hmac_sha1(under, data).take(16)
    } else {
        primitives::hmac_sha1(under + seq![0u8, 0, 0, 0], data)
    }
}

proof fn lemma_block_keys(keys: KeySet, flags: u32, npd: NpdHeader, key: Seq<u8>, i: u32)
    ensures
        ({
            let version4 = npd.version == 4;
            &&& blocks::block_id(npd, i) == identity(npd, i)
            &&& blocks::block_iv(npd) == first_vector(npd)
            &&& crypto::derived_key(
                keys,
                blocks::block_crypto_mode(flags),
                version4,
                blocks::block_key(npd, key, i),
                blocks::block_iv(npd),
            ) == Ok::<(Seq<u8>, Seq<u8>), Error>(
                (data_key(keys, flags, npd, key, i), first_vector(npd)),
            )
            &&& crypto::derived_hash(
                keys,
                blocks::block_hash_mode(flags),
                version4,
                blocks::block_hash_key(flags, npd, key, i),
            ) == Ok::<Seq<u8>, Error>(tag_key(keys, flags, npd, key, i))
            &&& blocks::block_crypto_mode(flags) & 0xFF == if unencrypted(flags) {
                1u32
            } else {
                2
            }
            &&& blocks::block_hash_mode(flags) & 0xFF == if !rehashed(flags) {
                2u32
            } else if !interleaved(flags) {
                4
            } else {
                1
            }
        }),
{
    law_flag_bits(flags);
    assert(blocks::block_id(npd, i) =~= identity(npd, i));
    assert(blocks::block_iv(npd) =~= first_vector(npd));
    let crypto = blocks::block_crypto_mode(flags);
    let hash = blocks::block_hash_mode(flags);
    let c: u32 = if unencrypted(flags) {
        1
    } else {
        2
    };
    let h: u32 = if !rehashed(flags) {
        2
    } else if !interleaved(flags) {
        4
    } else {
        1
    };
    assert(c & 0xF000_0000 == 0 && (c | 0x1000_0000) & 0xF000_0000 == 0x1000_0000 && c & 0xFF == c
        && (c | 0x1000_0000) & 0xFF == c && h & 0xF000_0000 == 0 && (h | 0x1000_0000) & 0xF000_0000
        == 0x1000_0000 && h & 0xFF == h && (h | 0x1000_0000) & 0xFF == h) by (bit_vector)
        requires
            c <= 4,
            h <= 4,
    ;
}

/// What a block is stored as: in the clear or not encrypted its bytes as they
/// are, and else their encryption under the block's key, with the tag of what is
/// stored. A block in the clear has no tag.
pub proof fn law_block_sealed(
    keys: KeySet,
    flags: u32,
    npd: NpdHeader,
    key: Seq<u8>,
    i: u32,
    plain: Seq<u8>,
)
    requires
        plain.len() % 16 == 0,
    ensures
        pack::block_sealed(keys, flags, npd, key, i, plain) matches Ok((data, tag)) && {
            &&& data == if clear(flags) || unencrypted(flags) {
                plain
            } else {
                crypto::cbc_encrypted(
                    data_key(keys, flags, npd, key, i),
                    first_vector(npd),
                    plain,
                )
            }
            &&& tag.take(16) == if clear(flags) {
                Seq::new(16, |k: int| 0u8)
            } else {
                tag_of(keys, flags, npd, key, i, data).take(16)
            }
        },
{
    reveal(pack::block_sealed);
    law_flag_bits(flags);
    lemma_block_keys(keys, flags, npd, key, i);
    assert(util::zeros(0x14).take(16) =~= Seq::new(16, |k: int| 0u8));
    assert(util::zeros(4) =~= seq![0u8, 0, 0, 0]);
}

/// What a stored block reads as, and whether its tag is that of the data as it
/// is stored.
pub proof fn law_block_opened(
    keys: KeySet,
    flags: u32,
    npd: NpdHeader,
    key: Seq<u8>,
    i: u32,
    data: Seq<u8>,
    tag: Seq<u8>,
)
    requires
        data.len() % 16 == 0,
    ensures
        unpack::block_opened(keys, flags, npd, key, i, data, tag) matches Ok((plain, ok)) && {
            &&& plain == if clear(flags) || unencrypted(flags) {
                data
            } else {
                crypto::cbc_decrypted(data_key(keys, flags, npd, key, i), first_vector(npd), data)
            }
            &&& ok == (clear(flags) || tag_of(keys, flags, npd, key, i, data).take(16) == tag.take(16))
        },
{
    reveal(unpack::block_opened);
    law_flag_bits(flags);
    lemma_block_keys(keys, flags, npd, key, i);
    assert(util::zeros(4) =~= seq![0u8, 0, 0, 0]);
}

/// Whether a payload of `size` bytes takes `n` blocks: full ones, and a last one
/// that is not empty.
pub open spec fn cuts(size: nat, block: nat, n: nat) -> bool {
    &&& block > 0
    &&& n <= 0xFFFF_FFFF
    &&& size <= n * block
    &&& n > 0 ==> (n - 1) * block < size
    &&& n == 0 ==> size == 0
}

/// How many payload bytes block `i` of an uncompressed container holds.
pub open spec fn piece_len(size: nat, block: nat, i: nat) -> nat {
    if size < (i + 1) * block {
        (size - i * block) as nat
    } else {
        block
    }
}

/// Where the metadata of block `i` lies.
pub open spec fn metadata_at(flags: u32, block: nat, i: nat) -> nat {
    if compressed(flags) {
        0x100 + 32 * i
    } else if interleaved(flags) {
        0x100 + i * (block + 32)
    } else {
        0x100 + 16 * i
    }
}

/// Where the data of block `i` of `n` is written.
pub open spec fn data_at(flags: u32, block: nat, n: nat, i: nat) -> nat {
    if compressed(flags) {
        0x100 + 32 * n + i * block
    } else if interleaved(flags) {
        0x100 + i * (block + 32) + 32
    } else {
        0x100 + 16 * n + i * block
    }
}

proof fn lemma_cuts(edat: EdatHeader, n: nat, i: nat)
    requires
        cuts(edat.file_size as nat, edat.block_size as nat, n),
    ensures
        blocks::blocks_of(edat) == n,
        pack::counted(edat),
        i < n ==> blocks::chunk_len(edat, i) == piece_len(
            edat.file_size as nat,
            edat.block_size as nat,
            i,
        ) && 0 < blocks::chunk_len(edat, i) <= edat.block_size,
{
    let size = edat.file_size as int;
    let block = edat.block_size as int;
    reveal(blocks::blocks_of);
    assert((n - 1) * block == n * block - block) by (nonlinear_arith);
    if n == 0 {
        assert(n * block == 0) by (nonlinear_arith)
            requires
                n == 0,
        ;
    }
    assert(n * block <= 0xFFFF_FFFF * block) by (nonlinear_arith)
        requires
            n <= 0xFFFF_FFFF,
            block > 0,
    ;
    assert(0xFFFF_FFFF * block + block < 0x1_0000_0000_0000_0000) by (nonlinear_arith)
        requires
            0 < block <= 0xFFFF_FFFF,
    ;
    let rest = size + block - 1 - n * block;
    assert(0 <= rest < block);
    vstd::arithmetic::div_mod::lemma_fundamental_div_mod_converse(
        size + block - 1,
        block,
        n as int,
        rest,
    );
    if i < n {
        pack::law_blocks_cover(edat, i);
        assert((i + 1) * block == i * block + block) by (nonlinear_arith);
        if i + 1 < n {
            assert((i + 1) * block <= (n - 1) * block) by (nonlinear_arith)
                requires
                    i + 1 <= n - 1,
                    block > 0,
            ;
        } else {
            assert(i * block == (n - 1) * block) by (nonlinear_arith)
                requires
                    i == n - 1,
            ;
        }
    }
}

proof fn lemma_places(edat: EdatHeader, n: nat, i: nat)
    requires
        cuts(edat.file_size as nat, edat.block_size as nat, n),
        i < n,
    ensures
        blocks::section_at(edat, i) == metadata_at(edat.flags, edat.block_size as nat, i),
        blocks::data_at(edat, i) == data_at(edat.flags, edat.block_size as nat, n, i),
        blocks::section_size(edat.flags) == if compressed(edat.flags) || interleaved(edat.flags) {
            32nat
        } else {
            16
        },
{
    law_flag_bits(edat.flags);
    lemma_cuts(edat, n, i);
    let b = edat.block_size as int;
    assert(i * (b + 32) == i * b + i * 32) by (nonlinear_arith);
}

/// The words of a block's place, hidden under its tag: each is added, without
/// carry, to two words of the tag.
pub open spec fn hidden(tag: Seq<u8>, record: Seq<u8>) -> Seq<u8> {
    Seq::new(
        16,
        |k: int|
            record[k] ^ (if k < 4 {
                tag[k + 12] ^ tag[k + 8]
            } else if k < 8 {
                tag[k] ^ tag[k + 4]
            } else if k < 12 {
                tag[k + 4] ^ tag[k - 8]
            } else {
                tag[k - 8] ^ tag[k - 12]
            }),
    )
}

proof fn lemma_hidden(tag: Seq<u8>, record: Seq<u8>)
    requires
        tag.len() == 16,
        record.len() == 16,
    ensures
        blocks::section_unmasked(tag + hidden(tag, record)) == record,
        blocks::section_unmasked(tag + record) == hidden(tag, record),
{
    let a = tag + hidden(tag, record);
    let b = tag + record;
    assert(a.take(16) =~= tag);
    assert(b.take(16) =~= tag);
    assert forall|k: int| 0 <= k < 16 implies blocks::section_unmasked(a)[k] == record[k]
        && blocks::section_unmasked(b)[k] == hidden(tag, record)[k] by {
        let m = blocks::section_mask(tag)[k];
        let r = record[k];
        assert(m ^ (r ^ m) == r && m ^ r == r ^ m) by (bit_vector);
        assert(a.subrange(16, 32)[k] == hidden(tag, record)[k]);
        assert(b.subrange(16, 32)[k] == record[k]);
        let x = tag[if k < 8 {
            8 + k % 4
        } else {
            k % 4
        }];
        let y = tag[if k / 4 % 2 == 0 {
            12 + k % 4
        } else {
            4 + k % 4
        }];
        assert(x ^ y == y ^ x) by (bit_vector);
    }
    assert(blocks::section_unmasked(a) =~= record);
    assert(blocks::section_unmasked(b) =~= hidden(tag, record));
}

/// A block of a container that is being read.
pub struct Stored {
    /// Its tag.
    pub tag: Seq<u8>,
    /// The upper part of its offset, in a compressed container.
    pub hi: u32,
    /// The lower part of its offset, in a compressed container.
    pub lo: u32,
    /// How many bytes of data count.
    pub length: u32,
    /// Not zero where the data is compressed.
    pub end: u32,
    /// Its data, to the end of the last cipher block.
    pub data: Seq<u8>,
    /// A size under which the data decompresses, where it is compressed.
    pub size: nat,
}

/// Where a block of a compressed container says that its data lies.
pub open spec fn told_offset(b: Stored) -> nat {
    ((b.hi as u64 * 16) as u64 | b.lo as u64) as nat
}

/// The data of a block, decrypted where it is encrypted.
pub open spec fn plain_of(
    keys: KeySet,
    flags: u32,
    npd: NpdHeader,
    key: Seq<u8>,
    i: u32,
    data: Seq<u8>,
) -> Seq<u8> {
    if clear(flags) || unencrypted(flags) {
        data
    } else {
        crypto::cbc_decrypted(data_key(keys, flags, npd, key, i), first_vector(npd), data)
    }
}

/// Whether `part` lies in some bytes from a place on.
pub open spec fn lies_at(bytes: Seq<u8>, at: nat, part: Seq<u8>) -> bool {
    at + part.len() <= bytes.len() && bytes.subrange(at as int, (at + part.len()) as int) == part
}

/// Whether data is `length` bytes, filled up to whole cipher blocks.
pub open spec fn is_filled(data: Seq<u8>, length: nat) -> bool {
    length <= data.len() < length + 16 && data.len() % 16 == 0
}

/// Whether a compressed container holds a block.
pub open spec fn holds_compressed(src: Seq<u8>, i: nat, b: Stored) -> bool {
    &&& b.tag.len() == 16
    &&& lies_at(
        src,
        0x100 + 32 * i,
        b.tag + hidden(
            b.tag,
            util::be_bytes_u32(b.hi) + util::be_bytes_u32(b.lo) + util::be_bytes_u32(b.length)
                + util::be_bytes_u32(b.end),
        ),
    )
    &&& is_filled(b.data, b.length as nat)
    &&& lies_at(src, told_offset(b), b.data)
}

/// Whether a block's plain data stands for a piece of the payload, of which
/// `left` bytes are still promised: its bytes that count or, where it is
/// compressed, what it decompresses to, however long that is. A stream without
/// an end mark is cut off where the promised bytes end.
pub open spec fn stands_for(plain: Seq<u8>, b: Stored, left: nat, piece: Seq<u8>) -> bool {
    if b.end == 0 {
        piece == plain.subrange(0, b.length as int)
    } else {
        &&& lz::decompressed(plain, b.size) == Ok::<Seq<u8>, Error>(piece)
        &&& piece.len() <= left
        &&& piece.len() < b.size || b.size == left
    }
}

proof fn lemma_filled(data: Seq<u8>, length: nat)
    requires
        is_filled(data, length),
    ensures
        data.len() == blocks::padded(length),
{
}

proof fn lemma_told_offset(b: Stored)
    ensures
        told_offset(b) == (((b.hi as u64) << 4u64) | b.lo as u64) as nat,
{
    let hi = b.hi as u64;
    assert(hi << 4u64 == hi * 16) by (bit_vector)
        requires
            hi <= 0xFFFF_FFFF,
    ;
}

proof fn lemma_words(a: u32, b: u32, c: u32, d: u32)
    ensures
        ({
            let r = util::be_bytes_u32(a) + util::be_bytes_u32(b) + util::be_bytes_u32(c)
                + util::be_bytes_u32(d);
            &&& r.len() == 16
            &&& util::be_u32(r) == a
            &&& util::be_u32(r.skip(4)) == b
            &&& util::be_u32(r.skip(8)) == c
            &&& util::be_u32(r.skip(12)) == d
        }),
{
    util::law_be_u32_round_trip(a);
    util::law_be_u32_round_trip(b);
    util::law_be_u32_round_trip(c);
    util::law_be_u32_round_trip(d);
    let r = util::be_bytes_u32(a) + util::be_bytes_u32(b) + util::be_bytes_u32(c)
        + util::be_bytes_u32(d);
    assert(util::be_u32(r) == util::be_u32(util::be_bytes_u32(a)));
    assert(util::be_u32(r.skip(4)) == util::be_u32(util::be_bytes_u32(b)));
    assert(util::be_u32(r.skip(8)) == util::be_u32(util::be_bytes_u32(c)));
    assert(util::be_u32(r.skip(12)) == util::be_u32(util::be_bytes_u32(d)));
}

/// Whether a report says what a block is.
pub open spec fn reports(
    r: unpack::BlockReport,
    offset: nat,
    b: Stored,
    tag_ok: bool,
    piece: Seq<u8>,
    left: nat,
) -> bool {
    &&& r.offset == offset
    &&& r.length == b.length
    &&& r.tag_ok == tag_ok
    &&& r.packed == (b.end != 0)
    &&& r.unpacked == if b.end != 0 {
        Some(piece.len() as u64)
    } else {
        None
    }
    &&& r.left == left
}

/// A block of a compressed container adds the piece that it stands for, and only
/// a compressed block uses up promised bytes, as many as it decompresses to.
#[verifier::rlimit(40)]
pub proof fn law_compressed_block(
    keys: KeySet,
    src: Seq<u8>,
    edat: EdatHeader,
    npd: NpdHeader,
    key: Seq<u8>,
    i: nat,
    s: Unpacked,
    b: Stored,
    piece: Seq<u8>,
)
    requires
        compressed(edat.flags),
        i <= 0xFFFF_FFFF,
        s.left <= usize::MAX,
        holds_compressed(src, i, b),
        stands_for(
            plain_of(keys, edat.flags, npd, key, i as u32, b.data),
            b,
            s.left as nat,
            piece,
        ),
    ensures
        ({
            let (t, result) = unpack::block_unpacked(keys, src, edat, npd, key, i, s);
            &&& result is Ok
            &&& t.out == s.out + piece
            &&& t.left == s.left - (if b.end != 0 {
                piece.len()
            } else {
                0
            })
            &&& t.log.len() == s.log.len() + 1
            &&& t.log.take(s.log.len() as int) == s.log
            &&& reports(
                t.log.last(),
                told_offset(b),
                b,
                clear(edat.flags) || tag_of(keys, edat.flags, npd, key, i as u32, b.data).take(16)
                    == b.tag,
                piece,
                t.left as nat,
            )
        }),
{
    reveal(unpack::block_unpacked);
    law_flag_bits(edat.flags);
    let record = util::be_bytes_u32(b.hi) + util::be_bytes_u32(b.lo) + util::be_bytes_u32(b.length)
        + util::be_bytes_u32(b.end);
    lemma_words(b.hi, b.lo, b.length, b.end);
    lemma_hidden(b.tag, record);
    let m = b.tag + hidden(b.tag, record);
    assert(m.take(16) =~= b.tag);
    assert(blocks::section_at(edat, i) == 0x100 + 32 * i);
    assert(image::read_at(src, blocks::section_at(edat, i) as int, 32) == Some(m));
    lemma_told_offset(b);
    lemma_filled(b.data, b.length as nat);
    let p = unpack::placed(src, edat, i)->Some_0;
    assert(p.offset == told_offset(b) && p.length == b.length && p.tag == b.tag);
    assert(b.data.len() == 0 ==> b.data =~= Seq::empty());
    assert(image::read_at(src, p.offset as int, blocks::padded(p.length) as int) == Some(b.data));
    law_block_opened(keys, edat.flags, npd, key, i as u32, b.data, b.tag);
    assert(b.tag.take(16) =~= b.tag);
    let plain = plain_of(keys, edat.flags, npd, key, i as u32, b.data);
    if b.end != 0 {
        lz::law_size_is_a_limit(plain, b.size, s.left as nat);
        lz::law_decompressed_fits(plain, b.size);
    } else {
        assert(plain.take(b.length as int) == plain.subrange(0, b.length as int));
    }
    let t = unpack::block_unpacked(keys, src, edat, npd, key, i, s).0;
    assert(t.log.take(s.log.len() as int) =~= s.log);
}

/// Whether an uncompressed container holds a block.
pub open spec fn holds_plain(src: Seq<u8>, edat: EdatHeader, n: nat, i: nat, b: Stored) -> bool {
    let block = edat.block_size as nat;
    &&& b.end == 0
    &&& b.length == piece_len(edat.file_size as nat, block, i)
    &&& b.tag.len() == 16
    &&& metadata_at(edat.flags, block, i) + (if interleaved(edat.flags) {
        32nat
    } else {
        16
    }) <= src.len()
    &&& forall|k: int|
        #![trigger b.tag[k]]
        0 <= k < 16 ==> b.tag[k] == if interleaved(edat.flags) {
            src[metadata_at(edat.flags, block, i) + k] ^ src[metadata_at(edat.flags, block, i) + 16
                + k]
        } else {
            src[metadata_at(edat.flags, block, i) + k]
        }
    &&& is_filled(b.data, b.length as nat)
    &&& lies_at(src, data_at(edat.flags, block, n, i), b.data)
}

/// A block of an uncompressed container adds its part of the payload.
#[verifier::rlimit(40)]
pub proof fn law_plain_block(
    keys: KeySet,
    src: Seq<u8>,
    edat: EdatHeader,
    npd: NpdHeader,
    key: Seq<u8>,
    n: nat,
    i: nat,
    s: Unpacked,
    b: Stored,
)
    requires
        !compressed(edat.flags),
        cuts(edat.file_size as nat, edat.block_size as nat, n),
        i < n,
        holds_plain(src, edat, n, i, b),
    ensures
        ({
            let (t, result) = unpack::block_unpacked(keys, src, edat, npd, key, i, s);
            let plain = plain_of(keys, edat.flags, npd, key, i as u32, b.data);
            &&& result is Ok
            &&& t.out == s.out + plain.subrange(0, b.length as int)
            &&& t.left == s.left
            &&& t.log.len() == s.log.len() + 1
            &&& t.log.take(s.log.len() as int) == s.log
            &&& data_at(edat.flags, edat.block_size as nat, n, i) <= u64::MAX ==> reports(
                t.log.last(),
                data_at(edat.flags, edat.block_size as nat, n, i),
                b,
                clear(edat.flags) || tag_of(keys, edat.flags, npd, key, i as u32, b.data).take(16)
                    == b.tag,
                plain,
                t.left as nat,
            )
        }),
{
    reveal(unpack::block_unpacked);
    law_flag_bits(edat.flags);
    lemma_cuts(edat, n, i);
    lemma_places(edat, n, i);
    let at = blocks::section_at(edat, i) as int;
    let ss = blocks::section_size(edat.flags) as int;
    let m = src.subrange(at, at + ss);
    assert(image::read_at(src, at, ss) == Some(m));
    let p = unpack::placed(src, edat, i)->Some_0;
    if interleaved(edat.flags) {
        assert forall|k: int| 0 <= k < 16 implies p.tag[k] == b.tag[k] by {
            assert(m.take(16)[k] == src[at + k]);
            assert(m.skip(16)[k] == src[at + 16 + k]);
        }
    } else {
        assert forall|k: int| 0 <= k < 16 implies p.tag[k] == b.tag[k] by {
            assert(m[k] == src[at + k]);
        }
    }
    assert(p.tag =~= b.tag);
    lemma_filled(b.data, b.length as nat);
    assert(b.data.len() == 0 ==> b.data =~= Seq::empty());
    assert(image::read_at(src, p.offset as int, blocks::padded(p.length) as int) == Some(b.data));
    law_block_opened(keys, edat.flags, npd, key, i as u32, b.data, b.tag);
    assert(b.tag.take(16) =~= b.tag);
    let t = unpack::block_unpacked(keys, src, edat, npd, key, i, s).0;
    assert(t.log.take(s.log.len() as int) =~= s.log);
}

/// Whether block `i` of `n` is held by a container and stands for a piece of its
/// payload, where `left` bytes are still promised.
pub open spec fn block_reads(
    keys: KeySet,
    src: Seq<u8>,
    edat: EdatHeader,
    npd: NpdHeader,
    key: Seq<u8>,
    n: nat,
    i: nat,
    b: Stored,
    left: nat,
    piece: Seq<u8>,
) -> bool {
    &&& if compressed(edat.flags) {
        holds_compressed(src, i, b)
    } else {
        holds_plain(src, edat, n, i, b)
    }
    &&& stands_for(plain_of(keys, edat.flags, npd, key, i as u32, b.data), b, left, piece)
}

/// The pieces from number `i` on, joined.
pub open spec fn joined(pieces: Seq<Seq<u8>>, i: nat) -> Seq<u8>
    decreases pieces.len() - i,
{
    if i >= pieces.len() {
        Seq::empty()
    } else {
        pieces[i as int] + joined(pieces, i + 1)
    }
}

/// How many bytes are still promised before block `i`.
pub open spec fn promised(left: nat, stored: Seq<Stored>, pieces: Seq<Seq<u8>>, i: nat) -> nat
    decreases i,
{
    if i == 0 {
        left
    } else {
        let before = promised(left, stored, pieces, (i - 1) as nat);
        if stored[i - 1].end != 0 {
            (before - pieces[i - 1].len()) as nat
        } else {
            before
        }
    }
}

#[verifier::rlimit(40)]
proof fn lemma_payload_from(
    keys: KeySet,
    src: Seq<u8>,
    edat: EdatHeader,
    npd: NpdHeader,
    key: Seq<u8>,
    stored: Seq<Stored>,
    pieces: Seq<Seq<u8>>,
    first: nat,
    i: nat,
    s: Unpacked,
)
    requires
        cuts(edat.file_size as nat, edat.block_size as nat, stored.len()),
        pieces.len() == stored.len(),
        s.left == promised(first, stored, pieces, i),
        s.left <= usize::MAX,
        i <= stored.len(),
        forall|j: nat|
            j < stored.len() ==> #[trigger] block_reads(
                keys,
                src,
                edat,
                npd,
                key,
                stored.len(),
                j,
                stored[j as int],
                promised(first, stored, pieces, j),
                pieces[j as int],
            ),
    ensures
        ({
            let (t, result) = unpack::unpacked_from(keys, src, edat, npd, key, i, s);
            &&& result is Ok
            &&& t.out == s.out + joined(pieces, i)
            &&& t.left == promised(first, stored, pieces, stored.len())
            &&& t.log.len() == s.log.len() + (stored.len() - i)
        }),
    decreases stored.len() - i,
{
    let n = stored.len();
    lemma_cuts(edat, n, i);
    if i < n {
        let b = stored[i as int];
        let piece = pieces[i as int];
        assert(block_reads(
            keys,
            src,
            edat,
            npd,
            key,
            n,
            i,
            b,
            promised(first, stored, pieces, i),
            piece,
        ));
        let (t, result) = unpack::block_unpacked(keys, src, edat, npd, key, i, s);
        if compressed(edat.flags) {
            law_compressed_block(keys, src, edat, npd, key, i, s, b, piece);
        } else {
            law_plain_block(keys, src, edat, npd, key, n, i, s, b);
        }
        lemma_payload_from(
            keys,
            src,
            edat,
            npd,
            key,
            stored,
            pieces,
            first,
            i + 1,
            t,
        );
        assert(s.out + (piece + joined(pieces, i + 1)) =~= s.out + piece + joined(pieces, i + 1));
    } else {
        assert(s.out + joined(pieces, i) =~= s.out);
    }
}

/// Reading a container gives the pieces that its blocks stand for, one after the
/// other, wherever it holds them.
pub proof fn law_payload_read(
    keys: KeySet,
    src: Seq<u8>,
    edat: EdatHeader,
    npd: NpdHeader,
    key: Seq<u8>,
    stored: Seq<Stored>,
    pieces: Seq<Seq<u8>>,
    s: Unpacked,
)
    requires
        cuts(edat.file_size as nat, edat.block_size as nat, stored.len()),
        pieces.len() == stored.len(),
        s.left <= usize::MAX,
        forall|j: nat|
            j < stored.len() ==> #[trigger] block_reads(
                keys,
                src,
                edat,
                npd,
                key,
                stored.len(),
                j,
                stored[j as int],
                promised(s.left as nat, stored, pieces, j),
                pieces[j as int],
            ),
    ensures
        ({
            let (t, result) = unpack::unpacked(keys, src, edat, npd, key, s);
            &&& result is Ok
            &&& t.out == s.out + joined(pieces, 0)
            &&& t.left == promised(s.left as nat, stored, pieces, stored.len())
            &&& t.log.len() == s.log.len() + stored.len()
        }),
{
    lemma_payload_from(keys, src, edat, npd, key, stored, pieces, s.left as nat, 0, s);
}

/// The payload bytes of block `i`, filled up with zeros to whole cipher blocks.
pub open spec fn filled_piece(src: Seq<u8>, size: nat, block: nat, i: nat) -> Seq<u8> {
    let length = piece_len(size, block, i);
    Seq::new(
        if length % 16 == 0 {
            length
        } else {
            (length + 16 - length % 16) as nat
        },
        |k: int|
            if k < length {
                src[i * block + k]
            } else {
                0
            },
    )
}

/// The data of block `i` as a container stores it.
#[verifier::opaque]
pub open spec fn stored_data(
    keys: KeySet,
    src: Seq<u8>,
    edat: EdatHeader,
    npd: NpdHeader,
    key: Seq<u8>,
    i: nat,
) -> Seq<u8> {
    let plain = filled_piece(src, edat.file_size as nat, edat.block_size as nat, i);
    if clear(edat.flags) || unencrypted(edat.flags) {
        plain
    } else {
        crypto::cbc_encrypted(
            data_key(keys, edat.flags, npd, key, i as u32),
            first_vector(npd),
            plain,
        )
    }
}

/// The metadata of block `i` of `n` as a container stores it: the tag; in a
/// compressed container also the offset, the length and a mark of zero, hidden
/// from the second version on; and, interleaved, the tag under a mask, and the
/// mask.
#[verifier::opaque]
pub open spec fn stored_metadata(
    keys: KeySet,
    src: Seq<u8>,
    edat: EdatHeader,
    npd: NpdHeader,
    key: Seq<u8>,
    masks: Seq<[u8; 16]>,
    n: nat,
    i: nat,
) -> Seq<u8> {
    let block = edat.block_size as nat;
    let tag = tag_of(
        keys,
        edat.flags,
        npd,
        key,
        i as u32,
        stored_data(keys, src, edat, npd, key, i),
    ).take(16);
    if compressed(edat.flags) {
        let at = data_at(edat.flags, block, n, i);
        let record = util::be_bytes_u32((at / 0x1_0000_0000) as u32) + util::be_bytes_u32(
            (at % 0x1_0000_0000) as u32,
        ) + util::be_bytes_u32(piece_len(edat.file_size as nat, block, i) as u32) + seq![
            0u8,
            0,
            0,
            0,
        ];
        if npd.version <= 1 {
            tag + record
        } else {
            tag + hidden(tag, record)
        }
    } else if interleaved(edat.flags) {
        Seq::new(16, |k: int| tag[k] ^ masks[i as int]@[k]) + masks[i as int]@
    } else {
        tag
    }
}

/// The bytes that end a container: `EDATA packager`, `EDATA 2.4.0.W`,
/// `EDATA 3.3.0.W` or `EDATA 4.0.0.W`, and the same with `SDATA`.
pub open spec fn ending(version: u32, is_sdat: bool) -> Seq<u8> {
    seq![
        if is_sdat {
            'S' as u8
        } else {
            'E' as u8
        },
        'D' as u8,
        'A' as u8,
        'T' as u8,
        'A' as u8,
        ' ' as u8,
    ] + (if version <= 1 {
        seq![
            'p' as u8,
            'a' as u8,
            'c' as u8,
            'k' as u8,
            'a' as u8,
            'g' as u8,
            'e' as u8,
            'r' as u8,
            0u8,
            0u8,
        ]
    } else {
        seq![
            if version == 2 {
                '2' as u8
            } else if version == 3 {
                '3' as u8
            } else {
                '4' as u8
            },
            '.' as u8,
            if version == 2 {
                '4' as u8
            } else if version == 3 {
                '3' as u8
            } else {
                '0' as u8
            },
            '.' as u8,
            '0' as u8,
            '.' as u8,
            'W' as u8,
            0u8,
            0u8,
            0u8,
        ]
    })
}

/// Whether the place of block `i` of `n` fits its 64 bits, the cipher keeps the
/// length of the block, and the hash makes a whole tag of it.
pub open spec fn seals_whole(
    keys: KeySet,
    src: Seq<u8>,
    edat: EdatHeader,
    npd: NpdHeader,
    key: Seq<u8>,
    n: nat,
    i: nat,
) -> bool {
    let data = stored_data(keys, src, edat, npd, key, i);
    &&& data_at(edat.flags, edat.block_size as nat, n, i) <= u64::MAX
    &&& data.len() == filled_piece(src, edat.file_size as nat, edat.block_size as nat, i).len()
    &&& tag_of(keys, edat.flags, npd, key, i as u32, data).len() >= 16
}

/// Whether a container holds block `i` of `n` as the format has it.
pub open spec fn block_written(
    bytes: Seq<u8>,
    keys: KeySet,
    src: Seq<u8>,
    edat: EdatHeader,
    npd: NpdHeader,
    key: Seq<u8>,
    masks: Seq<[u8; 16]>,
    n: nat,
    i: nat,
) -> bool {
    let block = edat.block_size as nat;
    &&& lies_at(
        bytes,
        data_at(edat.flags, block, n, i),
        stored_data(keys, src, edat, npd, key, i),
    )
    &&& !clear(edat.flags) ==> lies_at(
        bytes,
        metadata_at(edat.flags, block, i),
        stored_metadata(keys, src, edat, npd, key, masks, n, i),
    )
}

proof fn lemma_lies_elsewhere(bytes: Seq<u8>, at: nat, data: Seq<u8>, from: nat, part: Seq<u8>)
    requires
        lies_at(bytes, from, part),
        from + part.len() <= at || at + data.len() <= from,
    ensures
        lies_at(image::overlaid(bytes, at as int, data), from, part),
{
    let after = image::overlaid(bytes, at as int, data);
    if data.len() > 0 {
        assert(after.subrange(from as int, (from + part.len()) as int) =~= bytes.subrange(
            from as int,
            (from + part.len()) as int,
        ));
    }
}

proof fn lemma_lies_written(bytes: Seq<u8>, at: nat, data: Seq<u8>)
    requires
        data.len() > 0,
    ensures
        lies_at(image::overlaid(bytes, at as int, data), at, data),
{
    assert(image::overlaid(bytes, at as int, data).subrange(
        at as int,
        (at + data.len()) as int,
    ) =~= data);
}

proof fn lemma_filled_piece(src: Seq<u8>, edat: EdatHeader, n: nat, i: nat)
    requires
        cuts(edat.file_size as nat, edat.block_size as nat, n),
        i < n,
        edat.file_size <= src.len(),
    ensures
        pack::chunk(src, edat, i) matches Some(bytes) && pack::zero_padded(bytes) == filled_piece(
            src,
            edat.file_size as nat,
            edat.block_size as nat,
            i,
        ),
        filled_piece(src, edat.file_size as nat, edat.block_size as nat, i).len()
            == blocks::padded(blocks::chunk_len(edat, i)),
        blocks::padded(blocks::chunk_len(edat, i)) % 16 == 0,
        blocks::padded(blocks::chunk_len(edat, i)) > 0,
{
    lemma_cuts(edat, n, i);
    pack::law_blocks_cover(edat, i);
    let block = edat.block_size as nat;
    let length = blocks::chunk_len(edat, i);
    assert(i * block + length <= edat.file_size);
    let piece = filled_piece(src, edat.file_size as nat, block, i);
    assert(piece.len() == blocks::padded(length));
    let bytes = src.subrange((i * block) as int, (i * block + length) as int);
    assert(pack::chunk(src, edat, i) == Some(bytes));
    assert(pack::zero_padded(bytes) =~= piece);
}

/// What writing one block leaves in a container: its data and its metadata at
/// their places, and what lay before its data and apart from its metadata.
#[verifier::rlimit(40)]
pub proof fn law_block_written(
    keys: KeySet,
    src: Seq<u8>,
    edat: EdatHeader,
    npd: NpdHeader,
    key: Seq<u8>,
    masks: Seq<[u8; 16]>,
    n: nat,
    i: nat,
    tape: image::Tape,
) -> (t: image::Tape)
    requires
        cuts(edat.file_size as nat, edat.block_size as nat, n),
        i < n,
        edat.file_size <= src.len(),
        seals_whole(keys, src, edat, npd, key, n, i),
    ensures
        pack::block_packed(keys, src, edat, npd, key, masks, i, tape) == Ok::<image::Tape, Error>(
            t,
        ),
        block_written(t.bytes, keys, src, edat, npd, key, masks, n, i),
        t.pos == data_at(edat.flags, edat.block_size as nat, n, i) + filled_piece(
            src,
            edat.file_size as nat,
            edat.block_size as nat,
            i,
        ).len(),
        forall|from: nat, part: Seq<u8>|
            #![trigger lies_at(t.bytes, from, part)]
            lies_at(tape.bytes, from, part) && (from + part.len() <= metadata_at(
                edat.flags,
                edat.block_size as nat,
                i,
            ) || metadata_at(edat.flags, edat.block_size as nat, i) + blocks::section_size(
                edat.flags,
            ) <= from) && from + part.len() <= data_at(edat.flags, edat.block_size as nat, n, i)
                ==> lies_at(t.bytes, from, part),
{
    reveal(pack::block_packed);
    reveal(pack::block_stored);
    reveal(pack::section);
    reveal(stored_data);
    reveal(stored_metadata);
    law_flag_bits(edat.flags);
    lemma_cuts(edat, n, i);
    lemma_places(edat, n, i);
    lemma_filled_piece(src, edat, n, i);
    pack::lemma_section_first(edat, i);
    let block = edat.block_size as nat;
    let plain = filled_piece(src, edat.file_size as nat, block, i);
    law_block_sealed(keys, edat.flags, npd, key, i as u32, plain);
    let (data, tag) = pack::block_sealed(keys, edat.flags, npd, key, i as u32, plain)->Ok_0;
    assert(data == stored_data(keys, src, edat, npd, key, i));
    let short = tag.take(16);
    let mask = pack::mask_of(edat, masks, i);
    let m = pack::section(edat, npd, i, tag, mask);
    let want = stored_metadata(keys, src, edat, npd, key, masks, n, i);
    let from = metadata_at(edat.flags, block, i);
    let at = data_at(edat.flags, block, n, i);
    if !clear(edat.flags) {
        assert(short == tag_of(keys, edat.flags, npd, key, i as u32, data).take(16));
        assert(short.len() == 16);
        if compressed(edat.flags) {
            let record = util::be_bytes_u32((at / 0x1_0000_0000) as u32) + util::be_bytes_u32(
                (at % 0x1_0000_0000) as u32,
            ) + util::be_bytes_u32(piece_len(edat.file_size as nat, block, i) as u32) + seq![
                0u8,
                0,
                0,
                0,
            ];
            assert(record =~= pack::place_record(edat, i));
            lemma_hidden(short, record);
        } else if interleaved(edat.flags) {
            assert(util::xor_bytes(short, mask) =~= Seq::new(
                16,
                |k: int| short[k] ^ masks[i as int]@[k],
            ));
        }
        assert(m == want);
        assert(m.len() == blocks::section_size(edat.flags));
        lemma_lies_written(tape.bytes, from, m);
        lemma_lies_written(image::overlaid(tape.bytes, from as int, m), at, data);
        lemma_lies_elsewhere(image::overlaid(tape.bytes, from as int, m), at, data, from, m);
    } else {
        lemma_lies_written(tape.bytes, at, data);
    }
    let t = pack::block_packed(keys, src, edat, npd, key, masks, i, tape)->Ok_0;
    assert forall|place: nat, part: Seq<u8>|
        #![trigger lies_at(t.bytes, place, part)]
        lies_at(tape.bytes, place, part) && (place + part.len() <= from || from
            + blocks::section_size(edat.flags) <= place) && place + part.len() <= at implies lies_at(
        t.bytes,
        place,
        part,
    ) by {
        if !clear(edat.flags) {
            lemma_lies_elsewhere(tape.bytes, from, m, place, part);
            lemma_lies_elsewhere(
                image::overlaid(tape.bytes, from as int, m),
                at,
                data,
                place,
                part,
            );
        } else {
            lemma_lies_elsewhere(tape.bytes, at, data, place, part);
        }
    }
    t
}

/// Where the data of block `i` of `n` ends, filling and all.
pub open spec fn data_ends(src: Seq<u8>, edat: EdatHeader, n: nat, i: nat) -> nat {
    data_at(edat.flags, edat.block_size as nat, n, i) + filled_piece(
        src,
        edat.file_size as nat,
        edat.block_size as nat,
        i,
    ).len()
}

#[verifier::rlimit(40)]
proof fn lemma_blocks_written_from(
    keys: KeySet,
    src: Seq<u8>,
    edat: EdatHeader,
    npd: NpdHeader,
    key: Seq<u8>,
    masks: Seq<[u8; 16]>,
    n: nat,
    i: nat,
    tape: image::Tape,
    head: Seq<u8>,
)
    requires
        cuts(edat.file_size as nat, edat.block_size as nat, n),
        edat.block_size % 16 == 0 || n <= 1,
        edat.file_size <= src.len(),
        i <= n,
        forall|j: nat| j < n ==> #[trigger] seals_whole(keys, src, edat, npd, key, n, j),
        forall|j: nat|
            j < i ==> #[trigger] block_written(
                tape.bytes,
                keys,
                src,
                edat,
                npd,
                key,
                masks,
                n,
                j,
            ),
        lies_at(tape.bytes, 0, head),
        head.len() <= 0x100,
        i > 0 ==> tape.pos == data_ends(src, edat, n, (i - 1) as nat),
    ensures
        ({
            let (t, result) = pack::packed_from(keys, src, edat, npd, key, masks, i, tape);
            &&& result is Ok
            &&& forall|j: nat|
                j < n ==> #[trigger] block_written(
                    t.bytes,
                    keys,
                    src,
                    edat,
                    npd,
                    key,
                    masks,
                    n,
                    j,
                )
            &&& lies_at(t.bytes, 0, head)
            &&& n > 0 ==> t.pos == data_ends(src, edat, n, (n - 1) as nat)
        }),
    decreases n - i,
{
    lemma_cuts(edat, n, i);
    if i < n {
        assert(seals_whole(keys, src, edat, npd, key, n, i));
        let t = law_block_written(keys, src, edat, npd, key, masks, n, i, tape);
        let block = edat.block_size as nat;
        lemma_places(edat, n, i);
        pack::lemma_ends(edat, i);
        assert(lies_at(t.bytes, 0, head));
        assert forall|j: nat| j < i + 1 implies #[trigger] block_written(
            t.bytes,
            keys,
            src,
            edat,
            npd,
            key,
            masks,
            n,
            j,
        ) by {
            if j < i {
                assert(block_written(tape.bytes, keys, src, edat, npd, key, masks, n, j));
                assert(seals_whole(keys, src, edat, npd, key, n, j));
                lemma_places(edat, n, j);
                lemma_cuts(edat, n, j);
                lemma_filled_piece(src, edat, n, j);
                pack::lemma_apart(edat, j, i);
                lemma_metadata_len(keys, src, edat, npd, key, masks, n, j);
                assert(lies_at(
                    t.bytes,
                    data_at(edat.flags, block, n, j),
                    stored_data(keys, src, edat, npd, key, j),
                ));
                if !clear(edat.flags) {
                    assert(lies_at(
                        t.bytes,
                        metadata_at(edat.flags, block, j),
                        stored_metadata(keys, src, edat, npd, key, masks, n, j),
                    ));
                }
            }
        }
        lemma_blocks_written_from(keys, src, edat, npd, key, masks, n, i + 1, t, head);
    }
}

proof fn lemma_metadata_len(
    keys: KeySet,
    src: Seq<u8>,
    edat: EdatHeader,
    npd: NpdHeader,
    key: Seq<u8>,
    masks: Seq<[u8; 16]>,
    n: nat,
    i: nat,
)
    requires
        cuts(edat.file_size as nat, edat.block_size as nat, n),
        i < n,
        seals_whole(keys, src, edat, npd, key, n, i),
    ensures
        stored_metadata(keys, src, edat, npd, key, masks, n, i).len() == blocks::section_size(
            edat.flags,
        ),
{
    reveal(stored_metadata);
    lemma_places(edat, n, i);
}

/// The ending leaves the blocks before it as they are.
proof fn lemma_ending_apart(
    keys: KeySet,
    bytes: Seq<u8>,
    src: Seq<u8>,
    edat: EdatHeader,
    npd: NpdHeader,
    key: Seq<u8>,
    masks: Seq<[u8; 16]>,
    n: nat,
    j: nat,
    last: Seq<u8>,
)
    requires
        cuts(edat.file_size as nat, edat.block_size as nat, n),
        edat.block_size % 16 == 0 || n <= 1,
        edat.file_size <= src.len(),
        j < n,
        seals_whole(keys, src, edat, npd, key, n, j),
        block_written(bytes, keys, src, edat, npd, key, masks, n, j),
    ensures
        block_written(
            image::overlaid(bytes, data_ends(src, edat, n, (n - 1) as nat) as int, last),
            keys,
            src,
            edat,
            npd,
            key,
            masks,
            n,
            j,
        ),
{
    let end = data_ends(src, edat, n, (n - 1) as nat);
    let block = edat.block_size as nat;
    lemma_places(edat, n, j);
    lemma_places(edat, n, (n - 1) as nat);
    lemma_filled_piece(src, edat, n, j);
    lemma_filled_piece(src, edat, n, (n - 1) as nat);
    lemma_cuts(edat, n, j);
    pack::lemma_apart(edat, j, (n - 1) as nat);
    pack::lemma_apart(edat, j, j);
    lemma_metadata_len(keys, src, edat, npd, key, masks, n, j);
    lemma_lies_elsewhere(
        bytes,
        end,
        last,
        data_at(edat.flags, block, n, j),
        stored_data(keys, src, edat, npd, key, j),
    );
    if !clear(edat.flags) {
        lemma_lies_elsewhere(
            bytes,
            end,
            last,
            metadata_at(edat.flags, block, j),
            stored_metadata(keys, src, edat, npd, key, masks, n, j),
        );
    }
}

/// What writing a payload leaves: for each block its encrypted data and, unless it
/// lies in the clear, its metadata, each at its place; the ending behind the last
/// block; and, below 0x100, what was there.
#[verifier::rlimit(40)]
pub proof fn law_container_written(
    keys: KeySet,
    src: Seq<u8>,
    edat: EdatHeader,
    npd: NpdHeader,
    key: Seq<u8>,
    masks: Seq<[u8; 16]>,
    n: nat,
    tape: image::Tape,
    head: Seq<u8>,
)
    requires
        cuts(edat.file_size as nat, edat.block_size as nat, n),
        edat.block_size % 16 == 0 || n <= 1,
        edat.file_size <= src.len(),
        forall|j: nat| j < n ==> #[trigger] seals_whole(keys, src, edat, npd, key, n, j),
        lies_at(tape.bytes, 0, head),
        head.len() <= 0x100,
    ensures
        ({
            let (t, result) = pack::packed(keys, src, edat, npd, key, masks, tape);
            let end = if n == 0 {
                0x100
            } else {
                data_ends(src, edat, n, (n - 1) as nat)
            };
            &&& result is Ok
            &&& forall|j: nat|
                j < n ==> #[trigger] block_written(
                    t.bytes,
                    keys,
                    src,
                    edat,
                    npd,
                    key,
                    masks,
                    n,
                    j,
                )
            &&& lies_at(t.bytes, 0, head)
            &&& lies_at(t.bytes, end, ending(npd.version, sdat(edat.flags)))
            &&& t.pos == end + 16
        }),
{
    reveal(pack::packed);
    law_flag_bits(edat.flags);
    lemma_blocks_written_from(keys, src, edat, npd, key, masks, n, 0, tape, head);
    let (t, _) = pack::packed_from(keys, src, edat, npd, key, masks, 0, tape);
    let last = ending(npd.version, sdat(edat.flags));
    assert(pack::footer(npd.version, sdat(edat.flags)) =~= last);
    let block = edat.block_size as nat;
    lemma_cuts(edat, n, 0);
    if n == 0 {
        assert(n * block == 0) by (nonlinear_arith)
            requires
                n == 0,
        ;
    } else {
        assert((n - 1) * block >= 0) by (nonlinear_arith)
            requires
                n >= 1,
        ;
    }
    let end = if n == 0 {
        0x100
    } else {
        data_ends(src, edat, n, (n - 1) as nat)
    };
    let after = image::overlaid(t.bytes, end as int, last);
    lemma_lies_written(t.bytes, end, last);
    if n > 0 {
        lemma_places(edat, n, (n - 1) as nat);
        pack::lemma_ends(edat, (n - 1) as nat);
    }
    lemma_lies_elsewhere(t.bytes, end, last, 0, head);
    assert forall|j: nat| j < n implies #[trigger] block_written(
        after,
        keys,
        src,
        edat,
        npd,
        key,
        masks,
        n,
        j,
    ) by {
        assert(block_written(t.bytes, keys, src, edat, npd, key, masks, n, j));
        assert(seals_whole(keys, src, edat, npd, key, n, j));
        lemma_ending_apart(keys, t.bytes, src, edat, npd, key, masks, n, j, last);
    }
}

/// A version defines the flags of its low bits, one in the first, five in the
/// second and six in the later ones, and the two for SDAT and for the clear; a
/// container with any other flag set is refused.
pub proof fn law_known_flags(version: u32, flags: u32)
    ensures
        ({
            let low = flags % 0x100_0000;
            let high = flags / 0x100_0000;
            let known = (high == 0 || high == 1 || high == 0x80 || high == 0x81) && low < (if version
                <= 1 {
                2
            } else if version == 2 {
                32
            } else {
                64u32
            });
            match hashes::flags_checked(version, flags) {
                Ok(_) => version <= 4 && known,
                Err(e) => if version > 4 {
                    e == Error::UnknownVersion { version }
                } else {
                    !known && e == Error::BadFlags { version }
                },
            }
        }),
{
    let low = flags % 0x100_0000;
    let high = flags / 0x100_0000;
    assert((flags & 0x7EFF_FFFE == 0) == ((high == 0 || high == 1 || high == 0x80 || high == 0x81)
        && low < 2) && (flags & 0x7EFF_FFE0 == 0) == ((high == 0 || high == 1 || high == 0x80 || high
        == 0x81) && low < 32) && (flags & 0x7EFF_FFC0 == 0) == ((high == 0 || high == 1 || high
        == 0x80 || high == 0x81) && low < 64)) by (bit_vector)
        requires
            low == flags % 0x100_0000,
            high == flags / 0x100_0000,
    ;
}

/// The key of an SDAT container comes from its dev hash alone; that of an EDAT
/// container is picked by the two low bits of its license.
pub proof fn law_key_by_license(
    keys: KeySet,
    edat: EdatHeader,
    npd: NpdHeader,
    devklic: Seq<u8>,
    rifkey: Seq<u8>,
)
    requires
        rifkey.len() == 16,
    ensures
        ({
            let out = container::extract_key(keys, edat, npd, devklic, rifkey);
            let made = container::pack_key(keys, edat, npd, devklic, rifkey);
            let no_rif = forall|k: int| 0 <= k < 16 ==> rifkey[k] == 0;
            if sdat(edat.flags) {
                &&& made == out
                &&& out matches Ok(key)
                &&& key.len() == 16
                &&& forall|k: int|
                    0 <= k < 16 ==> #[trigger] key[k] == npd.dev_hash@[k] ^ keys.sdat_key@[k]
            } else if npd.license % 4 == 3 {
                &&& made == out
                &&& out == Ok::<Seq<u8>, Error>(devklic)
            } else if npd.license % 4 == 0 {
                &&& made == out
                &&& out == Ok::<Seq<u8>, Error>(Seq::new(16, |k: int| 0u8))
            } else {
                &&& made == if npd.license % 4 == 2 {
                    out
                } else {
                    Err(Error::NetworkLicense)
                }
                &&& out == if no_rif {
                    Err(Error::RifKeyNeeded)
                } else {
                    Ok(rifkey)
                }
            }
        }),
{
    law_flag_bits(edat.flags);
    let license = npd.license;
    assert((license & 3 == 3) == (license % 4 == 3) && (license & 1 == 1) == (license % 4 == 1
        || license % 4 == 3) && (license & 2 == 2) == (license % 4 == 2 || license % 4 == 3))
        by (bit_vector);
    let no_rif = forall|k: int| 0 <= k < 16 ==> rifkey[k] == 0;
    if no_rif {
        assert(rifkey =~= util::zeros(16));
    } else if rifkey == util::zeros(16) {
        assert forall|k: int| 0 <= k < 16 implies rifkey[k] == 0 by {
            assert(util::zeros(16)[k] == 0);
        }
    }
    assert(util::zeros(16) =~= Seq::new(16, |k: int| 0u8));
}

/// The hash of a part of a container under the container's key.
pub open spec fn part_hash(
    keys: KeySet,
    flags: u32,
    version: u32,
    key: Seq<u8>,
    part: Seq<u8>,
) -> Seq<u8> {
    primitives::cmac_aes128(unwrapped(keys, flags, version, key), part)
}

proof fn lemma_part_hash(
    keys: KeySet,
    flags: u32,
    version: u32,
    part: Seq<u8>,
    key: Seq<u8>,
    hash: Seq<u8>,
)
    ensures
        hashes::part_checked(keys, flags, version, part, key, hash) matches Ok((_, ok)) && ok == (
        part_hash(keys, flags, version, key, part).take(16) == hash.take(16)),
        hashes::part_hashed(keys, flags, version, part, key) matches Ok((_, tag)) && tag
            == part_hash(keys, flags, version, key, part),
{
    law_flag_bits(flags);
    let mode = hashes::header_hash_mode(flags);
    let base: u32 = if wrapped(flags) {
        0x1000_0002
    } else {
        2
    };
    assert(base & 0xFF == 2 && (base | 0x0100_0000) & 0xFF == 2 && (base == 2 ==> base & 0xF000_0000
        == 0 && (base | 0x0100_0000) & 0xF000_0000 == 0) && (base == 0x1000_0002 ==> base
        & 0xF000_0000 == 0x1000_0000 && (base | 0x0100_0000) & 0xF000_0000 == 0x1000_0000) && 1u32
        & 0xFF == 1 && 1u32 & 0xF000_0000 == 0) by (bit_vector)
        requires
            base == 2 || base == 0x1000_0002,
    ;
}

/// How many bytes of metadata `n` blocks have.
pub open spec fn metadata_len(flags: u32, n: nat) -> nat {
    if compressed(flags) || interleaved(flags) {
        32 * n
    } else {
        16 * n
    }
}

/// A check finds the hash at 0xA0 right where it is that of all before it, and
/// the hash at 0x90 where it is that of the bytes from 0x100 on, as many as the
/// blocks have metadata.
#[verifier::rlimit(40)]
pub proof fn law_check_finds(
    keys: KeySet,
    src: Seq<u8>,
    key: Seq<u8>,
    edat: EdatHeader,
    npd: NpdHeader,
    n: nat,
)
    requires
        cuts(edat.file_size as nat, edat.block_size as nat, n),
        hashes::flags_checked(npd.version, edat.flags) is Ok,
        0x100 + metadata_len(edat.flags, n) <= src.len(),
    ensures
        ({
            let report = hashes::checked(keys, src, key, edat, npd);
            let metadata = src.subrange(0x100, 0x100 + metadata_len(edat.flags, n) as int);
            &&& report.result is Ok
            &&& report.header_ok == Some(
                part_hash(keys, edat.flags, npd.version, key, src.subrange(0, 0xA0)).take(16)
                    == src.subrange(0xA0, 0xB0),
            )
            &&& report.metadata_ok == Some(
                part_hash(keys, edat.flags, npd.version, key, metadata).take(16) == src.subrange(
                    0x90,
                    0xA0,
                ),
            )
        }),
{
    reveal(hashes::checked);
    law_flag_bits(edat.flags);
    lemma_cuts(edat, n, 0);
    assert(src.take(0xA0) =~= src.subrange(0, 0xA0));
    let ss = blocks::section_size(edat.flags);
    assert(n * ss == metadata_len(edat.flags, n));
    let size = metadata_len(edat.flags, n) as int;
    let metadata = src.subrange(0x100, 0x100 + size);
    if size == 0 {
        assert(metadata =~= Seq::empty());
    }
    assert(image::read_at(src, 0x100, size) == Some(metadata));
    assert(src.subrange(0xA0, 0xB0).take(16) =~= src.subrange(0xA0, 0xB0));
    assert(src.subrange(0x90, 0xA0).take(16) =~= src.subrange(0x90, 0xA0));
    lemma_part_hash(
        keys,
        edat.flags,
        npd.version,
        src.take(0xA0),
        key,
        src.subrange(0xA0, 0xB0),
    );
    lemma_part_hash(keys, edat.flags, npd.version, metadata, key, src.subrange(0x90, 0xA0));
}

/// Forging puts the hash of the metadata at 0x90, then the hash of all before
/// 0xA0 there, and the signature at 0xB0; nothing else changes.
#[verifier::rlimit(40)]
pub proof fn law_forging_writes(
    keys: KeySet,
    tape: image::Tape,
    key: Seq<u8>,
    edat: EdatHeader,
    npd: NpdHeader,
    signature: Seq<u8>,
    n: nat,
)
    requires
        cuts(edat.file_size as nat, edat.block_size as nat, n),
        0x100 + metadata_len(edat.flags, n) <= tape.bytes.len(),
        signature.len() == 0x50,
        forall|part: Seq<u8>|
            (#[trigger] part_hash(keys, edat.flags, npd.version, key, part)).len() == 16,
    ensures
        hashes::forged(keys, tape, key, edat, npd, signature) matches Ok(t) && {
            let metadata = tape.bytes.subrange(0x100, 0x100 + metadata_len(edat.flags, n) as int);
            &&& t.bytes.len() == tape.bytes.len()
            &&& t.bytes.subrange(0x90, 0xA0) == part_hash(
                keys,
                edat.flags,
                npd.version,
                key,
                metadata,
            )
            &&& t.bytes.subrange(0xA0, 0xB0) == part_hash(
                keys,
                edat.flags,
                npd.version,
                key,
                t.bytes.subrange(0, 0xA0),
            )
            &&& t.bytes.subrange(0xB0, 0x100) == signature
            &&& forall|k: int|
                0 <= k < 0x90 || 0x100 <= k < tape.bytes.len() ==> #[trigger] t.bytes[k]
                    == tape.bytes[k]
        },
{
    reveal(hashes::forged);
    law_flag_bits(edat.flags);
    lemma_cuts(edat, n, 0);
    let ss = blocks::section_size(edat.flags);
    assert(n * ss == metadata_len(edat.flags, n));
    let size = metadata_len(edat.flags, n) as int;
    let metadata = tape.bytes.subrange(0x100, 0x100 + size);
    if size == 0 {
        assert(metadata =~= Seq::empty());
    }
    assert(image::read_at(tape.bytes, 0x100, size) == Some(metadata));
    lemma_part_hash(keys, edat.flags, npd.version, metadata, key, Seq::empty());
    let first = part_hash(keys, edat.flags, npd.version, key, metadata);
    assert(first.take(16) =~= first);
    let a = image::overlaid(tape.bytes, 0x90, first);
    lemma_part_hash(keys, edat.flags, npd.version, a.take(0xA0), key, Seq::empty());
    let second = part_hash(keys, edat.flags, npd.version, key, a.take(0xA0));
    assert(second.take(16) =~= second);
    let b = image::overlaid(a, 0xA0, second);
    let c = image::overlaid(b, 0xB0, signature);
    assert(c.subrange(0x90, 0xA0) =~= first);
    assert(c.subrange(0, 0xA0) =~= a.take(0xA0));
    assert(c.subrange(0xA0, 0xB0) =~= second);
    assert(c.subrange(0xB0, 0x100) =~= signature);
}

/// Whether some bytes are the two headers, field by field.
pub open spec fn holds_headers(bytes: Seq<u8>, npd: NpdHeader, edat: EdatHeader) -> bool {
    &&& bytes.len() == 0x90
    &&& lies_at(bytes, 0, npd.magic@)
    &&& lies_at(bytes, 4, util::be_bytes_u32(npd.version))
    &&& lies_at(bytes, 8, util::be_bytes_u32(npd.license))
    &&& lies_at(bytes, 0x0C, util::be_bytes_u32(npd.npd_type))
    &&& lies_at(bytes, 0x10, npd.content_id@)
    &&& lies_at(bytes, 0x40, npd.digest@)
    &&& lies_at(bytes, 0x50, npd.title_hash@)
    &&& lies_at(bytes, 0x60, npd.dev_hash@)
    &&& lies_at(bytes, 0x70, util::be_bytes_u32((npd.unk1 / 0x1_0000_0000) as u32))
    &&& lies_at(bytes, 0x74, util::be_bytes_u32((npd.unk1 % 0x1_0000_0000) as u32))
    &&& lies_at(bytes, 0x78, util::be_bytes_u32((npd.unk2 / 0x1_0000_0000) as u32))
    &&& lies_at(bytes, 0x7C, util::be_bytes_u32((npd.unk2 % 0x1_0000_0000) as u32))
    &&& lies_at(bytes, 0x80, util::be_bytes_u32(edat.flags))
    &&& lies_at(bytes, 0x84, util::be_bytes_u32(edat.block_size))
    &&& lies_at(bytes, 0x88, util::be_bytes_u32((edat.file_size / 0x1_0000_0000) as u32))
    &&& lies_at(bytes, 0x8C, util::be_bytes_u32((edat.file_size % 0x1_0000_0000) as u32))
}

/// Where each field of the headers lies.
#[verifier::rlimit(40)]
pub proof fn law_header_layout(npd: NpdHeader, edat: EdatHeader)
    ensures
        ({
            let bytes = npdata::npd_header_bytes(npd) + npdata::edat_header_bytes(edat);
            &&& holds_headers(bytes, npd, edat)
            &&& npdata::npd_dev_bytes(npd) == bytes.subrange(0, 0x60)
        }),
{
    let bytes = npdata::npd_header_bytes(npd) + npdata::edat_header_bytes(edat);
    assert(bytes.subrange(0, 4) =~= npd.magic@);
    assert(bytes.subrange(4, 8) =~= util::be_bytes_u32(npd.version));
    assert(bytes.subrange(8, 12) =~= util::be_bytes_u32(npd.license));
    assert(bytes.subrange(12, 16) =~= util::be_bytes_u32(npd.npd_type));
    assert(bytes.subrange(0x10, 0x40) =~= npd.content_id@);
    assert(bytes.subrange(0x40, 0x50) =~= npd.digest@);
    assert(bytes.subrange(0x50, 0x60) =~= npd.title_hash@);
    assert(bytes.subrange(0x60, 0x70) =~= npd.dev_hash@);
    assert(bytes.subrange(0x70, 0x74) =~= util::be_bytes_u32((npd.unk1 / 0x1_0000_0000) as u32));
    assert(bytes.subrange(0x74, 0x78) =~= util::be_bytes_u32((npd.unk1 % 0x1_0000_0000) as u32));
    assert(bytes.subrange(0x78, 0x7C) =~= util::be_bytes_u32((npd.unk2 / 0x1_0000_0000) as u32));
    assert(bytes.subrange(0x7C, 0x80) =~= util::be_bytes_u32((npd.unk2 % 0x1_0000_0000) as u32));
    assert(bytes.subrange(0x80, 0x84) =~= util::be_bytes_u32(edat.flags));
    assert(bytes.subrange(0x84, 0x88) =~= util::be_bytes_u32(edat.block_size));
    assert(bytes.subrange(0x88, 0x8C) =~= util::be_bytes_u32(
        (edat.file_size / 0x1_0000_0000) as u32,
    ));
    assert(bytes.subrange(0x8C, 0x90) =~= util::be_bytes_u32(
        (edat.file_size % 0x1_0000_0000) as u32,
    ));
    assert(npdata::npd_dev_bytes(npd) =~= bytes.subrange(0, 0x60));
}

#[verifier::rlimit(40)]
proof fn lemma_new_header(
    bytes: Seq<u8>,
    keys: KeySet,
    npd: NpdHeader,
    edat: EdatHeader,
    file_name: Seq<char>,
    content_id: Seq<char>,
    devklic: Seq<u8>,
    version: u32,
    license: u32,
    npd_type: u32,
    is_finalized: bool,
    digest: Seq<u8>,
)
    requires
        container::is_new_npd(
            keys,
            npd,
            file_name,
            content_id,
            devklic,
            version,
            license,
            npd_type,
            is_finalized,
            digest,
        ),
        devklic.len() == 16,
        holds_headers(bytes, npd, edat),
        npdata::npd_dev_bytes(npd) == bytes.subrange(0, 0x60),
    ensures
        ({
            let name = vstd::utf8::encode_utf8(content_id);
            &&& bytes.subrange(0, 4) == seq!['N' as u8, 'P' as u8, 'D' as u8, 0u8]
            &&& forall|k: int| 0x70 <= k < 0x80 ==> #[trigger] bytes[k] == 0
            &&& is_finalized ==> {
                &&& bytes.subrange(4, 8) == util::be_bytes_u32(version)
                &&& bytes.subrange(8, 12) == util::be_bytes_u32(license)
                &&& bytes.subrange(12, 16) == util::be_bytes_u32(npd_type)
                &&& forall|k: int|
                    0x10 <= k < 0x40 ==> #[trigger] bytes[k] == if k - 0x10 < name.len() {
                        name[k - 0x10]
                    } else {
                        0
                    }
                &&& bytes.subrange(0x40, 0x50) == digest
                &&& bytes.subrange(0x50, 0x60) == primitives::cmac_aes128(
                    keys.npdrm_omac_key_3@,
                    bytes.subrange(0x10, 0x40) + vstd::utf8::encode_utf8(file_name),
                )
                &&& bytes.subrange(0x60, 0x70) == primitives::cmac_aes128(
                    Seq::new(16, |k: int| devklic[k] ^ keys.npdrm_omac_key_2@[k]),
                    bytes.subrange(0, 0x60),
                )
            }
            &&& !is_finalized ==> {
                &&& bytes.subrange(4, 8) == util::be_bytes_u32(
                    if version == 1 {
                        0
                    } else {
                        version
                    },
                )
                &&& forall|k: int| 8 <= k < 0x80 ==> #[trigger] bytes[k] == 0
            }
        }),
{
    assert(npdata::npd_magic() =~= seq!['N' as u8, 'P' as u8, 'D' as u8, 0u8]);
    assert forall|k: int| 0x70 <= k < 0x80 implies #[trigger] bytes[k] == 0 by {
        if k < 0x74 {
            assert(bytes.subrange(0x70, 0x74)[k - 0x70] == bytes[k]);
        } else if k < 0x78 {
            assert(bytes.subrange(0x74, 0x78)[k - 0x74] == bytes[k]);
        } else if k < 0x7C {
            assert(bytes.subrange(0x78, 0x7C)[k - 0x78] == bytes[k]);
        } else {
            assert(bytes.subrange(0x7C, 0x80)[k - 0x7C] == bytes[k]);
        }
    }
    assert(util::xor_bytes(devklic, keys.npdrm_omac_key_2@) =~= Seq::new(
        16,
        |k: int| devklic[k] ^ keys.npdrm_omac_key_2@[k],
    ));
    assert forall|k: int| 0x10 <= k < 0x40 implies #[trigger] bytes[k] == npd.content_id@[k
        - 0x10] by {
        assert(bytes.subrange(0x10, 0x40)[k - 0x10] == bytes[k]);
    }
    if !is_finalized {
        assert forall|k: int| 8 <= k < 0x80 implies #[trigger] bytes[k] == 0 by {
            if k < 12 {
                assert(bytes.subrange(8, 12)[k - 8] == bytes[k]);
            } else if k < 16 {
                assert(bytes.subrange(12, 16)[k - 12] == bytes[k]);
            } else if k < 0x40 {
                assert(util::zeros(0x30)[k - 0x10] == 0);
            } else if k < 0x50 {
                assert(bytes.subrange(0x40, 0x50)[k - 0x40] == bytes[k]);
                assert(util::zeros(16)[k - 0x40] == 0);
            } else if k < 0x60 {
                assert(bytes.subrange(0x50, 0x60)[k - 0x50] == bytes[k]);
                assert(util::zeros(16)[k - 0x50] == 0);
            } else if k < 0x70 {
                assert(bytes.subrange(0x60, 0x70)[k - 0x60] == bytes[k]);
                assert(util::zeros(16)[k - 0x60] == 0);
            }
        }
    }
}

/// The NPD header of a new container, as it is written. Where it is finalized, it
/// holds what it was made from, the hash of content identifier and file name, and
/// the hash of all before the last under the klicensee; where it is not, only the
/// magic and the version, for which the first is written as zero.
pub proof fn law_new_header(
    keys: KeySet,
    npd: NpdHeader,
    edat: EdatHeader,
    file_name: Seq<char>,
    content_id: Seq<char>,
    devklic: Seq<u8>,
    version: u32,
    license: u32,
    npd_type: u32,
    is_finalized: bool,
    digest: Seq<u8>,
)
    requires
        container::is_new_npd(
            keys,
            npd,
            file_name,
            content_id,
            devklic,
            version,
            license,
            npd_type,
            is_finalized,
            digest,
        ),
        devklic.len() == 16,
    ensures
        ({
            let bytes = npdata::npd_header_bytes(npd) + npdata::edat_header_bytes(edat);
            let name = vstd::utf8::encode_utf8(content_id);
            &&& bytes.subrange(0, 4) == seq!['N' as u8, 'P' as u8, 'D' as u8, 0u8]
            &&& forall|k: int| 0x70 <= k < 0x80 ==> #[trigger] bytes[k] == 0
            &&& is_finalized ==> {
                &&& bytes.subrange(4, 8) == util::be_bytes_u32(version)
                &&& bytes.subrange(8, 12) == util::be_bytes_u32(license)
                &&& bytes.subrange(12, 16) == util::be_bytes_u32(npd_type)
                &&& forall|k: int|
                    0x10 <= k < 0x40 ==> #[trigger] bytes[k] == if k - 0x10 < name.len() {
                        name[k - 0x10]
                    } else {
                        0
                    }
                &&& bytes.subrange(0x40, 0x50) == digest
                &&& bytes.subrange(0x50, 0x60) == primitives::cmac_aes128(
                    keys.npdrm_omac_key_3@,
                    bytes.subrange(0x10, 0x40) + vstd::utf8::encode_utf8(file_name),
                )
                &&& bytes.subrange(0x60, 0x70) == primitives::cmac_aes128(
                    Seq::new(16, |k: int| devklic[k] ^ keys.npdrm_omac_key_2@[k]),
                    bytes.subrange(0, 0x60),
                )
            }
            &&& !is_finalized ==> {
                &&& bytes.subrange(4, 8) == util::be_bytes_u32(
                    if version == 1 {
                        0
                    } else {
                        version
                    },
                )
                &&& forall|k: int| 8 <= k < 0x80 ==> #[trigger] bytes[k] == 0
            }
        }),
{
    law_header_layout(npd, edat);
    lemma_new_header(
        npdata::npd_header_bytes(npd) + npdata::edat_header_bytes(edat),
        keys,
        npd,
        edat,
        file_name,
        content_id,
        devklic,
        version,
        license,
        npd_type,
        is_finalized,
        digest,
    );
}

/// What extracting finds in a container: its headers, whether the two hashes of
/// the NPD header are right where it is no SDAT, and the pieces that its blocks
/// stand for.
pub proof fn law_extraction_finds(
    keys: KeySet,
    src: Seq<u8>,
    file_name: Seq<char>,
    devklic: Seq<u8>,
    rifkey: Seq<u8>,
    x: container::Extraction,
    h: HeaderPair,
    key: Seq<u8>,
    stored: Seq<Stored>,
    pieces: Seq<Seq<u8>>,
)
    requires
        container::is_extraction(keys, src, file_name, devklic, rifkey, x),
        devklic.len() == 16,
        src.len() >= 0x90,
        src.subrange(0, 0x90) == npdata::npd_header_bytes(h.npd) + npdata::edat_header_bytes(h.edat),
        h.npd.magic@ == seq!['N' as u8, 'P' as u8, 'D' as u8, 0u8],
        container::extract_key(keys, h.edat, h.npd, devklic, rifkey) == Ok::<Seq<u8>, Error>(key),
        h.edat.file_size <= usize::MAX,
        cuts(h.edat.file_size as nat, h.edat.block_size as nat, stored.len()),
        pieces.len() == stored.len(),
        forall|j: nat|
            j < stored.len() ==> #[trigger] block_reads(
                keys,
                src,
                h.edat,
                h.npd,
                key,
                stored.len(),
                j,
                stored[j as int],
                promised(h.edat.file_size as nat, stored, pieces, j),
                pieces[j as int],
            ),
    ensures
        x.headers == Ok::<HeaderPair, Error>(h),
        x.key matches Some(k) && k@ == key,
        if sdat(h.edat.flags) {
            x.hashes is None
        } else {
            x.hashes matches Some(report) && {
                &&& report.title_ok == (primitives::cmac_aes128(
                    keys.npdrm_omac_key_3@,
                    src.subrange(0x10, 0x40) + vstd::utf8::encode_utf8(file_name),
                ) == src.subrange(0x50, 0x60))
                &&& report.dev_ok == if forall|k: int| 0 <= k < 16 ==> devklic[k] == 0 {
                    None
                } else {
                    Some(
                        primitives::cmac_aes128(
                            Seq::new(16, |k: int| devklic[k] ^ keys.npdrm_omac_key_2@[k]),
                            src.subrange(0, 0x60),
                        ) == src.subrange(0x60, 0x70),
                    )
                }
            }
        },
        x.check == Some(hashes::checked(keys, src, key, h.edat, h.npd)),
        x.output@ == joined(pieces, 0),
        x.log@.len() == stored.len(),
        x.result is Ok,
{
    let head = npdata::npd_header_bytes(h.npd) + npdata::edat_header_bytes(h.edat);
    assert(src.take(0x90) =~= src.subrange(0, 0x90));
    assert(npdata::npd_magic() =~= seq!['N' as u8, 'P' as u8, 'D' as u8, 0u8]);
    law_flag_bits(h.edat.flags);
    law_header_layout(h.npd, h.edat);
    container::lemma_is_extraction_of(keys, src, file_name, devklic, rifkey, x, h, key);
    let start = container::nothing_yet(h.edat);
    law_payload_read(keys, src, h.edat, h.npd, key, stored, pieces, start);
    assert(start.out + joined(pieces, 0) =~= joined(pieces, 0));
    lemma_extraction_hashes(keys, src, file_name, devklic, rifkey, x, h);
}

#[verifier::rlimit(40)]
proof fn lemma_extraction_hashes(
    keys: KeySet,
    src: Seq<u8>,
    file_name: Seq<char>,
    devklic: Seq<u8>,
    rifkey: Seq<u8>,
    x: container::Extraction,
    h: HeaderPair,
)
    requires
        container::is_extraction(keys, src, file_name, devklic, rifkey, x),
        devklic.len() == 16,
        src.len() >= 0x90,
        src.subrange(0, 0x90) == npdata::npd_header_bytes(h.npd) + npdata::edat_header_bytes(h.edat),
        x.headers == Ok::<HeaderPair, Error>(h),
    ensures
        if sdat(h.edat.flags) {
            x.hashes is None
        } else {
            x.hashes matches Some(report) && {
                &&& report.title_ok == (primitives::cmac_aes128(
                    keys.npdrm_omac_key_3@,
                    src.subrange(0x10, 0x40) + vstd::utf8::encode_utf8(file_name),
                ) == src.subrange(0x50, 0x60))
                &&& report.dev_ok == if forall|k: int| 0 <= k < 16 ==> devklic[k] == 0 {
                    None
                } else {
                    Some(
                        primitives::cmac_aes128(
                            Seq::new(16, |k: int| devklic[k] ^ keys.npdrm_omac_key_2@[k]),
                            src.subrange(0, 0x60),
                        ) == src.subrange(0x60, 0x70),
                    )
                }
            }
        },
{
    reveal(container::is_extraction);
    law_flag_bits(h.edat.flags);
    law_header_layout(h.npd, h.edat);
    let head = src.subrange(0, 0x90);
    assert(src.subrange(0x10, 0x40) =~= head.subrange(0x10, 0x40));
    assert(src.subrange(0x50, 0x60) =~= head.subrange(0x50, 0x60));
    assert(src.subrange(0, 0x60) =~= head.subrange(0, 0x60));
    assert(src.subrange(0x60, 0x70) =~= head.subrange(0x60, 0x70));
    assert(util::xor_bytes(devklic, keys.npdrm_omac_key_2@) =~= Seq::new(
        16,
        |k: int| devklic[k] ^ keys.npdrm_omac_key_2@[k],
    ));
    let zero = forall|k: int| 0 <= k < 16 ==> devklic[k] == 0;
    if zero {
        assert(devklic =~= util::zeros(16));
    } else if devklic == util::zeros(16) {
        assert forall|k: int| 0 <= k < 16 implies devklic[k] == 0 by {
            assert(util::zeros(16)[k] == 0);
        }
    }
}

/// What is no container is refused, with nothing extracted.
pub proof fn law_no_container_extracts_nothing(
    keys: KeySet,
    src: Seq<u8>,
    file_name: Seq<char>,
    devklic: Seq<u8>,
    rifkey: Seq<u8>,
    x: container::Extraction,
)
    requires
        container::is_extraction(keys, src, file_name, devklic, rifkey, x),
        src.len() < 0x90 || src.subrange(0, 4) != seq!['N' as u8, 'P' as u8, 'D' as u8, 0u8],
    ensures
        x.result == Err::<(), Error>(
            if src.len() < 0x80 {
                Error::NpdHeaderTruncated
            } else if src.len() < 0x90 {
                Error::EdatHeaderTruncated
            } else {
                Error::InvalidMagic
            },
        ),
        x.output@.len() == 0,
        x.log@.len() == 0,
        x.key is None,
        x.check is None,
        x.hashes is None,
{
    reveal(container::is_extraction);
    assert(npdata::npd_magic() =~= seq!['N' as u8, 'P' as u8, 'D' as u8, 0u8]);
    if src.len() >= 0x90 {
        assert(src.take(4) =~= src.subrange(0, 4));
    }
}

/// The EDAT header of a new container: the flags of its version, whole
/// kilobytes per block, and the size of its payload. A block size that does not
/// fit 32 bits keeps its low ones.
pub proof fn law_new_edat(
    version: u32,
    block_kb: u32,
    use_compression: bool,
    is_edat: bool,
    is_finalized: bool,
    file_size: u64,
)
    ensures
        ({
            let edat = container::pack_edat(
                version,
                block_kb,
                use_compression,
                is_edat,
                is_finalized,
                file_size,
            );
            &&& edat.flags == container::pack_flags(
                version,
                use_compression,
                is_edat,
                is_finalized,
            )
            &&& edat.block_size % 1024 == 0
            &&& edat.block_size / 1024 == block_kb % 0x40_0000
            &&& edat.file_size == file_size
        }),
{
}

/// Every block of a new, finalized container is encrypted under its own key and
/// tagged, whatever the version.
pub proof fn law_new_blocks_encrypted(
    keys: KeySet,
    src: Seq<u8>,
    edat: EdatHeader,
    npd: NpdHeader,
    key: Seq<u8>,
    i: nat,
    version: u32,
    use_compression: bool,
    is_edat: bool,
)
    requires
        edat.flags == container::pack_flags(version, use_compression, is_edat, true),
    ensures
        !clear(edat.flags),
        stored_data(keys, src, edat, npd, key, i) == crypto::cbc_encrypted(
            data_key(keys, edat.flags, npd, key, i as u32),
            first_vector(npd),
            filled_piece(src, edat.file_size as nat, edat.block_size as nat, i),
        ),
        data_key(keys, edat.flags, npd, key, i as u32) == ({
            let first = primitives::aes128_encrypted(key, identity(npd, i as u32));
            if version == 1 {
                first
            } else if npd.version == 4 {
                crypto::cbc_decrypted(keys.edat_key_1@, keys.edat_iv@, first)
            } else {
                crypto::cbc_decrypted(keys.edat_key_0@, keys.edat_iv@, first)
            }
        }),
{
    reveal(stored_data);
    law_new_flags(version, use_compression, is_edat, true);
}

proof fn lemma_lies_kept(a: Seq<u8>, b: Seq<u8>, from: nat, part: Seq<u8>)
    requires
        lies_at(a, from, part),
        a.len() == b.len(),
        forall|k: int| from <= k < from + part.len() ==> #[trigger] b[k] == a[k],
    ensures
        lies_at(b, from, part),
{
    assert(b.subrange(from as int, (from + part.len()) as int) =~= a.subrange(
        from as int,
        (from + part.len()) as int,
    ));
}

/// What a container is made of: its headers, its blocks and the ending. Where it
/// is finalized, the hash of its metadata, the hash of all before that hash's end,
/// and the signature lie between the headers and the blocks.
#[verifier::rlimit(40)]
pub proof fn law_container_made(
    keys: KeySet,
    src: Seq<u8>,
    h: HeaderPair,
    key: Seq<u8>,
    is_finalized: bool,
    masks: Seq<[u8; 16]>,
    signature: Seq<u8>,
    n: nat,
)
    requires
        cuts(h.edat.file_size as nat, h.edat.block_size as nat, n),
        h.edat.block_size % 16 == 0 || n <= 1,
        h.edat.file_size <= src.len(),
        forall|j: nat| j < n ==> #[trigger] seals_whole(keys, src, h.edat, h.npd, key, n, j),
        signature.len() == 0x50,
        forall|part: Seq<u8>|
            (#[trigger] part_hash(keys, h.edat.flags, h.npd.version, key, part)).len() == 16,
    ensures
        ({
            let (t, result) = container::container(
                keys,
                src,
                h,
                key,
                is_finalized,
                masks,
                signature,
            );
            let metadata = t.bytes.subrange(0x100, 0x100 + metadata_len(h.edat.flags, n) as int);
            let end = if n == 0 {
                0x100
            } else {
                data_ends(src, h.edat, n, (n - 1) as nat)
            };
            &&& result is Ok
            &&& lies_at(
                t.bytes,
                0,
                npdata::npd_header_bytes(h.npd) + npdata::edat_header_bytes(h.edat),
            )
            &&& forall|j: nat|
                j < n ==> #[trigger] block_written(
                    t.bytes,
                    keys,
                    src,
                    h.edat,
                    h.npd,
                    key,
                    masks,
                    n,
                    j,
                )
            &&& lies_at(t.bytes, end, ending(h.npd.version, sdat(h.edat.flags)))
            &&& is_finalized ==> {
                &&& t.bytes.subrange(0x90, 0xA0) == part_hash(
                    keys,
                    h.edat.flags,
                    h.npd.version,
                    key,
                    metadata,
                )
                &&& t.bytes.subrange(0xA0, 0xB0) == part_hash(
                    keys,
                    h.edat.flags,
                    h.npd.version,
                    key,
                    t.bytes.subrange(0, 0xA0),
                )
                &&& t.bytes.subrange(0xB0, 0x100) == signature
            }
        }),
{
    let head = npdata::npd_header_bytes(h.npd) + npdata::edat_header_bytes(h.edat);
    law_header_layout(h.npd, h.edat);
    let start = container::headed(h);
    assert(start.bytes == head) by {
        reveal(container::headed);
    }
    assert(head.subrange(0, head.len() as int) =~= head);
    law_container_written(keys, src, h.edat, h.npd, key, masks, n, start, head);
    let (filled, _) = pack::packed(keys, src, h.edat, h.npd, key, masks, start);
    if is_finalized {
        let end = if n == 0 {
            0x100
        } else {
            data_ends(src, h.edat, n, (n - 1) as nat)
        };
        if n > 0 {
            lemma_metadata_before_end(src, h.edat, n);
        }
        let last = ending(h.npd.version, sdat(h.edat.flags));
        law_forging_writes(keys, filled, key, h.edat, h.npd, signature, n);
        let t = hashes::forged(keys, filled, key, h.edat, h.npd, signature)->Ok_0;
        lemma_lies_kept(filled.bytes, t.bytes, 0, head);
        lemma_lies_kept(filled.bytes, t.bytes, end, last);
        let size = metadata_len(h.edat.flags, n) as int;
        assert(t.bytes.subrange(0x100, 0x100 + size) =~= filled.bytes.subrange(
            0x100,
            0x100 + size,
        ));
        assert forall|j: nat| j < n implies #[trigger] block_written(
            t.bytes,
            keys,
            src,
            h.edat,
            h.npd,
            key,
            masks,
            n,
            j,
        ) by {
            let block = h.edat.block_size as nat;
            assert(block_written(filled.bytes, keys, src, h.edat, h.npd, key, masks, n, j));
            lemma_cuts(h.edat, n, j);
            lemma_places(h.edat, n, j);
            pack::lemma_ends(h.edat, j);
            lemma_lies_kept(
                filled.bytes,
                t.bytes,
                data_at(h.edat.flags, block, n, j),
                stored_data(keys, src, h.edat, h.npd, key, j),
            );
            if !clear(h.edat.flags) {
                lemma_lies_kept(
                    filled.bytes,
                    t.bytes,
                    metadata_at(h.edat.flags, block, j),
                    stored_metadata(keys, src, h.edat, h.npd, key, masks, n, j),
                );
            }
        }
    }
}

proof fn lemma_metadata_before_end(src: Seq<u8>, edat: EdatHeader, n: nat)
    requires
        cuts(edat.file_size as nat, edat.block_size as nat, n),
        n > 0,
    ensures
        0x100 + metadata_len(edat.flags, n) <= data_ends(src, edat, n, (n - 1) as nat),
{
    let block = edat.block_size as int;
    assert((n - 1) * (block + 32) == (n - 1) * block + (n - 1) * 32) by (nonlinear_arith);
    assert((n - 1) * block >= 0) by (nonlinear_arith)
        requires
            n >= 1,
            block >= 0,
    ;
}

/// A container that ends before a block's metadata or data ends is read no
/// further, and the block leaves no trace.
pub proof fn law_cut_short(
    keys: KeySet,
    src: Seq<u8>,
    edat: EdatHeader,
    npd: NpdHeader,
    key: Seq<u8>,
    n: nat,
    i: nat,
    s: Unpacked,
)
    requires
        cuts(edat.file_size as nat, edat.block_size as nat, n),
        i < n,
        ({
            let block = edat.block_size as nat;
            let length = piece_len(edat.file_size as nat, block, i);
            ||| metadata_at(edat.flags, block, i) + (if compressed(edat.flags) || interleaved(
                edat.flags,
            ) {
                32nat
            } else {
                16
            }) > src.len()
            ||| !compressed(edat.flags) && data_at(edat.flags, block, n, i) + length > src.len()
        }),
    ensures
        unpack::block_unpacked(keys, src, edat, npd, key, i, s) == (
            s,
            Err::<(), Error>(Error::UnexpectedEof),
        ),
{
    reveal(unpack::block_unpacked);
    law_flag_bits(edat.flags);
    lemma_cuts(edat, n, i);
    lemma_places(edat, n, i);
}

/// A compressed block that does not decompress under the promised bytes ends the
/// reading with the decompressor's error. It is reported, and adds nothing.
#[verifier::rlimit(40)]
pub proof fn law_bad_stream(
    keys: KeySet,
    src: Seq<u8>,
    edat: EdatHeader,
    npd: NpdHeader,
    key: Seq<u8>,
    i: nat,
    s: Unpacked,
    b: Stored,
    e: Error,
)
    requires
        compressed(edat.flags),
        i <= 0xFFFF_FFFF,
        s.left <= usize::MAX,
        holds_compressed(src, i, b),
        b.end != 0,
        lz::decompressed(
            plain_of(keys, edat.flags, npd, key, i as u32, b.data),
            s.left as nat,
        ) == Err::<Seq<u8>, Error>(e),
    ensures
        ({
            let (t, result) = unpack::block_unpacked(keys, src, edat, npd, key, i, s);
            &&& result == Err::<(), Error>(e)
            &&& t.out == s.out
            &&& t.left == s.left
            &&& t.log.len() == s.log.len() + 1
            &&& t.log.take(s.log.len() as int) == s.log
            &&& t.log.last().offset == told_offset(b)
            &&& t.log.last().length == b.length
            &&& t.log.last().packed
            &&& t.log.last().unpacked is None
            &&& t.log.last().left == s.left
            &&& t.log.last().tag_ok == (clear(edat.flags) || tag_of(
                keys,
                edat.flags,
                npd,
                key,
                i as u32,
                b.data,
            ).take(16) == b.tag)
        }),
{
    reveal(unpack::block_unpacked);
    law_flag_bits(edat.flags);
    let record = util::be_bytes_u32(b.hi) + util::be_bytes_u32(b.lo) + util::be_bytes_u32(b.length)
        + util::be_bytes_u32(b.end);
    lemma_words(b.hi, b.lo, b.length, b.end);
    lemma_hidden(b.tag, record);
    let m = b.tag + hidden(b.tag, record);
    assert(m.take(16) =~= b.tag);
    assert(blocks::section_at(edat, i) == 0x100 + 32 * i);
    assert(image::read_at(src, blocks::section_at(edat, i) as int, 32) == Some(m));
    lemma_told_offset(b);
    lemma_filled(b.data, b.length as nat);
    let p = unpack::placed(src, edat, i)->Some_0;
    assert(p.offset == told_offset(b) && p.length == b.length && p.tag == b.tag);
    assert(b.data.len() == 0 ==> b.data =~= Seq::empty());
    assert(image::read_at(src, p.offset as int, blocks::padded(p.length) as int) == Some(b.data));
    law_block_opened(keys, edat.flags, npd, key, i as u32, b.data, b.tag);
    assert(b.tag.take(16) =~= b.tag);
    let t = unpack::block_unpacked(keys, src, edat, npd, key, i, s).0;
    assert(t.log.take(s.log.len() as int) =~= s.log);
}

/// Reading stops at the first block that cannot be read, with its error, and
/// keeps what came before; otherwise it goes on with the next block.
pub proof fn law_first_error_ends(
    keys: KeySet,
    src: Seq<u8>,
    edat: EdatHeader,
    npd: NpdHeader,
    key: Seq<u8>,
    n: nat,
    i: nat,
    s: Unpacked,
)
    requires
        cuts(edat.file_size as nat, edat.block_size as nat, n),
        i < n,
    ensures
        ({
            let (t, result) = unpack::block_unpacked(keys, src, edat, npd, key, i, s);
            let end = unpack::unpacked_from(keys, src, edat, npd, key, i, s);
            if result is Err {
                end == (t, result)
            } else {
                end == unpack::unpacked_from(keys, src, edat, npd, key, i + 1, t)
            }
        }),
{
    lemma_cuts(edat, n, i);
}

/// In CBC mode each block is decrypted, and then added, without carry, to the
/// encrypted block before it, the first to the initial vector.
pub proof fn law_cbc_decrypts(key: Seq<u8>, iv: Seq<u8>, data: Seq<u8>, j: nat, k: int)
    requires
        iv.len() == 16,
        16 * (j + 1) <= data.len(),
        0 <= k < 16,
    ensures
        16 * (j + 1) <= crypto::cbc_decrypted(key, iv, data).len(),
        crypto::cbc_decrypted(key, iv, data)[16 * j + k] == (if j == 0 {
            iv[k]
        } else {
            data[16 * (j - 1) + k]
        }) ^ primitives::aes128_decrypted(
            key,
            data.subrange((16 * j) as int, (16 * j + 16) as int),
        )[k],
    decreases j,
{
    crypto::law_cbc_keeps_length(key, iv, data);
    if j == 0 {
        assert(data.take(16) =~= data.subrange(0, 16));
    } else {
        let rest = data.skip(16);
        law_cbc_decrypts(key, data.take(16), rest, (j - 1) as nat, k);
        assert(rest.subrange((16 * (j - 1)) as int, 16 * (j - 1) + 16) =~= data.subrange(
            (16 * j) as int,
            (16 * j + 16) as int,
        ));
        assert(crypto::cbc_decrypted(key, iv, data)[16 * j + k] == crypto::cbc_decrypted(
            key,
            data.take(16),
            rest,
        )[16 * (j - 1) + k]);
    }
}

/// In CBC mode each block is added, without carry, to the encrypted block before
/// it, the first to the initial vector, and then encrypted.
pub proof fn law_cbc_encrypts(key: Seq<u8>, iv: Seq<u8>, first: Seq<u8>, rest: Seq<u8>)
    requires
        first.len() == 16,
    ensures
        ({
            let block = primitives::aes128_encrypted(
                key,
                Seq::new(16, |k: int| first[k] ^ iv[k]),
            );
            crypto::cbc_encrypted(key, iv, first + rest) == block + crypto::cbc_encrypted(
                key,
                block,
                rest,
            )
        }),
{
    let whole = first + rest;
    assert(whole.take(16) =~= first);
    assert(whole.skip(16) =~= rest);
    assert(util::xor_bytes(first, iv) =~= Seq::new(16, |k: int| first[k] ^ iv[k]));
}

/// The highest digit of a mode says where keys come from: they are used as given,
/// unwrapped, or fixed. The two lowest digits name the cipher and the hash.
pub proof fn law_modes(
    keys: KeySet,
    mode: u32,
    version4: bool,
    key: Seq<u8>,
    iv: Seq<u8>,
    data: Seq<u8>,
)
    ensures
        ({
            let source = mode / 0x1000_0000;
            let algorithm = mode % 0x100;
            let wrapping = if version4 {
                keys.edat_key_1@
            } else {
                keys.edat_key_0@
            };
            &&& crypto::derived_key(keys, mode, version4, key, iv) == if source == 0 {
                Ok((key, iv))
            } else if source == 1 {
                Ok((crypto::cbc_decrypted(wrapping, keys.edat_iv@, key), iv))
            } else if source == 2 {
                Ok((wrapping, keys.edat_iv@))
            } else {
                Err(Error::UnknownKeyMode { mode: (source * 0x1000_0000) as u32 })
            }
            &&& crypto::derived_hash(keys, mode, version4, key) == if source == 0 {
                Ok(key)
            } else if source == 1 {
                Ok(crypto::cbc_decrypted(wrapping, keys.edat_iv@, key))
            } else if source == 2 {
                if version4 {
                    Ok(keys.edat_hash_1@)
                } else {
                    Ok(keys.edat_hash_0@)
                }
            } else {
                Err(Error::UnknownHashMode { mode: (source * 0x1000_0000) as u32 })
            }
            &&& forall|decrypt: bool|
                #![trigger crypto::ciphered(decrypt, mode, key, iv, data)]
                crypto::ciphered(decrypt, mode, key, iv, data) == if algorithm == 1 {
                    Ok(data)
                } else if algorithm != 2 {
                    Err(Error::UnknownCryptoAlgorithm { algorithm })
                } else if data.len() % 16 != 0 {
                    Err(Error::CbcLength)
                } else if decrypt {
                    Ok(crypto::cbc_decrypted(key, iv, data))
                } else {
                    Ok(crypto::cbc_encrypted(key, iv, data))
                }
            &&& crypto::tagged(mode, key, data) == if algorithm == 1 {
                Ok(primitives::hmac_sha1(key + seq![0u8, 0, 0, 0], data))
            } else if algorithm == 2 {
                Ok(primitives::cmac_aes128(key, data))
            } else if algorithm == 4 {
                Ok(primitives::hmac_sha1(key, data).take(16))
            } else {
                Err(Error::UnknownHashAlgorithm { algorithm })
            }
        }),
{
    let source = mode / 0x1000_0000;
    let top = mode & 0xF000_0000;
    assert(top == source * 0x1000_0000 && mode & 0xFF == mode % 0x100) by (bit_vector)
        requires
            source == mode / 0x1000_0000,
            top == mode & 0xF000_0000,
    ;
    assert(util::zeros(4) =~= seq![0u8, 0, 0, 0]);
}

/// A check ends before its first finding where the flags are refused or the
/// container ends before the hashes do, and after it where there are no blocks to
/// speak of or the metadata is cut short.
pub proof fn law_check_refuses(
    keys: KeySet,
    src: Seq<u8>,
    key: Seq<u8>,
    edat: EdatHeader,
    npd: NpdHeader,
)
    ensures
        ({
            let report = hashes::checked(keys, src, key, edat, npd);
            match hashes::flags_checked(npd.version, edat.flags) {
                Err(e) => {
                    &&& report.header_ok is None
                    &&& report.metadata_ok is None
                    &&& report.result == Err::<(), Error>(e)
                },
                Ok(_) => if src.len() < 0xB0 {
                    &&& report.header_ok is None
                    &&& report.metadata_ok is None
                    &&& report.result == Err::<(), Error>(Error::UnexpectedEof)
                } else {
                    &&& report.header_ok == Some(
                        part_hash(keys, edat.flags, npd.version, key, src.subrange(0, 0xA0)).take(
                            16,
                        ) == src.subrange(0xA0, 0xB0),
                    )
                    &&& edat.block_size == 0 ==> report.metadata_ok is None && report.result == Err::<
                        (),
                        Error,
                    >(Error::ZeroBlockSize)
                    &&& forall|n: nat|
                        #![trigger cuts(edat.file_size as nat, edat.block_size as nat, n)]
                        cuts(edat.file_size as nat, edat.block_size as nat, n) && n > 0 && 0x100
                            + metadata_len(edat.flags, n) > src.len() ==> report.metadata_ok is None
                            && report.result == Err::<(), Error>(Error::UnexpectedEof)
                },
            }
        }),
{
    reveal(hashes::checked);
    law_flag_bits(edat.flags);
    if src.len() >= 0xB0 {
        assert(src.take(0xA0) =~= src.subrange(0, 0xA0));
        assert(src.subrange(0xA0, 0xB0).take(16) =~= src.subrange(0xA0, 0xB0));
        lemma_part_hash(
            keys,
            edat.flags,
            npd.version,
            src.take(0xA0),
            key,
            src.subrange(0xA0, 0xB0),
        );
        let size = (blocks::blocks_of(edat) * blocks::section_size(edat.flags)) as int;
        if let Some(metadata) = image::read_at(src, 0x100, size) {
            lemma_part_hash(
                keys,
                edat.flags,
                npd.version,
                metadata,
                key,
                src.subrange(0x90, 0xA0),
            );
        }
    }
    assert forall|n: nat|
        #![trigger cuts(edat.file_size as nat, edat.block_size as nat, n)]
        cuts(edat.file_size as nat, edat.block_size as nat, n) implies blocks::blocks_of(edat)
        * blocks::section_size(edat.flags) == metadata_len(edat.flags, n) by {
        lemma_cuts(edat, n, 0);
    }
}

/// A container without blocks to speak of, or one that ends before its metadata,
/// is not forged.
pub proof fn law_forging_refused(
    keys: KeySet,
    tape: image::Tape,
    key: Seq<u8>,
    edat: EdatHeader,
    npd: NpdHeader,
    signature: Seq<u8>,
    n: nat,
)
    ensures
        edat.block_size == 0 ==> hashes::forged(keys, tape, key, edat, npd, signature) == Err::<
            image::Tape,
            Error,
        >(Error::ZeroBlockSize),
        cuts(edat.file_size as nat, edat.block_size as nat, n) && n > 0 && 0x100 + metadata_len(
            edat.flags,
            n,
        ) > tape.bytes.len() ==> hashes::forged(keys, tape, key, edat, npd, signature) == Err::<
            image::Tape,
            Error,
        >(Error::UnexpectedEof),
{
    reveal(hashes::forged);
    law_flag_bits(edat.flags);
    if cuts(edat.file_size as nat, edat.block_size as nat, n) {
        lemma_cuts(edat, n, 0);
        assert(n * blocks::section_size(edat.flags) == metadata_len(edat.flags, n));
    }
}

/// The number of blocks is the least that holds the payload, kept in 32 bits.
pub proof fn law_block_count(edat: EdatHeader, n: nat)
    requires
        edat.block_size > 0,
        edat.file_size + edat.block_size <= u64::MAX,
        edat.file_size <= n * edat.block_size,
        n > 0 ==> (n - 1) * edat.block_size < edat.file_size,
    ensures
        blocks::blocks_of(edat) == n % 0x1_0000_0000,
{
    reveal(blocks::blocks_of);
    let size = edat.file_size as int;
    let block = edat.block_size as int;
    assert((n - 1) * block == n * block - block) by (nonlinear_arith);
    if n == 0 {
        assert(n * block == 0) by (nonlinear_arith)
            requires
                n == 0,
        ;
    }
    vstd::arithmetic::div_mod::lemma_fundamental_div_mod_converse(
        size + block - 1,
        block,
        n as int,
        size + block - 1 - n * block,
    );
}

proof fn lemma_short_source_from(
    keys: KeySet,
    src: Seq<u8>,
    edat: EdatHeader,
    npd: NpdHeader,
    key: Seq<u8>,
    masks: Seq<[u8; 16]>,
    n: nat,
    i: nat,
    tape: image::Tape,
)
    requires
        cuts(edat.file_size as nat, edat.block_size as nat, n),
        src.len() < edat.file_size,
        i < n,
    ensures
        pack::packed_from(keys, src, edat, npd, key, masks, i, tape).1 == Err::<(), Error>(
            Error::UnexpectedEof,
        ),
    decreases n - i,
{
    reveal(pack::block_packed);
    lemma_cuts(edat, n, i);
    pack::law_blocks_cover(edat, i);
    if let Some(bytes) = pack::chunk(src, edat, i) {
        let plain = pack::zero_padded(bytes);
        assert(plain.len() % 16 == 0);
        law_block_sealed(keys, edat.flags, npd, key, i as u32, plain);
        let t = pack::block_packed(keys, src, edat, npd, key, masks, i, tape)->Ok_0;
        if i + 1 < n {
            lemma_short_source_from(keys, src, edat, npd, key, masks, n, i + 1, t);
        }
    }
}

/// A payload that is shorter than its header says is refused.
pub proof fn law_short_source_refused(
    keys: KeySet,
    src: Seq<u8>,
    edat: EdatHeader,
    npd: NpdHeader,
    key: Seq<u8>,
    masks: Seq<[u8; 16]>,
    n: nat,
    tape: image::Tape,
)
    requires
        cuts(edat.file_size as nat, edat.block_size as nat, n),
        src.len() < edat.file_size,
    ensures
        pack::packed(keys, src, edat, npd, key, masks, tape).1 == Err::<(), Error>(
            Error::UnexpectedEof,
        ),
{
    reveal(pack::packed);
    if n == 0 {
        let block = edat.block_size as nat;
        assert(n * block == 0) by (nonlinear_arith)
            requires
                n == 0,
        ;
    } else {
        lemma_short_source_from(keys, src, edat, npd, key, masks, n, 0, tape);
    }
}

/// A container without a block size is neither written nor read.
pub proof fn law_no_block_size(
    keys: KeySet,
    src: Seq<u8>,
    edat: EdatHeader,
    npd: NpdHeader,
    key: Seq<u8>,
    masks: Seq<[u8; 16]>,
    tape: image::Tape,
    s: Unpacked,
)
    requires
        edat.block_size == 0,
    ensures
        pack::packed(keys, src, edat, npd, key, masks, tape) == (
            tape,
            Err::<(), Error>(Error::ZeroBlockSize),
        ),
        unpack::unpacked(keys, src, edat, npd, key, s) == (
            s,
            Err::<(), Error>(Error::ZeroBlockSize),
        ),
{
    reveal(pack::packed);
}

/// Without the key that its license asks for, a container is not extracted, but
/// its headers are found.
pub proof fn law_no_key_extracts_nothing(
    keys: KeySet,
    src: Seq<u8>,
    file_name: Seq<char>,
    devklic: Seq<u8>,
    rifkey: Seq<u8>,
    x: container::Extraction,
    h: HeaderPair,
)
    requires
        container::is_extraction(keys, src, file_name, devklic, rifkey, x),
        x.headers == Ok::<HeaderPair, Error>(h),
        !sdat(h.edat.flags),
        h.npd.license % 4 == 1 || h.npd.license % 4 == 2,
        rifkey == Seq::new(16, |k: int| 0u8),
    ensures
        x.result == Err::<(), Error>(Error::RifKeyNeeded),
        x.key is None,
        x.check is None,
        x.hashes is Some,
        x.output@.len() == 0,
        x.log@.len() == 0,
{
    reveal(container::is_extraction);
    law_flag_bits(h.edat.flags);
    law_key_by_license(keys, h.edat, h.npd, devklic, rifkey);
    assert forall|k: int| 0 <= k < 16 implies rifkey[k] == 0 by {}
}

/// What opening and sealing do in general: derive both keys, cipher the data, and
/// tag the data as it is stored. The first step that fails gives the error.
pub proof fn law_opening_and_sealing(
    keys: KeySet,
    hash_mode: u32,
    crypto_mode: u32,
    version4: bool,
    data: Seq<u8>,
    key: Seq<u8>,
    iv: Seq<u8>,
    hash: Seq<u8>,
    test: Seq<u8>,
)
    ensures
        ({
            let opened = crypto::opened(
                keys,
                hash_mode,
                crypto_mode,
                version4,
                data,
                key,
                iv,
                hash,
                test,
            );
            let sealed = crypto::sealed(
                keys,
                hash_mode,
                crypto_mode,
                version4,
                data,
                key,
                iv,
                hash,
            );
            match (
                crypto::derived_key(keys, crypto_mode, version4, key, iv),
                crypto::derived_hash(keys, hash_mode, version4, hash),
            ) {
                (Err(e), _) => opened == Err::<(Seq<u8>, bool), Error>(e) && sealed == Err::<
                    (Seq<u8>, Seq<u8>),
                    Error,
                >(e),
                (Ok(_), Err(e)) => opened == Err::<(Seq<u8>, bool), Error>(e) && sealed == Err::<
                    (Seq<u8>, Seq<u8>),
                    Error,
                >(e),
                (Ok((k, v)), Ok(h)) => {
                    &&& match crypto::ciphered(true, crypto_mode, k, v, data) {
                        Err(e) => opened == Err::<(Seq<u8>, bool), Error>(e),
                        Ok(out) => match crypto::tagged(hash_mode, h, data) {
                            Err(e) => opened == Err::<(Seq<u8>, bool), Error>(e),
                            Ok(tag) => opened == Ok::<(Seq<u8>, bool), Error>(
                                (out, tag.take(16) == test.take(16)),
                            ),
                        },
                    }
                    &&& match crypto::ciphered(false, crypto_mode, k, v, data) {
                        Err(e) => sealed == Err::<(Seq<u8>, Seq<u8>), Error>(e),
                        Ok(out) => match crypto::tagged(hash_mode, h, out) {
                            Err(e) => sealed == Err::<(Seq<u8>, Seq<u8>), Error>(e),
                            Ok(tag) => sealed == Ok::<(Seq<u8>, Seq<u8>), Error>((out, tag)),
                        },
                    }
                },
            }
        }),
{
}

/// A block that is no whole number of cipher blocks is refused where it is to be
/// encrypted or decrypted, and is otherwise taken as it is.
pub proof fn law_unaligned_block(
    keys: KeySet,
    flags: u32,
    npd: NpdHeader,
    key: Seq<u8>,
    i: u32,
    data: Seq<u8>,
    tag: Seq<u8>,
)
    requires
        data.len() % 16 != 0,
    ensures
        ({
            let sealed = pack::block_sealed(keys, flags, npd, key, i, data);
            let opened = unpack::block_opened(keys, flags, npd, key, i, data, tag);
            if clear(flags) || unencrypted(flags) {
                &&& sealed matches Ok((out, _))
                &&& out == data
                &&& opened matches Ok((plain, ok))
                &&& plain == data
                &&& ok == (clear(flags) || tag_of(keys, flags, npd, key, i, data).take(16)
                    == tag.take(16))
            } else {
                &&& sealed == Err::<(Seq<u8>, Seq<u8>), Error>(Error::CbcLength)
                &&& opened == Err::<(Seq<u8>, bool), Error>(Error::CbcLength)
            }
        }),
{
    reveal(pack::block_sealed);
    reveal(unpack::block_opened);
    law_flag_bits(flags);
    lemma_block_keys(keys, flags, npd, key, i);
    assert(util::zeros(4) =~= seq![0u8, 0, 0, 0]);
}

} // verus!
