//! Reading the payload back out of a container.

use vstd::prelude::*;

use crate::blocks;
use crate::constants::{
    KeySet, EDAT_COMPRESSED_FLAG, EDAT_DEBUG_DATA_FLAG, EDAT_FLAG_0X20,
};
use crate::crypto;
use crate::crypto::decrypt_and_verify;
use crate::error::Error;
use crate::image;
use crate::image::take_at;
use crate::lz;
use crate::npdata::{sixteen_at, u32_at, EdatHeader, NpdHeader};
use crate::primitives::MAX_MAC_INPUT;
use crate::util;
use crate::util::xor16;

verus! {

/// What is known of a block after it was read.
#[derive(Clone, Copy, Debug, PartialEq, Eq)]
pub struct BlockReport {
    /// Where its data lies.
    pub offset: u64,
    /// How many bytes of data it has, without padding.
    pub length: u64,
    /// Whether its tag matches. Blocks in the clear have none to check.
    pub tag_ok: bool,
    /// Whether its data is compressed.
    pub packed: bool,
    /// How many bytes it decompressed to, if it was compressed and could be
    /// decompressed.
    pub unpacked: Option<u64>,
    /// How many payload bytes the header still promises after it.
    pub left: u64,
}

/// Where a block lies and what its metadata says of it.
pub struct Placed {
    /// Where the data lies.
    pub offset: nat,
    /// How many bytes of data there are, without padding.
    pub length: nat,
    /// Whether the data is compressed.
    pub packed: bool,
    /// The tag.
    pub tag: Seq<u8>,
}

/// What the metadata says of a block. None where the container ends before it.
pub open spec fn placed(src: Seq<u8>, edat: EdatHeader, i: nat) -> Option<Placed> {
    match image::read_at(
        src,
        blocks::section_at(edat, i) as int,
        blocks::section_size(edat.flags) as int,
    ) {
        None => None,
        Some(m) => Some(
            if blocks::flagged(edat.flags, EDAT_COMPRESSED_FLAG) {
                let rest = blocks::section_unmasked(m);
                Placed {
                    offset: (((util::be_u32(rest) as u64) << 4u64) | util::be_u32(
                        rest.skip(4),
                    ) as u64) as nat,
                    length: util::be_u32(rest.skip(8)) as nat,
                    packed: util::be_u32(rest.skip(12)) != 0,
                    tag: m.take(16),
                }
            } else {
                Placed {
                    offset: blocks::data_at(edat, i),
                    length: blocks::chunk_len(edat, i),
                    packed: false,
                    tag: if blocks::flagged(edat.flags, EDAT_FLAG_0X20) {
                        util::xor_bytes(m.take(16), m.skip(16))
                    } else {
                        m
                    },
                }
            },
        ),
    }
}

/// A block's data in the clear, and whether its tag matches.
#[verifier::opaque]
pub open spec fn block_opened(
    keys: KeySet,
    flags: u32,
    npd: NpdHeader,
    crypt_key: Seq<u8>,
    i: u32,
    data: Seq<u8>,
    tag: Seq<u8>,
) -> Result<(Seq<u8>, bool), Error> {
    if blocks::flagged(flags, EDAT_DEBUG_DATA_FLAG) {
        Ok((data, true))
    } else {
        crypto::opened(
            keys,
            blocks::block_hash_mode(flags),
            blocks::block_crypto_mode(flags),
            npd.version == 4,
            data,
            blocks::block_key(npd, crypt_key, i),
            blocks::block_iv(npd),
            blocks::block_hash_key(flags, npd, crypt_key, i),
            tag,
        )
    }
}

/// What a block in the clear adds to the payload, and how many payload bytes
/// are left after it: what it decompresses to, or its data without padding.
pub open spec fn emitted(left: u64, packed: bool, length: nat, plain: Seq<u8>) -> Result<
    (Seq<u8>, u64),
    Error,
> {
    if packed {
        match lz::decompressed(plain, (left as usize) as nat) {
            Err(e) => Err(e),
            Ok(out) => Ok((out, (left - out.len()) as u64)),
        }
    } else {
        Ok((plain.take(length as int), left))
    }
}

/// The payload so far, how many bytes of it the header still promises, and
/// what is known of each block.
#[verifier::ext_equal]
pub struct Unpacked {
    /// The payload so far.
    pub out: Seq<u8>,
    /// How many bytes the header still promises.
    pub left: u64,
    /// One report for each block that could be read.
    pub log: Seq<BlockReport>,
}

/// What is known of a block after it was read. `added` is how many bytes it
/// decompressed to, where it did.
pub open spec fn reported(p: Placed, ok: bool, added: Option<u64>, left: u64) -> BlockReport {
    BlockReport {
        offset: p.offset as u64,
        length: p.length as u64,
        tag_ok: ok,
        packed: p.packed,
        unpacked: added,
        left,
    }
}

/// One block more of the payload. A block that was read and cannot be
/// decompressed adds its report alone.
#[verifier::opaque]
pub open spec fn block_unpacked(
    keys: KeySet,
    src: Seq<u8>,
    edat: EdatHeader,
    npd: NpdHeader,
    crypt_key: Seq<u8>,
    i: nat,
    s: Unpacked,
) -> (Unpacked, Result<(), Error>) {
    match placed(src, edat, i) {
        None => (s, Err(Error::UnexpectedEof)),
        Some(p) => match image::read_at(src, p.offset as int, blocks::padded(p.length) as int) {
            None => (s, Err(Error::UnexpectedEof)),
            Some(data) => match block_opened(
                keys,
                edat.flags,
                npd,
                crypt_key,
                i as u32,
                data,
                p.tag,
            ) {
                Err(e) => (s, Err(e)),
                Ok((plain, ok)) => match emitted(s.left, p.packed, p.length, plain) {
                    Err(e) => (
                        Unpacked { log: s.log.push(reported(p, ok, None, s.left)), ..s },
                        Err(e),
                    ),
                    Ok((bytes, left)) => {
                        let added = if p.packed {
                            Some(bytes.len() as u64)
                        } else {
                            None
                        };
                        (
                            Unpacked {
                                out: s.out + bytes,
                                left,
                                log: s.log.push(reported(p, ok, added, left)),
                            },
                            Ok(()),
                        )
                    },
                },
            },
        },
    }
}

/// The payload from block `i` on. The first block that cannot be read ends it.
pub open spec fn unpacked_from(
    keys: KeySet,
    src: Seq<u8>,
    edat: EdatHeader,
    npd: NpdHeader,
    crypt_key: Seq<u8>,
    i: nat,
    s: Unpacked,
) -> (Unpacked, Result<(), Error>)
    decreases blocks::blocks_of(edat) - i,
{
    if i >= blocks::blocks_of(edat) {
        (s, Ok(()))
    } else {
        let (t, result) = block_unpacked(keys, src, edat, npd, crypt_key, i, s);
        if result is Err {
            (t, result)
        } else {
            unpacked_from(keys, src, edat, npd, crypt_key, i + 1, t)
        }
    }
}

/// The whole payload.
pub open spec fn unpacked(
    keys: KeySet,
    src: Seq<u8>,
    edat: EdatHeader,
    npd: NpdHeader,
    crypt_key: Seq<u8>,
    s: Unpacked,
) -> (Unpacked, Result<(), Error>) {
    if edat.block_size == 0 {
        (s, Err(Error::ZeroBlockSize))
    } else {
        unpacked_from(keys, src, edat, npd, crypt_key, 0, s)
    }
}

/// Where a block lies and what its metadata says of it.
struct BlockPlace {
    offset: u64,
    length: u32,
    packed: bool,
    tag: [u8; 16],
}

impl BlockPlace {
    spec fn is(self, p: Placed) -> bool {
        &&& self.offset == p.offset
        &&& self.length == p.length
        &&& self.packed == p.packed
        &&& self.tag@ == p.tag
    }
}

/// Reads the metadata of a block.
fn place_block(src: &[u8], edat: &EdatHeader, blocks: u32, i: u32) -> (r: Result<
    BlockPlace,
    Error,
>)
    requires
        edat.block_size != 0,
        blocks == blocks::blocks_of(*edat),
        i < blocks,
    ensures
        match r {
            Ok(p) => placed(src@, *edat, i as nat) matches Some(q) && p.is(q),
            Err(e) => e == Error::UnexpectedEof && match placed(src@, *edat, i as nat) {
                None => true,
                Some(q) => image::read_at(
                    src@,
                    q.offset as int,
                    blocks::padded(q.length) as int,
                ) is None,
            },
        },
{
    let m = match take_at(
        src,
        blocks::section_offset(edat, i),
        blocks::metadata_section_size(edat),
    ) {
        Ok(m) => m,
        Err(e) => {
            return Err(e);
        },
    };
    assert(m@.take(16) =~= m@.subrange(0, 16));
    if (edat.flags & EDAT_COMPRESSED_FLAG) != 0 {
        let metadata: [u8; 32] = thirty_two(m);
        let rest: [u8; 16] = blocks::dec_section(&metadata);
        let hi: u64 = u32_at(&rest, 0) as u64;
        let lo: u64 = u32_at(&rest, 4) as u64;
        assert(rest@.skip(0) =~= rest@);
        return Ok(
            BlockPlace {
                offset: (hi << 4u64) | lo,
                length: u32_at(&rest, 8),
                packed: u32_at(&rest, 12) != 0,
                tag: sixteen_at(m, 0),
            },
        );
    }
    let offset: u128 = blocks::data_offset(edat, blocks, i);
    let length: u32 = blocks::chunk_size(edat, blocks, i) as u32;
    if offset > src.len() as u128 {
        return Err(Error::UnexpectedEof);
    }
    let tag: [u8; 16] = if (edat.flags & EDAT_FLAG_0X20) != 0 {
        assert(m@.skip(16) =~= m@.subrange(16, 32));
        xor16(&sixteen_at(m, 0), &sixteen_at(m, 16))
    } else {
        assert(m@.take(16) =~= m@);
        sixteen_at(m, 0)
    };
    Ok(BlockPlace { offset: offset as u64, length, packed: false, tag })
}

/// The first 32 bytes.
pub(crate) fn thirty_two(v: &[u8]) -> (out: [u8; 32])
    requires
        v@.len() == 32,
    ensures
        out@ == v@,
{
    let mut out: [u8; 32] = [0u8; 32];
    let mut i: usize = 0;
    while i < 32
        invariant
            i <= 32,
            v@.len() == 32,
            forall|j: int| 0 <= j < i ==> #[trigger] out[j] == v@[j],
        decreases 32 - i,
    {
        out[i] = v[i];
        i = i + 1;
    }
    assert(out@ =~= v@);
    out
}

/// Brings a block's data into the clear and checks its tag.
pub fn open_block(
    keys: &KeySet,
    flags: u32,
    npd: &NpdHeader,
    crypt_key: &[u8; 16],
    i: u32,
    data: &[u8],
    tag: &[u8; 16],
) -> (r: Result<(Vec<u8>, bool), Error>)
    requires
        data@.len() <= MAX_MAC_INPUT,
    ensures
        match r {
            Ok((plain, ok)) => plain@.len() == data@.len() && block_opened(
                *keys,
                flags,
                *npd,
                crypt_key@,
                i,
                data@,
                tag@,
            ) == Ok::<(Seq<u8>, bool), Error>((plain@, ok)),
            Err(e) => block_opened(*keys, flags, *npd, crypt_key@, i, data@, tag@) == Err::<
                (Seq<u8>, bool),
                Error,
            >(e),
        },
{
    reveal(block_opened);
    if (flags & EDAT_DEBUG_DATA_FLAG) != 0 {
        return Ok((vstd::slice::slice_to_vec(data), true));
    }
    let (key, hash) = blocks::keys_of_block(flags, npd, crypt_key, i);
    decrypt_and_verify(
        keys,
        blocks::hash_mode_of(flags),
        blocks::crypto_mode_of(flags),
        npd.version == 4,
        data,
        &key,
        &blocks::iv_of_blocks(npd),
        &hash,
        tag,
    )
}

/// Adds a block in the clear to the payload. Returns how many bytes it
/// decompressed to, if it was compressed.
pub fn emit_block(writer: &mut Vec<u8>, left: &mut u64, packed: bool, length: usize, plain: &[u8])
    -> (r: Result<Option<u64>, Error>)
    requires
        length <= plain@.len(),
    ensures
        match r {
            Ok(n) => emitted(*old(left), packed, length as nat, plain@) matches Ok((bytes, rest))
                && final(writer)@ == old(writer)@ + bytes && *final(left) == rest && n == (
            if packed {
                Some(bytes.len() as u64)
            } else {
                None
            }),
            Err(e) => emitted(*old(left), packed, length as nat, plain@) == Err::<
                (Seq<u8>, u64),
                Error,
            >(e) && final(writer)@ == old(writer)@ && *final(left) == *old(left),
        },
{
    if packed {
        match lz::decompress(plain, *left as usize) {
            Ok(out) => {
                proof {
                    lz::law_decompressed_fits(plain@, (*left as usize) as nat);
                    lemma_as_usize(*left);
                }
                let n: u64 = out.len() as u64;
                writer.extend_from_slice(&out);
                *left = *left - n;
                Ok(Some(n))
            },
            Err(e) => Err(e),
        }
    } else {
        writer.extend_from_slice(vstd::slice::slice_subrange(plain, 0, length));
        assert(plain@.subrange(0, length as int) =~= plain@.take(length as int));
        Ok(None)
    }
}

proof fn lemma_as_usize(x: u64)
    ensures
        (x as usize) <= x,
{
    assert((x as usize) <= x) by (bit_vector);
}

/// Decrypts one block, reports on it and adds its payload to `writer`.
fn unpack_block(
    keys: &KeySet,
    reader: &[u8],
    edat: &EdatHeader,
    npd: &NpdHeader,
    crypt_key: &[u8; 16],
    blocks: u32,
    i: u32,
    writer: &mut Vec<u8>,
    left: &mut u64,
    log: &mut Vec<BlockReport>,
) -> (r: Result<(), Error>)
    requires
        edat.block_size != 0,
        blocks == blocks::blocks_of(*edat),
        i < blocks,
    ensures
        ({
            let before = Unpacked { out: old(writer)@, left: *old(left), log: old(log)@ };
            let after = Unpacked { out: final(writer)@, left: *final(left), log: final(log)@ };
            block_unpacked(*keys, reader@, *edat, *npd, crypt_key@, i as nat, before) == (after, r)
        }),
{
    reveal(block_unpacked);
    let place: BlockPlace = match place_block(reader, edat, blocks, i) {
        Ok(place) => place,
        Err(e) => {
            return Err(e);
        },
    };
    let size: u64 = blocks::padded_size(place.length as u64);
    let data = match take_at(reader, place.offset as u128, size) {
        Ok(data) => data,
        Err(e) => {
            return Err(e);
        },
    };
    let (plain, ok) = match open_block(keys, edat.flags, npd, crypt_key, i, data, &place.tag) {
        Ok(pair) => pair,
        Err(e) => {
            return Err(e);
        },
    };
    let emitted: Result<Option<u64>, Error> = emit_block(
        writer,
        left,
        place.packed,
        place.length as usize,
        &plain,
    );
    let unpacked: Option<u64> = match emitted {
        Ok(n) => n,
        Err(_) => None,
    };
    log.push(
        BlockReport {
            offset: place.offset,
            length: place.length as u64,
            tag_ok: ok,
            packed: place.packed,
            unpacked,
            left: *left,
        },
    );
    match emitted {
        Ok(_) => Ok(()),
        Err(e) => Err(e),
    }
}

/// Decrypts the blocks of a container, in order, and adds their payload to
/// `writer`. What the header promises shrinks with every compressed block. The
/// blocks before one that cannot be read stay written. Every block whose data
/// was read adds a report, also one that cannot be decompressed.
pub fn decrypt_data(
    keys: &KeySet,
    reader: &[u8],
    writer: &mut Vec<u8>,
    edat: &mut EdatHeader,
    npd: &NpdHeader,
    crypt_key: &[u8; 16],
    log: &mut Vec<BlockReport>,
) -> (r: Result<(), Error>)
    ensures
        ({
            let start = Unpacked {
                out: old(writer)@,
                left: old(edat).file_size,
                log: old(log)@,
            };
            let (end, result) = unpacked(*keys, reader@, *old(edat), *npd, crypt_key@, start);
            &&& final(writer)@ == end.out
            &&& *final(edat) == (EdatHeader { file_size: end.left, ..*old(edat) })
            &&& final(log)@ == end.log
            &&& r == result
        }),
{
    let whole: EdatHeader = *edat;
    let blocks: u32 = match blocks::block_count(&whole) {
        Ok(blocks) => blocks,
        Err(e) => {
            return Err(e);
        },
    };
    let mut left: u64 = edat.file_size;
    let ghost goal = unpacked(
        *keys,
        reader@,
        whole,
        *npd,
        crypt_key@,
        Unpacked { out: writer@, left, log: log@ },
    );
    let mut i: u32 = 0;
    while i < blocks
        invariant
            i <= blocks,
            whole == *old(edat),
            whole.block_size != 0,
            blocks == blocks::blocks_of(whole),
            goal == unpacked(
                *keys,
                reader@,
                whole,
                *npd,
                crypt_key@,
                Unpacked { out: old(writer)@, left: whole.file_size, log: old(log)@ },
            ),
            *edat == (EdatHeader { file_size: left, ..whole }),
            goal == unpacked_from(
                *keys,
                reader@,
                whole,
                *npd,
                crypt_key@,
                i as nat,
                Unpacked { out: writer@, left, log: log@ },
            ),
        decreases blocks - i,
    {
        let step: Result<(), Error> = unpack_block(
            keys,
            reader,
            &whole,
            npd,
            crypt_key,
            blocks,
            i,
            writer,
            &mut left,
            log,
        );
        edat.file_size = left;
        match step {
            Ok(()) => {},
            Err(e) => {
                return Err(e);
            },
        }
        i = i + 1;
    }
    Ok(())
}

} // verus!
