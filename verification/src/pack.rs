//! Writing a payload into a container.

use vstd::prelude::*;

use crate::blocks;
use crate::constants::{
    KeySet, EDAT_COMPRESSED_FLAG, EDAT_DEBUG_DATA_FLAG, EDAT_FLAG_0X02, EDAT_FLAG_0X20, SDAT_FLAG,
};
use crate::crypto;
use crate::crypto::encrypt_and_hash;
use crate::error::Error;
use crate::image;
use crate::image::{take_at, Image, Tape};
use crate::npdata::{push_u64, to_be_u32, EdatHeader, NpdHeader};
use crate::primitives::MAX_MAC_INPUT;
use crate::unpack;
use crate::unpack::Unpacked;
use crate::util;
use crate::util::xor16;

verus! {

/// The bytes that end a container: `EDATA` or `SDATA`, and the packager's
/// version.
pub open spec fn footer(version: u32, is_sdat: bool) -> Seq<u8> {
    seq![
        if is_sdat {
            0x53u8
        } else {
            0x45u8
        },
        0x44,
        0x41,
        0x54,
        0x41,
        0x20,
    ] + (if version <= 1 {
        seq![0x70u8, 0x61, 0x63, 0x6B, 0x61, 0x67, 0x65, 0x72, 0, 0]
    } else if version == 2 {
        seq![0x32u8, 0x2E, 0x34, 0x2E, 0x30, 0x2E, 0x57, 0, 0, 0]
    } else if version == 3 {
        seq![0x33u8, 0x2E, 0x33, 0x2E, 0x30, 0x2E, 0x57, 0, 0, 0]
    } else {
        seq![0x34u8, 0x2E, 0x30, 0x2E, 0x30, 0x2E, 0x57, 0, 0, 0]
    })
}

/// The payload bytes of a block. None where the payload ends before them.
pub open spec fn chunk(src: Seq<u8>, edat: EdatHeader, i: nat) -> Option<Seq<u8>> {
    image::read_at(
        src,
        (i * edat.block_size as nat) as int,
        blocks::chunk_len(edat, i) as int,
    )
}

/// Bytes padded with zeros to whole cipher blocks.
pub open spec fn zero_padded(bytes: Seq<u8>) -> Seq<u8> {
    bytes + util::zeros((blocks::padded(bytes.len()) - bytes.len()) as nat)
}

/// A block's data as it is stored, and its tag. Blocks in the clear have a tag
/// of zeros.
#[verifier::opaque]
pub open spec fn block_sealed(
    keys: KeySet,
    flags: u32,
    npd: NpdHeader,
    crypt_key: Seq<u8>,
    i: u32,
    plain: Seq<u8>,
) -> Result<(Seq<u8>, Seq<u8>), Error> {
    if blocks::flagged(flags, EDAT_DEBUG_DATA_FLAG) {
        Ok((plain, util::zeros(0x14)))
    } else {
        crypto::sealed(
            keys,
            blocks::block_hash_mode(flags),
            blocks::block_crypto_mode(flags),
            npd.version == 4,
            plain,
            blocks::block_key(npd, crypt_key, i),
            blocks::block_iv(npd),
            blocks::block_hash_key(flags, npd, crypt_key, i),
        )
    }
}

/// The offset, the length and the end mark that a compressed container keeps
/// for a block.
pub open spec fn place_record(edat: EdatHeader, i: nat) -> Seq<u8> {
    util::be_bytes_u64(blocks::data_at(edat, i) as u64) + util::be_bytes_u32(
        blocks::chunk_len(edat, i) as u32,
    ) + util::be_bytes_u32(0)
}

/// The metadata of a block: the tag, followed by the block's place or hidden
/// under a mask where the layout asks for that.
#[verifier::opaque]
pub open spec fn section(
    edat: EdatHeader,
    npd: NpdHeader,
    i: nat,
    tag: Seq<u8>,
    mask: Seq<u8>,
) -> Seq<u8> {
    let short = tag.take(16);
    if blocks::flagged(edat.flags, EDAT_COMPRESSED_FLAG) {
        let open = short + place_record(edat, i);
        if npd.version <= 1 {
            open
        } else {
            short + blocks::section_unmasked(open)
        }
    } else if blocks::flagged(edat.flags, EDAT_FLAG_0X20) {
        util::xor_bytes(short, mask) + mask
    } else {
        short
    }
}

/// The container after a block is written. Blocks in the clear get no
/// metadata.
#[verifier::opaque]
pub open spec fn block_stored(
    tape: Tape,
    edat: EdatHeader,
    npd: NpdHeader,
    i: nat,
    data: Seq<u8>,
    tag: Seq<u8>,
    mask: Seq<u8>,
) -> Tape {
    let ready = if blocks::flagged(edat.flags, EDAT_DEBUG_DATA_FLAG) {
        tape
    } else {
        tape.at(blocks::section_at(edat, i) as int).written(section(edat, npd, i, tag, mask))
    };
    ready.at(blocks::data_at(edat, i) as int).written(data)
}

/// The mask over a block's tag, in the layout that has one.
pub open spec fn mask_of(edat: EdatHeader, masks: Seq<[u8; 16]>, i: nat) -> Seq<u8> {
    if blocks::flagged(edat.flags, EDAT_FLAG_0X20) && !blocks::flagged(
        edat.flags,
        EDAT_COMPRESSED_FLAG,
    ) {
        masks[i as int]@
    } else {
        util::zeros(16)
    }
}

/// One block more of the container.
#[verifier::opaque]
pub open spec fn block_packed(
    keys: KeySet,
    src: Seq<u8>,
    edat: EdatHeader,
    npd: NpdHeader,
    crypt_key: Seq<u8>,
    masks: Seq<[u8; 16]>,
    i: nat,
    tape: Tape,
) -> Result<Tape, Error> {
    match chunk(src, edat, i) {
        None => Err(Error::UnexpectedEof),
        Some(bytes) => match block_sealed(
            keys,
            edat.flags,
            npd,
            crypt_key,
            i as u32,
            zero_padded(bytes),
        ) {
            Err(e) => Err(e),
            Ok((data, tag)) => Ok(
                block_stored(tape, edat, npd, i, data, tag, mask_of(edat, masks, i)),
            ),
        },
    }
}

/// The container from block `i` on. The first block that the payload does not
/// hold ends it.
pub open spec fn packed_from(
    keys: KeySet,
    src: Seq<u8>,
    edat: EdatHeader,
    npd: NpdHeader,
    crypt_key: Seq<u8>,
    masks: Seq<[u8; 16]>,
    i: nat,
    tape: Tape,
) -> (Tape, Result<(), Error>)
    decreases blocks::blocks_of(edat) - i,
{
    if i >= blocks::blocks_of(edat) {
        (tape, Ok(()))
    } else {
        match block_packed(keys, src, edat, npd, crypt_key, masks, i, tape) {
            Err(e) => (tape, Err(e)),
            Ok(t) => packed_from(keys, src, edat, npd, crypt_key, masks, i + 1, t),
        }
    }
}

/// All blocks, and the footer behind the last of them.
#[verifier::opaque]
pub open spec fn packed(
    keys: KeySet,
    src: Seq<u8>,
    edat: EdatHeader,
    npd: NpdHeader,
    crypt_key: Seq<u8>,
    masks: Seq<[u8; 16]>,
    tape: Tape,
) -> (Tape, Result<(), Error>) {
    if edat.block_size == 0 {
        (tape, Err(Error::ZeroBlockSize))
    } else {
        let (t, result) = packed_from(keys, src, edat, npd, crypt_key, masks, 0, tape);
        match result {
            Err(e) => (t, Err(e)),
            Ok(_) => (
                (if edat.file_size == 0 {
                    t.at(0x100)
                } else {
                    t
                }).written(footer(npd.version, edat.flags & SDAT_FLAG == SDAT_FLAG)),
                Ok(()),
            ),
        }
    }
}

/// The bytes that end a container.
pub fn footer_for(version: u32, is_sdat: bool) -> (out: [u8; 16])
    ensures
        out@ == footer(version, is_sdat),
{
    let first: u8 = if is_sdat {
        0x53
    } else {
        0x45
    };
    let out: [u8; 16] = if version <= 1 {
        [
            first,
            0x44,
            0x41,
            0x54,
            0x41,
            0x20,
            0x70,
            0x61,
            0x63,
            0x6B,
            0x61,
            0x67,
            0x65,
            0x72,
            0,
            0,
        ]
    } else {
        let (major, minor): (u8, u8) = if version == 2 {
            (0x32, 0x34)
        } else if version == 3 {
            (0x33, 0x33)
        } else {
            (0x34, 0x30)
        };
        [first, 0x44, 0x41, 0x54, 0x41, 0x20, major, 0x2E, minor, 0x2E, 0x30, 0x2E, 0x57, 0, 0, 0]
    };
    assert(out@ =~= footer(version, is_sdat));
    out
}

/// Encrypts and tags a block. Opening the result with its tag gives the block
/// back, with a matching tag.
pub fn seal_block(
    keys: &KeySet,
    flags: u32,
    npd: &NpdHeader,
    crypt_key: &[u8; 16],
    i: u32,
    plain: Vec<u8>,
) -> (r: Result<(Vec<u8>, Vec<u8>), Error>)
    requires
        plain@.len() <= MAX_MAC_INPUT,
    ensures
        r is Ok == (plain@.len() % 16 == 0 || blocks::block_crypto_mode(flags) & 0xFF == 1
            || blocks::flagged(flags, EDAT_DEBUG_DATA_FLAG)),
        match r {
            Ok((data, tag)) => {
                &&& block_sealed(*keys, flags, *npd, crypt_key@, i, plain@) == Ok::<
                    (Seq<u8>, Seq<u8>),
                    Error,
                >((data@, tag@))
                &&& data@.len() == plain@.len()
                &&& tag@.len() >= 16
                &&& forall|test: Seq<u8>|
                    test.take(16) == tag@.take(16) ==> #[trigger] unpack::block_opened(
                        *keys,
                        flags,
                        *npd,
                        crypt_key@,
                        i,
                        data@,
                        test,
                    ) == Ok::<(Seq<u8>, bool), Error>((plain@, true))
            },
            Err(e) => block_sealed(*keys, flags, *npd, crypt_key@, i, plain@) == Err::<
                (Seq<u8>, Seq<u8>),
                Error,
            >(e),
        },
{
    reveal(block_sealed);
    reveal(unpack::block_opened);
    if (flags & EDAT_DEBUG_DATA_FLAG) != 0 {
        let none: [u8; 0x14] = [0u8; 0x14];
        assert(none@ =~= util::zeros(0x14));
        return Ok((plain, vstd::slice::slice_to_vec(&none)));
    }
    proof {
        blocks::law_block_modes_known(flags);
    }
    let (key, hash) = blocks::keys_of_block(flags, npd, crypt_key, i);
    encrypt_and_hash(
        keys,
        blocks::hash_mode_of(flags),
        blocks::crypto_mode_of(flags),
        npd.version == 4,
        &plain,
        &key,
        &blocks::iv_of_blocks(npd),
        &hash,
    )
}

/// The metadata of a block.
fn make_section(
    edat: &EdatHeader,
    npd: &NpdHeader,
    blocks: u32,
    i: u32,
    tag: &[u8],
    mask: &[u8; 16],
) -> (out: Vec<u8>)
    requires
        edat.block_size != 0,
        blocks == blocks::blocks_of(*edat),
        i < blocks,
        tag@.len() >= 16,
        blocks::data_at(*edat, i as nat) <= u64::MAX,
    ensures
        out@ == section(*edat, *npd, i as nat, tag@, mask@),
        out@.len() == blocks::section_size(edat.flags),
{
    reveal(section);
    let short: [u8; 16] = util::first16(tag);
    if (edat.flags & EDAT_COMPRESSED_FLAG) != 0 {
        let mut open: Vec<u8> = vstd::slice::slice_to_vec(&short);
        push_u64(&mut open, blocks::data_offset(edat, blocks, i) as u64);
        open.extend_from_slice(&to_be_u32(blocks::chunk_size(edat, blocks, i) as u32));
        open.extend_from_slice(&to_be_u32(0));
        assert(open@ =~= short@ + place_record(*edat, i as nat));
        if npd.version <= 1 {
            return open;
        }
        let hidden: [u8; 16] = blocks::dec_section(&unpack::thirty_two(&open));
        let mut out: Vec<u8> = vstd::slice::slice_to_vec(&short);
        out.extend_from_slice(&hidden);
        assert(out@ =~= short@ + hidden@);
        out
    } else if (edat.flags & EDAT_FLAG_0X20) != 0 {
        let hidden: [u8; 16] = xor16(&short, mask);
        let mut out: Vec<u8> = vstd::slice::slice_to_vec(&hidden);
        out.extend_from_slice(mask);
        assert(out@ =~= hidden@ + mask@);
        out
    } else {
        vstd::slice::slice_to_vec(&short)
    }
}

/// Writes a block and its metadata.
pub fn store_block(
    writer: &mut Image,
    edat: &EdatHeader,
    npd: &NpdHeader,
    i: u32,
    data: &[u8],
    tag: &[u8],
    mask: &[u8; 16],
)
    requires
        edat.block_size != 0,
        i < blocks::blocks_of(*edat),
        tag@.len() >= 16,
        blocks::section_at(*edat, i as nat) + blocks::section_size(edat.flags) <= usize::MAX,
        blocks::data_at(*edat, i as nat) + data@.len() <= usize::MAX,
    ensures
        final(writer)@ == block_stored(
            old(writer)@,
            *edat,
            *npd,
            i as nat,
            data@,
            tag@,
            mask@,
        ),
{
    reveal(block_stored);
    let blocks: u32 = match blocks::block_count(edat) {
        Ok(blocks) => blocks,
        Err(_) => {
            return;
        },
    };
    if (edat.flags & EDAT_DEBUG_DATA_FLAG) == 0 {
        let metadata: Vec<u8> = make_section(edat, npd, blocks, i, tag, mask);
        writer.seek(blocks::section_offset(edat, i) as usize);
        writer.write_all(&metadata);
    }
    writer.seek(blocks::data_offset(edat, blocks, i) as usize);
    writer.write_all(data);
}

/// Whether a container's layout keeps every block apart and gives its place
/// back: blocks of whole cipher blocks, and compressed containers only from
/// version 2 on, with metadata, and below four gigabytes.
pub open spec fn layout_reads_back(edat: EdatHeader, npd: NpdHeader) -> bool {
    let n = blocks::blocks_of(edat);
    &&& edat.block_size % 16 == 0 || n <= 1
    &&& n > 0 && blocks::flagged(edat.flags, EDAT_COMPRESSED_FLAG) ==> {
        &&& npd.version > 1
        &&& !blocks::flagged(edat.flags, EDAT_DEBUG_DATA_FLAG)
        &&& blocks::data_at(edat, (n - 1) as nat) <= 0xFFFF_FFFF
    }
}

/// Whether block `i` of a container can be read, has a matching tag, and holds
/// these bytes.
#[verifier::opaque]
pub open spec fn reads_back(
    keys: KeySet,
    bytes: Seq<u8>,
    edat: EdatHeader,
    npd: NpdHeader,
    crypt_key: Seq<u8>,
    i: nat,
    payload: Seq<u8>,
) -> bool {
    let at = blocks::data_at(edat, i);
    let n = blocks::chunk_len(edat, i);
    &&& at + blocks::padded(n) <= bytes.len()
    &&& unpack::placed(bytes, edat, i) matches Some(p)
    &&& p.offset == at
    &&& p.length == n
    &&& !p.packed
    &&& unpack::block_opened(
        keys,
        edat.flags,
        npd,
        crypt_key,
        i as u32,
        bytes.subrange(at as int, (at + blocks::padded(n)) as int),
        p.tag,
    ) == Ok::<(Seq<u8>, bool), Error>((zero_padded(payload), true))
}

proof fn lemma_padded(n: nat)
    ensures
        n <= blocks::padded(n) < n + 16,
        blocks::padded(n) % 16 == 0,
        n % 16 == 0 ==> blocks::padded(n) == n,
{
}

proof fn lemma_chunk_len(edat: EdatHeader, i: nat)
    requires
        edat.block_size != 0,
        i < blocks::blocks_of(edat),
    ensures
        0 < blocks::chunk_len(edat, i) <= edat.block_size,
        i + 1 < blocks::blocks_of(edat) ==> blocks::chunk_len(edat, i) == edat.block_size,
{
    assert(0 <= edat.file_size as nat % edat.block_size as nat) by (nonlinear_arith)
        requires
            edat.block_size != 0,
    ;
    assert(edat.file_size as nat % (edat.block_size as nat) < edat.block_size) by (nonlinear_arith)
        requires
            edat.block_size != 0,
    ;
}

/// The metadata of a block ends before its data.
pub(crate) proof fn lemma_section_first(edat: EdatHeader, i: nat)
    requires
        i < blocks::blocks_of(edat),
    ensures
        blocks::section_at(edat, i) + blocks::section_size(edat.flags) <= blocks::data_at(edat, i),
{
    let ss = blocks::section_size(edat.flags);
    let n = blocks::blocks_of(edat);
    assert(0 <= i * edat.block_size as nat) by (nonlinear_arith);
    assert(i * ss + ss <= n * ss) by (nonlinear_arith)
        requires
            i + 1 <= n,
    ;
}

/// Where the data of a block ends, padding and all.
pub open spec fn data_end(edat: EdatHeader, i: nat) -> nat {
    blocks::data_at(edat, i) + blocks::padded(blocks::chunk_len(edat, i))
}

/// The larger of two numbers.
pub open spec fn larger(a: nat, b: nat) -> nat {
    if a > b {
        a
    } else {
        b
    }
}

/// How long a container is: up to the end of the last block, and the footer.
pub open spec fn container_len(edat: EdatHeader) -> nat {
    let n = blocks::blocks_of(edat);
    if n == 0 {
        0x110
    } else {
        data_end(edat, (n - 1) as nat) + 0x10
    }
}

/// The data of a block ends before that of the next one.
proof fn lemma_ends_grow(edat: EdatHeader, i: nat)
    requires
        edat.block_size != 0,
        i + 1 < blocks::blocks_of(edat),
    ensures
        data_end(edat, i) <= data_end(edat, i + 1),
{
    let bs = edat.block_size as nat;
    lemma_chunk_len(edat, i);
    lemma_chunk_len(edat, i + 1);
    lemma_padded(bs);
    lemma_padded(blocks::chunk_len(edat, i + 1));
    assert((i + 1) * bs == i * bs + bs) by (nonlinear_arith);
}

/// Where the regions of two blocks lie: metadata before its own data, and all
/// of an earlier block apart from all of a later one.
pub(crate) proof fn lemma_apart(edat: EdatHeader, j: nat, i: nat)
    requires
        edat.block_size != 0,
        j <= i < blocks::blocks_of(edat),
        edat.block_size % 16 == 0 || blocks::blocks_of(edat) <= 1,
    ensures
        blocks::section_at(edat, i) + blocks::section_size(edat.flags) <= blocks::data_at(edat, i),
        j < i ==> {
            let ss = blocks::section_size(edat.flags);
            let end = blocks::data_at(edat, j) + blocks::padded(blocks::chunk_len(edat, j));
            &&& blocks::section_at(edat, j) + ss <= blocks::section_at(edat, i)
            &&& blocks::section_at(edat, j) + ss <= blocks::data_at(edat, i)
            &&& end <= blocks::data_at(edat, i)
            &&& blocks::section_at(edat, i) + ss <= blocks::data_at(edat, j) || end
                <= blocks::section_at(edat, i)
        },
{
    let bs = edat.block_size as nat;
    let ss = blocks::section_size(edat.flags);
    let n = blocks::blocks_of(edat);
    assert(i * bs >= 0 && j * bs >= 0) by (nonlinear_arith);
    assert(i * ss + ss <= n * ss) by (nonlinear_arith)
        requires
            i + 1 <= n,
    ;
    if j < i {
        assert(j * ss + ss <= i * ss) by (nonlinear_arith)
            requires
                j < i,
        ;
        assert((j + 1) * bs <= i * bs) by (nonlinear_arith)
            requires
                j < i,
        ;
        assert((j + 1) * bs == j * bs + bs) by (nonlinear_arith);
        lemma_chunk_len(edat, j);
        lemma_padded(bs);
    }
}

/// A write that touches neither a block's metadata nor its data leaves the
/// block as it was.
proof fn lemma_kept(
    keys: KeySet,
    bytes: Seq<u8>,
    edat: EdatHeader,
    npd: NpdHeader,
    crypt_key: Seq<u8>,
    j: nat,
    payload: Seq<u8>,
    at: int,
    data: Seq<u8>,
)
    requires
        reads_back(keys, bytes, edat, npd, crypt_key, j, payload),
        at >= 0,
        ({
            let section_end = blocks::section_at(edat, j) + blocks::section_size(edat.flags);
            let data_end = blocks::data_at(edat, j) + blocks::padded(blocks::chunk_len(edat, j));
            &&& section_end <= at || at + data.len() <= blocks::section_at(edat, j)
            &&& data_end <= at || at + data.len() <= blocks::data_at(edat, j)
        }),
    ensures
        reads_back(keys, image::overlaid(bytes, at, data), edat, npd, crypt_key, j, payload),
{
    reveal(reads_back);
    let after = image::overlaid(bytes, at, data);
    let from = blocks::data_at(edat, j) as int;
    let n = blocks::padded(blocks::chunk_len(edat, j)) as int;
    image::law_written_elsewhere(
        bytes,
        at,
        data,
        blocks::section_at(edat, j) as int,
        blocks::section_size(edat.flags) as int,
    );
    assert(unpack::placed(after, edat, j) == unpack::placed(bytes, edat, j));
    if data.len() > 0 {
        assert(after.subrange(from, from + n) =~= bytes.subrange(from, from + n));
    }
}

proof fn lemma_section_len(
    edat: EdatHeader,
    npd: NpdHeader,
    i: nat,
    tag: Seq<u8>,
    mask: Seq<u8>,
)
    requires
        tag.len() >= 16,
        mask.len() == 16,
    ensures
        section(edat, npd, i, tag, mask).len() == blocks::section_size(edat.flags),
{
    reveal(section);
}

/// What the metadata of a block in the clear says of it.
proof fn lemma_clear_places(bytes: Seq<u8>, edat: EdatHeader, i: nat)
    requires
        !blocks::flagged(edat.flags, EDAT_COMPRESSED_FLAG),
        blocks::section_at(edat, i) + blocks::section_size(edat.flags) <= bytes.len(),
    ensures
        unpack::placed(bytes, edat, i) matches Some(p) && p.offset == blocks::data_at(edat, i)
            && p.length == blocks::chunk_len(edat, i) && !p.packed,
{
}

/// What the metadata of a freshly written block says of it.
proof fn lemma_section_places(
    bytes: Seq<u8>,
    edat: EdatHeader,
    npd: NpdHeader,
    i: nat,
    tag: Seq<u8>,
    mask: Seq<u8>,
)
    requires
        edat.block_size != 0,
        i < blocks::blocks_of(edat),
        tag.len() >= 16,
        mask.len() == 16,
        blocks::flagged(edat.flags, EDAT_COMPRESSED_FLAG) ==> npd.version > 1 && blocks::data_at(
            edat,
            i,
        ) <= 0xFFFF_FFFF,
        image::read_at(
            bytes,
            blocks::section_at(edat, i) as int,
            blocks::section_size(edat.flags) as int,
        ) == Some(section(edat, npd, i, tag, mask)),
    ensures
        unpack::placed(bytes, edat, i) matches Some(p) && p.offset == blocks::data_at(edat, i)
            && p.length == blocks::chunk_len(edat, i) && !p.packed && p.tag.take(16) == tag.take(
            16,
        ),
{
    reveal(section);
    let m = section(edat, npd, i, tag, mask);
    let short = tag.take(16);
    assert(short.take(16) =~= short);
    if blocks::flagged(edat.flags, EDAT_COMPRESSED_FLAG) {
        let record = place_record(edat, i);
        let at = blocks::data_at(edat, i) as u64;
        let n = blocks::chunk_len(edat, i) as u32;
        lemma_chunk_len(edat, i);
        assert((short + record).take(16) =~= short);
        assert((short + record).skip(16) =~= record);
        blocks::law_section_mask_involution(short + record);
        assert(blocks::section_unmasked(m) == record);
        assert(m.take(16) =~= short);
        util::law_be_u32_round_trip(0);
        util::law_be_u32_round_trip(at as u32);
        util::law_be_u32_round_trip(n);
        assert(at / 0x1_0000_0000 == 0);
        assert(at % 0x1_0000_0000 == at);
        assert(util::be_u32(record) == util::be_u32(util::be_bytes_u32(0)));
        assert(util::be_u32(record.skip(4)) == util::be_u32(util::be_bytes_u32(at as u32)));
        assert(util::be_u32(record.skip(8)) == util::be_u32(util::be_bytes_u32(n)));
        assert(util::be_u32(record.skip(12)) == util::be_u32(util::be_bytes_u32(0)));
        assert((0u64 << 4u64) | at == at) by (bit_vector);
    } else if blocks::flagged(edat.flags, EDAT_FLAG_0X20) {
        assert(m.take(16) =~= util::xor_bytes(short, mask));
        assert(m.skip(16) =~= mask);
        let tag_read = util::xor_bytes(m.take(16), m.skip(16));
        assert forall|k: int| 0 <= k < 16 implies tag_read[k] == short[k] by {
            let x = short[k];
            let y = mask[k];
            assert((x ^ y) ^ y == x) by (bit_vector);
        }
        assert(tag_read =~= short);
    }
}

/// A block in the clear opens to its data, whatever its tag.
proof fn lemma_clear_opens(
    keys: KeySet,
    flags: u32,
    npd: NpdHeader,
    crypt_key: Seq<u8>,
    i: u32,
    data: Seq<u8>,
    a: Seq<u8>,
    b: Seq<u8>,
)
    requires
        blocks::flagged(flags, EDAT_DEBUG_DATA_FLAG),
    ensures
        unpack::block_opened(keys, flags, npd, crypt_key, i, data, a) == unpack::block_opened(
            keys,
            flags,
            npd,
            crypt_key,
            i,
            data,
            b,
        ),
{
    reveal(unpack::block_opened);
}

/// A freshly written block reads back.
proof fn lemma_stored_reads_back(
    keys: KeySet,
    tape: Tape,
    edat: EdatHeader,
    npd: NpdHeader,
    crypt_key: Seq<u8>,
    i: nat,
    payload: Seq<u8>,
    data: Seq<u8>,
    tag: Seq<u8>,
    mask: Seq<u8>,
)
    requires
        edat.block_size != 0,
        i < blocks::blocks_of(edat),
        layout_reads_back(edat, npd),
        payload.len() == blocks::chunk_len(edat, i),
        data.len() == blocks::padded(payload.len()),
        tag.len() >= 16,
        mask.len() == 16,
        forall|test: Seq<u8>|
            test.take(16) == tag.take(16) ==> #[trigger] unpack::block_opened(
                keys,
                edat.flags,
                npd,
                crypt_key,
                i as u32,
                data,
                test,
            ) == Ok::<(Seq<u8>, bool), Error>((zero_padded(payload), true)),
    ensures
        reads_back(
            keys,
            block_stored(tape, edat, npd, i, data, tag, mask).bytes,
            edat,
            npd,
            crypt_key,
            i,
            payload,
        ),
{
    reveal(reads_back);
    reveal(block_stored);
    let last = (blocks::blocks_of(edat) - 1) as nat;
    let at = blocks::data_at(edat, i) as int;
    let from = blocks::section_at(edat, i) as int;
    let ss = blocks::section_size(edat.flags) as int;
    lemma_apart(edat, i, last);
    lemma_apart(edat, i, i);
    lemma_chunk_len(edat, i);
    lemma_padded(payload.len());
    let m = section(edat, npd, i, tag, mask);
    lemma_section_len(edat, npd, i, tag, mask);
    let debug = blocks::flagged(edat.flags, EDAT_DEBUG_DATA_FLAG);
    let ready = if debug {
        tape.bytes
    } else {
        image::overlaid(tape.bytes, from, m)
    };
    let after = image::overlaid(ready, at, data);
    assert(after == block_stored(tape, edat, npd, i, data, tag, mask).bytes);
    image::law_written_reads_back(ready, at, data);
    assert(after.len() >= at + data.len());
    if debug {
        lemma_clear_places(after, edat, i);
        let p = unpack::placed(after, edat, i)->Some_0;
        lemma_clear_opens(
            keys,
            edat.flags,
            npd,
            crypt_key,
            i as u32,
            data,
            tag,
            p.tag,
        );
    } else {
        image::law_written_reads_back(tape.bytes, from, m);
        image::law_written_elsewhere(ready, at, data, from, ss);
        lemma_section_places(after, edat, npd, i, tag, mask);
    }
}

/// Whether the count of blocks fits its 32 bits.
pub open spec fn counted(edat: EdatHeader) -> bool {
    edat.file_size <= 0xFFFF_FFFF * edat.block_size
}

/// Where block `i` starts in the payload.
pub open spec fn cut(edat: EdatHeader, i: nat) -> nat {
    if i >= blocks::blocks_of(edat) {
        edat.file_size as nat
    } else {
        i * edat.block_size as nat
    }
}

/// The blocks cover the payload, one after the other.
pub proof fn law_blocks_cover(edat: EdatHeader, i: nat)
    requires
        edat.block_size != 0,
        counted(edat),
    ensures
        cut(edat, 0) == 0,
        i < blocks::blocks_of(edat) ==> cut(edat, i) + blocks::chunk_len(edat, i) == cut(
            edat,
            i + 1,
        ) && cut(edat, i + 1) <= edat.file_size,
        edat.file_size == 0 <==> blocks::blocks_of(edat) == 0,
{
    reveal(blocks::blocks_of);
    let f = edat.file_size as int;
    let b = edat.block_size as int;
    let n = (f + b - 1) / b;
    vstd::arithmetic::div_mod::lemma_fundamental_div_mod(f + b - 1, b);
    let r = (f + b - 1) % b;
    assert(0 <= r < b);
    assert(b * (n - 1) == b * n - b) by (nonlinear_arith);
    assert(b * (n - 1) < f <= b * n);
    assert(n - 1 < 0xFFFF_FFFF) by (nonlinear_arith)
        requires
            b * (n - 1) < f,
            f <= 0xFFFF_FFFF * b,
            b > 0,
    ;
    assert(n >= 0) by (nonlinear_arith)
        requires
            b * n >= f,
            f >= 0,
            b > 0,
    ;
    assert(blocks::blocks_of(edat) == n);
    assert(f == 0 <==> n == 0) by (nonlinear_arith)
        requires
            b * (n - 1) < f <= b * n,
            b > 0,
            n >= 0,
            f >= 0,
    ;
    if i < n {
        let k = i as int;
        assert((k + 1) * b == k * b + b) by (nonlinear_arith);
        if k < n - 1 {
            assert((k + 1) * b <= b * (n - 1)) by (nonlinear_arith)
                requires
                    k + 1 <= n - 1,
                    b > 0,
            ;
        } else {
            assert(k * b == b * (n - 1)) by (nonlinear_arith)
                requires
                    k == n - 1,
            ;
            let rest = f - b * (n - 1);
            if rest == b {
                vstd::arithmetic::div_mod::lemma_fundamental_div_mod_converse(f, b, n, 0);
            } else {
                vstd::arithmetic::div_mod::lemma_fundamental_div_mod_converse(f, b, n - 1, rest);
            }
        }
    }
}

proof fn lemma_unpacked_len_from(
    keys: KeySet,
    src: Seq<u8>,
    edat: EdatHeader,
    npd: NpdHeader,
    crypt_key: Seq<u8>,
    i: nat,
    s: Unpacked,
)
    requires
        edat.block_size != 0,
        counted(edat),
        !blocks::flagged(edat.flags, EDAT_COMPRESSED_FLAG),
        i <= blocks::blocks_of(edat),
        s.log.len() == i,
    ensures
        ({
            let (end, result) = unpack::unpacked_from(keys, src, edat, npd, crypt_key, i, s);
            &&& end.left == s.left
            &&& result is Ok ==> end.out.len() - s.out.len() == edat.file_size - cut(edat, i)
            &&& end.out.len() - s.out.len() == cut(edat, end.log.len()) - cut(edat, i)
        }),
    decreases blocks::blocks_of(edat) - i,
{
    if i < blocks::blocks_of(edat) {
        law_blocks_cover(edat, i);
        reveal(unpack::block_unpacked);
        let (t, result) = unpack::block_unpacked(keys, src, edat, npd, crypt_key, i, s);
        if result is Ok {
            let p = unpack::placed(src, edat, i)->Some_0;
            let data = image::read_at(
                src,
                p.offset as int,
                blocks::padded(p.length) as int,
            )->Some_0;
            lemma_padded(p.length);
            lemma_chunk_len(edat, i);
            lemma_opened_len(keys, edat.flags, npd, crypt_key, i as u32, data, p.tag);
            lemma_unpacked_len_from(keys, src, edat, npd, crypt_key, i + 1, t);
        }
    }
}

/// A block in the clear is as long as it was before.
proof fn lemma_opened_len(
    keys: KeySet,
    flags: u32,
    npd: NpdHeader,
    crypt_key: Seq<u8>,
    i: u32,
    data: Seq<u8>,
    tag: Seq<u8>,
)
    ensures
        unpack::block_opened(keys, flags, npd, crypt_key, i, data, tag) matches Ok((plain, _))
            ==> plain.len() == data.len(),
{
    reveal(unpack::block_opened);
    crypto::law_cbc_keeps_length(
        crypto::derived_key(
            keys,
            blocks::block_crypto_mode(flags),
            npd.version == 4,
            blocks::block_key(npd, crypt_key, i),
            blocks::block_iv(npd),
        )->Ok_0.0,
        blocks::block_iv(npd),
        data,
    );
    blocks::law_block_modes_known(flags);
}

/// Unpacking a container that is not compressed gives as many bytes as its
/// header promises, or all full blocks before one that cannot be read.
pub proof fn law_unpacked_len(
    keys: KeySet,
    src: Seq<u8>,
    edat: EdatHeader,
    npd: NpdHeader,
    crypt_key: Seq<u8>,
)
    requires
        edat.block_size != 0,
        counted(edat),
        !blocks::flagged(edat.flags, EDAT_COMPRESSED_FLAG),
    ensures
        ({
            let start = Unpacked { out: Seq::empty(), left: edat.file_size, log: Seq::empty() };
            let (end, result) = unpack::unpacked(keys, src, edat, npd, crypt_key, start);
            &&& end.left == edat.file_size
            &&& end.out.len() == cut(edat, end.log.len())
            &&& result is Ok ==> end.out.len() == edat.file_size
        }),
{
    let start = Unpacked { out: Seq::empty(), left: edat.file_size, log: Seq::empty() };
    law_blocks_cover(edat, 0);
    lemma_unpacked_len_from(keys, src, edat, npd, crypt_key, 0, start);
}

/// Whether a position lies in the metadata of some block.
pub open spec fn in_metadata(edat: EdatHeader, k: int) -> bool {
    exists|i: nat|
        i < blocks::blocks_of(edat) && #[trigger] blocks::section_at(edat, i) <= k && k
            < blocks::section_at(edat, i) + blocks::section_size(edat.flags)
}

/// Whether two containers of one length differ in their metadata alone.
pub open spec fn same_outside_metadata(edat: EdatHeader, a: Seq<u8>, b: Seq<u8>) -> bool {
    &&& a.len() == b.len()
    &&& forall|k: int| 0 <= k < a.len() && !in_metadata(edat, k) ==> #[trigger] a[k] == b[k]
}

/// Whether the padding of a block stays clear of the next block's metadata, or
/// does not matter because no cipher is applied.
pub open spec fn padding_harmless(edat: EdatHeader) -> bool {
    ||| edat.block_size % 16 == 0
    ||| blocks::blocks_of(edat) <= 1
    ||| !blocks::flagged(edat.flags, EDAT_FLAG_0X20)
    ||| blocks::flagged(edat.flags, EDAT_FLAG_0X02)
    ||| blocks::flagged(edat.flags, EDAT_DEBUG_DATA_FLAG)
}

/// Whether two unpackings agree in all but which tags matched.
pub open spec fn same_but_tags(x: Unpacked, y: Unpacked) -> bool {
    &&& x.out == y.out
    &&& x.left == y.left
    &&& x.log.len() == y.log.len()
    &&& forall|k: int|
        0 <= k < x.log.len() ==> #[trigger] x.log[k] == (unpack::BlockReport {
            tag_ok: x.log[k].tag_ok,
            ..y.log[k]
        })
}

/// No metadata lies in a block's payload bytes, nor in its padding where that
/// stays clear of the next block.
proof fn lemma_data_outside_metadata(edat: EdatHeader, i: nat, k: int)
    requires
        edat.block_size != 0,
        !blocks::flagged(edat.flags, EDAT_COMPRESSED_FLAG),
        i < blocks::blocks_of(edat),
        blocks::data_at(edat, i) <= k < blocks::data_at(edat, i) + blocks::padded(
            blocks::chunk_len(edat, i),
        ),
        k < blocks::data_at(edat, i) + blocks::chunk_len(edat, i) || edat.block_size % 16 == 0
            || blocks::blocks_of(edat) <= 1 || !blocks::flagged(edat.flags, EDAT_FLAG_0X20),
    ensures
        !in_metadata(edat, k),
{
    let n = blocks::blocks_of(edat);
    let bs = edat.block_size as nat;
    lemma_chunk_len(edat, i);
    lemma_padded(blocks::chunk_len(edat, i));
    assert forall|j: nat| j < n && #[trigger] blocks::section_at(edat, j) <= k implies !(k
        < blocks::section_at(edat, j) + blocks::section_size(edat.flags)) by {
        if blocks::flagged(edat.flags, EDAT_FLAG_0X20) {
            if j <= i {
                assert(j * bs <= i * bs) by (nonlinear_arith)
                    requires
                        j <= i,
                ;
            } else {
                assert(i * bs + bs <= j * bs) by (nonlinear_arith)
                    requires
                        i + 1 <= j,
                ;
            }
        } else {
            assert(0 <= i * bs) by (nonlinear_arith);
        }
    }
}

/// The tag of a block decides nothing but whether it matches.
proof fn lemma_tag_only_judged(
    keys: KeySet,
    flags: u32,
    npd: NpdHeader,
    crypt_key: Seq<u8>,
    i: u32,
    data: Seq<u8>,
    t: Seq<u8>,
    u: Seq<u8>,
)
    ensures
        match unpack::block_opened(keys, flags, npd, crypt_key, i, data, t) {
            Ok((p, _)) => unpack::block_opened(
                keys,
                flags,
                npd,
                crypt_key,
                i,
                data,
                u,
            ) matches Ok((q, _)) && p == q,
            Err(e) => unpack::block_opened(keys, flags, npd, crypt_key, i, data, u) == Err::<
                (Seq<u8>, bool),
                Error,
            >(e),
        },
{
    reveal(unpack::block_opened);
}

/// A block that is not encrypted opens to its data.
proof fn lemma_opens_as_is(
    keys: KeySet,
    flags: u32,
    npd: NpdHeader,
    crypt_key: Seq<u8>,
    i: u32,
    data: Seq<u8>,
    tag: Seq<u8>,
)
    requires
        blocks::flagged(flags, EDAT_FLAG_0X02) || blocks::flagged(flags, EDAT_DEBUG_DATA_FLAG),
    ensures
        unpack::block_opened(keys, flags, npd, crypt_key, i, data, tag) matches Ok((plain, _))
            && plain == data,
{
    reveal(unpack::block_opened);
    blocks::law_block_modes_known(flags);
    assert(1u32 & 0xFF == 1 && (1u32 | 0x1000_0000) & 0xFF == 1) by (bit_vector);
}

proof fn lemma_tags_change_nothing_from(
    keys: KeySet,
    a: Seq<u8>,
    b: Seq<u8>,
    edat: EdatHeader,
    npd: NpdHeader,
    crypt_key: Seq<u8>,
    i: nat,
    x: Unpacked,
    y: Unpacked,
)
    requires
        edat.block_size != 0,
        !blocks::flagged(edat.flags, EDAT_COMPRESSED_FLAG),
        padding_harmless(edat),
        same_outside_metadata(edat, a, b),
        same_but_tags(x, y),
    ensures
        ({
            let (p, r) = unpack::unpacked_from(keys, a, edat, npd, crypt_key, i, x);
            let (q, s) = unpack::unpacked_from(keys, b, edat, npd, crypt_key, i, y);
            same_but_tags(p, q) && r == s
        }),
    decreases blocks::blocks_of(edat) - i,
{
    if i < blocks::blocks_of(edat) {
        lemma_tags_change_no_block(keys, a, b, edat, npd, crypt_key, i, x, y);
        let (p, r) = unpack::block_unpacked(keys, a, edat, npd, crypt_key, i, x);
        let (q, s) = unpack::block_unpacked(keys, b, edat, npd, crypt_key, i, y);
        if r is Ok {
            lemma_tags_change_nothing_from(keys, a, b, edat, npd, crypt_key, i + 1, p, q);
        }
    }
}

proof fn lemma_tags_change_no_block(
    keys: KeySet,
    a: Seq<u8>,
    b: Seq<u8>,
    edat: EdatHeader,
    npd: NpdHeader,
    crypt_key: Seq<u8>,
    i: nat,
    x: Unpacked,
    y: Unpacked,
)
    requires
        edat.block_size != 0,
        !blocks::flagged(edat.flags, EDAT_COMPRESSED_FLAG),
        padding_harmless(edat),
        same_outside_metadata(edat, a, b),
        same_but_tags(x, y),
        i < blocks::blocks_of(edat),
    ensures
        ({
            let (p, r) = unpack::block_unpacked(keys, a, edat, npd, crypt_key, i, x);
            let (q, s) = unpack::block_unpacked(keys, b, edat, npd, crypt_key, i, y);
            same_but_tags(p, q) && r == s
        }),
{
    reveal(unpack::block_unpacked);
    let n = blocks::chunk_len(edat, i);
    let at = blocks::data_at(edat, i) as int;
    let m = blocks::padded(n) as int;
    lemma_chunk_len(edat, i);
    lemma_padded(n);
    if unpack::placed(a, edat, i) is Some && at + m <= a.len() {
        let t = unpack::placed(a, edat, i)->Some_0.tag;
        let u = unpack::placed(b, edat, i)->Some_0.tag;
        let c = a.subrange(at, at + m);
        let d = b.subrange(at, at + m);
        assert forall|k: int| 0 <= k < n implies c[k] == d[k] by {
            lemma_data_outside_metadata(edat, i, at + k);
            assert(a[at + k] == b[at + k]);
        }
        let number = i as u32;
        if blocks::flagged(edat.flags, EDAT_FLAG_0X02) || blocks::flagged(
            edat.flags,
            EDAT_DEBUG_DATA_FLAG,
        ) {
            lemma_opens_as_is(keys, edat.flags, npd, crypt_key, number, c, t);
            lemma_opens_as_is(keys, edat.flags, npd, crypt_key, number, d, u);
            assert(c.take(n as int) =~= d.take(n as int));
        } else {
            assert forall|k: int| 0 <= k < m implies c[k] == d[k] by {
                lemma_data_outside_metadata(edat, i, at + k);
                assert(a[at + k] == b[at + k]);
            }
            assert(c =~= d);
            lemma_tag_only_judged(keys, edat.flags, npd, crypt_key, number, c, t, u);
        }
    }
}

/// Wrong metadata changes no payload: unpacking two containers that are not
/// compressed and differ in their metadata alone gives the same payload and the
/// same result, and reports that differ in which tags match.
pub proof fn law_tags_change_no_payload(
    keys: KeySet,
    a: Seq<u8>,
    b: Seq<u8>,
    edat: EdatHeader,
    npd: NpdHeader,
    crypt_key: Seq<u8>,
    start: Unpacked,
)
    requires
        !blocks::flagged(edat.flags, EDAT_COMPRESSED_FLAG),
        padding_harmless(edat),
        same_outside_metadata(edat, a, b),
    ensures
        ({
            let (x, r) = unpack::unpacked(keys, a, edat, npd, crypt_key, start);
            let (y, s) = unpack::unpacked(keys, b, edat, npd, crypt_key, start);
            same_but_tags(x, y) && r == s
        }),
{
    if edat.block_size != 0 {
        lemma_tags_change_nothing_from(keys, a, b, edat, npd, crypt_key, 0, start, start);
    }
}

/// A container of whole cipher blocks is as long as its headers, its metadata,
/// its payload rounded up to whole cipher blocks, and the footer.
pub proof fn law_container_len(edat: EdatHeader)
    requires
        edat.block_size != 0,
        counted(edat),
        edat.block_size % 16 == 0 || blocks::blocks_of(edat) <= 1,
    ensures
        container_len(edat) == 0x110 + blocks::blocks_of(edat) * blocks::section_size(edat.flags)
            + blocks::padded(edat.file_size as nat),
{
    let n = blocks::blocks_of(edat);
    let bs = edat.block_size as nat;
    law_blocks_cover(edat, 0);
    if n > 0 {
        let last = (n - 1) as nat;
        law_blocks_cover(edat, last);
        let chunk = blocks::chunk_len(edat, last);
        assert(last * bs + chunk == edat.file_size);
        let q = if n == 1 {
            0
        } else {
            last * (bs / 16)
        };
        assert(last * bs == 16 * q) by {
            if n > 1 {
                let b = bs / 16;
                assert(bs == 16 * b);
                assert(last * (16 * b) == 16 * (last * b)) by (nonlinear_arith);
            }
        }
        assert(blocks::padded(16 * q + chunk) == 16 * q + blocks::padded(chunk));
        let ss = blocks::section_size(edat.flags);
        assert(last * ss + ss == n * ss) by (nonlinear_arith)
            requires
                last + 1 == n,
        ;
    }
}

/// A compressed container of version 2 or later, with metadata, reads back
/// where it is shorter than four gigabytes.
pub proof fn law_short_containers_read_back(edat: EdatHeader, npd: NpdHeader)
    requires
        edat.block_size != 0,
        edat.block_size % 16 == 0,
        blocks::flagged(edat.flags, EDAT_COMPRESSED_FLAG) ==> npd.version >= 2 && !blocks::flagged(
            edat.flags,
            EDAT_DEBUG_DATA_FLAG,
        ) && container_len(edat) < 0x1_0000_0000,
    ensures
        layout_reads_back(edat, npd),
{
}

/// Whether every block of a container reads back as its part of the payload.
#[verifier::opaque]
pub open spec fn all_read_back(
    keys: KeySet,
    bytes: Seq<u8>,
    edat: EdatHeader,
    npd: NpdHeader,
    crypt_key: Seq<u8>,
    src: Seq<u8>,
) -> bool {
    forall|j: nat|
        j < blocks::blocks_of(edat) ==> #[trigger] reads_back(
            keys,
            bytes,
            edat,
            npd,
            crypt_key,
            j,
            chunk(src, edat, j)->Some_0,
        )
}

/// Whether unpacking a container, behind whatever was unpacked before,
/// succeeds, finds every tag matching, and adds this payload. What the header
/// promises does not change.
#[verifier::opaque]
pub open spec fn restores(
    keys: KeySet,
    bytes: Seq<u8>,
    edat: EdatHeader,
    npd: NpdHeader,
    crypt_key: Seq<u8>,
    payload: Seq<u8>,
) -> bool {
    forall|start: Unpacked|
        start.left == edat.file_size ==> adds(
            start,
            #[trigger] unpack::unpacked(keys, bytes, edat, npd, crypt_key, start),
            payload,
        )
}

/// Whether an unpacking succeeded, found every tag matching, and added this
/// payload to what was there.
pub open spec fn adds(
    start: Unpacked,
    outcome: (Unpacked, Result<(), Error>),
    payload: Seq<u8>,
) -> bool {
    let (end, result) = outcome;
    &&& result is Ok
    &&& end.out == start.out + payload
    &&& end.left == start.left
    &&& end.log.len() >= start.log.len()
    &&& end.log.take(start.log.len() as int) == start.log
    &&& forall|k: int| start.log.len() <= k < end.log.len() ==> (#[trigger] end.log[k]).tag_ok
}

proof fn lemma_restores_from(
    keys: KeySet,
    bytes: Seq<u8>,
    edat: EdatHeader,
    npd: NpdHeader,
    crypt_key: Seq<u8>,
    src: Seq<u8>,
    start: Unpacked,
    i: nat,
    s: Unpacked,
)
    requires
        edat.block_size != 0,
        counted(edat),
        edat.file_size <= src.len(),
        i <= blocks::blocks_of(edat),
        all_read_back(keys, bytes, edat, npd, crypt_key, src),
        adds(start, (s, Ok(())), src.take(cut(edat, i) as int)),
    ensures
        adds(
            start,
            unpack::unpacked_from(keys, bytes, edat, npd, crypt_key, i, s),
            src.take(edat.file_size as int),
        ),
    decreases blocks::blocks_of(edat) - i,
{
    if i < blocks::blocks_of(edat) {
        law_blocks_cover(edat, i);
        lemma_chunk_len(edat, i);
        let payload = chunk(src, edat, i)->Some_0;
        reveal(reads_back);
        reveal(all_read_back);
        assert(reads_back(keys, bytes, edat, npd, crypt_key, i, payload));
        assert(payload =~= src.subrange(cut(edat, i) as int, cut(edat, i + 1) as int));
        lemma_padded(payload.len());
        assert(zero_padded(payload).take(payload.len() as int) =~= payload);
        assert(s.out + payload =~= start.out + src.take(cut(edat, i + 1) as int));
        reveal(unpack::block_unpacked);
        let (t, _) = unpack::block_unpacked(keys, bytes, edat, npd, crypt_key, i, s);
        assert(t.log.take(start.log.len() as int) =~= s.log.take(start.log.len() as int));
        lemma_restores_from(keys, bytes, edat, npd, crypt_key, src, start, i + 1, t);
    }
}

/// A container whose blocks all read back gives the payload back: as many bytes
/// of the source as the header promises.
pub proof fn law_read_back_restores(
    keys: KeySet,
    bytes: Seq<u8>,
    edat: EdatHeader,
    npd: NpdHeader,
    crypt_key: Seq<u8>,
    src: Seq<u8>,
)
    requires
        edat.block_size != 0,
        counted(edat),
        edat.file_size <= src.len(),
        all_read_back(keys, bytes, edat, npd, crypt_key, src),
    ensures
        restores(keys, bytes, edat, npd, crypt_key, src.take(edat.file_size as int)),
{
    reveal(restores);
    law_blocks_cover(edat, 0);
    assert forall|start: Unpacked| start.left == edat.file_size implies adds(
        start,
        #[trigger] unpack::unpacked(keys, bytes, edat, npd, crypt_key, start),
        src.take(edat.file_size as int),
    ) by {
        assert(start.out + src.take(0) =~= start.out);
        assert(start.log.take(start.log.len() as int) =~= start.log);
        lemma_restores_from(keys, bytes, edat, npd, crypt_key, src, start, 0, start);
    }
}

/// The payload bytes of a block, padded with zeros to whole cipher blocks.
fn pad_chunk(bytes: &[u8]) -> (out: Vec<u8>)
    requires
        bytes@.len() <= 0xFFFF_FFFF,
    ensures
        out@ == zero_padded(bytes@),
        out@.len() == blocks::padded(bytes@.len()),
{
    let full: u64 = blocks::padded_size(bytes.len() as u64);
    let mut out: Vec<u8> = vstd::slice::slice_to_vec(bytes);
    while (out.len() as u64) < full
        invariant
            bytes@.len() <= out@.len() <= full,
            full == blocks::padded(bytes@.len()),
            out@ == bytes@ + util::zeros((out@.len() - bytes@.len()) as nat),
        decreases full - out@.len(),
    {
        out.push(0);
        assert(out@ =~= bytes@ + util::zeros((out@.len() - bytes@.len()) as nat));
    }
    out
}

/// How far a block's regions reach.
pub(crate) proof fn lemma_ends(edat: EdatHeader, i: nat)
    requires
        i < blocks::blocks_of(edat),
    ensures
        ({
            let reach = 0x100 + i * edat.block_size + 0x20 * blocks::blocks_of(edat);
            &&& 0x100 <= blocks::section_at(edat, i)
            &&& 0x100 <= blocks::data_at(edat, i) <= reach
            &&& blocks::section_at(edat, i) + blocks::section_size(edat.flags) <= reach
        }),
{
    let ss = blocks::section_size(edat.flags);
    let n = blocks::blocks_of(edat);
    assert(i * ss + ss <= n * ss) by (nonlinear_arith)
        requires
            i + 1 <= n,
    ;
    assert(n * ss <= 0x20 * n) by (nonlinear_arith)
        requires
            ss <= 0x20,
    ;
    assert(0 <= i * edat.block_size) by (nonlinear_arith);
}

/// Writing a block leaves the position behind it and the first 0x100 bytes as
/// they were.
proof fn lemma_stored_outline(
    tape: Tape,
    edat: EdatHeader,
    npd: NpdHeader,
    i: nat,
    data: Seq<u8>,
    tag: Seq<u8>,
    mask: Seq<u8>,
)
    requires
        i < blocks::blocks_of(edat),
        data.len() > 0,
        tag.len() >= 16,
        mask.len() == 16,
    ensures
        ({
            let after = block_stored(tape, edat, npd, i, data, tag, mask);
            let end = blocks::data_at(edat, i) + data.len();
            &&& after.pos == end
            &&& after.bytes.len() == larger(tape.bytes.len(), end)
            &&& forall|k: int|
                0 <= k < 0x100 && k < tape.bytes.len() ==> after.bytes[k] == tape.bytes[k]
        }),
{
    reveal(block_stored);
    lemma_ends(edat, i);
    lemma_section_first(edat, i);
    lemma_section_len(edat, npd, i, tag, mask);
}

/// Encrypts one block and writes it. It reads back, and so do the blocks
/// before it.
#[verifier::rlimit(40)]
fn pack_block(
    keys: &KeySet,
    reader: &[u8],
    writer: &mut Image,
    edat: &EdatHeader,
    npd: &NpdHeader,
    crypt_key: &[u8; 16],
    masks: &[[u8; 16]],
    blocks: u32,
    i: u32,
) -> (r: Result<(), Error>)
    requires
        edat.block_size != 0,
        blocks == blocks::blocks_of(*edat),
        i < blocks,
        reader@.len() + 0x20 * blocks + 0x200 <= usize::MAX,
        blocks::flagged(edat.flags, EDAT_FLAG_0X20) && !blocks::flagged(
            edat.flags,
            EDAT_COMPRESSED_FLAG,
        ) ==> masks@.len() >= blocks,
    ensures
        match r {
            Ok(_) => block_packed(
                *keys,
                reader@,
                *edat,
                *npd,
                crypt_key@,
                masks@,
                i as nat,
                old(writer)@,
            ) == Ok::<Tape, Error>(final(writer)@),
            Err(e) => final(writer)@ == old(writer)@ && block_packed(
                *keys,
                reader@,
                *edat,
                *npd,
                crypt_key@,
                masks@,
                i as nat,
                old(writer)@,
            ) == Err::<Tape, Error>(e),
        },
        r is Ok <==> chunk(reader@, *edat, i as nat) is Some,
        r is Ok ==> {
            let end = blocks::data_at(*edat, i as nat) + blocks::padded(
                blocks::chunk_len(*edat, i as nat),
            );
            &&& final(writer)@.pos == end
            &&& final(writer)@.bytes.len() == larger(old(writer)@.bytes.len(), end)
            &&& end <= reader@.len() + 0x20 * blocks + 0x110
            &&& forall|k: int|
                0 <= k < 0x100 && k < old(writer)@.bytes.len() ==> final(writer)@.bytes[k] == old(
                    writer,
                )@.bytes[k]
        },
        r is Ok && layout_reads_back(*edat, *npd) ==> {
            &&& reads_back(
                *keys,
                final(writer)@.bytes,
                *edat,
                *npd,
                crypt_key@,
                i as nat,
                chunk(reader@, *edat, i as nat)->Some_0,
            )
            &&& forall|j: nat, payload: Seq<u8>|
                j < i && #[trigger] reads_back(
                    *keys,
                    old(writer)@.bytes,
                    *edat,
                    *npd,
                    crypt_key@,
                    j,
                    payload,
                ) ==> reads_back(
                    *keys,
                    final(writer)@.bytes,
                    *edat,
                    *npd,
                    crypt_key@,
                    j,
                    payload,
                )
        },
{
    reveal(block_packed);
    let n: u64 = blocks::chunk_size(edat, blocks, i);
    assert(i * edat.block_size <= 0xFFFF_FFFF * 0xFFFF_FFFF) by (nonlinear_arith)
        requires
            i <= 0xFFFF_FFFF,
            edat.block_size <= 0xFFFF_FFFF,
    ;
    let bytes = match take_at(reader, i as u128 * edat.block_size as u128, n) {
        Ok(bytes) => bytes,
        Err(e) => {
            return Err(e);
        },
    };
    let plain: Vec<u8> = pad_chunk(bytes);
    let ghost padded = plain@;
    proof {
        lemma_padded(n as nat);
        lemma_chunk_len(*edat, i as nat);
    }
    let (data, tag) = match seal_block(keys, edat.flags, npd, crypt_key, i, plain) {
        Ok(pair) => pair,
        Err(e) => {
            return Err(e);
        },
    };
    let mask: [u8; 16] = if (edat.flags & EDAT_FLAG_0X20) != 0 && (edat.flags
        & EDAT_COMPRESSED_FLAG) == 0 {
        masks[i as usize]
    } else {
        [0u8; 16]
    };
    assert(mask@ =~= mask_of(*edat, masks@, i as nat));
    let ghost before = writer@;
    proof {
        lemma_ends(*edat, i as nat);
    }
    store_block(writer, edat, npd, i, &data, &tag, &mask);
    proof {
        lemma_stored_outline(before, *edat, *npd, i as nat, data@, tag@, mask@);
        if layout_reads_back(*edat, *npd) {
            lemma_stored_reads_back(
                *keys,
                before,
                *edat,
                *npd,
                crypt_key@,
                i as nat,
                bytes@,
                data@,
                tag@,
                mask@,
            );
            assert forall|j: nat, payload: Seq<u8>|
                j < i && #[trigger] reads_back(
                    *keys,
                    before.bytes,
                    *edat,
                    *npd,
                    crypt_key@,
                    j,
                    payload,
                ) implies reads_back(
                *keys,
                writer@.bytes,
                *edat,
                *npd,
                crypt_key@,
                j,
                payload,
            ) by {
                lemma_stored_keeps(
                    *keys,
                    before,
                    *edat,
                    *npd,
                    crypt_key@,
                    i as nat,
                    data@,
                    tag@,
                    mask@,
                    j,
                    payload,
                );
            }
        }
    }
    Ok(())
}

/// Writing a block leaves the blocks before it as they were.
proof fn lemma_stored_keeps(
    keys: KeySet,
    tape: Tape,
    edat: EdatHeader,
    npd: NpdHeader,
    crypt_key: Seq<u8>,
    i: nat,
    data: Seq<u8>,
    tag: Seq<u8>,
    mask: Seq<u8>,
    j: nat,
    payload: Seq<u8>,
)
    requires
        edat.block_size != 0,
        j < i < blocks::blocks_of(edat),
        layout_reads_back(edat, npd),
        tag.len() >= 16,
        mask.len() == 16,
        reads_back(keys, tape.bytes, edat, npd, crypt_key, j, payload),
    ensures
        reads_back(
            keys,
            block_stored(tape, edat, npd, i, data, tag, mask).bytes,
            edat,
            npd,
            crypt_key,
            j,
            payload,
        ),
{
    reveal(block_stored);
    lemma_apart(edat, j, i);
    lemma_apart(edat, j, j);
    let m = section(edat, npd, i, tag, mask);
    lemma_section_len(edat, npd, i, tag, mask);
    let at = blocks::data_at(edat, i) as int;
    let from = blocks::section_at(edat, i) as int;
    if blocks::flagged(edat.flags, EDAT_DEBUG_DATA_FLAG) {
        lemma_data_kept(keys, tape.bytes, edat, npd, crypt_key, j, i, payload, data);
    } else {
        lemma_kept(keys, tape.bytes, edat, npd, crypt_key, j, payload, from, m);
        lemma_data_kept(
            keys,
            image::overlaid(tape.bytes, from, m),
            edat,
            npd,
            crypt_key,
            j,
            i,
            payload,
            data,
        );
    }
}

proof fn lemma_data_kept(
    keys: KeySet,
    bytes: Seq<u8>,
    edat: EdatHeader,
    npd: NpdHeader,
    crypt_key: Seq<u8>,
    j: nat,
    i: nat,
    payload: Seq<u8>,
    data: Seq<u8>,
)
    requires
        edat.block_size != 0,
        j < i < blocks::blocks_of(edat),
        edat.block_size % 16 == 0 || blocks::blocks_of(edat) <= 1,
        reads_back(keys, bytes, edat, npd, crypt_key, j, payload),
    ensures
        reads_back(
            keys,
            image::overlaid(bytes, blocks::data_at(edat, i) as int, data),
            edat,
            npd,
            crypt_key,
            j,
            payload,
        ),
{
    lemma_apart(edat, j, i);
    lemma_kept(
        keys,
        bytes,
        edat,
        npd,
        crypt_key,
        j,
        payload,
        blocks::data_at(edat, i) as int,
        data,
    );
}

/// A write below offset 0x100 leaves all blocks as they were.
pub proof fn law_head_write_keeps_blocks(
    keys: KeySet,
    bytes: Seq<u8>,
    edat: EdatHeader,
    npd: NpdHeader,
    crypt_key: Seq<u8>,
    src: Seq<u8>,
    at: int,
    data: Seq<u8>,
)
    requires
        0 <= at,
        at + data.len() <= 0x100,
        all_read_back(keys, bytes, edat, npd, crypt_key, src),
    ensures
        all_read_back(keys, image::overlaid(bytes, at, data), edat, npd, crypt_key, src),
{
    reveal(all_read_back);
    let after = image::overlaid(bytes, at, data);
    assert forall|j: nat| j < blocks::blocks_of(edat) implies #[trigger] reads_back(
        keys,
        after,
        edat,
        npd,
        crypt_key,
        j,
        chunk(src, edat, j)->Some_0,
    ) by {
        let payload = chunk(src, edat, j)->Some_0;
        assert(reads_back(keys, bytes, edat, npd, crypt_key, j, payload));
        lemma_ends(edat, j);
        lemma_kept(keys, bytes, edat, npd, crypt_key, j, payload, at, data);
    }
}

/// Whether the first 0x90 bytes, both headers, are the same.
pub open spec fn same_headers(a: Seq<u8>, b: Seq<u8>) -> bool {
    a.len() >= 0x90 && b.len() >= 0x90 && a.take(0x90) == b.take(0x90)
}

/// Encrypts a payload block by block into a container, and ends it with the
/// footer. `masks` holds one mask for each block, in the layout that has them.
///
/// A source with at least as many bytes as the header promises is always taken;
/// those bytes are the payload. Unpacking the container then gives it back, with every tag matching, wherever the layout
/// keeps the blocks apart. The container is as long as its headers, metadata,
/// padded payload and footer, or as the writer was before.
#[verifier::rlimit(40)]
pub fn encrypt_data(
    keys: &KeySet,
    reader: &[u8],
    writer: &mut Image,
    edat: &EdatHeader,
    npd: &NpdHeader,
    crypt_key: &[u8; 16],
    masks: &[[u8; 16]],
) -> (r: Result<(), Error>)
    requires
        old(writer).pos + 0x10 <= usize::MAX,
        edat.block_size != 0 ==> reader@.len() + 0x20 * blocks::blocks_of(*edat) + 0x200
            <= usize::MAX,
        edat.block_size != 0 && blocks::flagged(edat.flags, EDAT_FLAG_0X20) && !blocks::flagged(
            edat.flags,
            EDAT_COMPRESSED_FLAG,
        ) ==> masks@.len() >= blocks::blocks_of(*edat),
    ensures
        (final(writer)@, r) == packed(
            *keys,
            reader@,
            *edat,
            *npd,
            crypt_key@,
            masks@,
            old(writer)@,
        ),
        edat.block_size == 0 ==> r == Err::<(), Error>(Error::ZeroBlockSize),
        edat.block_size != 0 && counted(*edat) && edat.file_size <= reader@.len() ==> {
            &&& r is Ok
            &&& final(writer)@.bytes.len() == larger(
                old(writer)@.bytes.len(),
                container_len(*edat),
            )
            &&& (edat.block_size % 16 == 0 && old(writer)@.bytes.len() <= 0x100)
                ==> final(writer)@.bytes.len() == 0x110 + blocks::blocks_of(*edat)
                * blocks::section_size(edat.flags) + blocks::padded(edat.file_size as nat)
            &&& final(writer)@.bytes.len() >= 0x100 + blocks::blocks_of(*edat)
                * blocks::section_size(edat.flags)
            &&& old(writer)@.bytes.len() >= 0x90 ==> same_headers(
                old(writer)@.bytes,
                final(writer)@.bytes,
            )
            &&& layout_reads_back(*edat, *npd) ==> all_read_back(
                *keys,
                final(writer)@.bytes,
                *edat,
                *npd,
                crypt_key@,
                reader@,
            ) && restores(
                *keys,
                final(writer)@.bytes,
                *edat,
                *npd,
                crypt_key@,
                reader@.take(edat.file_size as int),
            )
        },
{
    reveal(packed);
    let blocks: u32 = match blocks::block_count(edat) {
        Ok(blocks) => blocks,
        Err(e) => {
            return Err(e);
        },
    };
    let ghost whole = counted(*edat) && edat.file_size <= reader@.len();
    let ghost start = writer@;
    let ghost goal = packed_from(
        *keys,
        reader@,
        *edat,
        *npd,
        crypt_key@,
        masks@,
        0,
        start,
    );
    let mut i: u32 = 0;
    while i < blocks
        invariant
            i <= blocks,
            edat.block_size != 0,
            blocks == blocks::blocks_of(*edat),
            start == old(writer)@,
            old(writer).pos + 0x10 <= usize::MAX,
            reader@.len() + 0x20 * blocks + 0x200 <= usize::MAX,
            blocks::flagged(edat.flags, EDAT_FLAG_0X20) && !blocks::flagged(
                edat.flags,
                EDAT_COMPRESSED_FLAG,
            ) ==> masks@.len() >= blocks,
            whole == (counted(*edat) && edat.file_size <= reader@.len()),
            goal == packed_from(*keys, reader@, *edat, *npd, crypt_key@, masks@, 0, start),
            goal == packed_from(*keys, reader@, *edat, *npd, crypt_key@, masks@, i as nat, writer@),
            i == 0 ==> writer@ == start,
            i > 0 ==> {
                let last = (i - 1) as nat;
                let end = blocks::data_at(*edat, last) + blocks::padded(
                    blocks::chunk_len(*edat, last),
                );
                &&& writer@.pos == end
                &&& writer@.bytes.len() == larger(start.bytes.len(), end)
                &&& end <= reader@.len() + 0x20 * blocks + 0x110
            },
            start.bytes.len() >= 0x90 ==> same_headers(start.bytes, writer@.bytes),
            layout_reads_back(*edat, *npd) ==> forall|j: nat|
                j < i ==> #[trigger] reads_back(
                    *keys,
                    writer@.bytes,
                    *edat,
                    *npd,
                    crypt_key@,
                    j,
                    chunk(reader@, *edat, j)->Some_0,
                ),
        decreases blocks - i,
    {
        let ghost before = writer@;
        match pack_block(keys, reader, writer, edat, npd, crypt_key, masks, blocks, i) {
            Ok(()) => {},
            Err(e) => {
                proof {
                    reveal(packed);
                    if whole {
                        law_blocks_cover(*edat, i as nat);
                    }
                }
                return Err(e);
            },
        }
        proof {
            lemma_ends(*edat, i as nat);
            if i > 0 {
                lemma_ends_grow(*edat, (i - 1) as nat);
            }
            if start.bytes.len() >= 0x90 {
                assert(before.bytes.take(0x90) =~= writer@.bytes.take(0x90));
            }
            if layout_reads_back(*edat, *npd) {
                assert forall|j: nat| j < i + 1 implies #[trigger] reads_back(
                    *keys,
                    writer@.bytes,
                    *edat,
                    *npd,
                    crypt_key@,
                    j,
                    chunk(reader@, *edat, j)->Some_0,
                ) by {
                    if j < i {
                        assert(reads_back(
                            *keys,
                            before.bytes,
                            *edat,
                            *npd,
                            crypt_key@,
                            j,
                            chunk(reader@, *edat, j)->Some_0,
                        ));
                    }
                }
            }
        }
        i = i + 1;
    }
    let ghost filled = writer@;
    proof {
        if whole {
            law_blocks_cover(*edat, 0);
        }
    }
    if edat.file_size == 0 {
        writer.seek(0x100);
    }
    let tail: [u8; 16] = footer_for(npd.version, (edat.flags & SDAT_FLAG) == SDAT_FLAG);
    let ghost at = writer@.pos;
    writer.write_all(&tail);
    proof {
        reveal(all_read_back);
        if whole {
            lemma_footer(
                *keys,
                filled.bytes,
                *edat,
                *npd,
                crypt_key@,
                reader@,
                at as int,
                tail@,
            );
            if edat.block_size % 16 == 0 {
                law_container_len(*edat);
            }
            if start.bytes.len() >= 0x90 {
                assert(filled.bytes.take(0x90) =~= writer@.bytes.take(0x90));
            }
        }
    }
    Ok(())
}

/// The footer leaves all blocks as they were.
proof fn lemma_footer(
    keys: KeySet,
    bytes: Seq<u8>,
    edat: EdatHeader,
    npd: NpdHeader,
    crypt_key: Seq<u8>,
    src: Seq<u8>,
    at: int,
    tail: Seq<u8>,
)
    requires
        edat.block_size != 0,
        counted(edat),
        edat.file_size <= src.len(),
        tail.len() == 16,
        ({
            let n = blocks::blocks_of(edat);
            let last = (n - 1) as nat;
            if n == 0 {
                at == 0x100
            } else {
                at == blocks::data_at(edat, last) + blocks::padded(blocks::chunk_len(edat, last))
            }
        }),
        layout_reads_back(edat, npd) ==> all_read_back(keys, bytes, edat, npd, crypt_key, src),
    ensures
        at >= 0x100,
        at >= 0x100 + blocks::blocks_of(edat) * blocks::section_size(edat.flags),
        layout_reads_back(edat, npd) ==> {
            let after = image::overlaid(bytes, at, tail);
            &&& all_read_back(keys, after, edat, npd, crypt_key, src)
            &&& restores(keys, after, edat, npd, crypt_key, src.take(edat.file_size as int))
        },
{
    reveal(all_read_back);
    let n = blocks::blocks_of(edat);
    let after = image::overlaid(bytes, at, tail);
    let ss = blocks::section_size(edat.flags);
    if n > 0 {
        let last = (n - 1) as nat;
        lemma_ends(edat, last);
        assert((last + 1) * ss == last * ss + ss) by (nonlinear_arith);
        assert(n * ss <= n * 0x20) by (nonlinear_arith)
            requires
                ss <= 0x20,
        ;
        assert(0 <= last * edat.block_size as nat) by (nonlinear_arith);
    }
    if layout_reads_back(edat, npd) {
        assert forall|j: nat| j < n implies #[trigger] reads_back(
            keys,
            after,
            edat,
            npd,
            crypt_key,
            j,
            chunk(src, edat, j)->Some_0,
        ) by {
            let last = (n - 1) as nat;
            let payload = chunk(src, edat, j)->Some_0;
            assert(reads_back(keys, bytes, edat, npd, crypt_key, j, payload));
            lemma_apart(edat, j, last);
            lemma_apart(edat, j, j);
            lemma_kept(keys, bytes, edat, npd, crypt_key, j, payload, at, tail);
        }
        law_read_back_restores(keys, after, edat, npd, crypt_key, src);
    }
}

} // verus!
