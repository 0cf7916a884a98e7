//! The NPD and EDAT headers, and the two hashes that sign an NPD header.

use vstd::prelude::*;

use crate::constants::KeySet;
use crate::crypto::aes_cmac_16;
use crate::error::Error;
use crate::image::Image;
use crate::primitives;
use crate::util;
use crate::util::{first16, read_be_u32, read_be_u64, same16, xor16};

pub use crate::container::{extract_data, pack_data};
pub use crate::hashes::{check_data, forge_data};
pub use crate::pack::encrypt_data;
pub use crate::unpack::decrypt_data;

verus! {

/// The NPD header.
#[derive(Clone, Copy, Debug, PartialEq, Eq)]
pub struct NpdHeader {
    /// `NPD\\0`.
    pub magic: [u8; 4],
    /// The version of the container.
    pub version: u32,
    /// 1 network, 2 local, 3 free; zero for SDAT.
    pub license: u32,
    /// The kind of application.
    pub npd_type: u32,
    /// The content identifier, padded with zeros.
    pub content_id: [u8; 0x30],
    /// The initial vector of the blocks.
    pub digest: [u8; 0x10],
    /// Signs the content identifier and the file name.
    pub title_hash: [u8; 0x10],
    /// Signs the header up to here.
    pub dev_hash: [u8; 0x10],
    /// Not used.
    pub unk1: u64,
    /// Not used.
    pub unk2: u64,
}

/// The EDAT header, which SDAT containers have too.
#[derive(Clone, Copy, Debug, PartialEq, Eq)]
pub struct EdatHeader {
    /// How the blocks are laid out and protected.
    pub flags: u32,
    /// The size of a block's payload; the last may be shorter.
    pub block_size: u32,
    /// The size of the payload.
    pub file_size: u64,
}

/// Both headers of a container.
#[derive(Clone, Copy, Debug, PartialEq, Eq)]
pub struct HeaderPair {
    /// The NPD header.
    pub npd: NpdHeader,
    /// The EDAT header.
    pub edat: EdatHeader,
}

/// The first four bytes of every container.
pub open spec fn npd_magic() -> Seq<u8> {
    seq![0x4E, 0x50, 0x44, 0x00]
}

/// The part of an NPD header that the dev hash signs.
pub open spec fn npd_dev_bytes(npd: NpdHeader) -> Seq<u8> {
    npd.magic@ + util::be_bytes_u32(npd.version) + util::be_bytes_u32(npd.license)
        + util::be_bytes_u32(npd.npd_type) + npd.content_id@ + npd.digest@ + npd.title_hash@
}

/// An NPD header as it is written.
pub open spec fn npd_header_bytes(npd: NpdHeader) -> Seq<u8> {
    npd_dev_bytes(npd) + npd.dev_hash@ + util::be_bytes_u64(npd.unk1) + util::be_bytes_u64(
        npd.unk2,
    )
}

/// An EDAT header as it is written.
pub open spec fn edat_header_bytes(edat: EdatHeader) -> Seq<u8> {
    util::be_bytes_u32(edat.flags) + util::be_bytes_u32(edat.block_size) + util::be_bytes_u64(
        edat.file_size,
    )
}

/// That the headers hold, field by field, what stands at the start of `src`.
pub open spec fn headers_read(h: HeaderPair, src: Seq<u8>) -> bool {
    &&& h.npd.magic@ == src.take(4)
    &&& h.npd.version == util::be_u32(src.skip(4))
    &&& h.npd.license == util::be_u32(src.skip(8))
    &&& h.npd.npd_type == util::be_u32(src.skip(12))
    &&& h.npd.content_id@ == src.subrange(16, 64)
    &&& h.npd.digest@ == src.subrange(64, 80)
    &&& h.npd.title_hash@ == src.subrange(80, 96)
    &&& h.npd.dev_hash@ == src.subrange(96, 112)
    &&& h.npd.unk1 == util::be_u64(src.skip(112))
    &&& h.npd.unk2 == util::be_u64(src.skip(120))
    &&& h.edat.flags == util::be_u32(src.skip(128))
    &&& h.edat.block_size == util::be_u32(src.skip(132))
    &&& h.edat.file_size == util::be_u64(src.skip(136))
}

/// Why the start of a container is no pair of headers, if it is none.
pub open spec fn headers_refused(src: Seq<u8>) -> Option<Error> {
    if src.len() < 0x80 {
        Some(Error::NpdHeaderTruncated)
    } else if src.len() < 0x90 {
        Some(Error::EdatHeaderTruncated)
    } else if src.take(4) != npd_magic() {
        Some(Error::InvalidMagic)
    } else {
        None
    }
}

/// Reads both headers from the start of a container.
pub fn parse_headers(reader: &[u8]) -> (r: Result<HeaderPair, Error>)
    ensures
        match r {
            Ok(h) => headers_refused(reader@) is None && headers_read(h, reader@),
            Err(e) => headers_refused(reader@) == Some(e),
        },
{
    if reader.len() < 0x80 {
        return Err(Error::NpdHeaderTruncated);
    }
    if reader.len() < 0x90 {
        return Err(Error::EdatHeaderTruncated);
    }
    let magic: [u8; 4] = [reader[0], reader[1], reader[2], reader[3]];
    assert(magic@ =~= reader@.take(4));
    if magic[0] != 0x4E || magic[1] != 0x50 || magic[2] != 0x44 || magic[3] != 0 {
        assert(magic@[0] != npd_magic()[0] || magic@[1] != npd_magic()[1] || magic@[2]
            != npd_magic()[2] || magic@[3] != npd_magic()[3]);
        return Err(Error::InvalidMagic);
    }
    assert(magic@ =~= npd_magic());
    let mut content_id: [u8; 0x30] = [0u8; 0x30];
    let mut i: usize = 0;
    while i < 0x30
        invariant
            i <= 0x30,
            reader@.len() >= 0x90,
            forall|j: int| 0 <= j < i ==> #[trigger] content_id[j] == reader@[16 + j],
        decreases 0x30 - i,
    {
        content_id[i] = reader[16 + i];
        i = i + 1;
    }
    let h = HeaderPair {
        npd: NpdHeader {
            magic,
            version: u32_at(reader, 4),
            license: u32_at(reader, 8),
            npd_type: u32_at(reader, 12),
            content_id,
            digest: sixteen_at(reader, 64),
            title_hash: sixteen_at(reader, 80),
            dev_hash: sixteen_at(reader, 96),
            unk1: u64_at(reader, 112),
            unk2: u64_at(reader, 120),
        },
        edat: EdatHeader {
            flags: u32_at(reader, 128),
            block_size: u32_at(reader, 132),
            file_size: u64_at(reader, 136),
        },
    };
    assert(h.npd.content_id@ =~= reader@.subrange(16, 64));
    Ok(h)
}

/// The big-endian number at a position.
pub(crate) fn u32_at(src: &[u8], at: usize) -> (v: u32)
    requires
        at + 4 <= src.len(),
    ensures
        v == util::be_u32(src@.skip(at as int)),
{
    assert(util::be_u32(src@.subrange(at as int, at + 4)) == util::be_u32(src@.skip(at as int)));
    read_be_u32(vstd::slice::slice_subrange(src, at, at + 4))
}

fn u64_at(src: &[u8], at: usize) -> (v: u64)
    requires
        at + 8 <= src.len(),
    ensures
        v == util::be_u64(src@.skip(at as int)),
{
    let part = vstd::slice::slice_subrange(src, at, at + 8);
    assert(util::be_u32(part@) == util::be_u32(src@.skip(at as int)));
    assert(util::be_u32(part@.skip(4)) == util::be_u32(src@.skip(at as int).skip(4)));
    read_be_u64(part)
}

/// The sixteen bytes at a position.
pub(crate) fn sixteen_at(src: &[u8], at: usize) -> (out: [u8; 16])
    requires
        at + 16 <= src.len(),
    ensures
        out@ == src@.subrange(at as int, at + 16),
{
    let part = vstd::slice::slice_subrange(src, at, at + 16);
    assert(part@.take(16) =~= part@);
    first16(part)
}

/// The four bytes of a number, highest first.
pub(crate) fn to_be_u32(v: u32) -> (out: [u8; 4])
    ensures
        out@ == util::be_bytes_u32(v),
{
    let out: [u8; 4] = [
        (v / 0x100_0000) as u8,
        (v / 0x1_0000 % 0x100) as u8,
        (v / 0x100 % 0x100) as u8,
        (v % 0x100) as u8,
    ];
    assert(out@ =~= util::be_bytes_u32(v));
    out
}

/// Adds the eight bytes of a number, highest first.
pub(crate) fn push_u64(out: &mut Vec<u8>, v: u64)
    ensures
        final(out)@ == old(out)@ + util::be_bytes_u64(v),
{
    out.extend_from_slice(&to_be_u32((v / 0x1_0000_0000) as u32));
    out.extend_from_slice(&to_be_u32((v % 0x1_0000_0000) as u32));
    assert(out@ =~= old(out)@ + util::be_bytes_u64(v));
}

/// The part of an NPD header that the dev hash signs.
fn npd_dev_buffer(npd: &NpdHeader) -> (out: Vec<u8>)
    ensures
        out@ == npd_dev_bytes(*npd),
        out@.len() == 0x60,
{
    let mut out: Vec<u8> = Vec::with_capacity(0x60);
    out.extend_from_slice(&npd.magic);
    out.extend_from_slice(&to_be_u32(npd.version));
    out.extend_from_slice(&to_be_u32(npd.license));
    out.extend_from_slice(&to_be_u32(npd.npd_type));
    out.extend_from_slice(&npd.content_id);
    out.extend_from_slice(&npd.digest);
    out.extend_from_slice(&npd.title_hash);
    assert(out@ =~= npd_dev_bytes(*npd));
    out
}

/// Writes an NPD header.
pub fn write_npd_header(writer: &mut Image, npd: &NpdHeader)
    requires
        old(writer).pos + 0x80 <= usize::MAX,
    ensures
        final(writer)@ == old(writer)@.written(npd_header_bytes(*npd)),
        npd_header_bytes(*npd).len() == 0x80,
{
    let mut out: Vec<u8> = npd_dev_buffer(npd);
    out.extend_from_slice(&npd.dev_hash);
    push_u64(&mut out, npd.unk1);
    push_u64(&mut out, npd.unk2);
    assert(out@ =~= npd_header_bytes(*npd));
    writer.write_all(&out);
}

/// Writes an EDAT header.
pub fn write_edat_header(writer: &mut Image, edat: &EdatHeader)
    requires
        old(writer).pos + 0x10 <= usize::MAX,
    ensures
        final(writer)@ == old(writer)@.written(edat_header_bytes(*edat)),
        edat_header_bytes(*edat).len() == 0x10,
{
    let mut out: Vec<u8> = Vec::with_capacity(0x10);
    out.extend_from_slice(&to_be_u32(edat.flags));
    out.extend_from_slice(&to_be_u32(edat.block_size));
    push_u64(&mut out, edat.file_size);
    assert(out@ =~= edat_header_bytes(*edat));
    writer.write_all(&out);
}

/// The title hash of a content identifier and a file name.
pub open spec fn title_tag(keys: KeySet, content_id: Seq<u8>, file_name: Seq<char>) -> Seq<u8> {
    primitives::cmac_aes128(
        keys.npdrm_omac_key_3@,
        content_id + vstd::utf8::encode_utf8(file_name),
    )
}

/// The dev hash of an NPD header under a klicensee.
pub open spec fn dev_tag(keys: KeySet, klicensee: Seq<u8>, npd: NpdHeader) -> Seq<u8> {
    primitives::cmac_aes128(
        util::xor_bytes(klicensee, keys.npdrm_omac_key_2@),
        npd_dev_bytes(npd),
    )
}

/// Which hashes of an NPD header are right.
#[derive(Clone, Copy, Debug, PartialEq, Eq)]
pub struct NpdHashReport {
    /// Whether the title hash is right.
    pub title_ok: bool,
    /// Whether the dev hash is right; none where the klicensee is all zeros.
    pub dev_ok: Option<bool>,
}

/// The title hash of a content identifier and a file name.
fn compute_title_tag(keys: &KeySet, content_id: &[u8; 0x30], file_name: &str) -> (tag: [u8; 16])
    ensures
        tag@ == title_tag(*keys, content_id@, file_name@),
{
    let mut buf: Vec<u8> = vstd::slice::slice_to_vec(content_id);
    buf.extend_from_slice(file_name.as_bytes());
    assert(buf@ =~= content_id@ + vstd::utf8::encode_utf8(file_name@));
    aes_cmac_16(&keys.npdrm_omac_key_3, &buf)
}

/// The dev hash of an NPD header under a klicensee.
fn compute_dev_tag(keys: &KeySet, klicensee: &[u8; 16], npd: &NpdHeader) -> (tag: [u8; 16])
    ensures
        tag@ == dev_tag(*keys, klicensee@, *npd),
{
    aes_cmac_16(&xor16(klicensee, &keys.npdrm_omac_key_2), &npd_dev_buffer(npd))
}

/// Whether a key is all zeros.
pub(crate) fn is_zero_key(key: &[u8; 16]) -> (zero: bool)
    ensures
        zero == (key@ == util::zeros(16)),
{
    let blank: [u8; 16] = [0u8; 16];
    assert(blank@ =~= util::zeros(16));
    assert(key@.take(16) =~= key@ && blank@.take(16) =~= blank@);
    same16(key, &blank)
}

/// Holds the hashes of an NPD header against the right ones.
pub fn judge_npd_hashes(
    npd: &NpdHeader,
    klicensee: &[u8; 16],
    title: &[u8; 16],
    dev: &[u8; 16],
) -> (report: NpdHashReport)
    ensures
        report.title_ok == (title@ == npd.title_hash@),
        report.dev_ok == (if klicensee@ == util::zeros(16) {
            None
        } else {
            Some(dev@ == npd.dev_hash@)
        }),
{
    assert(title@.take(16) =~= title@ && npd.title_hash@.take(16) =~= npd.title_hash@);
    assert(dev@.take(16) =~= dev@ && npd.dev_hash@.take(16) =~= npd.dev_hash@);
    NpdHashReport {
        title_ok: same16(title, &npd.title_hash),
        dev_ok: if is_zero_key(klicensee) {
            None
        } else {
            Some(same16(dev, &npd.dev_hash))
        },
    }
}

/// Checks the hashes of an NPD header. Without a klicensee only the title hash
/// can be checked.
pub fn validate_npd_hashes(
    keys: &KeySet,
    file_name: &str,
    klicensee: &[u8; 16],
    npd: &NpdHeader,
) -> (report: NpdHashReport)
    ensures
        report.title_ok == (title_tag(*keys, npd.content_id@, file_name@) == npd.title_hash@),
        report.dev_ok == (if klicensee@ == util::zeros(16) {
            None
        } else {
            Some(dev_tag(*keys, klicensee@, *npd) == npd.dev_hash@)
        }),
{
    let title: [u8; 16] = compute_title_tag(keys, &npd.content_id, file_name);
    let dev: [u8; 16] = compute_dev_tag(keys, klicensee, npd);
    judge_npd_hashes(npd, klicensee, &title, &dev)
}

/// Signs the content identifier and a file name.
pub fn forge_npd_title_hash(keys: &KeySet, file_name: &str, npd: &mut NpdHeader)
    ensures
        *final(npd) == (NpdHeader { title_hash: final(npd).title_hash, ..*old(npd) }),
        final(npd).title_hash@ == title_tag(*keys, old(npd).content_id@, file_name@),
{
    npd.title_hash = compute_title_tag(keys, &npd.content_id, file_name);
}

/// Signs the header with a klicensee.
pub fn forge_npd_dev_hash(keys: &KeySet, klicensee: &[u8; 16], npd: &mut NpdHeader)
    ensures
        *final(npd) == (NpdHeader { dev_hash: final(npd).dev_hash, ..*old(npd) }),
        final(npd).dev_hash@ == dev_tag(*keys, klicensee@, *old(npd)),
{
    npd.dev_hash = compute_dev_tag(keys, klicensee, npd);
}

/// A header whose title hash and then dev hash are forged has right hashes,
/// for the same file name and klicensee.
pub proof fn law_forged_hashes_are_right(
    keys: KeySet,
    file_name: Seq<char>,
    klicensee: Seq<u8>,
    blank: NpdHeader,
    titled: NpdHeader,
    signed: NpdHeader,
)
    requires
        titled == (NpdHeader { title_hash: titled.title_hash, ..blank }),
        titled.title_hash@ == title_tag(keys, blank.content_id@, file_name),
        signed == (NpdHeader { dev_hash: signed.dev_hash, ..titled }),
        signed.dev_hash@ == dev_tag(keys, klicensee, titled),
    ensures
        title_tag(keys, signed.content_id@, file_name) == signed.title_hash@,
        dev_tag(keys, klicensee, signed) == signed.dev_hash@,
{
    assert(npd_dev_bytes(signed) == npd_dev_bytes(titled));
}

/// A content identifier, cut or padded with zeros to 48 bytes.
pub open spec fn content_id_bytes(content_id: Seq<char>) -> Seq<u8> {
    let bytes = vstd::utf8::encode_utf8(content_id);
    Seq::new(
        0x30,
        |i: int|
            if i < bytes.len() {
                bytes[i]
            } else {
                0u8
            },
    )
}

/// A content identifier, cut or padded with zeros to 48 bytes.
pub fn content_id_48(content_id: &str) -> (out: [u8; 0x30])
    ensures
        out@ == content_id_bytes(content_id@),
{
    let bytes = content_id.as_bytes();
    let mut out: [u8; 0x30] = [0u8; 0x30];
    let mut i: usize = 0;
    while i < 0x30 && i < bytes.len()
        invariant
            i <= 0x30,
            bytes@ == vstd::utf8::encode_utf8(content_id@),
            i <= bytes@.len(),
            forall|j: int| 0 <= j < i ==> #[trigger] out[j] == bytes@[j],
            forall|j: int| i <= j < 0x30 ==> #[trigger] out[j] == 0,
        decreases 0x30 - i,
    {
        out[i] = bytes[i];
        i = i + 1;
    }
    assert(out@ =~= content_id_bytes(content_id@));
    out
}

/// The headers at the start of a container that was written from them are
/// these headers.
#[verifier::rlimit(40)]
pub proof fn law_headers_round_trip(h: HeaderPair, src: Seq<u8>)
    requires
        src.len() >= 0x90,
        src.take(0x90) == npd_header_bytes(h.npd) + edat_header_bytes(h.edat),
    ensures
        headers_read(h, src),
        src.take(4) == h.npd.magic@,
{
    let head = npd_header_bytes(h.npd) + edat_header_bytes(h.edat);
    assert forall|k: int| 0 <= k < 0x90 implies src[k] == head[k] by {
        assert(src.take(0x90)[k] == src[k]);
    }
    util::law_be_u32_round_trip(h.npd.version);
    util::law_be_u32_round_trip(h.npd.license);
    util::law_be_u32_round_trip(h.npd.npd_type);
    util::law_be_u64_round_trip(h.npd.unk1);
    util::law_be_u64_round_trip(h.npd.unk2);
    util::law_be_u32_round_trip(h.edat.flags);
    util::law_be_u32_round_trip(h.edat.block_size);
    util::law_be_u64_round_trip(h.edat.file_size);
    assert(src.take(4) =~= h.npd.magic@);
    assert(src.subrange(16, 64) =~= h.npd.content_id@);
    assert(src.subrange(64, 80) =~= h.npd.digest@);
    assert(src.subrange(80, 96) =~= h.npd.title_hash@);
    assert(src.subrange(96, 112) =~= h.npd.dev_hash@);
    assert(util::be_u32(src.skip(4)) == util::be_u32(util::be_bytes_u32(h.npd.version)));
    assert(util::be_u32(src.skip(8)) == util::be_u32(util::be_bytes_u32(h.npd.license)));
    assert(util::be_u32(src.skip(12)) == util::be_u32(util::be_bytes_u32(h.npd.npd_type)));
    assert(util::be_u32(src.skip(128)) == util::be_u32(util::be_bytes_u32(h.edat.flags)));
    assert(util::be_u32(src.skip(132)) == util::be_u32(util::be_bytes_u32(h.edat.block_size)));
    lemma_u64_read(src, 112, util::be_bytes_u64(h.npd.unk1));
    lemma_u64_read(src, 120, util::be_bytes_u64(h.npd.unk2));
    lemma_u64_read(src, 136, util::be_bytes_u64(h.edat.file_size));
}

proof fn lemma_u64_read(src: Seq<u8>, at: int, bytes: Seq<u8>)
    requires
        0 <= at,
        at + 8 <= src.len(),
        bytes.len() == 8,
        forall|k: int| 0 <= k < 8 ==> src[at + k] == #[trigger] bytes[k],
    ensures
        util::be_u64(src.skip(at)) == util::be_u64(bytes),
{
    assert(bytes[0] == src[at] && bytes[1] == src[at + 1] && bytes[2] == src[at + 2] && bytes[3]
        == src[at + 3]);
    assert(bytes[4] == src[at + 4] && bytes[5] == src[at + 5] && bytes[6] == src[at + 6] && bytes[7]
        == src[at + 7]);
    assert(util::be_u32(src.skip(at)) == util::be_u32(bytes));
    assert(util::be_u32(src.skip(at).skip(4)) == util::be_u32(bytes.skip(4)));
}

/// Headers that were read from the start of a container are written as they
/// stood there.
pub proof fn law_headers_written_back(h: HeaderPair, src: Seq<u8>)
    requires
        src.len() >= 0x90,
        headers_read(h, src),
    ensures
        npd_header_bytes(h.npd) + edat_header_bytes(h.edat) == src.take(0x90),
{
    lemma_u32_written(src, 4);
    lemma_u32_written(src, 8);
    lemma_u32_written(src, 12);
    lemma_u64_written(src, 112);
    lemma_u64_written(src, 120);
    lemma_u32_written(src, 128);
    lemma_u32_written(src, 132);
    lemma_u64_written(src, 136);
    lemma_parts_joined(
        src,
        h.npd.magic@,
        util::be_bytes_u32(h.npd.version),
        util::be_bytes_u32(h.npd.license),
        util::be_bytes_u32(h.npd.npd_type),
        h.npd.content_id@,
        h.npd.digest@,
        h.npd.title_hash@,
        h.npd.dev_hash@,
        util::be_bytes_u64(h.npd.unk1),
        util::be_bytes_u64(h.npd.unk2),
        edat_header_bytes(h.edat),
    );
    let flags = util::be_bytes_u32(h.edat.flags);
    let size = util::be_bytes_u32(h.edat.block_size);
    lemma_three_joined(src, flags, size, util::be_bytes_u64(h.edat.file_size));
}

proof fn lemma_three_joined(src: Seq<u8>, a: Seq<u8>, b: Seq<u8>, c: Seq<u8>)
    requires
        src.len() >= 144,
        a == src.subrange(128, 132),
        b == src.subrange(132, 136),
        c == src.subrange(136, 144),
    ensures
        a + b + c == src.subrange(128, 144),
{
    assert(a + b + c =~= src.subrange(128, 144));
}

proof fn lemma_parts_joined(
    src: Seq<u8>,
    magic: Seq<u8>,
    version: Seq<u8>,
    license: Seq<u8>,
    npd_type: Seq<u8>,
    content_id: Seq<u8>,
    digest: Seq<u8>,
    title: Seq<u8>,
    dev: Seq<u8>,
    unk1: Seq<u8>,
    unk2: Seq<u8>,
    edat: Seq<u8>,
)
    requires
        src.len() >= 144,
        magic == src.take(4),
        version == src.subrange(4, 8),
        license == src.subrange(8, 12),
        npd_type == src.subrange(12, 16),
        content_id == src.subrange(16, 64),
        digest == src.subrange(64, 80),
        title == src.subrange(80, 96),
        dev == src.subrange(96, 112),
        unk1 == src.subrange(112, 120),
        unk2 == src.subrange(120, 128),
    ensures
        edat == src.subrange(128, 144) ==> magic + version + license + npd_type + content_id
            + digest + title + dev + unk1 + unk2 + edat == src.take(144),
{
    assert(magic + version =~= src.take(8));
    assert(src.take(8) + license =~= src.take(12));
    assert(src.take(12) + npd_type =~= src.take(16));
    assert(src.take(16) + content_id =~= src.take(64));
    assert(src.take(64) + digest =~= src.take(80));
    assert(src.take(80) + title =~= src.take(96));
    assert(src.take(96) + dev =~= src.take(112));
    assert(src.take(112) + unk1 =~= src.take(120));
    assert(src.take(120) + unk2 =~= src.take(128));
    assert(src.take(128) + src.subrange(128, 144) =~= src.take(144));
}

proof fn lemma_u32_written(src: Seq<u8>, at: int)
    requires
        0 <= at,
        at + 4 <= src.len(),
    ensures
        util::be_bytes_u32(util::be_u32(src.skip(at))) == src.subrange(at, at + 4),
{
    util::law_be_u32_read_back(src.skip(at));
    assert(src.skip(at).take(4) =~= src.subrange(at, at + 4));
}

proof fn lemma_u64_written(src: Seq<u8>, at: int)
    requires
        0 <= at,
        at + 8 <= src.len(),
    ensures
        util::be_bytes_u64(util::be_u64(src.skip(at))) == src.subrange(at, at + 8),
{
    util::law_be_u64_read_back(src.skip(at));
    assert(src.skip(at).take(8) =~= src.subrange(at, at + 8));
}

/// Headers that read the same are the same.
pub proof fn law_headers_determined(g: HeaderPair, h: HeaderPair, src: Seq<u8>)
    requires
        headers_read(g, src),
        headers_read(h, src),
    ensures
        g == h,
{
    assert(g.npd.magic =~= h.npd.magic);
    assert(g.npd.content_id =~= h.npd.content_id);
    assert(g.npd.digest =~= h.npd.digest);
    assert(g.npd.title_hash =~= h.npd.title_hash);
    assert(g.npd.dev_hash =~= h.npd.dev_hash);
}

} // verus!
