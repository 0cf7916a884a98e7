//! Whole containers: making one from a payload, and extracting the payload.

use vstd::prelude::*;

use crate::blocks;
use crate::constants::{
    KeySet, EDAT_COMPRESSED_FLAG, EDAT_DEBUG_DATA_FLAG, EDAT_FLAG_0X20, SDAT_FLAG,
};
use crate::error::Error;
use crate::hashes;
use crate::hashes::{check_data, forge_data, CheckReport};
use crate::image::{Image, Tape};
use crate::npdata;
use crate::npdata::{
    content_id_48, forge_npd_dev_hash, forge_npd_title_hash, is_zero_key, parse_headers,
    validate_npd_hashes, write_edat_header, write_npd_header, EdatHeader, HeaderPair, NpdHashReport,
    NpdHeader,
};
use crate::pack;
use crate::pack::encrypt_data;
use crate::unpack;
use crate::unpack::{decrypt_data, BlockReport, Unpacked};
use crate::util;
use crate::util::xor16;

verus! {

/// The key of an SDAT container.
pub open spec fn sdat_key(keys: KeySet, npd: NpdHeader) -> Seq<u8> {
    util::xor_bytes(npd.dev_hash@, keys.sdat_key@)
}

/// Whether the flags are those of an SDAT container.
pub open spec fn is_sdat(edat: EdatHeader) -> bool {
    edat.flags & SDAT_FLAG == SDAT_FLAG
}

/// The key under which a container is extracted: its own for SDAT, and for
/// EDAT the klicensee under a free license, the RIF key under a network or
/// local one, and zeros under none.
pub open spec fn extract_key(
    keys: KeySet,
    edat: EdatHeader,
    npd: NpdHeader,
    devklic: Seq<u8>,
    rifkey: Seq<u8>,
) -> Result<Seq<u8>, Error> {
    if is_sdat(edat) {
        Ok(sdat_key(keys, npd))
    } else if npd.license & 3 == 3 {
        Ok(devklic)
    } else if npd.license & 1 == 1 || npd.license & 2 == 2 {
        if rifkey == util::zeros(16) {
            Err(Error::RifKeyNeeded)
        } else {
            Ok(rifkey)
        }
    } else {
        Ok(util::zeros(16))
    }
}

/// The key under which a container is made. A network license is refused.
pub open spec fn pack_key(
    keys: KeySet,
    edat: EdatHeader,
    npd: NpdHeader,
    devklic: Seq<u8>,
    rifkey: Seq<u8>,
) -> Result<Seq<u8>, Error> {
    if is_sdat(edat) {
        Ok(sdat_key(keys, npd))
    } else if npd.license & 3 == 3 {
        Ok(devklic)
    } else if npd.license & 2 == 2 {
        if rifkey == util::zeros(16) {
            Err(Error::RifKeyNeeded)
        } else {
            Ok(rifkey)
        }
    } else if npd.license & 1 == 1 {
        Err(Error::NetworkLicense)
    } else {
        Ok(util::zeros(16))
    }
}

/// What an extraction found, step by step, and how it ended.
pub struct Extraction {
    /// The headers, or why they could not be read.
    pub headers: Result<HeaderPair, Error>,
    /// Which hashes of the NPD header are right. Only EDAT has them checked.
    pub hashes: Option<NpdHashReport>,
    /// The key, where one was found.
    pub key: Option<[u8; 16]>,
    /// Which hashes of the container are right. A refusal here does not end
    /// the extraction.
    pub check: Option<CheckReport>,
    /// One report for each block that was read.
    pub log: Vec<BlockReport>,
    /// The payload, as far as it could be read.
    pub output: Vec<u8>,
    /// How the extraction ended.
    pub result: Result<(), Error>,
}

/// Where an extraction starts: no payload yet, and all of it promised.
pub open spec fn nothing_yet(edat: EdatHeader) -> Unpacked {
    Unpacked { out: Seq::empty(), left: edat.file_size, log: Seq::empty() }
}

/// Whether this is what extracting a container finds.
#[verifier::opaque]
pub open spec fn is_extraction(
    keys: KeySet,
    src: Seq<u8>,
    file_name: Seq<char>,
    devklic: Seq<u8>,
    rifkey: Seq<u8>,
    x: Extraction,
) -> bool {
    match x.headers {
        Err(e) => {
            &&& npdata::headers_refused(src) == Some(e)
            &&& x.hashes is None
            &&& x.key is None
            &&& x.check is None
            &&& x.log@.len() == 0
            &&& x.output@.len() == 0
            &&& x.result == Err::<(), Error>(e)
        },
        Ok(h) => {
            &&& npdata::headers_refused(src) is None
            &&& npdata::headers_read(h, src)
            &&& if is_sdat(h.edat) {
                x.hashes is None
            } else {
                &&& x.hashes matches Some(report)
                &&& report.title_ok == (npdata::title_tag(keys, h.npd.content_id@, file_name)
                    == h.npd.title_hash@)
                &&& report.dev_ok == (if devklic == util::zeros(16) {
                    None
                } else {
                    Some(npdata::dev_tag(keys, devklic, h.npd) == h.npd.dev_hash@)
                })
            }
            &&& match extract_key(keys, h.edat, h.npd, devklic, rifkey) {
                Err(e) => {
                    &&& x.key is None
                    &&& x.check is None
                    &&& x.log@.len() == 0
                    &&& x.output@.len() == 0
                    &&& x.result == Err::<(), Error>(e)
                },
                Ok(k) => {
                    let (end, result) = unpack::unpacked(
                        keys,
                        src,
                        h.edat,
                        h.npd,
                        k,
                        nothing_yet(h.edat),
                    );
                    &&& x.key matches Some(key)
                    &&& key@ == k
                    &&& x.check == Some(hashes::checked(keys, src, k, h.edat, h.npd))
                    &&& x.log@ == end.log
                    &&& x.output@ == end.out
                    &&& x.result == result
                },
            }
        },
    }
}

/// The key under which a container is extracted.
pub fn select_extract_key(
    keys: &KeySet,
    h: &HeaderPair,
    devklic: &[u8; 16],
    rifkey: &[u8; 16],
) -> (r: Result<[u8; 16], Error>)
    ensures
        match r {
            Ok(k) => extract_key(*keys, h.edat, h.npd, devklic@, rifkey@) == Ok::<
                Seq<u8>,
                Error,
            >(k@),
            Err(e) => extract_key(*keys, h.edat, h.npd, devklic@, rifkey@) == Err::<
                Seq<u8>,
                Error,
            >(e),
        },
{
    if (h.edat.flags & SDAT_FLAG) == SDAT_FLAG {
        return Ok(xor16(&h.npd.dev_hash, &keys.sdat_key));
    }
    if (h.npd.license & 3) == 3 {
        return Ok(*devklic);
    }
    if (h.npd.license & 1) == 1 || (h.npd.license & 2) == 2 {
        if is_zero_key(rifkey) {
            return Err(Error::RifKeyNeeded);
        }
        return Ok(*rifkey);
    }
    let zero: [u8; 16] = [0u8; 16];
    assert(zero@ =~= util::zeros(16));
    Ok(zero)
}

/// The key under which a container is made.
pub fn select_pack_key(
    keys: &KeySet,
    h: &HeaderPair,
    devklic: &[u8; 16],
    rifkey: &[u8; 16],
) -> (r: Result<[u8; 16], Error>)
    ensures
        match r {
            Ok(k) => pack_key(*keys, h.edat, h.npd, devklic@, rifkey@) == Ok::<Seq<u8>, Error>(k@),
            Err(e) => pack_key(*keys, h.edat, h.npd, devklic@, rifkey@) == Err::<Seq<u8>, Error>(e),
        },
{
    if (h.edat.flags & SDAT_FLAG) == SDAT_FLAG {
        return Ok(xor16(&h.npd.dev_hash, &keys.sdat_key));
    }
    if (h.npd.license & 3) == 3 {
        return Ok(*devklic);
    }
    if (h.npd.license & 2) == 2 {
        if is_zero_key(rifkey) {
            return Err(Error::RifKeyNeeded);
        }
        return Ok(*rifkey);
    }
    if (h.npd.license & 1) == 1 {
        return Err(Error::NetworkLicense);
    }
    let zero: [u8; 16] = [0u8; 16];
    assert(zero@ =~= util::zeros(16));
    Ok(zero)
}

/// A container that can be made under a key is extracted under the same key.
pub proof fn law_same_key(
    keys: KeySet,
    edat: EdatHeader,
    npd: NpdHeader,
    devklic: Seq<u8>,
    rifkey: Seq<u8>,
)
    ensures
        pack_key(keys, edat, npd, devklic, rifkey) matches Ok(k) ==> extract_key(
            keys,
            edat,
            npd,
            devklic,
            rifkey,
        ) == Ok::<Seq<u8>, Error>(k),
{
}

/// Extracts the payload of a container.
#[verifier::rlimit(40)]
pub fn extract_data(
    keys: &KeySet,
    input: &[u8],
    file_name: &str,
    devklic: &[u8; 16],
    rifkey: &[u8; 16],
) -> (x: Extraction)
    ensures
        is_extraction(*keys, input@, file_name@, devklic@, rifkey@, x),
{
    reveal(is_extraction);
    let headers = parse_headers(input);
    let h: HeaderPair = match headers {
        Ok(h) => h,
        Err(e) => {
            return Extraction {
                headers,
                hashes: None,
                key: None,
                check: None,
                log: Vec::new(),
                output: Vec::new(),
                result: Err(e),
            };
        },
    };
    let hashes: Option<NpdHashReport> = if (h.edat.flags & SDAT_FLAG) == SDAT_FLAG {
        None
    } else {
        Some(validate_npd_hashes(keys, file_name, devklic, &h.npd))
    };
    let key: [u8; 16] = match select_extract_key(keys, &h, devklic, rifkey) {
        Ok(key) => key,
        Err(e) => {
            return Extraction {
                headers,
                hashes,
                key: None,
                check: None,
                log: Vec::new(),
                output: Vec::new(),
                result: Err(e),
            };
        },
    };
    let check: CheckReport = check_data(keys, input, &key, &h.edat, &h.npd);
    let mut edat: EdatHeader = h.edat;
    let mut output: Vec<u8> = Vec::new();
    let mut log: Vec<BlockReport> = Vec::new();
    assert(output@ =~= Seq::<u8>::empty());
    assert(log@ =~= Seq::<BlockReport>::empty());
    let result: Result<(), Error> = decrypt_data(
        keys,
        input,
        &mut output,
        &mut edat,
        &h.npd,
        &key,
        &mut log,
    );
    Extraction { headers, hashes, key: Some(key), check: Some(check), log, output, result }
}

/// The flags of a new container.
pub open spec fn pack_flags(
    version: u32,
    use_compression: bool,
    is_edat: bool,
    is_finalized: bool,
) -> u32 {
    let base: u32 = if version == 1 {
        0x00
    } else if version == 2 {
        0x0C
    } else {
        0x3C
    };
    let layout: u32 = if !use_compression {
        base
    } else if version >= 3 {
        0x0C | EDAT_COMPRESSED_FLAG
    } else {
        base | EDAT_COMPRESSED_FLAG
    };
    let format: u32 = if is_edat {
        layout
    } else {
        layout | SDAT_FLAG
    };
    if is_finalized {
        format
    } else {
        format | EDAT_DEBUG_DATA_FLAG
    }
}

/// The EDAT header of a new container.
pub open spec fn pack_edat(
    version: u32,
    block_kb: u32,
    use_compression: bool,
    is_edat: bool,
    is_finalized: bool,
    file_size: u64,
) -> EdatHeader {
    EdatHeader {
        flags: pack_flags(version, use_compression, is_edat, is_finalized),
        block_size: (block_kb * 1024 % 0x1_0000_0000) as u32,
        file_size,
    }
}

/// The EDAT header of a new container. The block size is taken in 32 bits.
pub fn make_edat_header(
    version: u32,
    block_kb: u32,
    use_compression: bool,
    is_edat: bool,
    is_finalized: bool,
    file_size: u64,
) -> (edat: EdatHeader)
    ensures
        edat == pack_edat(
            version,
            block_kb,
            use_compression,
            is_edat,
            is_finalized,
            file_size,
        ),
{
    let mut flags: u32 = if version == 1 {
        0x00
    } else if version == 2 {
        0x0C
    } else {
        0x3C
    };
    if use_compression {
        if version >= 3 {
            flags = 0x0C | EDAT_COMPRESSED_FLAG;
        } else {
            flags = flags | EDAT_COMPRESSED_FLAG;
        }
    }
    if !is_edat {
        flags = flags | SDAT_FLAG;
    }
    if !is_finalized {
        flags = flags | EDAT_DEBUG_DATA_FLAG;
    }
    let block_size: u32 = (block_kb as u64 * 1024 % 0x1_0000_0000) as u32;
    EdatHeader { flags, block_size, file_size }
}

/// Whether this is the NPD header of a new container: signed with the
/// klicensee where it is finalized, and else blank.
pub open spec fn is_new_npd(
    keys: KeySet,
    npd: NpdHeader,
    file_name: Seq<char>,
    content_id: Seq<char>,
    devklic: Seq<u8>,
    version: u32,
    license: u32,
    npd_type: u32,
    is_finalized: bool,
    digest: Seq<u8>,
) -> bool {
    &&& npd.magic@ == npdata::npd_magic()
    &&& npd.unk1 == 0
    &&& npd.unk2 == 0
    &&& if is_finalized {
        &&& npd.version == version
        &&& npd.license == license
        &&& npd.npd_type == npd_type
        &&& npd.content_id@ == npdata::content_id_bytes(content_id)
        &&& npd.digest@ == digest
        &&& npd.title_hash@ == npdata::title_tag(keys, npd.content_id@, file_name)
        &&& npd.dev_hash@ == npdata::dev_tag(keys, devklic, npd)
    } else {
        &&& npd.version == (if version == 1 {
            0
        } else {
            version
        })
        &&& npd.license == 0
        &&& npd.npd_type == 0
        &&& npd.content_id@ == util::zeros(0x30)
        &&& npd.digest@ == util::zeros(16)
        &&& npd.title_hash@ == util::zeros(16)
        &&& npd.dev_hash@ == util::zeros(16)
    }
}

/// The NPD header of a new container.
pub fn make_npd_header(
    keys: &KeySet,
    file_name: &str,
    content_id: &str,
    devklic: &[u8; 16],
    version: u32,
    license: u32,
    npd_type: u32,
    is_finalized: bool,
    digest: &[u8; 16],
) -> (npd: NpdHeader)
    ensures
        is_new_npd(
            *keys,
            npd,
            file_name@,
            content_id@,
            devklic@,
            version,
            license,
            npd_type,
            is_finalized,
            digest@,
        ),
{
    let mut npd = NpdHeader {
        magic: [0x4E, 0x50, 0x44, 0x00],
        version: if version == 1 && !is_finalized {
            0
        } else {
            version
        },
        license: 0,
        npd_type: 0,
        content_id: [0u8; 0x30],
        digest: [0u8; 0x10],
        title_hash: [0u8; 0x10],
        dev_hash: [0u8; 0x10],
        unk1: 0,
        unk2: 0,
    };
    assert(npd.magic@ =~= npdata::npd_magic());
    assert(npd.content_id@ =~= util::zeros(0x30));
    assert(npd.digest@ =~= util::zeros(16));
    if is_finalized {
        npd.license = license;
        npd.npd_type = npd_type;
        npd.content_id = content_id_48(content_id);
        npd.digest = *digest;
        forge_npd_title_hash(keys, file_name, &mut npd);
        let ghost titled = npd;
        forge_npd_dev_hash(keys, devklic, &mut npd);
        assert(npdata::npd_dev_bytes(npd) == npdata::npd_dev_bytes(titled));
    }
    npd
}

/// The random bytes that go into a new container.
pub struct PackRandom {
    /// The initial vector of the blocks.
    pub digest: [u8; 16],
    /// One mask for each block.
    pub masks: Vec<[u8; 16]>,
    /// The signature.
    pub signature: [u8; 0x50],
}

/// What came of making a container.
pub struct Packing {
    /// The headers, unless the version was refused.
    pub headers: Option<HeaderPair>,
    /// The key, where there is one.
    pub key: Option<[u8; 16]>,
    /// The container, as far as it was made.
    pub output: Vec<u8>,
    /// How it ended.
    pub result: Result<(), Error>,
}

/// A container that holds its headers alone.
#[verifier::opaque]
pub open spec fn headed(h: HeaderPair) -> Tape {
    let bytes = npdata::npd_header_bytes(h.npd) + npdata::edat_header_bytes(h.edat);
    Tape { bytes, pos: bytes.len() }
}

/// A container made from its headers, its key and its payload.
pub open spec fn container(
    keys: KeySet,
    src: Seq<u8>,
    h: HeaderPair,
    key: Seq<u8>,
    is_finalized: bool,
    masks: Seq<[u8; 16]>,
    signature: Seq<u8>,
) -> (Tape, Result<(), Error>) {
    let (filled, result) = pack::packed(keys, src, h.edat, h.npd, key, masks, headed(h));
    if result is Err || !is_finalized {
        (filled, result)
    } else {
        match hashes::forged(keys, filled, key, h.edat, h.npd, signature) {
            Ok(t) => (t, Ok(())),
            Err(e) => (filled, Err(e)),
        }
    }
}

/// What extracting a container that was made from `payload` must find: its
/// headers, the key it was made under, the payload, and every tag matching.
pub open spec fn gives_back(x: Extraction, h: HeaderPair, key: Seq<u8>, payload: Seq<u8>) -> bool {
    &&& x.headers == Ok::<HeaderPair, Error>(h)
    &&& x.key matches Some(k)
    &&& k@ == key
    &&& x.output@ == payload
    &&& x.result is Ok
    &&& forall|i: int| 0 <= i < x.log@.len() ==> (#[trigger] x.log@[i]).tag_ok
}

/// Whether the hashes of an extracted container were all found right.
pub open spec fn all_hashes_right(x: Extraction) -> bool {
    x.check == Some(hashes::both_right())
}

/// Whether the hashes of an extracted NPD header were all found right, as far
/// as the klicensee allows to check them.
pub open spec fn npd_hashes_right(x: Extraction, devklic: Seq<u8>) -> bool {
    x.hashes == Some(
        NpdHashReport {
            title_ok: true,
            dev_ok: if devklic == util::zeros(16) {
                None
            } else {
                Some(true)
            },
        },
    )
}

pub(crate) proof fn lemma_is_extraction_of(
    keys: KeySet,
    src: Seq<u8>,
    file_name: Seq<char>,
    devklic: Seq<u8>,
    rifkey: Seq<u8>,
    x: Extraction,
    h: HeaderPair,
    key: Seq<u8>,
)
    requires
        is_extraction(keys, src, file_name, devklic, rifkey, x),
        src.len() >= 0x90,
        src.take(0x90) == npdata::npd_header_bytes(h.npd) + npdata::edat_header_bytes(h.edat),
        h.npd.magic@ == npdata::npd_magic(),
        extract_key(keys, h.edat, h.npd, devklic, rifkey) == Ok::<Seq<u8>, Error>(key),
    ensures
        x.headers == Ok::<HeaderPair, Error>(h),
        x.key matches Some(k) && k@ == key,
        x.check == Some(hashes::checked(keys, src, key, h.edat, h.npd)),
        !is_sdat(h.edat) && npdata::title_tag(keys, h.npd.content_id@, file_name)
            == h.npd.title_hash@ && npdata::dev_tag(keys, devklic, h.npd) == h.npd.dev_hash@
            ==> npd_hashes_right(x, devklic),
        ({
            let (end, result) = unpack::unpacked(
                keys,
                src,
                h.edat,
                h.npd,
                key,
                nothing_yet(h.edat),
            );
            &&& x.log@ == end.log
            &&& x.output@ == end.out
            &&& x.result == result
        }),
{
    reveal(is_extraction);
    npdata::law_headers_round_trip(h, src);
    let g = x.headers->Ok_0;
    npdata::law_headers_determined(g, h, src);
}

/// What extracting finds follows from what the container was made to hold.
proof fn lemma_extraction_of_packed(
    keys: KeySet,
    src: Seq<u8>,
    file_name: Seq<char>,
    devklic: Seq<u8>,
    rifkey: Seq<u8>,
    x: Extraction,
    h: HeaderPair,
    key: Seq<u8>,
    payload: Seq<u8>,
)
    requires
        is_extraction(keys, src, file_name, devklic, rifkey, x),
        src.len() >= 0x90,
        src.take(0x90) == headed(h).bytes,
        h.npd.magic@ == npdata::npd_magic(),
        extract_key(keys, h.edat, h.npd, devklic, rifkey) == Ok::<Seq<u8>, Error>(key),
    ensures
        pack::restores(keys, src, h.edat, h.npd, key, payload) ==> gives_back(x, h, key, payload),
        hashes::checked(keys, src, key, h.edat, h.npd) == hashes::both_right()
            ==> all_hashes_right(x),
        !is_sdat(h.edat) && npdata::title_tag(keys, h.npd.content_id@, file_name)
            == h.npd.title_hash@ && npdata::dev_tag(keys, devklic, h.npd) == h.npd.dev_hash@
            ==> npd_hashes_right(x, devklic),
{
    reveal(headed);
    reveal(pack::restores);
    lemma_is_extraction_of(keys, src, file_name, devklic, rifkey, x, h, key);
    let start = nothing_yet(h.edat);
    let outcome = unpack::unpacked(keys, src, h.edat, h.npd, key, start);
    if pack::restores(keys, src, h.edat, h.npd, key, payload) {
        assert(pack::adds(start, outcome, payload));
        assert(start.out + payload =~= payload);
    }
}

proof fn lemma_pack_flags(
    version: u32,
    use_compression: bool,
    is_edat: bool,
    is_finalized: bool,
)
    ensures
        ({
            let flags = pack_flags(version, use_compression, is_edat, is_finalized);
            &&& blocks::flagged(flags, EDAT_COMPRESSED_FLAG) == use_compression
            &&& blocks::flagged(flags, EDAT_DEBUG_DATA_FLAG) == !is_finalized
            &&& (flags & SDAT_FLAG == SDAT_FLAG) == !is_edat
            &&& is_finalized && 1 <= version <= 4 ==> hashes::flags_checked(version, flags) is Ok
        }),
{
    let flags = pack_flags(version, use_compression, is_edat, is_finalized);
    let layout: u32 = if !use_compression {
        if version == 1 {
            0x00
        } else if version == 2 {
            0x0C
        } else {
            0x3C
        }
    } else if version == 0 {
        0x3D
    } else if version == 1 {
        0x01
    } else {
        0x0D
    };
    let format: u32 = if is_edat {
        layout
    } else {
        layout | 0x0100_0000
    };
    let whole: u32 = if is_finalized {
        format
    } else {
        format | 0x8000_0000
    };
    assert(0x00u32 | 0x01 == 0x01 && 0x0Cu32 | 0x01 == 0x0D && 0x3Cu32 | 0x01 == 0x3D && 0x3Cu32 & 1
        == 0 && 0x3Du32 & 1 != 0) by (bit_vector);
    assert((whole & 0x01 != 0) == (layout & 0x01 != 0) && (whole & 0x8000_0000 != 0)
        == !is_finalized && (whole & 0x0100_0000 == 0x0100_0000) == !is_edat && (whole
        & 0x7EFF_FFFE != 0) == (layout & 0x7EFF_FFFE != 0) && (whole & 0x7EFF_FFE0 != 0) == (layout
        & 0x7EFF_FFE0 != 0) && (whole & 0x7EFF_FFC0 != 0) == (layout & 0x7EFF_FFC0 != 0))
        by (bit_vector)
        requires
            layout == 0 || layout == 1 || layout == 0x0C || layout == 0x0D || layout == 0x3C || layout
                == 0x3D,
            format == (if is_edat {
                layout
            } else {
                layout | 0x0100_0000
            }),
            whole == (if is_finalized {
                format
            } else {
                format | 0x8000_0000
            }),
    ;
    assert(0u32 & 1 == 0 && 1u32 & 1 != 0 && 0x0Cu32 & 1 == 0 && 0x0Du32 & 1 != 0 && 0u32
        & 0x7EFF_FFFE == 0 && 1u32 & 0x7EFF_FFFE == 0 && 0x0Cu32 & 0x7EFF_FFE0 == 0 && 0x0Du32
        & 0x7EFF_FFE0 == 0 && 0x0Cu32 & 0x7EFF_FFC0 == 0 && 0x0Du32 & 0x7EFF_FFC0 == 0 && 0x3Cu32
        & 0x7EFF_FFC0 == 0) by (bit_vector);
    assert(whole == flags);
}

/// Whether the container's layout lets its payload be extracted again. A
/// compressed container reads back only where it is finalized, of version 2 or
/// later, and has all blocks below four gigabytes.
pub open spec fn extractable(
    edat: EdatHeader,
    version: u32,
    use_compression: bool,
    is_finalized: bool,
) -> bool {
    !use_compression || edat.file_size == 0 || (is_finalized && version > 1 && blocks::data_at(
        edat,
        (blocks::blocks_of(edat) - 1) as nat,
    ) <= 0xFFFF_FFFF)
}

proof fn lemma_extractable(
    npd: NpdHeader,
    version: u32,
    block_kb: u32,
    use_compression: bool,
    is_edat: bool,
    is_finalized: bool,
    file_size: u64,
)
    requires
        is_finalized ==> npd.version == version,
        ({
            let edat = pack_edat(
                version,
                block_kb,
                use_compression,
                is_edat,
                is_finalized,
                file_size,
            );
            &&& edat.block_size != 0
            &&& pack::counted(edat)
            &&& extractable(edat, version, use_compression, is_finalized)
        }),
    ensures
        pack::layout_reads_back(
            pack_edat(version, block_kb, use_compression, is_edat, is_finalized, file_size),
            npd,
        ),
{
    let edat = pack_edat(version, block_kb, use_compression, is_edat, is_finalized, file_size);
    lemma_pack_flags(version, use_compression, is_edat, is_finalized);
    pack::law_blocks_cover(edat, 0);
}

/// Starts a container with its headers.
fn start_container(h: &HeaderPair) -> (image: Image)
    ensures
        image@ == headed(*h),
        image@.pos == 0x90,
        image@.bytes.len() == 0x90,
{
    reveal(headed);
    let mut image: Image = Image::new();
    write_npd_header(&mut image, &h.npd);
    write_edat_header(&mut image, &h.edat);
    assert(image@.bytes =~= headed(*h).bytes);
    image
}

/// Makes a container from its headers, its key and its payload.
#[verifier::rlimit(40)]
fn fill_container(
    keys: &KeySet,
    input: &[u8],
    h: &HeaderPair,
    key: &[u8; 16],
    is_finalized: bool,
    random: &PackRandom,
) -> (r: (Vec<u8>, Result<(), Error>))
    requires
        h.edat.block_size != 0 ==> {
            &&& input@.len() + 0x20 * blocks::blocks_of(h.edat) + 0x200 <= usize::MAX
            &&& blocks::flagged(h.edat.flags, EDAT_FLAG_0X20) && !blocks::flagged(
                h.edat.flags,
                EDAT_COMPRESSED_FLAG,
            ) ==> random.masks@.len() >= blocks::blocks_of(h.edat)
        },
    ensures
        ({
            let (tape, result) = container(
                *keys,
                input@,
                *h,
                key@,
                is_finalized,
                random.masks@,
                random.signature@,
            );
            r.0@ == tape.bytes && r.1 == result
        }),
        h.edat.block_size == 0 ==> r.1 == Err::<(), Error>(Error::ZeroBlockSize),
        h.edat.block_size != 0 && pack::counted(h.edat) && h.edat.file_size == input@.len() ==> {
            &&& r.1 is Ok
            &&& r.0@.len() == pack::container_len(h.edat)
            &&& r.0@.len() >= 0x100
            &&& r.0@.take(0x90) == headed(*h).bytes
            &&& pack::layout_reads_back(h.edat, h.npd) ==> pack::restores(
                *keys,
                r.0@,
                h.edat,
                h.npd,
                key@,
                input@,
            )
            &&& is_finalized && hashes::flags_checked(h.npd.version, h.edat.flags) is Ok
                ==> hashes::checked(*keys, r.0@, key@, h.edat, h.npd) == hashes::both_right()
        },
{
    let mut image: Image = start_container(h);
    let ghost start = image@;
    assert(start.bytes.take(0x90) =~= start.bytes);
    let filled: Result<(), Error> = encrypt_data(
        keys,
        input,
        &mut image,
        &h.edat,
        &h.npd,
        key,
        &random.masks,
    );
    let result: Result<(), Error> = if filled.is_ok() && is_finalized {
        match forge_data(keys, &mut image, key, &h.edat, &h.npd, &random.signature) {
            Ok(_) => Ok(()),
            Err(e) => Err(e),
        }
    } else {
        filled
    };
    proof {
        if h.edat.block_size != 0 && pack::counted(h.edat) && h.edat.file_size == input@.len()
            && pack::layout_reads_back(h.edat, h.npd) {
            pack::law_read_back_restores(
                *keys,
                image.bytes@,
                h.edat,
                h.npd,
                key@,
                input@,
            );
            assert(input@.take(h.edat.file_size as int) =~= input@);
        }
    }
    (image.bytes, result)
}

/// Makes a container from a payload. `file_name` is the name that the title
/// hash signs.
///
/// SDAT containers start at version 2, and the license decides which key is
/// needed. With a key and a block size, and few enough blocks to count, the
/// container is made, as long as its headers, metadata, padded payload and
/// footer. Extracting it with the same klicensee and RIF key then
/// gives the payload back, wherever its layout allows that, and finds all
/// hashes of a finalized container right; the title hash, if it keeps its name.
#[verifier::rlimit(40)]
pub fn pack_data(
    keys: &KeySet,
    input: &[u8],
    file_name: &str,
    content_id: &str,
    devklic: &[u8; 16],
    rifkey: &[u8; 16],
    version: u32,
    license: u32,
    npd_type: u32,
    block_kb: u32,
    use_compression: bool,
    is_edat: bool,
    is_finalized: bool,
    random: &PackRandom,
) -> (p: Packing)
    requires
        ({
            let edat = pack_edat(
                version,
                block_kb,
                use_compression,
                is_edat,
                is_finalized,
                input@.len() as u64,
            );
            edat.block_size != 0 ==> {
                &&& input@.len() + 0x20 * blocks::blocks_of(edat) + 0x200 <= usize::MAX
                &&& blocks::flagged(edat.flags, EDAT_FLAG_0X20) && !use_compression
                    ==> random.masks@.len() >= blocks::blocks_of(edat)
            }
        }),
    ensures
        version == 1 && !is_edat ==> {
            &&& p.headers is None
            &&& p.key is None
            &&& p.output@.len() == 0
            &&& p.result == Err::<(), Error>(Error::InvalidSdatVersion)
        },
        !(version == 1 && !is_edat) ==> {
            &&& p.headers matches Some(h)
            &&& h.edat == pack_edat(
                version,
                block_kb,
                use_compression,
                is_edat,
                is_finalized,
                input@.len() as u64,
            )
            &&& is_new_npd(
                *keys,
                h.npd,
                file_name@,
                content_id@,
                devklic@,
                version,
                license,
                npd_type,
                is_finalized,
                random.digest@,
            )
            &&& match pack_key(*keys, h.edat, h.npd, devklic@, rifkey@) {
                Err(e) => {
                    &&& p.key is None
                    &&& p.output@.len() == 0
                    &&& p.result == Err::<(), Error>(e)
                },
                Ok(k) => {
                    let (tape, result) = container(
                        *keys,
                        input@,
                        h,
                        k,
                        is_finalized,
                        random.masks@,
                        random.signature@,
                    );
                    &&& p.key matches Some(key)
                    &&& key@ == k
                    &&& p.output@ == tape.bytes
                    &&& p.result == result
                    &&& h.edat.block_size == 0 ==> result == Err::<(), Error>(Error::ZeroBlockSize)
                    &&& h.edat.block_size != 0 && pack::counted(h.edat) ==> {
                        &&& result is Ok
                        &&& p.output@.len() == 0x110 + blocks::blocks_of(h.edat)
                            * blocks::section_size(h.edat.flags) + blocks::padded(input@.len())
                    }
                    &&& forall|name: Seq<char>, x: Extraction|
                        h.edat.block_size != 0 && pack::counted(h.edat)
                            && #[trigger] is_extraction(
                            *keys,
                            p.output@,
                            name,
                            devklic@,
                            rifkey@,
                            x,
                        ) ==> {
                            &&& extractable(h.edat, version, use_compression, is_finalized)
                                ==> gives_back(x, h, k, input@)
                            &&& is_finalized && 1 <= version <= 4 ==> all_hashes_right(x)
                            &&& is_finalized && is_edat && name == file_name@ ==> npd_hashes_right(
                                x,
                                devklic@,
                            )
                        }
                },
            }
        },
{
    if version == 1 && !is_edat {
        return Packing {
            headers: None,
            key: None,
            output: Vec::new(),
            result: Err(Error::InvalidSdatVersion),
        };
    }
    let npd: NpdHeader = make_npd_header(
        keys,
        file_name,
        content_id,
        devklic,
        version,
        license,
        npd_type,
        is_finalized,
        &random.digest,
    );
    let edat: EdatHeader = make_edat_header(
        version,
        block_kb,
        use_compression,
        is_edat,
        is_finalized,
        input.len() as u64,
    );
    let h = HeaderPair { npd, edat };
    let key: [u8; 16] = match select_pack_key(keys, &h, devklic, rifkey) {
        Ok(key) => key,
        Err(e) => {
            return Packing { headers: Some(h), key: None, output: Vec::new(), result: Err(e) };
        },
    };
    proof {
        lemma_pack_flags(version, use_compression, is_edat, is_finalized);
        law_same_key(*keys, edat, npd, devklic@, rifkey@);
        if edat.block_size != 0 && pack::counted(edat) && extractable(
            edat,
            version,
            use_compression,
            is_finalized,
        ) {
            lemma_extractable(
                npd,
                version,
                block_kb,
                use_compression,
                is_edat,
                is_finalized,
                edat.file_size,
            );
        }
    }
    let (output, result) = fill_container(keys, input, &h, &key, is_finalized, random);
    proof {
        if edat.block_size != 0 && pack::counted(edat) {
            pack::law_container_len(edat);
            assert forall|name: Seq<char>, x: Extraction| #[trigger]
                is_extraction(*keys, output@, name, devklic@, rifkey@, x) implies {
                &&& extractable(edat, version, use_compression, is_finalized) ==> gives_back(
                    x,
                    h,
                    key@,
                    input@,
                )
                &&& is_finalized && 1 <= version <= 4 ==> all_hashes_right(x)
                &&& is_finalized && is_edat && name == file_name@ ==> npd_hashes_right(x, devklic@)
            } by {
                lemma_extraction_of_packed(
                    *keys,
                    output@,
                    name,
                    devklic@,
                    rifkey@,
                    x,
                    h,
                    key@,
                    input@,
                );
            }
        }
    }
    Packing { headers: Some(h), key: Some(key), output, result }
}

} // verus!
