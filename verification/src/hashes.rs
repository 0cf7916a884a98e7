//! The hashes over a container's headers and metadata: checking them, and
//! forging them.

use vstd::prelude::*;

use crate::blocks;
use crate::constants::{KeySet, EDAT_DEBUG_DATA_FLAG, EDAT_ENCRYPTED_KEY_FLAG};
use crate::crypto;
use crate::crypto::{decrypt_and_verify, encrypt_and_hash};
use crate::error::Error;
use crate::image;
use crate::image::{take_at, Image, Tape};
use crate::npdata::{EdatHeader, NpdHeader};
use crate::pack;
use crate::util;

verus! {

/// Which hashes of a container are right, and how the check ended.
#[derive(Clone, Copy, Debug, PartialEq, Eq)]
pub struct CheckReport {
    /// Whether the hash of the headers is right; none where the check ended
    /// before it.
    pub header_ok: Option<bool>,
    /// Whether the hash of the metadata is right; none where the check ended
    /// before it.
    pub metadata_ok: Option<bool>,
    /// How the check ended. A wrong hash does not end it.
    pub result: Result<(), Error>,
}

/// The report of a check that was refused after these findings.
pub open spec fn check_ended(header_ok: Option<bool>, e: Error) -> CheckReport {
    CheckReport { header_ok, metadata_ok: None, result: Err(e) }
}

/// The report of a check that found both hashes right.
pub open spec fn both_right() -> CheckReport {
    CheckReport { header_ok: Some(true), metadata_ok: Some(true), result: Ok(()) }
}

/// Whether a version defines all flags that are set.
pub open spec fn flags_checked(version: u32, flags: u32) -> Result<(), Error> {
    if version > 4 {
        Err(Error::UnknownVersion { version })
    } else if flags & (if version <= 1 {
        0x7EFF_FFFEu32
    } else if version == 2 {
        0x7EFF_FFE0
    } else {
        0x7EFF_FFC0
    }) != 0 {
        Err(Error::BadFlags { version })
    } else {
        Ok(())
    }
}

/// How the headers and the metadata are hashed.
pub open spec fn header_hash_mode(flags: u32) -> u32 {
    let mode: u32 = if blocks::flagged(flags, EDAT_ENCRYPTED_KEY_FLAG) {
        0x1000_0002
    } else {
        0x0000_0002
    };
    if blocks::flagged(flags, EDAT_DEBUG_DATA_FLAG) {
        mode | 0x0100_0000
    } else {
        mode
    }
}

/// Whether a hash over some part of the container is right.
pub open spec fn part_checked(
    keys: KeySet,
    flags: u32,
    version: u32,
    part: Seq<u8>,
    key: Seq<u8>,
    hash: Seq<u8>,
) -> Result<(Seq<u8>, bool), Error> {
    crypto::opened(
        keys,
        header_hash_mode(flags),
        1,
        version == 4,
        part,
        util::zeros(16),
        util::zeros(16),
        key,
        hash,
    )
}

/// The hash over some part of the container.
pub open spec fn part_hashed(
    keys: KeySet,
    flags: u32,
    version: u32,
    part: Seq<u8>,
    key: Seq<u8>,
) -> Result<(Seq<u8>, Seq<u8>), Error> {
    crypto::sealed(
        keys,
        header_hash_mode(flags),
        1,
        version == 4,
        part,
        util::zeros(16),
        util::zeros(16),
        key,
    )
}

/// What a check of a container finds: first whether its flags make sense, then
/// the hash of the first 0xA0 bytes, then the hash of the metadata.
#[verifier::opaque]
pub open spec fn checked(
    keys: KeySet,
    src: Seq<u8>,
    key: Seq<u8>,
    edat: EdatHeader,
    npd: NpdHeader,
) -> CheckReport {
    match flags_checked(npd.version, edat.flags) {
        Err(e) => check_ended(None, e),
        Ok(_) => if src.len() < 0xB0 {
            check_ended(None, Error::UnexpectedEof)
        } else {
            match part_checked(
                keys,
                edat.flags,
                npd.version,
                src.take(0xA0),
                key,
                src.subrange(0xA0, 0xB0),
            ) {
                Err(e) => check_ended(None, e),
                Ok((_, header_ok)) => if edat.block_size == 0 {
                    check_ended(Some(header_ok), Error::ZeroBlockSize)
                } else {
                    match image::read_at(
                        src,
                        0x100,
                        (blocks::blocks_of(edat) * blocks::section_size(edat.flags)) as int,
                    ) {
                        None => check_ended(Some(header_ok), Error::UnexpectedEof),
                        Some(metadata) => match part_checked(
                            keys,
                            edat.flags,
                            npd.version,
                            metadata,
                            key,
                            src.subrange(0x90, 0xA0),
                        ) {
                            Err(e) => check_ended(Some(header_ok), e),
                            Ok((_, metadata_ok)) => CheckReport {
                                header_ok: Some(header_ok),
                                metadata_ok: Some(metadata_ok),
                                result: Ok(()),
                            },
                        },
                    }
                },
            }
        },
    }
}

/// The container with its hashes forged and a signature put behind them. It is
/// refused where it ends before its metadata does.
#[verifier::opaque]
pub open spec fn forged(
    keys: KeySet,
    tape: Tape,
    key: Seq<u8>,
    edat: EdatHeader,
    npd: NpdHeader,
    signature: Seq<u8>,
) -> Result<Tape, Error> {
    if edat.block_size == 0 {
        Err(Error::ZeroBlockSize)
    } else {
        match image::read_at(
            tape.bytes,
            0x100,
            (blocks::blocks_of(edat) * blocks::section_size(edat.flags)) as int,
        ) {
            None => Err(Error::UnexpectedEof),
            Some(metadata) => match part_hashed(keys, edat.flags, npd.version, metadata, key) {
                Err(e) => Err(e),
                Ok((_, metadata_hash)) => {
                    let t = tape.at(0x90).written(metadata_hash.take(16));
                    match part_hashed(keys, edat.flags, npd.version, t.bytes.take(0xA0), key) {
                        Err(e) => Err(e),
                        Ok((_, header_hash)) => Ok(
                            t.at(0xA0).written(header_hash.take(16)).at(0xB0).written(signature),
                        ),
                    }
                },
            },
        }
    }
}

/// Whether a version defines all flags that are set.
pub fn check_flags(version: u32, flags: u32) -> (r: Result<(), Error>)
    ensures
        r == flags_checked(version, flags),
{
    if version > 4 {
        return Err(Error::UnknownVersion { version });
    }
    let unknown: u32 = if version <= 1 {
        0x7EFF_FFFE
    } else if version == 2 {
        0x7EFF_FFE0
    } else {
        0x7EFF_FFC0
    };
    if (flags & unknown) != 0 {
        return Err(Error::BadFlags { version });
    }
    Ok(())
}

/// How the headers and the metadata are hashed.
fn hash_mode_of_headers(flags: u32) -> (mode: u32)
    ensures
        mode == header_hash_mode(flags),
{
    let mode: u32 = if (flags & EDAT_ENCRYPTED_KEY_FLAG) == 0 {
        0x0000_0002
    } else {
        0x1000_0002
    };
    if (flags & EDAT_DEBUG_DATA_FLAG) != 0 {
        mode | 0x0100_0000
    } else {
        mode
    }
}

proof fn lemma_header_modes(flags: u32)
    ensures
        header_hash_mode(flags) & 0xFF == 2,
        header_hash_mode(flags) & 0xF000_0000 == 0 || header_hash_mode(flags) & 0xF000_0000
            == 0x1000_0000,
        1u32 & 0xFF == 1,
        1u32 & 0xF000_0000 == 0,
{
    let mode = header_hash_mode(flags);
    assert(mode == 2 || mode == 0x1000_0002 || mode == 2u32 | 0x0100_0000 || mode == 0x1000_0002u32
        | 0x0100_0000);
    assert(mode & 0xFF == 2 && (mode & 0xF000_0000 == 0 || mode & 0xF000_0000 == 0x1000_0000))
        by (bit_vector)
        requires
            mode == 2 || mode == 0x1000_0002 || mode == 2u32 | 0x0100_0000 || mode
                == 0x1000_0002u32 | 0x0100_0000,
    ;
    assert(1u32 & 0xFF == 1 && 1u32 & 0xF000_0000 == 0) by (bit_vector);
}

/// Checks a hash over some part of the container.
fn check_part(
    keys: &KeySet,
    edat: &EdatHeader,
    npd: &NpdHeader,
    part: &[u8],
    key: &[u8; 16],
    hash: &[u8],
) -> (r: Result<bool, Error>)
    requires
        part@.len() <= 0x20_0000_0000,
        hash@.len() == 16,
    ensures
        match r {
            Ok(ok) => part_checked(
                *keys,
                edat.flags,
                npd.version,
                part@,
                key@,
                hash@,
            ) matches Ok((_, same)) && ok == same,
            Err(e) => part_checked(*keys, edat.flags, npd.version, part@, key@, hash@) == Err::<
                (Seq<u8>, bool),
                Error,
            >(e),
        },
{
    let zero: [u8; 16] = [0u8; 16];
    assert(zero@ =~= util::zeros(16));
    match decrypt_and_verify(
        keys,
        hash_mode_of_headers(edat.flags),
        1,
        npd.version == 4,
        part,
        &zero,
        &zero,
        key,
        hash,
    ) {
        Ok((_, ok)) => Ok(ok),
        Err(e) => Err(e),
    }
}

/// Hashes some part of the container. The hash checks.
fn hash_part(
    keys: &KeySet,
    edat: &EdatHeader,
    npd: &NpdHeader,
    part: &[u8],
    key: &[u8; 16],
) -> (r: Result<[u8; 16], Error>)
    requires
        part@.len() <= 0x20_0000_0000,
    ensures
        r matches Ok(hash) && {
            &&& part_hashed(*keys, edat.flags, npd.version, part@, key@) matches Ok((_, tag))
            &&& hash@ == tag.take(16)
            &&& part_checked(*keys, edat.flags, npd.version, part@, key@, hash@) matches Ok((_, ok))
            &&& ok
        },
{
    let zero: [u8; 16] = [0u8; 16];
    assert(zero@ =~= util::zeros(16));
    proof {
        lemma_header_modes(edat.flags);
    }
    match encrypt_and_hash(
        keys,
        hash_mode_of_headers(edat.flags),
        1,
        npd.version == 4,
        part,
        &zero,
        &zero,
        key,
    ) {
        Ok((_, tag)) => {
            let hash: [u8; 16] = util::first16(&tag);
            assert(hash@.take(16) =~= hash@);
            Ok(hash)
        },
        Err(e) => Err(e),
    }
}

/// How many bytes of metadata a container has.
fn metadata_len(edat: &EdatHeader) -> (r: Result<u64, Error>)
    ensures
        match r {
            Ok(n) => edat.block_size != 0 && n == blocks::blocks_of(*edat) * blocks::section_size(
                edat.flags,
            ) && n <= 0x20_0000_0000,
            Err(e) => edat.block_size == 0 && e == Error::ZeroBlockSize,
        },
{
    match blocks::block_count(edat) {
        Ok(blocks) => {
            if blocks::metadata_section_size(edat) == 0x20 {
                Ok(blocks as u64 * 0x20)
            } else {
                Ok(blocks as u64 * 0x10)
            }
        },
        Err(e) => Err(e),
    }
}

/// Checks the flags, the hash of the headers and the hash of the metadata of a
/// container. What was found before a refusal stays in the report.
pub fn check_data(
    keys: &KeySet,
    reader: &[u8],
    key: &[u8; 16],
    edat: &EdatHeader,
    npd: &NpdHeader,
) -> (r: CheckReport)
    ensures
        r == checked(*keys, reader@, key@, *edat, *npd),
{
    reveal(checked);
    let mut report = CheckReport { header_ok: None, metadata_ok: None, result: Ok(()) };
    match check_flags(npd.version, edat.flags) {
        Ok(()) => {},
        Err(e) => {
            report.result = Err(e);
            return report;
        },
    }
    if reader.len() < 0xB0 {
        report.result = Err(Error::UnexpectedEof);
        return report;
    }
    let header = vstd::slice::slice_subrange(reader, 0, 0xA0);
    let metadata_hash = vstd::slice::slice_subrange(reader, 0x90, 0xA0);
    let header_hash = vstd::slice::slice_subrange(reader, 0xA0, 0xB0);
    assert(header@ =~= reader@.take(0xA0));
    match check_part(keys, edat, npd, header, key, header_hash) {
        Ok(ok) => {
            report.header_ok = Some(ok);
        },
        Err(e) => {
            report.result = Err(e);
            return report;
        },
    }
    let size: u64 = match metadata_len(edat) {
        Ok(size) => size,
        Err(e) => {
            report.result = Err(e);
            return report;
        },
    };
    let metadata = match take_at(reader, 0x100, size) {
        Ok(metadata) => metadata,
        Err(e) => {
            report.result = Err(e);
            return report;
        },
    };
    match check_part(keys, edat, npd, metadata, key, metadata_hash) {
        Ok(ok) => {
            report.metadata_ok = Some(ok);
        },
        Err(e) => {
            report.result = Err(e);
        },
    }
    report
}

/// Puts the hash of the metadata in its place.
pub fn put_metadata_hash(writer: &mut Image, hash: &[u8; 16])
    ensures
        final(writer)@ == old(writer)@.at(0x90).written(hash@),
{
    writer.seek(0x90);
    writer.write_all(hash);
}

/// Puts the hash of the headers in its place, and a signature behind it.
pub fn put_header_hash(writer: &mut Image, hash: &[u8; 16], signature: &[u8; 0x50])
    ensures
        final(writer)@ == old(writer)@.at(0xA0).written(hash@).at(0xB0).written(signature@),
{
    writer.seek(0xA0);
    writer.write_all(hash);
    writer.seek(0xB0);
    writer.write_all(signature);
}

/// Forges the hashes of the metadata and of the headers, and puts a signature
/// behind them.
///
/// Nothing but the bytes from 0x90 to 0x100 changes. The container then passes
/// the check, wherever its flags make sense.
pub fn forge_data(
    keys: &KeySet,
    writer: &mut Image,
    key: &[u8; 16],
    edat: &EdatHeader,
    npd: &NpdHeader,
    signature: &[u8; 0x50],
) -> (r: Result<(), Error>)
    ensures
        match r {
            Ok(_) => forged(*keys, old(writer)@, key@, *edat, *npd, signature@) == Ok::<
                Tape,
                Error,
            >(final(writer)@),
            Err(e) => final(writer)@ == old(writer)@ && forged(
                *keys,
                old(writer)@,
                key@,
                *edat,
                *npd,
                signature@,
            ) == Err::<Tape, Error>(e),
        },
        r is Ok <==> edat.block_size != 0 && image::read_at(
            old(writer)@.bytes,
            0x100,
            (blocks::blocks_of(*edat) * blocks::section_size(edat.flags)) as int,
        ) is Some,
        r is Ok ==> {
            &&& final(writer)@.bytes.len() == pack::larger(old(writer)@.bytes.len(), 0x100)
            &&& old(writer)@.bytes.len() >= 0x90 ==> pack::same_headers(
                old(writer)@.bytes,
                final(writer)@.bytes,
            )
            &&& flags_checked(npd.version, edat.flags) is Ok ==> checked(
                *keys,
                final(writer)@.bytes,
                key@,
                *edat,
                *npd,
            ) == both_right()
            &&& forall|src: Seq<u8>|
                #[trigger] pack::all_read_back(
                    *keys,
                    old(writer)@.bytes,
                    *edat,
                    *npd,
                    key@,
                    src,
                ) ==> pack::all_read_back(
                    *keys,
                    final(writer)@.bytes,
                    *edat,
                    *npd,
                    key@,
                    src,
                )
        },
{
    reveal(forged);
    let size: u64 = match metadata_len(edat) {
        Ok(size) => size,
        Err(e) => {
            return Err(e);
        },
    };
    let metadata: Vec<u8> = match take_at(&writer.bytes, 0x100, size) {
        Ok(metadata) => vstd::slice::slice_to_vec(metadata),
        Err(e) => {
            return Err(e);
        },
    };
    let metadata_hash: [u8; 16] = match hash_part(keys, edat, npd, &metadata, key) {
        Ok(hash) => hash,
        Err(e) => {
            return Err(e);
        },
    };
    let ghost start = writer@;
    put_metadata_hash(writer, &metadata_hash);
    let ghost first = writer@;
    let header: Vec<u8> = vstd::slice::slice_to_vec(
        vstd::slice::slice_subrange(&writer.bytes, 0, 0xA0),
    );
    assert(header@ =~= first.bytes.take(0xA0));
    let header_hash: [u8; 16] = match hash_part(keys, edat, npd, &header, key) {
        Ok(hash) => hash,
        Err(e) => {
            return Err(e);
        },
    };
    put_header_hash(writer, &header_hash, signature);
    let ghost second = first.at(0xA0).written(header_hash@);
    proof {
        if start.bytes.len() >= 0x90 {
            assert(start.bytes.take(0x90) =~= writer@.bytes.take(0x90));
        }
        lemma_forged_passes(
            *keys,
            start.bytes,
            key@,
            *edat,
            *npd,
            metadata@,
            metadata_hash@,
            header_hash@,
            signature@,
        );
        assert forall|src: Seq<u8>|
            #[trigger] pack::all_read_back(
                *keys,
                start.bytes,
                *edat,
                *npd,
                key@,
                src,
            ) implies pack::all_read_back(
            *keys,
            writer@.bytes,
            *edat,
            *npd,
            key@,
            src,
        ) by {
            pack::law_head_write_keeps_blocks(
                *keys,
                start.bytes,
                *edat,
                *npd,
                key@,
                src,
                0x90,
                metadata_hash@,
            );
            pack::law_head_write_keeps_blocks(
                *keys,
                first.bytes,
                *edat,
                *npd,
                key@,
                src,
                0xA0,
                header_hash@,
            );
            pack::law_head_write_keeps_blocks(
                *keys,
                second.bytes,
                *edat,
                *npd,
                key@,
                src,
                0xB0,
                signature@,
            );
        }
    }
    Ok(())
}

/// A container with both hashes in place passes the check.
proof fn lemma_forged_passes(
    keys: KeySet,
    bytes: Seq<u8>,
    key: Seq<u8>,
    edat: EdatHeader,
    npd: NpdHeader,
    metadata: Seq<u8>,
    metadata_hash: Seq<u8>,
    header_hash: Seq<u8>,
    signature: Seq<u8>,
)
    requires
        edat.block_size != 0,
        image::read_at(
            bytes,
            0x100,
            (blocks::blocks_of(edat) * blocks::section_size(edat.flags)) as int,
        ) == Some(metadata),
        metadata_hash.len() == 16,
        header_hash.len() == 16,
        signature.len() == 0x50,
        part_checked(keys, edat.flags, npd.version, metadata, key, metadata_hash) matches Ok((_, ok))
            && ok,
        part_checked(
            keys,
            edat.flags,
            npd.version,
            image::overlaid(bytes, 0x90, metadata_hash).take(0xA0),
            key,
            header_hash,
        ) matches Ok((_, ok)) && ok,
    ensures
        flags_checked(npd.version, edat.flags) is Ok ==> checked(
            keys,
            image::overlaid(
                image::overlaid(image::overlaid(bytes, 0x90, metadata_hash), 0xA0, header_hash),
                0xB0,
                signature,
            ),
            key,
            edat,
            npd,
        ) == both_right(),
{
    reveal(checked);
    let n = (blocks::blocks_of(edat) * blocks::section_size(edat.flags)) as int;
    let first = image::overlaid(bytes, 0x90, metadata_hash);
    let second = image::overlaid(first, 0xA0, header_hash);
    let last = image::overlaid(second, 0xB0, signature);
    assert(last.len() >= 0x100);
    assert(last.take(0xA0) =~= first.take(0xA0));
    assert(last.subrange(0xA0, 0xB0) =~= header_hash);
    assert(last.subrange(0x90, 0xA0) =~= metadata_hash);
    if n != 0 {
        assert(last.subrange(0x100, 0x100 + n) =~= bytes.subrange(0x100, 0x100 + n));
    }
}

} // verus!
