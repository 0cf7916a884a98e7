use make_npdata_rs::blocks::{block_count, dec_section, get_block_key, metadata_section_size};
use make_npdata_rs::constants::{KeySet, KEY_SET_LEN};
use make_npdata_rs::container::{
    make_edat_header, make_npd_header, select_extract_key, select_pack_key, Extraction, PackRandom,
    Packing,
};
use make_npdata_rs::error::Error;
use make_npdata_rs::hashes::{check_flags, put_header_hash, put_metadata_hash, CheckReport};
use make_npdata_rs::image::Image;
use make_npdata_rs::npdata::{
    check_data, content_id_48, decrypt_data, encrypt_data, extract_data, forge_data,
    forge_npd_dev_hash, forge_npd_title_hash, judge_npd_hashes, pack_data, parse_headers,
    validate_npd_hashes, write_edat_header, write_npd_header, EdatHeader, HeaderPair,
    NpdHashReport, NpdHeader,
};
use make_npdata_rs::pack::{footer_for, seal_block, store_block};
use make_npdata_rs::unpack::{emit_block, open_block};

const SDAT2_DEBUG: &[&str] = &[
    "4e50440000000002000000000000000000000000000000000000000000000000",
    "0000000000000000000000000000000000000000000000000000000000000000",
    "0000000000000000000000000000000000000000000000000000000000000000",
    "0000000000000000000000000000000000000000000000000000000000000000",
    "8100000c00004000000000000000001400000000000000000000000000000000",
    "0000000000000000000000000000000000000000000000000000000000000000",
    "0000000000000000000000000000000000000000000000000000000000000000",
    "0000000000000000000000000000000000000000000000000000000000000000",
    "000000000000000000000000000000000102030405060708090a0b0c0d0e0f10",
    "11121314000000000000000000000000534441544120322e342e302e57000000",
];

const SDAT2: &[&str] = &[
    "4e50440000000002000000000000000000000000000000000000000000000000",
    "0000000000000000000000000000000000000000000000000000000000000000",
    "808182838485868788898a8b8c8d8e8fe0f786cb29a8ee77229da732ceb9ad7e",
    "e2a3cc63237b2cbf97fdbb4580d852b000000000000000000000000000000000",
    "0100000c0000400000000000000000144eb9a4fce1743e73193c8850ae5361f8",
    "b0bdbd84a5dacc930ada46022c89bed1000102030405060708090a0b0c0d0e0f",
    "101112131415161718191a1b1c1d1e1f202122232425262728292a2b2c2d2e2f",
    "303132333435363738393a3b3c3d3e3f404142434445464748494a4b4c4d4e4f",
    "4ae3e11c3d3092ed0bf50212e30f01e935bd9cce4cc807b204ed25b3bc3ba598",
    "9c540a5f8ddf346471a543fe8ac79423534441544120322e342e302e57000000",
];

const EDAT4: &[&str] = &[
    "4e5044000000000400000003000000305858595959592d414141414242424242",
    "5f43432d44444444444444444444444444444444000000000000000000000000",
    "808182838485868788898a8b8c8d8e8f01c4a555df270f2566bcbbdb9b3115b0",
    "45d6f69ff999cbf5a29176f40e226c2500000000000000000000000000000000",
    "0000003c000004000000000000000014de0dbac438c812a66944cbaef317c738",
    "f0867f5d45a2b6ce30b7e4b8ff8bed9c000102030405060708090a0b0c0d0e0f",
    "101112131415161718191a1b1c1d1e1f202122232425262728292a2b2c2d2e2f",
    "303132333435363738393a3b3c3d3e3f404142434445464748494a4b4c4d4e4f",
    "e81cbb56e2b73374a119bf92832d1354a0a0a0a0a0a0a0a0a0a0a0a0a0a0a0a0",
    "d158cf2a42b04416813f5a6b096a0fcfe88ce0ea40b1a74839faec8d40611fc0",
    "454441544120342e302e302e57000000",
];

const EDAT3_COMPRESSED: &[&str] = &[
    "4e5044000000000300000002000000015858595959592d414141414242424242",
    "5f43432d44444444444444444444444444444444000000000000000000000000",
    "808182838485868788898a8b8c8d8e8f01c4a555df270f2566bcbbdb9b3115b0",
    "9a52e5c9c0ae71d0949f249f35a9566e00000000000000000000000000000000",
    "0000000d0000040000000000000000141ae3bb3f12d3649e731c2e4341d54d60",
    "4d902fdb71b8b4c129e46ceecc7c61b4000102030405060708090a0b0c0d0e0f",
    "101112131415161718191a1b1c1d1e1f202122232425262728292a2b2c2d2e2f",
    "303132333435363738393a3b3c3d3e3f404142434445464748494a4b4c4d4e4f",
    "6350ced91bd27b2a5b6e716209e3f648528d872a40bc0b686ab338857882b5f3",
    "2630a3bff60dd2018b73cbd4d225eb8618e13c70d4b1da2e8afdc98396d5993e",
    "454441544120332e332e302e57000000",
];

const EDAT1: &[&str] = &[
    "4e5044000000000100000003000000005858595959592d414141414242424242",
    "5f43432d44444444444444444444444444444444000000000000000000000000",
    "808182838485868788898a8b8c8d8e8f01c4a555df270f2566bcbbdb9b3115b0",
    "dcf7c9b2fd6dfba922286f616a47588900000000000000000000000000000000",
    "00000000000004000000000000000014da3a70ac09cb30a71cc72214ab833fe5",
    "465c3f8a5e23661da107dc5ceba98e37000102030405060708090a0b0c0d0e0f",
    "101112131415161718191a1b1c1d1e1f202122232425262728292a2b2c2d2e2f",
    "303132333435363738393a3b3c3d3e3f404142434445464748494a4b4c4d4e4f",
    "39ec33a4200d2443f0adffeb2523b81623bd32096356d355a4701e2cbff1ad7a",
    "637167cd1ea4e26cda6341b0d387c1ab4544415441207061636b616765720000",
];

const CONTENT_ID: &str = "XXYYYY-AAAABBBBB_CC-DDDDDDDDDDDDDDDD";

fn joined(lines: &[&str]) -> Vec<u8> {
    let hex: String = lines.concat();
    (0..hex.len() / 2).map(|i| u8::from_str_radix(&hex[2 * i..2 * i + 2], 16).unwrap()).collect()
}

fn sixteen(hex: &str) -> [u8; 16] {
    joined(&[hex]).try_into().unwrap()
}

fn counting(start: u8) -> [u8; 16] {
    let mut out = [0u8; 16];
    for i in 0..16 {
        out[i] = start + i as u8;
    }
    out
}

fn keys() -> KeySet {
    let mut all: Vec<u8> = (0..KEY_SET_LEN).map(|i| (i * 7 + 3) as u8).collect();
    for j in 0..16 {
        all[14 * 16 + j] = ((j * 5 + 3) % 16) as u8;
    }
    KeySet::from_bytes(&all).unwrap()
}

fn random(masks: usize) -> PackRandom {
    let mut signature = [0u8; 0x50];
    for i in 0..0x50 {
        signature[i] = i as u8;
    }
    PackRandom {
        digest: counting(0x80),
        masks: (0..masks).map(|i| [(0xA0 + i) as u8; 16]).collect(),
        signature,
    }
}

fn found(
    header_ok: Option<bool>,
    metadata_ok: Option<bool>,
    result: Result<(), Error>,
) -> CheckReport {
    CheckReport { header_ok, metadata_ok, result }
}

fn payload(n: usize) -> Vec<u8> {
    (0..n).map(|i| (i * 31 + i / 256 + 1) as u8).collect()
}

fn short_payload() -> Vec<u8> {
    (1..=20).collect()
}

struct Settings {
    version: u32,
    license: u32,
    npd_type: u32,
    block_kb: u32,
    compressed: bool,
    edat: bool,
    finalized: bool,
}

fn make(input: &[u8], devklic: &[u8; 16], rifkey: &[u8; 16], s: &Settings) -> Packing {
    pack_data(
        &keys(),
        input,
        "out.edat",
        CONTENT_ID,
        devklic,
        rifkey,
        s.version,
        s.license,
        s.npd_type,
        s.block_kb,
        s.compressed,
        s.edat,
        s.finalized,
        &random(16),
    )
}

fn extract(input: &[u8], devklic: &[u8; 16], rifkey: &[u8; 16]) -> Extraction {
    extract_data(&keys(), input, "out.edat", devklic, rifkey)
}

const EDAT4_SETTINGS: Settings = Settings {
    version: 4,
    license: 3,
    npd_type: 0x30,
    block_kb: 1,
    compressed: false,
    edat: true,
    finalized: true,
};

fn blank_npd(version: u32) -> NpdHeader {
    NpdHeader {
        magic: [0x4E, 0x50, 0x44, 0x00],
        version,
        license: 0,
        npd_type: 0,
        content_id: [0; 0x30],
        digest: [0; 16],
        title_hash: [0; 16],
        dev_hash: [0; 16],
        unk1: 0,
        unk2: 0,
    }
}

#[test]
fn images_grow_and_fill_gaps_with_zeros() {
    let mut image = Image::new();
    image.write_all(&[1, 2, 3]);
    image.seek(5);
    image.write_all(&[]);
    assert_eq!(image.bytes, vec![1, 2, 3]);
    image.write_all(&[9]);
    assert_eq!(image.bytes, vec![1, 2, 3, 0, 0, 9]);
    image.seek(1);
    image.write_all(&[7, 7]);
    assert_eq!(image.bytes, vec![1, 7, 7, 0, 0, 9]);
    assert_eq!(image.pos, 3);
}

#[test]
fn debug_sdat_is_made_byte_for_byte() {
    let p = pack_data(
        &keys(),
        &short_payload(),
        "data.sdat",
        "",
        &[0; 16],
        &[0; 16],
        2,
        0,
        0,
        16,
        false,
        false,
        false,
        &random(0),
    );
    assert_eq!(p.result, Ok(()));
    assert_eq!(p.output.len(), 0x110 + 0x10 + 32);
    assert_eq!(p.output, joined(SDAT2_DEBUG));
    assert_eq!(p.headers.unwrap().edat.flags, 0x8100_000C);
}

#[test]
fn finalized_sdat_is_made_byte_for_byte() {
    let p = pack_data(
        &keys(),
        &short_payload(),
        "data.sdat",
        "",
        &[0; 16],
        &[0; 16],
        2,
        0,
        0,
        16,
        false,
        false,
        true,
        &random(0),
    );
    assert_eq!(p.result, Ok(()));
    assert_eq!(p.output, joined(SDAT2));
}

#[test]
fn edat_of_version_4_is_made_byte_for_byte() {
    let p = make(&short_payload(), &counting(0x20), &counting(0x50), &EDAT4_SETTINGS);
    assert_eq!(p.result, Ok(()));
    assert_eq!(p.key, Some(counting(0x20)));
    assert_eq!(p.output, joined(EDAT4));
}

#[test]
fn compressed_edat_of_version_3_is_made_byte_for_byte() {
    let s = Settings {
        version: 3,
        license: 2,
        npd_type: 1,
        compressed: true,
        ..EDAT4_SETTINGS
    };
    let p = make(&short_payload(), &counting(0x20), &counting(0x50), &s);
    assert_eq!(p.result, Ok(()));
    assert_eq!(p.key, Some(counting(0x50)));
    assert_eq!(p.output, joined(EDAT3_COMPRESSED));
}

#[test]
fn edat_of_version_1_is_made_byte_for_byte() {
    let s = Settings { version: 1, npd_type: 0, ..EDAT4_SETTINGS };
    let p = make(&short_payload(), &counting(0x20), &counting(0x50), &s);
    assert_eq!(p.result, Ok(()));
    assert_eq!(p.output, joined(EDAT1));
}

#[test]
fn what_was_packed_is_extracted() {
    for version in 1..=4u32 {
        for edat in [false, true] {
            for finalized in [false, true] {
                for compressed in [false, true] {
                    for n in [0usize, 1, 16, 1024, 1025, 3000] {
                        let s = Settings {
                            version,
                            license: 3,
                            npd_type: 0,
                            block_kb: 1,
                            compressed,
                            edat,
                            finalized,
                        };
                        let input = payload(n);
                        let p = make(&input, &counting(0x20), &[0; 16], &s);
                        if version == 1 && !edat {
                            assert_eq!(p.result, Err(Error::InvalidSdatVersion));
                            assert!(p.headers.is_none() && p.key.is_none() && p.output.is_empty());
                            continue;
                        }
                        assert_eq!(p.result, Ok(()));
                        let x = extract(&p.output, &counting(0x20), &[0; 16]);
                        assert_eq!(x.headers.unwrap(), p.headers.unwrap());
                        assert_eq!(x.key, p.key);
                        if finalized {
                            assert_eq!(x.check, Some(found(Some(true), Some(true), Ok(()))));
                        }
                        if finalized && edat {
                            let right = NpdHashReport { title_ok: true, dev_ok: Some(true) };
                            assert_eq!(x.hashes, Some(right));
                        }
                        if !edat {
                            assert_eq!(x.hashes, None);
                        }
                        if compressed && n > 0 && (version == 1 || !finalized) {
                            continue;
                        }
                        assert_eq!(x.result, Ok(()));
                        assert_eq!(x.output, input);
                        assert_eq!(x.log.len(), (n + 1023) / 1024);
                        assert!(x.log.iter().all(|b| b.tag_ok));
                    }
                }
            }
        }
    }
}

#[test]
fn compressed_debug_containers_lose_their_payload() {
    let s = Settings { version: 2, compressed: true, finalized: false, ..EDAT4_SETTINGS };
    let p = make(&payload(100), &counting(0x20), &[0; 16], &s);
    let x = extract(&p.output, &counting(0x20), &[0; 16]);
    assert_eq!(x.result, Ok(()));
    assert!(x.output.is_empty());
}

#[test]
fn a_changed_block_is_noticed() {
    let mut bytes = make(&payload(3000), &counting(0x20), &[0; 16], &EDAT4_SETTINGS).output;
    let last = bytes.len() - 17;
    bytes[last] ^= 1;
    let x = extract(&bytes, &counting(0x20), &[0; 16]);
    assert_eq!(x.result, Ok(()));
    assert_eq!(x.log.iter().map(|b| b.tag_ok).collect::<Vec<_>>(), vec![true, true, false]);
    assert_eq!(x.log[2].offset, 0x100 + 2 * 1024 + 3 * 0x20);
    assert_eq!(x.log[2].length, 3000 - 2048);
    bytes[0x40] ^= 1;
    let x = extract(&bytes, &counting(0x20), &[0; 16]);
    assert_eq!(x.check, Some(found(Some(false), Some(true), Ok(()))));
    assert_eq!(x.hashes, Some(NpdHashReport { title_ok: true, dev_ok: Some(false) }));
}

#[test]
fn a_cut_container_keeps_the_blocks_before_the_cut() {
    let input = payload(3000);
    let bytes = make(&input, &counting(0x20), &[0; 16], &EDAT4_SETTINGS).output;
    let x = extract(&bytes[..0x100 + 1024 + 0x20 + 500], &counting(0x20), &[0; 16]);
    assert_eq!(x.result, Err(Error::UnexpectedEof));
    assert_eq!(x.output, input[..1024]);
    assert_eq!(x.log.len(), 1);
}

#[test]
fn the_license_decides_the_key() {
    let s = |license| Settings { license, ..EDAT4_SETTINGS };
    let input = payload(40);
    let (klic, rif) = (counting(0x20), counting(0x50));
    assert_eq!(make(&input, &klic, &rif, &s(3)).key, Some(klic));
    assert_eq!(make(&input, &klic, &rif, &s(2)).key, Some(rif));
    assert_eq!(make(&input, &klic, &rif, &s(0)).key, Some([0; 16]));
    let p = make(&input, &klic, &[0; 16], &s(2));
    assert_eq!(p.result, Err(Error::RifKeyNeeded));
    assert!(p.headers.is_some() && p.key.is_none() && p.output.is_empty());
    assert_eq!(make(&input, &klic, &rif, &s(1)).result, Err(Error::NetworkLicense));

    let packed = make(&input, &klic, &rif, &s(2)).output;
    let x = extract(&packed, &klic, &[0; 16]);
    assert_eq!(x.result, Err(Error::RifKeyNeeded));
    assert!(x.headers.is_ok() && x.hashes.is_some() && x.key.is_none() && x.check.is_none());
    assert_eq!(extract(&packed, &klic, &rif).output, input);

    let mut h = extract(&packed, &klic, &rif).headers.unwrap();
    h.npd.license = 1;
    assert_eq!(select_extract_key(&keys(), &h, &klic, &rif), Ok(rif));
    assert_eq!(select_pack_key(&keys(), &h, &klic, &rif), Err(Error::NetworkLicense));
    h.edat.flags |= 0x0100_0000;
    let masked = select_pack_key(&keys(), &h, &klic, &rif).unwrap();
    assert_eq!(masked[3], h.npd.dev_hash[3] ^ keys().sdat_key[3]);
    assert_eq!(select_extract_key(&keys(), &h, &klic, &rif), Ok(masked));
}

#[test]
fn blocks_of_no_size_are_refused() {
    let s = Settings { block_kb: 0, ..EDAT4_SETTINGS };
    let p = make(&payload(5), &counting(0x20), &[0; 16], &s);
    assert_eq!(p.result, Err(Error::ZeroBlockSize));
    assert_eq!(p.output.len(), 0x90);
    let x = extract(&p.output, &counting(0x20), &[0; 16]);
    assert_eq!(x.check, Some(found(None, None, Err(Error::UnexpectedEof))));
    assert_eq!(x.result, Err(Error::ZeroBlockSize));
    assert_eq!(make_edat_header(4, 1 << 22, false, true, true, 5).block_size, 0);
}

#[test]
fn headers_round_trip_and_are_refused() {
    let mut npd = blank_npd(3);
    npd.license = 2;
    npd.npd_type = 0x21;
    npd.content_id = content_id_48(CONTENT_ID);
    npd.digest = counting(1);
    npd.title_hash = counting(0x11);
    npd.dev_hash = counting(0x21);
    npd.unk1 = 0x0102_0304_0506_0708;
    npd.unk2 = u64::MAX;
    let edat = EdatHeader { flags: 0x3C, block_size: 0x4000, file_size: 0x1_0000_0001 };
    let mut image = Image::new();
    write_npd_header(&mut image, &npd);
    assert_eq!(image.bytes.len(), 0x80);
    write_edat_header(&mut image, &edat);
    assert_eq!(image.bytes[16..22], *b"XXYYYY");
    assert_eq!(parse_headers(&image.bytes), Ok(HeaderPair { npd, edat }));
    assert_eq!(parse_headers(&image.bytes[..0x8F]), Err(Error::EdatHeaderTruncated));
    assert_eq!(parse_headers(&image.bytes[..0x7F]), Err(Error::NpdHeaderTruncated));
    image.bytes[3] = 1;
    assert_eq!(parse_headers(&image.bytes), Err(Error::InvalidMagic));
    let x = extract(&image.bytes, &[0; 16], &[0; 16]);
    assert_eq!(x.result, Err(Error::InvalidMagic));
    assert!(x.headers.is_err() && x.output.is_empty() && x.check.is_none());
}

#[test]
fn content_ids_are_cut_and_padded() {
    let out = content_id_48("AB");
    assert_eq!((out[0], out[1], out[2], out[47]), (b'A', b'B', 0, 0));
    let long: String = "x".repeat(60);
    assert_eq!(content_id_48(&long), [b'x'; 48]);
}

#[test]
fn npd_headers_are_signed_or_blank() {
    let npd = make_npd_header(
        &keys(),
        "out.edat",
        CONTENT_ID,
        &counting(0x20),
        4,
        3,
        0x30,
        true,
        &counting(0x80),
    );
    assert_eq!(npd.title_hash, sixteen("01c4a555df270f2566bcbbdb9b3115b0"));
    assert_eq!(npd.dev_hash, sixteen("45d6f69ff999cbf5a29176f40e226c25"));
    let blank = make_npd_header(
        &keys(),
        "out.edat",
        CONTENT_ID,
        &counting(0x20),
        1,
        3,
        0x30,
        false,
        &counting(0x80),
    );
    assert_eq!(blank, blank_npd(0));
}

#[test]
fn forged_npd_hashes_are_right_for_their_name_and_klicensee() {
    let k = keys();
    let klic = counting(0x20);
    let mut npd = blank_npd(2);
    npd.content_id = content_id_48(CONTENT_ID);
    forge_npd_title_hash(&k, "a.edat", &mut npd);
    forge_npd_dev_hash(&k, &klic, &mut npd);
    let report = validate_npd_hashes(&k, "a.edat", &klic, &npd);
    assert_eq!(report, NpdHashReport { title_ok: true, dev_ok: Some(true) });
    let report = validate_npd_hashes(&k, "b.edat", &[0; 16], &npd);
    assert_eq!(report, NpdHashReport { title_ok: false, dev_ok: None });
    let report = validate_npd_hashes(&k, "a.edat", &counting(0x21), &npd);
    assert_eq!(report, NpdHashReport { title_ok: true, dev_ok: Some(false) });
    let report = judge_npd_hashes(&npd, &klic, &npd.title_hash, &[0; 16]);
    assert_eq!(report, NpdHashReport { title_ok: true, dev_ok: Some(false) });
}

#[test]
fn flags_depend_on_the_version() {
    assert_eq!(check_flags(0, 0x8100_0001), Ok(()));
    assert_eq!(check_flags(1, 2), Err(Error::BadFlags { version: 1 }));
    assert_eq!(check_flags(2, 0x8100_001F), Ok(()));
    assert_eq!(check_flags(2, 0x20), Err(Error::BadFlags { version: 2 }));
    assert_eq!(check_flags(3, 0x3F), Ok(()));
    assert_eq!(check_flags(4, 0x40), Err(Error::BadFlags { version: 4 }));
    assert_eq!(check_flags(5, 0), Err(Error::UnknownVersion { version: 5 }));
}

#[test]
fn checks_stop_where_the_container_ends() {
    let k = keys();
    let bytes = joined(SDAT2);
    let h = parse_headers(&bytes).unwrap();
    let key = select_extract_key(&k, &h, &[0; 16], &[0; 16]).unwrap();
    assert_eq!(
        check_data(&k, &bytes, &key, &h.edat, &h.npd),
        found(Some(true), Some(true), Ok(()))
    );
    assert_eq!(
        check_data(&k, &bytes[..0xAF], &key, &h.edat, &h.npd),
        found(None, None, Err(Error::UnexpectedEof))
    );
    let odd = NpdHeader { version: 9, ..h.npd };
    assert_eq!(
        check_data(&k, &bytes, &key, &h.edat, &odd),
        found(None, None, Err(Error::UnknownVersion { version: 9 }))
    );
}

#[test]
fn a_refused_check_keeps_the_header_verdict() {
    let k = keys();
    let mut bytes = joined(SDAT2);
    let h = parse_headers(&bytes).unwrap();
    let key = select_extract_key(&k, &h, &[0; 16], &[0; 16]).unwrap();
    let none = EdatHeader { block_size: 0, ..h.edat };
    for ok in [true, false] {
        assert_eq!(
            check_data(&k, &bytes[..0x10F], &key, &h.edat, &h.npd),
            found(Some(ok), None, Err(Error::UnexpectedEof))
        );
        assert_eq!(
            check_data(&k, &bytes, &key, &none, &h.npd),
            found(Some(ok), None, Err(Error::ZeroBlockSize))
        );
        bytes[0x20] ^= 1;
    }
}

#[test]
fn forging_changes_the_hash_area_alone() {
    let k = keys();
    let bytes = joined(SDAT2);
    let h = parse_headers(&bytes).unwrap();
    let key = select_extract_key(&k, &h, &[0; 16], &[0; 16]).unwrap();
    let mut image = Image { bytes: bytes.clone(), pos: 0 };
    for b in &mut image.bytes[0x90..0x100] {
        *b = 0;
    }
    let signature = random(0).signature;
    assert_eq!(forge_data(&k, &mut image, &key, &h.edat, &h.npd, &signature), Ok(()));
    assert_eq!(image.bytes, bytes);
    image.bytes.truncate(0x105);
    assert_eq!(
        forge_data(&k, &mut image, &key, &h.edat, &h.npd, &signature),
        Err(Error::UnexpectedEof)
    );
    let mut blank = Image { bytes: vec![0; 0x110], pos: 0 };
    put_metadata_hash(&mut blank, &counting(1));
    put_header_hash(&mut blank, &counting(0x11), &signature);
    assert_eq!(blank.bytes[0x90..0xA0], counting(1));
    assert_eq!(blank.bytes[0xA0..0xB0], counting(0x11));
    assert_eq!(blank.bytes[0xB0..0x100], signature);
    assert_eq!(blank.bytes[0x8F], 0);
}

#[test]
fn blocks_are_counted() {
    let edat = |block_size, file_size| EdatHeader { flags: 0, block_size, file_size };
    assert_eq!(block_count(&edat(0, 7)), Err(Error::ZeroBlockSize));
    assert_eq!(block_count(&edat(1024, 0)), Ok(0));
    assert_eq!(block_count(&edat(1024, 1)), Ok(1));
    assert_eq!(block_count(&edat(1024, 1024)), Ok(1));
    assert_eq!(block_count(&edat(1024, 1025)), Ok(2));
    assert_eq!(block_count(&edat(1, 0x1_0000_0003)), Ok(3));
    assert_eq!(block_count(&edat(16, u64::MAX)), Ok(0));
}

#[test]
fn metadata_sizes_follow_the_flags() {
    let edat = |flags| EdatHeader { flags, block_size: 16, file_size: 16 };
    assert_eq!(metadata_section_size(&edat(0)), 0x10);
    assert_eq!(metadata_section_size(&edat(1)), 0x20);
    assert_eq!(metadata_section_size(&edat(0x20)), 0x20);
    assert_eq!(metadata_section_size(&edat(0x0C)), 0x10);
}

#[test]
fn metadata_masks_undo_themselves() {
    let mut metadata = [0u8; 0x20];
    for i in 0..0x20 {
        metadata[i] = (i * i + 3) as u8;
    }
    let masked = dec_section(&metadata);
    assert_eq!(masked[0], metadata[0x0C] ^ metadata[0x08] ^ metadata[0x10]);
    assert_eq!(masked[5], metadata[0x05] ^ metadata[0x09] ^ metadata[0x15]);
    assert_eq!(masked[0x0A], metadata[0x0E] ^ metadata[0x02] ^ metadata[0x1A]);
    assert_eq!(masked[0x0F], metadata[0x07] ^ metadata[0x03] ^ metadata[0x1F]);
    let mut again = metadata;
    again[0x10..].copy_from_slice(&masked);
    assert_eq!(dec_section(&again), metadata[0x10..]);
}

#[test]
fn block_keys_hold_the_number_and_the_dev_hash() {
    let mut npd = blank_npd(1);
    npd.dev_hash = counting(0x70);
    let key = get_block_key(0x0102_0304, &npd);
    assert_eq!(key, [0, 0, 0, 0, 0, 0, 0, 0, 0, 0, 0, 0, 1, 2, 3, 4]);
    npd.version = 2;
    let key = get_block_key(7, &npd);
    assert_eq!(key[..12], counting(0x70)[..12]);
    assert_eq!(key[12..], [0, 0, 0, 7]);
    assert_ne!(get_block_key(8, &npd), key);
}

#[test]
fn headers_that_were_read_are_written_as_they_stood() {
    for lines in [SDAT2_DEBUG, SDAT2, EDAT4, EDAT3_COMPRESSED, EDAT1] {
        let bytes = joined(lines);
        let h = parse_headers(&bytes).unwrap();
        let mut image = Image::new();
        write_npd_header(&mut image, &h.npd);
        write_edat_header(&mut image, &h.edat);
        assert_eq!(image.bytes, bytes[..0x90]);
    }
}

#[test]
fn expected_containers_are_extracted() {
    for (lines, klic) in [(SDAT2, [0; 16]), (EDAT4, counting(0x20)), (EDAT3_COMPRESSED, counting(0x20)), (EDAT1, counting(0x20))] {
        let x = extract(&joined(lines), &klic, &counting(0x50));
        assert_eq!(x.result, Ok(()));
        assert_eq!(x.output, short_payload());
        assert_eq!(x.output.len() as u64, x.headers.unwrap().edat.file_size);
        assert_eq!(x.check, Some(found(Some(true), Some(true), Ok(()))));
    }
    let x = extract(&joined(SDAT2_DEBUG), &[0; 16], &[0; 16]);
    assert_eq!(x.output, short_payload());
}

#[test]
fn footers_name_format_and_version() {
    assert_eq!(footer_for(0, false), *b"EDATA packager\0\0");
    assert_eq!(footer_for(1, true), *b"SDATA packager\0\0");
    assert_eq!(footer_for(2, true), *b"SDATA 2.4.0.W\0\0\0");
    assert_eq!(footer_for(3, false), *b"EDATA 3.3.0.W\0\0\0");
    assert_eq!(footer_for(4, false), *b"EDATA 4.0.0.W\0\0\0");
    assert_eq!(footer_for(77, true), *b"SDATA 4.0.0.W\0\0\0");
}

#[test]
fn blocks_are_stored_by_their_layout() {
    let npd = blank_npd(2);
    let data = [0xDD; 16];
    let tag = [0x11; 20];
    let mask = [0xF0; 16];
    let edat = EdatHeader { flags: 0x20, block_size: 16, file_size: 32 };
    let mut image = Image::new();
    store_block(&mut image, &edat, &npd, 1, &data, &tag, &mask);
    assert_eq!(image.bytes[0x130..0x140], [0xE1; 16]);
    assert_eq!(image.bytes[0x140..0x150], mask);
    assert_eq!(image.bytes[0x150..], data);

    let plain = EdatHeader { flags: 0, ..edat };
    let mut image = Image::new();
    store_block(&mut image, &plain, &npd, 1, &data, &tag, &mask);
    assert_eq!(image.bytes[0x110..0x120], [0x11; 16]);
    assert_eq!(image.bytes[0x130..], data);

    let listed = EdatHeader { flags: 1, ..edat };
    let mut image = Image::new();
    store_block(&mut image, &listed, &blank_npd(1), 1, &data, &tag, &mask);
    assert_eq!(image.bytes[0x120..0x130], [0x11; 16]);
    assert_eq!(image.bytes[0x130..0x140], [0, 0, 0, 0, 0, 0, 1, 0x50, 0, 0, 0, 16, 0, 0, 0, 0]);
    assert_eq!(image.bytes[0x150..], data);

    let clear = EdatHeader { flags: 0x8000_0000, ..edat };
    let mut image = Image::new();
    store_block(&mut image, &clear, &npd, 0, &data, &tag, &mask);
    assert_eq!(image.bytes[..0x120], [0; 0x120]);
}

#[test]
fn sealed_blocks_open_again() {
    let k = keys();
    let mut npd = blank_npd(3);
    npd.digest = counting(0x33);
    let key = counting(0x44);
    for flags in [0u32, 2, 8, 0x10, 0x30, 0x3C, 0x8000_0000] {
        let plain: Vec<u8> = (0..48).collect();
        let (data, tag) = seal_block(&k, flags, &npd, &key, 5, plain.clone()).unwrap();
        let tag: [u8; 16] = tag[..16].try_into().unwrap();
        assert_eq!(data == plain, flags & 2 != 0 || flags == 0x8000_0000);
        assert_eq!(open_block(&k, flags, &npd, &key, 5, &data, &tag), Ok((plain, true)));
    }
    assert_eq!(seal_block(&k, 0, &npd, &key, 5, vec![0; 3]), Err(Error::CbcLength));
}

#[test]
fn blocks_are_emitted_raw_or_decompressed() {
    let mut out = vec![1];
    let mut left = 10;
    assert_eq!(emit_block(&mut out, &mut left, false, 2, &[7, 8, 0, 0]), Ok(None));
    assert_eq!((out.clone(), left), (vec![1, 7, 8], 10));
    let stored = [0x80, 0, 0, 0, 3, 4, 5, 6];
    assert_eq!(emit_block(&mut out, &mut left, true, 8, &stored), Ok(Some(3)));
    assert_eq!((out.clone(), left), (vec![1, 7, 8, 4, 5, 6], 7));
    left = 2;
    assert_eq!(
        emit_block(&mut out, &mut left, true, 8, &stored),
        Err(Error::InvalidStoredBlock)
    );
    assert_eq!((out.len(), left), (6, 2));
}

#[test]
fn compressed_blocks_are_read_where_their_metadata_says() {
    let k = keys();
    let npd = blank_npd(2);
    let mut edat = EdatHeader { flags: 0x8000_0001, block_size: 1024, file_size: 6 };
    let mut bytes = vec![0u8; 0x200];
    let mut record = [0u8; 0x20];
    record[0x16] = 1;
    record[0x17] = 0x80;
    record[0x1B] = 11;
    record[0x1F] = 1;
    let masked = dec_section(&record);
    bytes[0x100..0x120].copy_from_slice(&record);
    bytes[0x110..0x120].copy_from_slice(&masked);
    bytes[0x180..0x18B].copy_from_slice(&[0x80, 0, 0, 0, 6, 9, 8, 7, 6, 5, 4]);
    let mut out = vec![];
    let mut log = vec![];
    let key = counting(0);
    assert_eq!(decrypt_data(&k, &bytes, &mut out, &mut edat, &npd, &key, &mut log), Ok(()));
    assert_eq!(out, vec![9, 8, 7, 6, 5, 4]);
    assert_eq!(edat.file_size, 0);
    assert_eq!((log[0].offset, log[0].length, log[0].unpacked), (0x180, 11, Some(6)));

    bytes[0x184] = 7;
    let mut edat = EdatHeader { file_size: 6, ..edat };
    assert_eq!(
        decrypt_data(&k, &bytes, &mut out, &mut edat, &npd, &key, &mut log),
        Err(Error::InvalidStoredBlock)
    );
    assert_eq!((out.len(), edat.file_size, log.len()), (6, 6, 2));
    assert_eq!((log[1].packed, log[1].unpacked, log[1].left), (true, None, 6));
}

#[test]
fn a_wrong_tag_is_reported_before_the_block_fails_to_decompress() {
    let k = keys();
    let npd = blank_npd(2);
    let mut edat = EdatHeader { flags: 1, block_size: 1024, file_size: 6 };
    let mut bytes = vec![0u8; 0x200];
    let mut record = [0u8; 0x20];
    record[0x16] = 1;
    record[0x17] = 0x80;
    record[0x1B] = 16;
    record[0x1F] = 1;
    bytes[0x100..0x120].copy_from_slice(&record);
    let (mut out, mut log) = (vec![], vec![]);
    let key = counting(0);
    assert!(decrypt_data(&k, &bytes, &mut out, &mut edat, &npd, &key, &mut log).is_err());
    assert!(out.is_empty());
    assert_eq!((log.len(), log[0].tag_ok, log[0].packed), (1, false, true));
}

#[test]
fn wrong_metadata_changes_no_payload() {
    for (flags, section) in [(0x0Cu32, 0x10usize), (0x3C, 0x20)] {
        let k = keys();
        let npd = blank_npd(3);
        let edat = EdatHeader { flags, block_size: 16, file_size: 40 };
        let mut image = Image::new();
        let key = counting(9);
        let input = payload(40);
        let masks = [[3; 16]; 3];
        assert_eq!(encrypt_data(&k, &input, &mut image, &edat, &npd, &key, &masks), Ok(()));
        assert_eq!(image.bytes.len(), 0x110 + 3 * section + 48);
        image.bytes[0x105] ^= 1;
        let (mut out, mut log) = (vec![7], vec![]);
        let mut left = edat;
        assert_eq!(
            decrypt_data(&k, &image.bytes, &mut out, &mut left, &npd, &key, &mut log),
            Ok(())
        );
        assert_eq!(out[1..], input);
        assert_eq!((out[0], left), (7, edat));
        assert_eq!(log.iter().map(|b| b.tag_ok).collect::<Vec<_>>(), vec![false, true, true]);
    }
}

#[test]
fn no_more_than_the_promised_bytes_are_packed() {
    let k = keys();
    let npd = blank_npd(2);
    let edat = EdatHeader { flags: 0x0C, block_size: 16, file_size: 40 };
    let key = counting(0);
    let input = payload(100);
    let mut image = Image::new();
    assert_eq!(encrypt_data(&k, &input, &mut image, &edat, &npd, &key, &[]), Ok(()));
    assert_eq!(image.bytes.len(), 0x110 + 3 * 0x10 + 48);
    let (mut out, mut log) = (vec![], vec![]);
    let mut left = edat;
    assert_eq!(
        decrypt_data(&k, &image.bytes, &mut out, &mut left, &npd, &key, &mut log),
        Ok(())
    );
    assert_eq!(out, input[..40]);
    assert!(log.iter().all(|b| b.tag_ok));
}

#[test]
fn payloads_shorter_than_promised_are_refused() {
    let k = keys();
    let npd = blank_npd(2);
    let edat = EdatHeader { flags: 0x0C, block_size: 16, file_size: 40 };
    let mut image = Image::new();
    let key = counting(0);
    assert_eq!(
        encrypt_data(&k, &[5; 20], &mut image, &edat, &npd, &key, &[]),
        Err(Error::UnexpectedEof)
    );
    assert_eq!(image.bytes.len(), 0x100 + 3 * 0x10 + 16);
}
