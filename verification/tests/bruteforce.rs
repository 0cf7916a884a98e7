use make_npdata_rs::bruteforce::{
    brute_force_binary, brute_force_text, brute_force_unicode_text, find_npd, parse_hex_window, read_be_u16,
    read_npd_for_bruteforce, try_bruteforce_candidate, Target,
};
use make_npdata_rs::constants::{KeySet, KEY_SET_LEN};
use make_npdata_rs::error::Error;
use make_npdata_rs::npdata::{forge_npd_dev_hash, write_npd_header, NpdHeader};
use make_npdata_rs::image::Image;
use make_npdata_rs::util::bytes_to_hex;

fn keys() -> KeySet {
    let mut all: Vec<u8> = (0..KEY_SET_LEN).map(|i| (i * 7 + 3) as u8).collect();
    for j in 0..16 {
        all[14 * 16 + j] = ((j * 5 + 3) % 16) as u8;
    }
    KeySet::from_bytes(&all).unwrap()
}

fn klicensee() -> [u8; 16] {
    let mut out = [0u8; 16];
    for i in 0..16 {
        out[i] = 0xA0 + 5 * i as u8;
    }
    out
}

fn signed_header() -> Vec<u8> {
    let mut npd = NpdHeader {
        magic: [0x4E, 0x50, 0x44, 0x00],
        version: 3,
        license: 3,
        npd_type: 1,
        content_id: [0x41; 0x30],
        digest: [7; 16],
        title_hash: [9; 16],
        dev_hash: [0; 16],
        unk1: 0,
        unk2: 0,
    };
    forge_npd_dev_hash(&keys(), &klicensee(), &mut npd);
    let mut image = Image::new();
    write_npd_header(&mut image, &npd);
    image.bytes
}

fn target() -> Target {
    read_npd_for_bruteforce(&signed_header()).unwrap()
}

#[test]
fn two_bytes_are_read_highest_first() {
    assert_eq!(read_be_u16(&[1, 2, 3]), 0x0102);
}

#[test]
fn targets_are_read_from_the_start() {
    let header = signed_header();
    let t = target();
    assert_eq!(t.npd_buf, header[..0x60]);
    assert_eq!(t.dev_hash, header[0x60..0x70]);
    assert_eq!(t.sce_offset, None);
    assert_eq!(read_npd_for_bruteforce(&header[..3]), Err(Error::UnexpectedEof));
    assert_eq!(read_npd_for_bruteforce(&header[..0x5F]), Err(Error::SignedPartTruncated));
    assert_eq!(read_npd_for_bruteforce(&header[..0x6F]), Err(Error::DevHashTruncated));
}

#[test]
fn targets_are_read_out_of_sce_files() {
    let mut file = vec![0u8; 0x200];
    file[..4].copy_from_slice(b"SCE\0");
    file[0x0E] = 0x01;
    file[0x0F] = 0x60;
    file[0x100..0x180].copy_from_slice(&signed_header());
    let t = read_npd_for_bruteforce(&file).unwrap();
    assert_eq!((t.npd_buf, t.dev_hash), (target().npd_buf, target().dev_hash));
    assert_eq!(t.sce_offset, Some(0x100));
    assert_eq!(find_npd(&file[..0x20]), Ok((0x100, true)));
    assert_eq!(find_npd(&signed_header()), Ok((0, false)));
    assert_eq!(read_npd_for_bruteforce(&file[..0x20]), Err(Error::SignedPartTruncated));
    assert_eq!(read_npd_for_bruteforce(&file[..10]), Err(Error::UnexpectedEof));
    file[0x0E] = 0;
    file[0x0F] = 0x5F;
    assert_eq!(read_npd_for_bruteforce(&file), Err(Error::InvalidNpdOffset));
}

#[test]
fn the_right_klicensee_fits() {
    let t = target();
    assert!(try_bruteforce_candidate(&keys(), &t.npd_buf, &t.dev_hash, &klicensee()));
    let mut other = klicensee();
    other[0] ^= 1;
    assert!(!try_bruteforce_candidate(&keys(), &t.npd_buf, &t.dev_hash, &other));
}

#[test]
fn a_klicensee_is_found_as_bytes() {
    let t = target();
    let mut source = vec![0x55u8; 37];
    source.extend_from_slice(&klicensee());
    source.extend_from_slice(&[1, 2, 3]);
    let found = brute_force_binary(&keys(), &t.npd_buf, &t.dev_hash, &source);
    assert_eq!(found, Some(klicensee()));
    assert_eq!(brute_force_binary(&keys(), &t.npd_buf, &t.dev_hash, &source[..52]), None);
    assert_eq!(brute_force_binary(&keys(), &t.npd_buf, &t.dev_hash, &[1, 2]), None);
}

#[test]
fn a_klicensee_is_found_as_text() {
    let t = target();
    let text = format!("klic=0{}xyz", bytes_to_hex(&klicensee()).to_lowercase());
    let source = text.as_bytes();
    assert_eq!(
        brute_force_text(&keys(), &t.npd_buf, &t.dev_hash, source),
        Some(klicensee())
    );
    assert_eq!(brute_force_binary(&keys(), &t.npd_buf, &t.dev_hash, source), None);
}

#[test]
fn a_klicensee_is_found_as_unicode_text() {
    let t = target();
    let mut source = vec![0u8; 3];
    for c in bytes_to_hex(&klicensee()).bytes() {
        source.push(c);
        source.push(0);
    }
    assert_eq!(
        brute_force_unicode_text(&keys(), &t.npd_buf, &t.dev_hash, &source),
        Some(klicensee())
    );
    assert_eq!(brute_force_text(&keys(), &t.npd_buf, &t.dev_hash, &source), None);
    source[8] = 1;
    assert_eq!(brute_force_unicode_text(&keys(), &t.npd_buf, &t.dev_hash, &source), None);
}

#[test]
fn windows_of_hexadecimal_digits_are_read() {
    let text = b"000102030405060708090a0B0C0d0e0F";
    let mut expected = [0u8; 16];
    for i in 0..16 {
        expected[i] = i as u8;
    }
    assert_eq!(parse_hex_window(text), Some(expected));
    assert_eq!(parse_hex_window(&text[1..]), None);
    assert_eq!(parse_hex_window(b"g00102030405060708090a0B0C0d0e0F"), None);
}
