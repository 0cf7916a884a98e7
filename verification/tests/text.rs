use make_npdata_rs::error::Error;
use make_npdata_rs::util::{
    bytes_to_hex, parse_hex_16, prng_fill, read_be_u32, read_be_u64, same16, xor16,
};

#[test]
fn numbers_are_read_highest_byte_first() {
    assert_eq!(read_be_u32(&[1, 2, 3, 4, 5]), 0x0102_0304);
    assert_eq!(read_be_u64(&[1, 2, 3, 4, 5, 6, 7, 8]), 0x0102_0304_0506_0708);
    assert_eq!(read_be_u32(&0xDEAD_BEEFu32.to_be_bytes()), 0xDEAD_BEEF);
    assert_eq!(read_be_u64(&u64::MAX.to_be_bytes()), u64::MAX);
}

#[test]
fn xor_twice_is_nothing() {
    let a = [0x5A; 16];
    let mut b = [0u8; 16];
    for i in 0..16 {
        b[i] = 3 * i as u8;
    }
    assert_eq!(xor16(&a, &b)[2], 0x5A ^ 6);
    assert_eq!(xor16(&xor16(&a, &b), &b), a);
}

#[test]
fn tags_are_held_against_each_other_by_sixteen_bytes() {
    let mut a = vec![1u8; 20];
    let b = vec![1u8; 16];
    a[19] = 2;
    assert!(same16(&a, &b));
    a[15] = 2;
    assert!(!same16(&a, &b));
}

#[test]
fn hex_keys_are_read() {
    let expected = [
        0x00, 0x11, 0x22, 0x33, 0x44, 0x55, 0x66, 0x77, 0x88, 0x99, 0xAA, 0xBB, 0xCC, 0xDD, 0xEE,
        0xFF,
    ];
    assert_eq!(parse_hex_16("00112233445566778899AABBCCDDEEFF"), Ok(expected));
    assert_eq!(parse_hex_16("00112233445566778899aabbccddeeff"), Ok(expected));
    assert_eq!(parse_hex_16(" \t0x00112233445566778899aabbccddeeff\u{3000}\n"), Ok(expected));
}

#[test]
fn other_texts_are_no_hex_keys() {
    for text in [
        "",
        "0x",
        "00112233445566778899aabbccddeef",
        "00112233445566778899aabbccddeeff0",
        "0011223344556677 8899aabbccddeeff",
        "0X00112233445566778899aabbccddeeff",
        "0x0x00112233445566778899aabbccddeeff",
        "g0112233445566778899aabbccddeeff",
        "\u{e9}0112233445566778899aabbccddeef",
    ] {
        assert_eq!(parse_hex_16(text), Err(Error::BadHexKey));
    }
}

#[test]
fn bytes_are_written_in_upper_case() {
    assert_eq!(bytes_to_hex(&[]), "");
    assert_eq!(bytes_to_hex(&[0x00, 0x9A, 0xFF, 0x1b]), "009AFF1B");
}

#[test]
fn hex_text_of_a_key_reads_back() {
    let mut key = [0u8; 16];
    for i in 0..16 {
        key[i] = (17 * i + 5) as u8;
    }
    assert_eq!(parse_hex_16(&bytes_to_hex(&key)), Ok(key));
}

#[test]
fn pseudo_random_bytes_follow_from_clock_and_address() {
    let mut out = [0u8; 16];
    prng_fill(&mut out, Some(0x1234_5678_9ABC_DEF0), 0x7FFE_1234_5678);
    assert_eq!(bytes_to_hex(&out), "8D559C1B239BEFA56A3C6DFB0D3A727A");
    prng_fill(&mut out, None, 0);
    assert_eq!(bytes_to_hex(&out), "EDF1E5A7125F2374A53571ABDAD6915C");
}
