use make_npdata_rs::bruteforce::SourceMode;
use make_npdata_rs::cli::{
    hex_16, is_hex_32, looks_like_v134_encrypt, parse_hex_i32_arg, parse_i32_arg, plan_command,
    plan_encrypt_v134, resolve_klic, select_devklic, valid_v134_block, validate_encrypt_args_v12,
    BruteForcePlan, CliError, Command, DecryptPlan, EncryptPlan, Field, KlicSource,
};
use make_npdata_rs::constants::{KeySet, KEY_SET_LEN};

const HEX: &str = "00112233445566778899aabbccddeeff";
const CONTENT_ID: &str = "XXYYYY-AAAABBBBB_CC-DDDDDDDDDDDDDDDD";

fn args(line: &str) -> Vec<String> {
    let mut out = vec!["make_npdata".to_string()];
    out.extend(line.split(' ').filter(|s| !s.is_empty()).map(|s| s.to_string()));
    out
}

fn plan(line: &str) -> Result<Command, CliError> {
    plan_command(&args(line))
}

fn bad(field: Field, index: usize) -> Result<Command, CliError> {
    Err(CliError::InvalidNumber { field, index })
}

#[test]
fn decimal_numbers_are_read() {
    assert_eq!(parse_i32_arg("0"), Some(0));
    assert_eq!(parse_i32_arg("+12"), Some(12));
    assert_eq!(parse_i32_arg("-0012"), Some(-12));
    assert_eq!(parse_i32_arg("2147483647"), Some(i32::MAX));
    assert_eq!(parse_i32_arg("-2147483648"), Some(i32::MIN));
    for text in ["", "+", "-", "2147483648", "-2147483649", "1a", " 1", "99999999999999999999", "--1"] {
        assert_eq!(parse_i32_arg(text), None);
    }
}

#[test]
fn hexadecimal_numbers_are_read() {
    assert_eq!(parse_hex_i32_arg("30"), Some(0x30));
    assert_eq!(parse_hex_i32_arg("7fFFffff"), Some(i32::MAX));
    assert_eq!(parse_hex_i32_arg("-1"), Some(-1));
    assert_eq!(parse_hex_i32_arg("80000000"), None);
    assert_eq!(parse_hex_i32_arg("0x30"), None);
}

#[test]
fn hex_arguments_are_told_apart() {
    assert!(is_hex_32(HEX));
    assert!(!is_hex_32("key.rap"));
    assert!(!is_hex_32("00112233445566778899aabbccddee\u{e9}"));
    assert_eq!(hex_16(HEX).unwrap()[15], 0xFF);
    assert_eq!(hex_16("00"), Err(CliError::InvalidHexKey));
}

#[test]
fn too_few_arguments_ask_for_the_usage() {
    for line in ["", "-h", "--help", "-v", "what", "-e", "-d in out", "-b in", "-v -b in", "info", "rap2rif a b"] {
        assert_eq!(plan(line), Ok(Command::Usage));
    }
    assert_eq!(plan_command(&[]), Ok(Command::Usage));
}

#[test]
fn aliases_are_kept() {
    assert_eq!(plan("info input.edat"), Ok(Command::Info { path: 2 }));
    assert_eq!(plan("rap2rif key.rap"), Ok(Command::Rap2Rif { path: 2 }));
}

#[test]
fn decryption_takes_a_key_mode_and_a_rap() {
    let extracting = DecryptPlan { input: 2, output: 3, klic: KlicSource::Klic, rap: None };
    assert_eq!(
        plan("-d input.edat output.bin 4"),
        Ok(Command::Decrypt { extracting, verbose: false })
    );
    let extracting =
        DecryptPlan { input: 3, output: 4, klic: KlicSource::Omac2, rap: Some(6) };
    assert_eq!(
        plan("-v -d input.edat output.bin 2 key.rap"),
        Ok(Command::Decrypt { extracting, verbose: true })
    );
    let extracting =
        DecryptPlan { input: 2, output: 3, klic: KlicSource::Hex { index: 5 }, rap: Some(6) };
    assert_eq!(
        plan(&format!("-d input.edat output.bin 8 {HEX} key.rap")),
        Ok(Command::Decrypt { extracting, verbose: false })
    );
    let extracting = DecryptPlan { input: 2, output: 3, klic: KlicSource::File, rap: Some(5) };
    assert_eq!(
        plan("-d input.edat output.bin 8 key.rap"),
        Ok(Command::Decrypt { extracting, verbose: false })
    );
    assert_eq!(plan("-d in out x"), bad(Field::KeyMode, 4));
    assert_eq!(plan("-d in out 9"), Err(CliError::InvalidMode));
}

#[test]
fn trailing_parameters_of_debug_sdat_are_ignored() {
    let line = "-e data_new.dat data.sdat 0 0 2 0 16 3 00 UP0000-BLJM74271_00-0000000000000000 1";
    let making = EncryptPlan {
        input: 2,
        output: 3,
        content_id: None,
        klic: KlicSource::Zero,
        rap: None,
        version: 2,
        license: 0,
        npd_type: 0,
        block_kb: 16,
        use_compression: false,
        is_edat: false,
        is_finalized: false,
    };
    assert_eq!(plan(line), Ok(Command::Encrypt { making, verbose: false }));
    assert_eq!(
        plan("-e data_new.dat data.sdat 0 0 2 0 16"),
        Ok(Command::Encrypt { making, verbose: false })
    );
}

#[test]
fn finalized_edat_takes_more_parameters() {
    let making = EncryptPlan {
        input: 2,
        output: 3,
        content_id: Some(11),
        klic: KlicSource::Klic,
        rap: None,
        version: 3,
        license: 3,
        npd_type: 0x21,
        block_kb: 16,
        use_compression: false,
        is_edat: true,
        is_finalized: true,
    };
    assert_eq!(
        plan(&format!("-e input.bin output.edat 1 1 3 0 16 3 21 {CONTENT_ID} 4")),
        Ok(Command::Encrypt { making, verbose: false })
    );
    let making = EncryptPlan {
        klic: KlicSource::Hex { index: 13 },
        rap: Some(14),
        license: 2,
        npd_type: 0xFFFF_FFFF,
        use_compression: true,
        ..making
    };
    assert_eq!(
        plan(&format!("-e input.bin output.edat 1 1 3 1 16 2 -1 {CONTENT_ID} 8 {HEX} rifkey.bin")),
        Ok(Command::Encrypt { making, verbose: false })
    );
    assert_eq!(plan("-e in out 1 1 3 0 16"), Err(CliError::NotEnoughParameters));
    assert_eq!(plan("-e in out 1 1 3 0 16 x 00 ID 4"), bad(Field::License, 9));
    assert_eq!(plan("-e in out 1 1 3 0 16 3 zz ID 4"), bad(Field::Type, 10));
    assert_eq!(
        plan("-e in out 1 1 3 0 16 0 00 ID 4"),
        Err(CliError::InvalidFinalizedParameters)
    );
    let long = "I".repeat(49);
    assert_eq!(
        plan(&format!("-e in out 1 1 3 0 16 3 00 {long} 4")),
        Err(CliError::InvalidFinalizedParameters)
    );
    assert_eq!(plan("-e in out 1 1 3 0 16 3 00 ID -1"), Err(CliError::InvalidMode));
}

#[test]
fn the_current_syntax_checks_its_numbers() {
    assert!(looks_like_v134_encrypt(&args("-e in out 0 0 2 0 16"), 1));
    assert!(!looks_like_v134_encrypt(&args("-e in out 0 0 2 0 3"), 1));
    assert!(!looks_like_v134_encrypt(&args("-e in out 0 0 2 0"), 1));
    assert_eq!(plan_encrypt_v134(&args("-e in out 0 0 2 0"), 1), Ok(None));
    assert_eq!(plan_encrypt_v134(&args("-e in out 0 0 2 0 16"), usize::MAX), Ok(None));
    assert_eq!(
        plan_encrypt_v134(&args("-e in out 2 0 2 0 16"), 1),
        Err(CliError::InvalidParameters)
    );
    assert_eq!(
        plan_encrypt_v134(&args("-e in out 0 a 2 b 16"), 1),
        Err(CliError::InvalidNumber { field: Field::Data, index: 5 })
    );
    for block in [1, 2, 4, 8, 16, 32] {
        assert!(valid_v134_block(block));
    }
    assert!(!valid_v134_block(0) && !valid_v134_block(64) && !valid_v134_block(-1));
}

#[test]
fn the_older_syntax_is_still_taken() {
    let making = EncryptPlan {
        input: 2,
        output: 3,
        content_id: Some(10),
        klic: KlicSource::Omac1,
        rap: Some(12),
        version: 2,
        license: 2,
        npd_type: 48,
        block_kb: 32,
        use_compression: false,
        is_edat: true,
        is_finalized: true,
    };
    assert_eq!(
        plan(&format!("-e in out 2 2 48 0 32 0 {CONTENT_ID} 1 key.rap")),
        Ok(Command::Encrypt { making, verbose: false })
    );
    assert_eq!(plan("-e in out 2 2 48 0 64 0 ID 1"), Err(CliError::InvalidParameters));
    assert_eq!(plan("-e in out 2 2 30x 0 32 0 ID 1"), bad(Field::Type, 6));
    assert_eq!(plan("-e in out 2 2 48 0 32 0 ID z"), bad(Field::KeyMode, 11));
    assert_eq!(plan("-e in out 2 2 48 0 32 0 ID 12"), Err(CliError::InvalidMode));
    assert_eq!(plan("-e in out 2 2 48 0 32 0 ID"), Ok(Command::Usage));
    assert_eq!(validate_encrypt_args_v12(4, 0, 1, 16, 1, "ID"), Ok(()));
    assert_eq!(
        validate_encrypt_args_v12(5, 0, 1, 16, 1, "ID"),
        Err(CliError::InvalidParameters)
    );
    assert_eq!(
        validate_encrypt_args_v12(4, 0, 1, 16, 1, ""),
        Err(CliError::InvalidParameters)
    );
}

#[test]
fn a_search_takes_a_mode() {
    let searching = |input, mode| BruteForcePlan { input, source: input + 1, mode };
    assert_eq!(
        plan("-b input.edat source.bin 0"),
        Ok(Command::BruteForce { searching: searching(2, SourceMode::Binary), verbose: false })
    );
    assert_eq!(
        plan("-b input.edat source.bin"),
        Ok(Command::BruteForce { searching: searching(2, SourceMode::Binary), verbose: false })
    );
    assert_eq!(
        plan("-v -b input.edat source.txt 1"),
        Ok(Command::BruteForce { searching: searching(3, SourceMode::Text), verbose: true })
    );
    assert_eq!(
        plan("-v -b input.edat source_utf16.txt 2"),
        Ok(Command::BruteForce { searching: searching(3, SourceMode::UnicodeText), verbose: true })
    );
    assert_eq!(plan("-b a b 3"), Err(CliError::InvalidParameters));
    assert_eq!(plan("-b a b x"), bad(Field::BruteForceMode, 4));
}

#[test]
fn key_modes_name_the_fixed_keys() {
    let mut all: Vec<u8> = (0..KEY_SET_LEN).map(|i| (i * 7 + 3) as u8).collect();
    for j in 0..16 {
        all[14 * 16 + j] = j as u8;
    }
    let k = KeySet::from_bytes(&all).unwrap();
    let line = args(HEX);
    let key = |mode| resolve_klic(&k, &line, select_devklic(mode).unwrap());
    assert_eq!(key(0), Some([0; 16]));
    assert_eq!(key(1), Some(k.npdrm_omac_key_1));
    assert_eq!(key(2), Some(k.npdrm_omac_key_2));
    assert_eq!(key(3), Some(k.npdrm_omac_key_3));
    assert_eq!(key(4), Some(k.npdrm_klic_key));
    assert_eq!(key(5), Some(k.npdrm_psx_key));
    assert_eq!(key(6), Some(k.npdrm_psp_key_1));
    assert_eq!(key(7), Some(k.npdrm_psp_key_2));
    assert_eq!(key(8), None);
    assert_eq!(select_devklic(9), Err(CliError::InvalidMode));
    assert_eq!(resolve_klic(&k, &line, KlicSource::Hex { index: 1 }).unwrap()[1], 0x11);
    assert_eq!(resolve_klic(&k, &line, KlicSource::Hex { index: 2 }), None);
}
