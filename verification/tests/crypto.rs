use make_npdata_rs::constants::{KeySet, KEY_SET_LEN};
use make_npdata_rs::crypto::{
    aes_cbc128_decrypt, aes_cbc128_encrypt, aes_cmac_16, aes_ecb128_encrypt_block,
    decrypt_and_verify, encrypt_and_hash, generate_hash, generate_key, rap_to_rif_key, sha1_hmac,
};
use make_npdata_rs::error::Error;
use make_npdata_rs::rap::{is_rif_file_name, rif_key_from_decrypted, rif_key_from_file};

fn bytes(hex: &str) -> Vec<u8> {
    (0..hex.len() / 2).map(|i| u8::from_str_radix(&hex[2 * i..2 * i + 2], 16).unwrap()).collect()
}

fn sixteen(hex: &str) -> [u8; 16] {
    bytes(hex).try_into().unwrap()
}

fn counting(start: u8) -> [u8; 16] {
    let mut out = [0u8; 16];
    for i in 0..16 {
        out[i] = start + i as u8;
    }
    out
}

fn key_bytes() -> Vec<u8> {
    let mut all: Vec<u8> = (0..KEY_SET_LEN).map(|i| (i * 7 + 3) as u8).collect();
    for j in 0..16 {
        all[14 * 16 + j] = ((j * 5 + 3) % 16) as u8;
    }
    all
}

fn keys() -> KeySet {
    KeySet::from_bytes(&key_bytes()).unwrap()
}

#[test]
fn key_set_takes_its_fields_in_order() {
    let all = key_bytes();
    let k = keys();
    assert_eq!(k.edat_key_0, all[0..16]);
    assert_eq!(k.edat_iv, all[64..80]);
    assert_eq!(k.sdat_key, all[80..96]);
    assert_eq!(k.npdrm_omac_key_3, all[128..144]);
    assert_eq!(k.rap_pbox, all[224..240]);
    assert_eq!(k.rap_e2, all[256..272]);
}

#[test]
fn key_set_refuses_other_lengths_and_orders() {
    let mut all = key_bytes();
    assert!(KeySet::from_bytes(&all[..KEY_SET_LEN - 1]).is_none());
    all[14 * 16] = all[14 * 16 + 1];
    assert!(KeySet::from_bytes(&all).is_none());
    all[14 * 16] = 16;
    assert!(KeySet::from_bytes(&all).is_none());
}

#[test]
fn aes_block_matches_the_published_vector() {
    let out = aes_ecb128_encrypt_block(
        &counting(0),
        &sixteen("00112233445566778899aabbccddeeff"),
    );
    assert_eq!(out, sixteen("69c4e0d86a7b0430d8cdb78070b4c55a"));
}

#[test]
fn cbc_matches_the_published_vector_and_inverts() {
    let key = sixteen("2b7e151628aed2a6abf7158809cf4f3c");
    let plain = bytes("6bc1bee22e409f96e93d7e117393172aae2d8a571e03ac9c9eb76fac45af8e51");
    let sealed = aes_cbc128_encrypt(&key, &counting(0), &plain).unwrap();
    assert_eq!(
        sealed,
        bytes("7649abac8119b246cee98e9b12e9197d5086cb9b507219ee95db113a917678b2")
    );
    assert_eq!(aes_cbc128_decrypt(&key, &counting(0), &sealed).unwrap(), plain);
    let opened = aes_cbc128_decrypt(&key, &counting(0), &plain).unwrap();
    assert_eq!(aes_cbc128_encrypt(&key, &counting(0), &opened).unwrap(), plain);
}

#[test]
fn cbc_takes_whole_blocks_only() {
    assert_eq!(aes_cbc128_decrypt(&counting(0), &counting(0), &[1, 2, 3]), Err(Error::CbcLength));
    assert_eq!(aes_cbc128_encrypt(&counting(0), &counting(0), &[0; 17]), Err(Error::CbcLength));
    assert_eq!(aes_cbc128_encrypt(&counting(0), &counting(0), &[]), Ok(vec![]));
}

#[test]
fn cmac_matches_the_published_vectors() {
    let key = sixteen("2b7e151628aed2a6abf7158809cf4f3c");
    assert_eq!(aes_cmac_16(&key, &[]), sixteen("bb1d6929e95937287fa37d129b756746"));
    assert_eq!(
        aes_cmac_16(&key, &bytes("6bc1bee22e409f96e93d7e117393172a")),
        sixteen("070a16b46b4d4144f79bdd9dd04a287c")
    );
}

#[test]
fn hmac_matches_the_published_vector() {
    let tag = sha1_hmac(&[0x0b; 20], b"Hi There");
    assert_eq!(tag.to_vec(), bytes("b617318655057264e28bc0b6fb378c8ef146be00"));
}

#[test]
fn keys_are_derived_by_the_top_four_bits() {
    let k = keys();
    let (key, iv) = (counting(0), counting(16));
    assert_eq!(generate_key(&k, 0x0000_0002, false, &key, &iv), Ok((key, iv)));
    assert_eq!(
        generate_key(&k, 0x1000_0002, false, &key, &iv),
        Ok((sixteen("dc8b1fdfdba1858c0db818dc276be5b1"), iv))
    );
    assert_eq!(
        generate_key(&k, 0x1000_0002, true, &key, &iv),
        Ok((sixteen("185cea1033ccbeebfaacb539762d2478"), iv))
    );
    assert_eq!(generate_key(&k, 0x2000_0000, false, &key, &iv), Ok((k.edat_key_0, k.edat_iv)));
    assert_eq!(generate_key(&k, 0x2000_0000, true, &key, &iv), Ok((k.edat_key_1, k.edat_iv)));
    assert_eq!(
        generate_key(&k, 0x3000_0001, false, &key, &iv),
        Err(Error::UnknownKeyMode { mode: 0x3000_0000 })
    );
}

#[test]
fn hash_keys_are_derived_by_the_top_four_bits() {
    let k = keys();
    let hash = counting(0);
    assert_eq!(generate_hash(&k, 0x0000_0002, false, &hash), Ok(hash));
    assert_eq!(
        generate_hash(&k, 0x1000_0002, true, &hash),
        Ok(sixteen("185cea1033ccbeebfaacb539762d2478"))
    );
    assert_eq!(generate_hash(&k, 0x2000_0000, false, &hash), Ok(k.edat_hash_0));
    assert_eq!(generate_hash(&k, 0x2000_0000, true, &hash), Ok(k.edat_hash_1));
    assert_eq!(
        generate_hash(&k, 0xF000_0000, false, &hash),
        Err(Error::UnknownHashMode { mode: 0xF000_0000 })
    );
}

#[test]
fn sealing_gives_the_expected_data_and_tag() {
    let k = keys();
    let data: Vec<u8> = (0..32).collect();
    let cases = [
        (
            0x0000_0001,
            0x0000_0001,
            false,
            "000102030405060708090a0b0c0d0e0f101112131415161718191a1b1c1d1e1f",
            "6d895e1e2bbf8252f7480346f687ca3172195cf7",
        ),
        (
            0x0000_0002,
            0x0000_0002,
            true,
            "954f64f2e4e86e9eee82d20216684899a93b9ddb22e8ab104c61e728831d6d5a",
            "c9011ef9cd68d6690be826b43561ae84",
        ),
        (
            0x0000_0004,
            0x0000_0002,
            false,
            "954f64f2e4e86e9eee82d20216684899a93b9ddb22e8ab104c61e728831d6d5a",
            "a0ba65d9a2ffe0d863e91266094e77f6",
        ),
        (
            0x1000_0002,
            0x1000_0002,
            false,
            "0caac9bd89bc29690bdbf310e88d73e9c2ccdde172cb1d6722c81b611de981b3",
            "e44263c4d082650641cc3baebc338035",
        ),
        (
            0x1000_0002,
            0x1000_0002,
            true,
            "b84c765b59fd5a8a1835bd8084160c37a06099ba19c56327bbfae5239affc159",
            "9d47e717a5a13b69c3600b460de3f2d0",
        ),
        (
            0x2000_0004,
            0x2000_0002,
            true,
            "a8db4cdda7d943f672f426046f4da960e4a85de7067e6cfffb5eeb214683b957",
            "71755be3e4cf98186c0050fb6e5d1d34",
        ),
    ];
    for (hash_mode, crypto_mode, version4, expected, tag) in cases {
        let (out, made) = encrypt_and_hash(
            &k,
            hash_mode,
            crypto_mode,
            version4,
            &data,
            &counting(0),
            &counting(16),
            &counting(32),
        )
        .unwrap();
        assert_eq!(out, bytes(expected));
        assert_eq!(made, bytes(tag));
        let opened = decrypt_and_verify(
            &k,
            hash_mode,
            crypto_mode,
            version4,
            &out,
            &counting(0),
            &counting(16),
            &counting(32),
            &made,
        );
        assert_eq!(opened, Ok((data.clone(), true)));
        let again = encrypt_and_hash(
            &k,
            hash_mode,
            1,
            version4,
            &out,
            &counting(0),
            &counting(16),
            &counting(32),
        );
        assert_eq!(again, Ok((out.clone(), made.clone())));
        let mut wrong = made.clone();
        wrong[15] ^= 1;
        let opened = decrypt_and_verify(
            &k,
            hash_mode,
            crypto_mode,
            version4,
            &out,
            &counting(0),
            &counting(16),
            &counting(32),
            &wrong,
        );
        assert_eq!(opened, Ok((data.clone(), false)));
    }
}

#[test]
fn unknown_algorithms_are_refused() {
    let k = keys();
    let key = counting(0);
    assert_eq!(
        encrypt_and_hash(&k, 2, 3, false, &[0; 16], &key, &key, &key),
        Err(Error::UnknownCryptoAlgorithm { algorithm: 3 })
    );
    assert_eq!(
        encrypt_and_hash(&k, 3, 2, false, &[0; 16], &key, &key, &key),
        Err(Error::UnknownHashAlgorithm { algorithm: 3 })
    );
    assert_eq!(
        decrypt_and_verify(&k, 2, 0, false, &[0; 16], &key, &key, &key, &key),
        Err(Error::UnknownCryptoAlgorithm { algorithm: 0 })
    );
    assert_eq!(
        decrypt_and_verify(&k, 0, 1, false, &[0; 16], &key, &key, &key, &key),
        Err(Error::UnknownHashAlgorithm { algorithm: 0 })
    );
    assert_eq!(
        decrypt_and_verify(&k, 2, 2, false, &[0; 15], &key, &key, &key, &key),
        Err(Error::CbcLength)
    );
    assert_eq!(
        decrypt_and_verify(&k, 2, 0x4000_0002, false, &[0; 16], &key, &key, &key, &key),
        Err(Error::UnknownKeyMode { mode: 0x4000_0000 })
    );
    assert_eq!(
        decrypt_and_verify(&k, 0x5000_0002, 2, false, &[0; 16], &key, &key, &key, &key),
        Err(Error::UnknownHashMode { mode: 0x5000_0000 })
    );
}

#[test]
fn rap_rounds_give_the_expected_key() {
    let k = keys();
    assert_eq!(
        rif_key_from_decrypted(&k, &counting(0)),
        sixteen("f7139d53fffbf1e0a1b82f2c468aff29")
    );
    assert_eq!(rap_to_rif_key(&k, &counting(0)), Ok(sixteen("e4b6ea94d549e67c463579ccb52419b9")));
}

#[test]
fn rap_rounds_keep_different_bytes_apart() {
    let k = keys();
    let mut seen = vec![];
    for i in 0..16 {
        let mut dec = counting(0);
        dec[i] ^= 0x80;
        seen.push(rif_key_from_decrypted(&k, &dec));
    }
    seen.sort();
    seen.dedup();
    assert_eq!(seen.len(), 16);
}

#[test]
fn different_raps_give_different_keys() {
    let k = keys();
    let mut seen = vec![];
    for i in 0..16 {
        let mut rap = counting(0);
        rap[i] ^= 1;
        seen.push(rap_to_rif_key(&k, &rap).unwrap());
    }
    seen.sort();
    seen.dedup();
    assert_eq!(seen.len(), 16);
}

#[test]
fn key_files_are_raw_or_converted() {
    let k = keys();
    let mut file = counting(0).to_vec();
    file.push(0xFF);
    assert!(is_rif_file_name("rifkey.bin"));
    assert!(!is_rif_file_name("rifkey.rap"));
    assert!(!is_rif_file_name("rifkey.bin2"));
    assert_eq!(rif_key_from_file(&k, true, &file), Ok(counting(0)));
    assert_eq!(
        rif_key_from_file(&k, false, &file),
        Ok(sixteen("e4b6ea94d549e67c463579ccb52419b9"))
    );
    assert_eq!(rif_key_from_file(&k, false, &file[..15]), Err(Error::UnexpectedEof));
}
