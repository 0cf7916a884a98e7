//! The cryptographic primitives, taken from the RustCrypto crates. Nothing in
//! this module is proved: each function states what it trusts its crate for.

use aes::cipher::generic_array::GenericArray;
use aes::cipher::{BlockDecrypt, BlockEncrypt, KeyInit};
use digest::Mac;
use vstd::prelude::*;

verus! {

/// AES-128 encryption of one block.
pub uninterp spec fn aes128_encrypted(key: Seq<u8>, block: Seq<u8>) -> Seq<u8>;

/// AES-128 decryption of one block.
pub uninterp spec fn aes128_decrypted(key: Seq<u8>, block: Seq<u8>) -> Seq<u8>;

/// AES-128 CMAC.
pub uninterp spec fn cmac_aes128(key: Seq<u8>, data: Seq<u8>) -> Seq<u8>;

/// HMAC with SHA-1.
pub uninterp spec fn hmac_sha1(key: Seq<u8>, data: Seq<u8>) -> Seq<u8>;

/// SHA-1 counts its input in bits, in 64 of them; HMAC hashes one block of 64
/// bytes before the data. Longer inputs are not accepted.
pub const MAX_MAC_INPUT: u64 = 0x1FFF_FFFF_FFFF_FF00;

/// `encrypt_block` of `aes::Aes128`: encrypts one block. Trusted: the result
/// depends on the key and the block alone, and decrypting it with the same key
/// gives the block back.
#[verifier::external_body]
pub(crate) fn aes128_encrypt(key: &[u8; 16], block: &[u8; 16]) -> (out: [u8; 16])
    ensures
        out@ == aes128_encrypted(key@, block@),
        aes128_decrypted(key@, out@) == block@,
{
    let cipher = aes::Aes128::new(GenericArray::from_slice(key));
    let mut state = GenericArray::clone_from_slice(block);
    cipher.encrypt_block(&mut state);
    state.into()
}

/// `decrypt_block` of `aes::Aes128`: decrypts one block. Trusted: the result
/// depends on the key and the block alone, and encrypting it with the same key
/// gives the block back.
#[verifier::external_body]
pub(crate) fn aes128_decrypt(key: &[u8; 16], block: &[u8; 16]) -> (out: [u8; 16])
    ensures
        out@ == aes128_decrypted(key@, block@),
        aes128_encrypted(key@, out@) == block@,
{
    let cipher = aes::Aes128::new(GenericArray::from_slice(key));
    let mut state = GenericArray::clone_from_slice(block);
    cipher.decrypt_block(&mut state);
    state.into()
}

/// `cmac::Cmac` over `aes::Aes128`, through `digest::Mac`: the 16-byte tag of
/// the data. Trusted: it depends on the key and the data alone.
#[verifier::external_body]
pub(crate) fn aes128_cmac(key: &[u8; 16], data: &[u8]) -> (tag: [u8; 16])
    ensures
        tag@ == cmac_aes128(key@, data@),
{
    let mut mac = <cmac::Cmac<aes::Aes128> as Mac>::new(GenericArray::from_slice(key));
    mac.update(data);
    mac.finalize().into_bytes().into()
}

/// `hmac::Hmac` over `sha1::Sha1`, through `digest::Mac`: the 20-byte tag of
/// the data. Trusted: it depends on the key and the data alone, and a key of
/// any length is taken.
#[verifier::external_body]
pub(crate) fn sha1_hmac_tag(key: &[u8], data: &[u8]) -> (tag: [u8; 20])
    requires
        key@.len() <= MAX_MAC_INPUT,
        data@.len() <= MAX_MAC_INPUT,
    ensures
        tag@ == hmac_sha1(key@, data@),
{
    let mut mac = <hmac::Hmac<sha1::Sha1> as Mac>::new_from_slice(key).unwrap();
    mac.update(data);
    mac.finalize().into_bytes().into()
}

} // verus!
