//! Block chaining, key derivation, and the pairing of a cipher with a hash
//! that protects each part of a container.

use vstd::prelude::*;

use crate::constants::KeySet;
use crate::error::Error;
use crate::primitives;
use crate::primitives::{aes128_cmac, aes128_decrypt, aes128_encrypt, sha1_hmac_tag, MAX_MAC_INPUT};
use crate::util;
use crate::util::{first16, same16, xor16};

pub use crate::rap::rap_to_rif_key;

verus! {

/// AES-128 in CBC mode, decryption of whole blocks.
pub open spec fn cbc_decrypted(key: Seq<u8>, iv: Seq<u8>, data: Seq<u8>) -> Seq<u8>
    decreases data.len(),
{
    if data.len() < 16 {
        Seq::empty()
    } else {
        util::xor_bytes(iv, primitives::aes128_decrypted(key, data.take(16))) + cbc_decrypted(
            key,
            data.take(16),
            data.skip(16),
        )
    }
}

/// AES-128 in CBC mode, encryption of whole blocks.
pub open spec fn cbc_encrypted(key: Seq<u8>, iv: Seq<u8>, data: Seq<u8>) -> Seq<u8>
    decreases data.len(),
{
    if data.len() < 16 {
        Seq::empty()
    } else {
        let block = primitives::aes128_encrypted(key, util::xor_bytes(data.take(16), iv));
        block + cbc_encrypted(key, block, data.skip(16))
    }
}

proof fn lemma_cbc_decrypted_append(key: Seq<u8>, iv: Seq<u8>, a: Seq<u8>, c: Seq<u8>)
    requires
        a.len() % 16 == 0,
        c.len() == 16,
    ensures
        cbc_decrypted(key, iv, a + c) == cbc_decrypted(key, iv, a) + util::xor_bytes(
            if a.len() == 0 {
                iv
            } else {
                a.skip(a.len() - 16)
            },
            primitives::aes128_decrypted(key, c),
        ),
    decreases a.len(),
{
    if a.len() == 0 {
        assert(a + c =~= c);
        assert(c.take(16) =~= c);
        assert(c.skip(16) =~= Seq::<u8>::empty());
        assert(cbc_decrypted(key, c, Seq::<u8>::empty()) =~= Seq::<u8>::empty());
        assert(cbc_decrypted(key, iv, a) =~= Seq::<u8>::empty());
    } else {
        lemma_cbc_decrypted_append(key, a.take(16), a.skip(16), c);
        assert((a + c).take(16) =~= a.take(16));
        assert((a + c).skip(16) =~= a.skip(16) + c);
        if a.len() == 16 {
            assert(a.skip(0) =~= a.take(16));
        } else {
            assert(a.skip(16).skip(a.skip(16).len() - 16) =~= a.skip(a.len() - 16));
        }
    }
}

/// The block that CBC mode chains to what follows some data: the last one that
/// it made, or the initial vector.
spec fn cbc_chained(key: Seq<u8>, iv: Seq<u8>, data: Seq<u8>) -> Seq<u8>
    decreases data.len(),
{
    if data.len() < 16 {
        iv
    } else {
        cbc_chained(
            key,
            primitives::aes128_encrypted(key, util::xor_bytes(data.take(16), iv)),
            data.skip(16),
        )
    }
}

proof fn lemma_cbc_encrypted_append(key: Seq<u8>, iv: Seq<u8>, a: Seq<u8>, p: Seq<u8>)
    requires
        a.len() % 16 == 0,
        p.len() == 16,
    ensures
        ({
            let block = primitives::aes128_encrypted(
                key,
                util::xor_bytes(p, cbc_chained(key, iv, a)),
            );
            &&& cbc_encrypted(key, iv, a + p) == cbc_encrypted(key, iv, a) + block
            &&& cbc_chained(key, iv, a + p) == block
        }),
    decreases a.len(),
{
    let whole = a + p;
    if a.len() == 0 {
        assert(whole =~= p);
        assert(p.take(16) =~= p);
        let block = primitives::aes128_encrypted(key, util::xor_bytes(p, iv));
        assert(cbc_encrypted(key, block, p.skip(16)) =~= Seq::<u8>::empty());
        assert(cbc_encrypted(key, iv, a) =~= Seq::<u8>::empty());
        assert(cbc_chained(key, block, p.skip(16)) == block);
        assert(block + Seq::<u8>::empty() =~= block);
        assert(Seq::<u8>::empty() + block =~= block);
    } else {
        let first = primitives::aes128_encrypted(key, util::xor_bytes(a.take(16), iv));
        lemma_cbc_encrypted_append(key, first, a.skip(16), p);
        assert(whole.take(16) =~= a.take(16));
        assert(whole.skip(16) =~= a.skip(16) + p);
        let block = primitives::aes128_encrypted(
            key,
            util::xor_bytes(p, cbc_chained(key, iv, a)),
        );
        assert(first + (cbc_encrypted(key, first, a.skip(16)) + block) =~= first + cbc_encrypted(
            key,
            first,
            a.skip(16),
        ) + block);
    }
}

/// Decryption of whole blocks keeps their length.
pub proof fn law_cbc_keeps_length(key: Seq<u8>, iv: Seq<u8>, data: Seq<u8>)
    requires
        iv.len() == 16,
    ensures
        cbc_decrypted(key, iv, data).len() == data.len() / 16 * 16,
    decreases data.len(),
{
    if data.len() >= 16 {
        law_cbc_keeps_length(key, data.take(16), data.skip(16));
    }
}

proof fn lemma_xor_twice(p: Seq<u8>, q: Seq<u8>)
    requires
        p.len() == q.len(),
    ensures
        util::xor_bytes(q, util::xor_bytes(p, q)) == p,
{
    assert forall|i: int| 0 <= i < p.len() implies q[i] ^ (p[i] ^ q[i]) == p[i] by {
        let x = p[i];
        let y = q[i];
        assert(y ^ (x ^ y) == x) by (bit_vector);
    }
    assert(util::xor_bytes(q, util::xor_bytes(p, q)) =~= p);
}

proof fn lemma_xor_back(p: Seq<u8>, q: Seq<u8>)
    requires
        p.len() == q.len(),
    ensures
        util::xor_bytes(util::xor_bytes(p, q), p) == q,
{
    assert forall|i: int| 0 <= i < p.len() implies (p[i] ^ q[i]) ^ p[i] == q[i] by {
        let x = p[i];
        let y = q[i];
        assert((x ^ y) ^ x == y) by (bit_vector);
    }
    assert(util::xor_bytes(util::xor_bytes(p, q), p) =~= q);
}

/// Encrypts one block.
pub fn aes_ecb128_encrypt_block(key: &[u8; 16], input: &[u8; 16]) -> (out: [u8; 16])
    ensures
        out@ == primitives::aes128_encrypted(key@, input@),
        primitives::aes128_decrypted(key@, out@) == input@,
{
    aes128_encrypt(key, input)
}

/// Decrypts whole blocks in CBC mode. Encrypting the result under the same key
/// and initial vector gives the input back.
pub fn aes_cbc128_decrypt(key: &[u8; 16], iv: &[u8; 16], input: &[u8]) -> (r: Result<
    Vec<u8>,
    Error,
>)
    ensures
        match r {
            Ok(out) => {
                &&& input@.len() % 16 == 0
                &&& out@.len() == input@.len()
                &&& out@ == cbc_decrypted(key@, iv@, input@)
                &&& cbc_encrypted(key@, iv@, out@) == input@
            },
            Err(e) => input@.len() % 16 != 0 && e == Error::CbcLength,
        },
{
    if input.len() % 16 != 0 {
        return Err(Error::CbcLength);
    }
    let mut prev: [u8; 16] = *iv;
    let mut out: Vec<u8> = Vec::with_capacity(input.len());
    let mut at: usize = 0;
    assert(input@.skip(0) =~= input@);
    assert(out@ + cbc_decrypted(key@, iv@, input@) =~= cbc_decrypted(key@, iv@, input@));
    assert(cbc_encrypted(key@, iv@, out@) =~= input@.take(0));
    while at < input.len()
        invariant
            at <= input@.len(),
            at % 16 == 0,
            input@.len() % 16 == 0,
            out@.len() == at,
            cbc_decrypted(key@, iv@, input@) == out@ + cbc_decrypted(
                key@,
                prev@,
                input@.skip(at as int),
            ),
            cbc_chained(key@, iv@, out@) == prev@,
            cbc_encrypted(key@, iv@, out@) == input@.take(at as int),
        decreases input@.len() - at,
    {
        let chunk: [u8; 16] = first16(vstd::slice::slice_subrange(input, at, at + 16));
        let ghost rest = input@.skip(at as int);
        let ghost done = out@;
        assert(chunk@ =~= rest.take(16));
        let opened: [u8; 16] = aes128_decrypt(key, &chunk);
        let plain: [u8; 16] = xor16(&prev, &opened);
        out.extend_from_slice(&plain);
        assert(out@ =~= done + plain@);
        proof {
            lemma_cbc_encrypted_append(key@, iv@, done, plain@);
            lemma_xor_back(prev@, opened@);
            assert(input@.take(at as int) + chunk@ =~= input@.take(at + 16));
        }
        assert(rest.skip(16) =~= input@.skip(at + 16));
        assert(done + (plain@ + cbc_decrypted(key@, chunk@, rest.skip(16))) =~= out@
            + cbc_decrypted(key@, chunk@, rest.skip(16)));
        prev = chunk;
        at = at + 16;
    }
    assert(out@ + cbc_decrypted(key@, prev@, input@.skip(at as int)) =~= out@);
    assert(input@.take(at as int) =~= input@);
    Ok(out)
}

/// Encrypts whole blocks in CBC mode. Decrypting the result under the same key
/// and initial vector gives the input back.
pub fn aes_cbc128_encrypt(key: &[u8; 16], iv: &[u8; 16], input: &[u8]) -> (r: Result<
    Vec<u8>,
    Error,
>)
    ensures
        match r {
            Ok(out) => {
                &&& input@.len() % 16 == 0
                &&& out@.len() == input@.len()
                &&& out@ == cbc_encrypted(key@, iv@, input@)
                &&& cbc_decrypted(key@, iv@, out@) == input@
            },
            Err(e) => input@.len() % 16 != 0 && e == Error::CbcLength,
        },
{
    if input.len() % 16 != 0 {
        return Err(Error::CbcLength);
    }
    let mut prev: [u8; 16] = *iv;
    let mut out: Vec<u8> = Vec::with_capacity(input.len());
    let mut at: usize = 0;
    assert(input@.skip(0) =~= input@);
    assert(out@ + cbc_encrypted(key@, iv@, input@) =~= cbc_encrypted(key@, iv@, input@));
    assert(cbc_decrypted(key@, iv@, out@) =~= input@.take(0));
    while at < input.len()
        invariant
            at <= input@.len(),
            at % 16 == 0,
            input@.len() % 16 == 0,
            out@.len() == at,
            prev@ == (if at == 0 {
                iv@
            } else {
                out@.skip(at - 16)
            }),
            cbc_encrypted(key@, iv@, input@) == out@ + cbc_encrypted(
                key@,
                prev@,
                input@.skip(at as int),
            ),
            cbc_decrypted(key@, iv@, out@) == input@.take(at as int),
        decreases input@.len() - at,
    {
        let chunk: [u8; 16] = first16(vstd::slice::slice_subrange(input, at, at + 16));
        let ghost rest = input@.skip(at as int);
        let ghost done = out@;
        assert(chunk@ =~= rest.take(16));
        let block: [u8; 16] = aes128_encrypt(key, &xor16(&chunk, &prev));
        out.extend_from_slice(&block);
        assert(out@ =~= done + block@);
        proof {
            lemma_cbc_decrypted_append(key@, iv@, done, block@);
            lemma_xor_twice(chunk@, prev@);
            assert(input@.take(at as int) + chunk@ =~= input@.take(at + 16));
        }
        assert(rest.skip(16) =~= input@.skip(at + 16));
        assert(done + (block@ + cbc_encrypted(key@, block@, rest.skip(16))) =~= out@
            + cbc_encrypted(key@, block@, rest.skip(16)));
        prev = block;
        at = at + 16;
        assert(out@.skip(at - 16) =~= block@);
    }
    assert(out@ + cbc_encrypted(key@, prev@, input@.skip(at as int)) =~= out@);
    assert(input@.take(at as int) =~= input@);
    Ok(out)
}

/// The 16-byte CMAC tag of some data.
pub fn aes_cmac_16(key: &[u8; 16], input: &[u8]) -> (tag: [u8; 16])
    ensures
        tag@ == primitives::cmac_aes128(key@, input@),
{
    aes128_cmac(key, input)
}

/// The 20-byte HMAC-SHA1 tag of some data.
pub fn sha1_hmac(key: &[u8], input: &[u8]) -> (tag: [u8; 20])
    requires
        key@.len() <= MAX_MAC_INPUT,
        input@.len() <= MAX_MAC_INPUT,
    ensures
        tag@ == primitives::hmac_sha1(key@, input@),
{
    sha1_hmac_tag(key, input)
}

/// The key that wraps block keys.
pub open spec fn wrapping_key(keys: KeySet, version4: bool) -> Seq<u8> {
    if version4 {
        keys.edat_key_1@
    } else {
        keys.edat_key_0@
    }
}

/// The key and initial vector that a crypto mode derives: unwrapped, fixed, or
/// as given.
pub open spec fn derived_key(
    keys: KeySet,
    crypto_mode: u32,
    version4: bool,
    key: Seq<u8>,
    iv: Seq<u8>,
) -> Result<(Seq<u8>, Seq<u8>), Error> {
    let mode = crypto_mode & 0xF000_0000;
    if mode == 0x1000_0000 {
        Ok((cbc_decrypted(wrapping_key(keys, version4), keys.edat_iv@, key), iv))
    } else if mode == 0x2000_0000 {
        Ok((wrapping_key(keys, version4), keys.edat_iv@))
    } else if mode == 0 {
        Ok((key, iv))
    } else {
        Err(Error::UnknownKeyMode { mode })
    }
}

/// The hash key that a hash mode derives: unwrapped, fixed, or as given.
pub open spec fn derived_hash(
    keys: KeySet,
    hash_mode: u32,
    version4: bool,
    hash: Seq<u8>,
) -> Result<Seq<u8>, Error> {
    let mode = hash_mode & 0xF000_0000;
    if mode == 0x1000_0000 {
        Ok(cbc_decrypted(wrapping_key(keys, version4), keys.edat_iv@, hash))
    } else if mode == 0x2000_0000 {
        Ok(
            if version4 {
                keys.edat_hash_1@
            } else {
                keys.edat_hash_0@
            },
        )
    } else if mode == 0 {
        Ok(hash)
    } else {
        Err(Error::UnknownHashMode { mode })
    }
}

/// What a cipher makes of some data, in one direction or the other.
pub open spec fn ciphered(
    decrypt: bool,
    crypto_mode: u32,
    key: Seq<u8>,
    iv: Seq<u8>,
    data: Seq<u8>,
) -> Result<Seq<u8>, Error> {
    let algorithm = crypto_mode & 0xFF;
    if algorithm == 1 {
        Ok(data)
    } else if algorithm == 2 {
        if data.len() % 16 != 0 {
            Err(Error::CbcLength)
        } else if decrypt {
            Ok(cbc_decrypted(key, iv, data))
        } else {
            Ok(cbc_encrypted(key, iv, data))
        }
    } else {
        Err(Error::UnknownCryptoAlgorithm { algorithm })
    }
}

/// The tag that a hash makes of some data: HMAC-SHA1 under the key padded to
/// twenty bytes, CMAC, or the first sixteen bytes of HMAC-SHA1.
pub open spec fn tagged(hash_mode: u32, key: Seq<u8>, data: Seq<u8>) -> Result<Seq<u8>, Error> {
    let algorithm = hash_mode & 0xFF;
    if algorithm == 1 {
        Ok(primitives::hmac_sha1(key + util::zeros(4), data))
    } else if algorithm == 2 {
        Ok(primitives::cmac_aes128(key, data))
    } else if algorithm == 4 {
        Ok(primitives::hmac_sha1(key, data).take(16))
    } else {
        Err(Error::UnknownHashAlgorithm { algorithm })
    }
}

/// How many bytes a tag has: all of HMAC-SHA1 under the padded key, and else
/// sixteen.
pub open spec fn tag_len(hash_mode: u32) -> nat {
    if hash_mode & 0xFF == 1 {
        20
    } else {
        16
    }
}

/// Decrypts data and says whether its tag starts with the given sixteen bytes.
/// The tag is that of the data as it came.
pub open spec fn opened(
    keys: KeySet,
    hash_mode: u32,
    crypto_mode: u32,
    version4: bool,
    data: Seq<u8>,
    key: Seq<u8>,
    iv: Seq<u8>,
    hash: Seq<u8>,
    test_hash: Seq<u8>,
) -> Result<(Seq<u8>, bool), Error> {
    match derived_key(keys, crypto_mode, version4, key, iv) {
        Err(e) => Err(e),
        Ok((k, v)) => match derived_hash(keys, hash_mode, version4, hash) {
            Err(e) => Err(e),
            Ok(h) => match ciphered(true, crypto_mode, k, v, data) {
                Err(e) => Err(e),
                Ok(out) => match tagged(hash_mode, h, data) {
                    Err(e) => Err(e),
                    Ok(tag) => Ok((out, tag.take(16) == test_hash.take(16))),
                },
            },
        },
    }
}

/// Encrypts data and tags the result.
pub open spec fn sealed(
    keys: KeySet,
    hash_mode: u32,
    crypto_mode: u32,
    version4: bool,
    data: Seq<u8>,
    key: Seq<u8>,
    iv: Seq<u8>,
    hash: Seq<u8>,
) -> Result<(Seq<u8>, Seq<u8>), Error> {
    match derived_key(keys, crypto_mode, version4, key, iv) {
        Err(e) => Err(e),
        Ok((k, v)) => match derived_hash(keys, hash_mode, version4, hash) {
            Err(e) => Err(e),
            Ok(h) => match ciphered(false, crypto_mode, k, v, data) {
                Err(e) => Err(e),
                Ok(out) => match tagged(hash_mode, h, out) {
                    Err(e) => Err(e),
                    Ok(tag) => Ok((out, tag)),
                },
            },
        },
    }
}

/// The tag is that of the encrypted data: tagging the output as it is gives the
/// same tag. Data that is not encrypted comes out as it went in.
pub proof fn law_tag_covers_output(
    keys: KeySet,
    hash_mode: u32,
    crypto_mode: u32,
    version4: bool,
    data: Seq<u8>,
    key: Seq<u8>,
    iv: Seq<u8>,
    hash: Seq<u8>,
)
    ensures
        sealed(keys, hash_mode, crypto_mode, version4, data, key, iv, hash) matches Ok((out, tag))
            ==> {
            &&& sealed(keys, hash_mode, 1, version4, out, key, iv, hash) == Ok::<
                (Seq<u8>, Seq<u8>),
                Error,
            >((out, tag))
            &&& crypto_mode & 0xFF == 1 ==> out == data
        },
{
    assert(1u32 & 0xFF == 1 && 1u32 & 0xF000_0000 == 0) by (bit_vector);
}

/// Unwraps a 16-byte key.
fn unwrap_key(keys: &KeySet, version4: bool, key: &[u8; 16]) -> (r: Result<[u8; 16], Error>)
    ensures
        r matches Ok(out) && out@ == cbc_decrypted(
            wrapping_key(*keys, version4),
            keys.edat_iv@,
            key@,
        ),
{
    let edat_key: [u8; 16] = if version4 {
        keys.edat_key_1
    } else {
        keys.edat_key_0
    };
    match aes_cbc128_decrypt(&edat_key, &keys.edat_iv, key) {
        Ok(dec) => {
            assert(dec@.take(16) =~= dec@);
            Ok(first16(&dec))
        },
        Err(e) => Err(e),
    }
}

/// Derives the key and initial vector that a crypto mode asks for.
pub fn generate_key(
    keys: &KeySet,
    crypto_mode: u32,
    version4: bool,
    key: &[u8; 16],
    iv: &[u8; 16],
) -> (r: Result<([u8; 16], [u8; 16]), Error>)
    ensures
        match r {
            Ok((k, v)) => derived_key(*keys, crypto_mode, version4, key@, iv@) == Ok::<
                (Seq<u8>, Seq<u8>),
                Error,
            >((k@, v@)),
            Err(e) => derived_key(*keys, crypto_mode, version4, key@, iv@) == Err::<
                (Seq<u8>, Seq<u8>),
                Error,
            >(e),
        },
{
    let mode: u32 = crypto_mode & 0xF000_0000;
    if mode == 0x1000_0000 {
        match unwrap_key(keys, version4, key) {
            Ok(k) => Ok((k, *iv)),
            Err(e) => Err(e),
        }
    } else if mode == 0x2000_0000 {
        if version4 {
            Ok((keys.edat_key_1, keys.edat_iv))
        } else {
            Ok((keys.edat_key_0, keys.edat_iv))
        }
    } else if mode == 0 {
        Ok((*key, *iv))
    } else {
        Err(Error::UnknownKeyMode { mode })
    }
}

/// Derives the hash key that a hash mode asks for.
pub fn generate_hash(keys: &KeySet, hash_mode: u32, version4: bool, hash: &[u8; 16]) -> (r: Result<
    [u8; 16],
    Error,
>)
    ensures
        match r {
            Ok(h) => derived_hash(*keys, hash_mode, version4, hash@) == Ok::<Seq<u8>, Error>(h@),
            Err(e) => derived_hash(*keys, hash_mode, version4, hash@) == Err::<Seq<u8>, Error>(e),
        },
{
    let mode: u32 = hash_mode & 0xF000_0000;
    if mode == 0x1000_0000 {
        unwrap_key(keys, version4, hash)
    } else if mode == 0x2000_0000 {
        if version4 {
            Ok(keys.edat_hash_1)
        } else {
            Ok(keys.edat_hash_0)
        }
    } else if mode == 0 {
        Ok(*hash)
    } else {
        Err(Error::UnknownHashMode { mode })
    }
}

/// Tags some data.
fn tag_data(hash_mode: u32, key: &[u8; 16], data: &[u8]) -> (r: Result<Vec<u8>, Error>)
    requires
        data@.len() <= MAX_MAC_INPUT,
    ensures
        match r {
            Ok(tag) => tag@.len() == tag_len(hash_mode) && tagged(hash_mode, key@, data@) == Ok::<
                Seq<u8>,
                Error,
            >(tag@),
            Err(e) => tagged(hash_mode, key@, data@) == Err::<Seq<u8>, Error>(e),
        },
{
    let algorithm: u32 = hash_mode & 0xFF;
    if algorithm == 1 {
        let mut padded: [u8; 20] = [0u8; 20];
        let mut i: usize = 0;
        while i < 16
            invariant
                i <= 16,
                forall|j: int| 0 <= j < i ==> #[trigger] padded[j] == key[j],
                forall|j: int| i <= j < 20 ==> #[trigger] padded[j] == 0,
            decreases 16 - i,
        {
            padded[i] = key[i];
            i = i + 1;
        }
        assert(padded@ =~= key@ + util::zeros(4));
        let tag: [u8; 20] = sha1_hmac(&padded, data);
        Ok(vstd::slice::slice_to_vec(&tag))
    } else if algorithm == 2 {
        let tag: [u8; 16] = aes_cmac_16(key, data);
        Ok(vstd::slice::slice_to_vec(&tag))
    } else if algorithm == 4 {
        let tag: [u8; 20] = sha1_hmac(key, data);
        let short: [u8; 16] = first16(&tag);
        Ok(vstd::slice::slice_to_vec(&short))
    } else {
        Err(Error::UnknownHashAlgorithm { algorithm })
    }
}

/// Decrypts data and checks its tag against the first sixteen bytes of
/// `test_hash`.
pub fn decrypt_and_verify(
    keys: &KeySet,
    hash_mode: u32,
    crypto_mode: u32,
    version4: bool,
    input: &[u8],
    key: &[u8; 16],
    iv: &[u8; 16],
    hash: &[u8; 16],
    test_hash: &[u8],
) -> (r: Result<(Vec<u8>, bool), Error>)
    requires
        input@.len() <= MAX_MAC_INPUT,
        test_hash@.len() >= 16,
    ensures
        match r {
            Ok((out, ok)) => opened(
                *keys,
                hash_mode,
                crypto_mode,
                version4,
                input@,
                key@,
                iv@,
                hash@,
                test_hash@,
            ) == Ok::<(Seq<u8>, bool), Error>((out@, ok)) && out@.len() == input@.len(),
            Err(e) => opened(
                *keys,
                hash_mode,
                crypto_mode,
                version4,
                input@,
                key@,
                iv@,
                hash@,
                test_hash@,
            ) == Err::<(Seq<u8>, bool), Error>(e),
        },
{
    let (key_final, iv_final) = match generate_key(keys, crypto_mode, version4, key, iv) {
        Ok(pair) => pair,
        Err(e) => {
            return Err(e);
        },
    };
    let hash_final: [u8; 16] = match generate_hash(keys, hash_mode, version4, hash) {
        Ok(h) => h,
        Err(e) => {
            return Err(e);
        },
    };
    let algorithm: u32 = crypto_mode & 0xFF;
    let output: Vec<u8> = if algorithm == 1 {
        vstd::slice::slice_to_vec(input)
    } else if algorithm == 2 {
        match aes_cbc128_decrypt(&key_final, &iv_final, input) {
            Ok(out) => out,
            Err(e) => {
                return Err(e);
            },
        }
    } else {
        return Err(Error::UnknownCryptoAlgorithm { algorithm });
    };
    match tag_data(hash_mode, &hash_final, input) {
        Ok(tag) => {
            let ok: bool = same16(&tag, test_hash);
            Ok((output, ok))
        },
        Err(e) => Err(e),
    }
}

/// Encrypts data and tags the result. Opening the result with its tag gives the
/// data back, with a matching tag.
pub fn encrypt_and_hash(
    keys: &KeySet,
    hash_mode: u32,
    crypto_mode: u32,
    version4: bool,
    input: &[u8],
    key: &[u8; 16],
    iv: &[u8; 16],
    hash: &[u8; 16],
) -> (r: Result<(Vec<u8>, Vec<u8>), Error>)
    requires
        input@.len() <= MAX_MAC_INPUT,
    ensures
        match r {
            Ok((out, tag)) => {
                &&& sealed(
                    *keys,
                    hash_mode,
                    crypto_mode,
                    version4,
                    input@,
                    key@,
                    iv@,
                    hash@,
                ) == Ok::<(Seq<u8>, Seq<u8>), Error>((out@, tag@))
                &&& out@.len() == input@.len()
                &&& tag@.len() == tag_len(hash_mode)
                &&& forall|test: Seq<u8>|
                    test.take(16) == tag@.take(16) ==> #[trigger] opened(
                        *keys,
                        hash_mode,
                        crypto_mode,
                        version4,
                        out@,
                        key@,
                        iv@,
                        hash@,
                        test,
                    ) == Ok::<(Seq<u8>, bool), Error>((input@, true))
            },
            Err(e) => sealed(
                *keys,
                hash_mode,
                crypto_mode,
                version4,
                input@,
                key@,
                iv@,
                hash@,
            ) == Err::<(Seq<u8>, Seq<u8>), Error>(e),
        },
{
    let (key_final, iv_final) = match generate_key(keys, crypto_mode, version4, key, iv) {
        Ok(pair) => pair,
        Err(e) => {
            return Err(e);
        },
    };
    let hash_final: [u8; 16] = match generate_hash(keys, hash_mode, version4, hash) {
        Ok(h) => h,
        Err(e) => {
            return Err(e);
        },
    };
    let algorithm: u32 = crypto_mode & 0xFF;
    let output: Vec<u8> = if algorithm == 1 {
        vstd::slice::slice_to_vec(input)
    } else if algorithm == 2 {
        match aes_cbc128_encrypt(&key_final, &iv_final, input) {
            Ok(out) => out,
            Err(e) => {
                return Err(e);
            },
        }
    } else {
        return Err(Error::UnknownCryptoAlgorithm { algorithm });
    };
    match tag_data(hash_mode, &hash_final, &output) {
        Ok(tag) => Ok((output, tag)),
        Err(e) => Err(e),
    }
}

} // verus!
