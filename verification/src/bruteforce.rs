//! The search for a klicensee: every window of a source is tried against the
//! dev hash of an NPD header.

use vstd::prelude::*;

use crate::constants::KeySet;
use crate::crypto::aes_cmac_16;
use crate::error::Error;
use crate::image::take_at;
use crate::npdata;
use crate::npdata::{sixteen_at, NpdHeader};
use crate::primitives;
use crate::util;
use crate::util::{hex_digits_16, same16, xor16};

verus! {

/// How a klicensee is written in the source.
#[derive(Clone, Copy, Debug, PartialEq, Eq)]
pub enum SourceMode {
    /// As sixteen bytes.
    Binary,
    /// As 32 hexadecimal digits.
    Text,
    /// As 32 hexadecimal digits in UTF-16, low byte first.
    UnicodeText,
}

/// What a klicensee is tried against.
#[derive(Clone, Copy, Debug, PartialEq, Eq)]
pub struct Target {
    /// The signed part of the NPD header.
    pub npd_buf: [u8; 0x60],
    /// Its dev hash.
    pub dev_hash: [u8; 0x10],
    /// Where the header lies inside an SCE file, if it is in one.
    pub sce_offset: Option<u64>,
}

/// Whether a file starts as an SCE file does.
pub open spec fn is_sce(src: Seq<u8>) -> bool {
    src.take(4) == seq![0x53u8, 0x43, 0x45, 0x00]
}

/// Where the NPD header lies: at the start, or inside an SCE file just before
/// the place that its header names.
pub open spec fn npd_place(src: Seq<u8>) -> Result<int, Error> {
    if src.len() < 4 {
        Err(Error::UnexpectedEof)
    } else if !is_sce(src) {
        Ok(0)
    } else if src.len() < 16 {
        Err(Error::UnexpectedEof)
    } else if src[14] * 0x100 + src[15] < 0x60 {
        Err(Error::InvalidNpdOffset)
    } else {
        Ok(src[14] * 0x100 + src[15] - 0x60)
    }
}

/// Why a file holds no NPD header to search for, if it holds none.
pub open spec fn target_refused(src: Seq<u8>) -> Option<Error> {
    match npd_place(src) {
        Err(e) => Some(e),
        Ok(at) => if src.len() < at + 0x60 {
            Some(Error::SignedPartTruncated)
        } else if src.len() < at + 0x70 {
            Some(Error::DevHashTruncated)
        } else {
            None
        },
    }
}

/// The big-endian number in the first two bytes.
pub fn read_be_u16(buf: &[u8]) -> (v: u16)
    requires
        buf@.len() >= 2,
    ensures
        v == buf@[0] * 0x100 + buf@[1],
{
    buf[0] as u16 * 0x100 + buf[1] as u16
}

/// Finds the NPD header. Returns where it lies, and whether that is inside an
/// SCE file.
pub fn find_npd(input: &[u8]) -> (r: Result<(usize, bool), Error>)
    ensures
        match r {
            Ok((at, sce)) => npd_place(input@) == Ok::<int, Error>(at as int) && sce == is_sce(
                input@,
            ) && at <= 0xFFFF,
            Err(e) => npd_place(input@) == Err::<int, Error>(e),
        },
{
    if input.len() < 4 {
        return Err(Error::UnexpectedEof);
    }
    let sce: bool = input[0] == 0x53 && input[1] == 0x43 && input[2] == 0x45 && input[3] == 0;
    proof {
        let magic = seq![0x53u8, 0x43, 0x45, 0x00];
        if sce {
            assert(input@.take(4) =~= magic);
        } else {
            assert(input@.take(4)[0] != magic[0] || input@.take(4)[1] != magic[1]
                || input@.take(4)[2] != magic[2] || input@.take(4)[3] != magic[3]);
        }
    }
    if !sce {
        return Ok((0, false));
    }
    if input.len() < 16 {
        return Err(Error::UnexpectedEof);
    }
    let end: u16 = read_be_u16(vstd::slice::slice_subrange(input, 14, 16));
    if end < 0x60 {
        return Err(Error::InvalidNpdOffset);
    }
    Ok(((end - 0x60) as usize, true))
}

/// Reads what a klicensee is tried against.
pub fn read_npd_for_bruteforce(input: &[u8]) -> (r: Result<Target, Error>)
    ensures
        match r {
            Err(e) => target_refused(input@) == Some(e),
            Ok(t) => {
                &&& target_refused(input@) is None
                &&& npd_place(input@) matches Ok(at)
                &&& t.npd_buf@ == input@.subrange(at, at + 0x60)
                &&& t.dev_hash@ == input@.subrange(at + 0x60, at + 0x70)
                &&& t.sce_offset == (if is_sce(input@) {
                    Some(at as u64)
                } else {
                    None
                })
            },
        },
{
    let (at, sce): (usize, bool) = match find_npd(input) {
        Ok(place) => place,
        Err(e) => {
            return Err(e);
        },
    };
    let npd = match take_at(input, at as u128, 0x60) {
        Ok(npd) => npd,
        Err(_) => {
            return Err(Error::SignedPartTruncated);
        },
    };
    if input.len() < at + 0x70 {
        return Err(Error::DevHashTruncated);
    }
    let mut npd_buf: [u8; 0x60] = [0u8; 0x60];
    let mut i: usize = 0;
    while i < 0x60
        invariant
            i <= 0x60,
            npd@.len() == 0x60,
            forall|j: int| 0 <= j < i ==> #[trigger] npd_buf[j] == npd@[j],
        decreases 0x60 - i,
    {
        npd_buf[i] = npd[i];
        i = i + 1;
    }
    assert(npd_buf@ =~= npd@);
    let dev_hash: [u8; 16] = sixteen_at(input, at + 0x60);
    let sce_offset: Option<u64> = if sce {
        Some(at as u64)
    } else {
        None
    };
    Ok(Target { npd_buf, dev_hash, sce_offset })
}

/// Whether a klicensee gives this dev hash.
pub open spec fn fits(keys: KeySet, npd_buf: Seq<u8>, dev_hash: Seq<u8>, klicensee: Seq<u8>) -> bool {
    primitives::cmac_aes128(util::xor_bytes(klicensee, keys.npdrm_omac_key_2@), npd_buf)
        == dev_hash
}

/// Whether a klicensee gives this dev hash.
pub fn try_bruteforce_candidate(
    keys: &KeySet,
    npd_buf: &[u8; 0x60],
    dev_hash: &[u8; 0x10],
    klicensee: &[u8; 0x10],
) -> (ok: bool)
    ensures
        ok == fits(*keys, npd_buf@, dev_hash@, klicensee@),
{
    let tag: [u8; 16] = aes_cmac_16(&xor16(klicensee, &keys.npdrm_omac_key_2), npd_buf);
    assert(tag@.take(16) =~= tag@ && dev_hash@.take(16) =~= dev_hash@);
    same16(&tag, dev_hash)
}

/// Bytes as code points.
pub open spec fn widened(bytes: Seq<u8>) -> Seq<u32> {
    Seq::new(bytes.len(), |i: int| bytes[i] as u32)
}

/// How many bytes a klicensee takes in the source.
pub open spec fn window_len(mode: SourceMode) -> nat {
    match mode {
        SourceMode::Binary => 16,
        SourceMode::Text => 32,
        SourceMode::UnicodeText => 64,
    }
}

/// The klicensee that a window of the source writes, if it writes one.
pub open spec fn candidate(mode: SourceMode, window: Seq<u8>) -> Option<Seq<u8>> {
    match mode {
        SourceMode::Binary => Some(window),
        SourceMode::Text => util::hex_key(widened(window)),
        SourceMode::UnicodeText => if forall|i: int|
            0 <= i < 32 ==> window[#[trigger] (2 * i + 1)] == 0 {
            util::hex_key(Seq::new(32, |i: int| window[2 * i] as u32))
        } else {
            None
        },
    }
}

/// The first klicensee from position `i` on that gives this dev hash.
pub open spec fn searched(
    keys: KeySet,
    npd_buf: Seq<u8>,
    dev_hash: Seq<u8>,
    mode: SourceMode,
    source: Seq<u8>,
    i: nat,
) -> Option<Seq<u8>>
    decreases source.len() - i,
{
    if i + window_len(mode) > source.len() {
        None
    } else {
        match candidate(mode, source.subrange(i as int, (i + window_len(mode)) as int)) {
            Some(k) if fits(keys, npd_buf, dev_hash, k) => Some(k),
            _ => searched(keys, npd_buf, dev_hash, mode, source, i + 1),
        }
    }
}

/// A klicensee that is found gives the dev hash.
pub proof fn law_found_fits(
    keys: KeySet,
    npd_buf: Seq<u8>,
    dev_hash: Seq<u8>,
    mode: SourceMode,
    source: Seq<u8>,
    i: nat,
)
    ensures
        searched(keys, npd_buf, dev_hash, mode, source, i) matches Some(k) ==> fits(
            keys,
            npd_buf,
            dev_hash,
            k,
        ),
    decreases source.len() - i,
{
    if i + window_len(mode) <= source.len() {
        law_found_fits(keys, npd_buf, dev_hash, mode, source, i + 1);
    }
}

/// A source that writes a klicensee that gives the dev hash is not searched in
/// vain.
pub proof fn law_not_in_vain(
    keys: KeySet,
    npd_buf: Seq<u8>,
    dev_hash: Seq<u8>,
    mode: SourceMode,
    source: Seq<u8>,
    i: nat,
    at: nat,
)
    requires
        i <= at,
        at + window_len(mode) <= source.len(),
        candidate(mode, source.subrange(at as int, (at + window_len(mode)) as int)) matches Some(k)
            && fits(keys, npd_buf, dev_hash, k),
    ensures
        searched(keys, npd_buf, dev_hash, mode, source, i) is Some,
    decreases at - i,
{
    if i < at {
        law_not_in_vain(keys, npd_buf, dev_hash, mode, source, i + 1, at);
    }
}

/// A source that writes the klicensee that signed a header is not searched in
/// vain, with that header as the target.
pub proof fn law_signer_is_found(
    keys: KeySet,
    npd: NpdHeader,
    klicensee: Seq<u8>,
    mode: SourceMode,
    source: Seq<u8>,
    at: nat,
)
    requires
        npd.dev_hash@ == npdata::dev_tag(keys, klicensee, npd),
        at + window_len(mode) <= source.len(),
        candidate(mode, source.subrange(at as int, (at + window_len(mode)) as int)) == Some(
            klicensee,
        ),
    ensures
        searched(keys, npdata::npd_dev_bytes(npd), npd.dev_hash@, mode, source, 0) is Some,
{
    law_not_in_vain(
        keys,
        npdata::npd_dev_bytes(npd),
        npd.dev_hash@,
        mode,
        source,
        0,
        at,
    );
}

/// Whether a window of a source is a key: its bytes, its digits in either case,
/// or those digits with a zero after each.
pub open spec fn writes(mode: SourceMode, window: Seq<u8>, key: Seq<u8>) -> bool {
    match mode {
        SourceMode::Binary => key.len() == 16 && window == key,
        SourceMode::Text => {
            &&& window.len() == 32
            &&& key.len() == 16
            &&& forall|i: int|
                0 <= i < 16 ==> util::writes_digit(
                    window[2 * i] as u32,
                    #[trigger] key[i] as int / 16,
                ) && util::writes_digit(window[2 * i + 1] as u32, key[i] as int % 16)
        },
        SourceMode::UnicodeText => {
            &&& window.len() == 64
            &&& key.len() == 16
            &&& forall|i: int|
                0 <= i < 16 ==> {
                    &&& util::writes_digit(window[4 * i] as u32, #[trigger] key[i] as int / 16)
                    &&& window[4 * i + 1] == 0
                    &&& util::writes_digit(window[4 * i + 2] as u32, key[i] as int % 16)
                    &&& window[4 * i + 3] == 0
                }
        },
    }
}

/// A window is tried as a key exactly where it writes that key.
pub proof fn law_candidates(mode: SourceMode, window: Seq<u8>, key: Seq<u8>)
    requires
        window.len() == window_len(mode),
    ensures
        candidate(mode, window) == Some(key) <==> writes(mode, window, key),
        mode is Binary ==> window.len() == 16,
        mode is Text ==> window.len() == 32,
        mode is UnicodeText ==> window.len() == 64,
{
    match mode {
        SourceMode::Binary => {},
        SourceMode::Text => {
            util::law_hex_key(widened(window), key);
            let d = widened(window);
            if writes(mode, window, key) {
                assert forall|i: int| 0 <= i < 16 implies util::writes_digit(
                    d[2 * i],
                    #[trigger] key[i] as int / 16,
                ) && util::writes_digit(d[2 * i + 1], key[i] as int % 16) by {}
            }
        },
        SourceMode::UnicodeText => {
            let d = Seq::new(32, |i: int| window[2 * i] as u32);
            util::law_hex_key(d, key);
            if writes(mode, window, key) {
                assert forall|i: int| 0 <= i < 32 implies window[#[trigger] (2 * i + 1)] == 0 by {
                    let j = i / 2;
                    assert(util::writes_digit(window[4 * j] as u32, key[j] as int / 16));
                    assert(2 * i + 1 == 4 * j + 1 || 2 * i + 1 == 4 * j + 3);
                }
                assert forall|i: int| 0 <= i < 16 implies util::writes_digit(
                    d[2 * i],
                    #[trigger] key[i] as int / 16,
                ) && util::writes_digit(d[2 * i + 1], key[i] as int % 16) by {
                    assert(d[2 * i] == window[4 * i] as u32);
                    assert(d[2 * i + 1] == window[4 * i + 2] as u32);
                }
            }
            if candidate(mode, window) == Some(key) {
                assert forall|i: int| 0 <= i < 16 implies {
                    &&& util::writes_digit(window[4 * i] as u32, #[trigger] key[i] as int / 16)
                    &&& window[4 * i + 1] == 0
                    &&& util::writes_digit(window[4 * i + 2] as u32, key[i] as int % 16)
                    &&& window[4 * i + 3] == 0
                } by {
                    assert(d[2 * i] == window[4 * i] as u32);
                    assert(d[2 * i + 1] == window[4 * i + 2] as u32);
                    assert(window[2 * (2 * i) + 1] == 0);
                    assert(window[2 * (2 * i + 1) + 1] == 0);
                }
            }
        },
    }
}

/// Whether the bytes of a source from a position on write a key that gives the
/// dev hash.
pub open spec fn hits(
    keys: KeySet,
    npd_buf: Seq<u8>,
    dev_hash: Seq<u8>,
    mode: SourceMode,
    source: Seq<u8>,
    at: int,
    key: Seq<u8>,
) -> bool {
    let n: int = match mode {
        SourceMode::Binary => 16,
        SourceMode::Text => 32,
        SourceMode::UnicodeText => 64,
    };
    &&& 0 <= at
    &&& at + n <= source.len()
    &&& writes(mode, source.subrange(at, at + n), key)
    &&& primitives::cmac_aes128(
        Seq::new(16, |k: int| key[k] ^ keys.npdrm_omac_key_2@[k]),
        npd_buf,
    ) == dev_hash
}

/// The search finds the first key that the source writes and that gives the dev
/// hash, at whatever position it stands and in whatever case; it finds none only
/// where there is none.
pub proof fn law_first_hit_is_found(
    keys: KeySet,
    npd_buf: Seq<u8>,
    dev_hash: Seq<u8>,
    mode: SourceMode,
    source: Seq<u8>,
    i: nat,
)
    ensures
        match searched(keys, npd_buf, dev_hash, mode, source, i) {
            Some(key) => exists|at: int|
                #![trigger hits(keys, npd_buf, dev_hash, mode, source, at, key)]
                {
                    &&& i <= at
                    &&& hits(keys, npd_buf, dev_hash, mode, source, at, key)
                    &&& forall|j: int, other: Seq<u8>|
                        i <= j < at ==> !#[trigger] hits(
                            keys,
                            npd_buf,
                            dev_hash,
                            mode,
                            source,
                            j,
                            other,
                        )
                },
            None => forall|j: int, other: Seq<u8>|
                i <= j ==> !#[trigger] hits(keys, npd_buf, dev_hash, mode, source, j, other),
        },
    decreases source.len() - i,
{
    let n = window_len(mode);
    if i + n <= source.len() {
        let window = source.subrange(i as int, (i + n) as int);
        assert forall|key: Seq<u8>|
            #![trigger hits(keys, npd_buf, dev_hash, mode, source, i as int, key)]
            hits(keys, npd_buf, dev_hash, mode, source, i as int, key) <==> candidate(mode, window)
                == Some(key) && fits(keys, npd_buf, dev_hash, key) by {
            law_candidates(mode, window, key);
            if key.len() == 16 {
                assert(util::xor_bytes(key, keys.npdrm_omac_key_2@) =~= Seq::new(
                    16,
                    |k: int| key[k] ^ keys.npdrm_omac_key_2@[k],
                ));
            }
        }
        law_first_hit_is_found(keys, npd_buf, dev_hash, mode, source, i + 1);
        let found = match candidate(mode, window) {
            Some(k) => fits(keys, npd_buf, dev_hash, k),
            None => false,
        };
        if found {
            let key = candidate(mode, window)->Some_0;
            assert(hits(keys, npd_buf, dev_hash, mode, source, i as int, key));
        } else {
            assert forall|other: Seq<u8>|
                !#[trigger] hits(keys, npd_buf, dev_hash, mode, source, i as int, other) by {}
            if let Some(key) = searched(keys, npd_buf, dev_hash, mode, source, i + 1) {
                let at = choose|at: int|
                    #![trigger hits(keys, npd_buf, dev_hash, mode, source, at, key)]
                    {
                        &&& i + 1 <= at
                        &&& hits(keys, npd_buf, dev_hash, mode, source, at, key)
                        &&& forall|j: int, other: Seq<u8>|
                            i + 1 <= j < at ==> !#[trigger] hits(
                                keys,
                                npd_buf,
                                dev_hash,
                                mode,
                                source,
                                j,
                                other,
                            )
                    };
                assert forall|j: int, other: Seq<u8>| i <= j < at implies !#[trigger] hits(
                    keys,
                    npd_buf,
                    dev_hash,
                    mode,
                    source,
                    j,
                    other,
                ) by {
                    if j == i {
                        assert(!hits(keys, npd_buf, dev_hash, mode, source, i as int, other));
                    }
                }
            } else {
                assert forall|j: int, other: Seq<u8>| i <= j implies !#[trigger] hits(
                    keys,
                    npd_buf,
                    dev_hash,
                    mode,
                    source,
                    j,
                    other,
                ) by {
                    if j == i {
                        assert(!hits(keys, npd_buf, dev_hash, mode, source, i as int, other));
                    }
                }
            }
        }
    }
}

/// Where the header that is searched for lies: at the start of a file, or, in
/// one that starts with `SCE` and a zero, 0x60 bytes before the place that the
/// two bytes at 14 name.
pub proof fn law_header_place(src: Seq<u8>)
    ensures
        ({
            let sce = src[0] == 'S' as u8 && src[1] == 'C' as u8 && src[2] == 'E' as u8 && src[3]
                == 0;
            let at = if sce {
                0x100 * src[14] + src[15] - 0x60
            } else {
                0
            };
            if src.len() < 4 || sce && src.len() < 16 {
                &&& npd_place(src) == Err::<int, Error>(Error::UnexpectedEof)
                &&& target_refused(src) == Some(Error::UnexpectedEof)
            } else if at < 0 {
                &&& npd_place(src) == Err::<int, Error>(Error::InvalidNpdOffset)
                &&& target_refused(src) == Some(Error::InvalidNpdOffset)
            } else {
                &&& is_sce(src) == sce
                &&& npd_place(src) == Ok::<int, Error>(at)
                &&& target_refused(src) == if src.len() < at + 0x60 {
                    Some(Error::SignedPartTruncated)
                } else if src.len() < at + 0x70 {
                    Some(Error::DevHashTruncated)
                } else {
                    None
                }
            }
        }),
{
    let magic = seq![0x53u8, 0x43, 0x45, 0x00];
    let start = src.take(4);
    if src.len() >= 4 {
        if src[0] == 0x53 && src[1] == 0x43 && src[2] == 0x45 && src[3] == 0 {
            assert(start =~= magic);
        } else {
            assert(start[0] != magic[0] || start[1] != magic[1] || start[2] != magic[2] || start[3]
                != magic[3]);
        }
    }
}

/// Reads a klicensee from 32 hexadecimal digits.
pub fn parse_hex_window(window: &[u8]) -> (r: Option<[u8; 0x10]>)
    ensures
        match r {
            Some(key) => util::hex_key(widened(window@)) == Some(key@),
            None => util::hex_key(widened(window@)) is None,
        },
{
    if window.len() != 0x20 {
        return None;
    }
    let mut digits: Vec<u32> = Vec::new();
    let mut i: usize = 0;
    while i < 0x20
        invariant
            i <= 0x20,
            window@.len() == 0x20,
            digits@.len() == i,
            forall|j: int| 0 <= j < i ==> #[trigger] digits@[j] == window@[j] as u32,
        decreases 0x20 - i,
    {
        digits.push(window[i] as u32);
        i = i + 1;
    }
    assert(digits@ =~= widened(window@));
    hex_digits_16(&digits)
}

/// Reads a klicensee from 32 hexadecimal digits in UTF-16.
fn parse_unicode_window(window: &[u8]) -> (r: Option<[u8; 0x10]>)
    requires
        window@.len() == 64,
    ensures
        match r {
            Some(key) => candidate(SourceMode::UnicodeText, window@) == Some(key@),
            None => candidate(SourceMode::UnicodeText, window@) is None,
        },
{
    let mut ascii: [u8; 0x20] = [0u8; 0x20];
    let mut i: usize = 0;
    while i < 0x20
        invariant
            i <= 0x20,
            window@.len() == 64,
            forall|j: int| 0 <= j < i ==> #[trigger] ascii[j] == window@[2 * j],
            forall|j: int| 0 <= j < i ==> window@[#[trigger] (2 * j + 1)] == 0,
        decreases 0x20 - i,
    {
        if window[2 * i + 1] != 0 {
            assert(window@[2 * i as int + 1] != 0);
            return None;
        }
        ascii[i] = window[2 * i];
        i = i + 1;
    }
    assert(widened(ascii@) =~= Seq::new(32, |i: int| window@[2 * i] as u32));
    parse_hex_window(&ascii)
}

/// Tries every window of the source, in order.
pub fn brute_force(
    keys: &KeySet,
    npd_buf: &[u8; 0x60],
    dev_hash: &[u8; 0x10],
    source: &[u8],
    mode: SourceMode,
) -> (r: Option<[u8; 0x10]>)
    ensures
        match r {
            Some(k) => searched(*keys, npd_buf@, dev_hash@, mode, source@, 0) == Some(k@),
            None => searched(*keys, npd_buf@, dev_hash@, mode, source@, 0) is None,
        },
{
    let width: usize = match mode {
        SourceMode::Binary => 16,
        SourceMode::Text => 32,
        SourceMode::UnicodeText => 64,
    };
    let n: usize = source.len();
    let ghost goal = searched(*keys, npd_buf@, dev_hash@, mode, source@, 0);
    let mut i: usize = 0;
    while n >= width && i <= n - width
        invariant
            n == source@.len(),
            width == window_len(mode),
            goal == searched(*keys, npd_buf@, dev_hash@, mode, source@, 0),
            goal == searched(*keys, npd_buf@, dev_hash@, mode, source@, i as nat),
            n >= width ==> i <= n - width + 1,
            n < width ==> i == 0,
        decreases n + 1 - i,
    {
        let window = vstd::slice::slice_subrange(source, i, i + width);
        let key: Option<[u8; 16]> = match mode {
            SourceMode::Binary => {
                assert(window@.subrange(0, 16) =~= window@);
                Some(sixteen_at(window, 0))
            },
            SourceMode::Text => parse_hex_window(window),
            SourceMode::UnicodeText => parse_unicode_window(window),
        };
        match key {
            Some(klicensee) => {
                if try_bruteforce_candidate(keys, npd_buf, dev_hash, &klicensee) {
                    return Some(klicensee);
                }
            },
            None => {},
        }
        i = i + 1;
    }
    None
}

/// Searches for a klicensee written as sixteen bytes.
pub fn brute_force_binary(
    keys: &KeySet,
    npd_buf: &[u8; 0x60],
    dev_hash: &[u8; 0x10],
    source: &[u8],
) -> (r: Option<[u8; 0x10]>)
    ensures
        match r {
            Some(k) => searched(
                *keys,
                npd_buf@,
                dev_hash@,
                SourceMode::Binary,
                source@,
                0,
            ) == Some(k@),
            None => searched(
                *keys,
                npd_buf@,
                dev_hash@,
                SourceMode::Binary,
                source@,
                0,
            ) is None,
        },
{
    brute_force(keys, npd_buf, dev_hash, source, SourceMode::Binary)
}

/// Searches for a klicensee written as 32 hexadecimal digits.
pub fn brute_force_text(
    keys: &KeySet,
    npd_buf: &[u8; 0x60],
    dev_hash: &[u8; 0x10],
    source: &[u8],
) -> (r: Option<[u8; 0x10]>)
    ensures
        match r {
            Some(k) => searched(
                *keys,
                npd_buf@,
                dev_hash@,
                SourceMode::Text,
                source@,
                0,
            ) == Some(k@),
            None => searched(
                *keys,
                npd_buf@,
                dev_hash@,
                SourceMode::Text,
                source@,
                0,
            ) is None,
        },
{
    brute_force(keys, npd_buf, dev_hash, source, SourceMode::Text)
}

/// Searches for a klicensee written as 32 hexadecimal digits in UTF-16.
pub fn brute_force_unicode_text(
    keys: &KeySet,
    npd_buf: &[u8; 0x60],
    dev_hash: &[u8; 0x10],
    source: &[u8],
) -> (r: Option<[u8; 0x10]>)
    ensures
        match r {
            Some(k) => searched(
                *keys,
                npd_buf@,
                dev_hash@,
                SourceMode::UnicodeText,
                source@,
                0,
            ) == Some(k@),
            None => searched(
                *keys,
                npd_buf@,
                dev_hash@,
                SourceMode::UnicodeText,
                source@,
                0,
            ) is None,
        },
{
    brute_force(keys, npd_buf, dev_hash, source, SourceMode::UnicodeText)
}

} // verus!
