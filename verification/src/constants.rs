//! Header flags, and the fixed keys that the caller supplies.

use vstd::prelude::*;

use crate::util::first16;

verus! {

/// Set in the flags of an SDAT container.
pub const SDAT_FLAG: u32 = 0x0100_0000;

/// Set where each block's metadata carries its own offset and length.
pub const EDAT_COMPRESSED_FLAG: u32 = 0x0000_0001;

/// Set where the blocks are hashed but not encrypted.
pub const EDAT_FLAG_0X02: u32 = 0x0000_0002;

/// Set where the block keys are themselves decrypted before use.
pub const EDAT_ENCRYPTED_KEY_FLAG: u32 = 0x0000_0008;

/// Set where the hash key is derived from the block key.
pub const EDAT_FLAG_0X10: u32 = 0x0000_0010;

/// Set where each block follows its own masked metadata.
pub const EDAT_FLAG_0X20: u32 = 0x0000_0020;

/// Set where the payload is stored in the clear.
pub const EDAT_DEBUG_DATA_FLAG: u32 = 0x8000_0000;

/// How many bytes [`KeySet::from_bytes`] reads.
pub const KEY_SET_LEN: usize = 272;

/// The console's fixed keys and tables.
#[derive(Clone, Copy, Debug, PartialEq, Eq)]
pub struct KeySet {
    /// Wraps block keys, versions below 4.
    pub edat_key_0: [u8; 16],
    /// Wraps block keys, version 4.
    pub edat_key_1: [u8; 16],
    /// The fixed hash key, versions below 4.
    pub edat_hash_0: [u8; 16],
    /// The fixed hash key, version 4.
    pub edat_hash_1: [u8; 16],
    /// The initial vector that goes with the wrapping keys.
    pub edat_iv: [u8; 16],
    /// Masks the key of an SDAT container.
    pub sdat_key: [u8; 16],
    /// The free license key.
    pub npdrm_omac_key_1: [u8; 16],
    /// Masks the klicensee in the dev hash.
    pub npdrm_omac_key_2: [u8; 16],
    /// Keys the title hash.
    pub npdrm_omac_key_3: [u8; 16],
    /// The PS3 klicensee.
    pub npdrm_klic_key: [u8; 16],
    /// The klicensee of PSOne classics.
    pub npdrm_psx_key: [u8; 16],
    /// The klicensee of PSP minis.
    pub npdrm_psp_key_1: [u8; 16],
    /// The klicensee of PSP remasters.
    pub npdrm_psp_key_2: [u8; 16],
    /// Decrypts a RAP file.
    pub rap_key: [u8; 16],
    /// The order in which a RAP round visits the key's bytes.
    pub rap_pbox: [u8; 16],
    /// The bytes that a RAP round mixes in.
    pub rap_e1: [u8; 16],
    /// The number that a RAP round subtracts.
    pub rap_e2: [u8; 16],
}

/// Part `i` of the bytes of a key set.
pub open spec fn key_part(bytes: Seq<u8>, i: int) -> Seq<u8> {
    bytes.subrange(16 * i, 16 * i + 16)
}

/// Whether sixteen bytes name each of the positions 0 to 15 once.
pub open spec fn is_order(order: Seq<u8>) -> bool {
    &&& forall|i: int| 0 <= i < 16 ==> #[trigger] order[i] < 16
    &&& forall|i: int, j: int|
        0 <= i < j < 16 ==> #[trigger] order[i] != #[trigger] order[j]
}

impl KeySet {
    /// The visiting order is a permutation of the sixteen positions.
    pub open spec fn wf(self) -> bool {
        is_order(self.rap_pbox@)
    }

    /// Reads a key set from its 272 bytes: the fields in order, 16 bytes each.
    /// A visiting order that is no permutation is refused.
    pub fn from_bytes(bytes: &[u8]) -> (r: Option<KeySet>)
        ensures
            r is Some <==> bytes@.len() == KEY_SET_LEN && is_order(key_part(bytes@, 14)),
            r matches Some(k) ==> {
                &&& k.wf()
                &&& k.edat_key_0@ == key_part(bytes@, 0)
                &&& k.edat_key_1@ == key_part(bytes@, 1)
                &&& k.edat_hash_0@ == key_part(bytes@, 2)
                &&& k.edat_hash_1@ == key_part(bytes@, 3)
                &&& k.edat_iv@ == key_part(bytes@, 4)
                &&& k.sdat_key@ == key_part(bytes@, 5)
                &&& k.npdrm_omac_key_1@ == key_part(bytes@, 6)
                &&& k.npdrm_omac_key_2@ == key_part(bytes@, 7)
                &&& k.npdrm_omac_key_3@ == key_part(bytes@, 8)
                &&& k.npdrm_klic_key@ == key_part(bytes@, 9)
                &&& k.npdrm_psx_key@ == key_part(bytes@, 10)
                &&& k.npdrm_psp_key_1@ == key_part(bytes@, 11)
                &&& k.npdrm_psp_key_2@ == key_part(bytes@, 12)
                &&& k.rap_key@ == key_part(bytes@, 13)
                &&& k.rap_pbox@ == key_part(bytes@, 14)
                &&& k.rap_e1@ == key_part(bytes@, 15)
                &&& k.rap_e2@ == key_part(bytes@, 16)
            },
    {
        if bytes.len() != KEY_SET_LEN {
            return None;
        }
        let rap_pbox: [u8; 16] = take_part(bytes, 14);
        if !names_each_position(&rap_pbox) {
            return None;
        }
        Some(
            KeySet {
                edat_key_0: take_part(bytes, 0),
                edat_key_1: take_part(bytes, 1),
                edat_hash_0: take_part(bytes, 2),
                edat_hash_1: take_part(bytes, 3),
                edat_iv: take_part(bytes, 4),
                sdat_key: take_part(bytes, 5),
                npdrm_omac_key_1: take_part(bytes, 6),
                npdrm_omac_key_2: take_part(bytes, 7),
                npdrm_omac_key_3: take_part(bytes, 8),
                npdrm_klic_key: take_part(bytes, 9),
                npdrm_psx_key: take_part(bytes, 10),
                npdrm_psp_key_1: take_part(bytes, 11),
                npdrm_psp_key_2: take_part(bytes, 12),
                rap_key: take_part(bytes, 13),
                rap_pbox,
                rap_e1: take_part(bytes, 15),
                rap_e2: take_part(bytes, 16),
            },
        )
    }
}

/// Part `i` of the bytes of a key set.
fn take_part(bytes: &[u8], i: usize) -> (part: [u8; 16])
    requires
        bytes@.len() == KEY_SET_LEN,
        i < 17,
    ensures
        part@ == key_part(bytes@, i as int),
{
    let slice = vstd::slice::slice_subrange(bytes, 16 * i, 16 * i + 16);
    assert(slice@.take(16) =~= slice@);
    first16(slice)
}

/// Whether sixteen bytes name each of the positions 0 to 15 once.
fn names_each_position(order: &[u8; 16]) -> (yes: bool)
    ensures
        yes == is_order(order@),
{
    let mut j: usize = 0;
    while j < 16
        invariant
            j <= 16,
            forall|k: int| 0 <= k < j ==> #[trigger] order@[k] < 16,
            forall|i: int, k: int|
                0 <= i < k < j ==> #[trigger] order@[i] != #[trigger] order@[k],
        decreases 16 - j,
    {
        if order[j] >= 16 {
            assert(order@[j as int] >= 16);
            return false;
        }
        let mut i: usize = 0;
        while i < j
            invariant
                i <= j < 16,
                forall|k: int| 0 <= k < i ==> #[trigger] order@[k] != order@[j as int],
            decreases j - i,
        {
            if order[i] == order[j] {
                assert(order@[i as int] == order@[j as int]);
                return false;
            }
            i = i + 1;
        }
        j = j + 1;
    }
    true
}

/// The parts of a key set lie one behind the other, sixteen bytes each.
pub proof fn law_key_parts(bytes: Seq<u8>, i: int, k: int)
    requires
        bytes.len() == 272,
        0 <= i < 17,
        0 <= k < 16,
    ensures
        key_part(bytes, i).len() == 16,
        key_part(bytes, i)[k] == bytes[16 * i + k],
{
}

/// An order names every position, and so no position twice.
pub proof fn law_order_is_complete(order: Seq<u8>, k: int)
    requires
        order.len() == 16,
        is_order(order),
        0 <= k < 16,
    ensures
        order.contains(k as u8),
{
    let places = Seq::new(16, |j: int| order[j] as int);
    let all = vstd::set_lib::set_int_range(0, 16);
    places.unique_seq_to_set();
    vstd::set_lib::lemma_int_range(0, 16);
    assert(places.to_set().subset_of(all));
    vstd::set_lib::lemma_subset_equality(places.to_set(), all);
    assert(places.to_set().contains(k));
    let j = choose|j: int| 0 <= j < 16 && places[j] == k;
    assert(order[j] == k as u8);
}

} // verus!
