//! The conversion of a RAP file's sixteen bytes into a RIF key.
//!
//! The bytes are decrypted, and then mixed in five rounds. A round visits the
//! bytes in a fixed order: it masks each, chains each to the one before it,
//! and subtracts a constant from the number that they write, lowest digit
//! first.

use vstd::prelude::*;

use crate::constants::KeySet;
use crate::crypto;
use crate::crypto::aes_cbc128_decrypt;
use crate::error::Error;
use crate::util;
use crate::util::{first16, same_text};

verus! {

/// How many rounds the conversion makes.
pub const RAP_ROUNDS: usize = 5;

/// Sixteen bytes in the order in which a round visits them.
pub open spec fn visited(keys: KeySet, bytes: Seq<u8>) -> Seq<u8> {
    Seq::new(16, |j: int| bytes[keys.rap_pbox[j] as int])
}

/// Each byte after the first, xored with the one before it.
pub open spec fn chained(s: Seq<u8>) -> Seq<u8> {
    Seq::new(
        s.len(),
        |j: int|
            if j == 0 {
                s[0]
            } else {
                s[j] ^ s[j - 1]
            },
    )
}

/// Whether subtracting the digits of `b` from those of `a`, lowest first,
/// borrows from digit `j`.
pub open spec fn borrows(a: Seq<u8>, b: Seq<u8>, j: nat) -> bool
    decreases j,
{
    if j == 0 {
        false
    } else if borrows(a, b, (j - 1) as nat) {
        a[j - 1] < b[j - 1] + 1
    } else {
        a[j - 1] < b[j - 1]
    }
}

/// The digits of `a - b`, lowest first, with a last borrow dropped.
pub open spec fn subtracted(a: Seq<u8>, b: Seq<u8>) -> Seq<u8> {
    Seq::new(
        a.len(),
        |j: int|
            ((a[j] - b[j] - (if borrows(a, b, j as nat) {
                1int
            } else {
                0int
            })) % 0x100) as u8,
    )
}

/// One round, on bytes in visiting order.
pub open spec fn rap_round(keys: KeySet, s: Seq<u8>) -> Seq<u8> {
    subtracted(
        chained(util::xor_bytes(s, visited(keys, keys.rap_e1@))),
        visited(keys, keys.rap_e2@),
    )
}

/// The first `n` rounds, on bytes in visiting order.
pub open spec fn rap_rounds(keys: KeySet, s: Seq<u8>, n: nat) -> Seq<u8>
    decreases n,
{
    if n == 0 {
        s
    } else {
        rap_round(keys, rap_rounds(keys, s, (n - 1) as nat))
    }
}

/// The number that the first `n` digits write, lowest first.
pub open spec fn digits_value(s: Seq<u8>, n: nat) -> int
    decreases n,
{
    if n == 0 {
        0
    } else {
        digits_value(s, (n - 1) as nat) + s[n - 1] * vstd::arithmetic::power::pow(256, (n - 1) as nat)
    }
}

proof fn lemma_digits_bound(s: Seq<u8>, n: nat)
    requires
        n <= s.len(),
    ensures
        0 <= digits_value(s, n) < vstd::arithmetic::power::pow(256, n),
    decreases n,
{
    reveal(vstd::arithmetic::power::pow);
    if n > 0 {
        lemma_digits_bound(s, (n - 1) as nat);
        let d = s[n - 1] as int;
        let p = vstd::arithmetic::power::pow(256, (n - 1) as nat);
        assert(0 <= d * p <= 255 * p) by (nonlinear_arith)
            requires
                0 <= d <= 255,
                p > 0,
        ;
    }
}

proof fn lemma_subtracted_digits(a: Seq<u8>, b: Seq<u8>, n: nat)
    requires
        a.len() == b.len(),
        n <= a.len(),
    ensures
        digits_value(subtracted(a, b), n) == digits_value(a, n) - digits_value(b, n) + (
        if borrows(a, b, n) {
            vstd::arithmetic::power::pow(256, n)
        } else {
            0
        }),
    decreases n,
{
    reveal(vstd::arithmetic::power::pow);
    if n > 0 {
        let m = (n - 1) as nat;
        lemma_subtracted_digits(a, b, m);
        let p = vstd::arithmetic::power::pow(256, m);
        let x = a[n - 1] as int;
        let y = b[n - 1] as int;
        let z = subtracted(a, b)[n - 1] as int;
        let lo: int = if borrows(a, b, m) {
            1
        } else {
            0
        };
        let hi: int = if borrows(a, b, n) {
            1
        } else {
            0
        };
        assert(z == x - y - lo + 256 * hi);
        assert(z * p == x * p - y * p - lo * p + hi * (256 * p)) by (nonlinear_arith)
            requires
                z == x - y - lo + 256 * hi,
        ;
    }
}

/// The subtraction of a round is that of the numbers that the digits write,
/// modulo 256 to the power of their count.
pub proof fn law_subtracted_is_modular(a: Seq<u8>, b: Seq<u8>)
    requires
        a.len() == b.len(),
    ensures
        digits_value(subtracted(a, b), a.len()) == (digits_value(a, a.len()) - digits_value(
            b,
            a.len(),
        )) % vstd::arithmetic::power::pow(256, a.len()),
{
    let n = a.len();
    let m = vstd::arithmetic::power::pow(256, n);
    lemma_subtracted_digits(a, b, n);
    lemma_digits_bound(subtracted(a, b), n);
    lemma_digits_bound(a, n);
    let d = digits_value(a, n) - digits_value(b, n);
    let v = digits_value(subtracted(a, b), n);
    let q: int = if borrows(a, b, n) {
        -1
    } else {
        0
    };
    assert(d == q * m + v) by (nonlinear_arith)
        requires
            q == 0 && v == d || q == -1 && v == d + m,
    ;
    vstd::arithmetic::div_mod::lemma_fundamental_div_mod_converse(d, m, q, v);
}

proof fn lemma_subtracted_determines(a: Seq<u8>, b: Seq<u8>, e: Seq<u8>, n: nat)
    requires
        a.len() == e.len(),
        b.len() == e.len(),
        n <= e.len(),
        subtracted(a, e) == subtracted(b, e),
    ensures
        borrows(a, e, n) == borrows(b, e, n),
        forall|j: int| 0 <= j < n ==> #[trigger] a[j] == b[j],
    decreases n,
{
    if n > 0 {
        let k = n - 1;
        lemma_subtracted_determines(a, b, e, (n - 1) as nat);
        assert(subtracted(a, e)[k] == subtracted(b, e)[k]);
        let less: int = if borrows(a, e, k as nat) {
            e[k] + 1
        } else {
            e[k] as int
        };
        let x = a[k] as int;
        let y = b[k] as int;
        assert(subtracted(a, e)[k] as int == (x - less) % 0x100);
        assert(subtracted(b, e)[k] as int == (y - less) % 0x100);
        assert(x == y);
    }
}

proof fn lemma_chained_determines(a: Seq<u8>, b: Seq<u8>, n: nat)
    requires
        a.len() == b.len(),
        n <= a.len(),
        chained(a) == chained(b),
    ensures
        forall|j: int| 0 <= j < n ==> #[trigger] a[j] == b[j],
    decreases n,
{
    if n > 0 {
        lemma_chained_determines(a, b, (n - 1) as nat);
        assert(chained(a)[n - 1] == chained(b)[n - 1]);
        if n > 1 {
            assert(chained(a)[n - 1] == a[n - 1] ^ a[n - 2]);
            assert(chained(b)[n - 1] == b[n - 1] ^ b[n - 2]);
            let x = a[n - 1];
            let y = b[n - 1];
            let z = a[n - 2];
            assert(z == b[n - 2]);
            assert(x ^ z == y ^ z ==> x == y) by (bit_vector);
        } else {
            assert(chained(a)[0] == a[0] && chained(b)[0] == b[0]);
        }
        assert(a[n - 1] == b[n - 1]);
    }
}

/// The rounds lose nothing: bytes are fixed by what the rounds make of them.
pub proof fn law_rounds_lose_nothing(keys: KeySet, a: Seq<u8>, b: Seq<u8>, n: nat)
    requires
        a.len() == 16,
        b.len() == 16,
        rap_rounds(keys, a, n) == rap_rounds(keys, b, n),
    ensures
        a == b,
    decreases n,
{
    if n > 0 {
        let m = (n - 1) as nat;
        let p = rap_rounds(keys, a, m);
        let q = rap_rounds(keys, b, m);
        lemma_rounds_len(keys, a, m);
        lemma_rounds_len(keys, b, m);
        let mask = visited(keys, keys.rap_e1@);
        let x = util::xor_bytes(p, mask);
        let y = util::xor_bytes(q, mask);
        lemma_subtracted_determines(chained(x), chained(y), visited(keys, keys.rap_e2@), 16);
        assert(chained(x) =~= chained(y));
        lemma_chained_determines(x, y, 16);
        assert forall|j: int| 0 <= j < 16 implies p[j] == q[j] by {
            assert(x[j] == y[j]);
            let u = p[j];
            let v = q[j];
            let w = mask[j];
            assert(u ^ w == v ^ w ==> u == v) by (bit_vector);
        }
        assert(p =~= q);
        law_rounds_lose_nothing(keys, a, b, m);
    }
}

proof fn lemma_rounds_len(keys: KeySet, s: Seq<u8>, n: nat)
    requires
        s.len() == 16,
    ensures
        rap_rounds(keys, s, n).len() == 16,
    decreases n,
{
    if n > 0 {
        lemma_rounds_len(keys, s, (n - 1) as nat);
    }
}

/// The visiting order reaches every byte: sixteen bytes are fixed by what they
/// are in visiting order.
pub proof fn law_visited_determines(keys: KeySet, a: Seq<u8>, b: Seq<u8>)
    requires
        keys.wf(),
        a.len() == 16,
        b.len() == 16,
        visited(keys, a) == visited(keys, b),
    ensures
        a == b,
{
    let order = Seq::new(16, |j: int| keys.rap_pbox[j] as int);
    let all = vstd::set_lib::set_int_range(0, 16);
    order.unique_seq_to_set();
    vstd::set_lib::lemma_int_range(0, 16);
    assert(order.to_set().subset_of(all));
    vstd::set_lib::lemma_subset_equality(order.to_set(), all);
    assert forall|i: int| 0 <= i < 16 implies a[i] == b[i] by {
        assert(order.to_set().contains(i));
        assert(order.contains(i));
        let j = choose|j: int| 0 <= j < 16 && order[j] == i;
        assert(0 <= j < 16 && order[j] == i);
        assert(visited(keys, a)[j] == a[i]);
        assert(visited(keys, b)[j] == b[i]);
    }
    assert(a =~= b);
}

/// Makes one round on bytes in visiting order.
fn rap_round_step(keys: &KeySet, s: &[u8; 16]) -> (out: [u8; 16])
    requires
        keys.wf(),
    ensures
        out@ == rap_round(*keys, s@),
{
    let ghost e1 = visited(*keys, keys.rap_e1@);
    let ghost e2 = visited(*keys, keys.rap_e2@);
    let ghost a = util::xor_bytes(s@, e1);
    let ghost b = chained(a);
    let mut out: [u8; 16] = [0u8; 16];
    let mut before: u8 = 0;
    let mut carry: u8 = 0;
    let mut i: usize = 0;
    while i < 16
        invariant
            i <= 16,
            keys.wf(),
            e1 == visited(*keys, keys.rap_e1@),
            e2 == visited(*keys, keys.rap_e2@),
            a == util::xor_bytes(s@, e1),
            b == chained(a),
            i > 0 ==> before == a[i - 1],
            carry == (if borrows(b, e2, i as nat) {
                1u8
            } else {
                0u8
            }),
            forall|j: int| 0 <= j < i ==> #[trigger] out[j] == subtracted(b, e2)[j],
        decreases 16 - i,
    {
        let p: usize = keys.rap_pbox[i] as usize;
        let masked: u8 = s[i] ^ keys.rap_e1[p];
        assert(masked == a[i as int]);
        let mixed: u8 = if i == 0 {
            masked
        } else {
            masked ^ before
        };
        assert(mixed == b[i as int]);
        let taken: i32 = keys.rap_e2[p] as i32 + carry as i32;
        assert(e2[i as int] == keys.rap_e2[p as int]);
        let ghost due = mixed - e2[i as int] - carry;
        if (mixed as i32) < taken {
            out[i] = (mixed as i32 + 0x100 - taken) as u8;
            carry = 1;
        } else {
            out[i] = (mixed as i32 - taken) as u8;
            carry = 0;
        }
        assert(out[i as int] == due % 0x100);
        before = masked;
        i = i + 1;
    }
    assert(out@ =~= rap_round(*keys, s@));
    out
}

/// Turns the decrypted bytes of a RAP file into the RIF key.
pub fn rif_key_from_decrypted(keys: &KeySet, dec: &[u8; 16]) -> (out: [u8; 16])
    requires
        keys.wf(),
    ensures
        visited(*keys, out@) == rap_rounds(*keys, visited(*keys, dec@), RAP_ROUNDS as nat),
{
    let mut s: [u8; 16] = [0u8; 16];
    let mut i: usize = 0;
    while i < 16
        invariant
            i <= 16,
            keys.wf(),
            forall|j: int| 0 <= j < i ==> #[trigger] s[j] == visited(*keys, dec@)[j],
        decreases 16 - i,
    {
        s[i] = dec[keys.rap_pbox[i] as usize];
        i = i + 1;
    }
    assert(s@ =~= visited(*keys, dec@));
    let mut n: usize = 0;
    while n < RAP_ROUNDS
        invariant
            n <= RAP_ROUNDS,
            keys.wf(),
            s@ == rap_rounds(*keys, visited(*keys, dec@), n as nat),
        decreases RAP_ROUNDS - n,
    {
        s = rap_round_step(keys, &s);
        n = n + 1;
    }
    let mut out: [u8; 16] = [0u8; 16];
    i = 0;
    while i < 16
        invariant
            i <= 16,
            keys.wf(),
            forall|j: int| 0 <= j < i ==> out[keys.rap_pbox[j] as int] == #[trigger] s[j],
        decreases 16 - i,
    {
        let ghost before = out;
        out[keys.rap_pbox[i] as usize] = s[i];
        assert forall|j: int| 0 <= j <= i implies out[keys.rap_pbox[j] as int]
            == #[trigger] s[j] by {
            if j < i {
                assert(keys.rap_pbox[j] != keys.rap_pbox[i as int]);
                assert(before[keys.rap_pbox[j] as int] == s[j]);
            }
        }
        i = i + 1;
    }
    assert(visited(*keys, out@) =~= s@);
    out
}

/// Whether this is the RIF key of a RAP file's sixteen bytes: what the rounds
/// make of them once they are decrypted. Encrypting what was decrypted gives the
/// RAP back.
pub open spec fn is_rif_key(keys: KeySet, rap: Seq<u8>, rif: Seq<u8>) -> bool {
    let dec = crypto::cbc_decrypted(keys.rap_key@, util::zeros(16), rap);
    &&& visited(keys, rif) == rap_rounds(keys, visited(keys, dec), RAP_ROUNDS as nat)
    &&& crypto::cbc_encrypted(keys.rap_key@, util::zeros(16), dec) == rap
}

/// Different RAPs give different RIF keys.
pub proof fn law_rif_keys_differ(
    keys: KeySet,
    a: Seq<u8>,
    b: Seq<u8>,
    rif_a: Seq<u8>,
    rif_b: Seq<u8>,
)
    requires
        keys.wf(),
        a.len() == 16,
        b.len() == 16,
        is_rif_key(keys, a, rif_a),
        is_rif_key(keys, b, rif_b),
        a != b,
    ensures
        rif_a != rif_b,
{
    if rif_a == rif_b {
        let iv = util::zeros(16);
        let p = crypto::cbc_decrypted(keys.rap_key@, iv, a);
        let q = crypto::cbc_decrypted(keys.rap_key@, iv, b);
        crypto::law_cbc_keeps_length(keys.rap_key@, iv, a);
        crypto::law_cbc_keeps_length(keys.rap_key@, iv, b);
        law_rounds_lose_nothing(keys, visited(keys, p), visited(keys, q), RAP_ROUNDS as nat);
        law_visited_determines(keys, p, q);
    }
}

/// Turns the sixteen bytes of a RAP file into the RIF key.
pub fn rap_to_rif_key(keys: &KeySet, rap: &[u8; 16]) -> (r: Result<[u8; 16], Error>)
    requires
        keys.wf(),
    ensures
        r matches Ok(out) && {
            &&& is_rif_key(*keys, rap@, out@)
            &&& forall|other: Seq<u8>|
                other.len() == 16 && #[trigger] is_rif_key(*keys, other, out@) ==> other == rap@
        },
{
    let iv: [u8; 16] = [0u8; 16];
    assert(iv@ =~= util::zeros(16));
    match aes_cbc128_decrypt(&keys.rap_key, &iv, rap) {
        Ok(dec) => {
            assert(dec@.take(16) =~= dec@);
            let out: [u8; 16] = rif_key_from_decrypted(keys, &first16(&dec));
            proof {
                assert forall|other: Seq<u8>|
                    other.len() == 16 && #[trigger] is_rif_key(*keys, other, out@) implies other
                    == rap@ by {
                    if other != rap@ {
                        law_rif_keys_differ(*keys, other, rap@, out@, out@);
                    }
                }
            }
            Ok(out)
        },
        Err(e) => Err(e),
    }
}

/// Whether a file of this name holds a RIF key as it is, and not a RAP.
pub fn is_rif_file_name(name: &str) -> (yes: bool)
    ensures
        yes == (name@ == "rifkey.bin"@),
{
    same_text(name, "rifkey.bin")
}

/// Takes the RIF key from the first sixteen bytes of a key file: as they are,
/// or converted from a RAP.
pub fn rif_key_from_file(keys: &KeySet, is_rif: bool, bytes: &[u8]) -> (r: Result<[u8; 16], Error>)
    requires
        keys.wf(),
    ensures
        match r {
            Ok(key) => bytes@.len() >= 16 && if is_rif {
                key@ == bytes@.take(16)
            } else {
                is_rif_key(*keys, bytes@.take(16), key@)
            },
            Err(e) => bytes@.len() < 16 && e == Error::UnexpectedEof,
        },
{
    if bytes.len() < 16 {
        return Err(Error::UnexpectedEof);
    }
    let first: [u8; 16] = first16(bytes);
    if is_rif {
        Ok(first)
    } else {
        rap_to_rif_key(keys, &first)
    }
}

/// One round, on bytes in visiting order: each byte is mixed with the fixed byte of
/// its place, then with the mixed byte before it, and from the number that they
/// write, lowest byte first, the fixed number is taken away.
pub proof fn law_round(keys: KeySet, s: Seq<u8>)
    requires
        s.len() == 16,
    ensures
        ({
            let e1 = Seq::new(16, |j: int| keys.rap_e1@[keys.rap_pbox@[j] as int]);
            let e2 = Seq::new(16, |j: int| keys.rap_e2@[keys.rap_pbox@[j] as int]);
            let mixed = Seq::new(
                16,
                |j: int|
                    if j == 0 {
                        s[0] ^ e1[0]
                    } else {
                        (s[j] ^ e1[j]) ^ (s[j - 1] ^ e1[j - 1])
                    },
            );
            &&& rap_round(keys, s).len() == 16
            &&& digits_value(rap_round(keys, s), 16) == (digits_value(mixed, 16) - digits_value(
                e2,
                16,
            )) % vstd::arithmetic::power::pow(256, 16)
        }),
{
    let e1 = Seq::new(16, |j: int| keys.rap_e1@[keys.rap_pbox@[j] as int]);
    let e2 = Seq::new(16, |j: int| keys.rap_e2@[keys.rap_pbox@[j] as int]);
    let mixed = Seq::new(
        16,
        |j: int|
            if j == 0 {
                s[0] ^ e1[0]
            } else {
                (s[j] ^ e1[j]) ^ (s[j - 1] ^ e1[j - 1])
            },
    );
    assert(visited(keys, keys.rap_e1@) =~= e1);
    assert(visited(keys, keys.rap_e2@) =~= e2);
    assert(chained(util::xor_bytes(s, e1)) =~= mixed);
    law_subtracted_is_modular(mixed, e2);
}

/// A RIF key comes from its RAP by a decryption and five rounds on the bytes in
/// visiting order.
pub proof fn law_five_rounds(keys: KeySet, rap: Seq<u8>, rif: Seq<u8>)
    requires
        is_rif_key(keys, rap, rif),
    ensures
        ({
            let dec = crypto::cbc_decrypted(keys.rap_key@, Seq::new(16, |k: int| 0u8), rap);
            let start = Seq::new(16, |j: int| dec[keys.rap_pbox@[j] as int]);
            let end = Seq::new(16, |j: int| rif[keys.rap_pbox@[j] as int]);
            end == rap_round(
                keys,
                rap_round(keys, rap_round(keys, rap_round(keys, rap_round(keys, start)))),
            )
        }),
{
    assert(util::zeros(16) =~= Seq::new(16, |k: int| 0u8));
    let dec = crypto::cbc_decrypted(keys.rap_key@, util::zeros(16), rap);
    assert(visited(keys, dec) =~= Seq::new(16, |j: int| dec[keys.rap_pbox@[j] as int]));
    assert(visited(keys, rif) =~= Seq::new(16, |j: int| rif[keys.rap_pbox@[j] as int]));
    reveal_with_fuel(rap_rounds, 6);
}

} // verus!
