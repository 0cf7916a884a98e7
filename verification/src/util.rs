//! Big-endian numbers, hexadecimal text and pseudo-random bytes.

use vstd::prelude::*;

use crate::error::Error;

verus! {

/// `n` zero bytes.
pub open spec fn zeros(n: nat) -> Seq<u8> {
    Seq::new(n, |i: int| 0u8)
}

/// Byte by byte exclusive or, as long as the first sequence.
pub open spec fn xor_bytes(a: Seq<u8>, b: Seq<u8>) -> Seq<u8> {
    Seq::new(a.len(), |i: int| a[i] ^ b[i])
}

/// The number that the first four bytes write in big-endian order.
pub open spec fn be_u32(s: Seq<u8>) -> u32 {
    (s[0] * 0x100_0000 + s[1] * 0x1_0000 + s[2] * 0x100 + s[3]) as u32
}

/// The number that the first eight bytes write in big-endian order.
pub open spec fn be_u64(s: Seq<u8>) -> u64 {
    (be_u32(s) * 0x1_0000_0000 + be_u32(s.skip(4))) as u64
}

/// The four bytes of a number, highest first.
pub open spec fn be_bytes_u32(v: u32) -> Seq<u8> {
    seq![
        (v / 0x100_0000) as u8,
        (v / 0x1_0000 % 0x100) as u8,
        (v / 0x100 % 0x100) as u8,
        (v % 0x100) as u8,
    ]
}

/// The eight bytes of a number, highest first.
pub open spec fn be_bytes_u64(v: u64) -> Seq<u8> {
    be_bytes_u32((v / 0x1_0000_0000) as u32) + be_bytes_u32((v % 0x1_0000_0000) as u32)
}

/// The first sixteen bytes.
pub(crate) fn first16(v: &[u8]) -> (out: [u8; 16])
    requires
        v@.len() >= 16,
    ensures
        out@ == v@.take(16),
{
    let mut out: [u8; 16] = [0u8; 16];
    let mut i: usize = 0;
    while i < 16
        invariant
            i <= 16,
            v@.len() >= 16,
            forall|j: int| 0 <= j < i ==> #[trigger] out[j] == v@[j],
        decreases 16 - i,
    {
        out[i] = v[i];
        i = i + 1;
    }
    assert(out@ =~= v@.take(16));
    out
}

/// Whether two sequences of at least sixteen bytes agree on the first sixteen.
pub fn same16(a: &[u8], b: &[u8]) -> (same: bool)
    requires
        a@.len() >= 16,
        b@.len() >= 16,
    ensures
        same == (a@.take(16) == b@.take(16)),
{
    let mut i: usize = 0;
    while i < 16
        invariant
            i <= 16,
            a@.len() >= 16,
            b@.len() >= 16,
            forall|j: int| 0 <= j < i ==> #[trigger] a@[j] == b@[j],
        decreases 16 - i,
    {
        if a[i] != b[i] {
            assert(a@.take(16)[i as int] != b@.take(16)[i as int]);
            return false;
        }
        i = i + 1;
    }
    assert(a@.take(16) =~= b@.take(16));
    true
}

/// Exclusive or of two 16-byte keys.
pub fn xor16(a: &[u8; 16], b: &[u8; 16]) -> (out: [u8; 16])
    ensures
        out@ == xor_bytes(a@, b@),
{
    let mut out: [u8; 16] = [0u8; 16];
    let mut i: usize = 0;
    while i < 16
        invariant
            i <= 16,
            forall|j: int| 0 <= j < i ==> #[trigger] out[j] == a[j] ^ b[j],
        decreases 16 - i,
    {
        out[i] = a[i] ^ b[i];
        i = i + 1;
    }
    assert(out@ =~= xor_bytes(a@, b@));
    out
}

/// Reads a big-endian number from the first four bytes.
pub fn read_be_u32(buf: &[u8]) -> (v: u32)
    requires
        buf@.len() >= 4,
    ensures
        v == be_u32(buf@),
{
    (buf[0] as u32) * 0x100_0000 + (buf[1] as u32) * 0x1_0000 + (buf[2] as u32) * 0x100
        + buf[3] as u32
}

/// Reads a big-endian number from the first eight bytes.
pub fn read_be_u64(buf: &[u8]) -> (v: u64)
    requires
        buf@.len() >= 8,
    ensures
        v == be_u64(buf@),
{
    let hi: u32 = read_be_u32(buf);
    let lo: u32 = read_be_u32(vstd::slice::slice_subrange(buf, 4, 8));
    assert(buf@.subrange(4, 8)[0] == buf@.skip(4)[0]);
    assert(be_u32(buf@.subrange(4, 8)) == be_u32(buf@.skip(4)));
    (hi as u64) * 0x1_0000_0000 + lo as u64
}

/// Writing a number and reading it back gives the number.
pub proof fn law_be_u32_round_trip(v: u32)
    ensures
        be_bytes_u32(v).len() == 4,
        be_u32(be_bytes_u32(v)) == v,
{
}

/// Reading a number and writing it gives the bytes back.
pub proof fn law_be_u32_read_back(s: Seq<u8>)
    requires
        s.len() >= 4,
    ensures
        be_bytes_u32(be_u32(s)) == s.take(4),
{
    let v = be_u32(s);
    let a = s[0] as int;
    let b = s[1] as int;
    let c = s[2] as int;
    let d = s[3] as int;
    assert(v == a * 0x100_0000 + b * 0x1_0000 + c * 0x100 + d);
    assert(v % 0x100 == d);
    assert(v as int / 0x100 == a * 0x1_0000 + b * 0x100 + c);
    assert(v as int / 0x100 % 0x100 == c);
    assert(v as int / 0x1_0000 == a * 0x100 + b);
    assert(v as int / 0x1_0000 % 0x100 == b);
    assert(v as int / 0x100_0000 == a);
    assert(be_bytes_u32(v) =~= s.take(4));
}

/// Reading a number and writing it gives the bytes back.
pub proof fn law_be_u64_read_back(s: Seq<u8>)
    requires
        s.len() >= 8,
    ensures
        be_bytes_u64(be_u64(s)) == s.take(8),
{
    law_be_u32_read_back(s);
    law_be_u32_read_back(s.skip(4));
    let hi = be_u32(s);
    let lo = be_u32(s.skip(4));
    let v = be_u64(s);
    assert(v == hi * 0x1_0000_0000 + lo);
    assert(v / 0x1_0000_0000 == hi && v % 0x1_0000_0000 == lo);
    assert(be_bytes_u64(v) =~= s.take(8)) by {
        assert(s.take(4) + s.skip(4).take(4) =~= s.take(8));
    }
}

/// Writing a number and reading it back gives the number.
pub proof fn law_be_u64_round_trip(v: u64)
    ensures
        be_bytes_u64(v).len() == 8,
        be_u64(be_bytes_u64(v)) == v,
{
    let hi = (v / 0x1_0000_0000) as u32;
    let lo = (v % 0x1_0000_0000) as u32;
    law_be_u32_round_trip(hi);
    law_be_u32_round_trip(lo);
    assert(be_bytes_u64(v).skip(4) =~= be_bytes_u32(lo));
    assert(be_u32(be_bytes_u64(v)) == be_u32(be_bytes_u32(hi)));
}

/// Whether a character is white space.
pub open spec fn is_white(c: char) -> bool {
    let n = c as u32;
    ||| 9 <= n <= 13
    ||| n == 0x20
    ||| n == 0x85
    ||| n == 0xA0
    ||| n == 0x1680
    ||| 0x2000 <= n <= 0x200A
    ||| n == 0x2028
    ||| n == 0x2029
    ||| n == 0x202F
    ||| n == 0x205F
    ||| n == 0x3000
}

/// Text without the white space at its start and its end.
pub open spec fn trimmed(s: Seq<char>) -> Seq<char>
    decreases s.len(),
{
    if s.len() > 0 && is_white(s[0]) {
        trimmed(s.skip(1))
    } else if s.len() > 0 && is_white(s[s.len() - 1]) {
        trimmed(s.take(s.len() - 1))
    } else {
        s
    }
}

/// The value of a hexadecimal digit.
pub open spec fn hex_value(n: u32) -> Option<u8> {
    if 0x30 <= n <= 0x39 {
        Some((n - 0x30) as u8)
    } else if 0x41 <= n <= 0x46 {
        Some((n - 0x37) as u8)
    } else if 0x61 <= n <= 0x66 {
        Some((n - 0x57) as u8)
    } else {
        None
    }
}

/// The sixteen bytes that 32 hexadecimal digits write. None for anything else.
pub open spec fn hex_key(digits: Seq<u32>) -> Option<Seq<u8>> {
    if digits.len() == 32 && forall|i: int| 0 <= i < 32 ==> hex_value(#[trigger] digits[i]) is Some {
        Some(
            Seq::new(
                16,
                |i: int|
                    (hex_value(digits[2 * i])->Some_0 * 16 + hex_value(
                        digits[2 * i + 1],
                    )->Some_0) as u8,
            ),
        )
    } else {
        None
    }
}

/// The code points of some text.
pub open spec fn code_points(s: Seq<char>) -> Seq<u32> {
    Seq::new(s.len(), |i: int| s[i] as u32)
}

/// The code points of some text.
pub(crate) fn points_of(s: &str) -> (out: Vec<u32>)
    ensures
        out@ == code_points(s@),
{
    let n: usize = s.unicode_len();
    let mut out: Vec<u32> = Vec::new();
    let mut i: usize = 0;
    while i < n
        invariant
            i <= n,
            n == s@.len(),
            out@.len() == i,
            forall|j: int| 0 <= j < i ==> #[trigger] out@[j] == s@[j] as u32,
        decreases n - i,
    {
        out.push(s.get_char(i) as u32);
        i = i + 1;
    }
    assert(out@ =~= code_points(s@));
    out
}

/// The value of a hexadecimal digit.
pub(crate) fn hex_digit(n: u32) -> (v: Option<u8>)
    ensures
        v == hex_value(n),
        v matches Some(d) ==> d < 16,
{
    if 0x30 <= n && n <= 0x39 {
        Some((n - 0x30) as u8)
    } else if 0x41 <= n && n <= 0x46 {
        Some((n - 0x37) as u8)
    } else if 0x61 <= n && n <= 0x66 {
        Some((n - 0x57) as u8)
    } else {
        None
    }
}

/// Reads a key from 32 hexadecimal digits.
pub(crate) fn hex_digits_16(digits: &[u32]) -> (r: Option<[u8; 16]>)
    ensures
        match r {
            Some(key) => hex_key(digits@) == Some(key@),
            None => hex_key(digits@) is None,
        },
{
    if digits.len() != 32 {
        return None;
    }
    let mut out: [u8; 16] = [0u8; 16];
    let mut i: usize = 0;
    while i < 16
        invariant
            i <= 16,
            digits@.len() == 32,
            forall|j: int| 0 <= j < 2 * i ==> hex_value(#[trigger] digits@[j]) is Some,
            forall|j: int|
                0 <= j < i ==> #[trigger] out[j] == (hex_value(digits@[2 * j])->Some_0 * 16
                    + hex_value(digits@[2 * j + 1])->Some_0) as u8,
        decreases 16 - i,
    {
        match (hex_digit(digits[2 * i]), hex_digit(digits[2 * i + 1])) {
            (Some(hi), Some(lo)) => {
                out[i] = hi * 16 + lo;
            },
            _ => {
                return None;
            },
        }
        i = i + 1;
    }
    let ghost key = hex_key(digits@);
    assert(key is Some && out@ =~= key->Some_0);
    Some(out)
}

/// Whether two texts are the same.
pub(crate) fn same_text(a: &str, b: &str) -> (same: bool)
    ensures
        same == (a@ == b@),
{
    let n: usize = a.unicode_len();
    if n != b.unicode_len() {
        return false;
    }
    let mut i: usize = 0;
    while i < n
        invariant
            i <= n,
            n == a@.len(),
            n == b@.len(),
            forall|j: int| 0 <= j < i ==> #[trigger] a@[j] == b@[j],
        decreases n - i,
    {
        if a.get_char(i) != b.get_char(i) {
            assert(a@[i as int] != b@[i as int]);
            return false;
        }
        i = i + 1;
    }
    assert(a@ =~= b@);
    true
}

/// Text without an `0x` at its start.
pub open spec fn unprefixed(s: Seq<char>) -> Seq<char> {
    if s.len() >= 2 && s[0] == '0' && s[1] == 'x' {
        s.skip(2)
    } else {
        s
    }
}

fn is_white_point(n: u32) -> (white: bool)
    ensures
        forall|c: char| c as u32 == n ==> white == #[trigger] is_white(c),
{
    (9 <= n && n <= 13) || n == 0x20 || n == 0x85 || n == 0xA0 || n == 0x1680 || (0x2000 <= n && n
        <= 0x200A) || n == 0x2028 || n == 0x2029 || n == 0x202F || n == 0x205F || n == 0x3000
}

/// Reads a key from 32 hexadecimal digits. White space around them and an `0x`
/// before them are left out.
pub fn parse_hex_16(s: &str) -> (r: Result<[u8; 16], Error>)
    ensures
        match r {
            Ok(key) => hex_key(code_points(unprefixed(trimmed(s@)))) == Some(key@),
            Err(e) => e == Error::BadHexKey && hex_key(
                code_points(unprefixed(trimmed(s@))),
            ) is None,
        },
{
    let points: Vec<u32> = points_of(s);
    let mut from: usize = 0;
    let mut to: usize = points.len();
    assert(s@.subrange(0, to as int) =~= s@);
    while from < to && is_white_point(points[from])
        invariant
            from <= to <= s@.len(),
            points@ == code_points(s@),
            trimmed(s@.subrange(from as int, to as int)) == trimmed(s@),
        decreases to - from,
    {
        let ghost rest = s@.subrange(from as int, to as int);
        assert(is_white(s@[from as int]));
        assert(rest.skip(1) =~= s@.subrange(from + 1, to as int));
        from = from + 1;
    }
    assert(from < to ==> !is_white(s@[from as int]));
    while from < to && is_white_point(points[to - 1])
        invariant
            from <= to <= s@.len(),
            points@ == code_points(s@),
            from < to ==> !is_white(s@[from as int]),
            trimmed(s@.subrange(from as int, to as int)) == trimmed(s@),
        decreases to - from,
    {
        let ghost rest = s@.subrange(from as int, to as int);
        assert(is_white(s@[to - 1]));
        assert(rest.take(rest.len() - 1) =~= s@.subrange(from as int, to - 1));
        to = to - 1;
    }
    let ghost core = s@.subrange(from as int, to as int);
    assert(from < to ==> !is_white(s@[to - 1]));
    assert(trimmed(s@) == core);
    if to - from >= 2 && s.get_char(from) == '0' && s.get_char(from + 1) == 'x' {
        assert(core.skip(2) =~= s@.subrange(from + 2, to as int));
        from = from + 2;
    }
    assert(unprefixed(core) =~= s@.subrange(from as int, to as int));
    let digits = vstd::slice::slice_subrange(&points, from, to);
    assert(digits@ =~= code_points(unprefixed(core)));
    match hex_digits_16(digits) {
        Some(key) => Ok(key),
        None => Err(Error::BadHexKey),
    }
}

/// The upper-case hexadecimal digit of a value below sixteen.
pub open spec fn hex_char(v: nat) -> char {
    if v < 10 {
        (0x30 + v) as char
    } else {
        (0x37 + v) as char
    }
}

/// Bytes in upper-case hexadecimal, two digits each.
pub open spec fn hex_text(bytes: Seq<u8>) -> Seq<char> {
    Seq::new(
        2 * bytes.len(),
        |i: int|
            hex_char(
                if i % 2 == 0 {
                    bytes[i / 2] as nat / 16
                } else {
                    bytes[i / 2] as nat % 16
                },
            ),
    )
}

/// Adds one upper-case hexadecimal digit to some text.
fn push_hex_digit(text: &mut String, v: u8)
    requires
        v < 16,
    ensures
        final(text)@ == old(text)@.push(hex_char(v as nat)),
{
    proof {
        reveal_strlit("0");
        reveal_strlit("1");
        reveal_strlit("2");
        reveal_strlit("3");
        reveal_strlit("4");
        reveal_strlit("5");
        reveal_strlit("6");
        reveal_strlit("7");
        reveal_strlit("8");
        reveal_strlit("9");
        reveal_strlit("A");
        reveal_strlit("B");
        reveal_strlit("C");
        reveal_strlit("D");
        reveal_strlit("E");
        reveal_strlit("F");
    }
    let digit = match v {
        0 => "0",
        1 => "1",
        2 => "2",
        3 => "3",
        4 => "4",
        5 => "5",
        6 => "6",
        7 => "7",
        8 => "8",
        9 => "9",
        10 => "A",
        11 => "B",
        12 => "C",
        13 => "D",
        14 => "E",
        _ => "F",
    };
    assert(digit@ =~= seq![hex_char(v as nat)]);
    text.append(digit);
    assert(text@ =~= old(text)@.push(hex_char(v as nat)));
}

/// Writes bytes in upper-case hexadecimal.
pub fn bytes_to_hex(bytes: &[u8]) -> (s: String)
    ensures
        s@ == hex_text(bytes@),
{
    let mut s: String = String::new();
    let mut i: usize = 0;
    while i < bytes.len()
        invariant
            i <= bytes@.len(),
            s@ =~= hex_text(bytes@.take(i as int)),
        decreases bytes@.len() - i,
    {
        let ghost before = s@;
        push_hex_digit(&mut s, bytes[i] / 16);
        push_hex_digit(&mut s, bytes[i] % 16);
        proof {
            let longer = bytes@.take(i + 1);
            assert forall|j: int| 0 <= j < 2 * i implies hex_text(longer)[j] == before[j] by {
                assert(longer[j / 2] == bytes@.take(i as int)[j / 2]);
            }
            assert(hex_text(longer)[2 * i] == hex_char(bytes@[i as int] as nat / 16));
            assert(hex_text(longer)[2 * i + 1] == hex_char(bytes@[i as int] as nat % 16));
        }
        i = i + 1;
    }
    assert(bytes@.take(bytes@.len() as int) =~= bytes@);
    s
}

/// Reading back the hexadecimal text of a key gives the key.
pub proof fn law_hex_round_trip(key: Seq<u8>)
    requires
        key.len() == 16,
    ensures
        hex_key(code_points(unprefixed(trimmed(hex_text(key))))) == Some(key),
{
    let text = hex_text(key);
    assert forall|i: int| 0 <= i < 32 implies {
        let d = if i % 2 == 0 {
            key[i / 2] as nat / 16
        } else {
            key[i / 2] as nat % 16
        };
        hex_value(#[trigger] code_points(text)[i]) == Some(d as u8) && !is_white(text[i])
            && text[i] as u32 != 0x78
    } by {}
    assert(trimmed(text) == text);
    assert(text[1] != 'x');
    assert(unprefixed(text) == text);
    let read = hex_key(code_points(text))->Some_0;
    assert forall|i: int| 0 <= i < 16 implies read[i] == key[i] by {
        assert(hex_value(code_points(text)[2 * i]) == Some((key[i] as nat / 16) as u8));
        assert(hex_value(code_points(text)[2 * i + 1]) == Some((key[i] as nat % 16) as u8));
    }
    assert(read =~= key);
}

/// Whether a code point is a hexadecimal digit of some value, in either case.
pub open spec fn writes_digit(n: u32, v: int) -> bool {
    ||| 0 <= v < 10 && n == '0' as u32 + v
    ||| 10 <= v < 16 && (n == 'A' as u32 + (v - 10) || n == 'a' as u32 + (v - 10))
}

/// Whether code points are the 32 hexadecimal digits of a key, each in either
/// case.
pub open spec fn writes_key(digits: Seq<u32>, key: Seq<u8>) -> bool {
    &&& digits.len() == 32
    &&& key.len() == 16
    &&& forall|i: int|
        0 <= i < 16 ==> writes_digit(digits[2 * i], #[trigger] key[i] as int / 16) && writes_digit(
            digits[2 * i + 1],
            key[i] as int % 16,
        )
}

/// Hexadecimal digits are read as the key that they write, in upper case, lower
/// case or a mixture, and nothing else is read as a key.
pub proof fn law_hex_key(digits: Seq<u32>, key: Seq<u8>)
    ensures
        hex_key(digits) == Some(key) <==> writes_key(digits, key),
{
    if writes_key(digits, key) {
        assert forall|i: int| 0 <= i < 32 implies hex_value(#[trigger] digits[i]) == Some(
            (if i % 2 == 0 {
                key[i / 2] as int / 16
            } else {
                key[i / 2] as int % 16
            }) as u8,
        ) by {
            let j = i / 2;
            assert(writes_digit(digits[2 * j], key[j] as int / 16) && writes_digit(
                digits[2 * j + 1],
                key[j] as int % 16,
            ));
            assert(i == 2 * j || i == 2 * j + 1);
        }
        let read = hex_key(digits)->Some_0;
        assert forall|i: int| 0 <= i < 16 implies read[i] == key[i] by {
            assert(hex_value(digits[2 * i]) == Some((key[i] as int / 16) as u8));
            assert(hex_value(digits[2 * i + 1]) == Some((key[i] as int % 16) as u8));
        }
        assert(read =~= key);
    }
    if hex_key(digits) == Some(key) {
        assert forall|i: int| 0 <= i < 16 implies writes_digit(
            digits[2 * i],
            #[trigger] key[i] as int / 16,
        ) && writes_digit(digits[2 * i + 1], key[i] as int % 16) by {
            assert(hex_value(digits[2 * i]) is Some);
            assert(hex_value(digits[2 * i + 1]) is Some);
            let a = hex_value(digits[2 * i])->Some_0;
            let b = hex_value(digits[2 * i + 1])->Some_0;
            assert(a < 16 && b < 16);
            assert(key[i] == a * 16 + b);
        }
    }
}

/// What counts as white space: the code points that Unicode gives that property.
pub proof fn law_white_space(c: char)
    ensures
        is_white(c) <==> seq![
            0x09u32, 0x0A, 0x0B, 0x0C, 0x0D, 0x20, 0x85, 0xA0, 0x1680, 0x2000, 0x2001, 0x2002,
            0x2003, 0x2004, 0x2005, 0x2006, 0x2007, 0x2008, 0x2009, 0x200A, 0x2028, 0x2029, 0x202F,
            0x205F, 0x3000,
        ].contains(c as u32),
{
    let all = seq![
        0x09u32, 0x0A, 0x0B, 0x0C, 0x0D, 0x20, 0x85, 0xA0, 0x1680, 0x2000, 0x2001, 0x2002,
        0x2003, 0x2004, 0x2005, 0x2006, 0x2007, 0x2008, 0x2009, 0x200A, 0x2028, 0x2029, 0x202F,
        0x205F, 0x3000,
    ];
    let n = c as u32;
    if is_white(c) {
        let i: int = if n <= 13 {
            n - 9
        } else if n == 0x20 {
            5
        } else if n == 0x85 {
            6
        } else if n == 0xA0 {
            7
        } else if n == 0x1680 {
            8
        } else if n <= 0x200A {
            9 + (n - 0x2000)
        } else if n == 0x2028 {
            20
        } else if n == 0x2029 {
            21
        } else if n == 0x202F {
            22
        } else if n == 0x205F {
            23
        } else {
            24
        };
        assert(all[i] == n);
    }
}

/// Whether some text is white space alone.
pub open spec fn all_white(s: Seq<char>) -> bool {
    forall|i: int| 0 <= i < s.len() ==> is_white(#[trigger] s[i])
}

/// Trimming takes away white space around a text, and nothing of the text.
pub proof fn law_trimmed(before: Seq<char>, text: Seq<char>, after: Seq<char>)
    requires
        all_white(before),
        all_white(after),
        text.len() > 0 ==> !is_white(text[0]) && !is_white(text.last()),
    ensures
        trimmed(before + text + after) == text,
    decreases before.len() + after.len(),
{
    let whole = before + text + after;
    if before.len() > 0 {
        assert(is_white(before[0]));
        assert(whole[0] == before[0]);
        assert(whole.skip(1) =~= before.skip(1) + text + after);
        assert(all_white(before.skip(1))) by {
            assert forall|i: int| 0 <= i < before.skip(1).len() implies is_white(
                #[trigger] before.skip(1)[i],
            ) by {
                assert(is_white(before[i + 1]));
            }
        }
        law_trimmed(before.skip(1), text, after);
    } else if after.len() > 0 {
        let rest = after.take(after.len() - 1);
        assert(is_white(after[after.len() - 1]));
        assert(whole[whole.len() - 1] == after[after.len() - 1]);
        if text.len() > 0 {
            assert(whole[0] == text[0]);
            assert(whole.take(whole.len() - 1) =~= before + text + rest);
            assert(all_white(rest)) by {
                assert forall|i: int| 0 <= i < rest.len() implies is_white(#[trigger] rest[i]) by {
                    assert(is_white(after[i]));
                }
            }
            law_trimmed(before, text, rest);
        } else {
            assert(whole =~= after);
            assert(is_white(after[0]));
            assert(after.skip(1) =~= Seq::<char>::empty() + text + after.skip(1));
            assert(all_white(after.skip(1))) by {
                assert forall|i: int| 0 <= i < after.skip(1).len() implies is_white(
                    #[trigger] after.skip(1)[i],
                ) by {
                    assert(is_white(after[i + 1]));
                }
            }
            law_trimmed(Seq::empty(), text, after.skip(1));
        }
    } else {
        assert(whole =~= text);
    }
}

/// A key in hexadecimal is read from a text that holds its digits, in either case,
/// after an optional `0x` and between white space.
pub proof fn law_key_text_read(
    before: Seq<char>,
    prefixed: bool,
    digits: Seq<char>,
    after: Seq<char>,
    key: Seq<u8>,
)
    requires
        all_white(before),
        all_white(after),
        writes_key(code_points(digits), key),
    ensures
        hex_key(
            code_points(
                unprefixed(
                    trimmed(
                        before + (if prefixed {
                            seq!['0', 'x'] + digits
                        } else {
                            digits
                        }) + after,
                    ),
                ),
            ),
        ) == Some(key),
{
    let text = if prefixed {
        seq!['0', 'x'] + digits
    } else {
        digits
    };
    let points = code_points(digits);
    let first: int = 0;
    let last: int = 15;
    assert(writes_digit(points[2 * first], key[first] as int / 16) && writes_digit(
        points[2 * last + 1],
        key[last] as int % 16,
    ));
    assert(writes_digit(points[0], key[0] as int / 16) && writes_digit(
        points[1],
        key[0] as int % 16,
    ));
    assert(writes_digit(points[30], key[15] as int / 16) && writes_digit(
        points[31],
        key[15] as int % 16,
    ));
    assert(points[0] == digits[0] as u32);
    assert(points[1] == digits[1] as u32);
    assert(points[31] == digits[31] as u32);
    assert(!is_white(digits[0]) && !is_white(digits[31]) && !is_white('0'));
    assert(digits[1] != 'x');
    law_trimmed(before, text, after);
    if prefixed {
        assert(text.skip(2) =~= digits);
    }
    law_hex_key(points, key);
}

/// Bytes are written in hexadecimal with two digits each, in upper case.
pub proof fn law_hex_text(bytes: Seq<u8>, i: int)
    requires
        0 <= i < bytes.len(),
    ensures
        hex_text(bytes).len() == 2 * bytes.len(),
        writes_digit(hex_text(bytes)[2 * i] as u32, bytes[i] as int / 16),
        writes_digit(hex_text(bytes)[2 * i + 1] as u32, bytes[i] as int % 16),
        hex_text(bytes)[2 * i] as u32 <= 'F' as u32,
        hex_text(bytes)[2 * i + 1] as u32 <= 'F' as u32,
{
}

/// A 64-bit word turned left.
pub open spec fn turned(x: u64, n: u64) -> u64 {
    (x << n) | (x >> ((64 - n) as u64))
}

/// Where the pseudo-random bytes start: from a clock, where there is one, and
/// an address.
pub open spec fn prng_seed(clock: Option<u64>, address: u64) -> u64 {
    (match clock {
        Some(nanos) => nanos,
        None => 0xA5A5_5A5A_D3C3_B4B4u64,
    }) ^ turned(address, 17) ^ 0x9E37_79B9_7F4A_7C15u64
}

/// One round of shifts.
pub open spec fn prng_stirred(x: u64) -> u64 {
    let a = x ^ (x << 7u64);
    let b = a ^ (a >> 9u64);
    b ^ (b << 8u64)
}

/// The state before byte `i`.
pub open spec fn prng_state(seed: u64, i: nat) -> u64
    decreases i,
{
    if i == 0 {
        seed
    } else {
        ((turned(prng_stirred(prng_state(seed, (i - 1) as nat)), 13) + 0xA076_1D64_78BD_642Fu64)
            % 0x1_0000_0000_0000_0000) as u64
    }
}

/// Byte `i`.
pub open spec fn prng_byte(seed: u64, i: nat) -> u8 {
    (prng_stirred(prng_state(seed, i)) % 0x100) as u8
}

fn turn_left(x: u64, n: u64) -> (y: u64)
    requires
        0 < n < 64,
    ensures
        y == turned(x, n),
{
    (x << n) | (x >> (64 - n))
}

/// Overwrites bytes with pseudo-random ones, which follow from a clock and an
/// address.
pub fn prng_fill(out: &mut [u8], clock: Option<u64>, address: u64)
    ensures
        final(out)@ == Seq::new(
            old(out)@.len(),
            |i: int| prng_byte(prng_seed(clock, address), i as nat),
        ),
{
    let nanos: u64 = match clock {
        Some(nanos) => nanos,
        None => 0xA5A5_5A5A_D3C3_B4B4,
    };
    let ghost seed = prng_seed(clock, address);
    let mut x: u64 = nanos ^ turn_left(address, 17) ^ 0x9E37_79B9_7F4A_7C15;
    let n: usize = out.len();
    let mut i: usize = 0;
    while i < n
        invariant
            i <= n,
            n == out@.len(),
            n == old(out)@.len(),
            x == prng_state(seed, i as nat),
            forall|j: int| 0 <= j < i ==> #[trigger] out@[j] == prng_byte(seed, j as nat),
        decreases n - i,
    {
        x = x ^ (x << 7u64);
        x = x ^ (x >> 9u64);
        x = x ^ (x << 8u64);
        out[i] = (x % 0x100) as u8;
        x = turn_left(x, 13).wrapping_add(0xA076_1D64_78BD_642F);
        i = i + 1;
    }
    assert(out@ =~= Seq::new(n as nat, |i: int| prng_byte(seed, i as nat)));
}

/// The first byte of a number counts most: each further byte multiplies what
/// came before by 256.
pub proof fn law_big_endian(s: Seq<u8>)
    requires
        s.len() >= 8,
    ensures
        be_u32(s) == ((s[0] * 256 + s[1]) * 256 + s[2]) * 256 + s[3],
        be_u64(s) == ((((((s[0] * 256 + s[1]) * 256 + s[2]) * 256 + s[3]) * 256 + s[4]) * 256 + s[5])
            * 256 + s[6]) * 256 + s[7],
{
    let rest = s.skip(4);
    assert(rest[0] == s[4] && rest[1] == s[5] && rest[2] == s[6] && rest[3] == s[7]);
}

/// The pseudo-random bytes are one stream: the bytes after the first are those
/// that the next state starts. Without a clock they are those of a fixed one, and
/// two clocks make states that differ as the clocks do.
pub proof fn law_random_stream(seed: u64, i: nat, a: u64, b: u64, address: u64)
    ensures
        prng_byte(seed, i + 1) == prng_byte(prng_state(seed, 1), i),
        prng_state(seed, i + 1) == prng_state(prng_state(seed, 1), i),
        prng_seed(None, address) == prng_seed(Some(0xA5A5_5A5A_D3C3_B4B4), address),
        prng_seed(Some(a), address) ^ prng_seed(Some(b), address) == a ^ b,
        prng_stirred(a) ^ prng_stirred(b) == prng_stirred(a ^ b),
    decreases i,
{
    let t = turned(address, 17);
    let k = 0x9E37_79B9_7F4A_7C15u64;
    assert((a ^ t ^ k) ^ (b ^ t ^ k) == a ^ b) by (bit_vector);
    assert(({
        let x = a ^ (a << 7u64);
        let y = x ^ (x >> 9u64);
        y ^ (y << 8u64)
    }) ^ ({
        let x = b ^ (b << 7u64);
        let y = x ^ (x >> 9u64);
        y ^ (y << 8u64)
    }) == ({
        let x = (a ^ b) ^ ((a ^ b) << 7u64);
        let y = x ^ (x >> 9u64);
        y ^ (y << 8u64)
    })) by (bit_vector);
    if i > 0 {
        law_random_stream(seed, (i - 1) as nat, a, b, address);
        assert(prng_state(prng_state(seed, 1), i) == ((turned(
            prng_stirred(prng_state(prng_state(seed, 1), (i - 1) as nat)),
            13,
        ) + 0xA076_1D64_78BD_642Fu64) % 0x1_0000_0000_0000_0000) as u64);
    } else {
        assert(prng_state(prng_state(seed, 1), 0) == prng_state(seed, 1));
    }
}

} // verus!
