//! An encoder for the compressed format.
//!
//! A stream is a list of literals and matches. Each is written as decisions,
//! bits in contexts and equally likely bits, and the decisions are written as
//! one number, cut into bytes. Nothing here is executed: the laws say that the
//! decompressor reads back whatever is encoded this way.

use vstd::prelude::*;

use crate::error::Error;
use crate::lz;
use crate::lz::Coder;
use crate::util;

verus! {

/// Two to the power of `n`.
pub open spec fn two_to(n: nat) -> nat
    decreases n,
{
    if n == 0 {
        1
    } else {
        2 * two_to((n - 1) as nat)
    }
}

/// The place of the highest bit of a number.
pub open spec fn top_bit(n: nat) -> nat
    decreases n,
{
    if n <= 1 {
        0
    } else {
        1 + top_bit(n / 2)
    }
}

/// Bit `j` of a number.
pub open spec fn bit_of(n: nat, j: nat) -> nat {
    n / two_to(j) % 2
}

/// One decision of the encoder.
pub enum Event {
    /// A bit in a context.
    Bit {
        /// The context.
        at: int,
        /// The bit.
        bit: nat,
    },
    /// Some equally likely bits, as a number.
    Even {
        /// How many.
        count: nat,
        /// The number.
        value: nat,
    },
}

/// An interval after it was halved `count` times.
pub open spec fn halved(range: nat, count: nat) -> nat
    decreases count,
{
    if count == 0 {
        range
    } else {
        halved(range / 2, (count - 1) as nat)
    }
}

/// Where in an interval a run of equally likely bits starts. A one takes the
/// lower half, a zero the upper.
pub open spec fn even_start(range: nat, count: nat, value: nat) -> nat
    decreases count,
{
    if count == 0 {
        0
    } else {
        let half = range / 2;
        let low = two_to((count - 1) as nat);
        (if value / low == 1 {
            0
        } else {
            half
        }) + even_start(half, (count - 1) as nat, value % low)
    }
}

/// The number, below `range`, and the bytes behind it that write some
/// decisions; `spare` is the number that remains after the last of them. A
/// narrow interval is first widened by one byte. A one takes the
/// part of the interval that its context's probability gives it, at the lower
/// end; the probability then moves towards the bit.
pub open spec fn encoded(range: nat, model: Seq<u8>, events: Seq<Event>, spare: nat) -> (
    nat,
    Seq<u8>,
)
    decreases events.len(),
{
    if events.len() == 0 {
        (spare, Seq::empty())
    } else {
        let narrow = range < 0x100_0000;
        let r = if narrow {
            range * 256
        } else {
            range
        };
        let (code, tail) = match events[0] {
            Event::Bit { at, bit } => {
                let p = model[at] as nat;
                let ones = r / 256 * p;
                let moved = model.update(at, (p - p / 8 + 31 * bit) as u8);
                if bit == 1 {
                    encoded(ones, moved, events.skip(1), spare)
                } else {
                    let (c, t) = encoded((r - ones) as nat, moved, events.skip(1), spare);
                    (c + ones, t)
                }
            },
            Event::Even { count, value } => {
                let (c, t) = encoded(halved(r, count), model, events.skip(1), spare);
                (c + even_start(r, count, value), t)
            },
        };
        if narrow {
            (code / 256, seq![(code % 256) as u8] + tail)
        } else {
            (code, tail)
        }
    }
}

/// Whether decisions can be written from an interval on: their contexts exist
/// and leave room for both bits, no run of equally likely bits is longer than the
/// interval is wide, and the number that remains lies in the last interval.
pub open spec fn codable(range: nat, model: Seq<u8>, events: Seq<Event>, spare: nat) -> bool
    decreases events.len(),
{
    if events.len() == 0 {
        spare < range
    } else {
        let r = if range < 0x100_0000 {
            range * 256
        } else {
            range
        };
        match events[0] {
            Event::Bit { at, bit } => {
                let p = model[at] as nat;
                let ones = r / 256 * p;
                &&& 0 <= at < model.len()
                &&& bit <= 1
                &&& p > 0
                &&& codable(
                    if bit == 1 {
                        ones
                    } else {
                        (r - ones) as nat
                    },
                    model.update(at, (p - p / 8 + 31 * bit) as u8),
                    events.skip(1),
                    spare,
                )
            },
            Event::Even { count, value } => {
                &&& value < two_to(count)
                &&& two_to(count) <= r
                &&& codable(halved(r, count), model, events.skip(1), spare)
            },
        }
    }
}

/// The decisions that select a number in a tree of contexts, one for each
/// prefix of its binary digits.
pub open spec fn tree(base: int, stride: int, target: nat) -> Seq<Event>
    decreases target,
{
    if target <= 1 {
        Seq::empty()
    } else {
        tree(base, stride, target / 2).push(
            Event::Bit { at: base + stride * (target / 2), bit: target % 2 },
        )
    }
}

/// The decisions that write the bits of a number below its highest: `width`
/// is one less than how many. The highest two share a context, the lowest three
/// have one each, and those between are equally likely.
pub open spec fn number_events(ptr: int, high: int, step: int, width: nat, value: nat) -> Seq<Event> {
    let top = if width >= 4 {
        seq![
            Event::Bit { at: ptr + high, bit: bit_of(value, width) },
            Event::Bit { at: ptr + high, bit: bit_of(value, (width - 1) as nat) },
        ]
    } else if width == 3 {
        seq![Event::Bit { at: ptr + high, bit: bit_of(value, 3) }]
    } else {
        Seq::empty()
    };
    let middle = if width >= 5 {
        let count = (width - 4) as nat;
        seq![Event::Even { count, value: value / 8 % two_to(count) }]
    } else {
        Seq::empty()
    };
    let low = if width >= 2 {
        seq![
            Event::Bit { at: ptr, bit: bit_of(value, 2) },
            Event::Bit { at: ptr + step, bit: bit_of(value, 1) },
            Event::Bit { at: ptr + 2 * step, bit: bit_of(value, 0) },
        ]
    } else if width == 1 {
        seq![
            Event::Bit { at: ptr, bit: bit_of(value, 1) },
            Event::Bit { at: ptr + step, bit: bit_of(value, 0) },
        ]
    } else {
        seq![Event::Bit { at: ptr, bit: bit_of(value, 0) }]
    };
    top + middle + low
}

/// One piece of a stream.
pub enum Token {
    /// A byte.
    Literal {
        /// The byte.
        byte: u8,
    },
    /// Bytes that repeat earlier ones.
    Match {
        /// How far back they start.
        distance: nat,
        /// How many they are.
        length: nat,
    },
}

/// The output after a piece. A match may reach into its own bytes: it repeats
/// the last `distance` bytes over and over.
pub open spec fn written(out: Seq<u8>, token: Token) -> Seq<u8> {
    match token {
        Token::Literal { byte } => out.push(byte),
        Token::Match { distance, length } => Seq::new(
            out.len() + length,
            |k: int|
                if k < out.len() {
                    out[k]
                } else {
                    out[out.len() - distance + (k - out.len()) % (distance as int)]
                },
        ),
    }
}

/// The output after some pieces.
pub open spec fn all_written(out: Seq<u8>, tokens: Seq<Token>) -> Seq<u8>
    decreases tokens.len(),
{
    if tokens.len() == 0 {
        out
    } else {
        all_written(written(out, tokens[0]), tokens.skip(1))
    }
}

/// Whether a piece can be written: a match copies 2 to 255 bytes from inside the
/// output, and one of 2 or 3 bytes from the last 255.
pub open spec fn valid(out: Seq<u8>, token: Token) -> bool {
    token matches Token::Match { distance, length } ==> {
        &&& 1 <= distance <= out.len()
        &&& distance < 0x8000_0000
        &&& 2 <= length <= 255
        &&& length <= 3 ==> distance <= 255
    }
}

/// Whether all pieces can be written.
pub open spec fn all_valid(out: Seq<u8>, tokens: Seq<Token>) -> bool
    decreases tokens.len(),
{
    tokens.len() > 0 ==> valid(out, tokens[0]) && all_valid(
        written(out, tokens[0]),
        tokens.skip(1),
    )
}

/// The class of a match's length: one less than the place of the highest bit of
/// `length - 1`.
pub open spec fn length_class(length: nat) -> int {
    top_bit((length - 1) as nat) - 1
}

/// The decisions that write a length, of up to 256, after a match was announced:
/// its class in unary, and its bits.
pub open spec fn length_events(out: Seq<u8>, offset: nat, length: nat) -> Seq<Event> {
    let class = length_class(length);
    let unary = Seq::new(
        (if class < 6 {
            class + 2
        } else {
            7
        }) as nat,
        |j: int|
            Event::Bit {
                at: 0xB68 + offset + 8 * (j + 1),
                bit: if j <= class {
                    1
                } else {
                    0
                },
            },
    );
    if class < 0 {
        unary
    } else {
        unary + number_events(
            0xBA8 + 32 * class + 8 * ((out.len() * two_to(class as nat)) % 4) as int + offset,
            0x18,
            8,
            class as nat,
            (length - 1) as nat,
        )
    }
}

/// The decisions that write a distance: its class in a tree, and its bits.
pub open spec fn distance_events(distance: nat, length: nat) -> Seq<Event> {
    let class = top_bit(distance);
    let (base, first) = if length <= 3 {
        (0x7F1 + 0xF8 + length_class(length), 4nat)
    } else {
        (0x7F1 + length_class(length), 22nat)
    };
    let leaf = first + class / 2;
    let chosen = tree(base, 8, leaf).push(Event::Bit { at: base + 8 * leaf, bit: class % 2 });
    if class == 0 {
        chosen
    } else {
        chosen + number_events(0x928 + 8 * (class - 1), 4, 1, (class - 1) as nat, distance)
    }
}

/// The decisions that write a piece.
pub open spec fn token_events(head: u8, out: Seq<u8>, offset: nat, token: Token) -> Seq<Event> {
    match token {
        Token::Literal { byte } => {
            let last: nat = if out.len() == 0 {
                0
            } else {
                out.last() as nat
            };
            let group = (out.len() % 8 * 256 + last) / two_to((head % 32) as nat) % 8;
            seq![Event::Bit { at: (0xB68 + offset) as int, bit: 0 }] + tree(
                group * 255 - 1,
                1,
                256 + byte as nat,
            )
        },
        Token::Match { distance, length } => seq![
            Event::Bit { at: (0xB68 + offset) as int, bit: 1 },
        ] + length_events(out, offset, length) + distance_events(distance, length),
    }
}

/// How recent the last match was, after a piece.
pub open spec fn next_offset(out: Seq<u8>, offset: nat, token: Token) -> nat {
    match token {
        Token::Literal { .. } => if offset > 0 {
            (offset - 1) as nat
        } else {
            0
        },
        Token::Match { length, .. } => if (out.len() + length) % 2 == 0 {
            7
        } else {
            6
        },
    }
}

/// How a stream ends.
pub enum Ending {
    /// With a mark: a length of 256.
    Mark,
    /// With the start of one more literal, where the output is full.
    Full,
    /// With a match that starts before the output, ends behind its size, or lies
    /// too far back for 31 bits.
    Stray {
        /// How far back it starts.
        distance: nat,
        /// How many bytes it would write.
        length: nat,
    },
}

/// What comes of a stream that wrote `out` and then ended, where `size` bytes
/// were asked for.
pub open spec fn outcome(out: Seq<u8>, ending: Ending, size: nat) -> Result<Seq<u8>, Error> {
    match ending {
        Ending::Stray { distance, .. } => if distance >= 0x8000_0000 {
            Err(Error::InvalidBackReference)
        } else if distance > out.len() {
            Err(Error::LzUnderflow)
        } else {
            Err(Error::LzOverflow)
        },
        _ => Ok(out),
    }
}

/// Whether a stream can end so after it wrote `out`.
pub open spec fn can_end(out: Seq<u8>, ending: Ending, size: nat) -> bool {
    match ending {
        Ending::Mark => true,
        Ending::Full => out.len() == size,
        Ending::Stray { distance, length } => {
            &&& 1 <= distance < 0x1_0000_0000
            &&& 2 <= length <= 255
            &&& length <= 3 ==> distance <= 255
            &&& distance >= 0x8000_0000 || distance > out.len() || out.len() + length > size
        },
    }
}

/// The decisions that write a stream from some output on.
pub open spec fn stream_events(
    head: u8,
    out: Seq<u8>,
    offset: nat,
    tokens: Seq<Token>,
    ending: Ending,
) -> Seq<Event>
    decreases tokens.len(),
{
    if tokens.len() > 0 {
        token_events(head, out, offset, tokens[0]) + stream_events(
            head,
            written(out, tokens[0]),
            next_offset(out, offset, tokens[0]),
            tokens.skip(1),
            ending,
        )
    } else {
        match ending {
            Ending::Mark => seq![Event::Bit { at: (0xB68 + offset) as int, bit: 1 }]
                + length_events(out, offset, 256),
            Ending::Full => seq![Event::Bit { at: (0xB68 + offset) as int, bit: 0 }],
            Ending::Stray { distance, length } => token_events(
                head,
                out,
                offset,
                Token::Match { distance, length },
            ),
        }
    }
}

/// The probabilities at the start of a stream.
pub open spec fn first_model() -> Seq<u8> {
    Seq::new(
        0xCC8,
        |k: int|
            if k < 0xCA8 {
                0x80u8
            } else {
                0u8
            },
    )
}

/// Whether a stream can be encoded so that `spare` remains.
pub open spec fn stream_codable(head: u8, tokens: Seq<Token>, ending: Ending, spare: nat) -> bool {
    codable(
        0xFFFF_FFFF,
        first_model(),
        stream_events(head, Seq::empty(), 0, tokens, ending),
        spare,
    )
}

/// The bytes of a stream: the head, the number's first four bytes, and the rest.
pub open spec fn stream(head: u8, tokens: Seq<Token>, ending: Ending, spare: nat) -> Seq<u8> {
    let (code, tail) = encoded(
        0xFFFF_FFFF,
        first_model(),
        stream_events(head, Seq::empty(), 0, tokens, ending),
        spare,
    );
    seq![head] + util::be_bytes_u32(code as u32) + tail
}

/// The decoder after it has read some decisions. None where it reads others.
spec fn follows(src: Seq<u8>, c: Coder, events: Seq<Event>) -> Option<Coder>
    decreases events.len(),
{
    if events.len() == 0 {
        Some(c)
    } else {
        match events[0] {
            Event::Bit { at, bit } => match lz::bit_decoded(src, c, at) {
                None => None,
                Some((d, b)) => if b == bit {
                    follows(src, d, events.skip(1))
                } else {
                    None
                },
            },
            Event::Even { count, value } => match lz::widened(src, c) {
                None => None,
                Some(w) => {
                    let (d, v) = lz::even_bits_decoded(w, 0, count);
                    if v == value {
                        follows(src, d, events.skip(1))
                    } else {
                        None
                    }
                },
            },
        }
    }
}

proof fn lemma_follows_append(src: Seq<u8>, c: Coder, a: Seq<Event>, b: Seq<Event>)
    ensures
        follows(src, c, a + b) == (match follows(src, c, a) {
            None => None::<Coder>,
            Some(d) => follows(src, d, b),
        }),
    decreases a.len(),
{
    if a.len() == 0 {
        assert(a + b =~= b);
    } else {
        assert((a + b).skip(1) =~= a.skip(1) + b);
        assert((a + b)[0] == a[0]);
        match a[0] {
            Event::Bit { at, bit } => {
                if let Some((d, _)) = lz::bit_decoded(src, c, at) {
                    lemma_follows_append(src, d, a.skip(1), b);
                }
            },
            Event::Even { count, value } => {
                if let Some(w) = lz::widened(src, c) {
                    lemma_follows_append(
                        src,
                        lz::even_bits_decoded(w, 0, count).0,
                        a.skip(1),
                        b,
                    );
                }
            },
        }
    }
}

proof fn lemma_follows_one(src: Seq<u8>, c: Coder, at: int, bit: nat)
    ensures
        follows(src, c, seq![Event::Bit { at, bit }]) matches Some(d) ==> lz::bit_decoded(
            src,
            c,
            at,
        ) == Some((d, bit)),
{
    let one = seq![Event::Bit { at, bit }];
    assert(one.skip(1).len() == 0);
    assert(one[0] == Event::Bit { at, bit });
    if let Some((d, b)) = lz::bit_decoded(src, c, at) {
        assert(follows(src, d, one.skip(1)) == Some(d));
    }
}

proof fn lemma_two_to(n: nat)
    ensures
        two_to(n) >= 1,
        two_to(n + 1) == 2 * two_to(n),
    decreases n,
{
    if n > 0 {
        lemma_two_to((n - 1) as nat);
    }
}

proof fn lemma_two_to_add(a: nat, b: nat)
    ensures
        two_to(a + b) == two_to(a) * two_to(b),
    decreases b,
{
    if b > 0 {
        lemma_two_to_add(a, (b - 1) as nat);
        assert(a + (b - 1) as nat == (a + b - 1) as nat);
        assert(two_to(a) * (2 * two_to((b - 1) as nat)) == 2 * (two_to(a) * two_to(
            (b - 1) as nat,
        ))) by (nonlinear_arith);
    } else {
        assert(two_to(b) == 1);
        assert(two_to(a) * 1 == two_to(a));
    }
}

proof fn lemma_two_to_grows(a: nat, b: nat)
    requires
        a <= b,
    ensures
        two_to(a) <= two_to(b),
    decreases b,
{
    if a < b {
        lemma_two_to_grows(a, (b - 1) as nat);
    }
}

proof fn lemma_two_to_32()
    ensures
        two_to(32) == 0x1_0000_0000,
        two_to(24) == 0x100_0000,
        two_to(8) == 0x100,
        two_to(3) == 8,
        two_to(2) == 4,
        two_to(1) == 2,
        two_to(0) == 1,
{
    reveal_with_fuel(two_to, 9);
    lemma_two_to_add(8, 8);
    lemma_two_to_add(16, 8);
    lemma_two_to_add(16, 16);
}

/// A number lies between the power of two of its highest bit and the next one.
pub proof fn law_top_bit(n: nat)
    requires
        n >= 1,
    ensures
        two_to(top_bit(n)) <= n < two_to(top_bit(n) + 1),
    decreases n,
{
    reveal_with_fuel(two_to, 2);
    if n > 1 {
        law_top_bit(n / 2);
        lemma_two_to(top_bit(n / 2));
        lemma_two_to(top_bit(n / 2) + 1);
    }
}

proof fn lemma_top_bit_below(n: nat, k: nat)
    requires
        1 <= n < two_to(k),
    ensures
        top_bit(n) < k,
{
    law_top_bit(n);
    if k <= top_bit(n) {
        lemma_two_to_grows(k, top_bit(n));
    }
}

/// Equally likely bits read onto a value multiply it by a power of two and
/// fill in what lies below, whatever the value was.
pub proof fn law_even_bits_append(c: Coder, value: nat, count: nat)
    requires
        (value + 1) * two_to(count) <= 0x1_0000_0000,
    ensures
        ({
            let (d, low) = lz::even_bits_decoded(c, 0, count);
            &&& low < two_to(count)
            &&& lz::even_bits_decoded(c, value, count) == (d, value * two_to(count) + low)
        }),
        value * two_to(count) <= lz::even_bits_decoded(c, value, count).1 < (value + 1) * two_to(
            count,
        ),
    decreases count,
{
    lemma_two_to(count);
    if count > 0 {
        let n = (count - 1) as nat;
        let half = c.range / 2;
        let bit: nat = if c.code < half {
            1
        } else {
            0
        };
        let d = Coder {
            pos: c.pos,
            range: half,
            code: (c.code - (if bit == 1 {
                0
            } else {
                half
            })) as nat,
            model: c.model,
        };
        lemma_two_to(n);
        let t = two_to(n);
        assert((2 * value + bit + 1) * t <= (value + 1) * (2 * t)) by (nonlinear_arith)
            requires
                bit <= 1,
        ;
        assert((bit + 1) * t <= (value + 1) * (2 * t)) by (nonlinear_arith)
            requires
                bit <= 1,
        ;
        assert(2 * value + bit < 0x1_0000_0000) by (nonlinear_arith)
            requires
                (2 * value + bit + 1) * t <= 0x1_0000_0000,
                t >= 1,
        ;
        law_even_bits_append(d, bit, n);
        law_even_bits_append(d, 2 * value + bit, n);
        let low = lz::even_bits_decoded(d, 0, n).1;
        assert((2 * value + bit) * t + low == value * (2 * t) + (bit * t + low))
            by (nonlinear_arith);
        assert(bit * t + low < 2 * t) by (nonlinear_arith)
            requires
                bit <= 1,
                low < t,
        ;
        let more = 2 * value + bit;
        vstd::arithmetic::div_mod::lemma_small_mod(more, 0x1_0000_0000);
        assert(lz::with_bit(value, bit) == more);
        assert(lz::with_bit(0, bit) == bit);
        assert(lz::even_bits_decoded(c, 0, count) == lz::even_bits_decoded(d, bit, n));
        assert(lz::even_bits_decoded(c, value, count) == lz::even_bits_decoded(
            d,
            2 * value + bit,
            n,
        ));
    } else {
        assert(value * 1 == value);
    }
    assert((value + 1) * two_to(count) == value * two_to(count) + two_to(count))
        by (nonlinear_arith);
}

proof fn lemma_even_bound(range: nat, count: nat, value: nat)
    ensures
        halved(range, count) + even_start(range, count, value) <= range,
        two_to(count) <= range ==> halved(range, count) > 0,
    decreases count,
{
    if count > 0 {
        let n = (count - 1) as nat;
        let half = range / 2;
        let low = two_to(n);
        lemma_two_to(n);
        lemma_even_bound(half, n, value % low);
        assert(even_start(range, count, value) <= half + even_start(half, n, value % low));
    }
}

proof fn lemma_even_decoded(c: Coder, count: nat, value: nat, code: nat)
    requires
        count <= 32,
        value < two_to(count),
        code < halved(c.range, count),
        c.code == code + even_start(c.range, count, value),
    ensures
        lz::even_bits_decoded(c, 0, count) == (
            Coder { pos: c.pos, range: halved(c.range, count), code, model: c.model },
            value,
        ),
    decreases count,
{
    if count > 0 {
        let n = (count - 1) as nat;
        let low = two_to(n);
        let half = c.range / 2;
        lemma_two_to(n);
        lemma_two_to_32();
        lemma_two_to_grows(count, 32);
        vstd::arithmetic::div_mod::lemma_fundamental_div_mod(value as int, low as int);
        let bit = value / low;
        assert(bit <= 1 && value == bit * low + value % low && value % low < low)
            by (nonlinear_arith)
            requires
                value == low * (value / low) + value % low,
                value < 2 * low,
                low >= 1,
                bit == value / low,
        ;
        lemma_even_bound(half, n, value % low);
        let d = Coder {
            pos: c.pos,
            range: half,
            code: code + even_start(half, n, value % low),
            model: c.model,
        };
        lemma_even_decoded(d, n, value % low, code);
        assert((bit + 1) * low <= 0x1_0000_0000) by (nonlinear_arith)
            requires
                bit <= 1,
                2 * low <= 0x1_0000_0000,
        ;
        law_even_bits_append(d, bit, n);
        assert(lz::even_bits_decoded(c, 0, count) == lz::even_bits_decoded(d, bit, n));
    }
}

proof fn lemma_encoded_bound(range: nat, model: Seq<u8>, events: Seq<Event>, spare: nat)
    requires
        range > 0,
        codable(range, model, events, spare),
    ensures
        encoded(range, model, events, spare).0 < range,
    decreases events.len(),
{
    if events.len() > 0 {
        let r = if range < 0x100_0000 {
            range * 256
        } else {
            range
        };
        match events[0] {
            Event::Bit { at, bit } => {
                let p = model[at] as nat;
                let ones = r / 256 * p;
                lemma_split(r, p);
                lemma_encoded_bound(
                    if bit == 1 {
                        ones
                    } else {
                        (r - ones) as nat
                    },
                    model.update(at, (p - p / 8 + 31 * bit) as u8),
                    events.skip(1),
                    spare,
                );
            },
            Event::Even { count, value } => {
                lemma_even_bound(r, count, value);
                lemma_encoded_bound(halved(r, count), model, events.skip(1), spare);
            },
        }
    }
}

proof fn lemma_split(r: nat, p: nat)
    requires
        r >= 256,
        0 < p <= 255,
    ensures
        0 < r / 256 * p < r,
{
    let unit = r / 256;
    assert(0 < unit * p <= unit * 255) by (nonlinear_arith)
        requires
            unit >= 1,
            0 < p <= 255,
    ;
}

/// Whether the bytes from some place of a stream on start with `tail`.
spec fn lies(src: Seq<u8>, at: nat, tail: Seq<u8>) -> bool {
    &&& at + tail.len() <= src.len()
    &&& forall|k: int| 0 <= k < tail.len() ==> #[trigger] src[at + k] == tail[k]
}

proof fn lemma_lies_rest(src: Seq<u8>, at: nat, tail: Seq<u8>)
    requires
        lies(src, at, tail),
        tail.len() > 0,
    ensures
        lies(src, at + 1, tail.skip(1)),
        src[at as int] == tail[0],
{
    assert(src[at + 0int] == tail[0]);
    assert forall|k: int| 0 <= k < tail.skip(1).len() implies #[trigger] src[(at + 1) as nat + k]
        == tail.skip(1)[k] by {
        assert(src[at + (k + 1)] == tail[k + 1]);
    }
}

/// An interval, widened where it is narrow.
spec fn wide(range: nat) -> nat {
    if range < 0x100_0000 {
        range * 256
    } else {
        range
    }
}

/// The interval and the probabilities after a decision, and where in the widened
/// interval before it the new one starts.
spec fn narrowed(r: nat, model: Seq<u8>, e: Event) -> (nat, Seq<u8>, nat) {
    match e {
        Event::Bit { at, bit } => {
            let p = model[at] as nat;
            let ones = r / 256 * p;
            let moved = model.update(at, (p - p / 8 + 31 * bit) as u8);
            if bit == 1 {
                (ones, moved, 0)
            } else {
                ((r - ones) as nat, moved, ones)
            }
        },
        Event::Even { count, value } => (halved(r, count), model, even_start(r, count, value)),
    }
}

proof fn lemma_encoded_step(range: nat, model: Seq<u8>, events: Seq<Event>, spare: nat)
    requires
        0 < range,
        events.len() > 0,
        codable(range, model, events, spare),
    ensures
        ({
            let r = wide(range);
            let (range2, model2, low) = narrowed(r, model, events[0]);
            let (code, tail) = encoded(range2, model2, events.skip(1), spare);
            &&& 0 < range2
            &&& range2 + low <= r
            &&& code < range2
            &&& codable(range2, model2, events.skip(1), spare)
            &&& encoded(range, model, events, spare) == if range < 0x100_0000 {
                ((code + low) / 256, seq![((code + low) % 256) as u8] + tail)
            } else {
                (code + low, tail)
            }
        }),
{
    let r = wide(range);
    let (range2, model2, low) = narrowed(r, model, events[0]);
    match events[0] {
        Event::Bit { at, bit } => {
            lemma_split(r, model[at] as nat);
        },
        Event::Even { count, value } => {
            lemma_even_bound(r, count, value);
        },
    }
    lemma_encoded_bound(range2, model2, events.skip(1), spare);
}

proof fn lemma_decision_read(src: Seq<u8>, c: Coder, e: Event, code: nat)
    requires
        0 < c.range <= 0xFFFF_FFFF,
        codable(c.range, c.model, seq![e], 0),
        ({
            let (range, model, low) = narrowed(wide(c.range), c.model, e);
            &&& code < range
            &&& range + low <= wide(c.range)
            &&& lz::widened(src, c) matches Some(w)
            &&& w.range == wide(c.range)
            &&& w.code == code + low
            &&& w.model == c.model
        }),
    ensures
        ({
            let (range, model, low) = narrowed(wide(c.range), c.model, e);
            let w = lz::widened(src, c)->Some_0;
            let d = Coder { pos: w.pos, range, code, model };
            match e {
                Event::Bit { at, bit } => lz::bit_decoded(src, c, at) == Some((d, bit)),
                Event::Even { count, value } => lz::even_bits_decoded(w, 0, count) == (d, value),
            }
        }),
{
    let (range, model, low) = narrowed(wide(c.range), c.model, e);
    let w = lz::widened(src, c)->Some_0;
    assert(seq![e][0] == e);
    match e {
        Event::Bit { at, bit } => {
            reveal(lz::bit_decoded);
        },
        Event::Even { count, value } => {
            lemma_two_to_32();
            if count > 32 {
                lemma_two_to_grows(32, count);
            }
            lemma_even_decoded(w, count, value, code);
        },
    }
}

proof fn lemma_first_codable(range: nat, model: Seq<u8>, events: Seq<Event>, spare: nat)
    requires
        0 < range,
        events.len() > 0,
        codable(range, model, events, spare),
    ensures
        codable(range, model, seq![events[0]], 0),
{
    let one = seq![events[0]];
    assert(one[0] == events[0]);
    assert(one.skip(1).len() == 0);
    lemma_encoded_step(range, model, events, spare);
    let (range2, model2, _) = narrowed(wide(range), model, events[0]);
    assert(codable(range2, model2, one.skip(1), 0));
}

proof fn lemma_encoded_follows(src: Seq<u8>, c: Coder, events: Seq<Event>, spare: nat)
    requires
        0 < c.range <= 0xFFFF_FFFF,
        codable(c.range, c.model, events, spare),
        c.code == encoded(c.range, c.model, events, spare).0,
        lies(src, c.pos + 5, encoded(c.range, c.model, events, spare).1),
    ensures
        follows(src, c, events) is Some,
    decreases events.len(),
{
    if events.len() > 0 {
        let narrow = c.range < 0x100_0000;
        let rest = events.skip(1);
        let (range, model, low) = narrowed(wide(c.range), c.model, events[0]);
        let (code, tail) = encoded(range, model, rest, spare);
        lemma_encoded_step(c.range, c.model, events, spare);
        lemma_first_codable(c.range, c.model, events, spare);
        let full = encoded(c.range, c.model, events, spare);
        if narrow {
            lemma_lies_rest(src, c.pos + 5, full.1);
            assert(full.1.skip(1) =~= tail);
        }
        let w = Coder {
            pos: if narrow {
                c.pos + 1
            } else {
                c.pos
            },
            range: wide(c.range),
            code: code + low,
            model: c.model,
        };
        assert(lz::widened(src, c) == Some(w));
        lemma_decision_read(src, c, events[0], code);
        lemma_encoded_follows(src, Coder { pos: w.pos, range, code, model }, rest, spare);
    }
}

proof fn lemma_split_follow(src: Seq<u8>, c: Coder, a: Seq<Event>, b: Seq<Event>) -> (d: Coder)
    requires
        follows(src, c, a + b) is Some,
    ensures
        follows(src, c, a) == Some(d),
        follows(src, d, b) == follows(src, c, a + b),
{
    lemma_follows_append(src, c, a, b);
    follows(src, c, a)->0
}

proof fn lemma_literal_read(src: Seq<u8>, c: Coder, base: int, target: nat)
    requires
        1 <= target < 512,
        follows(src, c, tree(base, 1, target)) is Some,
    ensures
        lz::literal_decoded(src, c, base, 1) == lz::literal_decoded(
            src,
            follows(src, c, tree(base, 1, target))->0,
            base,
            target,
        ),
    decreases target,
{
    if target > 1 {
        let q = target / 2;
        let last = Event::Bit { at: base + 1 * q, bit: target % 2 };
        assert(tree(base, 1, target) =~= tree(base, 1, q) + seq![last]);
        let d = lemma_split_follow(src, c, tree(base, 1, q), seq![last]);
        lemma_follows_one(src, d, base + 1 * q, target % 2);
        lemma_literal_read(src, c, base, q);
        assert(base + 1 * q == base + q);
        assert(2 * q + target % 2 == target);
    }
}

proof fn lemma_class_read(src: Seq<u8>, c: Coder, base: int, limit: int, target: nat)
    requires
        target >= 1,
        target > 1 ==> 16 * (target / 2) < limit,
        follows(src, c, tree(base, 8, target)) is Some,
    ensures
        lz::class_decoded(src, c, base, limit, 1) == lz::class_decoded(
            src,
            follows(src, c, tree(base, 8, target))->0,
            base,
            limit,
            target,
        ),
    decreases target,
{
    if target > 1 {
        let q = target / 2;
        let last = Event::Bit { at: base + 8 * q, bit: target % 2 };
        assert(tree(base, 8, target) =~= tree(base, 8, q) + seq![last]);
        let d = lemma_split_follow(src, c, tree(base, 8, q), seq![last]);
        lemma_follows_one(src, d, base + 8 * q, target % 2);
        lemma_class_read(src, c, base, limit, q);
        assert(2 * q + target % 2 == target);
    }
}

/// The unary part of a length.
spec fn unary(offset: nat, class: int) -> Seq<Event> {
    Seq::new(
        (if class < 6 {
            class + 2
        } else {
            7
        }) as nat,
        |j: int|
            Event::Bit {
                at: 0xB68 + offset + 8 * (j + 1),
                bit: if j <= class {
                    1
                } else {
                    0
                },
            },
    )
}

proof fn lemma_unary_read(src: Seq<u8>, c: Coder, offset: nat, class: int, j: int)
    requires
        -1 <= class <= 6,
        0 <= j < unary(offset, class).len(),
        follows(src, c, unary(offset, class).skip(j)) is Some,
    ensures
        lz::ones_decoded(src, c, 0xB68 + offset + 8 * j, j - 1) == Some(
            (follows(src, c, unary(offset, class).skip(j))->0, class),
        ),
    decreases unary(offset, class).len() - j,
{
    let all = unary(offset, class);
    let bit: nat = if j <= class {
        1
    } else {
        0
    };
    let at = 0xB68 + offset + 8 * (j + 1);
    let one = seq![Event::Bit { at, bit }];
    assert(all.skip(j) =~= one + all.skip(j + 1));
    let d = lemma_split_follow(src, c, one, all.skip(j + 1));
    lemma_follows_one(src, c, at, bit);
    assert(at == 0xB68 + offset + 8 * j + 8);
    if j + 1 < all.len() {
        lemma_unary_read(src, d, offset, class, j + 1);
        assert(0xB68 + offset + 8 * (j + 1) == at);
    } else {
        assert(all.skip(j + 1).len() == 0);
    }
}

proof fn lemma_next_prefix(value: nat, j: nat)
    ensures
        value / two_to(j) == 2 * (value / two_to(j + 1)) + bit_of(value, j),
        bit_of(value, j) <= 1,
{
    lemma_two_to(j);
    vstd::arithmetic::div_mod::lemma_div_denominator(value as int, two_to(j) as int, 2);
    assert(two_to(j) * 2 == two_to(j + 1));
}

proof fn lemma_bit_read(src: Seq<u8>, c: Coder, value: nat, j: nat, at: int)
    requires
        value < 0x1_0000_0000,
        follows(src, c, seq![Event::Bit { at, bit: bit_of(value, j) }]) is Some,
    ensures
        lz::appended_bit(src, Some((c, value / two_to(j + 1))), at) == Some(
            (
                follows(src, c, seq![Event::Bit { at, bit: bit_of(value, j) }])->0,
                value / two_to(j),
            ),
        ),
{
    lemma_follows_one(src, c, at, bit_of(value, j));
    lemma_next_prefix(value, j);
    lemma_two_to(j);
    let t = two_to(j);
    assert(value / t <= value) by (nonlinear_arith)
        requires
            t >= 1,
    ;
}

/// The top part of a number, and its rest.
spec fn top_events(at: int, width: nat, value: nat) -> Seq<Event> {
    if width >= 4 {
        seq![
            Event::Bit { at, bit: bit_of(value, width) },
            Event::Bit { at, bit: bit_of(value, (width - 1) as nat) },
        ]
    } else if width == 3 {
        seq![Event::Bit { at, bit: bit_of(value, 3) }]
    } else {
        Seq::empty()
    }
}

spec fn middle_events(width: nat, value: nat) -> Seq<Event> {
    if width >= 5 {
        let count = (width - 4) as nat;
        seq![Event::Even { count, value: value / 8 % two_to(count) }]
    } else {
        Seq::empty()
    }
}

spec fn low_events(ptr: int, step: int, width: nat, value: nat) -> Seq<Event> {
    if width >= 2 {
        seq![
            Event::Bit { at: ptr, bit: bit_of(value, 2) },
            Event::Bit { at: ptr + step, bit: bit_of(value, 1) },
            Event::Bit { at: ptr + 2 * step, bit: bit_of(value, 0) },
        ]
    } else if width == 1 {
        seq![
            Event::Bit { at: ptr, bit: bit_of(value, 1) },
            Event::Bit { at: ptr + step, bit: bit_of(value, 0) },
        ]
    } else {
        seq![Event::Bit { at: ptr, bit: bit_of(value, 0) }]
    }
}

#[verifier::rlimit(40)]
proof fn lemma_high_read(src: Seq<u8>, c: Coder, at: int, width: nat, value: nat)
    requires
        width <= 30,
        two_to(width + 1) <= value < two_to(width + 2),
        follows(src, c, top_events(at, width, value) + middle_events(width, value)) is Some,
    ensures
        lz::high_bits_decoded(src, c, at, width) == Some(
            (
                follows(src, c, top_events(at, width, value) + middle_events(width, value))->0,
                value / two_to(
                    if width >= 3 {
                        3
                    } else {
                        width + 1
                    },
                ),
            ),
        ),
{
    let top = top_events(at, width, value);
    let middle = middle_events(width, value);
    lemma_two_to_32();
    lemma_two_to_grows(width + 2, 32);
    lemma_two_to(width + 1);
    let w = two_to(width + 1);
    assert(value / w == 1) by (nonlinear_arith)
        requires
            w <= value < 2 * w,
    ;
    let d = lemma_split_follow(src, c, top, middle);
    if width < 3 {
        assert(top + middle =~= Seq::empty());
    } else if width == 3 {
        lemma_bit_read(src, c, value, 3, at);
        assert(middle.len() == 0);
    } else {
        let a = seq![Event::Bit { at, bit: bit_of(value, width) }];
        let b = seq![Event::Bit { at, bit: bit_of(value, (width - 1) as nat) }];
        assert(top =~= a + b);
        let e = lemma_split_follow(src, c, a, b);
        lemma_bit_read(src, c, value, width, at);
        lemma_bit_read(src, e, value, (width - 1) as nat, at);
        if width == 4 {
            assert(middle.len() == 0);
        } else {
            let count = (width - 4) as nat;
            let low = value / 8 % two_to(count);
            let acc = value / two_to((width - 1) as nat);
            lemma_two_to(count);
            lemma_two_to_add(3, count);
            vstd::arithmetic::div_mod::lemma_div_denominator(
                value as int,
                8,
                two_to(count) as int,
            );
            assert(3 + count == width - 1);
            let t = two_to(count);
            assert(acc == value / 8 / t);
            vstd::arithmetic::div_mod::lemma_fundamental_div_mod((value / 8) as int, t as int);
            assert(value / 8 == acc * t + low) by (nonlinear_arith)
                requires
                    value / 8 == t * (value / 8 / t) + value / 8 % t,
                    acc == value / 8 / t,
                    low == value / 8 % t,
            ;
            lemma_next_prefix(value, (width - 1) as nat);
            lemma_next_prefix(value, width);
            assert(acc <= 7);
            lemma_two_to_grows(count, 26);
            lemma_two_to_add(24, 2);
            lemma_two_to_add(24, 1);
            assert((acc + 1) * t <= 0x1_0000_0000) by (nonlinear_arith)
                requires
                    acc <= 7,
                    t <= 0x400_0000,
            ;
            assert(middle[0] == Event::Even { count, value: low });
            assert(middle.skip(1).len() == 0);
            if let Some(v) = lz::widened(src, d) {
                law_even_bits_append(v, acc, count);
                let after = lz::even_bits_decoded(v, 0, count);
                assert(after.1 == low);
                assert(follows(src, after.0, middle.skip(1)) == Some(after.0));
            }
        }
    }
}

#[verifier::rlimit(40)]
proof fn lemma_number_read(
    src: Seq<u8>,
    c: Coder,
    ptr: int,
    high: int,
    step: int,
    width: nat,
    value: nat,
)
    requires
        width <= 30,
        two_to(width + 1) <= value < two_to(width + 2),
        follows(src, c, number_events(ptr, high, step, width, value)) is Some,
    ensures
        lz::number_decoded(src, c, ptr, high, step, width) == Some(
            (follows(src, c, number_events(ptr, high, step, width, value))->0, value),
        ),
{
    reveal(lz::number_decoded);
    let top = top_events(ptr + high, width, value) + middle_events(width, value);
    let low = low_events(ptr, step, width, value);
    assert(number_events(ptr, high, step, width, value) == top + low);
    let d = lemma_split_follow(src, c, top, low);
    lemma_high_read(src, c, ptr + high, width, value);
    lemma_two_to_32();
    lemma_two_to_grows(width + 2, 32);
    let last = seq![
        Event::Bit {
            at: if width >= 2 {
                ptr + 2 * step
            } else if width == 1 {
                ptr + step
            } else {
                ptr
            },
            bit: bit_of(value, 0),
        },
    ];
    if width >= 2 {
        let a = seq![Event::Bit { at: ptr, bit: bit_of(value, 2) }];
        let b = seq![Event::Bit { at: ptr + step, bit: bit_of(value, 1) }];
        assert(low =~= a + (b + last));
        let e = lemma_split_follow(src, d, a, b + last);
        let f = lemma_split_follow(src, e, b, last);
        lemma_bit_read(src, d, value, 2, ptr);
        lemma_bit_read(src, e, value, 1, ptr + step);
        lemma_bit_read(src, f, value, 0, ptr + 2 * step);
    } else if width == 1 {
        let a = seq![Event::Bit { at: ptr, bit: bit_of(value, 1) }];
        assert(low =~= a + last);
        let e = lemma_split_follow(src, d, a, last);
        lemma_bit_read(src, d, value, 1, ptr);
        lemma_bit_read(src, e, value, 0, ptr + step);
    } else {
        lemma_bit_read(src, d, value, 0, ptr);
    }
}

proof fn lemma_phase(start: nat, class: nat)
    ensures
        (start * two_to(class)) % 4 == lz::phase(start, class as int),
{
    lemma_two_to_32();
    if class == 0 {
        assert(start * two_to(0) == start);
    } else if class == 1 {
        assert((start * 2) % 4 == (start % 2) * 2);
    } else {
        lemma_two_to_add(2, (class - 2) as nat);
        let t = two_to((class - 2) as nat);
        assert(start * (4 * t) == 4 * (start * t)) by (nonlinear_arith);
        assert((4 * (start * t)) % 4 == 0);
    }
}

proof fn lemma_length_class(length: nat)
    requires
        2 <= length <= 256,
    ensures
        -1 <= length_class(length) <= 6,
        length_class(length) < 0 <==> length == 2,
        length_class(length) >= 0 ==> two_to((length_class(length) + 1) as nat) <= length - 1
            < two_to((length_class(length) + 2) as nat),
        length <= 3 ==> length_class(length) <= 0,
{
    let n = (length - 1) as nat;
    law_top_bit(n);
    lemma_two_to_32();
    lemma_top_bit_below(n, 8);
    if n > 1 {
        assert(top_bit(n) >= 1);
    }
    if n <= 3 {
        lemma_top_bit_below(n, 2);
    }
}

/// What the decompressor reads where a length was written.
#[verifier::rlimit(40)]
proof fn lemma_length_read(src: Seq<u8>, c: Coder, out: Seq<u8>, offset: nat, length: nat)
    requires
        2 <= length <= 256,
        follows(src, c, length_events(out, offset, length)) is Some,
    ensures
        lz::ones_decoded(src, c, (0xB68 + offset) as int, -1) matches Some((d, class)) && class
            == length_class(length) && lz::length_decoded(src, d, out.len(), offset, class) == Some(
            (follows(src, c, length_events(out, offset, length))->0, (length - 1) as nat),
        ),
{
    reveal(lz::length_decoded);
    let class = length_class(length);
    let digits = unary(offset, class);
    lemma_length_class(length);
    assert(digits.skip(0) =~= digits);
    if class < 0 {
        assert(length_events(out, offset, length) == digits);
        lemma_unary_read(src, c, offset, class, 0);
    } else {
        lemma_phase(out.len(), class as nat);
        let ptr = 0xBA8 + 32 * class + 8 * ((out.len() * two_to(class as nat)) % 4) as int + offset;
        let number = number_events(ptr, 0x18, 8, class as nat, (length - 1) as nat);
        assert(length_events(out, offset, length) == digits + number);
        let d = lemma_split_follow(src, c, digits, number);
        lemma_unary_read(src, c, offset, class, 0);
        lemma_number_read(src, d, ptr, 0x18, 8, class as nat, (length - 1) as nat);
    }
}

/// What the decompressor reads where a distance was written.
#[verifier::rlimit(40)]
proof fn lemma_distance_read(src: Seq<u8>, c: Coder, distance: nat, length: nat)
    requires
        2 <= length <= 255,
        1 <= distance < 0x1_0000_0000,
        length <= 3 ==> distance <= 255,
        follows(src, c, distance_events(distance, length)) is Some,
    ensures
        lz::distance_decoded(src, c, length_class(length), (length - 1) as nat) == Some(
            (follows(src, c, distance_events(distance, length))->0, distance),
        ),
{
    reveal(lz::distance_decoded);
    let class = top_bit(distance);
    law_top_bit(distance);
    lemma_two_to_32();
    lemma_two_to_add(2, 3);
    lemma_top_bit_below(distance, 32);
    let (base, first) = if length <= 3 {
        lemma_top_bit_below(distance, 8);
        (0x7F1 + 0xF8 + length_class(length), 4nat)
    } else {
        (0x7F1 + length_class(length), 22nat)
    };
    let limit = 16 * first;
    let leaf = first + class / 2;
    let path = tree(base, 8, leaf);
    let last = seq![Event::Bit { at: base + 8 * leaf, bit: class % 2 }];
    let number = if class == 0 {
        Seq::empty()
    } else {
        number_events(0x928 + 8 * (class - 1), 4, 1, (class - 1) as nat, distance)
    };
    assert(distance_events(distance, length) =~= path + (last + number));
    let d = lemma_split_follow(src, c, path, last + number);
    let e = lemma_split_follow(src, d, last, number);
    lemma_class_read(src, c, base, limit as int, leaf);
    lemma_follows_one(src, d, base + 8 * leaf, class % 2);
    assert(lz::class_decoded(src, c, base, limit as int, 1) == Some(
        (e, 16 * leaf - limit, class % 2),
    ));
    if class > 0 {
        let over = 16 * leaf - limit;
        let at = if class % 2 == 0 {
            over - 8
        } else {
            over
        };
        assert(at == 8 * (class - 1));
        lemma_number_read(src, e, 0x928 + at, 4, 1, (class - 1) as nat, distance);
    }
}

proof fn lemma_mod_step(x: int, d: int)
    requires
        x >= 0,
        d >= 1,
    ensures
        (x + 1) % d == if x % d == d - 1 {
            0
        } else {
            x % d + 1
        },
{
    vstd::arithmetic::div_mod::lemma_fundamental_div_mod(x, d);
    let q = x / d;
    let m = x % d;
    assert(q * d == d * q) by (nonlinear_arith);
    if m == d - 1 {
        assert((q + 1) * d == q * d + d) by (nonlinear_arith);
        vstd::arithmetic::div_mod::lemma_fundamental_div_mod_converse(x + 1, d, q + 1, 0);
    } else {
        vstd::arithmetic::div_mod::lemma_fundamental_div_mod_converse(x + 1, d, q, m + 1);
    }
}

/// Copying bytes one by one repeats the last `distance` bytes over and over.
pub proof fn law_copied_repeats(out: Seq<u8>, distance: nat, n: nat)
    requires
        1 <= distance <= out.len(),
    ensures
        lz::copied(out, distance, n) == written(out, Token::Match { distance, length: n }),
    decreases n,
{
    let want = written(out, Token::Match { distance, length: n });
    if n == 0 {
        assert(want =~= out);
    } else {
        let next = out.push(out[out.len() - distance]);
        let m = (n - 1) as nat;
        law_copied_repeats(next, distance, m);
        let rest = written(next, Token::Match { distance, length: m });
        assert forall|k: int| 0 <= k < want.len() implies want[k] == rest[k] by {
            if k >= out.len() {
                assert(0int % (distance as int) == 0) by (nonlinear_arith)
                    requires
                        distance >= 1,
                ;
                if k > out.len() {
                    lemma_mod_step(k - next.len(), distance as int);
                    vstd::arithmetic::div_mod::lemma_mod_bound(
                        k - next.len(),
                        distance as int,
                    );
                    assert(k - next.len() + 1 == k - out.len());
                }
            }
        }
        assert(want =~= rest);
    }
}

proof fn lemma_pow2(n: nat)
    ensures
        vstd::arithmetic::power2::pow2(n) == two_to(n),
    decreases n,
{
    if n == 0 {
        vstd::arithmetic::power2::lemma2_to64();
    } else {
        lemma_pow2((n - 1) as nat);
        vstd::arithmetic::power2::lemma_pow2_unfold(n);
    }
}

proof fn lemma_literal_group(out: Seq<u8>, head: u8)
    ensures
        lz::literal_base(out, head) == ({
            let last: nat = if out.len() == 0 {
                0
            } else {
                out.last() as nat
            };
            (out.len() % 8 * 256 + last) / two_to((head % 32) as nat) % 8
        }) * 255 - 1,
{
    let last: nat = if out.len() == 0 {
        0
    } else {
        out.last() as nat
    };
    let mix = (out.len() % 8 * 256 + last) as u32;
    let shift = (head % 32) as u32;
    vstd::bits::lemma_u32_shr_is_div(mix, shift);
    lemma_pow2(shift as nat);
}

proof fn lemma_written_grows(out: Seq<u8>, tokens: Seq<Token>)
    ensures
        all_written(out, tokens).len() >= out.len(),
    decreases tokens.len(),
{
    if tokens.len() > 0 {
        lemma_written_grows(written(out, tokens[0]), tokens.skip(1));
    }
}

/// What the decompressor makes of the rest of a stream.
#[verifier::opaque]
spec fn rest_of(src: Seq<u8>, end: nat, c: Coder, out: Seq<u8>, offset: nat) -> Result<
    Seq<u8>,
    Error,
> {
    lz::decoded_from(src, end, c, out, offset)
}

#[verifier::rlimit(40)]
proof fn lemma_literal_step(
    src: Seq<u8>,
    end: nat,
    c: Coder,
    out: Seq<u8>,
    offset: nat,
    byte: u8,
)
    requires
        out.len() < end,
        follows(src, c, token_events(src[0], out, offset, Token::Literal { byte })) is Some,
    ensures
        rest_of(src, end, c, out, offset) == rest_of(
            src,
            end,
            follows(src, c, token_events(src[0], out, offset, Token::Literal { byte }))->0,
            written(out, Token::Literal { byte }),
            next_offset(out, offset, Token::Literal { byte }),
        ),
{
    reveal(rest_of);
    let start = (0xB68 + offset) as int;
    lemma_literal_group(out, src[0]);
    let base = lz::literal_base(out, src[0]);
    let target = 256 + byte as nat;
    let one = seq![Event::Bit { at: start, bit: 0 }];
    let path = tree(base, 1, target);
    assert(token_events(src[0], out, offset, Token::Literal { byte }) == one + path);
    let c1 = lemma_split_follow(src, c, one, path);
    let d = follows(src, c, one + path)->0;
    lemma_follows_one(src, c, start, 0);
    lemma_literal_read(src, c1, base, target);
    assert(lz::literal_decoded(src, d, base, target) == Some((d, target)));
    assert((target % 0x100) as u8 == byte);
}

/// The part of a match before its bytes are copied.
proof fn lemma_match_read(
    src: Seq<u8>,
    c: Coder,
    out: Seq<u8>,
    offset: nat,
    distance: nat,
    length: nat,
) -> (cs: (Coder, Coder, Coder))
    requires
        1 <= distance < 0x1_0000_0000,
        2 <= length <= 255,
        length <= 3 ==> distance <= 255,
        follows(
            src,
            c,
            token_events(src[0], out, offset, Token::Match { distance, length }),
        ) is Some,
    ensures
        lz::bit_decoded(src, c, (0xB68 + offset) as int) == Some((cs.0, 1nat)),
        lz::ones_decoded(src, cs.0, (0xB68 + offset) as int, -1) == Some(
            (cs.1, length_class(length)),
        ),
        lz::length_decoded(src, cs.1, out.len(), offset, length_class(length)) == Some(
            (cs.2, (length - 1) as nat),
        ),
        lz::distance_decoded(src, cs.2, length_class(length), (length - 1) as nat) == Some(
            (
                follows(
                    src,
                    c,
                    token_events(src[0], out, offset, Token::Match { distance, length }),
                )->0,
                distance,
            ),
        ),
{
    let start = (0xB68 + offset) as int;
    let one = seq![Event::Bit { at: start, bit: 1 }];
    let l = length_events(out, offset, length);
    let e = distance_events(distance, length);
    assert(token_events(src[0], out, offset, Token::Match { distance, length }) == one + l + e);
    let c2 = lemma_split_follow(src, c, one + l, e);
    let c1 = lemma_split_follow(src, c, one, l);
    lemma_follows_one(src, c, start, 1);
    lemma_length_read(src, c1, out, offset, length);
    lemma_distance_read(src, c2, distance, length);
    let found = lz::ones_decoded(src, c1, start, -1)->Some_0;
    (c1, found.0, c2)
}

/// One step of the decompressor over a match that it has read.
#[verifier::spinoff_prover]
proof fn lemma_match_unfold(
    src: Seq<u8>,
    end: nat,
    c: Coder,
    out: Seq<u8>,
    offset: nat,
    c1: Coder,
    c2: Coder,
    c3: Coder,
    c4: Coder,
    class: int,
    n: nat,
    distance: nat,
)
    requires
        lz::bit_decoded(src, c, (0xB68 + offset) as int) == Some((c1, 1nat)),
        lz::ones_decoded(src, c1, (0xB68 + offset) as int, -1) == Some((c2, class)),
        lz::length_decoded(src, c2, out.len(), offset, class) == Some((c3, n)),
        lz::distance_decoded(src, c3, class, n) == Some((c4, distance)),
        n != 255,
        1 <= distance,
    ensures
        distance >= 0x8000_0000 ==> rest_of(src, end, c, out, offset) == Err::<Seq<u8>, Error>(
            Error::InvalidBackReference,
        ),
        distance < 0x8000_0000 && distance > out.len() ==> rest_of(src, end, c, out, offset)
            == Err::<Seq<u8>, Error>(Error::LzUnderflow),
        distance < 0x8000_0000 && distance <= out.len() && out.len() + n + 1 > end ==> rest_of(
            src,
            end,
            c,
            out,
            offset,
        ) == Err::<Seq<u8>, Error>(Error::LzOverflow),
        distance < 0x8000_0000 && distance <= out.len() && out.len() + n + 1 <= end ==> rest_of(
            src,
            end,
            c,
            out,
            offset,
        ) == rest_of(
            src,
            end,
            c4,
            lz::copied(out, distance, n + 1),
            6 + (out.len() + n + 2) % 2,
        ),
{
    reveal(rest_of);
}

#[verifier::spinoff_prover]
proof fn lemma_match_step(
    src: Seq<u8>,
    end: nat,
    c: Coder,
    out: Seq<u8>,
    offset: nat,
    distance: nat,
    length: nat,
)
    requires
        1 <= distance < 0x1_0000_0000,
        2 <= length <= 255,
        length <= 3 ==> distance <= 255,
        follows(
            src,
            c,
            token_events(src[0], out, offset, Token::Match { distance, length }),
        ) is Some,
    ensures
        distance >= 0x8000_0000 ==> rest_of(src, end, c, out, offset) == Err::<Seq<u8>, Error>(
            Error::InvalidBackReference,
        ),
        distance < 0x8000_0000 && distance > out.len() ==> rest_of(src, end, c, out, offset)
            == Err::<Seq<u8>, Error>(Error::LzUnderflow),
        distance < 0x8000_0000 && distance <= out.len() && out.len() + length > end ==> rest_of(
            src,
            end,
            c,
            out,
            offset,
        ) == Err::<Seq<u8>, Error>(Error::LzOverflow),
        distance < 0x8000_0000 && distance <= out.len() && out.len() + length <= end ==> rest_of(
            src,
            end,
            c,
            out,
            offset,
        ) == rest_of(
            src,
            end,
            follows(
                src,
                c,
                token_events(src[0], out, offset, Token::Match { distance, length }),
            )->0,
            written(out, Token::Match { distance, length }),
            next_offset(out, offset, Token::Match { distance, length }),
        ),
{
    let cs = lemma_match_read(src, c, out, offset, distance, length);
    let d = follows(
        src,
        c,
        token_events(src[0], out, offset, Token::Match { distance, length }),
    )->0;
    let n = (length - 1) as nat;
    assert(n + 1 == length);
    lemma_match_unfold(
        src,
        end,
        c,
        out,
        offset,
        cs.0,
        cs.1,
        cs.2,
        d,
        length_class(length),
        n,
        distance,
    );
    if distance <= out.len() {
        law_copied_repeats(out, distance, length);
    }
    assert(6 + (out.len() + n + 2) % 2 == next_offset(
        out,
        offset,
        Token::Match { distance, length },
    ));
}

proof fn lemma_end_step(
    src: Seq<u8>,
    end: nat,
    c: Coder,
    out: Seq<u8>,
    offset: nat,
    ending: Ending,
)
    requires
        can_end(out, ending, end),
        follows(src, c, stream_events(src[0], out, offset, Seq::empty(), ending)) is Some,
    ensures
        rest_of(src, end, c, out, offset) == outcome(out, ending, end),
{
    reveal(rest_of);
    let start = (0xB68 + offset) as int;
    match ending {
        Ending::Mark => {
            let one = seq![Event::Bit { at: start, bit: 1 }];
            let l = length_events(out, offset, 256);
            let c1 = lemma_split_follow(src, c, one, l);
            lemma_follows_one(src, c, start, 1);
            lemma_length_read(src, c1, out, offset, 256);
            lemma_length_class(256);
        },
        Ending::Full => {
            lemma_follows_one(src, c, start, 0);
        },
        Ending::Stray { distance, length } => {
            lemma_match_step(src, end, c, out, offset, distance, length);
        },
    }
}

/// Where the stream's decisions are read, the decompressor writes its pieces.
proof fn lemma_stream_read(
    src: Seq<u8>,
    end: nat,
    c: Coder,
    out: Seq<u8>,
    offset: nat,
    tokens: Seq<Token>,
    ending: Ending,
)
    requires
        all_valid(out, tokens),
        all_written(out, tokens).len() <= end,
        can_end(all_written(out, tokens), ending, end),
        follows(src, c, stream_events(src[0], out, offset, tokens, ending)) is Some,
    ensures
        rest_of(src, end, c, out, offset) == outcome(
            all_written(out, tokens),
            ending,
            end,
        ),
    decreases tokens.len(),
{
    if tokens.len() > 0 {
        let token = tokens[0];
        let next = written(out, token);
        let o = next_offset(out, offset, token);
        let rest = stream_events(src[0], next, o, tokens.skip(1), ending);
        let d = lemma_split_follow(src, c, token_events(src[0], out, offset, token), rest);
        lemma_written_grows(next, tokens.skip(1));
        match token {
            Token::Literal { byte } => {
                lemma_literal_step(src, end, c, out, offset, byte);
            },
            Token::Match { distance, length } => {
                lemma_match_step(src, end, c, out, offset, distance, length);
            },
        }
        lemma_stream_read(src, end, d, next, o, tokens.skip(1), ending);
    } else {
        assert(tokens =~= Seq::empty());
        lemma_end_step(src, end, c, out, offset, ending);
    }
}

/// Decompressing what the encoder makes of literals and matches gives the bytes
/// that those literals and matches write, whatever follows the stream. A stream
/// with an end mark may be shorter than the size asked for, one without fills
/// it, and one with a match that leaves the output is refused.
#[verifier::rlimit(40)]
pub proof fn law_encoded_decompresses(
    head: u8,
    tokens: Seq<Token>,
    ending: Ending,
    spare: nat,
    rest: Seq<u8>,
    size: nat,
)
    requires
        head < 0x80,
        all_valid(Seq::empty(), tokens),
        stream_codable(head, tokens, ending, spare),
        all_written(Seq::empty(), tokens).len() <= size,
        can_end(all_written(Seq::empty(), tokens), ending, size),
    ensures
        lz::decompressed(stream(head, tokens, ending, spare) + rest, size) == outcome(
            all_written(Seq::empty(), tokens),
            ending,
            size,
        ),
{
    reveal(rest_of);
    let src = stream(head, tokens, ending, spare) + rest;
    let events = stream_events(head, Seq::empty(), 0, tokens, ending);
    let (code, tail) = encoded(0xFFFF_FFFF, first_model(), events, spare);
    let c = lz::coder_start(src);
    lemma_encoded_bound(0xFFFF_FFFF, first_model(), events, spare);
    util::law_be_u32_round_trip(code as u32);
    let word = util::be_bytes_u32(code as u32);
    assert(src.skip(1) =~= word + (tail + rest));
    assert(src.skip(1).take(4) =~= word);
    assert(c.code == code);
    assert(c.model =~= first_model());
    assert(lies(src, 5, tail)) by {
        assert forall|k: int| 0 <= k < tail.len() implies #[trigger] src[5 + k] == tail[k] by {}
    }
    lemma_encoded_follows(src, c, events, spare);
    lemma_stream_read(src, size, c, Seq::empty(), 0, tokens, ending);
}

/// Whether a decision is one that any interval has room for.
spec fn is_plain(e: Event) -> bool {
    match e {
        Event::Bit { at, bit } => 0 <= at < 0xCA8 && bit <= 1,
        Event::Even { count, value } => count <= 8 && value < two_to(count),
    }
}

spec fn all_plain(events: Seq<Event>) -> bool {
    forall|k: int| 0 <= k < events.len() ==> is_plain(#[trigger] events[k])
}

proof fn lemma_plain_append(a: Seq<Event>, b: Seq<Event>)
    requires
        all_plain(a),
        all_plain(b),
    ensures
        all_plain(a + b),
{
    assert forall|k: int| 0 <= k < (a + b).len() implies is_plain(#[trigger] (a + b)[k]) by {
        if k < a.len() {
            assert(is_plain(a[k]));
        } else {
            assert(is_plain(b[k - a.len()]));
        }
    }
}

proof fn lemma_halved_wide(range: nat, count: nat)
    requires
        range >= 0x1_0000 * two_to(count),
    ensures
        0x1_0000 <= halved(range, count) <= range,
    decreases count,
{
    if count > 0 {
        lemma_halved_wide(range / 2, (count - 1) as nat);
    }
}

proof fn lemma_plain_codable(range: nat, model: Seq<u8>, events: Seq<Event>)
    requires
        0x1_0000 <= range,
        model.len() >= 0xCA8,
        forall|k: int| 0 <= k < 0xCA8 ==> #[trigger] model[k] > 0,
        all_plain(events),
    ensures
        codable(range, model, events, 0),
    decreases events.len(),
{
    if events.len() > 0 {
        let r = if range < 0x100_0000 {
            range * 256
        } else {
            range
        };
        let rest = events.skip(1);
        assert(is_plain(events[0]));
        assert(all_plain(rest)) by {
            assert forall|k: int| 0 <= k < rest.len() implies is_plain(#[trigger] rest[k]) by {
                assert(is_plain(events[k + 1]));
            }
        }
        match events[0] {
            Event::Bit { at, bit } => {
                let p = model[at] as nat;
                let unit = r / 256;
                let ones = unit * p;
                assert(unit <= ones <= unit * 255) by (nonlinear_arith)
                    requires
                        0 < p <= 255,
                        ones == unit * p,
                ;
                lemma_plain_codable(
                    if bit == 1 {
                        ones
                    } else {
                        (r - ones) as nat
                    },
                    model.update(at, (p - p / 8 + 31 * bit) as u8),
                    rest,
                );
            },
            Event::Even { count, value } => {
                lemma_two_to_32();
                lemma_two_to_grows(count, 8);
                lemma_halved_wide(r, count);
                lemma_plain_codable(halved(r, count), model, rest);
            },
        }
    }
}

proof fn lemma_tree_plain(base: int, stride: int, target: nat)
    requires
        target >= 1,
        stride >= 1,
        base + stride >= 0,
        base + stride * (target / 2) < 0xCA8,
    ensures
        all_plain(tree(base, stride, target)),
    decreases target,
{
    if target > 1 {
        let q = target / 2;
        assert(stride * (q / 2) <= stride * q && stride <= stride * q) by (nonlinear_arith)
            requires
                stride >= 1,
                q >= 1,
        ;
        lemma_tree_plain(base, stride, q);
    }
}

proof fn lemma_number_plain(ptr: int, high: int, step: int, width: nat, value: nat)
    requires
        0 <= ptr,
        0 <= high,
        0 <= step,
        ptr + high < 0xCA8,
        ptr + 2 * step < 0xCA8,
        width <= 12,
    ensures
        all_plain(number_events(ptr, high, step, width, value)),
{
    let top = top_events(ptr + high, width, value);
    let middle = middle_events(width, value);
    let low = low_events(ptr, step, width, value);
    assert(number_events(ptr, high, step, width, value) == top + middle + low);
    assert(all_plain(middle)) by {
        if width >= 5 {
            lemma_two_to((width - 4) as nat);
            vstd::arithmetic::div_mod::lemma_mod_bound(
                (value / 8) as int,
                two_to((width - 4) as nat) as int,
            );
        }
    }
    lemma_plain_append(top, middle);
    lemma_plain_append(top + middle, low);
}

proof fn lemma_length_plain(out: Seq<u8>, offset: nat, length: nat)
    requires
        offset <= 7,
        2 <= length <= 256,
    ensures
        all_plain(length_events(out, offset, length)),
{
    let class = length_class(length);
    lemma_length_class(length);
    let digits = unary(offset, class);
    assert(all_plain(digits));
    if class < 0 {
        assert(length_events(out, offset, length) == digits);
    } else {
        let ptr = 0xBA8 + 32 * class + 8 * ((out.len() * two_to(class as nat)) % 4) as int + offset;
        let number = number_events(ptr, 0x18, 8, class as nat, (length - 1) as nat);
        lemma_phase(out.len(), class as nat);
        lemma_number_plain(ptr, 0x18, 8, class as nat, (length - 1) as nat);
        lemma_plain_append(digits, number);
        assert(length_events(out, offset, length) == digits + number);
    }
}

proof fn lemma_distance_plain(distance: nat, length: nat)
    requires
        2 <= length <= 255,
        1 <= distance < 0x4000,
    ensures
        all_plain(distance_events(distance, length)),
{
    let class = top_bit(distance);
    lemma_length_class(length);
    lemma_two_to_32();
    reveal_with_fuel(two_to, 7);
    lemma_two_to_add(8, 6);
    lemma_top_bit_below(distance, 14);
    let (base, first) = if length <= 3 {
        (0x7F1 + 0xF8 + length_class(length), 4nat)
    } else {
        (0x7F1 + length_class(length), 22nat)
    };
    let leaf = first + class / 2;
    let path = tree(base, 8, leaf);
    let last = seq![Event::Bit { at: base + 8 * leaf, bit: class % 2 }];
    lemma_tree_plain(base, 8, leaf);
    lemma_plain_append(path, last);
    assert(path.push(last[0]) =~= path + last);
    if class > 0 {
        let number = number_events(0x928 + 8 * (class - 1), 4, 1, (class - 1) as nat, distance);
        lemma_number_plain(0x928 + 8 * (class - 1), 4, 1, (class - 1) as nat, distance);
        lemma_plain_append(path + last, number);
    }
}

proof fn lemma_match_plain(head: u8, out: Seq<u8>, offset: nat, distance: nat, length: nat)
    requires
        offset <= 7,
        1 <= distance < 0x4000,
        2 <= length <= 255,
    ensures
        all_plain(token_events(head, out, offset, Token::Match { distance, length })),
{
    let one = seq![Event::Bit { at: (0xB68 + offset) as int, bit: 1 }];
    lemma_length_plain(out, offset, length);
    lemma_distance_plain(distance, length);
    lemma_plain_append(one, length_events(out, offset, length));
    lemma_plain_append(
        one + length_events(out, offset, length),
        distance_events(distance, length),
    );
}

proof fn lemma_stream_plain(
    head: u8,
    out: Seq<u8>,
    offset: nat,
    tokens: Seq<Token>,
    ending: Ending,
)
    requires
        offset <= 7,
        all_valid(out, tokens),
        ending matches Ending::Stray { distance, length } ==> 1 <= distance < 0x4000 && 2 <= length
            <= 255,
        forall|k: int|
            0 <= k < tokens.len() ==> (#[trigger] tokens[k] matches Token::Match { distance, .. }
                ==> distance < 0x4000),
    ensures
        all_plain(stream_events(head, out, offset, tokens, ending)),
    decreases tokens.len(),
{
    let start = (0xB68 + offset) as int;
    if tokens.len() > 0 {
        let token = tokens[0];
        let next = written(out, token);
        let o = next_offset(out, offset, token);
        let rest = tokens.skip(1);
        assert forall|k: int| 0 <= k < rest.len() implies (#[trigger] rest[k] matches Token::Match {
            distance,
            ..
        } ==> distance < 0x4000) by {
            assert(rest[k] == tokens[k + 1]);
        }
        lemma_stream_plain(head, next, o, rest, ending);
        match token {
            Token::Literal { byte } => {
                lemma_literal_group(out, head);
                let base = lz::literal_base(out, head);
                let one = seq![Event::Bit { at: start, bit: 0 }];
                lemma_tree_plain(base, 1, 256 + byte as nat);
                lemma_plain_append(one, tree(base, 1, 256 + byte as nat));
            },
            Token::Match { distance, length } => {
                lemma_match_plain(head, out, offset, distance, length);
            },
        }
        lemma_plain_append(
            token_events(head, out, offset, token),
            stream_events(head, next, o, rest, ending),
        );
    } else {
        let one = seq![Event::Bit { at: start, bit: 1 }];
        match ending {
            Ending::Mark => {
                lemma_length_plain(out, offset, 256);
                lemma_plain_append(one, length_events(out, offset, 256));
            },
            Ending::Full => {},
            Ending::Stray { distance, length } => {
                lemma_match_plain(head, out, offset, distance, length);
            },
        }
    }
}

/// Every stream of valid pieces whose matches reach back less than 2^14 bytes can
/// be encoded.
pub proof fn law_near_matches_codable(head: u8, tokens: Seq<Token>, ending: Ending)
    requires
        all_valid(Seq::empty(), tokens),
        ending matches Ending::Stray { distance, length } ==> 1 <= distance < 0x4000 && 2 <= length
            <= 255,
        forall|k: int|
            0 <= k < tokens.len() ==> (#[trigger] tokens[k] matches Token::Match { distance, .. }
                ==> distance < 0x4000),
    ensures
        stream_codable(head, tokens, ending, 0),
{
    lemma_stream_plain(head, Seq::empty(), 0, tokens, ending);
    lemma_plain_codable(
        0xFFFF_FFFF,
        first_model(),
        stream_events(head, Seq::empty(), 0, tokens, ending),
    );
}

proof fn lemma_appended_range(src: Seq<u8>, s: Option<(Coder, nat)>, at: int, low: nat)
    requires
        low <= 0x4000_0000,
        s matches Some((_, value)) ==> low <= value < 2 * low,
    ensures
        lz::appended_bit(src, s, at) matches Some((_, value)) ==> 2 * low <= value < 4 * low,
{
    reveal(lz::bit_decoded);
}

/// A number of some width lies between the two powers of two that the width
/// stands for, whatever the stream holds.
pub proof fn law_number_width(src: Seq<u8>, c: Coder, ptr: int, high: int, step: int, width: nat)
    requires
        width <= 30,
    ensures
        lz::number_decoded(src, c, ptr, high, step, width) matches Some((_, value)) ==> two_to(
            width + 1,
        ) <= value < two_to(width + 2),
{
    reveal(lz::number_decoded);
    reveal_with_fuel(two_to, 7);
    lemma_two_to_32();
    lemma_two_to_grows(width + 2, 32);
    lemma_two_to(width);
    lemma_two_to(width + 1);
    let at = ptr + high;
    let one = Some((c, 1nat));
    lemma_appended_range(src, one, at, 1);
    let two = lz::appended_bit(src, lz::appended_bit(src, one, at), at);
    lemma_appended_range(src, lz::appended_bit(src, one, at), at, 2);
    let top = lz::high_bits_decoded(src, c, at, width);
    let low: nat = if width >= 3 {
        two_to((width - 2) as nat)
    } else {
        1
    };
    if width >= 5 {
        let count = (width - 4) as nat;
        lemma_two_to_add(2, count);
        lemma_two_to_add(3, count);
        lemma_two_to_grows(count + 3, 32);
        if let Some((d, value)) = two {
            if let Some(w) = lz::widened(src, d) {
                let t = two_to(count);
                assert(4 * t <= value * t && (value + 1) * t <= 8 * t) by (nonlinear_arith)
                    requires
                        4 <= value < 8,
                ;
                law_even_bits_append(w, value, count);
            }
        }
    }
    if width >= 3 {
        lemma_two_to((width - 2) as nat);
        lemma_two_to((width - 1) as nat);
    }
    assert(top matches Some((_, value)) ==> low <= value < 2 * low);
    let a = lz::appended_bit(src, top, ptr);
    lemma_appended_range(src, top, ptr, low);
    if width >= 1 {
        lemma_appended_range(src, a, ptr + step, 2 * low);
        if width >= 2 {
            lemma_appended_range(
                src,
                lz::appended_bit(src, a, ptr + step),
                ptr + 2 * step,
                4 * low,
            );
        }
    }
}

/// Whether the decoder runs out of bytes while it reads some decisions.
spec fn dry(src: Seq<u8>, c: Coder, events: Seq<Event>) -> bool
    decreases events.len(),
{
    events.len() > 0 && match events[0] {
        Event::Bit { at, bit } => match lz::bit_decoded(src, c, at) {
            None => true,
            Some((d, b)) => b == bit && dry(src, d, events.skip(1)),
        },
        Event::Even { count, value } => match lz::widened(src, c) {
            None => true,
            Some(w) => {
                let (d, v) = lz::even_bits_decoded(w, 0, count);
                v == value && dry(src, d, events.skip(1))
            },
        },
    }
}

proof fn lemma_dry_append(src: Seq<u8>, c: Coder, a: Seq<Event>, b: Seq<Event>)
    ensures
        dry(src, c, a + b) <==> dry(src, c, a) || (follows(src, c, a) matches Some(d) && dry(
            src,
            d,
            b,
        )),
    decreases a.len(),
{
    if a.len() == 0 {
        assert(a + b =~= b);
    } else {
        assert((a + b).skip(1) =~= a.skip(1) + b);
        assert((a + b)[0] == a[0]);
        match a[0] {
            Event::Bit { at, bit } => {
                if let Some((d, _)) = lz::bit_decoded(src, c, at) {
                    lemma_dry_append(src, d, a.skip(1), b);
                }
            },
            Event::Even { count, value } => {
                if let Some(w) = lz::widened(src, c) {
                    lemma_dry_append(src, lz::even_bits_decoded(w, 0, count).0, a.skip(1), b);
                }
            },
        }
    }
}

proof fn lemma_dry_one(src: Seq<u8>, c: Coder, at: int, bit: nat)
    ensures
        dry(src, c, seq![Event::Bit { at, bit }]) ==> lz::bit_decoded(src, c, at) is None,
{
    let one = seq![Event::Bit { at, bit }];
    assert(one.skip(1).len() == 0);
    assert(one[0] == Event::Bit { at, bit });
    if let Some((d, b)) = lz::bit_decoded(src, c, at) {
        assert(!dry(src, d, one.skip(1)));
    }
}

/// Whether the bytes of a stream from some place on are a start of `tail` that
/// ends before it does.
spec fn starts_only(src: Seq<u8>, at: nat, tail: Seq<u8>) -> bool {
    &&& at <= src.len() < at + tail.len()
    &&& forall|k: int| 0 <= k < src.len() - at ==> #[trigger] src[at + k] == tail[k]
}

proof fn lemma_starts_rest(src: Seq<u8>, at: nat, tail: Seq<u8>)
    requires
        starts_only(src, at, tail),
        at < src.len(),
    ensures
        starts_only(src, at + 1, tail.skip(1)),
        src[at as int] == tail[0],
{
    assert(src[at + 0int] == tail[0]);
    assert forall|k: int| 0 <= k < src.len() - (at + 1) implies #[trigger] src[(at + 1) as nat + k]
        == tail.skip(1)[k] by {
        assert(src[at + (k + 1)] == tail[k + 1]);
    }
}

proof fn lemma_encoded_dry(src: Seq<u8>, c: Coder, events: Seq<Event>, spare: nat)
    requires
        0 < c.range <= 0xFFFF_FFFF,
        codable(c.range, c.model, events, spare),
        c.code == encoded(c.range, c.model, events, spare).0,
        starts_only(src, c.pos + 5, encoded(c.range, c.model, events, spare).1),
    ensures
        dry(src, c, events),
    decreases events.len(),
{
    if events.len() > 0 {
        let narrow = c.range < 0x100_0000;
        let rest = events.skip(1);
        let (range, model, low) = narrowed(wide(c.range), c.model, events[0]);
        let (code, tail) = encoded(range, model, rest, spare);
        lemma_encoded_step(c.range, c.model, events, spare);
        lemma_first_codable(c.range, c.model, events, spare);
        let full = encoded(c.range, c.model, events, spare);
        if narrow && c.pos + 5 >= src.len() {
            assert(lz::widened(src, c) is None);
            reveal(lz::bit_decoded);
        } else {
            if narrow {
                lemma_starts_rest(src, c.pos + 5, full.1);
                assert(full.1.skip(1) =~= tail);
            }
            let w = Coder {
                pos: if narrow {
                    c.pos + 1
                } else {
                    c.pos
                },
                range: wide(c.range),
                code: code + low,
                model: c.model,
            };
            assert(lz::widened(src, c) == Some(w));
            lemma_decision_read(src, c, events[0], code);
            lemma_encoded_dry(src, Coder { pos: w.pos, range, code, model }, rest, spare);
        }
    }
}

proof fn lemma_literal_dry(src: Seq<u8>, c: Coder, base: int, target: nat)
    requires
        1 <= target < 512,
        dry(src, c, tree(base, 1, target)),
    ensures
        lz::literal_decoded(src, c, base, 1) is None,
    decreases target,
{
    if target > 1 {
        let q = target / 2;
        let last = Event::Bit { at: base + 1 * q, bit: target % 2 };
        assert(tree(base, 1, target) =~= tree(base, 1, q) + seq![last]);
        lemma_dry_append(src, c, tree(base, 1, q), seq![last]);
        if dry(src, c, tree(base, 1, q)) {
            lemma_literal_dry(src, c, base, q);
        } else {
            let d = follows(src, c, tree(base, 1, q))->Some_0;
            lemma_dry_one(src, d, base + 1 * q, target % 2);
            lemma_literal_read(src, c, base, q);
            assert(base + 1 * q == base + q);
        }
    }
}

proof fn lemma_class_dry(src: Seq<u8>, c: Coder, base: int, limit: int, target: nat)
    requires
        target >= 1,
        target > 1 ==> 16 * (target / 2) < limit,
        dry(src, c, tree(base, 8, target)),
    ensures
        lz::class_decoded(src, c, base, limit, 1) is None,
    decreases target,
{
    if target > 1 {
        let q = target / 2;
        let last = Event::Bit { at: base + 8 * q, bit: target % 2 };
        assert(tree(base, 8, target) =~= tree(base, 8, q) + seq![last]);
        lemma_dry_append(src, c, tree(base, 8, q), seq![last]);
        if dry(src, c, tree(base, 8, q)) {
            lemma_class_dry(src, c, base, limit, q);
        } else {
            let d = follows(src, c, tree(base, 8, q))->Some_0;
            lemma_dry_one(src, d, base + 8 * q, target % 2);
            lemma_class_read(src, c, base, limit, q);
        }
    }
}

proof fn lemma_unary_dry(src: Seq<u8>, c: Coder, offset: nat, class: int, j: int)
    requires
        -1 <= class <= 6,
        0 <= j < unary(offset, class).len(),
        dry(src, c, unary(offset, class).skip(j)),
    ensures
        lz::ones_decoded(src, c, 0xB68 + offset + 8 * j, j - 1) is None,
    decreases unary(offset, class).len() - j,
{
    let all = unary(offset, class);
    let bit: nat = if j <= class {
        1
    } else {
        0
    };
    let at = 0xB68 + offset + 8 * (j + 1);
    let one = seq![Event::Bit { at, bit }];
    assert(all.skip(j) =~= one + all.skip(j + 1));
    lemma_dry_append(src, c, one, all.skip(j + 1));
    assert(at == 0xB68 + offset + 8 * j + 8);
    if dry(src, c, one) {
        lemma_dry_one(src, c, at, bit);
    } else {
        let d = follows(src, c, one)->Some_0;
        lemma_follows_one(src, c, at, bit);
        if j + 1 < all.len() {
            lemma_unary_dry(src, d, offset, class, j + 1);
            assert(0xB68 + offset + 8 * (j + 1) == at);
        } else {
            assert(all.skip(j + 1).len() == 0);
        }
    }
}

#[verifier::rlimit(40)]
proof fn lemma_high_dry(src: Seq<u8>, c: Coder, at: int, width: nat, value: nat)
    requires
        width <= 30,
        two_to(width + 1) <= value < two_to(width + 2),
        dry(src, c, top_events(at, width, value) + middle_events(width, value)),
    ensures
        lz::high_bits_decoded(src, c, at, width) is None,
{
    let top = top_events(at, width, value);
    let middle = middle_events(width, value);
    lemma_dry_append(src, c, top, middle);
    if width < 3 {
        assert(top + middle =~= Seq::empty());
    } else if width == 3 {
        lemma_dry_one(src, c, at, bit_of(value, 3));
        assert(middle.len() == 0);
    } else {
        let a = seq![Event::Bit { at, bit: bit_of(value, width) }];
        let b = seq![Event::Bit { at, bit: bit_of(value, (width - 1) as nat) }];
        assert(top =~= a + b);
        lemma_dry_append(src, c, a, b);
        lemma_follows_append(src, c, a, b);
        lemma_dry_one(src, c, at, bit_of(value, width));
        lemma_follows_one(src, c, at, bit_of(value, width));
        if let Some(e) = follows(src, c, a) {
            lemma_dry_one(src, e, at, bit_of(value, (width - 1) as nat));
            lemma_follows_one(src, e, at, bit_of(value, (width - 1) as nat));
        }
        if width == 4 {
            assert(middle.len() == 0);
        } else if !dry(src, c, top) {
            let count = (width - 4) as nat;
            let d = follows(src, c, top)->Some_0;
            lemma_two_to(count);
            let even = Event::Even { count, value: value / 8 % two_to(count) };
            assert(middle[0] == even);
            assert(middle.skip(1).len() == 0);
            if let Some(w) = lz::widened(src, d) {
                assert(!dry(src, lz::even_bits_decoded(w, 0, count).0, middle.skip(1)));
            }
        }
    }
}

#[verifier::rlimit(40)]
proof fn lemma_number_dry(
    src: Seq<u8>,
    c: Coder,
    ptr: int,
    high: int,
    step: int,
    width: nat,
    value: nat,
)
    requires
        width <= 30,
        two_to(width + 1) <= value < two_to(width + 2),
        dry(src, c, number_events(ptr, high, step, width, value)),
    ensures
        lz::number_decoded(src, c, ptr, high, step, width) is None,
{
    reveal(lz::number_decoded);
    let top = top_events(ptr + high, width, value) + middle_events(width, value);
    let low = low_events(ptr, step, width, value);
    assert(number_events(ptr, high, step, width, value) == top + low);
    lemma_dry_append(src, c, top, low);
    if dry(src, c, top) {
        lemma_high_dry(src, c, ptr + high, width, value);
    } else {
        let d = follows(src, c, top)->Some_0;
        lemma_high_read(src, c, ptr + high, width, value);
        if width >= 1 {
            let first = if width >= 2 {
                2nat
            } else {
                1nat
            };
            let a = seq![Event::Bit { at: ptr, bit: bit_of(value, first) }];
            lemma_dry_one(src, d, ptr, bit_of(value, first));
            lemma_follows_one(src, d, ptr, bit_of(value, first));
            if width == 1 {
                let b = seq![Event::Bit { at: ptr + step, bit: bit_of(value, 0) }];
                assert(low =~= a + b);
                lemma_dry_append(src, d, a, b);
                if let Some(e) = follows(src, d, a) {
                    lemma_dry_one(src, e, ptr + step, bit_of(value, 0));
                }
            } else {
                let b = seq![Event::Bit { at: ptr + step, bit: bit_of(value, 1) }];
                let z = seq![Event::Bit { at: ptr + 2 * step, bit: bit_of(value, 0) }];
                assert(low =~= a + (b + z));
                lemma_dry_append(src, d, a, b + z);
                if let Some(e) = follows(src, d, a) {
                    lemma_dry_append(src, e, b, z);
                    lemma_dry_one(src, e, ptr + step, bit_of(value, 1));
                    lemma_follows_one(src, e, ptr + step, bit_of(value, 1));
                    if let Some(f) = follows(src, e, b) {
                        lemma_dry_one(src, f, ptr + 2 * step, bit_of(value, 0));
                    }
                }
            }
        } else {
            lemma_dry_one(src, d, ptr, bit_of(value, 0));
        }
    }
}

#[verifier::rlimit(40)]
proof fn lemma_length_dry(src: Seq<u8>, c: Coder, out: Seq<u8>, offset: nat, length: nat)
    requires
        2 <= length <= 256,
        dry(src, c, length_events(out, offset, length)),
    ensures
        match lz::ones_decoded(src, c, (0xB68 + offset) as int, -1) {
            None => true,
            Some((d, class)) => lz::length_decoded(src, d, out.len(), offset, class) is None,
        },
{
    reveal(lz::length_decoded);
    let class = length_class(length);
    let digits = unary(offset, class);
    lemma_length_class(length);
    assert(digits.skip(0) =~= digits);
    if class < 0 {
        assert(length_events(out, offset, length) == digits);
        lemma_unary_dry(src, c, offset, class, 0);
    } else {
        lemma_phase(out.len(), class as nat);
        let ptr = 0xBA8 + 32 * class + 8 * ((out.len() * two_to(class as nat)) % 4) as int + offset;
        let number = number_events(ptr, 0x18, 8, class as nat, (length - 1) as nat);
        assert(length_events(out, offset, length) == digits + number);
        lemma_dry_append(src, c, digits, number);
        if dry(src, c, digits) {
            lemma_unary_dry(src, c, offset, class, 0);
        } else {
            let d = follows(src, c, digits)->Some_0;
            lemma_unary_read(src, c, offset, class, 0);
            lemma_number_dry(src, d, ptr, 0x18, 8, class as nat, (length - 1) as nat);
        }
    }
}

#[verifier::rlimit(40)]
proof fn lemma_distance_dry(src: Seq<u8>, c: Coder, distance: nat, length: nat)
    requires
        2 <= length <= 255,
        1 <= distance < 0x1_0000_0000,
        length <= 3 ==> distance <= 255,
        dry(src, c, distance_events(distance, length)),
    ensures
        lz::distance_decoded(src, c, length_class(length), (length - 1) as nat) is None,
{
    reveal(lz::distance_decoded);
    let class = top_bit(distance);
    law_top_bit(distance);
    lemma_two_to_32();
    lemma_two_to_add(2, 3);
    lemma_top_bit_below(distance, 32);
    let (base, first) = if length <= 3 {
        lemma_top_bit_below(distance, 8);
        (0x7F1 + 0xF8 + length_class(length), 4nat)
    } else {
        (0x7F1 + length_class(length), 22nat)
    };
    let limit = 16 * first;
    let leaf = first + class / 2;
    let path = tree(base, 8, leaf);
    let last = seq![Event::Bit { at: base + 8 * leaf, bit: class % 2 }];
    let number = if class == 0 {
        Seq::empty()
    } else {
        number_events(0x928 + 8 * (class - 1), 4, 1, (class - 1) as nat, distance)
    };
    assert(distance_events(distance, length) =~= path + (last + number));
    lemma_dry_append(src, c, path, last + number);
    if dry(src, c, path) {
        lemma_class_dry(src, c, base, limit as int, leaf);
    } else {
        let d = follows(src, c, path)->Some_0;
        lemma_class_read(src, c, base, limit as int, leaf);
        lemma_dry_append(src, d, last, number);
        lemma_dry_one(src, d, base + 8 * leaf, class % 2);
        lemma_follows_one(src, d, base + 8 * leaf, class % 2);
        if !dry(src, d, last) {
            let e = follows(src, d, last)->Some_0;
            assert(lz::class_decoded(src, c, base, limit as int, 1) == Some(
                (e, 16 * leaf - limit, class % 2),
            ));
            let over = 16 * leaf - limit;
            let at = if class % 2 == 0 {
                over - 8
            } else {
                over
            };
            assert(at == 8 * (class - 1));
            lemma_number_dry(src, e, 0x928 + at, 4, 1, (class - 1) as nat, distance);
        }
    }
}

#[verifier::rlimit(40)]
proof fn lemma_match_dry(
    src: Seq<u8>,
    end: nat,
    c: Coder,
    out: Seq<u8>,
    offset: nat,
    distance: nat,
    length: nat,
)
    requires
        2 <= length <= 255,
        1 <= distance < 0x1_0000_0000,
        length <= 3 ==> distance <= 255,
        dry(src, c, token_events(src[0], out, offset, Token::Match { distance, length })),
    ensures
        rest_of(src, end, c, out, offset) == Err::<Seq<u8>, Error>(Error::StreamEnded),
{
    reveal(rest_of);
    let start = (0xB68 + offset) as int;
    let one = seq![Event::Bit { at: start, bit: 1 }];
    let l = length_events(out, offset, length);
    let e = distance_events(distance, length);
    assert(token_events(src[0], out, offset, Token::Match { distance, length }) =~= one + (l + e));
    lemma_dry_append(src, c, one, l + e);
    lemma_dry_one(src, c, start, 1);
    lemma_follows_one(src, c, start, 1);
    lemma_length_class(length);
    if !dry(src, c, one) {
        let c1 = follows(src, c, one)->Some_0;
        lemma_dry_append(src, c1, l, e);
        if dry(src, c1, l) {
            lemma_length_dry(src, c1, out, offset, length);
        } else {
            let c2 = follows(src, c1, l)->Some_0;
            lemma_length_read(src, c1, out, offset, length);
            lemma_distance_dry(src, c2, distance, length);
        }
    }
}

proof fn lemma_literal_token_dry(
    src: Seq<u8>,
    end: nat,
    c: Coder,
    out: Seq<u8>,
    offset: nat,
    byte: u8,
)
    requires
        out.len() < end,
        dry(src, c, token_events(src[0], out, offset, Token::Literal { byte })),
    ensures
        rest_of(src, end, c, out, offset) == Err::<Seq<u8>, Error>(Error::StreamEnded),
{
    reveal(rest_of);
    let start = (0xB68 + offset) as int;
    lemma_literal_group(out, src[0]);
    let base = lz::literal_base(out, src[0]);
    let target = 256 + byte as nat;
    let one = seq![Event::Bit { at: start, bit: 0 }];
    let path = tree(base, 1, target);
    assert(token_events(src[0], out, offset, Token::Literal { byte }) == one + path);
    lemma_dry_append(src, c, one, path);
    lemma_dry_one(src, c, start, 0);
    lemma_follows_one(src, c, start, 0);
    if !dry(src, c, one) {
        let c1 = follows(src, c, one)->Some_0;
        lemma_literal_dry(src, c1, base, target);
    }
}

proof fn lemma_end_dry(src: Seq<u8>, end: nat, c: Coder, out: Seq<u8>, offset: nat, ending: Ending)
    requires
        can_end(out, ending, end),
        dry(src, c, stream_events(src[0], out, offset, Seq::empty(), ending)),
    ensures
        rest_of(src, end, c, out, offset) == Err::<Seq<u8>, Error>(Error::StreamEnded),
{
    reveal(rest_of);
    let start = (0xB68 + offset) as int;
    match ending {
        Ending::Mark => {
            let one = seq![Event::Bit { at: start, bit: 1 }];
            let l = length_events(out, offset, 256);
            lemma_dry_append(src, c, one, l);
            lemma_dry_one(src, c, start, 1);
            lemma_follows_one(src, c, start, 1);
            if !dry(src, c, one) {
                let c1 = follows(src, c, one)->Some_0;
                lemma_length_dry(src, c1, out, offset, 256);
            }
        },
        Ending::Full => {
            lemma_dry_one(src, c, start, 0);
        },
        Ending::Stray { distance, length } => {
            lemma_match_dry(src, end, c, out, offset, distance, length);
        },
    }
}

proof fn lemma_stream_dry(
    src: Seq<u8>,
    end: nat,
    c: Coder,
    out: Seq<u8>,
    offset: nat,
    tokens: Seq<Token>,
    ending: Ending,
)
    requires
        all_valid(out, tokens),
        all_written(out, tokens).len() <= end,
        can_end(all_written(out, tokens), ending, end),
        dry(src, c, stream_events(src[0], out, offset, tokens, ending)),
    ensures
        rest_of(src, end, c, out, offset) == Err::<Seq<u8>, Error>(Error::StreamEnded),
    decreases tokens.len(),
{
    if tokens.len() > 0 {
        let token = tokens[0];
        let next = written(out, token);
        let o = next_offset(out, offset, token);
        let events = token_events(src[0], out, offset, token);
        let rest = stream_events(src[0], next, o, tokens.skip(1), ending);
        lemma_dry_append(src, c, events, rest);
        lemma_written_grows(next, tokens.skip(1));
        if dry(src, c, events) {
            match token {
                Token::Literal { byte } => {
                    lemma_literal_token_dry(src, end, c, out, offset, byte);
                },
                Token::Match { distance, length } => {
                    lemma_match_dry(src, end, c, out, offset, distance, length);
                },
            }
        } else {
            let d = follows(src, c, events)->Some_0;
            match token {
                Token::Literal { byte } => {
                    lemma_literal_step(src, end, c, out, offset, byte);
                },
                Token::Match { distance, length } => {
                    lemma_match_step(src, end, c, out, offset, distance, length);
                },
            }
            lemma_stream_dry(src, end, d, next, o, tokens.skip(1), ending);
        }
    } else {
        assert(tokens =~= Seq::empty());
        lemma_end_dry(src, end, c, out, offset, ending);
    }
}

/// A stream needs all its bytes: cut anywhere behind the first five, it is refused
/// as ended.
pub proof fn law_cut_stream_refused(
    head: u8,
    tokens: Seq<Token>,
    ending: Ending,
    spare: nat,
    kept: nat,
    size: nat,
)
    requires
        head < 0x80,
        all_valid(Seq::empty(), tokens),
        stream_codable(head, tokens, ending, spare),
        all_written(Seq::empty(), tokens).len() <= size,
        can_end(all_written(Seq::empty(), tokens), ending, size),
        5 <= kept < stream(head, tokens, ending, spare).len(),
    ensures
        lz::decompressed(stream(head, tokens, ending, spare).take(kept as int), size) == Err::<
            Seq<u8>,
            Error,
        >(Error::StreamEnded),
{
    reveal(rest_of);
    let whole = stream(head, tokens, ending, spare);
    let src = whole.take(kept as int);
    let events = stream_events(head, Seq::empty(), 0, tokens, ending);
    let (code, tail) = encoded(0xFFFF_FFFF, first_model(), events, spare);
    let c = lz::coder_start(src);
    lemma_encoded_bound(0xFFFF_FFFF, first_model(), events, spare);
    util::law_be_u32_round_trip(code as u32);
    let word = util::be_bytes_u32(code as u32);
    assert(src.skip(1).take(4) =~= word);
    assert(util::be_u32(src.skip(1)) == util::be_u32(word));
    assert(c.code == code);
    assert(c.model =~= first_model());
    assert(starts_only(src, 5, tail)) by {
        assert forall|k: int| 0 <= k < src.len() - 5 implies #[trigger] src[5 + k] == tail[k] by {}
    }
    lemma_encoded_dry(src, c, events, spare);
    lemma_stream_dry(src, size, c, Seq::empty(), 0, tokens, ending);
}

} // verus!
