//! The decompressor of compressed blocks: an LZ77 scheme whose literals,
//! lengths and distances are read through an adaptive binary range decoder.
//!
//! The first byte of a stream either marks a stored block (top bit set) or is
//! the shift that picks the literal contexts. The next four bytes start the
//! range decoder, or give the length of the stored block.

use vstd::prelude::*;

use crate::error::Error;
use crate::util;
use crate::util::read_be_u32;

verus! {

/// How many adaptive probabilities the decoder keeps.
pub const MODEL_LEN: usize = 0xCC8;

/// How many of them start at one half; the others start at zero.
pub const MODEL_SET: usize = 0xCA8;

/// The decoder between two steps: how many bytes it took after the first
/// five, the width of the current interval, the position inside it, and the
/// probability, in 256ths, that each context's next bit is one.
#[verifier::ext_equal]
pub struct Coder {
    /// Bytes taken after the first five.
    pub pos: nat,
    /// Width of the interval.
    pub range: nat,
    /// Position inside the interval.
    pub code: nat,
    /// The adaptive probabilities.
    pub model: Seq<u8>,
}

/// The decoder at the start of a stream.
pub open spec fn coder_start(src: Seq<u8>) -> Coder {
    Coder {
        pos: 0,
        range: 0xFFFF_FFFF,
        code: util::be_u32(src.skip(1)) as nat,
        model: Seq::new(MODEL_LEN as nat, |i: int| if i < MODEL_SET { 0x80u8 } else { 0u8 }),
    }
}

/// Widens an interval that fell below 2^24 by one byte of the stream. None
/// where the stream has no byte left.
pub open spec fn widened(src: Seq<u8>, c: Coder) -> Option<Coder> {
    if c.range >= 0x100_0000 {
        Some(c)
    } else if c.pos + 5 >= src.len() {
        None
    } else {
        Some(
            Coder {
                pos: c.pos + 1,
                range: c.range * 0x100,
                code: (c.code * 0x100 + src[(c.pos + 5) as int]) as nat % 0x1_0000_0000,
                model: c.model,
            },
        )
    }
}

/// Reads one bit in the context `at`. The interval is split in proportion to
/// the context's probability, which then moves towards the bit that was read.
#[verifier::opaque]
pub open spec fn bit_decoded(src: Seq<u8>, c: Coder, at: int) -> Option<(Coder, nat)> {
    match widened(src, c) {
        None => None,
        Some(w) => {
            let p = w.model[at];
            let split = (w.range / 0x100) * (p as nat);
            let kept = p - p / 8;
            if w.code < split {
                Some(
                    (
                        Coder {
                            pos: w.pos,
                            range: split,
                            code: w.code,
                            model: w.model.update(at, (kept + 31) as u8),
                        },
                        1,
                    ),
                )
            } else {
                Some(
                    (
                        Coder {
                            pos: w.pos,
                            range: (w.range - split) as nat,
                            code: (w.code - split) as nat,
                            model: w.model.update(at, kept as u8),
                        },
                        0,
                    ),
                )
            }
        },
    }
}

/// A bit is zero or one. The context's probability moves by an eighth, and up
/// where the bit was one, without leaving its byte; no other context changes.
/// The position stays inside the interval. A value to which the bit is appended
/// doubles, and grows by the bit.
pub proof fn law_bit_decoded(src: Seq<u8>, c: Coder, at: int, value: nat)
    requires
        value < 0x8000_0000,
        0 <= at < c.model.len(),
        c.range <= 0xFFFF_FFFF,
        c.code < c.range,
    ensures
        bit_decoded(src, c, at) matches Some((d, bit)) ==> {
            &&& bit <= 1
            &&& d.model.len() == c.model.len()
            &&& d.model[at] == c.model[at] - c.model[at] / 8 + 31 * bit
            &&& forall|k: int|
                0 <= k < c.model.len() && k != at ==> #[trigger] d.model[k] == c.model[k]
            &&& d.code < d.range <= 0xFFFF_FFFF
            &&& appended_bit(src, Some((c, value)), at) == Some((d, 2 * value + bit))
        },
{
    reveal(bit_decoded);
    if let Some(w) = widened(src, c) {
        let unit = w.range / 0x100;
        let p = c.model[at] as nat;
        assert(0 <= unit * p <= unit * 0xFF) by (nonlinear_arith)
            requires
                0 <= p <= 0xFF,
        ;
    }
}

/// A 32-bit value with one more bit at its low end.
pub open spec fn with_bit(value: nat, bit: nat) -> nat {
    (2 * value + bit) % 0x1_0000_0000
}

/// Reads `count` equally likely bits, without widening the interval.
pub open spec fn even_bits_decoded(c: Coder, value: nat, count: nat) -> (Coder, nat)
    decreases count,
{
    if count == 0 {
        (c, value)
    } else {
        let half = c.range / 2;
        if c.code < half {
            even_bits_decoded(
                Coder { pos: c.pos, range: half, code: c.code, model: c.model },
                with_bit(value, 1),
                (count - 1) as nat,
            )
        } else {
            even_bits_decoded(
                Coder { pos: c.pos, range: half, code: (c.code - half) as nat, model: c.model },
                with_bit(value, 0),
                (count - 1) as nat,
            )
        }
    }
}

/// Reads one bit into a value.
pub open spec fn appended_bit(src: Seq<u8>, s: Option<(Coder, nat)>, at: int) -> Option<
    (Coder, nat),
> {
    match s {
        None => None,
        Some((c, value)) => match bit_decoded(src, c, at) {
            None => None,
            Some((d, bit)) => Some((d, with_bit(value, bit))),
        },
    }
}

/// Reads the high part of a number of `width + 1` bits below its leading one:
/// up to two bits in one context, and the rest equally likely.
pub open spec fn high_bits_decoded(src: Seq<u8>, c: Coder, at: int, width: nat) -> Option<
    (Coder, nat),
> {
    if width < 3 {
        Some((c, 1))
    } else if width == 3 {
        appended_bit(src, Some((c, 1)), at)
    } else {
        match appended_bit(src, appended_bit(src, Some((c, 1)), at), at) {
            None => None,
            Some((d, value)) => if width == 4 {
                Some((d, value))
            } else {
                match widened(src, d) {
                    None => None,
                    Some(w) => Some(even_bits_decoded(w, value, (width - 4) as nat)),
                }
            },
        }
    }
}

/// Reads a number of `width + 1` bits below its leading one. The high part is
/// read in the context `ptr + high`, the last up to three bits in the contexts
/// `ptr`, `ptr + step` and `ptr + 2 * step`.
#[verifier::opaque]
pub open spec fn number_decoded(
    src: Seq<u8>,
    c: Coder,
    ptr: int,
    high: int,
    step: int,
    width: nat,
) -> Option<(Coder, nat)> {
    let a = appended_bit(src, high_bits_decoded(src, c, ptr + high, width), ptr);
    let b = if width >= 1 {
        appended_bit(src, a, ptr + step)
    } else {
        a
    };
    if width >= 2 {
        appended_bit(src, b, ptr + 2 * step)
    } else {
        b
    }
}

/// Reads the bits of a literal below its leading one, each in the context
/// that the bits before it select.
pub open spec fn literal_decoded(src: Seq<u8>, c: Coder, base: int, value: nat) -> Option<
    (Coder, nat),
>
    decreases 512 - value,
{
    if value == 0 || value >= 256 {
        Some((c, value))
    } else {
        match bit_decoded(src, c, base + value) {
            None => None,
            Some((d, bit)) => {
                proof {
                    reveal(bit_decoded);
                }
                literal_decoded(src, d, base, 2 * value + bit)
            },
        }
    }
}

/// Reads ones in successive contexts, eight apart, until a zero or the
/// seventh one; `ones` is one less than the ones so far.
pub open spec fn ones_decoded(src: Seq<u8>, c: Coder, at: int, ones: int) -> Option<(Coder, int)>
    decreases 6 - ones,
{
    match bit_decoded(src, c, at + 8) {
        None => None,
        Some((d, bit)) => if bit == 0 {
            Some((d, ones))
        } else if ones + 1 >= 6 {
            Some((d, ones + 1))
        } else {
            ones_decoded(src, d, at + 8, ones + 1)
        },
    }
}

/// Reads the bits that select a distance class. Gives how far the class lies
/// past `limit`, in eights and doubled, and the last bit.
pub open spec fn class_decoded(
    src: Seq<u8>,
    c: Coder,
    base: int,
    limit: int,
    value: nat,
) -> Option<(Coder, int, nat)>
    decreases limit - value,
{
    match bit_decoded(src, c, base + 8 * value) {
        None => None,
        Some((d, bit)) => if 16 * value >= limit || value == 0 {
            Some((d, 16 * value - limit, bit))
        } else {
            proof {
                reveal(bit_decoded);
            }
            class_decoded(src, d, base, limit, 2 * value + bit)
        },
    }
}

/// The output with `n` more bytes, each the one `distance` before it.
pub open spec fn copied(out: Seq<u8>, distance: nat, n: nat) -> Seq<u8>
    decreases n,
{
    if n == 0 {
        out
    } else {
        copied(out.push(out[out.len() - distance]), distance, (n - 1) as nat)
    }
}

/// Copying adds exactly the bytes asked for.
pub proof fn lemma_copied_len(out: Seq<u8>, distance: nat, n: nat)
    ensures
        copied(out, distance, n).len() == out.len() + n,
    decreases n,
{
    if n > 0 {
        lemma_copied_len(out.push(out[out.len() - distance]), distance, (n - 1) as nat);
    }
}

/// The context before the first of a literal at the end of `out`: one of
/// eight groups, picked by the position, the last byte and the stream's shift.
/// Only the low five bits of the shift count.
pub open spec fn literal_base(out: Seq<u8>, head: u8) -> int {
    let last = if out.len() == 0 {
        0
    } else {
        out.last()
    };
    let mix = ((out.len() % 8) * 0x100 + last) as u32;
    ((mix >> ((head % 32) as u32)) % 8) * 0xFF - 1
}

/// The low two bits of `start` shifted left by `index`.
pub open spec fn phase(start: nat, index: int) -> int {
    if index == 0 {
        (start % 4) as int
    } else if index == 1 {
        ((start % 2) * 2) as int
    } else {
        0
    }
}

/// Reads the length of a match, one less than the number of bytes to copy;
/// 0xFF marks the end of the stream.
#[verifier::opaque]
pub open spec fn length_decoded(
    src: Seq<u8>,
    c: Coder,
    start: nat,
    offset: nat,
    index: int,
) -> Option<(Coder, nat)> {
    if index < 0 {
        Some((c, 1))
    } else {
        number_decoded(
            src,
            c,
            0xBA8 + index * 32 + phase(start, index) * 8 + offset,
            0x18,
            8,
            index as nat,
        )
    }
}

/// Reads the distance of a match, as 32 bits.
#[verifier::opaque]
pub open spec fn distance_decoded(src: Seq<u8>, c: Coder, index: int, length: nat) -> Option<
    (Coder, nat),
> {
    let (base, limit) = if length <= 2 {
        (0x8E9 + index, 0x40)
    } else {
        (0x7F1 + index, 0x160)
    };
    match class_decoded(src, c, base, limit, 1) {
        None => None,
        Some((d, over, bit)) => if over == 0 && bit == 0 {
            Some((d, 1))
        } else {
            let at = if bit == 0 {
                over - 8
            } else {
                over
            };
            number_decoded(src, d, 0x928 + at, 4, 1, (at / 8) as nat)
        },
    }
}

/// Decodes from the state after some output to the end of the stream.
/// `offset` says how recent the last match was.
pub open spec fn decoded_from(
    src: Seq<u8>,
    end: nat,
    c: Coder,
    out: Seq<u8>,
    offset: nat,
) -> Result<Seq<u8>, Error>
    decreases end - out.len(),
{
    match bit_decoded(src, c, (0xB68 + offset) as int) {
        None => Err(Error::StreamEnded),
        Some((c1, bit)) => if bit == 0 {
            if out.len() >= end {
                Ok(out)
            } else {
                match literal_decoded(src, c1, literal_base(out, src[0]), 1) {
                    None => Err(Error::StreamEnded),
                    Some((c2, value)) => decoded_from(
                        src,
                        end,
                        c2,
                        out.push((value % 0x100) as u8),
                        if offset > 0 {
                            (offset - 1) as nat
                        } else {
                            0
                        },
                    ),
                }
            }
        } else {
            match ones_decoded(src, c1, (0xB68 + offset) as int, -1) {
                None => Err(Error::StreamEnded),
                Some((c2, index)) => match length_decoded(src, c2, out.len(), offset, index) {
                    None => Err(Error::StreamEnded),
                    Some((c3, length)) => if index >= 0 && length == 0xFF {
                        Ok(out)
                    } else {
                        match distance_decoded(src, c3, index, length) {
                            None => Err(Error::StreamEnded),
                            Some((c4, distance)) => if distance == 0 || distance >= 0x8000_0000 {
                                Err(Error::InvalidBackReference)
                            } else if distance > out.len() {
                                Err(Error::LzUnderflow)
                            } else if out.len() + length + 1 > end {
                                Err(Error::LzOverflow)
                            } else {
                                proof {
                                    lemma_copied_len(out, distance, length + 1);
                                }
                                decoded_from(
                                    src,
                                    end,
                                    c4,
                                    copied(out, distance, length + 1),
                                    6 + (out.len() + length + 2) % 2,
                                )
                            },
                        }
                    },
                },
            }
        },
    }
}

/// What a stream of bytes decompresses to, into at most `size` bytes.
pub open spec fn decompressed(src: Seq<u8>, size: nat) -> Result<Seq<u8>, Error> {
    if src.len() < 5 {
        Err(Error::StreamTooShort)
    } else if src[0] >= 0x80 {
        let n = util::be_u32(src.skip(1));
        if n <= size && n + 5 <= src.len() {
            Ok(src.subrange(5, 5 + n))
        } else {
            Err(Error::InvalidStoredBlock)
        }
    } else {
        decoded_from(src, size, coder_start(src), Seq::empty(), 0)
    }
}

proof fn lemma_decoded_bound(src: Seq<u8>, end: nat, c: Coder, out: Seq<u8>, offset: nat)
    requires
        out.len() <= end,
    ensures
        decoded_from(src, end, c, out, offset) matches Ok(full) ==> full.len() <= end
            && out.is_prefix_of(full),
    decreases end - out.len(),
{
    if let Some((c1, bit)) = bit_decoded(src, c, (0xB68 + offset) as int) {
        if bit == 0 {
            if out.len() < end {
                if let Some((c2, value)) = literal_decoded(
                    src,
                    c1,
                    literal_base(out, src[0]),
                    1,
                ) {
                    let next = out.push((value % 0x100) as u8);
                    let o = if offset > 0 {
                        (offset - 1) as nat
                    } else {
                        0
                    };
                    lemma_decoded_bound(src, end, c2, next, o);
                    if let Ok(full) = decoded_from(src, end, c2, next, o) {
                        assert(out =~= full.take(out.len() as int)) by {
                            assert(next == full.take(next.len() as int));
                            assert(next.take(out.len() as int) =~= out);
                        }
                    }
                }
            }
        } else if let Some((c2, index)) = ones_decoded(src, c1, (0xB68 + offset) as int, -1) {
            if let Some((c3, length)) = length_decoded(src, c2, out.len(), offset, index) {
                if let Some((c4, distance)) = distance_decoded(src, c3, index, length) {
                    if out.len() + length + 1 <= end {
                        let next = copied(out, distance, length + 1);
                        let o = 6 + (out.len() + length + 2) % 2;
                        lemma_copied_len(out, distance, length + 1);
                        lemma_copied_prefix(out, distance, length + 1);
                        lemma_decoded_bound(src, end, c4, next, o);
                        if let Ok(full) = decoded_from(src, end, c4, next, o) {
                            assert(out =~= full.take(out.len() as int)) by {
                                assert(next == full.take(next.len() as int));
                                assert(next.take(out.len() as int) =~= out);
                            }
                        }
                    }
                }
            }
        }
    }
}

proof fn lemma_copied_prefix(out: Seq<u8>, distance: nat, n: nat)
    ensures
        copied(out, distance, n).len() == out.len() + n,
        copied(out, distance, n).take(out.len() as int) == out,
    decreases n,
{
    if n > 0 {
        let next = out.push(out[out.len() - distance]);
        lemma_copied_prefix(next, distance, (n - 1) as nat);
        assert(next.take(out.len() as int) =~= out);
        assert(copied(next, distance, (n - 1) as nat).take(next.len() as int).take(
            out.len() as int,
        ) =~= copied(next, distance, (n - 1) as nat).take(out.len() as int));
    }
    assert(out.take(out.len() as int) =~= out);
}

/// No stream decompresses to more than the size asked for.
pub proof fn law_decompressed_fits(src: Seq<u8>, size: nat)
    ensures
        decompressed(src, size) matches Ok(out) ==> out.len() <= size,
{
    if src.len() >= 5 && src[0] < 0x80 {
        lemma_decoded_bound(src, size, coder_start(src), Seq::empty(), 0);
    }
}

/// Whether a stream starts with all of another.
spec fn starts(a: Seq<u8>, b: Seq<u8>) -> bool {
    a.len() <= b.len() && forall|k: int| 0 <= k < a.len() ==> #[trigger] a[k] == b[k]
}

proof fn lemma_bit_longer(a: Seq<u8>, b: Seq<u8>, c: Coder, at: int)
    requires
        starts(a, b),
    ensures
        bit_decoded(a, c, at) matches Some((_, bit)) ==> bit <= 1 && bit_decoded(b, c, at)
            == bit_decoded(a, c, at),
{
    reveal(bit_decoded);
}

proof fn lemma_literal_longer(a: Seq<u8>, b: Seq<u8>, c: Coder, base: int, value: nat)
    requires
        starts(a, b),
    ensures
        literal_decoded(a, c, base, value) is Some ==> literal_decoded(b, c, base, value)
            == literal_decoded(a, c, base, value),
    decreases 512 - value,
{
    if 0 < value < 256 {
        lemma_bit_longer(a, b, c, base + value);
        if let Some((d, bit)) = bit_decoded(a, c, base + value) {
            lemma_literal_longer(a, b, d, base, 2 * value + bit);
        }
    }
}

proof fn lemma_ones_longer(a: Seq<u8>, b: Seq<u8>, c: Coder, at: int, ones: int)
    requires
        starts(a, b),
    ensures
        ones_decoded(a, c, at, ones) is Some ==> ones_decoded(b, c, at, ones) == ones_decoded(
            a,
            c,
            at,
            ones,
        ),
    decreases 6 - ones,
{
    lemma_bit_longer(a, b, c, at + 8);
    if let Some((d, bit)) = bit_decoded(a, c, at + 8) {
        if bit != 0 && ones + 1 < 6 {
            lemma_ones_longer(a, b, d, at + 8, ones + 1);
        }
    }
}

proof fn lemma_class_longer(a: Seq<u8>, b: Seq<u8>, c: Coder, base: int, limit: int, value: nat)
    requires
        starts(a, b),
    ensures
        class_decoded(a, c, base, limit, value) is Some ==> class_decoded(b, c, base, limit, value)
            == class_decoded(a, c, base, limit, value),
    decreases limit - value,
{
    lemma_bit_longer(a, b, c, base + 8 * value);
    if let Some((d, bit)) = bit_decoded(a, c, base + 8 * value) {
        if 16 * value < limit && value != 0 {
            lemma_class_longer(a, b, d, base, limit, 2 * value + bit);
        }
    }
}

proof fn lemma_appended_longer(a: Seq<u8>, b: Seq<u8>, s: Option<(Coder, nat)>, at: int)
    requires
        starts(a, b),
    ensures
        appended_bit(a, s, at) is Some ==> s is Some && appended_bit(b, s, at) == appended_bit(
            a,
            s,
            at,
        ),
{
    if let Some((c, _)) = s {
        lemma_bit_longer(a, b, c, at);
    }
}

proof fn lemma_number_longer(
    a: Seq<u8>,
    b: Seq<u8>,
    c: Coder,
    ptr: int,
    high: int,
    step: int,
    width: nat,
)
    requires
        starts(a, b),
    ensures
        number_decoded(a, c, ptr, high, step, width) is Some ==> number_decoded(
            b,
            c,
            ptr,
            high,
            step,
            width,
        ) == number_decoded(a, c, ptr, high, step, width),
{
    reveal(number_decoded);
    let at = ptr + high;
    let first = Some((c, 1nat));
    lemma_appended_longer(a, b, first, at);
    lemma_appended_longer(a, b, appended_bit(a, first, at), at);
    let top = high_bits_decoded(a, c, at, width);
    assert(top is Some ==> high_bits_decoded(b, c, at, width) == top);
    let low = appended_bit(a, top, ptr);
    lemma_appended_longer(a, b, top, ptr);
    lemma_appended_longer(a, b, low, ptr + step);
    lemma_appended_longer(a, b, appended_bit(a, low, ptr + step), ptr + 2 * step);
}

proof fn lemma_distance_longer(a: Seq<u8>, b: Seq<u8>, c: Coder, index: int, length: nat)
    requires
        starts(a, b),
    ensures
        distance_decoded(a, c, index, length) is Some ==> distance_decoded(b, c, index, length)
            == distance_decoded(a, c, index, length),
{
    reveal(distance_decoded);
    let (base, limit) = if length <= 2 {
        (0x8E9 + index, 0x40int)
    } else {
        (0x7F1 + index, 0x160int)
    };
    lemma_class_longer(a, b, c, base, limit, 1);
    if let Some((d, over, bit)) = class_decoded(a, c, base, limit, 1) {
        let at = if bit == 0 {
            over - 8
        } else {
            over
        };
        lemma_number_longer(a, b, d, 0x928 + at, 4, 1, (at / 8) as nat);
    }
}

proof fn lemma_decoded_longer(
    a: Seq<u8>,
    b: Seq<u8>,
    end: nat,
    c: Coder,
    out: Seq<u8>,
    offset: nat,
)
    requires
        starts(a, b),
        a.len() > 0,
    ensures
        decoded_from(a, end, c, out, offset) == Err::<Seq<u8>, Error>(Error::StreamEnded)
            || decoded_from(b, end, c, out, offset) == decoded_from(a, end, c, out, offset),
    decreases end - out.len(),
{
    assert(a[0] == b[0]);
    lemma_bit_longer(a, b, c, (0xB68 + offset) as int);
    if let Some((c1, bit)) = bit_decoded(a, c, (0xB68 + offset) as int) {
        if bit == 0 {
            if out.len() < end {
                let base = literal_base(out, a[0]);
                lemma_literal_longer(a, b, c1, base, 1);
                if let Some((c2, value)) = literal_decoded(a, c1, base, 1) {
                    let o = if offset > 0 {
                        (offset - 1) as nat
                    } else {
                        0
                    };
                    lemma_decoded_longer(a, b, end, c2, out.push((value % 0x100) as u8), o);
                }
            }
        } else {
            lemma_ones_longer(a, b, c1, (0xB68 + offset) as int, -1);
            if let Some((c2, index)) = ones_decoded(a, c1, (0xB68 + offset) as int, -1) {
                lemma_length_longer(a, b, c2, out.len(), offset, index);
                if let Some((c3, length)) = length_decoded(a, c2, out.len(), offset, index) {
                    lemma_distance_longer(a, b, c3, index, length);
                    if let Some((c4, distance)) = distance_decoded(a, c3, index, length) {
                        if out.len() + length + 1 <= end {
                            lemma_copied_len(out, distance, length + 1);
                            lemma_decoded_longer(
                                a,
                                b,
                                end,
                                c4,
                                copied(out, distance, length + 1),
                                6 + (out.len() + length + 2) % 2,
                            );
                        }
                    }
                }
            }
        }
    }
}

proof fn lemma_length_longer(
    a: Seq<u8>,
    b: Seq<u8>,
    c: Coder,
    start: nat,
    offset: nat,
    index: int,
)
    requires
        starts(a, b),
    ensures
        length_decoded(a, c, start, offset, index) is Some ==> length_decoded(
            b,
            c,
            start,
            offset,
            index,
        ) == length_decoded(a, c, start, offset, index),
{
    reveal(length_decoded);
    lemma_number_longer(
        a,
        b,
        c,
        0xBA8 + index * 32 + phase(start, index) * 8 + offset,
        0x18,
        8,
        index as nat,
    );
}

/// Bytes after the end of a stream never change what it decompresses to.
pub proof fn law_rest_ignored(src: Seq<u8>, rest: Seq<u8>, size: nat)
    ensures
        decompressed(src, size) matches Ok(out) ==> decompressed(src + rest, size) == Ok::<
            Seq<u8>,
            Error,
        >(out),
{
    let whole = src + rest;
    if src.len() >= 5 {
        assert(util::be_u32(whole.skip(1)) == util::be_u32(src.skip(1)));
        assert(coder_start(whole) == coder_start(src));
        if src[0] >= 0x80 {
            let n = util::be_u32(src.skip(1));
            if n + 5 <= src.len() {
                assert(whole.subrange(5, 5 + n) =~= src.subrange(5, 5 + n));
            }
        } else {
            lemma_decoded_longer(src, whole, size, coder_start(src), Seq::empty(), 0);
        }
    }
}

proof fn lemma_decoded_resized(
    src: Seq<u8>,
    end: nat,
    other: nat,
    c: Coder,
    out: Seq<u8>,
    offset: nat,
)
    requires
        out.len() <= end,
    ensures
        decoded_from(src, end, c, out, offset) matches Ok(full) ==> full.len() < end && full.len()
            <= other ==> decoded_from(src, other, c, out, offset) == Ok::<Seq<u8>, Error>(full),
    decreases end - out.len(),
{
    lemma_decoded_bound(src, end, c, out, offset);
    if let Some((c1, bit)) = bit_decoded(src, c, (0xB68 + offset) as int) {
        if bit == 0 {
            if out.len() < end {
                if let Some((c2, value)) = literal_decoded(
                    src,
                    c1,
                    literal_base(out, src[0]),
                    1,
                ) {
                    let next = out.push((value % 0x100) as u8);
                    let o = if offset > 0 {
                        (offset - 1) as nat
                    } else {
                        0
                    };
                    lemma_decoded_bound(src, end, c2, next, o);
                    lemma_decoded_resized(src, end, other, c2, next, o);
                }
            }
        } else if let Some((c2, index)) = ones_decoded(src, c1, (0xB68 + offset) as int, -1) {
            if let Some((c3, length)) = length_decoded(src, c2, out.len(), offset, index) {
                if let Some((c4, distance)) = distance_decoded(src, c3, index, length) {
                    if out.len() + length + 1 <= end {
                        let next = copied(out, distance, length + 1);
                        let o = 6 + (out.len() + length + 2) % 2;
                        lemma_copied_len(out, distance, length + 1);
                        lemma_decoded_bound(src, end, c4, next, o);
                        lemma_decoded_resized(src, end, other, c4, next, o);
                    }
                }
            }
        }
    }
}

/// The size is an upper limit alone: a stream that ends before it is full
/// decompresses to the same bytes under any size that holds them.
pub proof fn law_size_is_a_limit(src: Seq<u8>, size: nat, other: nat)
    ensures
        decompressed(src, size) matches Ok(out) ==> out.len() < size && out.len() <= other
            ==> decompressed(src, other) == Ok::<Seq<u8>, Error>(out),
{
    if src.len() >= 5 && src[0] < 0x80 {
        lemma_decoded_resized(src, size, other, coder_start(src), Seq::empty(), 0);
    }
}

/// A stored block decompresses to its payload, whatever follows it, wherever
/// the payload fits.
pub proof fn law_stored_block(head: u8, payload: Seq<u8>, rest: Seq<u8>, size: nat)
    requires
        head >= 0x80,
        payload.len() <= 0xFFFF_FFFF,
        payload.len() <= size,
    ensures
        decompressed(
            seq![head] + util::be_bytes_u32(payload.len() as u32) + payload + rest,
            size,
        ) == Ok::<Seq<u8>, Error>(payload),
{
    let n = payload.len() as u32;
    let src = seq![head] + util::be_bytes_u32(n) + payload + rest;
    util::law_be_u32_round_trip(n);
    assert(util::be_u32(src.skip(1)) == util::be_u32(util::be_bytes_u32(n)));
    assert(src.subrange(5, 5 + n) =~= payload);
}

/// A stored block that says it is longer than its bytes, or than the size asked
/// for, is refused; so is a stream without its first five bytes.
pub proof fn law_bad_stored_block(head: u8, n: u32, payload: Seq<u8>, size: nat)
    requires
        head >= 0x80,
        payload.len() < n || size < n,
    ensures
        decompressed(seq![head] + util::be_bytes_u32(n) + payload, size) == Err::<Seq<u8>, Error>(
            Error::InvalidStoredBlock,
        ),
        forall|src: Seq<u8>|
            src.len() < 5 ==> #[trigger] decompressed(src, size) == Err::<Seq<u8>, Error>(
                Error::StreamTooShort,
            ),
{
    let src = seq![head] + util::be_bytes_u32(n) + payload;
    util::law_be_u32_round_trip(n);
    assert(util::be_u32(src.skip(1)) == util::be_u32(util::be_bytes_u32(n)));
}

/// A range decoder over a stream.
struct RangeDecoder<'a> {
    src: &'a [u8],
    pos: usize,
    range: u32,
    code: u32,
    model: Vec<u8>,
}

impl<'a> RangeDecoder<'a> {
    spec fn wf(self) -> bool {
        &&& self.pos + 5 <= self.src@.len()
        &&& self.model@.len() == MODEL_LEN
    }

    spec fn coder(self) -> Coder {
        Coder {
            pos: self.pos as nat,
            range: self.range as nat,
            code: self.code as nat,
            model: self.model@,
        }
    }

    /// Starts decoding a stream of at least five bytes.
    fn new(src: &'a [u8]) -> (r: Result<Self, Error>)
        ensures
            match r {
                Ok(d) => src@.len() >= 5 && d.wf() && d.src == src && d.coder() == coder_start(
                    src@,
                ),
                Err(e) => src@.len() < 5 && e == Error::StreamTooShort,
            },
    {
        if src.len() < 5 {
            return Err(Error::StreamTooShort);
        }
        let code: u32 = read_be_u32(vstd::slice::slice_subrange(src, 1, 5));
        let mut model: Vec<u8> = Vec::with_capacity(MODEL_LEN);
        let mut i: usize = 0;
        while i < MODEL_LEN
            invariant
                i <= MODEL_LEN,
                model@.len() == i,
                forall|j: int|
                    0 <= j < i ==> #[trigger] model@[j] == (if j < MODEL_SET {
                        0x80u8
                    } else {
                        0u8
                    }),
            decreases MODEL_LEN - i,
        {
            model.push(if i < MODEL_SET { 0x80 } else { 0 });
            i = i + 1;
        }
        let d = RangeDecoder { src, pos: 0, range: 0xFFFF_FFFF, code, model };
        assert(util::be_u32(src@.subrange(1, 5)) == util::be_u32(src@.skip(1)));
        assert(d.coder() =~= coder_start(src@));
        Ok(d)
    }

    /// Widens the interval where it has grown too narrow.
    fn decode_range(&mut self) -> (r: Result<(), Error>)
        requires
            old(self).wf(),
        ensures
            final(self).wf(),
            final(self).src == old(self).src,
            match r {
                Ok(_) => widened(old(self).src@, old(self).coder()) == Some(final(self).coder()),
                Err(e) => e == Error::StreamEnded && *final(self) == *old(self) && widened(
                    old(self).src@,
                    old(self).coder(),
                ) is None,
            },
    {
        if self.range < 0x100_0000 {
            if self.src.len() - self.pos <= 5 {
                return Err(Error::StreamEnded);
            }
            let byte: u8 = self.src[self.pos + 5];
            self.range = self.range * 0x100;
            self.code = (self.code % 0x100_0000) * 0x100 + byte as u32;
            self.pos = self.pos + 1;
        }
        Ok(())
    }

    /// Reads one bit in a context.
    fn decode_bit(&mut self, at: usize) -> (r: Result<u32, Error>)
        requires
            old(self).wf(),
            at < MODEL_LEN,
        ensures
            final(self).wf(),
            final(self).src == old(self).src,
            match r {
                Ok(bit) => bit <= 1 && bit_decoded(
                    old(self).src@,
                    old(self).coder(),
                    at as int,
                ) == Some((final(self).coder(), bit as nat)),
                Err(e) => e == Error::StreamEnded && *final(self) == *old(self) && bit_decoded(
                    old(self).src@,
                    old(self).coder(),
                    at as int,
                ) is None,
            },
    {
        reveal(bit_decoded);
        match self.decode_range() {
            Ok(_) => {},
            Err(e) => {
                return Err(e);
            },
        }
        let ghost w = self.coder();
        let p: u8 = self.model[at];
        let unit: u32 = self.range / 0x100;
        assert(unit * p <= 0xFF_FFFF * 0xFF && unit * p <= unit * 0xFF) by (nonlinear_arith)
            requires
                unit <= 0xFF_FFFF,
                p <= 0xFF,
        ;
        let split: u32 = unit * (p as u32);
        let kept: u8 = p - p / 8;
        if self.code < split {
            self.range = split;
            self.model.set(at, kept + 31);
            Ok(1)
        } else {
            self.code = self.code - split;
            self.range = self.range - split;
            self.model.set(at, kept);
            Ok(0)
        }
    }

    /// Reads one bit in a context and appends it to a value.
    fn append_bit(&mut self, value: u32, at: usize) -> (r: Result<u32, Error>)
        requires
            old(self).wf(),
            at < MODEL_LEN,
        ensures
            final(self).wf(),
            final(self).src == old(self).src,
            match r {
                Ok(v) => appended_bit(
                    old(self).src@,
                    Some((old(self).coder(), value as nat)),
                    at as int,
                ) == Some((final(self).coder(), v as nat)),
                Err(e) => e == Error::StreamEnded && *final(self) == *old(self) && appended_bit(
                    old(self).src@,
                    Some((old(self).coder(), value as nat)),
                    at as int,
                ) is None,
            },
    {
        match self.decode_bit(at) {
            Ok(bit) => Ok((value % 0x8000_0000) * 2 + bit),
            Err(e) => Err(e),
        }
    }

    /// Reads the high part of a number.
    fn decode_high(&mut self, at: usize, width: u32) -> (r: Result<u32, Error>)
        requires
            old(self).wf(),
            at < MODEL_LEN,
        ensures
            final(self).wf(),
            final(self).src == old(self).src,
            match r {
                Ok(v) => high_bits_decoded(
                    old(self).src@,
                    old(self).coder(),
                    at as int,
                    width as nat,
                ) == Some((final(self).coder(), v as nat)),
                Err(e) => e == Error::StreamEnded && high_bits_decoded(
                    old(self).src@,
                    old(self).coder(),
                    at as int,
                    width as nat,
                ) is None,
            },
    {
        let mut value: u32 = 1;
        if width < 3 {
            return Ok(value);
        }
        match self.append_bit(value, at) {
            Ok(v) => {
                value = v;
            },
            Err(e) => {
                return Err(e);
            },
        }
        if width == 3 {
            return Ok(value);
        }
        match self.append_bit(value, at) {
            Ok(v) => {
                value = v;
            },
            Err(e) => {
                return Err(e);
            },
        }
        if width == 4 {
            return Ok(value);
        }
        match self.decode_range() {
            Ok(_) => {},
            Err(e) => {
                return Err(e);
            },
        }
        let ghost w = self.coder();
        let ghost first = value as nat;
        let mut left: u32 = width - 4;
        while left > 0
            invariant
                left <= width - 4,
                self.wf(),
                self.src == old(self).src,
                even_bits_decoded(w, first, (width - 4) as nat) == even_bits_decoded(
                    self.coder(),
                    value as nat,
                    left as nat,
                ),
            decreases left,
        {
            self.range = self.range / 2;
            if self.code < self.range {
                value = (value % 0x8000_0000) * 2 + 1;
            } else {
                self.code = self.code - self.range;
                value = (value % 0x8000_0000) * 2;
            }
            left = left - 1;
        }
        Ok(value)
    }

    /// Reads a number of `width + 1` bits below its leading one.
    fn decode_value(&mut self, ptr: usize, high: usize, step: usize, width: u32) -> (r: Result<
        u32,
        Error,
    >)
        requires
            old(self).wf(),
            ptr + high < MODEL_LEN,
            ptr + 2 * step < MODEL_LEN,
        ensures
            final(self).wf(),
            final(self).src == old(self).src,
            match r {
                Ok(v) => number_decoded(
                    old(self).src@,
                    old(self).coder(),
                    ptr as int,
                    high as int,
                    step as int,
                    width as nat,
                ) == Some((final(self).coder(), v as nat)),
                Err(e) => e == Error::StreamEnded && number_decoded(
                    old(self).src@,
                    old(self).coder(),
                    ptr as int,
                    high as int,
                    step as int,
                    width as nat,
                ) is None,
            },
    {
        reveal(number_decoded);
        let mut value: u32 = match self.decode_high(ptr + high, width) {
            Ok(v) => v,
            Err(e) => {
                return Err(e);
            },
        };
        match self.append_bit(value, ptr) {
            Ok(v) => {
                value = v;
            },
            Err(e) => {
                return Err(e);
            },
        }
        if width >= 1 {
            match self.append_bit(value, ptr + step) {
                Ok(v) => {
                    value = v;
                },
                Err(e) => {
                    return Err(e);
                },
            }
        }
        if width >= 2 {
            match self.append_bit(value, ptr + 2 * step) {
                Ok(v) => {
                    value = v;
                },
                Err(e) => {
                    return Err(e);
                },
            }
        }
        Ok(value)
    }

    /// Reads a literal, leading one included.
    fn decode_literal(&mut self, base: i64) -> (r: Result<u32, Error>)
        requires
            old(self).wf(),
            -1 <= base,
            base + 0xFF < MODEL_LEN,
        ensures
            final(self).wf(),
            final(self).src == old(self).src,
            match r {
                Ok(v) => literal_decoded(old(self).src@, old(self).coder(), base as int, 1)
                    == Some((final(self).coder(), v as nat)),
                Err(e) => e == Error::StreamEnded && literal_decoded(
                    old(self).src@,
                    old(self).coder(),
                    base as int,
                    1,
                ) is None,
            },
    {
        let mut value: u32 = 1;
        while value < 256
            invariant
                1 <= value < 512,
                self.wf(),
                self.src == old(self).src,
                -1 <= base,
                base + 0xFF < MODEL_LEN,
                literal_decoded(old(self).src@, old(self).coder(), base as int, 1)
                    == literal_decoded(self.src@, self.coder(), base as int, value as nat),
            decreases 512 - value,
        {
            let at: usize = match checked_tmp_offset(base + value as i64, MODEL_LEN) {
                Ok(at) => at,
                Err(e) => {
                    return Err(e);
                },
            };
            match self.decode_bit(at) {
                Ok(bit) => {
                    value = 2 * value + bit;
                },
                Err(e) => {
                    return Err(e);
                },
            }
        }
        Ok(value)
    }

    /// Reads ones until a zero or the seventh one, and gives one less than
    /// their number.
    fn decode_ones(&mut self, start: usize) -> (r: Result<i32, Error>)
        requires
            old(self).wf(),
            start + 56 < MODEL_LEN,
        ensures
            final(self).wf(),
            final(self).src == old(self).src,
            match r {
                Ok(n) => -1 <= n <= 6 && ones_decoded(
                    old(self).src@,
                    old(self).coder(),
                    start as int,
                    -1,
                ) == Some((final(self).coder(), n as int)),
                Err(e) => e == Error::StreamEnded && ones_decoded(
                    old(self).src@,
                    old(self).coder(),
                    start as int,
                    -1,
                ) is None,
            },
    {
        let mut at: usize = start;
        let mut ones: i32 = -1;
        loop
            invariant
                -1 <= ones < 6,
                at == start + 8 * (ones + 1),
                start + 56 < MODEL_LEN,
                self.wf(),
                self.src == old(self).src,
                ones_decoded(old(self).src@, old(self).coder(), start as int, -1)
                    == ones_decoded(self.src@, self.coder(), at as int, ones as int),
            decreases 6 - ones,
        {
            at = at + 8;
            match self.decode_bit(at) {
                Ok(bit) => {
                    if bit == 0 {
                        return Ok(ones);
                    }
                },
                Err(e) => {
                    return Err(e);
                },
            }
            ones = ones + 1;
            if ones >= 6 {
                return Ok(ones);
            }
        }
    }

    /// Reads the bits that select a distance class.
    fn decode_class(&mut self, base: usize, limit: i32) -> (r: Result<(i32, u32), Error>)
        requires
            old(self).wf(),
            0x40 <= limit <= 0x160,
            base + limit + 8 < MODEL_LEN,
        ensures
            final(self).wf(),
            final(self).src == old(self).src,
            match r {
                Ok((over, bit)) => {
                    &&& 0 <= over < limit + 16
                    &&& over % 16 == (16 - limit % 16) % 16
                    &&& bit <= 1
                    &&& class_decoded(
                        old(self).src@,
                        old(self).coder(),
                        base as int,
                        limit as int,
                        1,
                    ) == Some((final(self).coder(), over as int, bit as nat))
                },
                Err(e) => e == Error::StreamEnded && class_decoded(
                    old(self).src@,
                    old(self).coder(),
                    base as int,
                    limit as int,
                    1,
                ) is None,
            },
    {
        let mut value: u32 = 1;
        loop
            invariant
                1 <= value,
                8 * value < limit + 8,
                0x40 <= limit <= 0x160,
                base + limit + 8 < MODEL_LEN,
                self.wf(),
                self.src == old(self).src,
                class_decoded(old(self).src@, old(self).coder(), base as int, limit as int, 1)
                    == class_decoded(
                    self.src@,
                    self.coder(),
                    base as int,
                    limit as int,
                    value as nat,
                ),
            decreases 0x1000 - value,
        {
            let over: i32 = 16 * value as i32 - limit;
            match self.decode_bit(base + 8 * value as usize) {
                Ok(bit) => {
                    if over >= 0 {
                        return Ok((over, bit));
                    }
                    value = 2 * value + bit;
                },
                Err(e) => {
                    return Err(e);
                },
            }
        }
    }
}

/// Reads the number that gives a match's length.
fn decode_number(rd: &mut RangeDecoder<'_>, ptr: usize, index: u32) -> (r: Result<u32, Error>)
    requires
        old(rd).wf(),
        ptr + 0x18 < MODEL_LEN,
    ensures
        final(rd).wf(),
        final(rd).src == old(rd).src,
        match r {
            Ok(v) => number_decoded(
                old(rd).src@,
                old(rd).coder(),
                ptr as int,
                0x18,
                8,
                index as nat,
            ) == Some((final(rd).coder(), v as nat)),
            Err(e) => e == Error::StreamEnded && number_decoded(
                old(rd).src@,
                old(rd).coder(),
                ptr as int,
                0x18,
                8,
                index as nat,
            ) is None,
        },
{
    rd.decode_value(ptr, 0x18, 8, index)
}

/// Reads the number that gives a match's distance.
fn decode_word(rd: &mut RangeDecoder<'_>, ptr: usize, index: u32) -> (r: Result<u32, Error>)
    requires
        old(rd).wf(),
        ptr + 4 < MODEL_LEN,
    ensures
        final(rd).wf(),
        final(rd).src == old(rd).src,
        match r {
            Ok(v) => number_decoded(
                old(rd).src@,
                old(rd).coder(),
                ptr as int,
                4,
                1,
                (index / 8) as nat,
            ) == Some((final(rd).coder(), v as nat)),
            Err(e) => e == Error::StreamEnded && number_decoded(
                old(rd).src@,
                old(rd).coder(),
                ptr as int,
                4,
                1,
                (index / 8) as nat,
            ) is None,
        },
{
    rd.decode_value(ptr, 4, 1, index / 8)
}

/// Reads the length of a match.
fn decode_length(rd: &mut RangeDecoder<'_>, start: usize, offset: usize, index: i32) -> (r: Result<
    u32,
    Error,
>)
    requires
        old(rd).wf(),
        offset < 8,
        -1 <= index <= 6,
    ensures
        final(rd).wf(),
        final(rd).src == old(rd).src,
        match r {
            Ok(v) => length_decoded(
                old(rd).src@,
                old(rd).coder(),
                start as nat,
                offset as nat,
                index as int,
            ) == Some((final(rd).coder(), v as nat)),
            Err(e) => e == Error::StreamEnded && length_decoded(
                old(rd).src@,
                old(rd).coder(),
                start as nat,
                offset as nat,
                index as int,
            ) is None,
        },
{
    reveal(length_decoded);
    if index < 0 {
        return Ok(1);
    }
    let low: usize = if index == 0 {
        start % 4
    } else if index == 1 {
        (start % 2) * 2
    } else {
        0
    };
    let ptr: usize = 0xBA8 + index as usize * 32 + low * 8 + offset;
    decode_number(rd, ptr, index as u32)
}

/// Reads the distance of a match.
fn decode_distance(rd: &mut RangeDecoder<'_>, index: i32, length: u32) -> (r: Result<u32, Error>)
    requires
        old(rd).wf(),
        -1 <= index <= 6,
    ensures
        final(rd).wf(),
        final(rd).src == old(rd).src,
        match r {
            Ok(v) => distance_decoded(
                old(rd).src@,
                old(rd).coder(),
                index as int,
                length as nat,
            ) == Some((final(rd).coder(), v as nat)),
            Err(e) => e == Error::StreamEnded && distance_decoded(
                old(rd).src@,
                old(rd).coder(),
                index as int,
                length as nat,
            ) is None,
        },
{
    reveal(distance_decoded);
    let mut base: usize = (0x7F1 + index) as usize;
    let mut limit: i32 = 0x160;
    if length <= 2 {
        base = base + 0xF8;
        limit = 0x40;
    }
    match rd.decode_class(base, limit) {
        Ok((over, bit)) => {
            if over == 0 && bit == 0 {
                return Ok(1);
            }
            let at: u32 = if bit == 0 {
                (over - 8) as u32
            } else {
                over as u32
            };
            decode_word(rd, 0x928 + at as usize, at)
        },
        Err(e) => Err(e),
    }
}

/// Decompresses a block into at most `output_size` bytes.
#[verifier::spinoff_prover]
#[verifier::rlimit(50)]
pub fn decompress(input: &[u8], output_size: usize) -> (r: Result<Vec<u8>, Error>)
    ensures
        match r {
            Ok(out) => decompressed(input@, output_size as nat) == Ok::<Seq<u8>, Error>(out@),
            Err(e) => decompressed(input@, output_size as nat) == Err::<Seq<u8>, Error>(e),
        },
{
    let mut rd = match RangeDecoder::new(input) {
        Ok(rd) => rd,
        Err(e) => {
            return Err(e);
        },
    };
    let head: u8 = input[0];
    let mut out: Vec<u8> = Vec::new();
    if head >= 0x80 {
        let n: usize = rd.code as usize;
        if n <= output_size && n <= input.len() - 5 {
            return Ok(vstd::slice::slice_to_vec(vstd::slice::slice_subrange(input, 5, 5 + n)));
        }
        return Err(Error::InvalidStoredBlock);
    }
    let mut offset: usize = 0;
    assert(out@ =~= Seq::<u8>::empty());
    loop
        invariant
            rd.wf(),
            rd.src == input,
            head == input@[0],
            head < 0x80,
            offset < 8,
            out@.len() <= output_size,
            decompressed(input@, output_size as nat) == decoded_from(
                input@,
                output_size as nat,
                rd.coder(),
                out@,
                offset as nat,
            ),
        decreases output_size - out@.len(),
    {
        let start: usize = out.len();
        let bit: u32 = match rd.decode_bit(0xB68 + offset) {
            Ok(bit) => bit,
            Err(e) => {
                return Err(e);
            },
        };
        if bit == 0 {
            if start >= output_size {
                return Ok(out);
            }
            let last: u8 = if start == 0 {
                0
            } else {
                out[start - 1]
            };
            let mix: u32 = (start % 8) as u32 * 0x100 + last as u32;
            let base: i64 = ((mix >> ((head % 32) as u32)) % 8) as i64 * 0xFF - 1;
            assert(base == literal_base(out@, head));
            match rd.decode_literal(base) {
                Ok(value) => {
                    out.push((value % 0x100) as u8);
                },
                Err(e) => {
                    return Err(e);
                },
            }
            if offset > 0 {
                offset = offset - 1;
            }
        } else {
            let index: i32 = match rd.decode_ones(0xB68 + offset) {
                Ok(index) => index,
                Err(e) => {
                    return Err(e);
                },
            };
            let length: u32 = match decode_length(&mut rd, start, offset, index) {
                Ok(length) => length,
                Err(e) => {
                    return Err(e);
                },
            };
            if index >= 0 && length == 0xFF {
                return Ok(out);
            }
            let distance: u32 = match decode_distance(&mut rd, index, length) {
                Ok(distance) => distance,
                Err(e) => {
                    return Err(e);
                },
            };
            if distance == 0 || distance >= 0x8000_0000 {
                return Err(Error::InvalidBackReference);
            }
            if distance as usize > start {
                return Err(Error::LzUnderflow);
            }
            if length as usize >= output_size - start {
                return Err(Error::LzOverflow);
            }
            let count: usize = length as usize + 1;
            copy_back(&mut out, distance as usize, count);
            offset = if out.len() % 2 == 0 {
                7
            } else {
                6
            };
        }
    }
}

/// Appends `count` bytes, each the one `distance` before it.
fn copy_back(out: &mut Vec<u8>, distance: usize, count: usize)
    requires
        1 <= distance <= old(out)@.len(),
        old(out)@.len() + count <= usize::MAX,
    ensures
        final(out)@ == copied(old(out)@, distance as nat, count as nat),
        final(out)@.len() == old(out)@.len() + count,
{
    let mut left: usize = count;
    while left > 0
        invariant
            left <= count,
            1 <= distance <= out@.len(),
            out@.len() + left == old(out)@.len() + count,
            old(out)@.len() + count <= usize::MAX,
            copied(old(out)@, distance as nat, count as nat) == copied(
                out@,
                distance as nat,
                left as nat,
            ),
        decreases left,
    {
        let byte: u8 = out[out.len() - distance];
        out.push(byte);
        left = left - 1;
    }
}

/// A position in the probability model, if it lies inside.
fn checked_tmp_offset(off: i64, tmp_len: usize) -> (r: Result<usize, Error>)
    ensures
        r == (if 0 <= off < tmp_len {
            Ok::<usize, Error>(off as usize)
        } else {
            Err::<usize, Error>(Error::ModelOffset)
        }),
{
    if off < 0 || off as u64 >= tmp_len as u64 {
        return Err(Error::ModelOffset);
    }
    Ok(off as usize)
}

} // verus!
