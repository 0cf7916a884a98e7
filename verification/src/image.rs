//! A file in memory: bytes that grow where they are written past the end, and
//! a position.

use vstd::prelude::*;

use crate::error::Error;

verus! {

/// A file that is being written.
pub struct Image {
    /// The contents.
    pub bytes: Vec<u8>,
    /// Where the next write goes.
    pub pos: usize,
}

/// The contents and the position of a file.
#[verifier::ext_equal]
pub struct Tape {
    /// The contents.
    pub bytes: Seq<u8>,
    /// Where the next write goes.
    pub pos: nat,
}

/// Contents with some bytes written at a position. A gap between the end of
/// the contents and the position is filled with zeros.
pub open spec fn overlaid(bytes: Seq<u8>, at: int, data: Seq<u8>) -> Seq<u8> {
    if data.len() == 0 {
        bytes
    } else {
        Seq::new(
            if at + data.len() > bytes.len() {
                (at + data.len()) as nat
            } else {
                bytes.len()
            },
            |k: int|
                if at <= k < at + data.len() {
                    data[k - at]
                } else if k < bytes.len() {
                    bytes[k]
                } else {
                    0u8
                },
        )
    }
}

impl Tape {
    /// The file after some bytes are written at its position.
    pub open spec fn written(self, data: Seq<u8>) -> Tape {
        Tape { bytes: overlaid(self.bytes, self.pos as int, data), pos: self.pos + data.len() }
    }

    /// The file at another position.
    pub open spec fn at(self, pos: int) -> Tape {
        Tape { bytes: self.bytes, pos: pos as nat }
    }
}

/// What `n` bytes from a position on are, if the data reaches that far. No
/// bytes can be read anywhere.
pub open spec fn read_at(src: Seq<u8>, at: int, n: int) -> Option<Seq<u8>> {
    if n == 0 {
        Some(Seq::empty())
    } else if at + n <= src.len() {
        Some(src.subrange(at, at + n))
    } else {
        None
    }
}

/// What was written can be read back.
pub proof fn law_written_reads_back(bytes: Seq<u8>, at: int, data: Seq<u8>)
    requires
        at >= 0,
    ensures
        read_at(overlaid(bytes, at, data), at, data.len() as int) == Some(data),
{
    if data.len() > 0 {
        assert(overlaid(bytes, at, data).subrange(at, at + data.len()) =~= data);
    } else {
        assert(data =~= Seq::<u8>::empty());
    }
}

/// A write changes nothing but the place where it goes.
pub proof fn law_written_elsewhere(bytes: Seq<u8>, at: int, data: Seq<u8>, from: int, n: int)
    requires
        at >= 0,
        0 <= from,
        0 <= n,
        from + n <= bytes.len(),
        from + n <= at || at + data.len() <= from,
    ensures
        read_at(overlaid(bytes, at, data), from, n) == read_at(bytes, from, n),
{
    if data.len() > 0 {
        assert(overlaid(bytes, at, data).subrange(from, from + n) =~= bytes.subrange(
            from,
            from + n,
        ));
    }
}

/// Reads `n` bytes from a position on.
pub(crate) fn take_at(src: &[u8], at: u128, n: u64) -> (r: Result<&[u8], Error>)
    requires
        at <= 0xFFFF_FFFF_FFFF_FFFF_FFFF,
    ensures
        match r {
            Ok(bytes) => read_at(src@, at as int, n as int) == Some(bytes@) && bytes@.len() == n,
            Err(e) => e == Error::UnexpectedEof && read_at(src@, at as int, n as int) is None,
        },
{
    if n == 0 {
        let none = vstd::slice::slice_subrange(src, 0, 0);
        assert(none@ =~= Seq::<u8>::empty());
        return Ok(none);
    }
    if at + n as u128 > src.len() as u128 {
        return Err(Error::UnexpectedEof);
    }
    Ok(vstd::slice::slice_subrange(src, at as usize, at as usize + n as usize))
}

impl View for Image {
    type V = Tape;

    open spec fn view(&self) -> Tape {
        Tape { bytes: self.bytes@, pos: self.pos as nat }
    }
}

impl Image {
    /// An empty file.
    pub fn new() -> (image: Image)
        ensures
            image@ == (Tape { bytes: Seq::empty(), pos: 0 }),
    {
        let image = Image { bytes: Vec::new(), pos: 0 };
        assert(image@.bytes =~= Seq::<u8>::empty());
        image
    }

    /// Moves to a position.
    pub fn seek(&mut self, pos: usize)
        ensures
            final(self)@ == old(self)@.at(pos as int),
    {
        self.pos = pos;
    }

    /// Writes bytes at the position and moves past them.
    pub fn write_all(&mut self, data: &[u8])
        requires
            old(self).pos + data@.len() <= usize::MAX,
        ensures
            final(self)@ == old(self)@.written(data@),
    {
        let ghost before = self.bytes@;
        let start: usize = self.pos;
        if data.len() == 0 {
            return;
        }
        while self.bytes.len() < start
            invariant
                self.pos == start,
                start == old(self).pos,
                before == old(self)@.bytes,
                before.len() <= self.bytes@.len(),
                self.bytes@.len() <= start || self.bytes@.len() == before.len(),
                forall|k: int|
                    0 <= k < self.bytes@.len() ==> #[trigger] self.bytes@[k] == (if k
                        < before.len() {
                        before[k]
                    } else {
                        0u8
                    }),
            decreases start - self.bytes@.len(),
        {
            self.bytes.push(0);
        }
        let ghost base = self.bytes@.len();
        let mut i: usize = 0;
        while i < data.len()
            invariant
                i <= data@.len(),
                self.pos == start,
                start == old(self).pos,
                start + data@.len() <= usize::MAX,
                before == old(self)@.bytes,
                before.len() <= base,
                start <= base,
                base == (if before.len() > start {
                    before.len()
                } else {
                    start as nat
                }),
                self.bytes@.len() == (if start + i > base {
                    (start + i) as nat
                } else {
                    base
                }),
                forall|k: int|
                    0 <= k < self.bytes@.len() ==> #[trigger] self.bytes@[k] == (if start <= k
                        < start + i {
                        data@[k - start]
                    } else if k < before.len() {
                        before[k]
                    } else {
                        0u8
                    }),
            decreases data@.len() - i,
        {
            if start + i < self.bytes.len() {
                self.bytes.set(start + i, data[i]);
            } else {
                self.bytes.push(data[i]);
            }
            i = i + 1;
        }
        self.pos = start + data.len();
        assert(self.bytes@ =~= overlaid(before, start as int, data@));
    }
}

/// What a write leaves: its bytes at its place, the old ones elsewhere, and zeros
/// in a gap before it. It makes the contents no longer than it has to.
pub proof fn law_write(bytes: Seq<u8>, at: int, data: Seq<u8>, k: int)
    requires
        at >= 0,
        data.len() > 0,
    ensures
        ({
            let after = overlaid(bytes, at, data);
            &&& after.len() >= bytes.len()
            &&& after.len() >= at + data.len()
            &&& after.len() == bytes.len() || after.len() == at + data.len()
            &&& 0 <= k < data.len() ==> after[at + k] == data[k]
            &&& 0 <= k < bytes.len() && !(at <= k < at + data.len()) ==> after[k] == bytes[k]
            &&& bytes.len() <= k < at ==> after[k] == 0
        }),
{
}

/// Bytes can be read exactly where the contents reach far enough, and are those
/// that lie there.
pub proof fn law_read(src: Seq<u8>, at: int, n: int)
    requires
        at >= 0,
        n > 0,
    ensures
        read_at(src, at, n) is Some <==> at + n <= src.len(),
        read_at(src, at, n) matches Some(part) ==> part.len() == n && forall|k: int|
            0 <= k < n ==> #[trigger] part[k] == src[at + k],
{
}

} // verus!
