//! A cursor over a byte buffer: bounds-checked reads at and around a
//! position, and writes that overwrite what is there or grow the buffer.

use crate::error::CodecError;
use vstd::prelude::*;

verus! {

/// The 16-bit value held by the two bytes of `s` at `i`, high byte first.
pub open spec fn be16(s: Seq<u8>, i: int) -> u16
    recommends
        0 <= i,
        i + 2 <= s.len(),
{
    (s[i] as int * 256 + s[i + 1] as int) as u16
}

/// The 32-bit value held by the four bytes of `s` at `i`, high byte first.
pub open spec fn be32(s: Seq<u8>, i: int) -> u32
    recommends
        0 <= i,
        i + 4 <= s.len(),
{
    (s[i] as int * 16777216 + s[i + 1] as int * 65536 + s[i + 2] as int * 256
        + s[i + 3] as int) as u32
}

/// The two bytes of `v`, high byte first.
pub open spec fn be16_bytes(v: u16) -> Seq<u8> {
    seq![(v / 256) as u8, (v % 256) as u8]
}

/// The four bytes of `v`, high byte first.
pub open spec fn be32_bytes(v: u32) -> Seq<u8> {
    seq![
        (v / 16777216) as u8,
        ((v / 65536) % 256) as u8,
        ((v / 256) % 256) as u8,
        (v % 256) as u8,
    ]
}

/// `s` with `data` laid over it from index `at` on. Where `data` runs past
/// the end of `s`, the result is longer than `s`.
pub open spec fn overlay(s: Seq<u8>, at: int, data: Seq<u8>) -> Seq<u8>
    recommends
        0 <= at <= s.len(),
{
    if at + data.len() >= s.len() {
        s.subrange(0, at) + data
    } else {
        s.subrange(0, at) + data + s.subrange(at + data.len(), s.len() as int)
    }
}

/// Whether `size` bytes from index `at` on lie inside `s`.
pub open spec fn holds(s: Seq<u8>, at: int, size: int) -> bool {
    0 <= at && 0 <= size && at + size <= s.len()
}

/// Laying `a` over `s` and then `b` right behind it is laying both at once.
pub proof fn lemma_overlay_twice(s: Seq<u8>, at: int, a: Seq<u8>, b: Seq<u8>)
    requires
        0 <= at <= s.len(),
    ensures
        overlay(overlay(s, at, a), at + a.len(), b) == overlay(s, at, a + b),
{
    assert(overlay(overlay(s, at, a), at + a.len(), b) =~= overlay(s, at, a + b));
}

/// Laying `data` over `s` from its end on appends it.
pub proof fn lemma_overlay_at_end(s: Seq<u8>, data: Seq<u8>)
    ensures
        overlay(s, s.len() as int, data) == s + data,
{
    assert(overlay(s, s.len() as int, data) =~= s + data);
}

/// Stores `value` at index `at` of `bytes`: over the byte that is there, or
/// onto the end.
fn store(bytes: &mut Vec<u8>, at: usize, value: u8)
    requires
        at <= old(bytes)@.len(),
    ensures
        final(bytes)@ == overlay(old(bytes)@, at as int, seq![value]),
{
    if at < bytes.len() {
        bytes[at] = value;
    } else {
        bytes.push(value);
    }
}

/// What a `Buffer` is: its bytes and the position of its cursor.
pub struct BufferView {
    pub bytes: Seq<u8>,
    pub position: int,
}

/// A byte buffer with a cursor. The cursor never stands past the end.
pub struct Buffer {
    position: usize,
    buf: Vec<u8>,
}

impl View for Buffer {
    type V = BufferView;

    closed spec fn view(&self) -> BufferView {
        BufferView { bytes: self.buf@, position: self.position as int }
    }
}

impl Buffer {
    #[verifier::type_invariant]
    spec fn cursor_in_range(self) -> bool {
        self.position <= self.buf@.len()
    }

    /// A buffer over `buf` with the cursor at its start.
    pub fn new(buf: Vec<u8>) -> (r: Buffer)
        ensures
            r@.bytes == buf@,
            r@.position == 0,
    {
        Buffer { position: 0, buf }
    }

    /// Where the cursor stands.
    pub fn position(&self) -> (r: usize)
        ensures
            r == self@.position,
            r <= self@.bytes.len(),
    {
        proof {
            use_type_invariant(self);
        }
        self.position
    }

    /// How many bytes the buffer holds.
    pub fn len(&self) -> (r: usize)
        ensures
            r == self@.bytes.len(),
            self@.position <= r,
    {
        proof {
            use_type_invariant(self);
        }
        self.buf.len()
    }

    /// Gives up the cursor and hands the bytes out.
    pub fn into_bytes(self) -> (r: Vec<u8>)
        ensures
            r@ == self@.bytes,
    {
        self.buf
    }

    /// Moves the cursor to `position`, which may be anywhere up to the end
    /// of the buffer. A position past the end is refused and the cursor
    /// stays.
    pub fn seek(&mut self, position: usize) -> (r: Result<(), CodecError>)
        ensures
            final(self)@.bytes == old(self)@.bytes,
            position <= old(self)@.bytes.len() ==> r == Ok::<(), CodecError>(())
                && final(self)@.position == position,
            position > old(self)@.bytes.len() ==> r == Err::<(), CodecError>(
                CodecError::TruncatedBuffer,
            ) && final(self)@ == old(self)@,
    {
        if position <= self.buf.len() {
            self.position = position;
            Ok(())
        } else {
            Err(CodecError::TruncatedBuffer)
        }
    }

    /// The byte at the absolute index `offset`; the cursor plays no part.
    pub fn get(&self, offset: usize) -> (r: Result<u8, CodecError>)
        ensures
            offset < self@.bytes.len() ==> r == Ok::<u8, CodecError>(self@.bytes[offset as int]),
            offset >= self@.bytes.len() ==> r == Err::<u8, CodecError>(
                CodecError::TruncatedBuffer,
            ),
    {
        if offset < self.buf.len() {
            Ok(self.buf[offset])
        } else {
            Err(CodecError::TruncatedBuffer)
        }
    }

    /// The byte under the cursor; the cursor stays.
    pub fn peek_u8(&mut self) -> (r: Result<u8, CodecError>)
        ensures
            final(self)@ == old(self)@,
            holds(old(self)@.bytes, old(self)@.position, 1) ==> r == Ok::<u8, CodecError>(
                old(self)@.bytes[old(self)@.position],
            ),
            !holds(old(self)@.bytes, old(self)@.position, 1) ==> r == Err::<u8, CodecError>(
                CodecError::TruncatedBuffer,
            ),
    {
        self.get(self.position)
    }

    /// The two bytes under the cursor as a 16-bit value, high byte first;
    /// the cursor stays.
    pub fn peek_u16(&mut self) -> (r: Result<u16, CodecError>)
        ensures
            final(self)@ == old(self)@,
            holds(old(self)@.bytes, old(self)@.position, 2) ==> r == Ok::<u16, CodecError>(
                be16(old(self)@.bytes, old(self)@.position),
            ),
            !holds(old(self)@.bytes, old(self)@.position, 2) ==> r == Err::<u16, CodecError>(
                CodecError::TruncatedBuffer,
            ),
    {
        self.read_u16_at_offset(0)
    }

    /// The byte that lies `offset` bytes after the cursor; the cursor stays.
    pub fn read_u8_at_offset(&mut self, offset: usize) -> (r: Result<u8, CodecError>)
        ensures
            final(self)@ == old(self)@,
            holds(old(self)@.bytes, old(self)@.position + offset, 1) ==> r == Ok::<u8, CodecError>(
                old(self)@.bytes[old(self)@.position + offset],
            ),
            !holds(old(self)@.bytes, old(self)@.position + offset, 1) ==> r == Err::<
                u8,
                CodecError,
            >(CodecError::TruncatedBuffer),
    {
        proof {
            use_type_invariant(&*self);
        }
        if offset < self.buf.len() - self.position {
            Ok(self.buf[self.position + offset])
        } else {
            Err(CodecError::TruncatedBuffer)
        }
    }

    /// The two bytes that lie `offset` bytes after the cursor as a 16-bit
    /// value, high byte first; the cursor stays.
    pub fn read_u16_at_offset(&mut self, offset: usize) -> (r: Result<u16, CodecError>)
        ensures
            final(self)@ == old(self)@,
            holds(old(self)@.bytes, old(self)@.position + offset, 2) ==> r == Ok::<
                u16,
                CodecError,
            >(be16(old(self)@.bytes, old(self)@.position + offset)),
            !holds(old(self)@.bytes, old(self)@.position + offset, 2) ==> r == Err::<
                u16,
                CodecError,
            >(CodecError::TruncatedBuffer),
    {
        proof {
            use_type_invariant(&*self);
        }
        let room: usize = self.buf.len() - self.position;
        if room >= 2 && offset <= room - 2 {
            let at: usize = self.position + offset;
            let high: u16 = self.buf[at] as u16;
            let low: u16 = self.buf[at + 1] as u16;
            Ok(high * 256 + low)
        } else {
            Err(CodecError::TruncatedBuffer)
        }
    }

    /// Reads the byte under the cursor and steps past it.
    pub fn read_u8(&mut self) -> (r: Result<u8, CodecError>)
        ensures
            final(self)@.bytes == old(self)@.bytes,
            holds(old(self)@.bytes, old(self)@.position, 1) ==> r == Ok::<u8, CodecError>(
                old(self)@.bytes[old(self)@.position],
            ) && final(self)@.position == old(self)@.position + 1,
            !holds(old(self)@.bytes, old(self)@.position, 1) ==> r == Err::<u8, CodecError>(
                CodecError::TruncatedBuffer,
            ) && final(self)@ == old(self)@,
    {
        if self.position < self.buf.len() {
            let value: u8 = self.buf[self.position];
            self.position += 1;
            Ok(value)
        } else {
            Err(CodecError::TruncatedBuffer)
        }
    }

    /// Reads the two bytes under the cursor as a 16-bit value, high byte
    /// first, and steps past them. With fewer than two bytes left the
    /// cursor stays.
    pub fn read_u16(&mut self) -> (r: Result<u16, CodecError>)
        ensures
            final(self)@.bytes == old(self)@.bytes,
            holds(old(self)@.bytes, old(self)@.position, 2) ==> r == Ok::<u16, CodecError>(
                be16(old(self)@.bytes, old(self)@.position),
            ) && final(self)@.position == old(self)@.position + 2,
            !holds(old(self)@.bytes, old(self)@.position, 2) ==> r == Err::<u16, CodecError>(
                CodecError::TruncatedBuffer,
            ) && final(self)@ == old(self)@,
    {
        proof {
            use_type_invariant(&*self);
        }
        if self.buf.len() - self.position >= 2 {
            let at: usize = self.position;
            let high: u16 = self.buf[at] as u16;
            let low: u16 = self.buf[at + 1] as u16;
            self.position += 2;
            Ok(high * 256 + low)
        } else {
            Err(CodecError::TruncatedBuffer)
        }
    }

    /// Reads the four bytes under the cursor as a 32-bit value, high byte
    /// first, and steps past them. With fewer than four bytes left the
    /// cursor stays.
    pub fn read_u32(&mut self) -> (r: Result<u32, CodecError>)
        ensures
            final(self)@.bytes == old(self)@.bytes,
            holds(old(self)@.bytes, old(self)@.position, 4) ==> r == Ok::<u32, CodecError>(
                be32(old(self)@.bytes, old(self)@.position),
            ) && final(self)@.position == old(self)@.position + 4,
            !holds(old(self)@.bytes, old(self)@.position, 4) ==> r == Err::<u32, CodecError>(
                CodecError::TruncatedBuffer,
            ) && final(self)@ == old(self)@,
    {
        proof {
            use_type_invariant(&*self);
        }
        if self.buf.len() - self.position >= 4 {
            let at: usize = self.position;
            let b0: u32 = self.buf[at] as u32;
            let b1: u32 = self.buf[at + 1] as u32;
            let b2: u32 = self.buf[at + 2] as u32;
            let b3: u32 = self.buf[at + 3] as u32;
            self.position += 4;
            Ok(b0 * 16777216 + b1 * 65536 + b2 * 256 + b3)
        } else {
            Err(CodecError::TruncatedBuffer)
        }
    }

    /// A copy of the `size` bytes that start at the absolute index
    /// `offset`; the cursor plays no part and stays.
    pub fn read_sized_at_offset(&mut self, size: usize, offset: usize) -> (r: Result<
        Vec<u8>,
        CodecError,
    >)
        ensures
            final(self)@ == old(self)@,
            holds(old(self)@.bytes, offset as int, size as int) ==> r is Ok && r->Ok_0@
                == old(self)@.bytes.subrange(offset as int, offset + size),
            !holds(old(self)@.bytes, offset as int, size as int) ==> r == Err::<
                Vec<u8>,
                CodecError,
            >(CodecError::TruncatedBuffer),
    {
        let total: usize = self.buf.len();
        if size > total || offset > total - size {
            return Err(CodecError::TruncatedBuffer);
        }
        let mut out: Vec<u8> = Vec::with_capacity(size);
        let mut i: usize = 0;
        while i < size
            invariant
                i <= size,
                offset + size <= total,
                total == self.buf@.len(),
                out@ == self.buf@.subrange(offset as int, offset + i),
            decreases size - i,
        {
            out.push(self.buf[offset + i]);
            i += 1;
            assert(self.buf@.subrange(offset as int, offset + i) == self.buf@.subrange(
                offset as int,
                offset + i - 1,
            ).push(self.buf@[offset + i - 1]));
        }
        Ok(out)
    }

    /// Reads the `size` bytes under the cursor and steps past them. With
    /// fewer than `size` bytes left the cursor stays.
    pub fn read_sized(&mut self, size: usize) -> (r: Result<Vec<u8>, CodecError>)
        ensures
            final(self)@.bytes == old(self)@.bytes,
            holds(old(self)@.bytes, old(self)@.position, size as int) ==> r is Ok && r->Ok_0@
                == old(self)@.bytes.subrange(old(self)@.position, old(self)@.position + size)
                && final(self)@.position == old(self)@.position + size,
            !holds(old(self)@.bytes, old(self)@.position, size as int) ==> r == Err::<
                Vec<u8>,
                CodecError,
            >(CodecError::TruncatedBuffer) && final(self)@ == old(self)@,
    {
        proof {
            use_type_invariant(&*self);
        }
        let at: usize = self.position;
        match self.read_sized_at_offset(size, at) {
            Ok(bytes) => {
                assert(at + size <= self.buf.len());
                self.position = at + size;
                Ok(bytes)
            },
            Err(e) => Err(e),
        }
    }

    /// Writes `value` under the cursor and steps past it: over the byte
    /// that is there, or onto the end of the buffer.
    pub fn write_u8(&mut self, value: u8)
        ensures
            final(self)@.bytes == overlay(old(self)@.bytes, old(self)@.position, seq![value]),
            final(self)@.position == old(self)@.position + 1,
    {
        let one: [u8; 1] = [value];
        assert(one@ == seq![value]);
        self.write_bytes(&one);
    }

    /// Writes `data` from the cursor on and steps past it: over the bytes
    /// that are there, then onto the end of the buffer.
    pub fn write_bytes(&mut self, data: &[u8])
        ensures
            final(self)@.bytes == overlay(old(self)@.bytes, old(self)@.position, data@),
            final(self)@.position == old(self)@.position + data@.len(),
    {
        proof {
            use_type_invariant(&*self);
        }
        let start: usize = self.position;
        // The bytes are taken out while they grow and put back whole, with
        // the cursor at the start meanwhile.
        let mut bytes: Vec<u8> = Vec::new();
        self.position = 0;
        core::mem::swap(&mut bytes, &mut self.buf);
        let ghost base = bytes@;
        let mut i: usize = 0;
        while i < data.len()
            invariant
                i <= data@.len(),
                start <= base.len(),
                bytes@ == overlay(base, start as int, data@.subrange(0, i as int)),
            decreases data@.len() - i,
        {
            assert(start + i <= bytes.len());
            store(&mut bytes, start + i, data[i]);
            i += 1;
            assert(data@.subrange(0, i as int) == data@.subrange(0, i as int - 1).push(
                data@[i - 1],
            ));
        }
        assert(data@.subrange(0, i as int) == data@);
        assert(start + i <= bytes.len());
        core::mem::swap(&mut bytes, &mut self.buf);
        self.position = start + i;
    }

    /// Writes the two bytes of `value`, high byte first, from the cursor
    /// on and steps past them.
    pub fn write_u16(&mut self, value: u16)
        ensures
            final(self)@.bytes == overlay(old(self)@.bytes, old(self)@.position, be16_bytes(value)),
            final(self)@.position == old(self)@.position + 2,
    {
        let pair: [u8; 2] = [(value / 256) as u8, (value % 256) as u8];
        assert(pair@ == be16_bytes(value));
        self.write_bytes(&pair);
    }

    /// Writes the four bytes of `value`, high byte first, from the cursor
    /// on and steps past them.
    pub fn write_u32(&mut self, value: u32)
        ensures
            final(self)@.bytes == overlay(old(self)@.bytes, old(self)@.position, be32_bytes(value)),
            final(self)@.position == old(self)@.position + 4,
    {
        let quad: [u8; 4] = [
            (value / 16777216) as u8,
            ((value / 65536) % 256) as u8,
            ((value / 256) % 256) as u8,
            (value % 256) as u8,
        ];
        assert(quad@ == be32_bytes(value));
        self.write_bytes(&quad);
    }
}

} // verus!
