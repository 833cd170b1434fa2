//! Fixed-width integers at the cursor, one at a time or in arrays, in the
//! parser's byte order.
use crate::codec::{decode_uint, encode_uint, lemma_radix_values, radix, to_signed};
use crate::error::{BinaryParserError, IoErrorKind};
use crate::model::{lemma_write_twice, Outcome, ParserView};
use crate::parser::BinaryParser;
use vstd::prelude::*;

verus! {

impl ParserView {
    /// The unsigned integer number `index` of an array of integers of
    /// `width` bytes that starts at the cursor.
    pub open spec fn uint_at(self, index: nat, width: nat) -> nat {
        crate::codec::decode(
            self.avail().subrange((index * width) as int, (index * width + width) as int),
            self.big_endian,
        )
    }

    /// The signed integer number `index` of an array of integers of `width`
    /// bytes that starts at the cursor.
    pub open spec fn int_at(self, index: nat, width: nat) -> int {
        to_signed(self.uint_at(index, width), width)
    }

    /// The byte strings `chunks` written one after the other, up to the
    /// first that does not fit.
    pub open spec fn write_each(self, chunks: Seq<Seq<u8>>) -> Outcome
        decreases chunks.len(),
    {
        if chunks.len() == 0 {
            Outcome::done(self)
        } else {
            let first = self.write(chunks[0]);
            if first.error is Some {
                first
            } else {
                first.state.write_each(chunks.drop_first())
            }
        }
    }
}

/// The bytes of `chunks`, one byte string after the other.
pub open spec fn joined(chunks: Seq<Seq<u8>>) -> Seq<u8>
    decreases chunks.len(),
{
    if chunks.len() == 0 {
        Seq::empty()
    } else {
        chunks[0] + joined(chunks.drop_first())
    }
}

/// Byte strings that fit all together are written as one: the buffer holds
/// them one after the other from the cursor on.
pub proof fn lemma_write_each_joined(s: ParserView, chunks: Seq<Seq<u8>>)
    requires
        chunks.len() > 0,
        s.can_write(joined(chunks).len()),
    ensures
        s.write_each(chunks) == Outcome::done(s.after_write(joined(chunks))),
    decreases chunks.len(),
{
    let first = chunks[0];
    let rest = chunks.drop_first();
    if rest.len() == 0 {
        assert(first + joined(rest) =~= first);
    } else {
        lemma_write_each_joined(s.after_write(first), rest);
        lemma_write_twice(s, first, joined(rest));
    }
}

/// The element at the cursor of a parser that has read `index` elements of
/// an array is element `index` of the array.
pub proof fn lemma_element_here(before: ParserView, index: nat, width: nat)
    requires
        width > 0,
        before.can_read(index * width),
    ensures
        before.after_read(index * width).can_read(width) <==> before.can_read(
            (index + 1) * width,
        ),
        before.after_read(index * width).can_read(width) ==> before.after_read(
            index * width,
        ).uint_here(width) == before.uint_at(index, width),
        before.after_read(index * width).after_read(width) == before.after_read(
            (index + 1) * width,
        ),
{
    let here = before.after_read(index * width);
    assert((index + 1) * width == index * width + width) by (nonlinear_arith);
    if before.pos <= before.data.len() {
        assert(here.avail() =~= before.avail().skip((index * width) as int));
        if here.can_read(width) {
            assert(here.peek(width) =~= before.avail().subrange(
                (index * width) as int,
                (index * width + width) as int,
            ));
        }
    } else {
        assert(index * width == 0);
        assert(here == before);
        if here.can_read(width) {
            assert(here.peek(width) =~= before.avail().subrange(
                (index * width) as int,
                (index * width + width) as int,
            ));
        }
    }
}

/// A read that fails part of the way through an array leaves the parser
/// where a failed read of the whole array leaves it.
pub proof fn lemma_array_cut_short(before: ParserView, index: nat, count: nat, width: nat)
    requires
        width > 0,
        index < count,
        before.can_read(index * width),
        !before.can_read((index + 1) * width),
    ensures
        !before.can_read(count * width),
        before.after_read(count * width) == before.at(before.data.len()),
{
    assert((index + 1) * width <= count * width) by (nonlinear_arith)
        requires
            index < count,
            width > 0,
    ;
}

impl BinaryParser {
    /// Reads an unsigned integer of `width` bytes.
    pub fn read_uint(&mut self, width: usize) -> (r: Result<u64, BinaryParserError>)
        requires
            width <= 8,
        ensures
            final(self)@ == old(self)@.after_read(width as nat),
            match r {
                Ok(value) => old(self)@.can_read(width as nat) && value == old(self)@.uint_here(
                    width as nat,
                ) && value < radix(width as nat),
                Err(e) => !old(self)@.can_read(width as nat) && e == BinaryParserError::Io(
                    IoErrorKind::UnexpectedEof,
                ),
            },
    {
        let big_endian = self.is_big_endian();
        match self.read_buf(width) {
            Ok(bytes) => Ok(decode_uint(bytes.as_slice(), big_endian)),
            Err(e) => Err(e),
        }
    }

    /// Writes the `width` low bytes of `value`.
    pub fn write_uint(&mut self, value: u64, width: usize) -> (r: Result<(), BinaryParserError>)
        ensures
            final(self)@ == old(self)@.write(old(self)@.uint_bytes(value as nat, width as nat)).state,
            r == old(self)@.write(old(self)@.uint_bytes(value as nat, width as nat)).result(),
    {
        let bytes = encode_uint(value, width, self.is_big_endian());
        self.write_buf(bytes.as_slice())
    }

    /// Reads one `u8`.
    pub fn read_u8(&mut self) -> (r: Result<u8, BinaryParserError>)
        ensures
            final(self)@ == old(self)@.after_read(1),
            match r {
                Ok(value) => old(self)@.can_read(1) && value == old(self)@.uint_here(1),
                Err(e) => !old(self)@.can_read(1) && e == BinaryParserError::Io(
                    IoErrorKind::UnexpectedEof,
                ),
            },
    {
        proof {
            lemma_radix_values();
        }
        match self.read_uint(1) {
            Ok(value) => Ok(value as u8),
            Err(e) => Err(e),
        }
    }

    /// Reads `count` values of type `u8`, all of them or none: where the
    /// buffer ends before the last, the read fails with the cursor at the end.
    pub fn read_u8_array(&mut self, count: u64) -> (r: Result<Vec<u8>, BinaryParserError>)
        ensures
            final(self)@ == old(self)@.after_read(count as nat * 1),
            match r {
                Ok(values) => {
                    &&& old(self)@.can_read(count as nat * 1)
                    &&& values@.len() == count
                    &&& forall|i: int|
                        0 <= i < count ==> #[trigger] values@[i] == old(self)@.uint_at(i as nat, 1)
                },
                Err(e) => !old(self)@.can_read(count as nat * 1) && e == BinaryParserError::Io(
                    IoErrorKind::UnexpectedEof,
                ),
            },
    {
        let ghost before = self@;
        let mut values: Vec<u8> = Vec::new();
        let mut i: u64 = 0;
        while i < count
            invariant
                i <= count,
                before == old(self)@,
                before.can_read(i as nat * 1),
                self@ == before.after_read(i as nat * 1),
                values@.len() == i,
                forall|j: int| 0 <= j < i ==> #[trigger] values@[j] == before.uint_at(j as nat, 1),
            decreases count - i,
        {
            proof {
                lemma_element_here(before, i as nat, 1);
            }
            match self.read_u8() {
                Ok(value) => {
                    values.push(value);
                },
                Err(e) => {
                    proof {
                        lemma_array_cut_short(before, i as nat, count as nat, 1);
                    }
                    return Err(e);
                },
            }
            i = i + 1;
        }
        Ok(values)
    }

    /// Writes one `u8`.
    pub fn write_u8(&mut self, data: u8) -> (r: Result<(), BinaryParserError>)
        ensures
            final(self)@ == old(self)@.write(old(self)@.uint_bytes(data as nat, 1)).state,
            r == old(self)@.write(old(self)@.uint_bytes(data as nat, 1)).result(),
    {
        self.write_uint(data as u64, 1)
    }

    /// Writes the values of `data` one after the other, up to the first
    /// that does not fit.
    pub fn write_u8_array(&mut self, data: &[u8]) -> (r: Result<(), BinaryParserError>)
        ensures
            final(self)@ == old(self)@.write_each(
                Seq::new(data@.len(), |i: int| old(self)@.uint_bytes(data@[i] as nat, 1)),
            ).state,
            r == old(self)@.write_each(
                Seq::new(data@.len(), |i: int| old(self)@.uint_bytes(data@[i] as nat, 1)),
            ).result(),
    {
        let ghost before = self@;
        let ghost chunks = Seq::new(data@.len(), |i: int| before.uint_bytes(data@[i] as nat, 1));
        let count = data.len();
        let mut i: usize = 0;
        proof {
            assert(chunks.skip(0) =~= chunks);
        }
        while i < count
            invariant
                i <= count,
                before == old(self)@,
                count == data@.len(),
                chunks == Seq::new(data@.len(), |i: int| before.uint_bytes(data@[i] as nat, 1)),
                self@.big_endian == before.big_endian,
                before.write_each(chunks) == self@.write_each(chunks.skip(i as int)),
            decreases count - i,
        {
            proof {
                assert(chunks.skip(i as int).drop_first() =~= chunks.skip(i + 1));
            }
            match self.write_u8(data[i]) {
                Ok(()) => {},
                Err(e) => {
                    return Err(e);
                },
            }
            i = i + 1;
        }
        Ok(())
    }

    /// Reads one `u16`.
    pub fn read_u16(&mut self) -> (r: Result<u16, BinaryParserError>)
        ensures
            final(self)@ == old(self)@.after_read(2),
            match r {
                Ok(value) => old(self)@.can_read(2) && value == old(self)@.uint_here(2),
                Err(e) => !old(self)@.can_read(2) && e == BinaryParserError::Io(
                    IoErrorKind::UnexpectedEof,
                ),
            },
    {
        proof {
            lemma_radix_values();
        }
        match self.read_uint(2) {
            Ok(value) => Ok(value as u16),
            Err(e) => Err(e),
        }
    }

    /// Reads `count` values of type `u16`, all of them or none: where the
    /// buffer ends before the last, the read fails with the cursor at the end.
    pub fn read_u16_array(&mut self, count: u64) -> (r: Result<Vec<u16>, BinaryParserError>)
        ensures
            final(self)@ == old(self)@.after_read(count as nat * 2),
            match r {
                Ok(values) => {
                    &&& old(self)@.can_read(count as nat * 2)
                    &&& values@.len() == count
                    &&& forall|i: int|
                        0 <= i < count ==> #[trigger] values@[i] == old(self)@.uint_at(i as nat, 2)
                },
                Err(e) => !old(self)@.can_read(count as nat * 2) && e == BinaryParserError::Io(
                    IoErrorKind::UnexpectedEof,
                ),
            },
    {
        let ghost before = self@;
        let mut values: Vec<u16> = Vec::new();
        let mut i: u64 = 0;
        while i < count
            invariant
                i <= count,
                before == old(self)@,
                before.can_read(i as nat * 2),
                self@ == before.after_read(i as nat * 2),
                values@.len() == i,
                forall|j: int| 0 <= j < i ==> #[trigger] values@[j] == before.uint_at(j as nat, 2),
            decreases count - i,
        {
            proof {
                lemma_element_here(before, i as nat, 2);
            }
            match self.read_u16() {
                Ok(value) => {
                    values.push(value);
                },
                Err(e) => {
                    proof {
                        lemma_array_cut_short(before, i as nat, count as nat, 2);
                    }
                    return Err(e);
                },
            }
            i = i + 1;
        }
        Ok(values)
    }

    /// Writes one `u16`.
    pub fn write_u16(&mut self, data: u16) -> (r: Result<(), BinaryParserError>)
        ensures
            final(self)@ == old(self)@.write(old(self)@.uint_bytes(data as nat, 2)).state,
            r == old(self)@.write(old(self)@.uint_bytes(data as nat, 2)).result(),
    {
        self.write_uint(data as u64, 2)
    }

    /// Writes the values of `data` one after the other, up to the first
    /// that does not fit.
    pub fn write_u16_array(&mut self, data: &[u16]) -> (r: Result<(), BinaryParserError>)
        ensures
            final(self)@ == old(self)@.write_each(
                Seq::new(data@.len(), |i: int| old(self)@.uint_bytes(data@[i] as nat, 2)),
            ).state,
            r == old(self)@.write_each(
                Seq::new(data@.len(), |i: int| old(self)@.uint_bytes(data@[i] as nat, 2)),
            ).result(),
    {
        let ghost before = self@;
        let ghost chunks = Seq::new(data@.len(), |i: int| before.uint_bytes(data@[i] as nat, 2));
        let count = data.len();
        let mut i: usize = 0;
        proof {
            assert(chunks.skip(0) =~= chunks);
        }
        while i < count
            invariant
                i <= count,
                before == old(self)@,
                count == data@.len(),
                chunks == Seq::new(data@.len(), |i: int| before.uint_bytes(data@[i] as nat, 2)),
                self@.big_endian == before.big_endian,
                before.write_each(chunks) == self@.write_each(chunks.skip(i as int)),
            decreases count - i,
        {
            proof {
                assert(chunks.skip(i as int).drop_first() =~= chunks.skip(i + 1));
            }
            match self.write_u16(data[i]) {
                Ok(()) => {},
                Err(e) => {
                    return Err(e);
                },
            }
            i = i + 1;
        }
        Ok(())
    }

    /// Reads one `u32`.
    pub fn read_u32(&mut self) -> (r: Result<u32, BinaryParserError>)
        ensures
            final(self)@ == old(self)@.after_read(4),
            match r {
                Ok(value) => old(self)@.can_read(4) && value == old(self)@.uint_here(4),
                Err(e) => !old(self)@.can_read(4) && e == BinaryParserError::Io(
                    IoErrorKind::UnexpectedEof,
                ),
            },
    {
        proof {
            lemma_radix_values();
        }
        match self.read_uint(4) {
            Ok(value) => Ok(value as u32),
            Err(e) => Err(e),
        }
    }

    /// Reads `count` values of type `u32`, all of them or none: where the
    /// buffer ends before the last, the read fails with the cursor at the end.
    pub fn read_u32_array(&mut self, count: u64) -> (r: Result<Vec<u32>, BinaryParserError>)
        ensures
            final(self)@ == old(self)@.after_read(count as nat * 4),
            match r {
                Ok(values) => {
                    &&& old(self)@.can_read(count as nat * 4)
                    &&& values@.len() == count
                    &&& forall|i: int|
                        0 <= i < count ==> #[trigger] values@[i] == old(self)@.uint_at(i as nat, 4)
                },
                Err(e) => !old(self)@.can_read(count as nat * 4) && e == BinaryParserError::Io(
                    IoErrorKind::UnexpectedEof,
                ),
            },
    {
        let ghost before = self@;
        let mut values: Vec<u32> = Vec::new();
        let mut i: u64 = 0;
        while i < count
            invariant
                i <= count,
                before == old(self)@,
                before.can_read(i as nat * 4),
                self@ == before.after_read(i as nat * 4),
                values@.len() == i,
                forall|j: int| 0 <= j < i ==> #[trigger] values@[j] == before.uint_at(j as nat, 4),
            decreases count - i,
        {
            proof {
                lemma_element_here(before, i as nat, 4);
            }
            match self.read_u32() {
                Ok(value) => {
                    values.push(value);
                },
                Err(e) => {
                    proof {
                        lemma_array_cut_short(before, i as nat, count as nat, 4);
                    }
                    return Err(e);
                },
            }
            i = i + 1;
        }
        Ok(values)
    }

    /// Writes one `u32`.
    pub fn write_u32(&mut self, data: u32) -> (r: Result<(), BinaryParserError>)
        ensures
            final(self)@ == old(self)@.write(old(self)@.uint_bytes(data as nat, 4)).state,
            r == old(self)@.write(old(self)@.uint_bytes(data as nat, 4)).result(),
    {
        self.write_uint(data as u64, 4)
    }

    /// Writes the values of `data` one after the other, up to the first
    /// that does not fit.
    pub fn write_u32_array(&mut self, data: &[u32]) -> (r: Result<(), BinaryParserError>)
        ensures
            final(self)@ == old(self)@.write_each(
                Seq::new(data@.len(), |i: int| old(self)@.uint_bytes(data@[i] as nat, 4)),
            ).state,
            r == old(self)@.write_each(
                Seq::new(data@.len(), |i: int| old(self)@.uint_bytes(data@[i] as nat, 4)),
            ).result(),
    {
        let ghost before = self@;
        let ghost chunks = Seq::new(data@.len(), |i: int| before.uint_bytes(data@[i] as nat, 4));
        let count = data.len();
        let mut i: usize = 0;
        proof {
            assert(chunks.skip(0) =~= chunks);
        }
        while i < count
            invariant
                i <= count,
                before == old(self)@,
                count == data@.len(),
                chunks == Seq::new(data@.len(), |i: int| before.uint_bytes(data@[i] as nat, 4)),
                self@.big_endian == before.big_endian,
                before.write_each(chunks) == self@.write_each(chunks.skip(i as int)),
            decreases count - i,
        {
            proof {
                assert(chunks.skip(i as int).drop_first() =~= chunks.skip(i + 1));
            }
            match self.write_u32(data[i]) {
                Ok(()) => {},
                Err(e) => {
                    return Err(e);
                },
            }
            i = i + 1;
        }
        Ok(())
    }

    /// Reads one `u64`.
    pub fn read_u64(&mut self) -> (r: Result<u64, BinaryParserError>)
        ensures
            final(self)@ == old(self)@.after_read(8),
            match r {
                Ok(value) => old(self)@.can_read(8) && value == old(self)@.uint_here(8),
                Err(e) => !old(self)@.can_read(8) && e == BinaryParserError::Io(
                    IoErrorKind::UnexpectedEof,
                ),
            },
    {
        proof {
            lemma_radix_values();
        }
        match self.read_uint(8) {
            Ok(value) => Ok(value as u64),
            Err(e) => Err(e),
        }
    }

    /// Reads `count` values of type `u64`, all of them or none: where the
    /// buffer ends before the last, the read fails with the cursor at the end.
    pub fn read_u64_array(&mut self, count: u64) -> (r: Result<Vec<u64>, BinaryParserError>)
        ensures
            final(self)@ == old(self)@.after_read(count as nat * 8),
            match r {
                Ok(values) => {
                    &&& old(self)@.can_read(count as nat * 8)
                    &&& values@.len() == count
                    &&& forall|i: int|
                        0 <= i < count ==> #[trigger] values@[i] == old(self)@.uint_at(i as nat, 8)
                },
                Err(e) => !old(self)@.can_read(count as nat * 8) && e == BinaryParserError::Io(
                    IoErrorKind::UnexpectedEof,
                ),
            },
    {
        let ghost before = self@;
        let mut values: Vec<u64> = Vec::new();
        let mut i: u64 = 0;
        while i < count
            invariant
                i <= count,
                before == old(self)@,
                before.can_read(i as nat * 8),
                self@ == before.after_read(i as nat * 8),
                values@.len() == i,
                forall|j: int| 0 <= j < i ==> #[trigger] values@[j] == before.uint_at(j as nat, 8),
            decreases count - i,
        {
            proof {
                lemma_element_here(before, i as nat, 8);
            }
            match self.read_u64() {
                Ok(value) => {
                    values.push(value);
                },
                Err(e) => {
                    proof {
                        lemma_array_cut_short(before, i as nat, count as nat, 8);
                    }
                    return Err(e);
                },
            }
            i = i + 1;
        }
        Ok(values)
    }

    /// Writes one `u64`.
    pub fn write_u64(&mut self, data: u64) -> (r: Result<(), BinaryParserError>)
        ensures
            final(self)@ == old(self)@.write(old(self)@.uint_bytes(data as nat, 8)).state,
            r == old(self)@.write(old(self)@.uint_bytes(data as nat, 8)).result(),
    {
        self.write_uint(data as u64, 8)
    }

    /// Writes the values of `data` one after the other, up to the first
    /// that does not fit.
    pub fn write_u64_array(&mut self, data: &[u64]) -> (r: Result<(), BinaryParserError>)
        ensures
            final(self)@ == old(self)@.write_each(
                Seq::new(data@.len(), |i: int| old(self)@.uint_bytes(data@[i] as nat, 8)),
            ).state,
            r == old(self)@.write_each(
                Seq::new(data@.len(), |i: int| old(self)@.uint_bytes(data@[i] as nat, 8)),
            ).result(),
    {
        let ghost before = self@;
        let ghost chunks = Seq::new(data@.len(), |i: int| before.uint_bytes(data@[i] as nat, 8));
        let count = data.len();
        let mut i: usize = 0;
        proof {
            assert(chunks.skip(0) =~= chunks);
        }
        while i < count
            invariant
                i <= count,
                before == old(self)@,
                count == data@.len(),
                chunks == Seq::new(data@.len(), |i: int| before.uint_bytes(data@[i] as nat, 8)),
                self@.big_endian == before.big_endian,
                before.write_each(chunks) == self@.write_each(chunks.skip(i as int)),
            decreases count - i,
        {
            proof {
                assert(chunks.skip(i as int).drop_first() =~= chunks.skip(i + 1));
            }
            match self.write_u64(data[i]) {
                Ok(()) => {},
                Err(e) => {
                    return Err(e);
                },
            }
            i = i + 1;
        }
        Ok(())
    }

    /// Reads one `i8`, stored in two's complement.
    pub fn read_i8(&mut self) -> (r: Result<i8, BinaryParserError>)
        ensures
            final(self)@ == old(self)@.after_read(1),
            match r {
                Ok(value) => old(self)@.can_read(1) && value == old(self)@.int_here(1),
                Err(e) => !old(self)@.can_read(1) && e == BinaryParserError::Io(
                    IoErrorKind::UnexpectedEof,
                ),
            },
    {
        proof {
            lemma_radix_values();
        }
        match self.read_uint(1) {
            Ok(pattern) => {
                if pattern >= 0x80 {
                    Ok((pattern as i128 - 0x100) as i8)
                } else {
                    Ok(pattern as i8)
                }
            },
            Err(e) => Err(e),
        }
    }

    /// Reads `count` values of type `i8`, all of them or none: where the
    /// buffer ends before the last, the read fails with the cursor at the end.
    pub fn read_i8_array(&mut self, count: u64) -> (r: Result<Vec<i8>, BinaryParserError>)
        ensures
            final(self)@ == old(self)@.after_read(count as nat * 1),
            match r {
                Ok(values) => {
                    &&& old(self)@.can_read(count as nat * 1)
                    &&& values@.len() == count
                    &&& forall|i: int|
                        0 <= i < count ==> #[trigger] values@[i] == old(self)@.int_at(i as nat, 1)
                },
                Err(e) => !old(self)@.can_read(count as nat * 1) && e == BinaryParserError::Io(
                    IoErrorKind::UnexpectedEof,
                ),
            },
    {
        let ghost before = self@;
        let mut values: Vec<i8> = Vec::new();
        let mut i: u64 = 0;
        while i < count
            invariant
                i <= count,
                before == old(self)@,
                before.can_read(i as nat * 1),
                self@ == before.after_read(i as nat * 1),
                values@.len() == i,
                forall|j: int| 0 <= j < i ==> #[trigger] values@[j] == before.int_at(j as nat, 1),
            decreases count - i,
        {
            proof {
                lemma_element_here(before, i as nat, 1);
            }
            match self.read_i8() {
                Ok(value) => {
                    values.push(value);
                },
                Err(e) => {
                    proof {
                        lemma_array_cut_short(before, i as nat, count as nat, 1);
                    }
                    return Err(e);
                },
            }
            i = i + 1;
        }
        Ok(values)
    }

    /// Writes one `i8` in two's complement.
    pub fn write_i8(&mut self, data: i8) -> (r: Result<(), BinaryParserError>)
        ensures
            final(self)@ == old(self)@.write(old(self)@.int_bytes(data as int, 1)).state,
            r == old(self)@.write(old(self)@.int_bytes(data as int, 1)).result(),
    {
        proof {
            lemma_radix_values();
        }
        let pattern: u64 = if data < 0 {
            (data as i128 + 0x100) as u64
        } else {
            data as u64
        };
        self.write_uint(pattern, 1)
    }

    /// Writes the values of `data` one after the other, up to the first
    /// that does not fit.
    pub fn write_i8_array(&mut self, data: &[i8]) -> (r: Result<(), BinaryParserError>)
        ensures
            final(self)@ == old(self)@.write_each(
                Seq::new(data@.len(), |i: int| old(self)@.int_bytes(data@[i] as int, 1)),
            ).state,
            r == old(self)@.write_each(
                Seq::new(data@.len(), |i: int| old(self)@.int_bytes(data@[i] as int, 1)),
            ).result(),
    {
        let ghost before = self@;
        let ghost chunks = Seq::new(data@.len(), |i: int| before.int_bytes(data@[i] as int, 1));
        let count = data.len();
        let mut i: usize = 0;
        proof {
            assert(chunks.skip(0) =~= chunks);
        }
        while i < count
            invariant
                i <= count,
                before == old(self)@,
                count == data@.len(),
                chunks == Seq::new(data@.len(), |i: int| before.int_bytes(data@[i] as int, 1)),
                self@.big_endian == before.big_endian,
                before.write_each(chunks) == self@.write_each(chunks.skip(i as int)),
            decreases count - i,
        {
            proof {
                assert(chunks.skip(i as int).drop_first() =~= chunks.skip(i + 1));
            }
            match self.write_i8(data[i]) {
                Ok(()) => {},
                Err(e) => {
                    return Err(e);
                },
            }
            i = i + 1;
        }
        Ok(())
    }

    /// Reads one `i16`, stored in two's complement.
    pub fn read_i16(&mut self) -> (r: Result<i16, BinaryParserError>)
        ensures
            final(self)@ == old(self)@.after_read(2),
            match r {
                Ok(value) => old(self)@.can_read(2) && value == old(self)@.int_here(2),
                Err(e) => !old(self)@.can_read(2) && e == BinaryParserError::Io(
                    IoErrorKind::UnexpectedEof,
                ),
            },
    {
        proof {
            lemma_radix_values();
        }
        match self.read_uint(2) {
            Ok(pattern) => {
                if pattern >= 0x8000 {
                    Ok((pattern as i128 - 0x1_0000) as i16)
                } else {
                    Ok(pattern as i16)
                }
            },
            Err(e) => Err(e),
        }
    }

    /// Reads `count` values of type `i16`, all of them or none: where the
    /// buffer ends before the last, the read fails with the cursor at the end.
    pub fn read_i16_array(&mut self, count: u64) -> (r: Result<Vec<i16>, BinaryParserError>)
        ensures
            final(self)@ == old(self)@.after_read(count as nat * 2),
            match r {
                Ok(values) => {
                    &&& old(self)@.can_read(count as nat * 2)
                    &&& values@.len() == count
                    &&& forall|i: int|
                        0 <= i < count ==> #[trigger] values@[i] == old(self)@.int_at(i as nat, 2)
                },
                Err(e) => !old(self)@.can_read(count as nat * 2) && e == BinaryParserError::Io(
                    IoErrorKind::UnexpectedEof,
                ),
            },
    {
        let ghost before = self@;
        let mut values: Vec<i16> = Vec::new();
        let mut i: u64 = 0;
        while i < count
            invariant
                i <= count,
                before == old(self)@,
                before.can_read(i as nat * 2),
                self@ == before.after_read(i as nat * 2),
                values@.len() == i,
                forall|j: int| 0 <= j < i ==> #[trigger] values@[j] == before.int_at(j as nat, 2),
            decreases count - i,
        {
            proof {
                lemma_element_here(before, i as nat, 2);
            }
            match self.read_i16() {
                Ok(value) => {
                    values.push(value);
                },
                Err(e) => {
                    proof {
                        lemma_array_cut_short(before, i as nat, count as nat, 2);
                    }
                    return Err(e);
                },
            }
            i = i + 1;
        }
        Ok(values)
    }

    /// Writes one `i16` in two's complement.
    pub fn write_i16(&mut self, data: i16) -> (r: Result<(), BinaryParserError>)
        ensures
            final(self)@ == old(self)@.write(old(self)@.int_bytes(data as int, 2)).state,
            r == old(self)@.write(old(self)@.int_bytes(data as int, 2)).result(),
    {
        proof {
            lemma_radix_values();
        }
        let pattern: u64 = if data < 0 {
            (data as i128 + 0x1_0000) as u64
        } else {
            data as u64
        };
        self.write_uint(pattern, 2)
    }

    /// Writes the values of `data` one after the other, up to the first
    /// that does not fit.
    pub fn write_i16_array(&mut self, data: &[i16]) -> (r: Result<(), BinaryParserError>)
        ensures
            final(self)@ == old(self)@.write_each(
                Seq::new(data@.len(), |i: int| old(self)@.int_bytes(data@[i] as int, 2)),
            ).state,
            r == old(self)@.write_each(
                Seq::new(data@.len(), |i: int| old(self)@.int_bytes(data@[i] as int, 2)),
            ).result(),
    {
        let ghost before = self@;
        let ghost chunks = Seq::new(data@.len(), |i: int| before.int_bytes(data@[i] as int, 2));
        let count = data.len();
        let mut i: usize = 0;
        proof {
            assert(chunks.skip(0) =~= chunks);
        }
        while i < count
            invariant
                i <= count,
                before == old(self)@,
                count == data@.len(),
                chunks == Seq::new(data@.len(), |i: int| before.int_bytes(data@[i] as int, 2)),
                self@.big_endian == before.big_endian,
                before.write_each(chunks) == self@.write_each(chunks.skip(i as int)),
            decreases count - i,
        {
            proof {
                assert(chunks.skip(i as int).drop_first() =~= chunks.skip(i + 1));
            }
            match self.write_i16(data[i]) {
                Ok(()) => {},
                Err(e) => {
                    return Err(e);
                },
            }
            i = i + 1;
        }
        Ok(())
    }

    /// Reads one `i32`, stored in two's complement.
    pub fn read_i32(&mut self) -> (r: Result<i32, BinaryParserError>)
        ensures
            final(self)@ == old(self)@.after_read(4),
            match r {
                Ok(value) => old(self)@.can_read(4) && value == old(self)@.int_here(4),
                Err(e) => !old(self)@.can_read(4) && e == BinaryParserError::Io(
                    IoErrorKind::UnexpectedEof,
                ),
            },
    {
        proof {
            lemma_radix_values();
        }
        match self.read_uint(4) {
            Ok(pattern) => {
                if pattern >= 0x8000_0000 {
                    Ok((pattern as i128 - 0x1_0000_0000) as i32)
                } else {
                    Ok(pattern as i32)
                }
            },
            Err(e) => Err(e),
        }
    }

    /// Reads `count` values of type `i32`, all of them or none: where the
    /// buffer ends before the last, the read fails with the cursor at the end.
    pub fn read_i32_array(&mut self, count: u64) -> (r: Result<Vec<i32>, BinaryParserError>)
        ensures
            final(self)@ == old(self)@.after_read(count as nat * 4),
            match r {
                Ok(values) => {
                    &&& old(self)@.can_read(count as nat * 4)
                    &&& values@.len() == count
                    &&& forall|i: int|
                        0 <= i < count ==> #[trigger] values@[i] == old(self)@.int_at(i as nat, 4)
                },
                Err(e) => !old(self)@.can_read(count as nat * 4) && e == BinaryParserError::Io(
                    IoErrorKind::UnexpectedEof,
                ),
            },
    {
        let ghost before = self@;
        let mut values: Vec<i32> = Vec::new();
        let mut i: u64 = 0;
        while i < count
            invariant
                i <= count,
                before == old(self)@,
                before.can_read(i as nat * 4),
                self@ == before.after_read(i as nat * 4),
                values@.len() == i,
                forall|j: int| 0 <= j < i ==> #[trigger] values@[j] == before.int_at(j as nat, 4),
            decreases count - i,
        {
            proof {
                lemma_element_here(before, i as nat, 4);
            }
            match self.read_i32() {
                Ok(value) => {
                    values.push(value);
                },
                Err(e) => {
                    proof {
                        lemma_array_cut_short(before, i as nat, count as nat, 4);
                    }
                    return Err(e);
                },
            }
            i = i + 1;
        }
        Ok(values)
    }

    /// Writes one `i32` in two's complement.
    pub fn write_i32(&mut self, data: i32) -> (r: Result<(), BinaryParserError>)
        ensures
            final(self)@ == old(self)@.write(old(self)@.int_bytes(data as int, 4)).state,
            r == old(self)@.write(old(self)@.int_bytes(data as int, 4)).result(),
    {
        proof {
            lemma_radix_values();
        }
        let pattern: u64 = if data < 0 {
            (data as i128 + 0x1_0000_0000) as u64
        } else {
            data as u64
        };
        self.write_uint(pattern, 4)
    }

    /// Writes the values of `data` one after the other, up to the first
    /// that does not fit.
    pub fn write_i32_array(&mut self, data: &[i32]) -> (r: Result<(), BinaryParserError>)
        ensures
            final(self)@ == old(self)@.write_each(
                Seq::new(data@.len(), |i: int| old(self)@.int_bytes(data@[i] as int, 4)),
            ).state,
            r == old(self)@.write_each(
                Seq::new(data@.len(), |i: int| old(self)@.int_bytes(data@[i] as int, 4)),
            ).result(),
    {
        let ghost before = self@;
        let ghost chunks = Seq::new(data@.len(), |i: int| before.int_bytes(data@[i] as int, 4));
        let count = data.len();
        let mut i: usize = 0;
        proof {
            assert(chunks.skip(0) =~= chunks);
        }
        while i < count
            invariant
                i <= count,
                before == old(self)@,
                count == data@.len(),
                chunks == Seq::new(data@.len(), |i: int| before.int_bytes(data@[i] as int, 4)),
                self@.big_endian == before.big_endian,
                before.write_each(chunks) == self@.write_each(chunks.skip(i as int)),
            decreases count - i,
        {
            proof {
                assert(chunks.skip(i as int).drop_first() =~= chunks.skip(i + 1));
            }
            match self.write_i32(data[i]) {
                Ok(()) => {},
                Err(e) => {
                    return Err(e);
                },
            }
            i = i + 1;
        }
        Ok(())
    }

    /// Reads one `i64`, stored in two's complement.
    pub fn read_i64(&mut self) -> (r: Result<i64, BinaryParserError>)
        ensures
            final(self)@ == old(self)@.after_read(8),
            match r {
                Ok(value) => old(self)@.can_read(8) && value == old(self)@.int_here(8),
                Err(e) => !old(self)@.can_read(8) && e == BinaryParserError::Io(
                    IoErrorKind::UnexpectedEof,
                ),
            },
    {
        proof {
            lemma_radix_values();
        }
        match self.read_uint(8) {
            Ok(pattern) => {
                if pattern >= 0x8000_0000_0000_0000 {
                    Ok((pattern as i128 - 0x1_0000_0000_0000_0000) as i64)
                } else {
                    Ok(pattern as i64)
                }
            },
            Err(e) => Err(e),
        }
    }

    /// Reads `count` values of type `i64`, all of them or none: where the
    /// buffer ends before the last, the read fails with the cursor at the end.
    pub fn read_i64_array(&mut self, count: u64) -> (r: Result<Vec<i64>, BinaryParserError>)
        ensures
            final(self)@ == old(self)@.after_read(count as nat * 8),
            match r {
                Ok(values) => {
                    &&& old(self)@.can_read(count as nat * 8)
                    &&& values@.len() == count
                    &&& forall|i: int|
                        0 <= i < count ==> #[trigger] values@[i] == old(self)@.int_at(i as nat, 8)
                },
                Err(e) => !old(self)@.can_read(count as nat * 8) && e == BinaryParserError::Io(
                    IoErrorKind::UnexpectedEof,
                ),
            },
    {
        let ghost before = self@;
        let mut values: Vec<i64> = Vec::new();
        let mut i: u64 = 0;
        while i < count
            invariant
                i <= count,
                before == old(self)@,
                before.can_read(i as nat * 8),
                self@ == before.after_read(i as nat * 8),
                values@.len() == i,
                forall|j: int| 0 <= j < i ==> #[trigger] values@[j] == before.int_at(j as nat, 8),
            decreases count - i,
        {
            proof {
                lemma_element_here(before, i as nat, 8);
            }
            match self.read_i64() {
                Ok(value) => {
                    values.push(value);
                },
                Err(e) => {
                    proof {
                        lemma_array_cut_short(before, i as nat, count as nat, 8);
                    }
                    return Err(e);
                },
            }
            i = i + 1;
        }
        Ok(values)
    }

    /// Writes one `i64` in two's complement.
    pub fn write_i64(&mut self, data: i64) -> (r: Result<(), BinaryParserError>)
        ensures
            final(self)@ == old(self)@.write(old(self)@.int_bytes(data as int, 8)).state,
            r == old(self)@.write(old(self)@.int_bytes(data as int, 8)).result(),
    {
        proof {
            lemma_radix_values();
        }
        let pattern: u64 = if data < 0 {
            (data as i128 + 0x1_0000_0000_0000_0000) as u64
        } else {
            data as u64
        };
        self.write_uint(pattern, 8)
    }

    /// Writes the values of `data` one after the other, up to the first
    /// that does not fit.
    pub fn write_i64_array(&mut self, data: &[i64]) -> (r: Result<(), BinaryParserError>)
        ensures
            final(self)@ == old(self)@.write_each(
                Seq::new(data@.len(), |i: int| old(self)@.int_bytes(data@[i] as int, 8)),
            ).state,
            r == old(self)@.write_each(
                Seq::new(data@.len(), |i: int| old(self)@.int_bytes(data@[i] as int, 8)),
            ).result(),
    {
        let ghost before = self@;
        let ghost chunks = Seq::new(data@.len(), |i: int| before.int_bytes(data@[i] as int, 8));
        let count = data.len();
        let mut i: usize = 0;
        proof {
            assert(chunks.skip(0) =~= chunks);
        }
        while i < count
            invariant
                i <= count,
                before == old(self)@,
                count == data@.len(),
                chunks == Seq::new(data@.len(), |i: int| before.int_bytes(data@[i] as int, 8)),
                self@.big_endian == before.big_endian,
                before.write_each(chunks) == self@.write_each(chunks.skip(i as int)),
            decreases count - i,
        {
            proof {
                assert(chunks.skip(i as int).drop_first() =~= chunks.skip(i + 1));
            }
            match self.write_i64(data[i]) {
                Ok(()) => {},
                Err(e) => {
                    return Err(e);
                },
            }
            i = i + 1;
        }
        Ok(())
    }
}

} // verus!
