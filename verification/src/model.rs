//! The mathematical model of a parser: what it holds, and what each
//! elementary operation makes of it.
use crate::codec::{decode, encode, to_signed, to_unsigned};
use crate::error::{BinaryParserError, IoErrorKind};
use vstd::prelude::*;

verus! {

/// Where a seek counts from.
#[derive(Debug, Clone, Copy, PartialEq, Eq)]
pub enum SeekFrom {
    /// An absolute position.
    Start(u64),
    /// An offset from the end of the buffer.
    End(i64),
    /// An offset from the cursor.
    Current(i64),
}

/// One operation of an emission task, as a mathematical value.
pub enum OpModel {
    U8(u8),
    U16(u16),
    U32(u32),
    U64(u64),
    I8(i8),
    I16(i16),
    I32(i32),
    I64(i64),
    /// Raw bytes.
    Buf(Seq<u8>),
    /// Text, written as its UTF-8 bytes.
    Str(Seq<char>),
    /// Text, written as its UTF-8 bytes and a zero byte.
    NullStr(Seq<char>),
    /// A change of byte order.
    BigEndian(bool),
    /// A move of the cursor.
    Seek(SeekFrom),
    /// The cursor's position as the new active base.
    PushBase,
    /// The active base dropped.
    PopBase,
    /// A move of the cursor to the next multiple of a power of two.
    AlignSeek(u64),
    /// Zero bytes up to the next multiple of a power of two.
    AlignWrite(u64),
    /// A pointer to content that the nested task will emit.
    Pointer(Seq<OpModel>),
}

/// A pointer whose content is still to be emitted: the position of its
/// four-byte slot, and the task that emits the content.
pub struct PendingWrite {
    pub slot: u64,
    pub task: Seq<OpModel>,
}

/// What a parser holds.
pub struct ParserView {
    /// The bytes of the buffer.
    pub data: Seq<u8>,
    /// The cursor. It may lie beyond the end of `data`.
    pub pos: nat,
    /// The bases, the active one last.
    pub bases: Seq<u64>,
    /// The byte order of the integers read and written from now on.
    pub big_endian: bool,
    /// The pointers that wait for their content, the oldest first.
    pub pending: Seq<PendingWrite>,
}

/// A state, and the failure that stopped the operation which led to it, if one did.
pub struct Outcome {
    pub state: ParserView,
    pub error: Option<IoErrorKind>,
}

impl Outcome {
    /// The outcome of a success in `state`.
    pub open spec fn done(state: ParserView) -> Outcome {
        Outcome { state, error: None }
    }

    /// The outcome of a failure in `state`.
    pub open spec fn failed(state: ParserView, kind: IoErrorKind) -> Outcome {
        Outcome { state, error: Some(kind) }
    }

    /// What the operation returns to its caller.
    pub open spec fn result(self) -> Result<(), BinaryParserError> {
        match self.error {
            None => Ok(()),
            Some(kind) => Err(BinaryParserError::Io(kind)),
        }
    }
}

/// `count` zero bytes.
pub open spec fn zeros(count: nat) -> Seq<u8> {
    Seq::new(count, |i: int| 0u8)
}

/// `data` with `bytes` laid over it from index `at` on. The result is as long
/// as it takes; what neither `data` nor `bytes` covers is zero.
pub open spec fn overwrite(data: Seq<u8>, at: nat, bytes: Seq<u8>) -> Seq<u8> {
    let len = if data.len() >= at + bytes.len() {
        data.len()
    } else {
        at + bytes.len()
    };
    Seq::new(
        len,
        |i: int|
            if at <= i < at + bytes.len() {
                bytes[i - at]
            } else if i < data.len() {
                data[i]
            } else {
                0u8
            },
    )
}

/// Whether `n` is a power of two.
pub open spec fn is_power_of_two(n: nat) -> bool
    decreases n,
{
    n == 1 || (n > 1 && n % 2 == 0 && is_power_of_two(n / 2))
}

/// The least multiple of `alignment` that is not below `pos`.
pub open spec fn aligned(pos: nat, alignment: nat) -> nat
    recommends
        alignment > 0,
{
    if pos % alignment == 0 {
        pos
    } else {
        (pos - pos % alignment + alignment) as nat
    }
}

impl ParserView {
    /// The parser over `data`: cursor at the start, little-endian, no base, nothing pending.
    pub open spec fn over(data: Seq<u8>) -> ParserView {
        ParserView {
            data,
            pos: 0,
            bases: Seq::empty(),
            big_endian: false,
            pending: Seq::empty(),
        }
    }

    /// What a parser of this machine can hold.
    pub open spec fn in_bounds(self) -> bool {
        self.pos <= u64::MAX && self.data.len() <= usize::MAX
    }

    /// The same parser with the cursor at `pos`.
    pub open spec fn at(self, pos: nat) -> ParserView {
        ParserView { pos, ..self }
    }

    /// The bytes from the cursor to the end; none where the cursor is beyond it.
    pub open spec fn avail(self) -> Seq<u8> {
        if self.pos <= self.data.len() {
            self.data.skip(self.pos as int)
        } else {
            Seq::empty()
        }
    }

    /// Whether `count` bytes lie between the cursor and the end.
    pub open spec fn can_read(self, count: nat) -> bool {
        count <= self.avail().len()
    }

    /// The next `count` bytes.
    pub open spec fn peek(self, count: nat) -> Seq<u8>
        recommends
            self.can_read(count),
    {
        self.avail().take(count as int)
    }

    /// The parser after a read of `count` bytes: the cursor is behind them,
    /// or, where they are not all there, at the end of the buffer.
    pub open spec fn after_read(self, count: nat) -> ParserView {
        if self.can_read(count) {
            self.at(self.pos + count)
        } else {
            self.at(self.data.len())
        }
    }

    /// Whether a write of `count` bytes at the cursor stays within what the machine can address.
    pub open spec fn can_write(self, count: nat) -> bool {
        self.pos + count <= usize::MAX
    }

    /// The parser after `bytes` have been written at the cursor.
    pub open spec fn after_write(self, bytes: Seq<u8>) -> ParserView {
        ParserView {
            data: overwrite(self.data, self.pos, bytes),
            pos: self.pos + bytes.len(),
            ..self
        }
    }

    /// A write of `bytes` at the cursor: all of them, or none and a failure.
    pub open spec fn write(self, bytes: Seq<u8>) -> Outcome {
        if self.can_write(bytes.len()) {
            Outcome::done(self.after_write(bytes))
        } else {
            Outcome::failed(self, IoErrorKind::InvalidInput)
        }
    }

    /// A write of `bytes` and then of one zero byte. The bytes stay written
    /// where only the zero byte fails.
    pub open spec fn write_terminated(self, bytes: Seq<u8>) -> Outcome {
        let body = self.write(bytes);
        if body.error is Some {
            body
        } else {
            body.state.write(seq![0u8])
        }
    }

    /// The position that a seek asks for.
    pub open spec fn seek_target(self, from: SeekFrom) -> int {
        match from {
            SeekFrom::Start(pos) => pos as int,
            SeekFrom::End(offset) => self.data.len() + offset,
            SeekFrom::Current(offset) => self.pos + offset,
        }
    }

    /// A seek: it fails, and moves nothing, where the position asked for is
    /// negative or beyond what a cursor can hold.
    pub open spec fn seek(self, from: SeekFrom) -> Outcome {
        let target = self.seek_target(from);
        if 0 <= target <= u64::MAX {
            Outcome::done(self.at(target as nat))
        } else {
            Outcome::failed(self, IoErrorKind::InvalidInput)
        }
    }

    /// The base that pointers are read against: the last one pushed, or zero.
    pub open spec fn active_base(self) -> nat {
        if self.bases.len() == 0 {
            0
        } else {
            self.bases.last() as nat
        }
    }

    /// The parser with the cursor's position as its new active base.
    pub open spec fn with_base(self) -> ParserView {
        ParserView { bases: self.bases.push(self.pos as u64), ..self }
    }

    /// The parser without its active base; itself where it has none.
    pub open spec fn without_base(self) -> ParserView {
        if self.bases.len() == 0 {
            self
        } else {
            ParserView { bases: self.bases.drop_last(), ..self }
        }
    }

    /// The parser with the given byte order.
    pub open spec fn with_order(self, big_endian: bool) -> ParserView {
        ParserView { big_endian, ..self }
    }

    /// The unsigned integer of `width` bytes at the cursor, in the parser's byte order.
    pub open spec fn uint_here(self, width: nat) -> nat
        recommends
            self.can_read(width),
    {
        decode(self.peek(width), self.big_endian)
    }

    /// The signed integer of `width` bytes at the cursor, in the parser's byte order.
    pub open spec fn int_here(self, width: nat) -> int
        recommends
            self.can_read(width),
    {
        to_signed(self.uint_here(width), width)
    }

    /// The bytes of an unsigned integer of `width` bytes, in the parser's byte order.
    pub open spec fn uint_bytes(self, value: nat, width: nat) -> Seq<u8> {
        encode(value, width, self.big_endian)
    }

    /// The bytes of a signed integer of `width` bytes, in the parser's byte order.
    pub open spec fn int_bytes(self, value: int, width: nat) -> Seq<u8> {
        encode(to_unsigned(value, width), width, self.big_endian)
    }

    /// A new pointer at the cursor: its slot is recorded with `task`, then
    /// the cursor moves over the four bytes of the slot. Where that move is
    /// impossible the pointer stays recorded and the operation fails.
    pub open spec fn defer(self, task: Seq<OpModel>) -> Outcome {
        let queued = ParserView {
            pending: self.pending.push(PendingWrite { slot: self.pos as u64, task }),
            ..self
        };
        queued.seek(SeekFrom::Current(4))
    }

    /// Zero bytes written one at a time until the cursor is a multiple of
    /// `alignment`. Nothing is written where it already is one. The bytes
    /// that fit are written even where not all of them do.
    pub open spec fn align_write(self, alignment: nat) -> Outcome
        recommends
            alignment > 0,
    {
        let target = aligned(self.pos, alignment);
        if target == self.pos {
            Outcome::done(self)
        } else if target <= usize::MAX {
            Outcome::done(self.after_write(zeros((target - self.pos) as nat)))
        } else if self.pos < usize::MAX {
            Outcome::failed(
                self.after_write(zeros((usize::MAX - self.pos) as nat)),
                IoErrorKind::InvalidInput,
            )
        } else {
            Outcome::failed(self, IoErrorKind::InvalidInput)
        }
    }

    /// The cursor moved forward to the next multiple of `alignment`; a
    /// failure where that is beyond what a cursor can hold.
    pub open spec fn align_seek(self, alignment: nat) -> Outcome
        recommends
            alignment > 0,
    {
        let target = aligned(self.pos, alignment);
        if target <= u64::MAX {
            Outcome::done(self.at(target))
        } else {
            Outcome::failed(self, IoErrorKind::InvalidInput)
        }
    }
}

/// Two writes in a row are one write of both byte strings.
pub proof fn lemma_write_twice(s: ParserView, first: Seq<u8>, second: Seq<u8>)
    ensures
        s.after_write(first).after_write(second) == s.after_write(first + second),
{
    let a = s.after_write(first).after_write(second);
    let b = s.after_write(first + second);
    assert(a.data =~= b.data);
}

/// What was written at the cursor is what a read from there gives back.
pub proof fn lemma_read_after_write(s: ParserView, bytes: Seq<u8>)
    ensures
        s.after_write(bytes).at(s.pos).can_read(bytes.len()),
        s.after_write(bytes).at(s.pos).peek(bytes.len()) == bytes,
        s.after_write(bytes).at(s.pos).after_read(bytes.len()) == s.after_write(bytes),
{
    let w = s.after_write(bytes).at(s.pos);
    assert(w.peek(bytes.len()) =~= bytes);
}

} // verus!
