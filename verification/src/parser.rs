//! The parser itself: an owned byte buffer, a cursor, a stack of bases and a
//! queue of pointers that wait for their content.
//!
//! This module holds the operations that touch the parser's fields. All
//! others are built on these and reason through their contracts.
use crate::error::{BinaryParserError, IoErrorKind};
use crate::model::{overwrite, ParserView, PendingWrite, SeekFrom};
use crate::task::{queue_view, task_view, without_oldest, ScheduledWrite, WriteOp};
use crate::text::through;
use std::collections::VecDeque;
use vstd::prelude::*;

verus! {

/// A cursor over a growable byte buffer.
pub struct BinaryParser {
    data: Vec<u8>,
    pos: u64,
    bases: Vec<u64>,
    scheduled_writes: VecDeque<ScheduledWrite>,
    big_endian: bool,
}

impl View for BinaryParser {
    type V = ParserView;

    closed spec fn view(&self) -> ParserView {
        ParserView {
            data: self.data@,
            pos: self.pos as nat,
            bases: self.bases@,
            big_endian: self.big_endian,
            pending: queue_view(self.scheduled_writes@),
        }
    }
}

impl Default for BinaryParser {
    fn default() -> (parser: Self)
        ensures
            parser@ == ParserView::over(Seq::empty()),
    {
        BinaryParser::new()
    }
}

impl BinaryParser {
    /// A parser holds no more than the machine can address.
    pub proof fn lemma_in_bounds(&self)
        ensures
            self@.in_bounds(),
    {
        assert(self.data.len() == self.data@.len());
    }

    /// A parser over an empty buffer.
    pub fn new() -> (parser: Self)
        ensures
            parser@ == ParserView::over(Seq::empty()),
    {
        let parser = BinaryParser {
            data: Vec::new(),
            pos: 0,
            bases: Vec::new(),
            scheduled_writes: VecDeque::new(),
            big_endian: false,
        };
        assert(parser@.pending =~= Seq::empty());
        parser
    }

    /// A parser over `buf`, with the cursor at its start.
    pub fn from_buf(buf: Vec<u8>) -> (parser: Self)
        ensures
            parser@ == ParserView::over(buf@),
    {
        let parser = BinaryParser {
            data: buf,
            pos: 0,
            bases: Vec::new(),
            scheduled_writes: VecDeque::new(),
            big_endian: false,
        };
        assert(parser@.pending =~= Seq::empty());
        parser
    }

    /// Sets the byte order of the integers read and written from now on.
    pub fn set_big_endian(&mut self, be: bool)
        ensures
            final(self)@ == old(self)@.with_order(be),
    {
        self.big_endian = be;
    }

    /// Whether integers are read and written most significant byte first.
    pub fn is_big_endian(&self) -> (be: bool)
        ensures
            be == self@.big_endian,
    {
        self.big_endian
    }

    /// The cursor: an offset from the start of the buffer.
    pub fn position(&self) -> (pos: u64)
        ensures
            pos == self@.pos,
    {
        self.pos
    }

    /// The number of bytes in the buffer.
    pub fn len(&self) -> (len: usize)
        ensures
            len == self@.data.len(),
    {
        self.data.len()
    }

    /// Whether pointers wait for their content.
    pub fn pending_writes(&self) -> (pending: bool)
        ensures
            pending == (self@.pending.len() > 0),
    {
        self.scheduled_writes.len() > 0
    }

    /// The buffer, unless pointers wait for their content: their slots are
    /// not filled in yet.
    pub fn to_buf_const(&self) -> (buf: Option<&Vec<u8>>)
        ensures
            match buf {
                Some(bytes) => self@.pending.len() == 0 && bytes@ == self@.data,
                None => self@.pending.len() > 0,
            },
    {
        if self.pending_writes() {
            None
        } else {
            Some(&self.data)
        }
    }

    /// The buffer as it stands, whatever waits.
    pub(crate) fn into_data(self) -> (buf: Vec<u8>)
        ensures
            buf@ == self@.data,
    {
        self.data
    }

    /// Moves the cursor. A position that is negative or beyond what a cursor
    /// can hold is refused, and the cursor stays.
    pub fn seek(&mut self, pos: SeekFrom) -> (r: Result<(), BinaryParserError>)
        ensures
            final(self)@ == old(self)@.seek(pos).state,
            r == old(self)@.seek(pos).result(),
    {
        let target: Option<u64> = match pos {
            SeekFrom::Start(at) => Some(at),
            SeekFrom::End(offset) => (self.data.len() as u64).checked_add_signed(offset),
            SeekFrom::Current(offset) => self.pos.checked_add_signed(offset),
        };
        match target {
            Some(at) => {
                self.pos = at;
                Ok(())
            },
            None => Err(BinaryParserError::Io(IoErrorKind::InvalidInput)),
        }
    }

    /// Makes the cursor's position the active base.
    pub fn push_base(&mut self)
        ensures
            final(self)@ == old(self)@.with_base(),
    {
        self.bases.push(self.pos);
    }

    /// Drops the active base. Does nothing where there is none.
    pub fn pop_base(&mut self)
        ensures
            final(self)@ == old(self)@.without_base(),
    {
        self.bases.pop();
    }

    /// The base that pointers are read against.
    pub fn active_base(&self) -> (base: u64)
        ensures
            base == self@.active_base(),
    {
        let depth = self.bases.len();
        if depth == 0 {
            0
        } else {
            self.bases[depth - 1]
        }
    }

    /// Reads `length` bytes at the cursor and moves behind them. Where fewer
    /// are left, the read fails and the cursor goes to the end of the buffer.
    pub fn read_buf(&mut self, length: usize) -> (r: Result<Vec<u8>, BinaryParserError>)
        ensures
            final(self)@ == old(self)@.after_read(length as nat),
            match r {
                Ok(bytes) => old(self)@.can_read(length as nat) && bytes@ == old(self)@.peek(
                    length as nat,
                ),
                Err(e) => !old(self)@.can_read(length as nat) && e == BinaryParserError::Io(
                    IoErrorKind::UnexpectedEof,
                ),
            },
    {
        let ghost before = self@;
        let len = self.data.len();
        let start: usize = if self.pos <= len as u64 {
            self.pos as usize
        } else {
            len
        };
        if length > len - start {
            self.pos = len as u64;
            return Err(BinaryParserError::Io(IoErrorKind::UnexpectedEof));
        }
        let mut bytes: Vec<u8> = Vec::new();
        let mut i: usize = 0;
        while i < length
            invariant
                i <= length,
                start + length <= len,
                len == self.data@.len(),
                self@ == before,
                bytes@ == self.data@.subrange(start as int, start + i),
            decreases length - i,
        {
            bytes.push(self.data[start + i]);
            i = i + 1;
            proof {
                assert(bytes@ =~= self.data@.subrange(start as int, start + i));
            }
        }
        proof {
            assert(bytes@ =~= before.peek(length as nat));
        }
        self.pos = self.pos + length as u64;
        Ok(bytes)
    }

    /// Reads from the cursor up to and including the first `delimiter`, or
    /// to the end of the buffer where there is none, and moves behind what
    /// was read.
    pub fn read_until(&mut self, delimiter: u8) -> (bytes: Vec<u8>)
        ensures
            bytes@ == through(old(self)@.avail(), delimiter),
            final(self)@ == old(self)@.at(old(self)@.pos + bytes@.len()),
    {
        let ghost before = self@;
        let ghost avail = before.avail();
        let len = self.data.len();
        let start: usize = if self.pos <= len as u64 {
            self.pos as usize
        } else {
            len
        };
        let mut bytes: Vec<u8> = Vec::new();
        let mut i: usize = start;
        let mut found = false;
        proof {
            assert(avail.skip(0) =~= avail);
            assert(bytes@ + avail =~= avail);
        }
        while i < len && !found
            invariant
                start <= i <= len,
                len == self.data@.len(),
                self@ == before,
                avail == before.avail(),
                avail.len() == len - start,
                start == before.pos || (start == len && before.pos > len),
                bytes@.len() == i - start,
                !found ==> through(avail, delimiter) == bytes@ + through(
                    avail.skip(i - start),
                    delimiter,
                ),
                found ==> through(avail, delimiter) == bytes@,
            decreases len - i,
        {
            let byte = self.data[i];
            proof {
                let rest = avail.skip(i - start);
                assert(rest[0] == byte);
                assert(rest.drop_first() =~= avail.skip(i + 1 - start));
                if byte == delimiter {
                    assert(bytes@ + seq![delimiter] =~= bytes@.push(byte));
                } else {
                    assert(bytes@ + (seq![byte] + through(rest.drop_first(), delimiter))
                        =~= bytes@.push(byte) + through(rest.drop_first(), delimiter));
                }
            }
            bytes.push(byte);
            i = i + 1;
            if byte == delimiter {
                found = true;
            }
        }
        proof {
            if !found {
                assert(bytes@ + through(avail.skip(i - start), delimiter) =~= bytes@);
            }
        }
        self.pos = self.pos + (i - start) as u64;
        bytes
    }

    /// Writes `data` at the cursor and moves behind it. What the bytes cover
    /// is replaced, the buffer grows as far as they reach, and a gap between
    /// the end of the buffer and the cursor is filled with zero bytes. A
    /// write that would end beyond what the machine can address fails and
    /// changes nothing.
    pub fn write_buf(&mut self, data: &[u8]) -> (r: Result<(), BinaryParserError>)
        ensures
            final(self)@ == old(self)@.write(data@).state,
            r == old(self)@.write(data@).result(),
    {
        let ghost before = self@;
        let count = data.len();
        if self.pos > (usize::MAX - count) as u64 {
            return Err(BinaryParserError::Io(IoErrorKind::InvalidInput));
        }
        let at: usize = self.pos as usize;
        while self.data.len() < at
            invariant
                self@ == (ParserView { data: self.data@, ..before }),
                before.data.len() <= self.data@.len(),
                self.data@.len() <= at || self.data@ == before.data,
                forall|i: int| 0 <= i < before.data.len() ==> self.data@[i] == before.data[i],
                forall|i: int| before.data.len() <= i < self.data@.len() ==> self.data@[i] == 0u8,
            decreases at - self.data@.len(),
        {
            self.data.push(0);
        }
        proof {
            assert(self.data@ =~= overwrite(before.data, at as nat, data@.take(0)));
        }
        let mut i: usize = 0;
        while i < count
            invariant
                i <= count,
                count == data@.len(),
                at + count <= usize::MAX,
                at == before.pos,
                self@ == (ParserView { data: self.data@, ..before }),
                self.data@ == overwrite(before.data, at as nat, data@.take(i as int)),
            decreases count - i,
        {
            if at + i < self.data.len() {
                self.data.set(at + i, data[i]);
            } else {
                self.data.push(data[i]);
            }
            i = i + 1;
            proof {
                assert(self.data@ =~= overwrite(before.data, at as nat, data@.take(i as int)));
            }
        }
        proof {
            assert(data@.take(count as int) =~= data@);
        }
        self.pos = (at + count) as u64;
        Ok(())
    }

    /// Puts a pointer on the queue of those that wait for their content.
    pub(crate) fn schedule(&mut self, position: u64, task: Vec<WriteOp>)
        ensures
            final(self)@ == (ParserView {
                pending: old(self)@.pending.push(
                    PendingWrite { slot: position, task: task_view(task@) },
                ),
                ..old(self)@
            }),
    {
        let ghost queue = self.scheduled_writes@;
        let entry = ScheduledWrite { position, task };
        self.scheduled_writes.push_back(entry);
        proof {
            assert(queue_view(queue.push(entry)) =~= queue_view(queue).push(entry@));
        }
    }

    /// Takes the oldest pointer off the queue of those that wait.
    pub(crate) fn next_scheduled(&mut self) -> (next: Option<ScheduledWrite>)
        ensures
            match next {
                Some(entry) => old(self)@.pending.len() > 0 && entry@ == old(self)@.pending[0]
                    && final(self)@ == without_oldest(old(self)@),
                None => old(self)@.pending.len() == 0 && final(self)@ == old(self)@,
            },
    {
        let ghost queue = self.scheduled_writes@;
        let next = self.scheduled_writes.pop_front();
        proof {
            if queue.len() > 0 {
                assert(queue_view(queue.subrange(1, queue.len() as int)) =~= queue_view(
                    queue,
                ).drop_first());
            }
        }
        next
    }
}

} // verus!
