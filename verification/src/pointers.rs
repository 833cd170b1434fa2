//! Pointers: reading through one, relative to the active base, and writing
//! one whose content is emitted later.
//!
//! A pointer is four bytes. On a read they hold an offset from the active
//! base. On a write the slot is reserved, the content's task is queued, and
//! `finish_writes` emits the content of every queued pointer in the order
//! of their queuing, and stores in each slot the position where its content
//! starts.
use crate::align::power_of_two;
use crate::error::{BinaryParserError, IoErrorKind};
use crate::model::{OpModel, ParserView, SeekFrom};
use crate::parser::BinaryParser;
use crate::task::{
    apply, backlog, drain, lemma_pointer_view, lemma_resolve_shrinks, resolve_oldest, run,
    task_view, WriteOp,
};
use vstd::prelude::*;
use vstd::utf8::{decode_utf8, valid_utf8};

verus! {

impl ParserView {
    /// The position that the pointer at the cursor refers to: the offset it
    /// stores, counted from the active base. None where the four bytes are
    /// not all there, or the position is beyond what a cursor can hold.
    pub open spec fn pointer_target(self) -> Option<nat> {
        if self.can_read(4) && self.uint_here(4) + self.active_base() <= u64::MAX {
            Some(self.uint_here(4) + self.active_base())
        } else {
            None
        }
    }

    /// Why the pointer at the cursor cannot be followed.
    pub open spec fn pointer_failure(self) -> IoErrorKind
        recommends
            self.pointer_target() is None,
    {
        if self.can_read(4) {
            IoErrorKind::InvalidInput
        } else {
            IoErrorKind::UnexpectedEof
        }
    }
}

impl BinaryParser {
    /// Reads the pointer at the cursor, runs `func` with the cursor at the
    /// position it refers to, and then puts the cursor behind the pointer,
    /// whether `func` failed or not. Returns what `func` returned.
    ///
    /// Where the pointer cannot be followed, `func` is not run, and the
    /// cursor is where the failed read of the four bytes left it.
    pub fn read_pointer<T, F>(&mut self, func: F) -> (r: Result<T, BinaryParserError>) where
        F: FnOnce(&mut BinaryParser) -> Result<T, BinaryParserError>,

        requires
            old(self)@.pointer_target() matches Some(target) ==> forall|there: &mut BinaryParser|
                (*there)@ == old(self)@.at(target) ==> #[trigger] call_requires(func, (there,)),
        ensures
            match old(self)@.pointer_target() {
                Some(target) => exists|there: &mut BinaryParser|
                    {
                        &&& (*there)@ == old(self)@.at(target)
                        &&& #[trigger] call_ensures(func, (there,), r)
                        &&& final(self)@ == (*final(there))@.at(old(self)@.pos + 4)
                    },
                None => {
                    &&& final(self)@ == old(self)@.after_read(4)
                    &&& r matches Err(e)
                    &&& e == BinaryParserError::Io(old(self)@.pointer_failure())
                },
            },
    {
        let offset = match self.read_u32() {
            Ok(offset) => offset,
            Err(e) => {
                return Err(e);
            },
        };
        let back = self.position();
        let target = match (offset as u64).checked_add(self.active_base()) {
            Some(target) => target,
            None => {
                return Err(BinaryParserError::Io(IoErrorKind::InvalidInput));
            },
        };
        let _ = self.seek(SeekFrom::Start(target));
        let r = func(self);
        let _ = self.seek(SeekFrom::Start(back));
        r
    }

    /// Reads the pointer at the cursor and the null-terminated string it
    /// refers to, and puts the cursor behind the pointer, whether the string
    /// could be read or not.
    pub fn read_null_string_pointer(&mut self) -> (r: Result<String, BinaryParserError>)
        ensures
            match old(self)@.pointer_target() {
                Some(target) => {
                    &&& final(self)@ == old(self)@.at(old(self)@.pos + 4)
                    &&& match r {
                        Ok(text) => {
                            &&& old(self)@.at(target).has_terminator()
                            &&& valid_utf8(old(self)@.at(target).null_string_here())
                            &&& text@ == decode_utf8(old(self)@.at(target).null_string_here())
                        },
                        Err(BinaryParserError::Utf8(_)) => {
                            &&& old(self)@.at(target).has_terminator()
                            &&& !valid_utf8(old(self)@.at(target).null_string_here())
                        },
                        Err(BinaryParserError::Io(kind)) => {
                            &&& !old(self)@.at(target).has_terminator()
                            &&& kind == IoErrorKind::UnexpectedEof
                        },
                    }
                },
                None => {
                    &&& final(self)@ == old(self)@.after_read(4)
                    &&& r matches Err(e)
                    &&& e == BinaryParserError::Io(old(self)@.pointer_failure())
                },
            },
    {
        self.read_pointer(BinaryParser::read_null_string)
    }

    /// Reserves the four bytes at the cursor for a pointer and queues `task`,
    /// which will emit what the pointer refers to. Nothing is written yet:
    /// `finish_writes` runs the task and fills in the slot.
    pub fn write_pointer(&mut self, task: Vec<WriteOp>) -> (r: Result<(), BinaryParserError>)
        ensures
            final(self)@ == old(self)@.defer(task_view(task@)).state,
            r == old(self)@.defer(task_view(task@)).result(),
    {
        let position = self.position();
        self.schedule(position, task);
        self.seek(SeekFrom::Current(4))
    }

    /// Reserves a pointer at the cursor to the null-terminated string `data`,
    /// which `finish_writes` will emit.
    pub fn write_null_string_pointer(&mut self, data: &str) -> (r: Result<(), BinaryParserError>)
        ensures
            final(self)@ == old(self)@.defer(seq![OpModel::NullStr(data@)]).state,
            r == old(self)@.defer(seq![OpModel::NullStr(data@)]).result(),
    {
        let mut task: Vec<WriteOp> = Vec::new();
        task.push(WriteOp::NullStr(data.to_owned()));
        proof {
            assert(task_view(task@) =~= seq![OpModel::NullStr(data@)]);
        }
        self.write_pointer(task)
    }

    /// Carries out one operation of a task.
    pub fn apply(&mut self, op: WriteOp) -> (r: Result<(), BinaryParserError>)
        ensures
            final(self)@ == apply(old(self)@, op@).state,
            r == apply(old(self)@, op@).result(),
    {
        match op {
            WriteOp::U8(v) => self.write_u8(v),
            WriteOp::U16(v) => self.write_u16(v),
            WriteOp::U32(v) => self.write_u32(v),
            WriteOp::U64(v) => self.write_u64(v),
            WriteOp::I8(v) => self.write_i8(v),
            WriteOp::I16(v) => self.write_i16(v),
            WriteOp::I32(v) => self.write_i32(v),
            WriteOp::I64(v) => self.write_i64(v),
            WriteOp::Buf(bytes) => self.write_buf(bytes.as_slice()),
            WriteOp::Str(text) => self.write_string(text.as_str()),
            WriteOp::NullStr(text) => self.write_null_string(text.as_str()),
            WriteOp::BigEndian(big_endian) => {
                self.set_big_endian(big_endian);
                Ok(())
            },
            WriteOp::Seek(from) => self.seek(from),
            WriteOp::PushBase => {
                self.push_base();
                Ok(())
            },
            WriteOp::PopBase => {
                self.pop_base();
                Ok(())
            },
            WriteOp::AlignSeek(alignment) => {
                if power_of_two(alignment) {
                    self.align_seek(alignment)
                } else {
                    Err(BinaryParserError::Io(IoErrorKind::InvalidInput))
                }
            },
            WriteOp::AlignWrite(alignment) => {
                if power_of_two(alignment) {
                    self.align_write(alignment)
                } else {
                    Err(BinaryParserError::Io(IoErrorKind::InvalidInput))
                }
            },
            WriteOp::Pointer(task) => {
                proof {
                    lemma_pointer_view(task);
                }
                self.write_pointer(task)
            },
        }
    }

    /// Carries out a task: its operations in order, up to the first that fails.
    pub fn run(&mut self, task: Vec<WriteOp>) -> (r: Result<(), BinaryParserError>)
        ensures
            final(self)@ == run(old(self)@, task_view(task@)).state,
            r == run(old(self)@, task_view(task@)).result(),
    {
        let ghost before = self@;
        let ghost ops = task@;
        let ghost models = task_view(task@);
        proof {
            assert(models.skip(0) =~= models);
        }
        for op in it: task
            invariant
                before == old(self)@,
                it.seq() == ops,
                models == task_view(ops),
                it.index() <= ops.len(),
                run(before, models) == run(self@, models.skip(it.index() as int)),
        {
            proof {
                let rest = models.skip(it.index() as int);
                assert(rest[0] == op@);
                assert(rest.drop_first() =~= models.skip(it.index() + 1));
            }
            match self.apply(op) {
                Ok(()) => {},
                Err(e) => {
                    return Err(e);
                },
            }
        }
        Ok(())
    }

    /// Resolves every waiting pointer in place, the oldest first, up to the
    /// first failure. What was resolved before a failure stays resolved.
    pub fn resolve_writes(&mut self) -> (r: Result<(), BinaryParserError>)
        ensures
            final(self)@ == drain(old(self)@).state,
            r == drain(old(self)@).result(),
    {
        let ghost before = self@;
        loop
            invariant
                before == old(self)@,
                drain(before) == drain(self@),
            decreases backlog(self@.pending),
        {
            let ghost here = self@;
            let entry = match self.next_scheduled() {
                Some(entry) => entry,
                None => {
                    return Ok(());
                },
            };
            proof {
                lemma_resolve_shrinks(here);
            }
            let start = self.position();
            match self.run(entry.task) {
                Ok(()) => {},
                Err(e) => {
                    return Err(e);
                },
            }
            let resume = self.position();
            let _ = self.seek(SeekFrom::Start(entry.position));
            let field: u32 = (start % 0x1_0000_0000) as u32;
            match self.write_u32(field) {
                Ok(()) => {},
                Err(e) => {
                    return Err(e);
                },
            }
            let _ = self.seek(SeekFrom::Start(resume));
            proof {
                assert(self@ == resolve_oldest(here).state);
            }
        }
    }

    /// Emits the content of every waiting pointer and fills in the slots.
    ///
    /// The queue is worked off in the order of queuing. A task that writes
    /// pointers of its own puts them at the back of the same queue, so the
    /// content of all pointers of one level is emitted before that of any
    /// pointer nested in them.
    pub fn finish_writes(self) -> (r: Result<Self, BinaryParserError>)
        ensures
            match r {
                Ok(parser) => {
                    &&& drain(self@).error is None
                    &&& parser@ == drain(self@).state
                    &&& parser@.pending.len() == 0
                },
                Err(e) => drain(self@).result() == Err::<(), BinaryParserError>(e),
            },
    {
        proof {
            crate::laws::lemma_drain_empties_queue(self@);
        }
        let mut parser = self;
        match parser.resolve_writes() {
            Ok(()) => Ok(parser),
            Err(e) => Err(e),
        }
    }

    /// Emits the content of every waiting pointer and hands out the buffer.
    pub fn to_buf(self) -> (r: Result<Vec<u8>, BinaryParserError>)
        ensures
            match r {
                Ok(bytes) => drain(self@).error is None && bytes@ == drain(self@).state.data,
                Err(e) => drain(self@).result() == Err::<(), BinaryParserError>(e),
            },
    {
        match self.finish_writes() {
            Ok(parser) => Ok(parser.into_data()),
            Err(e) => Err(e),
        }
    }

    /// Reads `length` bytes into a parser of their own: cursor at its start,
    /// no base, nothing waiting, little-endian.
    pub fn read_parser(&mut self, length: usize) -> (r: Result<Self, BinaryParserError>)
        ensures
            final(self)@ == old(self)@.after_read(length as nat),
            match r {
                Ok(parser) => old(self)@.can_read(length as nat) && parser@ == ParserView::over(
                    old(self)@.peek(length as nat),
                ),
                Err(e) => !old(self)@.can_read(length as nat) && e == BinaryParserError::Io(
                    IoErrorKind::UnexpectedEof,
                ),
            },
    {
        match self.read_buf(length) {
            Ok(bytes) => Ok(BinaryParser::from_buf(bytes)),
            Err(e) => Err(e),
        }
    }

    /// Emits the content of every pointer that waits in `parser`, then
    /// writes its buffer at the cursor. Writes nothing where `parser` fails.
    pub fn write_parser(&mut self, parser: Self) -> (r: Result<(), BinaryParserError>)
        ensures
            drain(parser@).error is Some ==> final(self)@ == old(self)@ && r == drain(
                parser@,
            ).result(),
            drain(parser@).error is None ==> final(self)@ == old(self)@.write(
                drain(parser@).state.data,
            ).state && r == old(self)@.write(drain(parser@).state.data).result(),
    {
        match parser.to_buf() {
            Ok(bytes) => self.write_buf(bytes.as_slice()),
            Err(e) => Err(e),
        }
    }
}

} // verus!
