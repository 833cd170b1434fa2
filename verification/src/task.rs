//! Emission tasks: the content behind a pointer, held as a list of write
//! operations until the parser is ready to emit it.
//!
//! A task is data, not code. The parser carries it out operation by
//! operation when the pointer is resolved, and a `Pointer` operation inside
//! it queues a further task.
use crate::error::IoErrorKind;
use crate::model::{is_power_of_two, OpModel, Outcome, ParserView, PendingWrite, SeekFrom};
use vstd::prelude::*;
use vstd::utf8::encode_utf8;

verus! {

/// One write operation of an emission task. Each stands for the parser
/// method of the same name.
#[derive(Debug, PartialEq, Eq)]
pub enum WriteOp {
    U8(u8),
    U16(u16),
    U32(u32),
    U64(u64),
    I8(i8),
    I16(i16),
    I32(i32),
    I64(i64),
    /// Raw bytes.
    Buf(Vec<u8>),
    /// Text, written as its UTF-8 bytes.
    Str(String),
    /// Text, written as its UTF-8 bytes and a zero byte.
    NullStr(String),
    /// A change of byte order.
    BigEndian(bool),
    /// A move of the cursor.
    Seek(SeekFrom),
    /// The cursor's position as the new active base.
    PushBase,
    /// The active base dropped.
    PopBase,
    /// A move of the cursor to the next multiple of a power of two.
    AlignSeek(u64),
    /// Zero bytes up to the next multiple of a power of two.
    AlignWrite(u64),
    /// A pointer to content that the nested task will emit.
    Pointer(Vec<WriteOp>),
}

/// The mathematical value of an operation: its payload by its view, its
/// nested task operation by operation.
pub open spec fn model_of(op: WriteOp) -> OpModel
    decreases op,
{
    match op {
        WriteOp::U8(v) => OpModel::U8(v),
        WriteOp::U16(v) => OpModel::U16(v),
        WriteOp::U32(v) => OpModel::U32(v),
        WriteOp::U64(v) => OpModel::U64(v),
        WriteOp::I8(v) => OpModel::I8(v),
        WriteOp::I16(v) => OpModel::I16(v),
        WriteOp::I32(v) => OpModel::I32(v),
        WriteOp::I64(v) => OpModel::I64(v),
        WriteOp::Buf(bytes) => OpModel::Buf(bytes@),
        WriteOp::Str(text) => OpModel::Str(text@),
        WriteOp::NullStr(text) => OpModel::NullStr(text@),
        WriteOp::BigEndian(big_endian) => OpModel::BigEndian(big_endian),
        WriteOp::Seek(from) => OpModel::Seek(from),
        WriteOp::PushBase => OpModel::PushBase,
        WriteOp::PopBase => OpModel::PopBase,
        WriteOp::AlignSeek(alignment) => OpModel::AlignSeek(alignment),
        WriteOp::AlignWrite(alignment) => OpModel::AlignWrite(alignment),
        WriteOp::Pointer(task) => OpModel::Pointer(
            Seq::new(
                task@.len(),
                |i: int|
                    if 0 <= i < task.len() {
                        model_of(task[i])
                    } else {
                        // No index of the sequence comes here.
                        OpModel::U8(0)
                    },
            ),
        ),
    }
}

impl View for WriteOp {
    type V = OpModel;

    open spec fn view(&self) -> OpModel {
        model_of(*self)
    }
}

/// The operations of a task as mathematical values.
pub open spec fn task_view(task: Seq<WriteOp>) -> Seq<OpModel> {
    Seq::new(task.len(), |i: int| task[i]@)
}

/// The view of a pointer operation is the pointer to the view of its task.
pub proof fn lemma_pointer_view(task: Vec<WriteOp>)
    ensures
        WriteOp::Pointer(task)@ == OpModel::Pointer(task_view(task@)),
{
    let nested = WriteOp::Pointer(task)@->Pointer_0;
    assert(nested.len() == task@.len());
    assert forall|i: int| 0 <= i < nested.len() implies nested[i] == task_view(task@)[i] by {
        assert(task[i] == task@[i]);
    }
    assert(nested =~= task_view(task@));
}

/// A pointer that waits for its content.
#[derive(Debug, PartialEq, Eq)]
pub struct ScheduledWrite {
    /// The position of the pointer's four-byte slot.
    pub position: u64,
    /// What emits the content.
    pub task: Vec<WriteOp>,
}

impl View for ScheduledWrite {
    type V = PendingWrite;

    open spec fn view(&self) -> PendingWrite {
        PendingWrite { slot: self.position, task: task_view(self.task@) }
    }
}

/// The queue of waiting pointers as mathematical values.
pub open spec fn queue_view(queue: Seq<ScheduledWrite>) -> Seq<PendingWrite> {
    Seq::new(queue.len(), |i: int| queue[i]@)
}

/// What one operation of a task makes of the parser. An alignment that is
/// no power of two is refused.
pub open spec fn apply(s: ParserView, op: OpModel) -> Outcome {
    match op {
        OpModel::U8(v) => s.write(s.uint_bytes(v as nat, 1)),
        OpModel::U16(v) => s.write(s.uint_bytes(v as nat, 2)),
        OpModel::U32(v) => s.write(s.uint_bytes(v as nat, 4)),
        OpModel::U64(v) => s.write(s.uint_bytes(v as nat, 8)),
        OpModel::I8(v) => s.write(s.int_bytes(v as int, 1)),
        OpModel::I16(v) => s.write(s.int_bytes(v as int, 2)),
        OpModel::I32(v) => s.write(s.int_bytes(v as int, 4)),
        OpModel::I64(v) => s.write(s.int_bytes(v as int, 8)),
        OpModel::Buf(bytes) => s.write(bytes),
        OpModel::Str(text) => s.write(encode_utf8(text)),
        OpModel::NullStr(text) => s.write_terminated(encode_utf8(text)),
        OpModel::BigEndian(big_endian) => Outcome::done(s.with_order(big_endian)),
        OpModel::Seek(from) => s.seek(from),
        OpModel::PushBase => Outcome::done(s.with_base()),
        OpModel::PopBase => Outcome::done(s.without_base()),
        OpModel::AlignSeek(alignment) => if is_power_of_two(alignment as nat) {
            s.align_seek(alignment as nat)
        } else {
            Outcome::failed(s, IoErrorKind::InvalidInput)
        },
        OpModel::AlignWrite(alignment) => if is_power_of_two(alignment as nat) {
            s.align_write(alignment as nat)
        } else {
            Outcome::failed(s, IoErrorKind::InvalidInput)
        },
        OpModel::Pointer(task) => s.defer(task),
    }
}

/// What a task makes of the parser: its operations in order, up to the
/// first that fails.
pub open spec fn run(s: ParserView, task: Seq<OpModel>) -> Outcome
    decreases task.len(),
{
    if task.len() == 0 {
        Outcome::done(s)
    } else {
        let first = apply(s, task[0]);
        if first.error is Some {
            first
        } else {
            run(first.state, task.drop_first())
        }
    }
}

/// The number of pointers that an operation holds, at any depth.
pub open spec fn pointers_in(op: OpModel) -> nat
    decreases op,
{
    match op {
        OpModel::Pointer(task) => 1 + pointers_among(task),
        _ => 0,
    }
}

/// The number of pointers that a task holds, at any depth.
pub open spec fn pointers_among(task: Seq<OpModel>) -> nat
    decreases task,
{
    if task.len() == 0 {
        0
    } else {
        pointers_among(task.drop_last()) + pointers_in(task.last())
    }
}

/// The number of pointers that remain to be resolved: those in the queue,
/// and those that their tasks hold at any depth.
pub open spec fn backlog(pending: Seq<PendingWrite>) -> nat
    decreases pending.len(),
{
    if pending.len() == 0 {
        0
    } else {
        backlog(pending.drop_last()) + 1 + pointers_among(pending.last().task)
    }
}

/// A new entry adds itself and what its task holds to the backlog.
pub proof fn lemma_backlog_push(pending: Seq<PendingWrite>, entry: PendingWrite)
    ensures
        backlog(pending.push(entry)) == backlog(pending) + 1 + pointers_among(entry.task),
{
    assert(pending.push(entry).drop_last() =~= pending);
}

/// The oldest entry accounts for itself and what its task holds.
pub proof fn lemma_backlog_front(pending: Seq<PendingWrite>)
    requires
        pending.len() > 0,
    ensures
        backlog(pending) == 1 + pointers_among(pending[0].task) + backlog(pending.drop_first()),
    decreases pending.len(),
{
    if pending.len() == 1 {
        assert(pending.drop_last() =~= pending.drop_first());
    } else {
        let shorter = pending.drop_last();
        lemma_backlog_front(shorter);
        assert(shorter.drop_first() =~= pending.drop_first().drop_last());
        assert(pending.drop_first().last() == pending.last());
    }
}

/// The first operation of a task accounts for its own pointers.
pub proof fn lemma_pointers_among_front(task: Seq<OpModel>)
    requires
        task.len() > 0,
    ensures
        pointers_among(task) == pointers_in(task[0]) + pointers_among(task.drop_first()),
    decreases task.len(),
{
    if task.len() == 1 {
        assert(task.drop_last() =~= task.drop_first());
    } else {
        let shorter = task.drop_last();
        lemma_pointers_among_front(shorter);
        assert(shorter.drop_first() =~= task.drop_first().drop_last());
        assert(task.drop_first().last() == task.last());
    }
}

/// An operation adds to the backlog no more than the pointers it holds.
pub proof fn lemma_apply_backlog(s: ParserView, op: OpModel)
    ensures
        backlog(apply(s, op).state.pending) <= backlog(s.pending) + pointers_in(op),
{
    match op {
        OpModel::Pointer(task) => {
            lemma_backlog_push(s.pending, PendingWrite { slot: s.pos as u64, task });
        },
        _ => {},
    }
}

/// A task adds to the backlog no more than the pointers it holds.
pub proof fn lemma_run_backlog(s: ParserView, task: Seq<OpModel>)
    ensures
        backlog(run(s, task).state.pending) <= backlog(s.pending) + pointers_among(task),
    decreases task.len(),
{
    if task.len() > 0 {
        lemma_pointers_among_front(task);
        lemma_apply_backlog(s, task[0]);
        let first = apply(s, task[0]);
        if first.error is None {
            lemma_run_backlog(first.state, task.drop_first());
        }
    }
}

/// The parser without the oldest of its waiting pointers.
pub open spec fn without_oldest(s: ParserView) -> ParserView {
    ParserView { pending: s.pending.drop_first(), ..s }
}

/// The value stored in a pointer's slot for content that starts at `start`:
/// the position, reduced to the four bytes of the slot.
pub open spec fn pointer_field(start: nat) -> nat {
    start % 0x1_0000_0000
}

/// The oldest waiting pointer resolved: its task emits the content at the
/// cursor, the slot receives the position where that content starts, and
/// the cursor returns to the end of the content.
pub open spec fn resolve_oldest(s: ParserView) -> Outcome
    recommends
        s.pending.len() > 0,
{
    let entry = s.pending[0];
    let emitted = run(without_oldest(s), entry.task);
    if emitted.error is Some {
        emitted
    } else {
        let at_slot = emitted.state.at(entry.slot as nat);
        let patched = at_slot.write(at_slot.uint_bytes(pointer_field(s.pos), 4));
        if patched.error is Some {
            patched
        } else {
            Outcome::done(patched.state.at(emitted.state.pos))
        }
    }
}

/// Resolving the oldest pointer shrinks the backlog.
pub proof fn lemma_resolve_shrinks(s: ParserView)
    requires
        s.pending.len() > 0,
    ensures
        backlog(resolve_oldest(s).state.pending) < backlog(s.pending),
{
    lemma_backlog_front(s.pending);
    lemma_run_backlog(without_oldest(s), s.pending[0].task);
}

/// Every waiting pointer resolved, the oldest first, those that the tasks
/// queue on the way included, up to the first failure.
pub open spec fn drain(s: ParserView) -> Outcome
    decreases backlog(s.pending),
{
    if s.pending.len() == 0 {
        Outcome::done(s)
    } else {
        let first = resolve_oldest(s);
        if first.error is Some {
            first
        } else {
            proof {
                lemma_resolve_shrinks(s);
            }
            drain(first.state)
        }
    }
}

} // verus!
