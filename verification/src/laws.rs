//! What holds of the parser whatever it is used for.
use crate::align::lemma_aligned_is_least;
use crate::codec::{lemma_decode_encode, lemma_radix_values, lemma_signed_round_trip, radix};
use crate::model::{aligned, lemma_read_after_write, OpModel, ParserView};
use crate::task::{
    apply, backlog, drain, lemma_resolve_shrinks, pointer_field, resolve_oldest, run,
    without_oldest,
};
use vstd::prelude::*;

verus! {

/// An unsigned integer that was written is the one that is read from where
/// it was written, in either byte order, and the read ends where the write
/// ended.
pub proof fn lemma_uint_round_trip(s: ParserView, value: nat, width: nat)
    requires
        value < radix(width),
    ensures
        s.after_write(s.uint_bytes(value, width)).at(s.pos).can_read(width),
        s.after_write(s.uint_bytes(value, width)).at(s.pos).uint_here(width) == value,
        s.after_write(s.uint_bytes(value, width)).at(s.pos).after_read(width) == s.after_write(
            s.uint_bytes(value, width),
        ),
{
    let bytes = s.uint_bytes(value, width);
    lemma_decode_encode(value, width, s.big_endian);
    lemma_read_after_write(s, bytes);
}

/// A signed integer that was written is the one that is read from where it
/// was written, in either byte order, and the read ends where the write ended.
pub proof fn lemma_int_round_trip(s: ParserView, value: int, width: nat)
    requires
        width >= 1,
        -(radix(width) as int) <= 2 * value < radix(width),
    ensures
        s.after_write(s.int_bytes(value, width)).at(s.pos).can_read(width),
        s.after_write(s.int_bytes(value, width)).at(s.pos).int_here(width) == value,
        s.after_write(s.int_bytes(value, width)).at(s.pos).after_read(width) == s.after_write(
            s.int_bytes(value, width),
        ),
{
    let bytes = s.int_bytes(value, width);
    lemma_signed_round_trip(value, width);
    lemma_decode_encode(crate::codec::to_unsigned(value, width), width, s.big_endian);
    lemma_read_after_write(s, bytes);
}

/// Padding to an alignment puts the cursor on the next multiple of it and
/// adds nothing but zero bytes: what lay before the cursor is kept, and
/// every byte from the old cursor to the new one is zero.
pub proof fn lemma_align_write_pads_with_zeros(s: ParserView, alignment: nat)
    requires
        alignment > 0,
        s.align_write(alignment).error is None,
    ensures
        s.align_write(alignment).state.pos == aligned(s.pos, alignment),
        s.align_write(alignment).state.pos % alignment == 0,
        s.pos <= s.align_write(alignment).state.pos < s.pos + alignment,
        forall|i: int|
            0 <= i < s.pos && i < s.data.len() ==> s.align_write(alignment).state.data[i]
                == s.data[i],
        forall|i: int|
            s.pos <= i < s.align_write(alignment).state.pos ==> s.align_write(
                alignment,
            ).state.data[i] == 0u8,
{
    lemma_aligned_is_least(s.pos, alignment);
}

/// Padding to an alignment twice in a row is padding once: the second time
/// changes nothing, and fails exactly where the first did.
pub proof fn lemma_align_write_idempotent(s: ParserView, alignment: nat)
    requires
        alignment > 0,
    ensures
        s.align_write(alignment).state.align_write(alignment) == s.align_write(alignment),
{
    lemma_aligned_is_least(s.pos, alignment);
    let once = s.align_write(alignment);
    lemma_aligned_is_least(once.state.pos, alignment);
    if once.error is Some && s.pos < usize::MAX {
        // The first pass stopped at the last position that can be written:
        // no multiple of the alignment lies between the cursor and it.
        assert(once.state.pos == usize::MAX);
        assert((usize::MAX as nat) % alignment != 0);
    }
}

/// Moving to an alignment twice in a row is moving once.
pub proof fn lemma_align_seek_idempotent(s: ParserView, alignment: nat)
    requires
        alignment > 0,
    ensures
        s.align_seek(alignment).state.align_seek(alignment) == s.align_seek(alignment),
        s.align_seek(alignment).error is None ==> s.align_seek(alignment).state.pos % alignment
            == 0,
{
    lemma_aligned_is_least(s.pos, alignment);
    let once = s.align_seek(alignment);
    lemma_aligned_is_least(once.state.pos, alignment);
}

/// A task puts its pointers behind those that already wait: what waited
/// before the task ran still leads the queue, in the same order.
pub proof fn lemma_run_queues_behind(s: ParserView, task: Seq<OpModel>)
    ensures
        s.pending.len() <= run(s, task).state.pending.len(),
        run(s, task).state.pending.take(s.pending.len() as int) == s.pending,
    decreases task.len(),
{
    if task.len() == 0 {
        assert(s.pending.take(s.pending.len() as int) =~= s.pending);
    } else {
        let first = apply(s, task[0]);
        assert(s.pending.len() <= first.state.pending.len() && first.state.pending.take(
            s.pending.len() as int,
        ) =~= s.pending);
        if first.error is None {
            lemma_run_queues_behind(first.state, task.drop_first());
            let end = run(first.state, task.drop_first()).state.pending;
            assert(end.take(s.pending.len() as int) =~= end.take(
                first.state.pending.len() as int,
            ).take(s.pending.len() as int));
        }
    }
}

/// Resolving a pointer leaves its siblings at the head of the queue: the
/// pointers that its task wrote are resolved only after all that waited
/// beside it.
pub proof fn lemma_siblings_before_nested(s: ParserView)
    requires
        s.pending.len() > 0,
    ensures
        resolve_oldest(s).state.pending.len() >= s.pending.len() - 1,
        resolve_oldest(s).state.pending.take(s.pending.len() - 1) == s.pending.drop_first(),
{
    let rest = without_oldest(s);
    lemma_run_queues_behind(rest, s.pending[0].task);
}

/// Once its pointer is resolved, the slot holds the position at which the
/// content starts, reduced to four bytes: a read of the pointer with no
/// active base leads to that position.
pub proof fn lemma_slot_holds_content_start(s: ParserView)
    requires
        s.pending.len() > 0,
        resolve_oldest(s).error is None,
    ensures
        resolve_oldest(s).state.at(s.pending[0].slot as nat).can_read(4),
        resolve_oldest(s).state.at(s.pending[0].slot as nat).uint_here(4) == pointer_field(s.pos),
        resolve_oldest(s).state.at(s.pending[0].slot as nat).pointer_target() == if pointer_field(
            s.pos,
        ) + resolve_oldest(s).state.active_base() <= u64::MAX {
            Some(pointer_field(s.pos) + resolve_oldest(s).state.active_base())
        } else {
            None
        },
{
    let entry = s.pending[0];
    let emitted = run(without_oldest(s), entry.task);
    let at_slot = emitted.state.at(entry.slot as nat);
    lemma_radix_values();
    lemma_uint_round_trip(at_slot, pointer_field(s.pos), 4);
    let done = resolve_oldest(s).state;
    assert(done.at(entry.slot as nat) == at_slot.after_write(
        at_slot.uint_bytes(pointer_field(s.pos), 4),
    ).at(entry.slot as nat));
}

/// A pointer is read against the active base: the field holds the position
/// it refers to less that base. With the last base popped the field is read
/// against zero, and refers to the position that it holds.
pub proof fn lemma_pointer_is_relative_to_base(s: ParserView)
    requires
        s.pointer_target() is Some,
    ensures
        s.uint_here(4) == s.pointer_target()->0 - s.active_base(),
        s.bases.len() == 0 ==> s.pointer_target() == Some(s.uint_here(4)),
        s.bases.len() == 1 ==> s.without_base().pointer_target() == Some(s.uint_here(4)),
{
    lemma_radix_values();
    crate::codec::lemma_encode_decode(s.peek(4), s.big_endian);
    assert(s.without_base().avail() == s.avail());
    if s.bases.len() == 1 {
        assert(s.without_base().bases.len() == 0);
    }
}

/// A pointer that was written and resolved, read back against no base or a
/// base of zero, refers to the start of its content: the field holds that
/// position, which is the position less the base. Against any other base
/// the read is off by the base, for the field holds the position itself.
pub proof fn lemma_written_pointer_leads_to_content(s: ParserView)
    requires
        s.pending.len() > 0,
        resolve_oldest(s).error is None,
        resolve_oldest(s).state.active_base() == 0,
        s.pos < 0x1_0000_0000,
    ensures
        resolve_oldest(s).state.at(s.pending[0].slot as nat).uint_here(4) == s.pos
            - resolve_oldest(s).state.active_base(),
        resolve_oldest(s).state.at(s.pending[0].slot as nat).pointer_target() == Some(s.pos),
{
    lemma_slot_holds_content_start(s);
}

/// A parser read out of another is a parser of its own: it starts at its
/// own position zero wherever the parent's cursor stood, it has no base, and
/// a base pushed in it is its own, while the parent keeps the bases it had.
pub proof fn lemma_sub_parser_is_isolated(parent: ParserView, length: nat)
    ensures
        ParserView::over(parent.peek(length)).pos == 0,
        ParserView::over(parent.peek(length)).active_base() == 0,
        ParserView::over(parent.peek(length)).pending.len() == 0,
        ParserView::over(parent.peek(length)).with_base().bases == seq![0u64],
        parent.after_read(length).bases == parent.bases,
        parent.after_read(length).pending == parent.pending,
        parent.after_read(length).data == parent.data,
{
    let sub = ParserView::over(parent.peek(length));
    assert(sub.with_base().bases =~= seq![0u64]);
}

/// Resolution runs until nothing waits, or fails.
pub proof fn lemma_drain_empties_queue(s: ParserView)
    ensures
        drain(s).error is None ==> drain(s).state.pending.len() == 0,
    decreases backlog(s.pending),
{
    if s.pending.len() > 0 {
        let first = resolve_oldest(s);
        if first.error is None {
            lemma_resolve_shrinks(s);
            lemma_drain_empties_queue(first.state);
        }
    }
}

} // verus!
