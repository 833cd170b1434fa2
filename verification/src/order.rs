//! The order in which the content of pointers is emitted: breadth first.
//!
//! The first part holds of every parser and every task. The second part
//! works one case out to the last byte.
use crate::align::lemma_aligned_is_least;
use crate::codec::{encode, lemma_le_bytes_len};
use crate::model::{is_power_of_two, overwrite, OpModel, Outcome, ParserView, PendingWrite};
use crate::task::{
    apply, backlog, drain, lemma_pointers_among_front, lemma_resolve_shrinks, pointer_field,
    pointers_among, resolve_oldest, run, without_oldest,
};
use vstd::prelude::*;

verus! {

/// The tasks of the pointers that a task writes, in the order in which it
/// writes them.
pub open spec fn pointers_of(task: Seq<OpModel>) -> Seq<Seq<OpModel>>
    decreases task.len(),
{
    if task.len() == 0 {
        Seq::empty()
    } else {
        match task[0] {
            OpModel::Pointer(nested) => seq![nested] + pointers_of(task.drop_first()),
            _ => pointers_of(task.drop_first()),
        }
    }
}

/// The tasks of the pointers that wait, the oldest first.
pub open spec fn tasks_of(pending: Seq<PendingWrite>) -> Seq<Seq<OpModel>> {
    Seq::new(pending.len(), |i: int| pending[i].task)
}

/// The number of tasks that a queue of tasks stands for: its own, and
/// those of the pointers that they hold at any depth.
pub open spec fn load(queue: Seq<Seq<OpModel>>) -> nat
    decreases queue.len(),
{
    if queue.len() == 0 {
        0
    } else {
        1 + pointers_among(queue[0]) + load(queue.drop_first())
    }
}

/// The load of two queues in a row is the sum of their loads.
pub proof fn lemma_load_of_both(first: Seq<Seq<OpModel>>, second: Seq<Seq<OpModel>>)
    ensures
        load(first + second) == load(first) + load(second),
    decreases first.len(),
{
    if first.len() == 0 {
        assert(first + second =~= second);
    } else {
        lemma_load_of_both(first.drop_first(), second);
        assert((first + second).drop_first() =~= first.drop_first() + second);
        assert((first + second)[0] == first[0]);
    }
}

/// The pointers that a task writes stand for as many tasks as the task
/// holds pointers.
pub proof fn lemma_load_of_pointers(task: Seq<OpModel>)
    ensures
        load(pointers_of(task)) == pointers_among(task),
    decreases task.len(),
{
    if task.len() > 0 {
        lemma_pointers_among_front(task);
        lemma_load_of_pointers(task.drop_first());
        match task[0] {
            OpModel::Pointer(nested) => {
                let tail = pointers_of(task.drop_first());
                assert((seq![nested] + tail).drop_first() =~= tail);
                assert((seq![nested] + tail)[0] == nested);
            },
            _ => {},
        }
    }
}

/// Tasks in breadth-first order: the first of the queue, then the rest of
/// the queue with the pointers of the first behind it, in the same way.
pub open spec fn breadth_first(queue: Seq<Seq<OpModel>>) -> Seq<Seq<OpModel>>
    decreases load(queue),
{
    if queue.len() == 0 {
        Seq::empty()
    } else {
        proof {
            lemma_load_of_both(queue.drop_first(), pointers_of(queue[0]));
            lemma_load_of_pointers(queue[0]);
        }
        seq![queue[0]] + breadth_first(queue.drop_first() + pointers_of(queue[0]))
    }
}

/// The tasks that resolution runs, in the order in which it runs them, up
/// to and including the first that fails.
pub open spec fn emission_order(s: ParserView) -> Seq<Seq<OpModel>>
    decreases backlog(s.pending),
{
    if s.pending.len() == 0 {
        Seq::empty()
    } else {
        let first = resolve_oldest(s);
        if first.error is Some {
            seq![s.pending[0].task]
        } else {
            proof {
                lemma_resolve_shrinks(s);
            }
            seq![s.pending[0].task] + emission_order(first.state)
        }
    }
}

/// A task that succeeds puts the tasks of its pointers behind those that
/// wait, in the order in which it writes them, and nothing else.
pub proof fn lemma_run_queues_its_pointers(s: ParserView, task: Seq<OpModel>)
    requires
        run(s, task).error is None,
    ensures
        tasks_of(run(s, task).state.pending) == tasks_of(s.pending) + pointers_of(task),
    decreases task.len(),
{
    if task.len() == 0 {
        assert(tasks_of(s.pending) + pointers_of(task) =~= tasks_of(s.pending));
    } else {
        let first = apply(s, task[0]);
        let rest = task.drop_first();
        lemma_run_queues_its_pointers(first.state, rest);
        match task[0] {
            OpModel::Pointer(nested) => {
                assert(tasks_of(first.state.pending) =~= tasks_of(s.pending) + seq![nested]);
                assert(tasks_of(s.pending) + seq![nested] + pointers_of(rest) =~= tasks_of(
                    s.pending,
                ) + (seq![nested] + pointers_of(rest)));
            },
            _ => {
                assert(first.state.pending == s.pending);
            },
        }
    }
}

/// Resolution is breadth first, whatever waits and whatever the tasks do:
/// where it succeeds, it runs the tasks that wait in their order, then the
/// tasks of the pointers that those wrote, in the order of their writing,
/// and so on level by level.
pub proof fn lemma_resolution_is_breadth_first(s: ParserView)
    requires
        drain(s).error is None,
    ensures
        emission_order(s) == breadth_first(tasks_of(s.pending)),
    decreases backlog(s.pending),
{
    let queue = tasks_of(s.pending);
    if s.pending.len() == 0 {
        assert(queue.len() == 0);
    } else {
        let first = resolve_oldest(s);
        lemma_resolve_shrinks(s);
        lemma_resolution_is_breadth_first(first.state);
        let task = s.pending[0].task;
        lemma_run_queues_its_pointers(without_oldest(s), task);
        assert(tasks_of(without_oldest(s).pending) =~= queue.drop_first());
        assert(first.state.pending == run(without_oldest(s), task).state.pending);
        assert(queue[0] == task);
    }
}

/// Two pointers that wait side by side, each with a task that writes one
/// pointer of its own: the two tasks are run first, in their order, and
/// only then the two that they queued, in the same order. This holds
/// wherever the cursor stands and whatever else the four tasks do.
pub proof fn lemma_siblings_then_nested(
    s: ParserView,
    a: Seq<OpModel>,
    a1: Seq<OpModel>,
    b: Seq<OpModel>,
    b1: Seq<OpModel>,
)
    requires
        tasks_of(s.pending) == seq![a, b],
        pointers_of(a) == seq![a1],
        pointers_of(b) == seq![b1],
        pointers_of(a1).len() == 0,
        pointers_of(b1).len() == 0,
        drain(s).error is None,
    ensures
        emission_order(s) == seq![a, b, a1, b1],
{
    lemma_resolution_is_breadth_first(s);
    let q0 = seq![a, b];
    let q1 = seq![b, a1];
    let q2 = seq![a1, b1];
    let q3 = seq![b1];
    let q4 = Seq::<Seq<OpModel>>::empty();
    assert(q0.drop_first() + pointers_of(a) =~= q1);
    assert(q1.drop_first() + pointers_of(b) =~= q2);
    assert(q2.drop_first() + pointers_of(a1) =~= q3);
    assert(q3.drop_first() + pointers_of(b1) =~= q4);
    assert(breadth_first(q4) =~= Seq::<Seq<OpModel>>::empty());
    assert(breadth_first(q3) =~= seq![b1]);
    assert(breadth_first(q2) =~= seq![a1, b1]);
    assert(breadth_first(q1) =~= seq![b, a1, b1]);
    assert(breadth_first(q0) =~= seq![a, b, a1, b1]);
}

/// Whether an operation never moves the cursor back: every operation but
/// a seek, provided the same holds of the task of a pointer.
pub open spec fn moves_forward(op: OpModel) -> bool
    decreases op,
{
    match op {
        OpModel::Seek(_) => false,
        OpModel::Pointer(nested) => forall|i: int|
            0 <= i < nested.len() ==> moves_forward(#[trigger] nested[i]),
        _ => true,
    }
}

/// Whether no operation of a task moves the cursor back.
pub open spec fn task_moves_forward(task: Seq<OpModel>) -> bool {
    forall|i: int| 0 <= i < task.len() ==> moves_forward(#[trigger] task[i])
}

/// Whether no task of a queue moves the cursor back.
pub open spec fn queue_moves_forward(queue: Seq<Seq<OpModel>>) -> bool {
    forall|i: int| 0 <= i < queue.len() ==> task_moves_forward(#[trigger] queue[i])
}

/// The positions at which resolution starts the content of one pointer
/// after the other, in the order of `emission_order`. Each is the value
/// that the pointer's slot receives, reduced to four bytes.
pub open spec fn emission_starts(s: ParserView) -> Seq<nat>
    decreases backlog(s.pending),
{
    if s.pending.len() == 0 {
        Seq::empty()
    } else {
        let first = resolve_oldest(s);
        if first.error is Some {
            seq![s.pos]
        } else {
            proof {
                lemma_resolve_shrinks(s);
            }
            seq![s.pos] + emission_starts(first.state)
        }
    }
}

/// An operation other than a seek leaves the cursor where it is or moves it
/// forward. A pointer that is written moves it over the four bytes of its slot.
pub proof fn lemma_apply_moves_forward(s: ParserView, op: OpModel)
    requires
        !(op is Seek),
    ensures
        apply(s, op).state.pos >= s.pos,
        op is Pointer && apply(s, op).error is None ==> apply(s, op).state.pos == s.pos + 4,
{
    match op {
        OpModel::AlignSeek(alignment) => {
            if is_power_of_two(alignment as nat) {
                lemma_aligned_is_least(s.pos, alignment as nat);
            }
        },
        OpModel::AlignWrite(alignment) => {
            if is_power_of_two(alignment as nat) {
                lemma_aligned_is_least(s.pos, alignment as nat);
            }
        },
        _ => {},
    }
}

/// A task without a seek leaves the cursor where it is or moves it forward,
/// and by four bytes at least where it succeeds and writes a pointer.
pub proof fn lemma_run_moves_forward(s: ParserView, task: Seq<OpModel>)
    requires
        task_moves_forward(task),
    ensures
        run(s, task).state.pos >= s.pos,
        run(s, task).error is None && pointers_of(task).len() > 0 ==> run(s, task).state.pos
            >= s.pos + 4,
    decreases task.len(),
{
    if task.len() > 0 {
        let first = apply(s, task[0]);
        let rest = task.drop_first();
        assert(moves_forward(task[0]));
        lemma_apply_moves_forward(s, task[0]);
        assert forall|i: int| 0 <= i < rest.len() implies moves_forward(#[trigger] rest[i]) by {
            assert(rest[i] == task[i + 1]);
        }
        if first.error is None {
            lemma_run_moves_forward(first.state, rest);
        }
    }
}

/// The tasks of the pointers of a task that never moves the cursor back
/// never move it back either.
pub proof fn lemma_pointers_move_forward(task: Seq<OpModel>)
    requires
        task_moves_forward(task),
    ensures
        queue_moves_forward(pointers_of(task)),
    decreases task.len(),
{
    if task.len() > 0 {
        let rest = task.drop_first();
        assert(moves_forward(task[0]));
        assert forall|i: int| 0 <= i < rest.len() implies moves_forward(#[trigger] rest[i]) by {
            assert(rest[i] == task[i + 1]);
        }
        lemma_pointers_move_forward(rest);
        match task[0] {
            OpModel::Pointer(nested) => {
                let queue = pointers_of(task);
                assert(task_moves_forward(nested));
                assert forall|i: int| 0 <= i < queue.len() implies task_moves_forward(
                    #[trigger] queue[i],
                ) by {
                    if i > 0 {
                        assert(queue[i] == pointers_of(rest)[i - 1]);
                    }
                }
            },
            _ => {},
        }
    }
}

/// Resolving a pointer whose task never moves the cursor back leaves the
/// cursor where the content ends, at or behind where it started, and
/// leaves a queue of tasks that never move it back.
pub proof fn lemma_resolve_moves_forward(s: ParserView)
    requires
        s.pending.len() > 0,
        queue_moves_forward(tasks_of(s.pending)),
        resolve_oldest(s).error is None,
    ensures
        resolve_oldest(s).state.pos >= s.pos,
        pointers_of(s.pending[0].task).len() > 0 ==> resolve_oldest(s).state.pos >= s.pos + 4,
        queue_moves_forward(tasks_of(resolve_oldest(s).state.pending)),
{
    let queue = tasks_of(s.pending);
    let task = s.pending[0].task;
    let rest = without_oldest(s);
    assert(queue[0] == task);
    assert(task_moves_forward(task));
    lemma_run_moves_forward(rest, task);
    lemma_run_queues_its_pointers(rest, task);
    lemma_pointers_move_forward(task);
    let after = tasks_of(resolve_oldest(s).state.pending);
    assert(resolve_oldest(s).state.pending == run(rest, task).state.pending);
    assert(tasks_of(rest.pending) =~= queue.drop_first());
    assert forall|i: int| 0 <= i < after.len() implies task_moves_forward(#[trigger] after[i]) by {
        if i < queue.len() - 1 {
            assert(after[i] == queue[i + 1]);
        } else {
            assert(after[i] == pointers_of(task)[i - (queue.len() - 1)]);
        }
    }
}

/// Where no task moves the cursor back, no content starts before the cursor.
pub proof fn lemma_starts_not_before_cursor(s: ParserView)
    requires
        queue_moves_forward(tasks_of(s.pending)),
        drain(s).error is None,
    ensures
        emission_starts(s).len() == emission_order(s).len(),
        forall|i: int| 0 <= i < emission_starts(s).len() ==> emission_starts(s)[i] >= s.pos,
    decreases backlog(s.pending),
{
    if s.pending.len() > 0 {
        let first = resolve_oldest(s);
        lemma_resolve_shrinks(s);
        lemma_resolve_moves_forward(s);
        lemma_starts_not_before_cursor(first.state);
    }
}

/// Content is laid out in the order of emission: where no task moves the
/// cursor back, the positions at which resolution starts the content of one
/// pointer after the other never decrease, whatever waits and wherever the
/// cursor stands.
pub proof fn lemma_content_is_laid_out_in_order(s: ParserView)
    requires
        queue_moves_forward(tasks_of(s.pending)),
        drain(s).error is None,
    ensures
        forall|i: int, j: int|
            0 <= i <= j < emission_starts(s).len() ==> emission_starts(s)[i] <= emission_starts(
                s,
            )[j],
    decreases backlog(s.pending),
{
    if s.pending.len() > 0 {
        let first = resolve_oldest(s);
        lemma_resolve_shrinks(s);
        lemma_resolve_moves_forward(s);
        lemma_content_is_laid_out_in_order(first.state);
        lemma_starts_not_before_cursor(first.state);
        let starts = emission_starts(s);
        let later = emission_starts(first.state);
        assert forall|i: int, j: int| 0 <= i <= j < starts.len() implies starts[i] <= starts[j] by {
            if i == 0 {
                if j > 0 {
                    assert(starts[j] == later[j - 1]);
                }
            } else {
                assert(starts[i] == later[i - 1]);
                assert(starts[j] == later[j - 1]);
            }
        }
    }
}

/// One round of a resolution that succeeds: the oldest pointer is resolved
/// without failure, its content starts at the cursor, and the rest of the
/// resolution goes on from there.
pub proof fn lemma_first_round(s: ParserView)
    requires
        s.pending.len() > 0,
        drain(s).error is None,
    ensures
        resolve_oldest(s).error is None,
        drain(resolve_oldest(s).state) == drain(s),
        emission_starts(s) == seq![s.pos] + emission_starts(resolve_oldest(s).state),
        emission_order(s) == seq![s.pending[0].task] + emission_order(resolve_oldest(s).state),
        tasks_of(resolve_oldest(s).state.pending) == tasks_of(s.pending).drop_first()
            + pointers_of(s.pending[0].task),
{
    let task = s.pending[0].task;
    lemma_run_queues_its_pointers(without_oldest(s), task);
    assert(tasks_of(without_oldest(s).pending) =~= tasks_of(s.pending).drop_first());
    assert(resolve_oldest(s).state.pending == run(without_oldest(s), task).state.pending);
}

/// One round of a resolution that succeeds and whose tasks never move the
/// cursor back: the next content starts at or behind the start of the first,
/// and four bytes behind it at least where the first writes a pointer.
proof fn lemma_next_start(s: ParserView)
    requires
        s.pending.len() > 0,
        queue_moves_forward(tasks_of(s.pending)),
        drain(s).error is None,
        resolve_oldest(s).state.pending.len() > 0,
    ensures
        emission_starts(s).len() >= 2,
        emission_starts(s)[0] == s.pos,
        emission_starts(s)[1] == resolve_oldest(s).state.pos,
        emission_starts(s)[1] >= s.pos,
        pointers_of(s.pending[0].task).len() > 0 ==> emission_starts(s)[1] >= s.pos + 4,
{
    lemma_first_round(s);
    lemma_resolve_moves_forward(s);
    let next = resolve_oldest(s).state;
    lemma_first_round(next);
}

/// Two pointers that wait side by side, each with a task that writes one
/// pointer of its own, and no task that moves the cursor back: the content
/// of the first starts at the cursor, that of the second behind it, then
/// that of the first's pointer, then that of the second's. So the four
/// slots receive positions in that order, wherever the cursor stands. The
/// last two are the same only where the third task emits nothing.
pub proof fn lemma_siblings_then_nested_positions(
    s: ParserView,
    a: Seq<OpModel>,
    a1: Seq<OpModel>,
    b: Seq<OpModel>,
    b1: Seq<OpModel>,
)
    requires
        tasks_of(s.pending) == seq![a, b],
        pointers_of(a) == seq![a1],
        pointers_of(b) == seq![b1],
        pointers_of(a1).len() == 0,
        pointers_of(b1).len() == 0,
        queue_moves_forward(tasks_of(s.pending)),
        drain(s).error is None,
    ensures
        emission_order(s) == seq![a, b, a1, b1],
        emission_starts(s).len() == 4,
        emission_starts(s)[0] == s.pos,
        emission_starts(s)[0] + 4 <= emission_starts(s)[1],
        emission_starts(s)[1] + 4 <= emission_starts(s)[2],
        emission_starts(s)[2] <= emission_starts(s)[3],
{
    lemma_siblings_then_nested(s, a, a1, b, b1);
    lemma_starts_not_before_cursor(s);
    lemma_content_is_laid_out_in_order(s);
    let queue = tasks_of(s.pending);
    assert(queue.len() == 2 && queue[0] == a && queue[1] == b);
    assert(s.pending[0].task == queue[0]);
    let s1 = resolve_oldest(s).state;
    lemma_first_round(s);
    lemma_resolve_moves_forward(s);
    let queue1 = tasks_of(s1.pending);
    assert(queue1.len() == 2 && queue1[0] == b);
    assert(s1.pending[0].task == queue1[0]);
    lemma_next_start(s);
    let s2 = resolve_oldest(s1).state;
    lemma_first_round(s1);
    let queue2 = tasks_of(s2.pending);
    assert(queue2.len() == 2);
    lemma_next_start(s1);
    let starts = emission_starts(s);
    let starts1 = emission_starts(s1);
    assert(starts[1] == starts1[0]);
    assert(starts[2] == starts1[1]);
}

/// The four bytes of a pointer to content that starts at `start`.
pub open spec fn field_bytes(start: nat, big_endian: bool) -> Seq<u8> {
    encode(pointer_field(start), 4, big_endian)
}

/// The task that emits the bytes `content` and then a pointer to the bytes `nested`.
pub open spec fn content_then_pointer(content: Seq<u8>, nested: Seq<u8>) -> Seq<OpModel> {
    seq![OpModel::Buf(content), OpModel::Pointer(seq![OpModel::Buf(nested)])]
}

/// A pointer field is four bytes.
pub proof fn lemma_field_len(start: nat, big_endian: bool)
    ensures
        field_bytes(start, big_endian).len() == 4,
{
    lemma_le_bytes_len(pointer_field(start), 4);
}

/// One pointer resolved whose task emits `content` and a pointer to
/// `nested`: the content is written at the cursor, the slot of the nested
/// pointer is reserved behind it, the pointer's own slot is filled in, and
/// the nested pointer waits behind all others.
#[verifier::rlimit(40)]
proof fn lemma_resolve_content_then_pointer(s: ParserView, content: Seq<u8>, nested: Seq<u8>)
    requires
        s.pending.len() > 0,
        s.pending[0].task == content_then_pointer(content, nested),
        s.pending[0].slot + 4 <= s.pos,
        s.pos + content.len() + 4 <= usize::MAX,
    ensures
        resolve_oldest(s) == Outcome::done(
            ParserView {
                data: overwrite(
                    overwrite(s.data, s.pos, content),
                    s.pending[0].slot as nat,
                    field_bytes(s.pos, s.big_endian),
                ),
                pos: s.pos + content.len() + 4,
                pending: s.pending.drop_first().push(
                    PendingWrite {
                        slot: (s.pos + content.len()) as u64,
                        task: seq![OpModel::Buf(nested)],
                    },
                ),
                ..s
            },
        ),
{
    reveal_with_fuel(run, 3);
    let entry = s.pending[0];
    let rest = without_oldest(s);
    let task = entry.task;
    lemma_field_len(s.pos, s.big_endian);
    let wrote = rest.after_write(content);
    assert(task[0] == OpModel::Buf(content));
    assert(task.drop_first()[0] == OpModel::Pointer(seq![OpModel::Buf(nested)]));
    assert(task.drop_first().drop_first().len() == 0);
    let emitted = run(rest, task);
    assert(emitted.error is None);
    assert(emitted.state.pos == s.pos + content.len() + 4);
    assert(emitted.state.data == wrote.data);
    let at_slot = emitted.state.at(entry.slot as nat);
    let patched = at_slot.write(field_bytes(s.pos, s.big_endian));
    assert(patched.error is None);
}

/// One pointer resolved whose task emits `content` and nothing else: the
/// content is written at the cursor and the slot is filled in.
proof fn lemma_resolve_content(s: ParserView, content: Seq<u8>)
    requires
        s.pending.len() > 0,
        s.pending[0].task == seq![OpModel::Buf(content)],
        s.pending[0].slot + 4 <= s.pos,
        s.pos + content.len() <= usize::MAX,
    ensures
        resolve_oldest(s) == Outcome::done(
            ParserView {
                data: overwrite(
                    overwrite(s.data, s.pos, content),
                    s.pending[0].slot as nat,
                    field_bytes(s.pos, s.big_endian),
                ),
                pos: s.pos + content.len(),
                pending: s.pending.drop_first(),
                ..s
            },
        ),
{
    reveal_with_fuel(run, 2);
    let entry = s.pending[0];
    let rest = without_oldest(s);
    let task = entry.task;
    lemma_field_len(s.pos, s.big_endian);
    let wrote = rest.after_write(content);
    assert(task[0] == OpModel::Buf(content));
    assert(task.drop_first().len() == 0);
    let emitted = run(rest, task);
    assert(emitted.error is None);
    assert(emitted.state == wrote);
    let at_slot = emitted.state.at(entry.slot as nat);
    let patched = at_slot.write(field_bytes(s.pos, s.big_endian));
    assert(patched.error is None);
}

/// What the buffer holds from where `lemma_emission_order` starts, after
/// `done` of its four pointers have been resolved: each round lays the
/// content over the buffer at the cursor and the field over the slot.
spec fn stage_data(
    s: ParserView,
    a: Seq<u8>,
    a1: Seq<u8>,
    b: Seq<u8>,
    b1: Seq<u8>,
    done: nat,
) -> Seq<u8>
    decreases done,
{
    let order = s.big_endian;
    let start_a = s.pos + 8;
    let start_b = start_a + a.len() + 4;
    let start_a1 = start_b + b.len() + 4;
    let start_b1 = start_a1 + a1.len();
    if done == 0 {
        s.data
    } else {
        let before = stage_data(s, a, a1, b, b1, (done - 1) as nat);
        if done == 1 {
            overwrite(overwrite(before, start_a, a), s.pos, field_bytes(start_a, order))
        } else if done == 2 {
            overwrite(overwrite(before, start_b, b), s.pos + 4, field_bytes(start_b, order))
        } else if done == 3 {
            overwrite(
                overwrite(before, start_a1, a1),
                start_a + a.len(),
                field_bytes(start_a1, order),
            )
        } else {
            overwrite(
                overwrite(before, start_b1, b1),
                start_b + b.len(),
                field_bytes(start_b1, order),
            )
        }
    }
}

/// The parser on the way through the resolution that `lemma_emission_order`
/// speaks of, after `done` of the four pointers have been resolved.
#[verifier::opaque]
spec fn stage(
    s: ParserView,
    a: Seq<u8>,
    a1: Seq<u8>,
    b: Seq<u8>,
    b1: Seq<u8>,
    done: nat,
) -> ParserView {
    let start_a = s.pos + 8;
    let start_b = start_a + a.len() + 4;
    let start_a1 = start_b + b.len() + 4;
    let start_b1 = start_a1 + a1.len();
    let to_a = PendingWrite { slot: s.pos as u64, task: content_then_pointer(a, a1) };
    let to_b = PendingWrite { slot: (s.pos + 4) as u64, task: content_then_pointer(b, b1) };
    let to_a1 = PendingWrite {
        slot: (start_a + a.len()) as u64,
        task: seq![OpModel::Buf(a1)],
    };
    let to_b1 = PendingWrite {
        slot: (start_b + b.len()) as u64,
        task: seq![OpModel::Buf(b1)],
    };
    let data = stage_data(s, a, a1, b, b1, done);
    if done == 0 {
        ParserView { data, pos: start_a, pending: seq![to_a, to_b], ..s }
    } else if done == 1 {
        ParserView { data, pos: start_b, pending: seq![to_b, to_a1], ..s }
    } else if done == 2 {
        ParserView { data, pos: start_a1, pending: seq![to_a1, to_b1], ..s }
    } else if done == 3 {
        ParserView { data, pos: start_b1, pending: seq![to_b1], ..s }
    } else {
        ParserView { data, pos: start_b1 + b1.len(), pending: Seq::empty(), ..s }
    }
}

/// The two pointers written: both wait, the cursor is behind their slots.
proof fn lemma_stage_zero(s: ParserView, a: Seq<u8>, a1: Seq<u8>, b: Seq<u8>, b1: Seq<u8>)
    requires
        s.pending.len() == 0,
        s.pos + 16 + a.len() + b.len() + a1.len() + b1.len() <= usize::MAX,
    ensures
        s.defer(content_then_pointer(a, a1)).state.defer(content_then_pointer(b, b1)).state
            == stage(s, a, a1, b, b1, 0),
{
    reveal(stage);
    let queued = s.defer(content_then_pointer(a, a1)).state.defer(
        content_then_pointer(b, b1),
    ).state;
    assert(queued.pending =~= stage(s, a, a1, b, b1, 0).pending);
}

/// The first of the two pointers resolved: `a` is emitted behind both slots.
proof fn lemma_stage_one(s: ParserView, a: Seq<u8>, a1: Seq<u8>, b: Seq<u8>, b1: Seq<u8>)
    requires
        s.pos + 16 + a.len() + b.len() + a1.len() + b1.len() <= usize::MAX,
    ensures
        resolve_oldest(stage(s, a, a1, b, b1, 0)) == Outcome::done(stage(s, a, a1, b, b1, 1)),
        stage(s, a, a1, b, b1, 0).pending.len() > 0,
{
    reveal(stage);
    reveal_with_fuel(stage_data, 2);
    let from = stage(s, a, a1, b, b1, 0);
    let to = stage(s, a, a1, b, b1, 1);
    lemma_resolve_content_then_pointer(from, a, a1);
    assert(resolve_oldest(from).state.pending =~= to.pending);
}

/// The second pointer resolved: `b` is emitted behind `a`, before what `a`
/// points to.
proof fn lemma_stage_two(s: ParserView, a: Seq<u8>, a1: Seq<u8>, b: Seq<u8>, b1: Seq<u8>)
    requires
        s.pos + 16 + a.len() + b.len() + a1.len() + b1.len() <= usize::MAX,
    ensures
        resolve_oldest(stage(s, a, a1, b, b1, 1)) == Outcome::done(stage(s, a, a1, b, b1, 2)),
        stage(s, a, a1, b, b1, 1).pending.len() > 0,
{
    reveal(stage);
    let from = stage(s, a, a1, b, b1, 1);
    let to = stage(s, a, a1, b, b1, 2);
    assert(to.data == overwrite(
        overwrite(from.data, from.pos, b),
        s.pos + 4,
        field_bytes(from.pos, s.big_endian),
    )) by {
        reveal_with_fuel(stage_data, 1);
    }
    lemma_resolve_content_then_pointer(from, b, b1);
    assert(resolve_oldest(from).state.pending =~= to.pending);
}

/// The third pointer resolved: `a1` is emitted behind `b`.
proof fn lemma_stage_three(s: ParserView, a: Seq<u8>, a1: Seq<u8>, b: Seq<u8>, b1: Seq<u8>)
    requires
        s.pos + 16 + a.len() + b.len() + a1.len() + b1.len() <= usize::MAX,
    ensures
        resolve_oldest(stage(s, a, a1, b, b1, 2)) == Outcome::done(stage(s, a, a1, b, b1, 3)),
        stage(s, a, a1, b, b1, 2).pending.len() > 0,
{
    reveal(stage);
    let from = stage(s, a, a1, b, b1, 2);
    let to = stage(s, a, a1, b, b1, 3);
    assert(to.data == overwrite(
        overwrite(from.data, from.pos, a1),
        s.pos + 8 + a.len(),
        field_bytes(from.pos, s.big_endian),
    )) by {
        reveal_with_fuel(stage_data, 1);
    }
    lemma_resolve_content(from, a1);
    assert(resolve_oldest(from).state.pending =~= to.pending);
}

/// The last pointer resolved: `b1` is emitted behind `a1`.
proof fn lemma_stage_four(s: ParserView, a: Seq<u8>, a1: Seq<u8>, b: Seq<u8>, b1: Seq<u8>)
    requires
        s.pos + 16 + a.len() + b.len() + a1.len() + b1.len() <= usize::MAX,
    ensures
        resolve_oldest(stage(s, a, a1, b, b1, 3)) == Outcome::done(stage(s, a, a1, b, b1, 4)),
        stage(s, a, a1, b, b1, 3).pending.len() > 0,
{
    reveal(stage);
    let from = stage(s, a, a1, b, b1, 3);
    let to = stage(s, a, a1, b, b1, 4);
    assert(to.data == overwrite(
        overwrite(from.data, from.pos, b1),
        s.pos + 12 + a.len() + b.len(),
        field_bytes(from.pos, s.big_endian),
    )) by {
        reveal_with_fuel(stage_data, 1);
    }
    lemma_resolve_content(from, b1);
    assert(resolve_oldest(from).state.pending =~= to.pending);
}

/// Eight layers laid over a buffer one after the other, each next to the
/// others, are one layer: the eight byte strings in the order of their
/// places.
proof fn lemma_layers(
    data: Seq<u8>,
    p: nat,
    fa: Seq<u8>,
    fb: Seq<u8>,
    a: Seq<u8>,
    fa1: Seq<u8>,
    b: Seq<u8>,
    fb1: Seq<u8>,
    a1: Seq<u8>,
    b1: Seq<u8>,
)
    requires
        fa.len() == 4,
        fb.len() == 4,
        fa1.len() == 4,
        fb1.len() == 4,
    ensures
        ({
            let start_a = p + 8;
            let start_b = start_a + a.len() + 4;
            let start_a1 = start_b + b.len() + 4;
            let start_b1 = start_a1 + a1.len();
            let d1 = overwrite(overwrite(data, start_a, a), p, fa);
            let d2 = overwrite(overwrite(d1, start_b, b), p + 4, fb);
            let d3 = overwrite(overwrite(d2, start_a1, a1), start_a + a.len(), fa1);
            let d4 = overwrite(overwrite(d3, start_b1, b1), start_b + b.len(), fb1);
            d4 == overwrite(data, p, fa + fb + a + fa1 + b + fb1 + a1 + b1)
        }),
{
    let start_a = p + 8;
    let start_b = start_a + a.len() + 4;
    let start_a1 = start_b + b.len() + 4;
    let start_b1 = start_a1 + a1.len();
    let d1 = overwrite(overwrite(data, start_a, a), p, fa);
    let d2 = overwrite(overwrite(d1, start_b, b), p + 4, fb);
    let d3 = overwrite(overwrite(d2, start_a1, a1), start_a + a.len(), fa1);
    let d4 = overwrite(overwrite(d3, start_b1, b1), start_b + b.len(), fb1);
    let block = fa + fb + a + fa1 + b + fb1 + a1 + b1;
    let whole = overwrite(data, p, block);
    assert(d4.len() == whole.len());
    assert forall|i: int| 0 <= i < d4.len() implies d4[i] == whole[i] by {
        if i < p {
        } else if i < p + 4 {
        } else if i < p + 8 {
        } else if i < start_a + a.len() {
        } else if i < start_b {
        } else if i < start_b + b.len() {
        } else if i < start_a1 {
        } else if i < start_b1 {
        } else if i < start_b1 + b1.len() {
        } else {
        }
    }
    assert(d4 =~= whole);
}

/// What the buffer holds when all four pointers are resolved.
proof fn lemma_stage_last(s: ParserView, a: Seq<u8>, a1: Seq<u8>, b: Seq<u8>, b1: Seq<u8>)
    ensures
        stage(s, a, a1, b, b1, 4).pending.len() == 0,
        stage(s, a, a1, b, b1, 4).pos == s.pos + 16 + a.len() + b.len() + a1.len() + b1.len(),
        stage(s, a, a1, b, b1, 4).data == overwrite(
            s.data,
            s.pos,
            field_bytes(s.pos + 8, s.big_endian) + field_bytes(
                s.pos + 12 + a.len(),
                s.big_endian,
            ) + a + field_bytes(s.pos + 16 + a.len() + b.len(), s.big_endian) + b + field_bytes(
                s.pos + 16 + a.len() + b.len() + a1.len(),
                s.big_endian,
            ) + a1 + b1,
        ),
{
    reveal(stage);
    reveal_with_fuel(stage_data, 5);
    let order = s.big_endian;
    let fa = field_bytes(s.pos + 8, order);
    let fb = field_bytes(s.pos + 12 + a.len(), order);
    let fa1 = field_bytes(s.pos + 16 + a.len() + b.len(), order);
    let fb1 = field_bytes(s.pos + 16 + a.len() + b.len() + a1.len(), order);
    lemma_field_len(s.pos + 8, order);
    lemma_field_len(s.pos + 12 + a.len(), order);
    lemma_field_len(s.pos + 16 + a.len() + b.len(), order);
    lemma_field_len(s.pos + 16 + a.len() + b.len() + a1.len(), order);
    lemma_layers(s.data, s.pos, fa, fb, a, fa1, b, fb1, a1, b1);
}

/// The case worked out. Two pointers are written one after the other,
/// wherever the cursor stands, the first to the bytes `a`, the second to the
/// bytes `b`, and each content ends with a pointer of its own, to `a1` and
/// to `b1`. When the writes are finished the buffer holds, from where the
/// cursor stood: the two slots, `a` with its slot, `b` with its slot, then
/// `a1`, then `b1`. Each slot holds the position at which its content
/// starts. Where the cursor stood at the end of the buffer, all this is
/// appended to the buffer.
pub proof fn lemma_emission_order(
    s: ParserView,
    a: Seq<u8>,
    a1: Seq<u8>,
    b: Seq<u8>,
    b1: Seq<u8>,
)
    requires
        s.pending.len() == 0,
        s.pos + 16 + a.len() + b.len() + a1.len() + b1.len() <= usize::MAX,
    ensures
        ({
            let queued = s.defer(content_then_pointer(a, a1)).state.defer(
                content_then_pointer(b, b1),
            ).state;
            let laid_out = field_bytes(s.pos + 8, s.big_endian) + field_bytes(
                s.pos + 12 + a.len(),
                s.big_endian,
            ) + a + field_bytes(s.pos + 16 + a.len() + b.len(), s.big_endian) + b + field_bytes(
                s.pos + 16 + a.len() + b.len() + a1.len(),
                s.big_endian,
            ) + a1 + b1;
            &&& drain(queued).error is None
            &&& drain(queued).state.pending.len() == 0
            &&& drain(queued).state.pos == s.pos + 16 + a.len() + b.len() + a1.len() + b1.len()
            &&& drain(queued).state.data == overwrite(s.data, s.pos, laid_out)
            &&& s.pos == s.data.len() ==> drain(queued).state.data == s.data + laid_out
        }),
{
    lemma_stage_zero(s, a, a1, b, b1);
    lemma_stage_one(s, a, a1, b, b1);
    lemma_stage_two(s, a, a1, b, b1);
    lemma_stage_three(s, a, a1, b, b1);
    lemma_stage_four(s, a, a1, b, b1);
    lemma_stage_last(s, a, a1, b, b1);
    let s0 = stage(s, a, a1, b, b1, 0);
    let s1 = stage(s, a, a1, b, b1, 1);
    let s2 = stage(s, a, a1, b, b1, 2);
    let s3 = stage(s, a, a1, b, b1, 3);
    let s4 = stage(s, a, a1, b, b1, 4);
    assert(drain(s4) == Outcome::done(s4));
    assert(drain(s3) == drain(s4));
    assert(drain(s2) == drain(s3));
    assert(drain(s1) == drain(s2));
    assert(drain(s0) == drain(s1));
    let laid_out = field_bytes(s.pos + 8, s.big_endian) + field_bytes(
        s.pos + 12 + a.len(),
        s.big_endian,
    ) + a + field_bytes(s.pos + 16 + a.len() + b.len(), s.big_endian) + b + field_bytes(
        s.pos + 16 + a.len() + b.len() + a1.len(),
        s.big_endian,
    ) + a1 + b1;
    if s.pos == s.data.len() {
        assert(overwrite(s.data, s.pos, laid_out) =~= s.data + laid_out);
    }
}

} // verus!
