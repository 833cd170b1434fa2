//! Values that were written are the values that are read back.
use crate::codec::{lemma_decode_encode, lemma_radix_values, lemma_signed_round_trip, to_unsigned};
use crate::model::{lemma_read_after_write, lemma_write_twice, OpModel, Outcome, ParserView};
use crate::task::{apply, drain, run};
use crate::text::lemma_through_stops_at_delimiter;
use vstd::prelude::*;
use vstd::utf8::{decode_utf8, encode_utf8, valid_utf8};

verus! {

/// Whether an operation writes one value at the cursor and does nothing
/// else: an integer, bytes, or text. Text that a zero byte is to end must
/// hold no zero byte of its own.
pub open spec fn is_value(op: OpModel) -> bool {
    match op {
        OpModel::U8(_) | OpModel::U16(_) | OpModel::U32(_) | OpModel::U64(_) => true,
        OpModel::I8(_) | OpModel::I16(_) | OpModel::I32(_) | OpModel::I64(_) => true,
        OpModel::Buf(_) | OpModel::Str(_) => true,
        OpModel::NullStr(text) => !encode_utf8(text).contains(0u8),
        _ => false,
    }
}

/// The bytes that a value takes in the buffer of `s`.
pub open spec fn value_bytes(s: ParserView, op: OpModel) -> Seq<u8>
    recommends
        is_value(op),
{
    match op {
        OpModel::U8(v) => s.uint_bytes(v as nat, 1),
        OpModel::U16(v) => s.uint_bytes(v as nat, 2),
        OpModel::U32(v) => s.uint_bytes(v as nat, 4),
        OpModel::U64(v) => s.uint_bytes(v as nat, 8),
        OpModel::I8(v) => s.int_bytes(v as int, 1),
        OpModel::I16(v) => s.int_bytes(v as int, 2),
        OpModel::I32(v) => s.int_bytes(v as int, 4),
        OpModel::I64(v) => s.int_bytes(v as int, 8),
        OpModel::Buf(bytes) => bytes,
        OpModel::Str(text) => encode_utf8(text),
        OpModel::NullStr(text) => encode_utf8(text) + seq![0u8],
        _ => Seq::empty(),
    }
}

/// What the read that matches a written value gives at the cursor: the
/// value read, and the parser behind it. The shape says which read it is,
/// and for bytes and text of a given length, how many bytes it takes.
pub open spec fn read_like(s: ParserView, shape: OpModel) -> Option<(OpModel, ParserView)> {
    match shape {
        OpModel::U8(_) => if s.can_read(1) {
            Some((OpModel::U8(s.uint_here(1) as u8), s.after_read(1)))
        } else {
            None
        },
        OpModel::U16(_) => if s.can_read(2) {
            Some((OpModel::U16(s.uint_here(2) as u16), s.after_read(2)))
        } else {
            None
        },
        OpModel::U32(_) => if s.can_read(4) {
            Some((OpModel::U32(s.uint_here(4) as u32), s.after_read(4)))
        } else {
            None
        },
        OpModel::U64(_) => if s.can_read(8) {
            Some((OpModel::U64(s.uint_here(8) as u64), s.after_read(8)))
        } else {
            None
        },
        OpModel::I8(_) => if s.can_read(1) {
            Some((OpModel::I8(s.int_here(1) as i8), s.after_read(1)))
        } else {
            None
        },
        OpModel::I16(_) => if s.can_read(2) {
            Some((OpModel::I16(s.int_here(2) as i16), s.after_read(2)))
        } else {
            None
        },
        OpModel::I32(_) => if s.can_read(4) {
            Some((OpModel::I32(s.int_here(4) as i32), s.after_read(4)))
        } else {
            None
        },
        OpModel::I64(_) => if s.can_read(8) {
            Some((OpModel::I64(s.int_here(8) as i64), s.after_read(8)))
        } else {
            None
        },
        OpModel::Buf(bytes) => if s.can_read(bytes.len()) {
            Some((OpModel::Buf(s.peek(bytes.len())), s.after_read(bytes.len())))
        } else {
            None
        },
        OpModel::Str(text) => {
            let length = encode_utf8(text).len();
            if s.can_read(length) && valid_utf8(s.peek(length)) {
                Some((OpModel::Str(decode_utf8(s.peek(length))), s.after_read(length)))
            } else {
                None
            }
        },
        OpModel::NullStr(_) => if s.has_terminator() && valid_utf8(s.null_string_here()) {
            Some((OpModel::NullStr(decode_utf8(s.null_string_here())), s.after_null_string()))
        } else {
            None
        },
        _ => None,
    }
}

/// The reads that match `shapes`, one after the other: the values read and
/// the parser behind the last, or nothing where one of the reads fails.
pub open spec fn read_each(s: ParserView, shapes: Seq<OpModel>) -> Option<
    (Seq<OpModel>, ParserView),
>
    decreases shapes.len(),
{
    if shapes.len() == 0 {
        Some((Seq::empty(), s))
    } else {
        match read_like(s, shapes[0]) {
            None => None,
            Some((value, next)) => match read_each(next, shapes.drop_first()) {
                None => None,
                Some((values, end)) => Some((seq![value] + values, end)),
            },
        }
    }
}

/// A value that is written lays its bytes at the cursor and changes nothing else.
pub proof fn lemma_value_written(s: ParserView, op: OpModel)
    requires
        is_value(op),
        apply(s, op).error is None,
    ensures
        apply(s, op).state == s.after_write(value_bytes(s, op)),
        apply(s, op).state.pos <= apply(s, op).state.data.len(),
{
    match op {
        OpModel::NullStr(text) => {
            lemma_write_twice(s, encode_utf8(text), seq![0u8]);
        },
        _ => {},
    }
}

/// Values written from the cursor on leave alone what lies before it.
pub proof fn lemma_values_keep_prefix(s: ParserView, values: Seq<OpModel>)
    requires
        forall|i: int| 0 <= i < values.len() ==> is_value(#[trigger] values[i]),
        run(s, values).error is None,
        s.pos <= s.data.len(),
    ensures
        run(s, values).state.data.take(s.pos as int) == s.data.take(s.pos as int),
        s.pos <= run(s, values).state.pos <= run(s, values).state.data.len(),
        run(s, values).state.big_endian == s.big_endian,
        run(s, values).state.bases == s.bases,
        run(s, values).state.pending == s.pending,
    decreases values.len(),
{
    if values.len() > 0 {
        let first = apply(s, values[0]).state;
        let rest = values.drop_first();
        lemma_value_written(s, values[0]);
        assert forall|i: int| 0 <= i < rest.len() implies is_value(#[trigger] rest[i]) by {
            assert(rest[i] == values[i + 1]);
        }
        lemma_values_keep_prefix(first, rest);
        let end = run(first, rest).state;
        assert(end.data.take(s.pos as int) =~= end.data.take(first.pos as int).take(s.pos as int));
        assert(first.data.take(s.pos as int) =~= s.data.take(s.pos as int));
    }
}

/// A value is read back from any buffer that still holds its bytes where
/// they were written, and the read ends behind them.
pub proof fn lemma_value_read_back(s: ParserView, op: OpModel, later: ParserView)
    requires
        is_value(op),
        apply(s, op).error is None,
        later.big_endian == s.big_endian,
        apply(s, op).state.pos <= later.data.len(),
        later.data.take(apply(s, op).state.pos as int) == apply(s, op).state.data.take(
            apply(s, op).state.pos as int,
        ),
    ensures
        read_like(later.at(s.pos), op) == Some((op, later.at(apply(s, op).state.pos))),
{
    let written = apply(s, op).state;
    let bytes = value_bytes(s, op);
    let reader = later.at(s.pos);
    lemma_value_written(s, op);
    lemma_read_after_write(s, bytes);
    lemma_radix_values();
    let n = bytes.len();
    assert(written.pos == s.pos + n);
    assert(reader.can_read(n));
    assert(reader.peek(n) =~= bytes) by {
        assert forall|i: int| 0 <= i < n implies reader.peek(n)[i] == bytes[i] by {
            assert(later.data.take(written.pos as int)[s.pos + i] == written.data.take(
                written.pos as int,
            )[s.pos + i]);
        }
    }
    assert(reader.after_read(n) == later.at(written.pos));
    match op {
        OpModel::U8(v) => {
            lemma_decode_encode(v as nat, 1, s.big_endian);
        },
        OpModel::U16(v) => {
            lemma_decode_encode(v as nat, 2, s.big_endian);
        },
        OpModel::U32(v) => {
            lemma_decode_encode(v as nat, 4, s.big_endian);
        },
        OpModel::U64(v) => {
            lemma_decode_encode(v as nat, 8, s.big_endian);
        },
        OpModel::I8(v) => {
            lemma_signed_round_trip(v as int, 1);
            lemma_decode_encode(to_unsigned(v as int, 1), 1, s.big_endian);
        },
        OpModel::I16(v) => {
            lemma_signed_round_trip(v as int, 2);
            lemma_decode_encode(to_unsigned(v as int, 2), 2, s.big_endian);
        },
        OpModel::I32(v) => {
            lemma_signed_round_trip(v as int, 4);
            lemma_decode_encode(to_unsigned(v as int, 4), 4, s.big_endian);
        },
        OpModel::I64(v) => {
            lemma_signed_round_trip(v as int, 8);
            lemma_decode_encode(to_unsigned(v as int, 8), 8, s.big_endian);
        },
        OpModel::Buf(b) => {},
        OpModel::Str(text) => {
            vstd::utf8::encode_utf8_valid_utf8(text);
            vstd::utf8::encode_utf8_decode_utf8(text);
        },
        OpModel::NullStr(text) => {
            let body = encode_utf8(text);
            let tail = later.data.skip(written.pos as int);
            vstd::utf8::encode_utf8_valid_utf8(text);
            vstd::utf8::encode_utf8_decode_utf8(text);
            assert(reader.avail() =~= body + seq![0u8] + tail) by {
                assert(reader.avail().take(n as int) =~= reader.peek(n));
            }
            lemma_through_stops_at_delimiter(body, 0u8, tail);
            assert(reader.avail()[body.len() as int] == 0u8);
            assert(reader.has_terminator());
            assert((body + seq![0u8]).drop_last() =~= body);
        },
        _ => {},
    }
}

/// The round trip: values written one after the other, with no pointer
/// waiting, are still there when the writes are finished, and reading from
/// where the first was written gives them back, each as it was written and
/// in the same order, in either byte order. The last read ends where the
/// last write ended.
pub proof fn lemma_round_trip(s: ParserView, values: Seq<OpModel>)
    requires
        forall|i: int| 0 <= i < values.len() ==> is_value(#[trigger] values[i]),
        run(s, values).error is None,
        s.pending.len() == 0,
    ensures
        drain(run(s, values).state) == Outcome::done(run(s, values).state),
        read_each(drain(run(s, values).state).state.at(s.pos), values) == Some(
            (values, run(s, values).state),
        ),
{
    let end = run(s, values).state;
    lemma_written_values_read_back(s, values);
    if values.len() == 0 {
    } else {
        let first = apply(s, values[0]).state;
        let rest = values.drop_first();
        lemma_value_written(s, values[0]);
        assert forall|i: int| 0 <= i < rest.len() implies is_value(#[trigger] rest[i]) by {
            assert(rest[i] == values[i + 1]);
        }
        lemma_values_keep_prefix(first, rest);
    }
    assert(end.pending.len() == 0);
}

/// Values written one after the other are read back from where the first
/// was written.
pub proof fn lemma_written_values_read_back(s: ParserView, values: Seq<OpModel>)
    requires
        forall|i: int| 0 <= i < values.len() ==> is_value(#[trigger] values[i]),
        run(s, values).error is None,
    ensures
        read_each(run(s, values).state.at(s.pos), values) == Some((values, run(s, values).state)),
    decreases values.len(),
{
    let end = run(s, values).state;
    if values.len() == 0 {
        assert(end.at(s.pos) == end);
        assert(values =~= Seq::<OpModel>::empty());
    } else {
        let first = apply(s, values[0]).state;
        let rest = values.drop_first();
        lemma_value_written(s, values[0]);
        assert forall|i: int| 0 <= i < rest.len() implies is_value(#[trigger] rest[i]) by {
            assert(rest[i] == values[i + 1]);
        }
        lemma_values_keep_prefix(first, rest);
        lemma_value_read_back(s, values[0], end);
        lemma_written_values_read_back(first, rest);
        assert(seq![values[0]] + rest =~= values);
        assert(end.at(end.pos) == end);
    }
}

} // verus!
