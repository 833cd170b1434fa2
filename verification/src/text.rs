//! Strings in the buffer: UTF-8 text, and the run of bytes that a
//! delimiter ends.
use vstd::prelude::*;
use vstd::string::StringSliceAdditionalSpecFns;
use vstd::utf8::{decode_utf8, valid_utf8};

verus! {

/// The bytes of `bytes` up to and including the first `delimiter`, or all of
/// `bytes` where it holds none.
pub open spec fn through(bytes: Seq<u8>, delimiter: u8) -> Seq<u8>
    decreases bytes.len(),
{
    if bytes.len() == 0 {
        bytes
    } else if bytes[0] == delimiter {
        seq![delimiter]
    } else {
        seq![bytes[0]] + through(bytes.drop_first(), delimiter)
    }
}

/// The bytes of the null-terminated string at the start of `bytes`: those
/// before the first zero byte. Where `bytes` hold no zero byte there is no
/// such string, and this is all of `bytes`.
pub open spec fn null_terminated(bytes: Seq<u8>) -> Seq<u8> {
    let run = through(bytes, 0u8);
    if bytes.contains(0u8) {
        run.drop_last()
    } else {
        run
    }
}

/// `through` ends with the delimiter exactly where its argument holds one;
/// where it holds none, `through` gives all of it.
pub proof fn lemma_through_ends_with_delimiter(bytes: Seq<u8>, delimiter: u8)
    ensures
        bytes.contains(delimiter) <==> through(bytes, delimiter).len() > 0 && through(
            bytes,
            delimiter,
        ).last() == delimiter,
        !bytes.contains(delimiter) ==> through(bytes, delimiter) == bytes,
    decreases bytes.len(),
{
    let run = through(bytes, delimiter);
    if bytes.len() == 0 {
    } else if bytes[0] == delimiter {
        assert(bytes.contains(delimiter));
    } else {
        let rest = bytes.drop_first();
        lemma_through_ends_with_delimiter(rest, delimiter);
        let tail = through(rest, delimiter);
        assert(run == seq![bytes[0]] + tail);
        if rest.contains(delimiter) {
            let i = choose|i: int| 0 <= i < rest.len() && rest[i] == delimiter;
            assert(bytes[i + 1] == delimiter);
            assert(run.last() == tail.last());
        } else {
            assert(!bytes.contains(delimiter)) by {
                if bytes.contains(delimiter) {
                    let i = choose|i: int| 0 <= i < bytes.len() && bytes[i] == delimiter;
                    assert(rest[i - 1] == delimiter);
                }
            }
            assert(seq![bytes[0]] + rest =~= bytes);
            if tail.len() > 0 {
                assert(run.last() == tail.last());
            } else {
                assert(run.last() == bytes[0]);
            }
        }
    }
}

/// A run without the delimiter, then the delimiter: `through` stops right there.
pub proof fn lemma_through_stops_at_delimiter(head: Seq<u8>, delimiter: u8, tail: Seq<u8>)
    requires
        !head.contains(delimiter),
    ensures
        through(head + seq![delimiter] + tail, delimiter) == head + seq![delimiter],
    decreases head.len(),
{
    let all = head + seq![delimiter] + tail;
    if head.len() == 0 {
        assert(all[0] == delimiter);
        assert(head + seq![delimiter] =~= seq![delimiter]);
    } else {
        assert(head[0] != delimiter) by {
            assert(head.contains(head[0]));
        }
        assert(all[0] == head[0]);
        let rest = head.drop_first();
        assert(!rest.contains(delimiter)) by {
            if rest.contains(delimiter) {
                let i = choose|i: int| 0 <= i < rest.len() && rest[i] == delimiter;
                assert(head[i + 1] == delimiter);
                assert(head.contains(delimiter));
            }
        }
        lemma_through_stops_at_delimiter(rest, delimiter, tail);
        assert(all.drop_first() =~= rest + seq![delimiter] + tail);
        assert(seq![head[0]] + (rest + seq![delimiter]) =~= head + seq![delimiter]);
    }
}

/// Checks that `bytes` are UTF-8 and hands them back as text.
///
/// Calls `core::str::from_utf8`. Believed of it: it succeeds exactly on the
/// byte strings that are valid UTF-8, and the text it returns has those
/// same bytes as its encoding.
#[verifier::external_body]
pub(crate) fn checked_utf8(bytes: &[u8]) -> (r: Result<&str, core::str::Utf8Error>)
    ensures
        r is Ok <==> valid_utf8(bytes@),
        r matches Ok(text) ==> text.spec_bytes() == bytes@,
{
    core::str::from_utf8(bytes)
}

/// The text that `bytes` encode, or the decoder's error where they encode none.
pub fn text_of(bytes: &[u8]) -> (r: Result<String, core::str::Utf8Error>)
    ensures
        r is Ok <==> valid_utf8(bytes@),
        r matches Ok(text) ==> text@ == decode_utf8(bytes@),
{
    match checked_utf8(bytes) {
        Ok(text) => {
            proof {
                vstd::utf8::encode_utf8_decode_utf8(text@);
            }
            Ok(text.to_owned())
        },
        Err(e) => Err(e),
    }
}

} // verus!
