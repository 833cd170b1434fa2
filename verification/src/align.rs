//! Moving or padding the cursor to a multiple of a power of two.
use crate::codec::lemma_single_byte;
use crate::error::{BinaryParserError, IoErrorKind};
use crate::model::{aligned, is_power_of_two, lemma_write_twice, zeros, SeekFrom};
use crate::parser::BinaryParser;
use vstd::prelude::*;

verus! {

/// Whether `n` is a power of two.
pub fn power_of_two(n: u64) -> (yes: bool)
    ensures
        yes == is_power_of_two(n as nat),
{
    if n == 0 {
        return false;
    }
    let mut rest: u64 = n;
    while rest % 2 == 0
        invariant
            rest > 0,
            is_power_of_two(rest as nat) == is_power_of_two(n as nat),
        decreases rest,
    {
        rest = rest / 2;
    }
    rest == 1
}

/// `aligned` gives the least multiple of the alignment that is not below the position.
pub proof fn lemma_aligned_is_least(pos: nat, alignment: nat)
    requires
        alignment > 0,
    ensures
        aligned(pos, alignment) % alignment == 0,
        pos <= aligned(pos, alignment) < pos + alignment,
        forall|other: nat|
            pos <= other && #[trigger] (other % alignment) == 0 ==> aligned(pos, alignment)
                <= other,
{
    let target = aligned(pos, alignment);
    let rem = pos % alignment;
    let floor = (pos - rem) as nat;
    vstd::arithmetic::div_mod::lemma_fundamental_div_mod(pos as int, alignment as int);
    let q = pos / alignment;
    assert(floor == alignment * q);
    assert(0 <= rem < alignment) by {
        vstd::arithmetic::div_mod::lemma_mod_bound(pos as int, alignment as int);
    }
    if rem == 0 {
    } else {
        assert(target == alignment * (q + 1)) by (nonlinear_arith)
            requires
                target == floor + alignment,
                floor == alignment * q,
        ;
        vstd::arithmetic::div_mod::lemma_mod_multiples_basic((q + 1) as int, alignment as int);
        assert(((q + 1) * alignment) == alignment * (q + 1)) by (nonlinear_arith);
    }
    assert forall|other: nat| pos <= other && #[trigger] (other % alignment) == 0 implies target
        <= other by {
        if rem != 0 {
            vstd::arithmetic::div_mod::lemma_fundamental_div_mod(other as int, alignment as int);
            let k = other / alignment;
            assert(other == alignment * k);
            assert(k > q) by (nonlinear_arith)
                requires
                    alignment * k >= alignment * q + rem,
                    rem > 0,
                    alignment > 0,
            ;
            assert(alignment * k >= alignment * (q + 1)) by (nonlinear_arith)
                requires
                    k >= q + 1,
                    alignment > 0,
            ;
        }
    }
}

impl BinaryParser {
    /// Moves the cursor forward to the next multiple of `alignment`, writing
    /// nothing. The cursor stays where it already is a multiple.
    pub fn align_seek(&mut self, alignment: u64) -> (r: Result<(), BinaryParserError>)
        requires
            is_power_of_two(alignment as nat),
        ensures
            final(self)@ == old(self)@.align_seek(alignment as nat).state,
            r == old(self)@.align_seek(alignment as nat).result(),
    {
        let pos = self.position();
        let rem = pos % alignment;
        if rem == 0 {
            return self.seek(SeekFrom::Start(pos));
        }
        assert(rem <= pos) by (nonlinear_arith)
            requires
                rem == pos % alignment,
                alignment > 0,
        ;
        match (pos - rem).checked_add(alignment) {
            Some(target) => self.seek(SeekFrom::Start(target)),
            None => Err(BinaryParserError::Io(IoErrorKind::InvalidInput)),
        }
    }

    /// Writes zero bytes, one at a time, until the cursor is a multiple of
    /// `alignment`. Writes nothing where it already is one.
    pub fn align_write(&mut self, alignment: u64) -> (r: Result<(), BinaryParserError>)
        requires
            is_power_of_two(alignment as nat),
        ensures
            final(self)@ == old(self)@.align_write(alignment as nat).state,
            r == old(self)@.align_write(alignment as nat).result(),
    {
        let ghost before = self@;
        let pos = self.position();
        let rem = pos % alignment;
        if rem == 0 {
            return Ok(());
        }
        let padding: u64 = alignment - rem;
        let mut written: u64 = 0;
        while written < padding
            invariant
                written <= padding,
                before == old(self)@,
                pos == before.pos,
                rem == before.pos % (alignment as nat),
                rem > 0,
                padding == alignment - rem,
                written == 0 ==> self@ == before,
                written > 0 ==> self@ == before.after_write(zeros(written as nat)),
                written > 0 ==> before.pos + written <= usize::MAX,
            decreases padding - written,
        {
            proof {
                lemma_single_byte(0u8, self@.big_endian);
                lemma_write_twice(before, zeros(written as nat), seq![0u8]);
                assert(zeros(written as nat) + seq![0u8] =~= zeros((written + 1) as nat));
                assert(seq![0u8] =~= zeros(1));
            }
            match self.write_u8(0) {
                Ok(()) => {},
                Err(e) => {
                    return Err(e);
                },
            }
            written = written + 1;
        }
        Ok(())
    }
}

} // verus!
