//! Fixed-width integers as byte strings, in either byte order.
//!
//! A value of `width` bytes is its base-256 digits: least significant first
//! in little-endian order, most significant first in big-endian order.
//! Signed values are stored in two's complement.
use vstd::prelude::*;

verus! {

/// The number of values that `width` bytes can tell apart: 256 to the power `width`.
pub open spec fn radix(width: nat) -> nat
    decreases width,
{
    if width == 0 {
        1
    } else {
        256 * radix((width - 1) as nat)
    }
}

/// The `width` least significant base-256 digits of `value`, least significant first.
pub open spec fn le_bytes(value: nat, width: nat) -> Seq<u8>
    decreases width,
{
    if width == 0 {
        Seq::empty()
    } else {
        seq![(value % 256) as u8] + le_bytes(value / 256, (width - 1) as nat)
    }
}

/// The number whose base-256 digits are `bytes`, least significant first.
pub open spec fn le_value(bytes: Seq<u8>) -> nat
    decreases bytes.len(),
{
    if bytes.len() == 0 {
        0
    } else {
        bytes[0] as nat + 256 * le_value(bytes.drop_first())
    }
}

/// The bytes that store `value` in `width` bytes and the given byte order.
pub open spec fn encode(value: nat, width: nat, big_endian: bool) -> Seq<u8> {
    if big_endian {
        le_bytes(value, width).reverse()
    } else {
        le_bytes(value, width)
    }
}

/// The unsigned number that `bytes` store in the given byte order.
pub open spec fn decode(bytes: Seq<u8>, big_endian: bool) -> nat {
    if big_endian {
        le_value(bytes.reverse())
    } else {
        le_value(bytes)
    }
}

/// The two's complement pattern of `value` in `width` bytes, read as an unsigned number.
pub open spec fn to_unsigned(value: int, width: nat) -> nat {
    if value < 0 {
        (value + radix(width)) as nat
    } else {
        value as nat
    }
}

/// The signed number whose two's complement pattern in `width` bytes is `pattern`.
pub open spec fn to_signed(pattern: nat, width: nat) -> int {
    if 2 * pattern >= radix(width) {
        pattern - radix(width)
    } else {
        pattern as int
    }
}

/// The values of `radix` at the widths of the machine's integers.
pub proof fn lemma_radix_values()
    ensures
        radix(0) == 1,
        radix(1) == 0x100,
        radix(2) == 0x1_0000,
        radix(3) == 0x100_0000,
        radix(4) == 0x1_0000_0000,
        radix(5) == 0x100_0000_0000,
        radix(6) == 0x1_0000_0000_0000,
        radix(7) == 0x100_0000_0000_0000,
        radix(8) == 0x1_0000_0000_0000_0000,
{
    reveal_with_fuel(radix, 10);
}

/// `radix` grows with the width.
pub proof fn lemma_radix_monotonic(narrow: nat, wide: nat)
    requires
        narrow <= wide,
    ensures
        1 <= radix(narrow) <= radix(wide),
    decreases wide,
{
    if wide == 0 {
    } else if narrow == wide {
        lemma_radix_monotonic((narrow - 1) as nat, (wide - 1) as nat);
    } else {
        lemma_radix_monotonic(narrow, (wide - 1) as nat);
    }
}

/// An encoding has exactly `width` bytes.
pub proof fn lemma_le_bytes_len(value: nat, width: nat)
    ensures
        le_bytes(value, width).len() == width,
    decreases width,
{
    if width > 0 {
        lemma_le_bytes_len(value / 256, (width - 1) as nat);
    }
}

/// The number that `bytes` store is below `radix` of their count.
pub proof fn lemma_le_value_bound(bytes: Seq<u8>)
    ensures
        le_value(bytes) < radix(bytes.len()),
    decreases bytes.len(),
{
    if bytes.len() > 0 {
        lemma_le_value_bound(bytes.drop_first());
    }
}

/// Decoding an encoding gives the value back, reduced to `width` bytes.
pub proof fn lemma_le_value_of_le_bytes(value: nat, width: nat)
    ensures
        le_value(le_bytes(value, width)) == value % radix(width),
    decreases width,
{
    if width == 0 {
    } else {
        let rest = (width - 1) as nat;
        let tail = le_bytes(value / 256, rest);
        let all = le_bytes(value, width);
        lemma_le_value_of_le_bytes(value / 256, rest);
        assert(all.drop_first() =~= tail);
        assert(all[0] == (value % 256) as u8);
        lemma_radix_monotonic(0, rest);
        lemma_split_digit(value, radix(rest));
    }
}

/// Dividing by 256 and then by `r` splits off the lowest digit of `value % (256 * r)`.
proof fn lemma_split_digit(value: nat, r: nat)
    requires
        r > 0,
    ensures
        value % (256 * r) == value % 256 + 256 * ((value / 256) % r),
{
    let q = value / 256;
    let d = value % 256;
    assert(value == 256 * q + d) by (nonlinear_arith)
        requires
            q == value / 256,
            d == value % 256,
    ;
    let qq = q / r;
    let qr = q % r;
    assert(q == r * qq + qr && 0 <= qr < r) by (nonlinear_arith)
        requires
            qq == q / r,
            qr == q % r,
            r > 0,
    ;
    let low = d + 256 * qr;
    assert(value == (256 * r) * qq + low && 0 <= low < 256 * r) by (nonlinear_arith)
        requires
            value == 256 * q + d,
            q == r * qq + qr,
            0 <= qr < r,
            0 <= d < 256,
            low == d + 256 * qr,
    ;
    vstd::arithmetic::div_mod::lemma_fundamental_div_mod_converse(
        value as int,
        (256 * r) as int,
        qq as int,
        low as int,
    );
}

/// Encoding the number that `bytes` store gives `bytes` back.
pub proof fn lemma_le_bytes_of_le_value(bytes: Seq<u8>)
    ensures
        le_bytes(le_value(bytes), bytes.len()) == bytes,
    decreases bytes.len(),
{
    if bytes.len() == 0 {
        assert(le_bytes(le_value(bytes), 0) =~= bytes);
    } else {
        let tail = bytes.drop_first();
        lemma_le_bytes_of_le_value(tail);
        let v = le_value(bytes);
        let first = bytes[0] as nat;
        let t = le_value(tail);
        assert(v % 256 == first && v / 256 == t) by (nonlinear_arith)
            requires
                v == first + 256 * t,
                first < 256,
        ;
        assert(le_bytes(v, bytes.len()) =~= bytes);
    }
}

/// Decoding undoes encoding, in either byte order, for a value that fits the width.
pub proof fn lemma_decode_encode(value: nat, width: nat, big_endian: bool)
    requires
        value < radix(width),
    ensures
        encode(value, width, big_endian).len() == width,
        decode(encode(value, width, big_endian), big_endian) == value,
{
    let le = le_bytes(value, width);
    lemma_le_bytes_len(value, width);
    lemma_le_value_of_le_bytes(value, width);
    vstd::arithmetic::div_mod::lemma_small_mod(value, radix(width));
    assert(le.reverse().reverse() =~= le);
}

/// Encoding undoes decoding, in either byte order.
pub proof fn lemma_encode_decode(bytes: Seq<u8>, big_endian: bool)
    ensures
        decode(bytes, big_endian) < radix(bytes.len()),
        encode(decode(bytes, big_endian), bytes.len(), big_endian) == bytes,
{
    if big_endian {
        let rev = bytes.reverse();
        lemma_le_value_bound(rev);
        lemma_le_bytes_of_le_value(rev);
        assert(rev.reverse() =~= bytes);
    } else {
        lemma_le_value_bound(bytes);
        lemma_le_bytes_of_le_value(bytes);
    }
}

/// The two's complement pattern of a signed value that fits the width gives the value back.
pub proof fn lemma_signed_round_trip(value: int, width: nat)
    requires
        width >= 1,
        -(radix(width) as int) <= 2 * value < radix(width),
    ensures
        to_unsigned(value, width) < radix(width),
        to_signed(to_unsigned(value, width), width) == value,
{
}

/// One byte is stored as itself, whatever the byte order.
pub proof fn lemma_single_byte(value: u8, big_endian: bool)
    ensures
        encode(value as nat, 1, big_endian) == seq![value],
        decode(seq![value], big_endian) == value,
{
    reveal_with_fuel(le_bytes, 2);
    reveal_with_fuel(le_value, 2);
    let one = seq![value];
    assert(le_bytes(value as nat, 1) =~= one);
    assert(one.reverse() =~= one);
    assert(one.drop_first() =~= Seq::<u8>::empty());
}

/// The bytes of `value` in `width` bytes and the given byte order.
pub fn encode_uint(value: u64, width: usize, big_endian: bool) -> (out: Vec<u8>)
    ensures
        out@ == encode(value as nat, width as nat, big_endian),
        out@.len() == width,
{
    let mut le: Vec<u8> = Vec::new();
    let mut rest: u64 = value;
    let mut i: usize = 0;
    while i < width
        invariant
            i <= width,
            le@.len() == i,
            le_bytes(value as nat, width as nat) == le@ + le_bytes(rest as nat, (width - i) as nat),
        decreases width - i,
    {
        let digit: u8 = (rest % 256) as u8;
        proof {
            let tail = le_bytes((rest / 256) as nat, (width - i - 1) as nat);
            assert(le_bytes(rest as nat, (width - i) as nat) == seq![digit] + tail);
            assert(le@.push(digit) + tail =~= le@ + (seq![digit] + tail));
        }
        le.push(digit);
        rest = rest / 256;
        i = i + 1;
    }
    proof {
        assert(le@ + le_bytes(rest as nat, 0) =~= le@);
    }
    if !big_endian {
        return le;
    }
    let mut be: Vec<u8> = Vec::new();
    let mut j: usize = 0;
    while j < width
        invariant
            j <= width,
            le@.len() == width,
            be@.len() == j,
            forall|k: int| 0 <= k < j ==> be@[k] == le@[width - 1 - k],
        decreases width - j,
    {
        be.push(le[width - 1 - j]);
        j = j + 1;
    }
    proof {
        assert(be@ =~= le@.reverse());
    }
    be
}

/// The unsigned number that at most eight bytes store in the given byte order.
pub fn decode_uint(bytes: &[u8], big_endian: bool) -> (value: u64)
    requires
        bytes@.len() <= 8,
    ensures
        value == decode(bytes@, big_endian),
        value < radix(bytes@.len()),
{
    let n: usize = bytes.len();
    let mut acc: u64 = 0;
    let mut i: usize = 0;
    // Digits are taken from the most significant end, wherever that is.
    while i < n
        invariant
            n == bytes@.len(),
            n <= 8,
            i <= n,
            big_endian ==> acc == le_value(bytes@.subrange(0, i as int).reverse()),
            !big_endian ==> acc == le_value(bytes@.subrange(n - i, n as int)),
            acc < radix(i as nat),
        decreases n - i,
    {
        let digit: u8 = if big_endian {
            bytes[i]
        } else {
            bytes[n - 1 - i]
        };
        proof {
            lemma_radix_values();
            lemma_radix_monotonic((i + 1) as nat, 8);
            assert(radix((i + 1) as nat) == 256 * radix(i as nat));
            if big_endian {
                let grown = bytes@.subrange(0, i + 1).reverse();
                assert(grown.drop_first() =~= bytes@.subrange(0, i as int).reverse());
                assert(grown[0] == digit);
            } else {
                let grown = bytes@.subrange(n - i - 1, n as int);
                assert(grown.drop_first() =~= bytes@.subrange(n - i, n as int));
                assert(grown[0] == digit);
            }
        }
        acc = acc * 256 + digit as u64;
        i = i + 1;
    }
    proof {
        assert(bytes@.subrange(0, n as int) =~= bytes@);
    }
    acc
}

} // verus!
