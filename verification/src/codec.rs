//! Little-endian encoding of unsigned numbers in a fixed number of bytes.
//!
//! Both the reference count of a slot and the integer payloads are kept in
//! the backing buffer in this form: the least significant byte comes first.

use vstd::arithmetic::div_mod::lemma_div_denominator;
use vstd::prelude::*;

verus! {

/// How many different numbers `width` bytes can hold: 256 to the power `width`.
pub open spec fn byte_span(width: nat) -> nat
    decreases width,
{
    if width == 0 {
        1
    } else {
        256 * byte_span((width - 1) as nat)
    }
}

/// The base-256 digit of `value` at position `place`, position 0 being the
/// least significant one.
pub open spec fn digit(value: nat, place: nat) -> u8 {
    ((value / byte_span(place)) % 256) as u8
}

/// The `width` lowest base-256 digits of `value`, least significant first.
pub open spec fn le_bytes(value: nat, width: nat) -> Seq<u8> {
    Seq::new(width, |place: int| digit(value, place as nat))
}

/// The number whose base-256 digits, least significant first, are `bytes`.
pub open spec fn le_value(bytes: Seq<u8>) -> nat
    decreases bytes.len(),
{
    if bytes.len() == 0 {
        0
    } else {
        bytes[0] as nat + 256 * le_value(bytes.drop_first())
    }
}

/// `base` with the bytes of `patch` laid over it from position `at` on.
pub open spec fn overlay(base: Seq<u8>, at: int, patch: Seq<u8>) -> Seq<u8> {
    Seq::new(
        base.len(),
        |k: int|
            if at <= k < at + patch.len() {
                patch[k - at]
            } else {
                base[k]
            },
    )
}

/// A run of `width` zero bytes.
pub open spec fn zeros(width: nat) -> Seq<u8> {
    Seq::new(width, |k: int| 0u8)
}

/// `byte_span` is at least 1 and grows with the width.
pub proof fn lemma_span_grows(narrow: nat, wide: nat)
    requires
        narrow <= wide,
    ensures
        1 <= byte_span(narrow) <= byte_span(wide),
    decreases wide,
{
    if narrow == 0 {
        if wide > 0 {
            lemma_span_grows(0, (wide - 1) as nat);
        }
    } else {
        lemma_span_grows((narrow - 1) as nat, (wide - 1) as nat);
    }
}

/// The spans of the widths up to eight bytes.
pub proof fn lemma_span_values()
    ensures
        byte_span(0) == 1,
        byte_span(1) == 0x100,
        byte_span(2) == 0x1_0000,
        byte_span(3) == 0x100_0000,
        byte_span(4) == 0x1_0000_0000,
        byte_span(5) == 0x100_0000_0000,
        byte_span(6) == 0x1_0000_0000_0000,
        byte_span(7) == 0x100_0000_0000_0000,
        byte_span(8) == 0x1_0000_0000_0000_0000,
{
    reveal_with_fuel(byte_span, 10);
}

/// The digit at `place + 1` of a number is the digit at `place` of its
/// 256th part.
pub proof fn lemma_digit_shift(value: nat, place: nat)
    ensures
        digit(value, place + 1) == digit(value / 256, place),
        byte_span(place + 1) == 256 * byte_span(place),
        (value / 256) / byte_span(place) == value / byte_span(place + 1),
        (value / byte_span(place)) / 256 == value / byte_span(place + 1),
{
    lemma_span_grows(0, place);
    lemma_div_denominator(value as int, 256, byte_span(place) as int);
    lemma_div_denominator(value as int, byte_span(place) as int, 256);
    assert(byte_span(place) * 256 == 256 * byte_span(place));
}

/// The encoding of a number starts with its lowest digit and goes on with
/// the encoding of its 256th part.
pub proof fn lemma_le_bytes_unfold(value: nat, width: nat)
    requires
        width > 0,
    ensures
        le_bytes(value, width)[0] == (value % 256) as u8,
        le_bytes(value, width).drop_first() == le_bytes(value / 256, (width - 1) as nat),
{
    let rest = le_bytes(value / 256, (width - 1) as nat);
    assert(byte_span(0) == 1);
    assert forall|k: int| 0 <= k < width - 1 implies le_bytes(value, width).drop_first()[k]
        == rest[k] by {
        lemma_digit_shift(value, k as nat);
    }
    assert(le_bytes(value, width).drop_first() =~= rest);
}

/// A number read from bytes fits in as many bytes.
pub proof fn lemma_le_value_bound(bytes: Seq<u8>)
    ensures
        le_value(bytes) < byte_span(bytes.len()),
    decreases bytes.len(),
{
    if bytes.len() > 0 {
        lemma_le_value_bound(bytes.drop_first());
    }
}

/// Decoding undoes encoding, for a number that fits in the width.
pub proof fn lemma_decode_encode(value: nat, width: nat)
    requires
        value < byte_span(width),
    ensures
        le_value(le_bytes(value, width)) == value,
    decreases width,
{
    if width > 0 {
        lemma_le_bytes_unfold(value, width);
        lemma_decode_encode(value / 256, (width - 1) as nat);
    }
}

/// Encoding undoes decoding: the bytes of a number read from `bytes` are
/// `bytes` again.
pub proof fn lemma_encode_decode(bytes: Seq<u8>)
    ensures
        le_bytes(le_value(bytes), bytes.len()) == bytes,
    decreases bytes.len(),
{
    let value = le_value(bytes);
    if bytes.len() > 0 {
        let rest = bytes.drop_first();
        lemma_encode_decode(rest);
        lemma_le_bytes_unfold(value, bytes.len());
        assert(value / 256 == le_value(rest));
        assert(value % 256 == bytes[0]);
        assert(le_bytes(value, bytes.len()) =~= seq![bytes[0]] + rest);
        assert(bytes =~= seq![bytes[0]] + rest);
    } else {
        assert(le_bytes(value, 0) =~= bytes);
    }
}

/// Zero is written as zero bytes, and only zero bytes read as zero.
pub proof fn lemma_zero_bytes(width: nat)
    ensures
        le_bytes(0, width) == zeros(width),
        le_value(zeros(width)) == 0,
        forall|bytes: Seq<u8>| #[trigger]
            bytes.len() == width && le_value(bytes) == 0 ==> bytes == zeros(width),
{
    assert forall|k: int| 0 <= k < width implies le_bytes(0, width)[k] == 0u8 by {
        lemma_span_grows(0, k as nat);
        assert(0int / (byte_span(k as nat) as int) == 0) by (nonlinear_arith)
            requires
                byte_span(k as nat) >= 1,
        ;
    }
    assert(le_bytes(0, width) =~= zeros(width));
    lemma_span_grows(0, width);
    lemma_decode_encode(0, width);
    assert forall|bytes: Seq<u8>| #[trigger]
        bytes.len() == width && le_value(bytes) == 0 implies bytes == zeros(width) by {
        lemma_encode_decode(bytes);
    }
}

/// Writes the `width` lowest base-256 digits of `value` into `buf`, starting
/// at `at`, least significant first. The other bytes stay as they are.
pub fn store_le(buf: &mut [u8], at: usize, width: usize, value: u64)
    requires
        at + width <= old(buf).len(),
    ensures
        final(buf)@ == overlay(old(buf)@, at as int, le_bytes(value as nat, width as nat)),
{
    let ghost before = buf@;
    let ghost digits = le_bytes(value as nat, width as nat);
    let mut done: usize = 0;
    let mut rest: u64 = value;
    assert(byte_span(0) == 1);
    while done < width
        invariant
            done <= width,
            at + width <= buf.len(),
            buf.len() == before.len(),
            digits == le_bytes(value as nat, width as nat),
            rest as nat == (value as nat) / byte_span(done as nat),
            forall|k: int|
                0 <= k < buf.len() ==> buf@[k] == if at <= k < at + done {
                    digits[k - at]
                } else {
                    before[k]
                },
        decreases width - done,
    {
        proof {
            lemma_digit_shift(value as nat, done as nat);
        }
        buf[at + done] = (rest % 256) as u8;
        rest = rest / 256;
        done += 1;
    }
    assert(buf@ =~= overlay(before, at as int, digits));
}

/// Reads the number that the `width` bytes of `buf` from `at` on spell,
/// least significant first.
pub fn load_le(buf: &[u8], at: usize, width: usize) -> (value: u64)
    requires
        at + width <= buf.len(),
        width <= 8,
    ensures
        value as nat == le_value(buf@.subrange(at as int, at + width)),
{
    let mut left: usize = width;
    let mut value: u64 = 0;
    while left > 0
        invariant
            left <= width,
            width <= 8,
            at + width <= buf.len(),
            value as nat == le_value(buf@.subrange(at + left, at + width)),
        decreases left,
    {
        let ghost tail = buf@.subrange(at + left, at + width);
        let ghost longer = buf@.subrange(at + left - 1, at + width);
        proof {
            lemma_le_value_bound(tail);
            lemma_span_grows(tail.len(), 7);
            lemma_span_values();
            assert(longer.drop_first() =~= tail);
        }
        left -= 1;
        value = value * 256 + buf[at + left] as u64;
    }
    value
}

/// Sets every byte of `buf` to zero.
pub fn zero_fill(buf: &mut [u8])
    ensures
        final(buf)@ == zeros(old(buf)@.len()),
{
    let mut done: usize = 0;
    while done < buf.len()
        invariant
            done <= buf.len(),
            buf.len() == old(buf).len(),
            forall|k: int| 0 <= k < done ==> buf@[k] == 0,
        decreases buf.len() - done,
    {
        buf[done] = 0u8;
        done += 1;
    }
    assert(buf@ =~= zeros(old(buf)@.len()));
}

/// Copies the `len` bytes of `buf` from `from` on over those from `to` on.
/// The two runs are the same run or do not touch.
pub fn copy_bytes(buf: &mut [u8], from: usize, to: usize, len: usize)
    requires
        from + len <= old(buf).len(),
        to + len <= old(buf).len(),
        from == to || from + len <= to || to + len <= from,
    ensures
        final(buf)@ == overlay(
            old(buf)@,
            to as int,
            old(buf)@.subrange(from as int, from + len),
        ),
{
    let ghost before = buf@;
    let mut done: usize = 0;
    while done < len
        invariant
            done <= len,
            from + len <= buf.len(),
            to + len <= buf.len(),
            from == to || from + len <= to || to + len <= from,
            buf.len() == before.len(),
            forall|k: int|
                0 <= k < buf.len() ==> buf@[k] == if to <= k < to + done {
                    before[k - to + from]
                } else {
                    before[k]
                },
        decreases len - done,
    {
        let byte = buf[from + done];
        buf[to + done] = byte;
        done += 1;
    }
    assert(buf@ =~= overlay(before, to as int, before.subrange(from as int, from + len)));
}

} // verus!
