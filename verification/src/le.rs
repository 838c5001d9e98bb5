//! Unsigned integers as little-endian byte strings.
//!
//! The meaning of a byte string is given arithmetically: the first byte
//! counts ones, the next counts 256s, and so on.

use vstd::prelude::*;

verus! {

/// The number a byte string denotes when its first byte is the least
/// significant one.
pub open spec fn le_value(bytes: Seq<u8>) -> nat
    decreases bytes.len(),
{
    if bytes.len() == 0 {
        0
    } else {
        bytes[0] as nat + 256 * le_value(bytes.drop_first())
    }
}

/// The `width` low-order bytes of `value`, least significant first.
pub open spec fn le_bytes(value: nat, width: nat) -> Seq<u8>
    decreases width,
{
    if width == 0 {
        Seq::empty()
    } else {
        seq![(value % 256) as u8] + le_bytes(value / 256, (width - 1) as nat)
    }
}

/// The number of values that `width` bytes can tell apart: 256 to the power
/// `width`.
pub open spec fn le_limit(width: nat) -> nat
    decreases width,
{
    if width == 0 {
        1
    } else {
        256 * le_limit((width - 1) as nat)
    }
}

/// `le_bytes` yields exactly `width` bytes.
pub proof fn lemma_le_bytes_len(value: nat, width: nat)
    ensures
        le_bytes(value, width).len() == width,
    decreases width,
{
    if width > 0 {
        lemma_le_bytes_len(value / 256, (width - 1) as nat);
    }
}

/// A byte string denotes a number below the limit of its length.
pub proof fn lemma_le_value_bound(bytes: Seq<u8>)
    ensures
        le_value(bytes) < le_limit(bytes.len()),
    decreases bytes.len(),
{
    if bytes.len() > 0 {
        lemma_le_value_bound(bytes.drop_first());
    }
}

/// Wider strings have larger limits.
pub proof fn lemma_le_limit_monotonic(narrow: nat, wide: nat)
    requires
        narrow <= wide,
    ensures
        0 < le_limit(narrow) <= le_limit(wide),
    decreases wide,
{
    if wide == 0 {
    } else if narrow == wide {
        lemma_le_limit_monotonic((narrow - 1) as nat, (wide - 1) as nat);
    } else {
        lemma_le_limit_monotonic(narrow, (wide - 1) as nat);
    }
}

/// Four bytes hold exactly the 32-bit numbers, eight bytes the 64-bit ones.
pub proof fn lemma_le_limit_values()
    ensures
        le_limit(4) == 0x1_0000_0000,
        le_limit(7) == 0x100_0000_0000_0000,
        le_limit(8) == 0x1_0000_0000_0000_0000,
{
    reveal_with_fuel(le_limit, 9);
}

/// Decoding what was encoded gives the value back, provided it fits.
pub proof fn lemma_le_value_of_bytes(value: nat, width: nat)
    requires
        value < le_limit(width),
    ensures
        le_value(le_bytes(value, width)) == value,
    decreases width,
{
    if width > 0 {
        let rest = le_bytes(value / 256, (width - 1) as nat);
        lemma_le_value_of_bytes(value / 256, (width - 1) as nat);
        assert(le_bytes(value, width).drop_first() =~= rest);
    }
}

/// Encoding what was decoded gives the bytes back.
pub proof fn lemma_le_bytes_of_value(bytes: Seq<u8>)
    ensures
        le_bytes(le_value(bytes), bytes.len()) == bytes,
    decreases bytes.len(),
{
    if bytes.len() > 0 {
        let rest = bytes.drop_first();
        lemma_le_bytes_of_value(rest);
        let value = le_value(bytes);
        assert(value % 256 == bytes[0] as nat);
        assert(value / 256 == le_value(rest));
        assert(le_bytes(value, bytes.len()) =~= bytes);
    }
}

/// Appends the eight little-endian bytes of `value` to `out`.
pub fn push_u64_le(out: &mut Vec<u8>, value: u64)
    ensures
        final(out)@ == old(out)@ + le_bytes(value as nat, 8),
{
    let mut rest: u64 = value;
    let mut done: usize = 0;
    while done < 8
        invariant
            done <= 8,
            out@ + le_bytes(rest as nat, (8 - done) as nat) == old(out)@ + le_bytes(
                value as nat,
                8,
            ),
        decreases 8 - done,
    {
        let ghost before = out@;
        out.push((rest % 256) as u8);
        proof {
            let tail = le_bytes((rest / 256) as nat, (8 - done - 1) as nat);
            assert(le_bytes(rest as nat, (8 - done) as nat) == seq![(rest % 256) as u8] + tail);
            assert(out@ + tail =~= before + (seq![(rest % 256) as u8] + tail));
        }
        rest = rest / 256;
        done = done + 1;
    }
    assert(out@ + Seq::<u8>::empty() =~= out@);
}

/// Appends the four little-endian bytes of `value` to `out`.
pub fn push_u32_le(out: &mut Vec<u8>, value: u32)
    ensures
        final(out)@ == old(out)@ + le_bytes(value as nat, 4),
{
    let mut rest: u32 = value;
    let mut done: usize = 0;
    while done < 4
        invariant
            done <= 4,
            out@ + le_bytes(rest as nat, (4 - done) as nat) == old(out)@ + le_bytes(
                value as nat,
                4,
            ),
        decreases 4 - done,
    {
        let ghost before = out@;
        out.push((rest % 256) as u8);
        proof {
            let tail = le_bytes((rest / 256) as nat, (4 - done - 1) as nat);
            assert(le_bytes(rest as nat, (4 - done) as nat) == seq![(rest % 256) as u8] + tail);
            assert(out@ + tail =~= before + (seq![(rest % 256) as u8] + tail));
        }
        rest = rest / 256;
        done = done + 1;
    }
    assert(out@ + Seq::<u8>::empty() =~= out@);
}

/// Reads the number that the `width` bytes starting at `at` denote.
fn read_le(bytes: &[u8], at: usize, width: usize) -> (value: u64)
    requires
        width <= 8,
        at + width <= bytes@.len(),
    ensures
        value == le_value(bytes@.subrange(at as int, at + width)),
{
    let total = bytes.len();
    let mut value: u64 = 0;
    let mut left: usize = width;
    while left > 0
        invariant
            left <= width <= 8,
            at + width <= total == bytes@.len(),
            value == le_value(bytes@.subrange(at + left, at + width)),
        decreases left,
    {
        let ghost high = bytes@.subrange(at + left, at + width);
        let ghost whole = bytes@.subrange(at + left - 1, at + width);
        proof {
            lemma_le_value_bound(high);
            lemma_le_limit_monotonic(high.len(), 7);
            lemma_le_limit_values();
            assert(whole.drop_first() =~= high);
        }
        left = left - 1;
        value = value * 256 + bytes[at + left] as u64;
    }
    value
}

/// Reads the 64-bit number stored little-endian in the eight bytes at `at`.
pub fn u64_from_le(bytes: &[u8], at: usize) -> (value: u64)
    requires
        at + 8 <= bytes@.len(),
    ensures
        value == le_value(bytes@.subrange(at as int, at + 8)),
{
    read_le(bytes, at, 8)
}

/// Reads the 32-bit number stored little-endian in the four bytes at `at`.
pub fn u32_from_le(bytes: &[u8], at: usize) -> (value: u32)
    requires
        at + 4 <= bytes@.len(),
    ensures
        value == le_value(bytes@.subrange(at as int, at + 4)),
{
    let wide = read_le(bytes, at, 4);
    proof {
        lemma_le_value_bound(bytes@.subrange(at as int, at + 4));
        lemma_le_limit_values();
    }
    wide as u32
}

} // verus!
