//! Little-endian integers in byte buffers.
use vstd::prelude::*;

verus! {

/// The number that `bytes` spells, least significant byte first.
pub open spec fn le_value(bytes: Seq<u8>) -> nat
    decreases bytes.len(),
{
    if bytes.len() == 0 {
        0
    } else {
        bytes[0] as nat + 256 * le_value(bytes.drop_first())
    }
}

/// The `width` low bytes of `value`, least significant first.
pub open spec fn le_bytes(value: nat, width: nat) -> Seq<u8>
    decreases width,
{
    if width == 0 {
        Seq::empty()
    } else {
        seq![(value % 256) as u8] + le_bytes(value / 256, (width - 1) as nat)
    }
}

/// `256` to the power of `width`: one more than the largest number of that
/// many bytes.
pub open spec fn byte_span(width: nat) -> nat
    decreases width,
{
    if width == 0 {
        1
    } else {
        256 * byte_span((width - 1) as nat)
    }
}

/// Writing a number and reading it back gives the number, where it fits.
pub proof fn lemma_le_round_trip(value: nat, width: nat)
    requires
        value < byte_span(width),
    ensures
        le_bytes(value, width).len() == width,
        le_value(le_bytes(value, width)) == value,
    decreases width,
{
    if width > 0 {
        let rest = (width - 1) as nat;
        assert(value / 256 < byte_span(rest)) by (nonlinear_arith)
            requires
                value < 256 * byte_span(rest),
        ;
        lemma_le_round_trip(value / 256, rest);
        assert(le_bytes(value, width).drop_first() =~= le_bytes(value / 256, rest));
    }
}

/// The values of two, four and eight bytes, written out.
pub proof fn lemma_le_value_unfold(bytes: Seq<u8>)
    ensures
        bytes.len() == 1 ==> le_value(bytes) == bytes[0],
        bytes.len() == 2 ==> le_value(bytes) == bytes[0] + 256 * bytes[1],
        bytes.len() == 4 ==> le_value(bytes) == bytes[0] + 256 * bytes[1] + 65536 * bytes[2]
            + 16777216 * bytes[3],
        bytes.len() == 8 ==> le_value(bytes) == bytes[0] + 256 * bytes[1] + 65536 * bytes[2]
            + 16777216 * bytes[3] + 4294967296 * bytes[4] + 1099511627776 * bytes[5]
            + 281474976710656 * bytes[6] + 72057594037927936 * bytes[7],
{
    reveal_with_fuel(le_value, 9);
}

/// Reads two bytes at `at`.
pub fn read_u16_le(data: &[u8], at: usize) -> (value: u16)
    requires
        at + 2 <= data@.len(),
    ensures
        value == le_value(data@.subrange(at as int, at + 2)),
{
    proof {
        lemma_le_value_unfold(data@.subrange(at as int, at + 2));
    }
    (data[at] as u16) + 256 * (data[at + 1] as u16)
}

/// Reads four bytes at `at`.
pub fn read_u32_le(data: &[u8], at: usize) -> (value: u32)
    requires
        at + 4 <= data@.len(),
    ensures
        value == le_value(data@.subrange(at as int, at + 4)),
{
    proof {
        lemma_le_value_unfold(data@.subrange(at as int, at + 4));
    }
    (data[at] as u32) + 256 * (data[at + 1] as u32) + 65536 * (data[at + 2] as u32) + 16777216 * (
    data[at + 3] as u32)
}

/// Reads eight bytes at `at`.
pub fn read_u64_le(data: &[u8], at: usize) -> (value: u64)
    requires
        at + 8 <= data@.len(),
    ensures
        value == le_value(data@.subrange(at as int, at + 8)),
{
    proof {
        lemma_le_value_unfold(data@.subrange(at as int, at + 8));
    }
    let low: u64 = (data[at] as u64) + 256 * (data[at + 1] as u64) + 65536 * (data[at + 2] as u64)
        + 16777216 * (data[at + 3] as u64);
    let high: u64 = (data[at + 4] as u64) + 256 * (data[at + 5] as u64) + 65536 * (data[at
        + 6] as u64) + 16777216 * (data[at + 7] as u64);
    low + 4294967296 * high
}

/// Appends the `width` low bytes of `value` to `out`.
pub fn push_le(out: &mut Vec<u8>, value: u64, width: usize)
    ensures
        final(out)@ == old(out)@ + le_bytes(value as nat, width as nat),
{
    let mut rest: u64 = value;
    let mut left: usize = width;
    while left > 0
        invariant
            left <= width,
            old(out)@ + le_bytes(value as nat, width as nat) == out@ + le_bytes(
                rest as nat,
                left as nat,
            ),
        decreases left,
    {
        let ghost tail = le_bytes(rest as nat / 256, (left - 1) as nat);
        let ghost before = out@;
        out.push((rest % 256) as u8);
        proof {
            assert(before + le_bytes(rest as nat, left as nat) =~= out@ + tail);
        }
        rest = rest / 256;
        left = left - 1;
    }
    assert(out@ + le_bytes(rest as nat, 0) =~= out@);
}

/// Appends `data[from..to]` to `out`.
pub fn push_range(out: &mut Vec<u8>, data: &[u8], from: usize, to: usize)
    requires
        from <= to <= data@.len(),
    ensures
        final(out)@ == old(out)@ + data@.subrange(from as int, to as int),
{
    let part = vstd::slice::slice_subrange(data, from, to);
    out.extend_from_slice(part);
    assert(out@ =~= old(out)@ + data@.subrange(from as int, to as int));
}

/// Bytes spell a number least significant first: byte `i` counts `256` to the
/// power of `i`, and a number written out gives each byte back.
pub proof fn law_low_byte_first(low: u8, rest: Seq<u8>, value: nat, width: nat)
    ensures
        le_value(Seq::empty()) == 0,
        le_value(seq![low] + rest) == low + 256 * le_value(rest),
        le_bytes(value, width).len() == width,
        width > 0 ==> le_bytes(value, width)[0] == value % 256,
        width > 1 ==> le_bytes(value, width)[1] == value / 256 % 256,
        width == 1 && value < 256 ==> le_bytes(value, width) == seq![value as u8],
        width == 2 && value < 65536 ==> le_bytes(value, width) == seq![
            (value % 256) as u8,
            (value / 256) as u8,
        ],
    decreases width,
{
    assert((seq![low] + rest).drop_first() =~= rest);
    reveal_with_fuel(le_bytes, 3);
    if width > 0 {
        law_low_byte_first(low, rest, value / 256, (width - 1) as nat);
    }
    if width == 1 && value < 256 {
        assert(le_bytes(value, width) =~= seq![value as u8]);
    }
    if width == 2 && value < 65536 {
        assert(le_bytes(value, width) =~= seq![(value % 256) as u8, (value / 256) as u8]);
    }
}

} // verus!
