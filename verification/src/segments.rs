//! Segments: a bit sequence cut front to back into unsigned integers of given
//! bit widths, and the way back from the integers to the bits.

use crate::bits::{
    bits_value, bytes_bits, is_bits, lemma_bits_value_bound, lemma_value_bits_of_value,
    lemma_value_bits_shape, to_bits, to_byte, u16_to_bits, value_bits,
};
use vstd::arithmetic::power2::*;
use vstd::prelude::*;
use vstd::slice::slice_subrange;

verus! {

/// No segment is wider than sixteen bits, so each value fits a `u16`.
pub open spec fn widths_ok(widths: Seq<u8>) -> bool {
    forall|i: int| 0 <= i < widths.len() ==> #[trigger] widths[i] <= 16
}

/// The bit position at which segment `n` starts: the sum of the first `n`
/// widths.
pub open spec fn offset(widths: Seq<u8>, n: int) -> nat
    decreases n,
{
    if n <= 0 {
        0
    } else {
        offset(widths, n - 1) + widths[n - 1] as nat
    }
}

/// The number of bits that all segments take together.
pub open spec fn total_width(widths: Seq<u8>) -> nat {
    offset(widths, widths.len() as int)
}

/// The value of each segment: segment `i` is spelled by the bits from
/// `offset(widths, i)` up to `offset(widths, i + 1)`.
pub open spec fn segment_values(widths: Seq<u8>, bits: Seq<u8>) -> Seq<u16> {
    Seq::new(
        widths.len(),
        |i: int|
            bits_value(bits.subrange(offset(widths, i) as int, offset(widths, i + 1) as int))
                as u16,
    )
}

/// There are no more values than widths, and each value fits its width.
pub open spec fn fits(widths: Seq<u8>, values: Seq<u16>) -> bool {
    &&& values.len() <= widths.len()
    &&& forall|i: int| 0 <= i < values.len() ==> (#[trigger] values[i] as nat) < pow2(widths[i] as nat)
}

/// The bits of the values one after another, value `i` written at width
/// `widths[i]`.
pub open spec fn segment_bits(widths: Seq<u8>, values: Seq<u16>) -> Seq<u8>
    decreases values.len(),
{
    if values.len() == 0 {
        Seq::empty()
    } else {
        segment_bits(widths, values.drop_last()) + value_bits(
            values.last() as nat,
            widths[values.len() - 1] as nat,
        )
    }
}

/// A segment of at most sixteen bits has at most 65536 values.
pub proof fn lemma_width_bound(width: nat)
    requires
        width <= 16,
    ensures
        pow2(width) <= 65536,
{
    lemma2_to64();
    if width < 16 {
        lemma_pow2_strictly_increases(width, 16);
    }
}

/// Segments start in order.
pub proof fn lemma_offset_monotone(widths: Seq<u8>, i: int, j: int)
    requires
        i <= j,
    ensures
        offset(widths, i) <= offset(widths, j),
    decreases j - i,
{
    if i < j {
        lemma_offset_monotone(widths, i, j - 1);
    }
}

/// The written values take as many bits as their widths say.
pub proof fn lemma_segment_bits_shape(widths: Seq<u8>, values: Seq<u16>)
    requires
        values.len() <= widths.len(),
    ensures
        segment_bits(widths, values).len() == offset(widths, values.len() as int),
        is_bits(segment_bits(widths, values)),
    decreases values.len(),
{
    if values.len() > 0 {
        lemma_segment_bits_shape(widths, values.drop_last());
        lemma_value_bits_shape(values.last() as nat, widths[values.len() - 1] as nat);
    }
}

/// Every segment value fits its width.
pub proof fn lemma_segment_values_fit(widths: Seq<u8>, bits: Seq<u8>)
    requires
        widths_ok(widths),
        is_bits(bits),
        total_width(widths) <= bits.len(),
    ensures
        fits(widths, segment_values(widths, bits)),
{
    let values = segment_values(widths, bits);
    assert forall|i: int| 0 <= i < values.len() implies (#[trigger] values[i] as nat) < pow2(
        widths[i] as nat,
    ) by {
        lemma_offset_monotone(widths, i + 1, widths.len() as int);
        let run = bits.subrange(offset(widths, i) as int, offset(widths, i + 1) as int);
        lemma_bits_value_bound(run);
        assert(widths[i] <= 16);
        lemma_pow2_strictly_increases(widths[i] as nat, 17);
        lemma2_to64();
    }
}

/// Cutting bits into segments and writing the segments back gives the bits
/// that the segments cover.
pub proof fn lemma_segments_round_trip(widths: Seq<u8>, bits: Seq<u8>)
    requires
        widths_ok(widths),
        is_bits(bits),
        total_width(widths) <= bits.len(),
    ensures
        segment_bits(widths, segment_values(widths, bits)) == bits.take(total_width(widths) as int),
{
    let values = segment_values(widths, bits);
    lemma_segments_prefix(widths, bits, widths.len() as int);
    assert(values.take(widths.len() as int) =~= values);
}

proof fn lemma_segments_prefix(widths: Seq<u8>, bits: Seq<u8>, n: int)
    requires
        widths_ok(widths),
        is_bits(bits),
        total_width(widths) <= bits.len(),
        0 <= n <= widths.len(),
    ensures
        segment_bits(widths, segment_values(widths, bits).take(n)) == bits.take(
            offset(widths, n) as int,
        ),
    decreases n,
{
    let values = segment_values(widths, bits);
    if n == 0 {
        assert(segment_bits(widths, values.take(0)) =~= bits.take(0));
    } else {
        lemma_segments_prefix(widths, bits, n - 1);
        lemma_offset_monotone(widths, n, widths.len() as int);
        let run = bits.subrange(offset(widths, n - 1) as int, offset(widths, n) as int);
        assert(values.take(n).drop_last() =~= values.take(n - 1));
        assert(values.take(n).last() == values[n - 1]);
        lemma_bits_value_bound(run);
        assert(widths[n - 1] <= 16);
        lemma_pow2_strictly_increases(widths[n - 1] as nat, 17);
        lemma2_to64();
        lemma_value_bits_of_value(run);
        assert(bits.take(offset(widths, n - 1) as int) + run =~= bits.take(
            offset(widths, n) as int,
        ));
    }
}

/// The segment values depend only on the bits that the segments cover.
pub proof fn lemma_segment_values_prefix(widths: Seq<u8>, a: Seq<u8>, b: Seq<u8>)
    requires
        total_width(widths) <= a.len(),
        total_width(widths) <= b.len(),
        a.take(total_width(widths) as int) == b.take(total_width(widths) as int),
    ensures
        segment_values(widths, a) == segment_values(widths, b),
{
    let total = total_width(widths) as int;
    assert forall|i: int| 0 <= i < widths.len() implies segment_values(widths, a)[i]
        == segment_values(widths, b)[i] by {
        let from = offset(widths, i) as int;
        let to = offset(widths, i + 1) as int;
        lemma_offset_monotone(widths, i, i + 1);
        lemma_offset_monotone(widths, i + 1, widths.len() as int);
        assert(a.subrange(from, to) =~= a.take(total).subrange(from, to));
        assert(b.subrange(from, to) =~= b.take(total).subrange(from, to));
    }
    assert(segment_values(widths, a) =~= segment_values(widths, b));
}

/// Cuts the bits of `bytes` into one unsigned integer per width, front to
/// back. Bits after the last segment are not read.
pub fn partition(parts: &[u8], bytes: &[u8]) -> (values: Vec<u16>)
    requires
        widths_ok(parts@),
        total_width(parts@) <= 8 * bytes@.len(),
    ensures
        values@ == segment_values(parts@, bytes_bits(bytes@)),
        fits(parts@, values@),
{
    let bits = to_bits(bytes);
    let limit: usize = bits.len();
    let mut values: Vec<u16> = Vec::with_capacity(parts.len());
    let mut cursor: usize = 0;
    let mut i: usize = 0;
    while i < parts.len()
        invariant
            i <= parts@.len(),
            widths_ok(parts@),
            is_bits(bits@),
            total_width(parts@) <= bits@.len() == limit,
            cursor == offset(parts@, i as int),
            values@ == segment_values(parts@, bits@).take(i as int),
        decreases parts@.len() - i,
    {
        proof {
            lemma_offset_monotone(parts@, i + 1, parts@.len() as int);
            assert(offset(parts@, i + 1) == cursor + parts@[i as int]);
        }
        let width: usize = parts[i] as usize;
        let run = slice_subrange(bits.as_slice(), cursor, cursor + width);
        let value = to_byte(run);
        values.push(value);
        proof {
            assert(values@ =~= segment_values(parts@, bits@).take(i + 1));
        }
        cursor = cursor + width;
        i = i + 1;
    }
    proof {
        assert(segment_values(parts@, bits@).take(i as int) =~= segment_values(parts@, bits@));
        lemma_segment_values_fit(parts@, bits@);
    }
    values
}

/// Writes each value at its width, most significant bit first, one value
/// after another.
pub fn assemble_bits(widths: &[u8], values: &[u16]) -> (bits: Vec<u8>)
    requires
        fits(widths@, values@),
    ensures
        bits@ == segment_bits(widths@, values@),
        bits@.len() == offset(widths@, values@.len() as int),
        is_bits(bits@),
{
    let mut bits: Vec<u8> = Vec::new();
    let mut i: usize = 0;
    while i < values.len()
        invariant
            i <= values@.len(),
            fits(widths@, values@),
            bits@ == segment_bits(widths@, values@.take(i as int)),
        decreases values@.len() - i,
    {
        proof {
            assert(values@.take(i + 1).drop_last() =~= values@.take(i as int));
            assert((values@[i as int] as nat) < pow2(widths@[i as int] as nat));
        }
        let mut run = u16_to_bits(values[i], widths[i]);
        bits.append(&mut run);
        i = i + 1;
    }
    proof {
        assert(values@.take(i as int) =~= values@);
        lemma_segment_bits_shape(widths@, values@);
    }
    bits
}

} // verus!
