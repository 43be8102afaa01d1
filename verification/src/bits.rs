//! Bit sequences: bytes and integers as runs of single bits, most significant
//! bit first. A bit is held as a byte that is 0 or 1.

use vstd::arithmetic::power2::*;
use vstd::prelude::*;

verus! {

/// Every element is 0 or 1.
pub open spec fn is_bits(bits: Seq<u8>) -> bool {
    forall|i: int| 0 <= i < bits.len() ==> #[trigger] bits[i] <= 1
}

/// The unsigned integer that a run of bits spells, read as big-endian binary.
pub open spec fn bits_value(bits: Seq<u8>) -> nat
    decreases bits.len(),
{
    if bits.len() == 0 {
        0
    } else {
        2 * bits_value(bits.drop_last()) + bits.last() as nat
    }
}

/// The `width` lowest bits of `value`, most significant first.
pub open spec fn value_bits(value: nat, width: nat) -> Seq<u8>
    decreases width,
{
    if width == 0 {
        Seq::empty()
    } else {
        value_bits(value / 2, (width - 1) as nat).push((value % 2) as u8)
    }
}

/// The bits of a byte string: eight per byte, in byte order.
pub open spec fn bytes_bits(bytes: Seq<u8>) -> Seq<u8>
    decreases bytes.len(),
{
    if bytes.len() == 0 {
        Seq::empty()
    } else {
        bytes_bits(bytes.drop_last()) + value_bits(bytes.last() as nat, 8)
    }
}

/// The bytes that a run of bits packs into: byte `i` is spelled by the bits
/// `8 * i .. 8 * i + 8`. Bits beyond the last full group of eight are left out.
pub open spec fn bits_bytes(bits: Seq<u8>) -> Seq<u8> {
    Seq::new((bits.len() / 8) as nat, |i: int| bits_value(bits.subrange(8 * i, 8 * i + 8)) as u8)
}

/// `value_bits` yields exactly `width` bits.
pub proof fn lemma_value_bits_shape(value: nat, width: nat)
    ensures
        value_bits(value, width).len() == width,
        is_bits(value_bits(value, width)),
    decreases width,
{
    if width > 0 {
        lemma_value_bits_shape(value / 2, (width - 1) as nat);
    }
}

/// A run of `n` bits spells a number below `2^n`.
pub proof fn lemma_bits_value_bound(bits: Seq<u8>)
    requires
        is_bits(bits),
    ensures
        bits_value(bits) < pow2(bits.len()),
    decreases bits.len(),
{
    if bits.len() == 0 {
        lemma2_to64();
    } else {
        lemma_bits_value_bound(bits.drop_last());
        lemma_pow2_unfold(bits.len());
    }
}

/// Writing a number that fits in `width` bits and reading the bits back gives
/// the number.
pub proof fn lemma_value_of_value_bits(value: nat, width: nat)
    requires
        value < pow2(width),
    ensures
        bits_value(value_bits(value, width)) == value,
    decreases width,
{
    if width == 0 {
        lemma2_to64();
    } else {
        let rest = value_bits(value / 2, (width - 1) as nat);
        lemma_pow2_unfold(width);
        lemma_value_of_value_bits(value / 2, (width - 1) as nat);
        assert(value_bits(value, width).drop_last() =~= rest);
    }
}

/// Reading a run of bits and writing the number back at the same width gives
/// the bits.
pub proof fn lemma_value_bits_of_value(bits: Seq<u8>)
    requires
        is_bits(bits),
    ensures
        value_bits(bits_value(bits), bits.len()) == bits,
    decreases bits.len(),
{
    if bits.len() > 0 {
        lemma_value_bits_of_value(bits.drop_last());
        let v = bits_value(bits);
        assert(bits.last() <= 1);
        assert(v / 2 == bits_value(bits.drop_last()));
        assert(v % 2 == bits.last() as nat);
        assert(value_bits(v, bits.len()) =~= bits);
    } else {
        assert(value_bits(bits_value(bits), bits.len()) =~= bits);
    }
}

/// The bits of a byte string: its length, and that each byte owns its eight.
pub proof fn lemma_bytes_bits_shape(bytes: Seq<u8>)
    ensures
        bytes_bits(bytes).len() == 8 * bytes.len(),
        is_bits(bytes_bits(bytes)),
        forall|i: int|
            0 <= i < bytes.len() ==> #[trigger] bytes_bits(bytes).subrange(8 * i, 8 * i + 8)
                == value_bits(bytes[i] as nat, 8),
    decreases bytes.len(),
{
    if bytes.len() > 0 {
        let front = bytes.drop_last();
        let tail = value_bits(bytes.last() as nat, 8);
        lemma_bytes_bits_shape(front);
        lemma_value_bits_shape(bytes.last() as nat, 8);
        let all = bytes_bits(bytes);
        assert forall|i: int| 0 <= i < bytes.len() implies #[trigger] all.subrange(8 * i, 8 * i + 8)
            == value_bits(bytes[i] as nat, 8) by {
            if i < front.len() {
                assert(all.subrange(8 * i, 8 * i + 8) =~= bytes_bits(front).subrange(
                    8 * i,
                    8 * i + 8,
                ));
                assert(front[i] == bytes[i]);
            } else {
                assert(all.subrange(8 * i, 8 * i + 8) =~= tail);
            }
        }
    }
}

/// The bits of the first `n` bytes are the first `8 * n` bits.
pub proof fn lemma_bytes_bits_prefix(bytes: Seq<u8>, n: int)
    requires
        0 <= n <= bytes.len(),
    ensures
        bytes_bits(bytes).take(8 * n) == bytes_bits(bytes.take(n)),
    decreases bytes.len() - n,
{
    lemma_bytes_bits_shape(bytes);
    if n == bytes.len() {
        assert(bytes.take(n) =~= bytes);
        assert(bytes_bits(bytes).take(8 * n) =~= bytes_bits(bytes));
    } else {
        let front = bytes.drop_last();
        lemma_bytes_bits_prefix(front, n);
        lemma_bytes_bits_shape(front);
        assert(front.take(n) =~= bytes.take(n));
        assert(bytes_bits(bytes).take(8 * n) =~= bytes_bits(front).take(8 * n));
    }
}

/// Packing the bits of a byte string gives the byte string.
pub proof fn lemma_bytes_round_trip(bytes: Seq<u8>)
    ensures
        bits_bytes(bytes_bits(bytes)) == bytes,
{
    lemma_bytes_bits_shape(bytes);
    let packed = bits_bytes(bytes_bits(bytes));
    assert(packed.len() == bytes.len());
    assert forall|i: int| 0 <= i < bytes.len() implies packed[i] == bytes[i] by {
        lemma2_to64();
        assert(bytes_bits(bytes).subrange(8 * i, 8 * i + 8) == value_bits(bytes[i] as nat, 8));
        lemma_value_of_value_bits(bytes[i] as nat, 8);
    }
    assert(packed =~= bytes);
}

/// Writes `b` as exactly `length` bits, most significant first.
pub fn u16_to_bits(b: u16, length: u8) -> (bits: Vec<u8>)
    requires
        (b as nat) < pow2(length as nat),
    ensures
        bits@ == value_bits(b as nat, length as nat),
        bits@.len() == length,
        is_bits(bits@),
        bits_value(bits@) == b,
{
    let mut bits: Vec<u8> = Vec::with_capacity(length as usize);
    let mut filled: u8 = 0;
    while filled < length
        invariant
            filled <= length,
            bits@.len() == filled,
        decreases length - filled,
    {
        bits.push(0);
        filled = filled + 1;
    }
    let mut rest: u16 = b;
    let mut done: u8 = 0;
    while done < length
        invariant
            done <= length,
            bits@.len() == length,
            value_bits(b as nat, length as nat) == value_bits(
                rest as nat,
                (length - done) as nat,
            ) + bits@.subrange(length - done, length as int),
        decreases length - done,
    {
        let at: usize = (length - done - 1) as usize;
        let ghost before = bits@;
        bits.set(at, (rest % 2) as u8);
        proof {
            let high = value_bits((rest / 2) as nat, (length - done - 1) as nat);
            assert(value_bits(rest as nat, (length - done) as nat) == high.push((rest % 2) as u8));
            assert(high.push((rest % 2) as u8) + before.subrange(length - done, length as int)
                =~= high + bits@.subrange(length - done - 1, length as int));
        }
        rest = rest / 2;
        done = done + 1;
    }
    proof {
        assert(value_bits(rest as nat, 0) + bits@.subrange(0, length as int) =~= bits@);
        lemma_value_bits_shape(b as nat, length as nat);
        lemma_value_of_value_bits(b as nat, length as nat);
    }
    bits
}

/// Reads a run of at most sixteen bits as a big-endian unsigned integer.
pub fn to_byte(bits: &[u8]) -> (value: u16)
    requires
        is_bits(bits@),
        bits@.len() <= 16,
    ensures
        value == bits_value(bits@),
{
    let mut value: u16 = 0;
    let mut i: usize = 0;
    proof {
        lemma2_to64();
    }
    while i < bits.len()
        invariant
            i <= bits@.len() <= 16,
            is_bits(bits@),
            value == bits_value(bits@.take(i as int)),
            (value as nat) < pow2(i as nat),
        decreases bits@.len() - i,
    {
        proof {
            let next = bits@.take(i + 1);
            assert(next.drop_last() =~= bits@.take(i as int));
            assert(next.last() == bits@[i as int]);
            assert(bits@[i as int] <= 1);
            lemma_pow2_unfold((i + 1) as nat);
            lemma_pow2_strictly_increases((i + 1) as nat, 17);
            lemma2_to64();
        }
        value = 2 * value + bits[i] as u16;
        i = i + 1;
    }
    proof {
        assert(bits@.take(i as int) =~= bits@);
    }
    value
}

/// The bits of `bytes`: eight per byte, most significant first, in byte order.
pub fn to_bits(bytes: &[u8]) -> (bits: Vec<u8>)
    ensures
        bits@ == bytes_bits(bytes@),
        bits@.len() == 8 * bytes@.len(),
        is_bits(bits@),
{
    let mut bits: Vec<u8> = Vec::new();
    let mut i: usize = 0;
    while i < bytes.len()
        invariant
            i <= bytes@.len(),
            bits@ == bytes_bits(bytes@.take(i as int)),
        decreases bytes@.len() - i,
    {
        proof {
            lemma2_to64();
            assert(bytes@.take(i + 1).drop_last() =~= bytes@.take(i as int));
        }
        let mut eight = u16_to_bits(bytes[i] as u16, 8);
        bits.append(&mut eight);
        i = i + 1;
    }
    proof {
        assert(bytes@.take(i as int) =~= bytes@);
        lemma_bytes_bits_shape(bytes@);
    }
    bits
}

/// Packs 128 bits into sixteen bytes, eight bits per byte, most significant
/// bit first.
pub fn de_partition(bits: &[u8]) -> (bytes: [u8; 16])
    requires
        bits@.len() == 128,
        is_bits(bits@),
    ensures
        bytes@ == bits_bytes(bits@),
{
    let mut bytes: [u8; 16] = [0;16];
    let mut i: usize = 0;
    while i < 16
        invariant
            i <= 16,
            bits@.len() == 128,
            is_bits(bits@),
            forall|k: int|
                0 <= k < i ==> bytes@[k] == bits_value(
                    #[trigger] bits@.subrange(8 * k, 8 * k + 8),
                ) as u8,
        decreases 16 - i,
    {
        let group = vstd::slice::slice_subrange(bits, 8 * i, 8 * i + 8);
        let value = to_byte(group);
        proof {
            lemma_bits_value_bound(group@);
            lemma2_to64();
        }
        bytes[i] = value as u8;
        i = i + 1;
    }
    proof {
        assert(bytes@ =~= bits_bytes(bits@));
    }
    bytes
}

} // verus!
