//! Slicing the bits of an integer.

use std::ops::Range;
use vstd::prelude::*;

verus! {

/// Integers whose bits can be sliced by a range of positions.
pub trait BitSlice: Sized {
    /// Whether `range` names positions that this integer type has.
    spec fn slice_in_bounds(range: Range<Self>) -> bool;

    /// The bits of `self` at the positions of `range`, moved down to the lowest bits.
    spec fn bits_in(self, range: Range<Self>) -> Self;

    /// Slices an integer's bits by a range of positions.
    fn bit_slice(self, range: Range<Self>) -> (bits: Self)
        requires
            Self::slice_in_bounds(range),
        ensures
            bits == self.bits_in(range),
    ;
}

/// Positions count from the highest bit, which is position 0: the slice keeps what
/// lies below position `start` and drops what lies at position `end` and after.
impl BitSlice for u8 {
    open spec fn slice_in_bounds(range: Range<u8>) -> bool {
        range.start < 8 && 0 < range.end <= 8
    }

    open spec fn bits_in(self, range: Range<u8>) -> u8 {
        ((self as int % pow2_upto_8(8 - range.start)) / pow2_upto_8(8 - range.end)) as u8
    }

    fn bit_slice(self, range: Range<u8>) -> (bits: u8) {
        let start: u8 = range.start;
        let end: u8 = range.end;
        let up: u8 = 8 - end;
        assert(((self << start) >> start) >> up == ((self as int % pow2_upto_8(8 - start))
            / pow2_upto_8(up as int)) as u8) by {
            lemma_bit_slice(self, start, up);
        }
        self << start >> start >> up
    }
}

/// Two to the power `n`, for `n` from 0 to 8.
pub open spec fn pow2_upto_8(n: int) -> int {
    if n <= 0 {
        1
    } else if n == 1 {
        2
    } else if n == 2 {
        4
    } else if n == 3 {
        8
    } else if n == 4 {
        16
    } else if n == 5 {
        32
    } else if n == 6 {
        64
    } else if n == 7 {
        128
    } else {
        256
    }
}

proof fn lemma_bit_slice(x: u8, start: u8, up: u8)
    requires
        start < 8,
        up < 8,
    ensures
        ((x << start) >> start) >> up == ((x as int % pow2_upto_8(8 - start)) / pow2_upto_8(
            up as int,
        )) as u8,
{
    let kept: u8 = (x << start) >> start;
    assert(kept as u16 == (x as u16) % (1u16 << ((8 - start) as u16))) by (bit_vector)
        requires
            start < 8,
            kept == (x << start) >> start,
    ;
    assert((1u16 << ((8 - start) as u16)) == pow2_upto_8(8 - start)) by {
        lemma_shl_is_pow2((8 - start) as u16);
    }
    assert(kept >> up == (kept as u16) / (1u16 << (up as u16))) by (bit_vector)
        requires
            up < 8,
    ;
    assert((1u16 << (up as u16)) == pow2_upto_8(up as int)) by {
        lemma_shl_is_pow2(up as u16);
    }
}

proof fn lemma_shl_is_pow2(n: u16)
    requires
        n <= 8,
    ensures
        (1u16 << n) == pow2_upto_8(n as int),
{
    assert(1u16 << 0u16 == 1) by (bit_vector);
    assert(1u16 << 1u16 == 2) by (bit_vector);
    assert(1u16 << 2u16 == 4) by (bit_vector);
    assert(1u16 << 3u16 == 8) by (bit_vector);
    assert(1u16 << 4u16 == 16) by (bit_vector);
    assert(1u16 << 5u16 == 32) by (bit_vector);
    assert(1u16 << 6u16 == 64) by (bit_vector);
    assert(1u16 << 7u16 == 128) by (bit_vector);
    assert(1u16 << 8u16 == 256) by (bit_vector);
}

} // verus!
