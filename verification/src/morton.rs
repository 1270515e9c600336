//! Utilities related to the Morton space-filling curve

use vstd::prelude::*;
use crate::bits;
use crate::bits::{bit16, bit8};
use crate::{Coordinate, Coordinates2D, CurveIdx};

verus! {

/// Whether `pt` holds the two de-interleaved halves of the Morton code
/// `code`: bit `i` of the first coordinate is bit `2i` of the code, and bit
/// `i` of the second coordinate is bit `2i + 1`
pub open spec fn morton_decoded(code: CurveIdx, pt: Coordinates2D) -> bool {
    &&& forall|i: u8| i < 8 ==> #[trigger] bit8(pt[0], i) == bit16(code, (2 * i) as u16)
    &&& forall|i: u8| i < 8 ==> #[trigger] bit8(pt[1], i) == bit16(code, (2 * i + 1) as u16)
}

/// A Morton code has exactly one decoding: any two points that both satisfy
/// `morton_decoded` for the same code are the same point. Together with the
/// contracts of `decode_2d` and `MortonIter::next`, this makes the iterator
/// yield exactly `decode_2d` of every index it passes.
pub proof fn lemma_morton_decoded_unique(code: CurveIdx, a: Coordinates2D, b: Coordinates2D)
    requires
        morton_decoded(code, a),
        morton_decoded(code, b),
    ensures
        a[0] == b[0],
        a[1] == b[1],
{
    assert forall|i: u8| i < 8 implies #[trigger] bit8(a[0], i) == bit8(b[0], i) by {
        assert(bit8(a[0], i) == bit16(code, (2 * i) as u16));
        assert(bit8(b[0], i) == bit16(code, (2 * i) as u16));
    }
    assert forall|i: u8| i < 8 implies #[trigger] bit8(a[1], i) == bit8(b[1], i) by {
        assert(bit8(a[1], i) == bit16(code, (2 * i + 1) as u16));
        assert(bit8(b[1], i) == bit16(code, (2 * i + 1) as u16));
    }
    bits::lemma_bit8_ext(a[0], b[0]);
    bits::lemma_bit8_ext(a[1], b[1]);
}

/// Value of the four striped masks that the bit-packing steps use
proof fn lemma_striped_mask_value(l: u32, m: u16)
    requires
        l == 1 || l == 2 || l == 4 || l == 8,
        forall|i: u16| i < 16 ==> (#[trigger] bit16(m, i) <==> ((i as u32) / l) % 2 == 0),
    ensures
        l == 1 ==> m == 0x5555,
        l == 2 ==> m == 0x3333,
        l == 4 ==> m == 0x0f0f,
        l == 8 ==> m == 0x00ff,
{
    assert((l == 1 ==> m == 0x5555) && (l == 2 ==> m == 0x3333) && (l == 4 ==> m == 0x0f0f) && (l
        == 8 ==> m == 0x00ff)) by (bit_vector)
        requires
            l == 1 || l == 2 || l == 4 || l == 8,
            bit16(m, 0) <==> (0u32 / l) % 2 == 0,
            bit16(m, 1) <==> (1u32 / l) % 2 == 0,
            bit16(m, 2) <==> (2u32 / l) % 2 == 0,
            bit16(m, 3) <==> (3u32 / l) % 2 == 0,
            bit16(m, 4) <==> (4u32 / l) % 2 == 0,
            bit16(m, 5) <==> (5u32 / l) % 2 == 0,
            bit16(m, 6) <==> (6u32 / l) % 2 == 0,
            bit16(m, 7) <==> (7u32 / l) % 2 == 0,
            bit16(m, 8) <==> (8u32 / l) % 2 == 0,
            bit16(m, 9) <==> (9u32 / l) % 2 == 0,
            bit16(m, 10) <==> (10u32 / l) % 2 == 0,
            bit16(m, 11) <==> (11u32 / l) % 2 == 0,
            bit16(m, 12) <==> (12u32 / l) % 2 == 0,
            bit16(m, 13) <==> (13u32 / l) % 2 == 0,
            bit16(m, 14) <==> (14u32 / l) % 2 == 0,
            bit16(m, 15) <==> (15u32 / l) % 2 == 0,
    ;
}

/// Pack the bits found at even positions of `sub` into the low-order half
///
/// The bits start out interleaved with junk: the junk is masked out, then the
/// surviving bits are grouped in pairs, groups of 4, and finally one group of
/// 8, by OR-ing in a right-shifted copy and re-masking at every doubling.
fn compact_even_bits(sub: CurveIdx) -> (r: Coordinate)
    ensures
        forall|i: u8| i < 8 ==> #[trigger] bit8(r, i) == bit16(sub, (2 * i) as u16),
{
    let mask1 = bits::striped_mask(1);
    let mask2 = bits::striped_mask(2);
    let mask4 = bits::striped_mask(4);
    let mask8 = bits::striped_mask(8);
    proof {
        lemma_striped_mask_value(1, mask1);
        lemma_striped_mask_value(2, mask2);
        lemma_striped_mask_value(4, mask4);
        lemma_striped_mask_value(8, mask8);
    }
    // Zero out the junk, then regroup with doubling group sizes
    let isolated = sub & mask1;
    let paired = (isolated | (isolated >> 1)) & mask2;
    let quartets = (paired | (paired >> 2)) & mask4;
    let packed = (quartets | (quartets >> 4)) & mask8;
    let r = packed as u8;
    proof {
        assert(forall|i: u8| i < 8 ==> #[trigger] bit8(r, i) == bit16(sub, (2 * i) as u16))
            by (bit_vector)
            requires
                isolated == sub & 0x5555u16,
                paired == (isolated | (isolated >> 1)) & 0x3333u16,
                quartets == (paired | (paired >> 2)) & 0x0f0fu16,
                packed == (quartets | (quartets >> 4)) & 0x00ffu16,
                r == packed as u8,
        ;
    }
    r
}

/// Decode a 2-dimensional Morton code into its two inner indices
///
/// A Morton code combines two integers with bit patterns [ x1 x2 ... xN ] and
/// [ y1 y2 ... yN ] into the interleaved bit pattern [ y1 x1 y2 x2 ... yN xN ].
///
/// Decoding the set of Morton codes produces a fractal space-filling curve
/// with a recurring Z-shaped pattern that has reasonable spatial locality
/// properties, though it does brutally jump from one area of 2D space to
/// another at times.
pub fn decode_2d(code: CurveIdx) -> (r: Coordinates2D)
    ensures
        morton_decoded(code, r),
{
    // The code itself carries one axis on its even bits; shifting by one
    // aligns the other axis's bits onto even positions as well
    let x = compact_even_bits(code);
    let y = compact_even_bits(code >> 1);
    proof {
        assert(forall|j: u16| j < 15 ==> #[trigger] bit16(code >> 1, j) == bit16(
            code,
            (j + 1) as u16,
        )) by (bit_vector);
        assert forall|i: u8| i < 8 implies #[trigger] bit8(y, i) == bit16(
            code,
            (2 * i + 1) as u16,
        ) by {
            assert(bit8(y, i) == bit16(code >> 1, (2 * i) as u16));
            assert(bit16(code >> 1, (2 * i) as u16) == bit16(code, (2 * i + 1) as u16));
        }
    }
    [x, y]
}

/// Iterator over the 2D Morton curve: yields the decoded coordinates of every
/// curve index from its starting point up to `CurveIdx::MAX`, in ascending
/// index order, advancing in amortized constant time instead of re-decoding
pub struct MortonIter {
    /// Curve index of the next point to yield
    idx: CurveIdx,
    /// Decoded coordinates of `idx`, kept in lockstep with it
    coords: Coordinates2D,
    /// Whether the walk has moved past `CurveIdx::MAX`
    done: bool,
}

/// One bit of the XOR difference mask that an index increment causes, as seen
/// from one coordinate axis after the deinterleaving shift
proof fn lemma_flip_mask_bit(f: u16, n: u32, sh: u32, i: u8, even_axis: bool)
    by (bit_vector)
    requires
        1 <= n <= 16,
        even_axis ==> sh == n / 2,
        !even_axis ==> sh == n - n / 2,
        i < 8,
        bit16(f, (i + sh) as u16) <==> (i + sh) < n,
    ensures
        even_axis ==> (bit8((f >> (sh as u16)) as u8, i) <==> 2 * i < n),
        !even_axis ==> (bit8((f >> (sh as u16)) as u8, i) <==> 2 * i + 1 < n),
{
}

/// The XOR of an index with its successor is a contiguous run of set
/// low-order bits: any set bit means all bits below it are set as well
proof fn lemma_flip_mask_is_run(idx: u16, f: u16)
    by (bit_vector)
    requires
        idx < 0xffff,
        f == idx ^ ((idx + 1) as u16),
    ensures
        bit16(f, 0),
        forall|j: u16, k: u16| k < j < 16 && #[trigger] bit16(f, j) ==> #[trigger] bit16(f, k),
        forall|j: u16|
            j < 16 ==> #[trigger] bit16((idx + 1) as u16, j) == (bit16(idx, j) != bit16(f, j)),
{
}

impl MortonIter {
    /// Curve index of the next point the iterator will yield
    pub closed spec fn position(self) -> CurveIdx {
        self.idx
    }

    /// Whether the iterator has yielded every index and will yield nothing
    /// more
    pub closed spec fn finished(self) -> bool {
        self.done
    }

    /// The cached coordinates always hold the decoding of the current index
    pub closed spec fn wf(self) -> bool {
        self.done || morton_decoded(self.idx, self.coords)
    }

    /// Yield the decoding of the current index and advance to the next one
    ///
    /// Instead of re-decoding, the decoded coordinates are updated in place:
    /// incrementing the index flips a contiguous run of its low-order bits,
    /// and that run splits evenly across the two interleaved axes, the odd
    /// extra flipped bit landing on the axis of the lower-order interleaved
    /// bits.
    pub fn next(&mut self) -> (r: Option<Coordinates2D>)
        requires
            old(self).wf(),
        ensures
            final(self).wf(),
            old(self).finished() ==> r is None && *final(self) == *old(self),
            !old(self).finished() ==> (r matches Some(pt) && morton_decoded(
                old(self).position(),
                pt,
            )),
            !old(self).finished() && old(self).position() < 0xffff ==> !final(self).finished()
                && final(self).position() == old(self).position() + 1,
            !old(self).finished() && old(self).position() == 0xffff ==> final(self).finished(),
    {
        if self.done {
            return None;
        }
        let result = self.coords;
        if self.idx == 0xffff {
            self.done = true;
            return Some(result);
        }
        // Check which of the curve index's bits the increment will flip
        let flipped_bits = self.idx ^ (self.idx + 1);
        let num_flipped_bits = flipped_bits.trailing_ones();

        // The flipped bits spread ~evenly across "even" bits (the first
        // coordinate) and "odd" bits (the second coordinate), with the extra
        // flipped bit going to the second coordinate's axis on a tie
        let num_flipped_even = num_flipped_bits / 2;
        let num_flipped_odd = num_flipped_bits - num_flipped_even;

        // Propagate the index increment's bit flips to the coordinates
        let x = self.coords[0] ^ (#[verifier::truncate] ((flipped_bits >> num_flipped_even) as Coordinate));
        let y = self.coords[1] ^ (#[verifier::truncate] ((flipped_bits >> num_flipped_odd) as Coordinate));
        proof {
            broadcast use vstd::std_specs::bits::group_bits_axioms;

            let n = num_flipped_bits;
            let f = flipped_bits;
            let idx = self.idx;
            lemma_flip_mask_is_run(idx, f);
            assert(bit16(f, 0) ==> n >= 1) by {
                if n < 16 {
                    assert((f >> (n as u16)) & 1u16 == 0u16);
                    if n == 0 {
                        assert(bit16(f, 0) == ((f >> 0u16) & 1u16 == 1u16));
                    }
                }
            }
            assert forall|j: u16| j < 16 implies (#[trigger] bit16(f, j) <==> j < n) by {
                if j < n {
                    assert((f >> j) & 1u16 == 1u16);
                } else {
                    if bit16(f, j) {
                        if n < 16 {
                            assert((f >> (n as u16)) & 1u16 == 0u16);
                            assert(bit16(f, n as u16) ==> false);
                            assert(bit16(f, (n as u16)));
                        }
                    }
                }
            }
            assert forall|i: u8| i < 8 implies #[trigger] bit8(x, i) == bit16(
                (idx + 1) as u16,
                (2 * i) as u16,
            ) by {
                bits::lemma_bit8_ops(self.coords[0], (f >> (num_flipped_even as u16)) as u8);
                assert(bit16(f, (i + num_flipped_even) as u16) <==> (i + num_flipped_even) < n);
                lemma_flip_mask_bit(f, n, num_flipped_even, i, true);
                assert(bit8(self.coords[0], i) == bit16(idx, (2 * i) as u16));
                assert(bit16((idx + 1) as u16, (2 * i) as u16) == (bit16(idx, (2 * i) as u16)
                    != bit16(f, (2 * i) as u16)));
                assert(bit16(f, (2 * i) as u16) <==> 2 * i < n);
            }
            assert forall|i: u8| i < 8 implies #[trigger] bit8(y, i) == bit16(
                (idx + 1) as u16,
                (2 * i + 1) as u16,
            ) by {
                bits::lemma_bit8_ops(self.coords[1], (f >> (num_flipped_odd as u16)) as u8);
                assert(bit16(f, (i + num_flipped_odd) as u16) <==> (i + num_flipped_odd) < n);
                lemma_flip_mask_bit(f, n, num_flipped_odd, i, false);
                assert(bit8(self.coords[1], i) == bit16(idx, (2 * i + 1) as u16));
                assert(bit16((idx + 1) as u16, (2 * i + 1) as u16) == (bit16(
                    idx,
                    (2 * i + 1) as u16,
                ) != bit16(f, (2 * i + 1) as u16)));
                assert(bit16(f, (2 * i + 1) as u16) <==> 2 * i + 1 < n);
            }
        }
        self.coords = [x, y];
        self.idx = self.idx + 1;
        Some(result)
    }
}

/// Iterate over the 2D Morton curve
///
/// This yields the same points as running `decode_2d()` on the sequence of
/// all possible curve indices, in ascending order, but a bit more efficiently.
pub fn iter_2d() -> (r: MortonIter)
    ensures
        r.wf(),
        !r.finished(),
        r.position() == 0,
{
    iter_from_2d(0)
}

/// Iterate over the 2D Morton curve, starting from a certain index
///
/// This yields the same points as running `decode_2d()` on every curve index
/// from `start` up to the maximum index, in ascending order, but a bit more
/// efficiently.
pub fn iter_from_2d(start: CurveIdx) -> (r: MortonIter)
    ensures
        r.wf(),
        !r.finished(),
        r.position() == start,
{
    MortonIter { idx: start, coords: decode_2d(start), done: false }
}

} // verus!
