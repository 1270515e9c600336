//! Binary arithmetic utilities used for space-filling curve computations
//!
//! Contracts here describe every operation bit by bit: `bit16`/`bit8` read a
//! single bit of a word, and `xor_bits_from` folds the XOR of a suffix of a
//! byte's bits, which is the reference meaning of the parallel XOR scans.

use vstd::prelude::*;
use vstd::arithmetic::div_mod::{lemma_div_basics_2, lemma_div_denominator};
use vstd::arithmetic::power2::{lemma2_to64, lemma_pow2_pos, lemma_pow2_unfold, pow2};
use crate::{Coordinate, CurveIdx, NumBits};

verus! {

/// Whether bit `i` (counting from the least significant end) of `x` is set
pub open spec fn bit16(x: u16, i: u16) -> bool {
    (x >> i) & 1 == 1
}

/// Whether bit `i` (counting from the least significant end) of `x` is set
pub open spec fn bit8(x: u8, i: u8) -> bool {
    (x >> i) & 1 == 1
}

/// XOR of bits `i..8` of `x`: the prefix of a left-to-right scan that ends at
/// bit `i`, when bits are read from the most significant end down
pub open spec fn xor_bits_from(x: u8, i: int) -> bool
    decreases 8 - i,
{
    if i < 0 || i >= 8 {
        false
    } else {
        bit8(x, i as u8) != xor_bits_from(x, i + 1)
    }
}

/// How bits of `a & b`, `a | b`, `a ^ b`, `!a` and `a >> s` relate to the
/// bits of `a` and `b`
pub proof fn lemma_bit8_ops(a: u8, b: u8)
    by (bit_vector)
    ensures
        forall|i: u8| i < 8 ==> #[trigger] bit8(a & b, i) == (bit8(a, i) && bit8(b, i)),
        forall|i: u8| i < 8 ==> #[trigger] bit8(a | b, i) == (bit8(a, i) || bit8(b, i)),
        forall|i: u8| i < 8 ==> #[trigger] bit8(a ^ b, i) == (bit8(a, i) != bit8(b, i)),
        forall|i: u8| i < 8 ==> #[trigger] bit8(!a, i) == !bit8(a, i),
        forall|i: u8, s: u8|
            i < 8 && s < 8 ==> #[trigger] bit8(a >> s, i) == (i + s < 8 && bit8(
                a,
                (i + s) as u8,
            )),
{
}

/// Two bytes with the same bits are the same byte
pub proof fn lemma_bit8_ext(a: u8, b: u8)
    requires
        forall|i: u8| i < 8 ==> #[trigger] bit8(a, i) == bit8(b, i),
    ensures
        a == b,
{
    assert(bit8(a, 0) == bit8(b, 0) && bit8(a, 1) == bit8(b, 1) && bit8(a, 2) == bit8(b, 2)
        && bit8(a, 3) == bit8(b, 3) && bit8(a, 4) == bit8(b, 4) && bit8(a, 5) == bit8(b, 5)
        && bit8(a, 6) == bit8(b, 6) && bit8(a, 7) == bit8(b, 7));
    assert(a == b) by (bit_vector)
        requires
            bit8(a, 0) == bit8(b, 0),
            bit8(a, 1) == bit8(b, 1),
            bit8(a, 2) == bit8(b, 2),
            bit8(a, 3) == bit8(b, 3),
            bit8(a, 4) == bit8(b, 4),
            bit8(a, 5) == bit8(b, 5),
            bit8(a, 6) == bit8(b, 6),
            bit8(a, 7) == bit8(b, 7),
    ;
}

/// Reading a bit is dividing by a power of two and keeping the parity
pub proof fn lemma_bit16_as_div(c: u16, k: nat)
    requires
        k < 16,
    ensures
        bit16(c, k as u16) <==> ((c as nat) / pow2(k)) % 2 == 1,
    decreases k,
{
    if k == 0 {
        lemma2_to64();
        lemma_div_basics_2(c as int);
        assert(bit16(c, 0) <==> c % 2u16 == 1) by (bit_vector);
    } else {
        let half = c >> 1u16;
        lemma_bit16_as_div(half, (k - 1) as nat);
        let ku = k as u16;
        assert(bit16(c, ku) == bit16(c >> 1u16, (ku - 1) as u16)) by (bit_vector)
            requires
                1 <= ku < 16,
        ;
        assert((c >> 1u16) == c / 2u16) by (bit_vector);
        lemma_pow2_pos((k - 1) as nat);
        lemma_div_denominator(
            c as int,
            2,
            pow2((k - 1) as nat) as int,
        );
        lemma_pow2_unfold(k);
    }
}

/// Reading a bit is dividing by a power of two and keeping the parity
pub proof fn lemma_bit8_as_div(x: u8, k: nat)
    requires
        k < 8,
    ensures
        bit8(x, k as u8) <==> ((x as nat) / pow2(k)) % 2 == 1,
    decreases k,
{
    if k == 0 {
        lemma2_to64();
        lemma_div_basics_2(x as int);
        assert(bit8(x, 0) <==> x % 2u8 == 1) by (bit_vector);
    } else {
        let half = x >> 1u8;
        lemma_bit8_as_div(half, (k - 1) as nat);
        let ku = k as u8;
        assert(bit8(x, ku) == bit8(x >> 1u8, (ku - 1) as u8)) by (bit_vector)
            requires
                1 <= ku < 8,
        ;
        assert((x >> 1u8) == x / 2u8) by (bit_vector);
        lemma_pow2_pos((k - 1) as nat);
        lemma_div_denominator(
            x as int,
            2,
            pow2((k - 1) as nat) as int,
        );
        lemma_pow2_unfold(k);
    }
}

/// Count the number of bits of an integer representation
///
/// The width is a compile-time constant per type; the precondition only rules
/// out representations too wide for the result type to count.
pub fn num_bits<T>() -> (r: NumBits)
    requires
        vstd::layout::size_of::<T>() * 8 <= u32::MAX,
    ensures
        r as nat == vstd::layout::size_of::<T>() * 8,
{
    let bytes: usize = core::mem::size_of::<T>();
    (bytes * 8) as NumBits
}

/// Generate a mask that selects a certain number of low-order bits: 0000...0011
///
/// A length of zero yields zero; lengths of `num_bits::<CurveIdx>()` or more
/// saturate to the all-ones value.
pub fn low_order_mask(length: NumBits) -> (r: CurveIdx)
    ensures
        forall|i: u16| i < 16 ==> (#[trigger] bit16(r, i) <==> (i as NumBits) < length),
{
    if length < 16 {
        let l = length as u16;
        proof {
            assert(l < 16 ==> 1u16 << l >= 1) by (bit_vector);
        }
        let r = (1u16 << l) - 1;
        proof {
            assert(forall|i: u16| i < 16 ==> (#[trigger] bit16(r, i) <==> i < l))
                by (bit_vector)
                requires
                    l < 16,
                    r == (1u16 << l) - 1,
            ;
        }
        r
    } else {
        proof {
            assert(forall|i: u16| i < 16 ==> #[trigger] bit16(0xffffu16, i)) by (bit_vector);
        }
        0xffffu16
    }
}

/// One bit of the freshly generated low-order stripe, before any doubling
proof fn lemma_stripes_init(l: u32, c: u32, stripes: u16, i: u16)
    by (bit_vector)
    requires
        1 <= l < 8,
        c == 2 * l,
        i < 16,
        bit16(stripes, i) <==> (i as u32) < l,
    ensures
        bit16(stripes, i) <==> ((i as u32) < c && ((i as u32) / l) % 2 == 0),
{
}

/// One bit after OR-ing in a copy of the pattern shifted left by its length
proof fn lemma_stripes_step(l: u32, c: u32, prev: u16, next: u16, i: u16)
    by (bit_vector)
    requires
        1 <= l < 8,
        c == 2 * l || c == 4 * l || c == 8 * l,
        c < 16,
        next == prev | (prev << (c as u16)),
        i < 16,
        bit16(prev, i) <==> ((i as u32) < c && ((i as u32) / l) % 2 == 0),
        i as u32 >= c ==> (bit16(prev, (i - c as u16) as u16) <==> (((i - c as u16) as u32) < c
            && (((i - c as u16) as u32) / l) % 2 == 0)),
    ensures
        bit16(next, i) <==> ((i as u32) < 2 * c && ((i as u32) / l) % 2 == 0),
{
}

/// One bit of a saturated stripe, whose length is at least half the width
proof fn lemma_stripes_wide(l: u32, stripes: u16, i: u16)
    by (bit_vector)
    requires
        8 <= l,
        i < 16,
        bit16(stripes, i) <==> (i as u32) < l,
    ensures
        bit16(stripes, i) <==> ((i as u32) / l) % 2 == 0,
{
}

/// Generate a mask with an alternating "striped" bit pattern: 00110011...0011
///
/// Bit `i` of the result is set exactly when `i / stripe_length` is even, so
/// the `stripe_length` lowest-order bits are set, the next `stripe_length`
/// bits are clear, and so on across the full width.
pub fn striped_mask(stripe_length: NumBits) -> (r: CurveIdx)
    requires
        1 <= stripe_length,
    ensures
        forall|i: u16|
            i < 16 ==> (#[trigger] bit16(r, i) <==> ((i as NumBits) / stripe_length) % 2 == 0),
{
    // Generate the stripes by repeatedly doubling the filled pattern
    let mut stripes = low_order_mask(stripe_length);
    if stripe_length < 8 {
        let mut curr_length: NumBits = 2 * stripe_length;
        proof {
            assert forall|i: u16|
                i < 16 implies (#[trigger] bit16(stripes, i) <==> ((i as u32) < curr_length && ((
            i as u32) / stripe_length) % 2 == 0)) by {
                lemma_stripes_init(stripe_length, curr_length, stripes, i);
            }
        }
        while curr_length < 16
            invariant
                1 <= stripe_length < 8,
                curr_length == 2 * stripe_length || curr_length == 4 * stripe_length
                    || curr_length == 8 * stripe_length || curr_length == 16 * stripe_length,
                2 * stripe_length <= curr_length <= 32,
                forall|i: u16|
                    i < 16 ==> (#[trigger] bit16(stripes, i) <==> ((i as u32) < curr_length && ((
                    i as u32) / stripe_length) % 2 == 0)),
            decreases 32 - curr_length,
        {
            let ghost prev = stripes;
            let ghost prev_length = curr_length;
            stripes = stripes | (stripes << (curr_length as u16));
            curr_length = curr_length * 2;
            proof {
                assert forall|i: u16|
                    i < 16 implies (#[trigger] bit16(stripes, i) <==> ((i as u32) < curr_length
                && ((i as u32) / stripe_length) % 2 == 0)) by {
                    if i as u32 >= prev_length {
                        assert(bit16(prev, (i - prev_length as u16) as u16) <==> (((i
                            - prev_length as u16) as u32) < prev_length && (((i
                            - prev_length as u16) as u32) / stripe_length) % 2 == 0));
                    }
                    lemma_stripes_step(stripe_length, prev_length, prev, stripes, i);
                }
            }
        }
    } else {
        proof {
            assert forall|i: u16|
                i < 16 implies (#[trigger] bit16(stripes, i) <==> (((i as u32) / stripe_length)
            % 2 == 0)) by {
                lemma_stripes_wide(stripe_length, stripes, i);
            }
        }
    }
    stripes
}

/// Bits `i..8` of `v >> 1` XOR together like bits `(i + 1)..8` of `v`
proof fn lemma_xor_bits_from_shr(x: u8, i: int)
    requires
        0 <= i <= 8,
    ensures
        xor_bits_from(x >> 1, i) == xor_bits_from(x, i + 1),
    decreases 8 - i,
{
    if i < 8 {
        lemma_xor_bits_from_shr(x, i + 1);
        assert(forall|j: u8| j < 7 ==> #[trigger] bit8(x >> 1, j) == bit8(x, (j + 1) as u8))
            by (bit_vector);
        assert(bit8(x >> 1, 7) == false) by (bit_vector);
    }
}

/// The bits of the fully folded value `x ^ (x >> 1) ^ ... ^ (x >> 7)` are the
/// suffix XORs of the bits of `x`
proof fn lemma_suffix_xor_bits(x: u8, r: u8, i: u8)
    requires
        i < 8,
        r == x ^ (x >> 1) ^ (x >> 2) ^ (x >> 3) ^ (x >> 4) ^ (x >> 5) ^ (x >> 6) ^ (x >> 7),
    ensures
        bit8(r, i) == xor_bits_from(x, i as int),
    decreases 8 - i,
{
    if i == 7 {
        assert(bit8(r, 7) == bit8(x, 7)) by (bit_vector)
            requires
                r == x ^ (x >> 1) ^ (x >> 2) ^ (x >> 3) ^ (x >> 4) ^ (x >> 5) ^ (x >> 6) ^ (x
                    >> 7),
        ;
        assert(xor_bits_from(x, 8) == false);
    } else {
        lemma_suffix_xor_bits(x, r, (i + 1) as u8);
        assert(bit8(r, i) == (bit8(x, i) != bit8(r, (i + 1) as u8))) by (bit_vector)
            requires
                i < 7,
                r == x ^ (x >> 1) ^ (x >> 2) ^ (x >> 3) ^ (x >> 4) ^ (x >> 5) ^ (x >> 6) ^ (x
                    >> 7),
        ;
    }
}

/// Compute the left-to-right inclusive XOR scan of an integer's bits
///
/// Given an integer with bits [ x1 x2 x3 ... ], this produces another integer
/// with bits [ x1  x1^x2  x1^x2^x3 ... ]. This is a bitwise implementation of
/// the Hillis/Steele parallel inclusive scan algorithm: XOR-ing in a copy of
/// the value shifted right by a doubling stride folds in prefixes from
/// exponentially farther positions.
pub fn bitwise_xor_ltr_inclusive_scan(bits: Coordinate) -> (r: Coordinate)
    ensures
        forall|i: u8| i < 8 ==> #[trigger] bit8(r, i) == xor_bits_from(bits, i as int),
{
    // Stride 1, then 2, then 4: every stride below the bit width
    let fold1 = bits ^ (bits >> 1);
    let fold2 = fold1 ^ (fold1 >> 2);
    let fold4 = fold2 ^ (fold2 >> 4);
    proof {
        assert(fold4 == bits ^ (bits >> 1) ^ (bits >> 2) ^ (bits >> 3) ^ (bits >> 4) ^ (bits
            >> 5) ^ (bits >> 6) ^ (bits >> 7))
            by (bit_vector)
            requires
                fold1 == bits ^ (bits >> 1),
                fold2 == fold1 ^ (fold1 >> 2),
                fold4 == fold2 ^ (fold2 >> 4),
        ;
        assert forall|i: u8| i < 8 implies #[trigger] bit8(fold4, i) == xor_bits_from(
            bits,
            i as int,
        ) by {
            lemma_suffix_xor_bits(bits, fold4, i);
        }
    }
    fold4
}

/// Compute the left-to-right exclusive XOR scan of an integer's bits
///
/// Given an integer with bits [ x1 x2 x3 x4 ... ], this produces another
/// integer with bits [ 0  x1  x1^x2  x1^x2^x3 ... ]: each bit's own value is
/// left out of its prefix.
pub fn bitwise_xor_ltr_exclusive_scan(bits: Coordinate) -> (r: Coordinate)
    ensures
        forall|i: u8| i < 8 ==> #[trigger] bit8(r, i) == xor_bits_from(bits, i as int + 1),
{
    let r = bitwise_xor_ltr_inclusive_scan(bits >> 1);
    proof {
        assert forall|i: u8| i < 8 implies #[trigger] bit8(r, i) == xor_bits_from(
            bits,
            i as int + 1,
        ) by {
            assert(bit8(r, i) == xor_bits_from(bits >> 1, i as int));
            lemma_xor_bits_from_shr(bits, i as int);
        }
    }
    r
}

/// Conditionally swap two integers' bits according to a mask
///
/// Where a mask bit is clear, the first output keeps the first source's bit
/// and the second output the second source's; where a mask bit is set, the two
/// sources' bits trade places.
pub fn bitwise_swaps(swap_mask: Coordinate, src1: Coordinate, src2: Coordinate) -> (r: [Coordinate;
    2])
    ensures
        forall|i: u8|
            i < 8 ==> #[trigger] bit8(r[0], i) == (if bit8(swap_mask, i) {
                bit8(src2, i)
            } else {
                bit8(src1, i)
            }),
        forall|i: u8|
            i < 8 ==> #[trigger] bit8(r[1], i) == (if bit8(swap_mask, i) {
                bit8(src1, i)
            } else {
                bit8(src2, i)
            }),
{
    let same_mask = !swap_mask;
    let res1 = (src1 & same_mask) | (src2 & swap_mask);
    let res2 = (src2 & same_mask) | (src1 & swap_mask);
    proof {
        assert(forall|i: u8|
            i < 8 ==> #[trigger] bit8(res1, i) == (if bit8(swap_mask, i) {
                bit8(src2, i)
            } else {
                bit8(src1, i)
            }))
            by (bit_vector)
            requires
                res1 == (src1 & !swap_mask) | (src2 & swap_mask),
        ;
        assert(forall|i: u8|
            i < 8 ==> #[trigger] bit8(res2, i) == (if bit8(swap_mask, i) {
                bit8(src1, i)
            } else {
                bit8(src2, i)
            }))
            by (bit_vector)
            requires
                res2 == (src2 & !swap_mask) | (src1 & swap_mask),
        ;
    }
    [res1, res2]
}

/// The exclusive XOR scan of a value is its inclusive XOR scan shifted right
/// by one bit
pub proof fn lemma_exclusive_scan_shifts_inclusive(x: u8, inc: u8, exc: u8)
    requires
        forall|i: u8| i < 8 ==> #[trigger] bit8(inc, i) == xor_bits_from(x, i as int),
        forall|i: u8| i < 8 ==> #[trigger] bit8(exc, i) == xor_bits_from(x, i as int + 1),
    ensures
        exc == inc >> 1,
{
    lemma_bit8_ops(inc, 0);
    assert forall|i: u8| i < 8 implies #[trigger] bit8(exc, i) == bit8(inc >> 1, i) by {
        assert(bit8(inc >> 1, i) == (i + 1 < 8 && bit8(inc, (i + 1) as u8)));
        if i < 7 {
            assert(bit8(inc, (i + 1) as u8) == xor_bits_from(x, i as int + 1));
        } else {
            assert(xor_bits_from(x, 8) == false);
        }
    }
    lemma_bit8_ext(exc, inc >> 1);
}

/// Applying `bitwise_swaps` twice with the same mask restores both sources
pub proof fn lemma_bitwise_swaps_involutive(
    mask: u8,
    src1: u8,
    src2: u8,
    once: [u8; 2],
    twice: [u8; 2],
)
    requires
        forall|i: u8|
            i < 8 ==> #[trigger] bit8(once[0], i) == (if bit8(mask, i) {
                bit8(src2, i)
            } else {
                bit8(src1, i)
            }),
        forall|i: u8|
            i < 8 ==> #[trigger] bit8(once[1], i) == (if bit8(mask, i) {
                bit8(src1, i)
            } else {
                bit8(src2, i)
            }),
        forall|i: u8|
            i < 8 ==> #[trigger] bit8(twice[0], i) == (if bit8(mask, i) {
                bit8(once[1], i)
            } else {
                bit8(once[0], i)
            }),
        forall|i: u8|
            i < 8 ==> #[trigger] bit8(twice[1], i) == (if bit8(mask, i) {
                bit8(once[0], i)
            } else {
                bit8(once[1], i)
            }),
    ensures
        twice[0] == src1,
        twice[1] == src2,
{
    assert forall|i: u8| i < 8 implies #[trigger] bit8(twice[0], i) == bit8(src1, i) by {
        assert(bit8(once[0], i) == (if bit8(mask, i) { bit8(src2, i) } else { bit8(src1, i) }));
        assert(bit8(once[1], i) == (if bit8(mask, i) { bit8(src1, i) } else { bit8(src2, i) }));
    }
    assert forall|i: u8| i < 8 implies #[trigger] bit8(twice[1], i) == bit8(src2, i) by {
        assert(bit8(once[0], i) == (if bit8(mask, i) { bit8(src2, i) } else { bit8(src1, i) }));
        assert(bit8(once[1], i) == (if bit8(mask, i) { bit8(src1, i) } else { bit8(src2, i) }));
    }
    lemma_bit8_ext(twice[0], src1);
    lemma_bit8_ext(twice[1], src2);
}

} // verus!
