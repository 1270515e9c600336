//! Utilities related to the Hilbert space-filling curve

use vstd::prelude::*;
use vstd::arithmetic::div_mod::{
    lemma_div_basics_1, lemma_div_basics_2, lemma_div_denominator, lemma_fundamental_div_mod,
    lemma_fundamental_div_mod_converse, lemma_mod_breakdown, lemma_small_mod,
};
use vstd::arithmetic::power2::{
    lemma2_to64, lemma_pow2_adds, lemma_pow2_pos, lemma_pow2_unfold, pow2,
};
use crate::bits;
use crate::bits::{bit16, bit8, xor_bits_from};
use crate::morton;
use crate::{Coordinates2D, CurveIdx};

verus! {

// A Hilbert curve index reads, from its most significant end, as a sequence
// of 8 bit pairs [ i1 j1 i2 j2 ... i8 j8 ]: pair (id, jd) selects the
// quadrant visited at recursion depth d (depth 0 being the coarsest). The
// specification below walks those pairs from the top, carrying two state
// bits: whether the axes of the current sub-pattern are swapped and whether
// its coordinates are inverted, each toggled by the shallower depths.
/// Bit `id` of the pair that `code` holds for recursion depth `d`
pub open spec fn code_hi_bit(code: CurveIdx, d: int) -> bool {
    bit16(code, (15 - 2 * d) as u16)
}

/// Bit `jd` of the pair that `code` holds for recursion depth `d`
pub open spec fn code_lo_bit(code: CurveIdx, d: int) -> bool {
    bit16(code, (14 - 2 * d) as u16)
}

/// Whether the two coordinate axes are swapped at depth `d`: a swap is
/// ordered at every shallower depth whose bit pair has `id == jd`, and
/// swaps cancel in pairs
pub open spec fn swap_state(code: CurveIdx, d: int) -> bool
    decreases d,
{
    if d <= 0 {
        false
    } else {
        swap_state(code, d - 1) != !(code_hi_bit(code, d - 1) != code_lo_bit(code, d - 1))
    }
}

/// Whether the coordinates are inverted at depth `d`: an inversion is
/// ordered at every shallower depth whose bit pair is (1, 1), and
/// inversions cancel in pairs
pub open spec fn invert_state(code: CurveIdx, d: int) -> bool
    decreases d,
{
    if d <= 0 {
        false
    } else {
        invert_state(code, d - 1) != (code_hi_bit(code, d - 1) && code_lo_bit(code, d - 1))
    }
}

/// The x coordinate's bit for depth `d`: the base ]-shaped motif has raw
/// coordinates (id XOR jd, id), to which the accumulated swap and inversion
/// of the shallower depths apply
pub open spec fn hilbert_x_bit(code: CurveIdx, d: int) -> bool {
    let raw_x = code_hi_bit(code, d) != code_lo_bit(code, d);
    let raw_y = code_hi_bit(code, d);
    (if swap_state(code, d) {
        raw_y
    } else {
        raw_x
    }) != invert_state(code, d)
}

/// The y coordinate's bit for depth `d`
pub open spec fn hilbert_y_bit(code: CurveIdx, d: int) -> bool {
    let raw_x = code_hi_bit(code, d) != code_lo_bit(code, d);
    let raw_y = code_hi_bit(code, d);
    (if swap_state(code, d) {
        raw_x
    } else {
        raw_y
    }) != invert_state(code, d)
}

/// Whether `pt` holds the point of the Hilbert curve at index `code`: bit
/// `p` of each coordinate is the bit that recursion depth `7 - p` decides
pub open spec fn hilbert_decoded(code: CurveIdx, pt: Coordinates2D) -> bool {
    &&& forall|p: u8| p < 8 ==> #[trigger] bit8(pt[0], p) == hilbert_x_bit(code, 7 - p as int)
    &&& forall|p: u8| p < 8 ==> #[trigger] bit8(pt[1], p) == hilbert_y_bit(code, 7 - p as int)
}

/// A Hilbert index has exactly one decoding: any two points that both
/// satisfy `hilbert_decoded` for the same index are the same point, so the
/// per-depth reference construction fully determines `decode_2d`'s result
pub proof fn lemma_hilbert_decoded_unique(code: CurveIdx, a: Coordinates2D, b: Coordinates2D)
    requires
        hilbert_decoded(code, a),
        hilbert_decoded(code, b),
    ensures
        a[0] == b[0],
        a[1] == b[1],
{
    assert forall|p: u8| p < 8 implies #[trigger] bit8(a[0], p) == bit8(b[0], p) by {
        assert(bit8(a[0], p) == hilbert_x_bit(code, 7 - p as int));
        assert(bit8(b[0], p) == hilbert_x_bit(code, 7 - p as int));
    }
    assert forall|p: u8| p < 8 implies #[trigger] bit8(a[1], p) == bit8(b[1], p) by {
        assert(bit8(a[1], p) == hilbert_y_bit(code, 7 - p as int));
        assert(bit8(b[1], p) == hilbert_y_bit(code, 7 - p as int));
    }
    bits::lemma_bit8_ext(a[0], b[0]);
    bits::lemma_bit8_ext(a[1], b[1]);
}

/// The exclusive XOR scan of the word whose bit `p` says "depth `7 - p`
/// orders an axis swap" accumulates exactly the swap state of each depth
proof fn lemma_scan_matches_swap_state(code: CurveIdx, nx: u8, q: int)
    requires
        0 <= q <= 8,
        forall|p: u8|
            p < 8 ==> #[trigger] bit8(nx, p) == !(code_hi_bit(code, 7 - p as int) != code_lo_bit(
                code,
                7 - p as int,
            )),
    ensures
        xor_bits_from(nx, q) == swap_state(code, 8 - q),
    decreases 8 - q,
{
    if q < 8 {
        lemma_scan_matches_swap_state(code, nx, q + 1);
        assert(bit8(nx, q as u8) == !(code_hi_bit(code, 7 - q) != code_lo_bit(code, 7 - q)));
    }
}

/// The exclusive XOR scan of the word whose bit `p` says "depth `7 - p`
/// orders an inversion" accumulates exactly the inversion state of each depth
proof fn lemma_scan_matches_invert_state(code: CurveIdx, ab: u8, q: int)
    requires
        0 <= q <= 8,
        forall|p: u8|
            p < 8 ==> #[trigger] bit8(ab, p) == (code_hi_bit(code, 7 - p as int) && code_lo_bit(
                code,
                7 - p as int,
            )),
    ensures
        xor_bits_from(ab, q) == invert_state(code, 8 - q),
    decreases 8 - q,
{
    if q < 8 {
        lemma_scan_matches_invert_state(code, ab, q + 1);
        assert(bit8(ab, q as u8) == (code_hi_bit(code, 7 - q) && code_lo_bit(code, 7 - q)));
    }
}

/// Compute the coordinates of the i-th point of a ]-shaped Hilbert curve
///
/// Compared to the Morton curve, the Hilbert curve never jumps across space:
/// it always moves from one point of space to one of its direct neighbors.
/// The price to pay for this superior spatial locality is a more complex
/// geometrical pattern, based on recursively transformed ]-like shapes.
///
/// A Morton decode first splits the index into the per-depth quadrant bits.
/// The base motif visits its four points at Gray-code coordinates, and each
/// depth orders an axis swap or a coordinate inversion for all deeper
/// depths; both corrections are involutions, so whether one is active at a
/// given depth is the XOR of the orders of all shallower depths, which a
/// single parallel prefix XOR scan accumulates. A masked conditional bit
/// swap and a final XOR then apply the corrections to every depth at once.
pub fn decode_2d(code: CurveIdx) -> (r: Coordinates2D)
    ensures
        hilbert_decoded(code, r),
{
    // Separate the index's bit pairs into [ j1 j2 ... j8 ] and
    // [ i1 i2 ... i8 ]
    let sub_codes = morton::decode_2d(code);
    let low_order = sub_codes[0];
    let high_order = sub_codes[1];

    // Per-depth binary combinations that drive the walk through the basic
    // ]-shaped pattern and the recursive corrections
    let and_bits = low_order & high_order;  // Orders coordinate inversion
    let xor_bits = low_order ^ high_order;  // Basic pattern's x coordinate
    let not_xor_bits = !xor_bits;  // Orders coordinate swapping

    // Accumulate the corrections ordered by all shallower depths
    let coord_swap_bits = bits::bitwise_xor_ltr_exclusive_scan(not_xor_bits);
    let coord_not_bits = bits::bitwise_xor_ltr_exclusive_scan(and_bits);

    // Apply the accumulated corrections to the top-level Gray code
    // coordinates, for every depth at once
    let swapped = bits::bitwise_swaps(coord_swap_bits, xor_bits, high_order);
    let x = swapped[0] ^ coord_not_bits;
    let y = swapped[1] ^ coord_not_bits;
    proof {
        bits::lemma_bit8_ops(low_order, high_order);
        bits::lemma_bit8_ops(xor_bits, high_order);
        bits::lemma_bit8_ops(swapped[0], coord_not_bits);
        bits::lemma_bit8_ops(swapped[1], coord_not_bits);
        assert forall|p: u8| p < 8 implies #[trigger] bit8(and_bits, p) == (code_hi_bit(
            code,
            7 - p as int,
        ) && code_lo_bit(code, 7 - p as int)) by {
            assert(bit8(low_order, p) == bit16(code, (2 * p) as u16));
            assert(bit8(high_order, p) == bit16(code, (2 * p + 1) as u16));
        }
        assert forall|p: u8| p < 8 implies #[trigger] bit8(not_xor_bits, p) == !(code_hi_bit(
            code,
            7 - p as int,
        ) != code_lo_bit(code, 7 - p as int)) by {
            assert(bit8(low_order, p) == bit16(code, (2 * p) as u16));
            assert(bit8(high_order, p) == bit16(code, (2 * p + 1) as u16));
            assert(bit8(xor_bits, p) == (bit8(low_order, p) != bit8(high_order, p)));
        }
        assert forall|p: u8| p < 8 implies #[trigger] bit8(x, p) == hilbert_x_bit(
            code,
            7 - p as int,
        ) by {
            let d = 7 - p as int;
            lemma_scan_matches_swap_state(code, not_xor_bits, p as int + 1);
            lemma_scan_matches_invert_state(code, and_bits, p as int + 1);
            assert(bit8(coord_swap_bits, p) == xor_bits_from(not_xor_bits, p as int + 1));
            assert(bit8(coord_not_bits, p) == xor_bits_from(and_bits, p as int + 1));
            assert(bit8(coord_swap_bits, p) == swap_state(code, d));
            assert(bit8(coord_not_bits, p) == invert_state(code, d));
            assert(bit8(low_order, p) == bit16(code, (2 * p) as u16));
            assert(bit8(high_order, p) == bit16(code, (2 * p + 1) as u16));
            assert(bit8(xor_bits, p) == (bit8(low_order, p) != bit8(high_order, p)));
            assert(bit8(swapped[0], p) == (if bit8(coord_swap_bits, p) {
                bit8(high_order, p)
            } else {
                bit8(xor_bits, p)
            }));
            assert(bit8(x, p) == (bit8(swapped[0], p) != bit8(coord_not_bits, p)));
        }
        assert forall|p: u8| p < 8 implies #[trigger] bit8(y, p) == hilbert_y_bit(
            code,
            7 - p as int,
        ) by {
            let d = 7 - p as int;
            lemma_scan_matches_swap_state(code, not_xor_bits, p as int + 1);
            lemma_scan_matches_invert_state(code, and_bits, p as int + 1);
            assert(bit8(coord_swap_bits, p) == xor_bits_from(not_xor_bits, p as int + 1));
            assert(bit8(coord_not_bits, p) == xor_bits_from(and_bits, p as int + 1));
            assert(bit8(coord_swap_bits, p) == swap_state(code, d));
            assert(bit8(coord_not_bits, p) == invert_state(code, d));
            assert(bit8(low_order, p) == bit16(code, (2 * p) as u16));
            assert(bit8(high_order, p) == bit16(code, (2 * p + 1) as u16));
            assert(bit8(xor_bits, p) == (bit8(low_order, p) != bit8(high_order, p)));
            assert(bit8(swapped[1], p) == (if bit8(coord_swap_bits, p) {
                bit8(xor_bits, p)
            } else {
                bit8(high_order, p)
            }));
            assert(bit8(y, p) == (bit8(swapped[1], p) != bit8(coord_not_bits, p)));
        }
    }
    [x, y]
}

/// Absolute difference of two point coordinates
pub open spec fn abs_diff(a: nat, b: nat) -> int {
    if a >= b {
        a - b
    } else {
        b - a
    }
}

/// Manhattan (taxicab) distance between two grid points
pub open spec fn manhattan_distance(a: (nat, nat), b: (nat, nat)) -> int {
    abs_diff(a.0, b.0) + abs_diff(a.1, b.1)
}

/// Point of an order-`n` Hilbert curve at index `c`, by recursive descent
///
/// This is the textbook geometric construction: the top bit pair of `c`
/// picks a quadrant of the ]-shaped motif under the current swap/inversion
/// state `(s, v)`, contributes the high bit of each coordinate, and recursion
/// into the quadrant continues with the state corrected for it. Intended for
/// `c < pow2(2 * n)`; the flat bitwise formulation above computes the same
/// points in logarithmic time.
pub open spec fn hilbert_point(n: nat, c: nat, s: bool, v: bool) -> (nat, nat)
    decreases n,
{
    if n == 0 {
        (0nat, 0nat)
    } else {
        let p = pow2((2 * n - 2) as nat);
        let quad = c / p;
        let hi = quad >= 2;
        let lo = quad % 2 == 1;
        let raw_x = hi != lo;
        let raw_y = hi;
        let xb = (if s {
            raw_y
        } else {
            raw_x
        }) != v;
        let yb = (if s {
            raw_x
        } else {
            raw_y
        }) != v;
        let rest = hilbert_point((n - 1) as nat, c % p, s != !(hi != lo), v != (hi && lo));
        (
            (if xb {
                pow2((n - 1) as nat)
            } else {
                0nat
            }) + rest.0,
            (if yb {
                pow2((n - 1) as nat)
            } else {
                0nat
            }) + rest.1,
        )
    }
}

/// The curve of any order starts in the corner that the inversion state
/// picks: at the all-zeros point, or at the all-ones point when inverted
proof fn lemma_hilbert_point_first(n: nat, s: bool, v: bool)
    ensures
        hilbert_point(n, 0, s, v).0 == (if v {
            pow2(n) - 1
        } else {
            0int
        }),
        hilbert_point(n, 0, s, v).1 == (if v {
            pow2(n) - 1
        } else {
            0int
        }),
    decreases n,
{
    if n == 0 {
        lemma2_to64();
    } else {
        let p = pow2((2 * n - 2) as nat);
        lemma_pow2_pos((2 * n - 2) as nat);
        lemma_div_basics_1(p as int);
        lemma_small_mod(0, p);
        lemma_hilbert_point_first((n - 1) as nat, !s, v);
        lemma_pow2_unfold(n);
    }
}

/// The curve of any order ends one axis away from a corner: on the corner
/// column picked by the swap/inversion parity, at its far row
proof fn lemma_hilbert_point_last(n: nat, s: bool, v: bool)
    ensures
        hilbert_point(n, (pow2((2 * n) as nat) - 1) as nat, s, v).0 == (if s != v {
            pow2(n) - 1
        } else {
            0int
        }),
        hilbert_point(n, (pow2((2 * n) as nat) - 1) as nat, s, v).1 == (if s == v {
            pow2(n) - 1
        } else {
            0int
        }),
    decreases n,
{
    if n == 0 {
        lemma2_to64();
    } else {
        let p = pow2((2 * n - 2) as nat);
        let c = (pow2((2 * n) as nat) - 1) as nat;
        lemma_pow2_pos((2 * n - 2) as nat);
        lemma_pow2_adds((2 * n - 2) as nat, 2);
        lemma2_to64();
        assert(pow2((2 * n) as nat) == 4 * p);
        lemma_fundamental_div_mod_converse(c as int, p as int, 3, p as int - 1);
        assert(c % p == (pow2((2 * (n - 1)) as nat) - 1) as nat);
        lemma_hilbert_point_last((n - 1) as nat, !s, !v);
        lemma_pow2_unfold(n);
    }
}

/// Two consecutive indices of an order-`n` curve decode to grid neighbors,
/// whatever swap/inversion state the curve is entered with
#[verifier::rlimit(50)]
proof fn lemma_hilbert_point_adjacent(n: nat, c: nat, s: bool, v: bool)
    requires
        c + 1 < pow2((2 * n) as nat),
    ensures
        manhattan_distance(hilbert_point(n, c, s, v), hilbert_point(n, (c + 1) as nat, s, v))
            == 1,
    decreases n,
{
    if n == 0 {
        lemma2_to64();
    } else {
        let p = pow2((2 * n - 2) as nat);
        lemma_pow2_pos((2 * n - 2) as nat);
        lemma_pow2_adds((2 * n - 2) as nat, 2);
        lemma2_to64();
        assert(pow2((2 * n) as nat) == 4 * p);
        let quad = c / p;
        let r = c % p;
        lemma_fundamental_div_mod(c as int, p as int);
        let hi = quad >= 2;
        let lo = quad % 2 == 1;
        let s1 = s != !(hi != lo);
        let v1 = v != (hi && lo);
        if r + 1 < p {
            // The increment stays inside the current quadrant: the top bit
            // pair contributes the same high bits on both sides, and the
            // sub-curve's own consecutive points are neighbors
            lemma_fundamental_div_mod_converse(
                c as int + 1,
                p as int,
                quad as int,
                r as int + 1,
            );
            lemma_hilbert_point_adjacent((n - 1) as nat, r, s1, v1);
        } else {
            // The increment moves to the next quadrant: the previous
            // sub-curve ends on the corner where the next one starts
            assert(r == p - 1);
            assert(c as int + 1 == (quad as int + 1) * p as int) by (nonlinear_arith)
                requires
                    c as int == p as int * quad as int + r as int,
                    r == p - 1,
            ;
            assert(quad as int + 1 <= 3) by (nonlinear_arith)
                requires
                    c as int + 1 == (quad as int + 1) * p as int,
                    c as int + 1 < 4 * p as int,
                    p as int > 0,
            ;
            lemma_fundamental_div_mod_converse(
                c as int + 1,
                p as int,
                quad as int + 1,
                0,
            );
            let quad1 = (c + 1) as nat / p;
            assert(quad1 == quad + 1);
            let hi1 = quad1 >= 2;
            let lo1 = quad1 % 2 == 1;
            let s2 = s != !(hi1 != lo1);
            let v2 = v != (hi1 && lo1);
            assert(r == (pow2((2 * (n - 1)) as nat) - 1) as nat);
            lemma_hilbert_point_last((n - 1) as nat, s1, v1);
            lemma_small_mod(0, p);
            lemma_hilbert_point_first((n - 1) as nat, s2, v2);
            lemma_pow2_pos((n - 1) as nat);
            lemma_pow2_unfold(n);
            assert(quad == 0 || quad == 1 || quad == 2);
        }
    }
}

/// Splitting a value by a bit: its remainder modulo `pow2(k + 1)` is the bit
/// at position `k` weighted by `pow2(k)`, plus the remainder modulo `pow2(k)`
proof fn lemma_mod_pow2_split(t: int, k: nat)
    requires
        t >= 0,
    ensures
        t % (pow2(k + 1) as int) == pow2(k) * ((t / pow2(k) as int) % 2) + t % (pow2(k) as int),
{
    lemma_pow2_pos(k);
    lemma_mod_breakdown(t, pow2(k) as int, 2);
    lemma_pow2_unfold(k + 1);
    assert(pow2(k + 1) as int == pow2(k) as int * 2);
}

/// A byte's remainder modulo `pow2(k + 1)` is its bit at position `k`,
/// weighted by `pow2(k)`, plus its remainder modulo `pow2(k)`
proof fn lemma_byte_mod_split(w: u8, k: nat)
    requires
        k < 8,
    ensures
        (w as nat) % pow2(k + 1) == (if bit8(w, k as u8) {
            pow2(k)
        } else {
            0nat
        }) + (w as nat) % pow2(k),
{
    crate::bits::lemma_bit8_as_div(w, k);
    lemma_mod_pow2_split(w as int, k);
    lemma_pow2_pos(k);
    if bit8(w, k as u8) {
        assert(((w as int) / (pow2(k) as int)) % 2 == 1);
    } else {
        assert(((w as int) / (pow2(k) as int)) % 2 == 0);
    }
}

/// A quadrant number modulo 4 splits into the same two bits that dividing
/// twice by 2 reads
proof fn lemma_quad_split(t: int)
    requires
        t >= 0,
    ensures
        (t % 4) / 2 == (t / 2) % 2,
        (t % 4) % 2 == t % 2,
{
    lemma_mod_breakdown(t, 2, 2);
    lemma_fundamental_div_mod_converse(t % 4, 2, (t / 2) % 2, t % 2);
}

/// The two characterizations of the curve agree: a point whose coordinate
/// bits follow the flat scan-based description is the point that the
/// recursive descent computes, depth prefix by depth prefix
#[verifier::rlimit(50)]
proof fn lemma_hilbert_point_bits(code: CurveIdx, x: u8, y: u8, d0: int)
    requires
        0 <= d0 <= 8,
        forall|p: u8| p < 8 ==> #[trigger] bit8(x, p) == hilbert_x_bit(code, 7 - p as int),
        forall|p: u8| p < 8 ==> #[trigger] bit8(y, p) == hilbert_y_bit(code, 7 - p as int),
    ensures
        hilbert_point(
            (8 - d0) as nat,
            (code as nat) % pow2((16 - 2 * d0) as nat),
            swap_state(code, d0),
            invert_state(code, d0),
        ) == (((x as nat) % pow2((8 - d0) as nat), (y as nat) % pow2((8 - d0) as nat))),
    decreases 8 - d0,
{
    if d0 == 8 {
        lemma2_to64();
        lemma_fundamental_div_mod(x as int, 1);
        lemma_fundamental_div_mod(y as int, 1);
        lemma_div_basics_2(x as int);
        lemma_div_basics_2(y as int);
    } else {
        let n = (8 - d0) as nat;
        let p = pow2((2 * n - 2) as nat);
        let cn = (code as nat) % pow2((2 * n) as nat);
        lemma_pow2_pos((2 * n - 2) as nat);
        lemma_pow2_adds((2 * n - 2) as nat, 2);
        lemma2_to64();
        assert(pow2((2 * n) as nat) == 4 * p);

        // The quadrant the descent reads is the bit pair the flat model reads
        let ci = code as int;
        let pi = p as int;
        lemma_mod_breakdown(ci, pi, 4);
        assert(ci % (pi * 4) == pi * ((ci / pi) % 4) + ci % pi);
        let quarter = ((code as nat) / p) % 4;
        assert(quarter as int == (ci / pi) % 4);
        assert(cn as int == ci % (pi * 4));
        assert(cn as int == (quarter as int) * pi + ci % pi) by (nonlinear_arith)
            requires
                cn as int == pi * (quarter as int) + ci % pi,
        ;
        lemma_fundamental_div_mod_converse(cn as int, pi, quarter as int, ci % pi);
        assert(cn / p == quarter);
        assert(cn % p == (code as nat) % p);
        lemma_quad_split((code as nat / p) as int);
        lemma_div_denominator(code as int, p as int, 2);
        lemma_pow2_adds((2 * n - 2) as nat, 1);
        assert(pow2((2 * n - 1) as nat) == p * 2);
        crate::bits::lemma_bit16_as_div(code, (2 * n - 1) as nat);
        crate::bits::lemma_bit16_as_div(code, (2 * n - 2) as nat);
        let hi = quarter >= 2;
        let lo = quarter % 2 == 1;
        assert((code as nat / p) % 2 == ((code as nat) / pow2((2 * n - 2) as nat)) % 2);
        assert(lo == code_lo_bit(code, d0));
        assert((quarter / 2) % 2 == ((code as nat) / pow2((2 * n - 1) as nat)) % 2) by {
            assert(code as nat / pow2((2 * n - 1) as nat) == (code as nat / p) / 2);
            assert(quarter / 2 == ((code as nat / p) / 2) % 2) by {
                lemma_quad_split((code as nat / p) as int);
            }
            lemma_mod_mod_two((code as nat / p) as int);
        }
        assert(hi == code_hi_bit(code, d0)) by {
            assert(quarter < 4);
            assert(hi <==> quarter / 2 == 1);
            assert(quarter / 2 == (quarter / 2) % 2) by {
                assert(quarter / 2 <= 1);
                lemma_small_mod((quarter / 2) as nat, 2);
            }
        }

        // The state the descent carries into the quadrant is the flat
        // model's state one depth deeper
        assert(swap_state(code, d0 + 1) == (swap_state(code, d0) != !(code_hi_bit(code, d0)
            != code_lo_bit(code, d0))));
        assert(invert_state(code, d0 + 1) == (invert_state(code, d0) != (code_hi_bit(code, d0)
            && code_lo_bit(code, d0))));

        // The high bit each coordinate gains at this depth is the bit the
        // flat model assigns to this depth
        let pos = (7 - d0) as u8;
        assert(pos == ((n - 1) as nat) as u8);
        assert(bit8(x, pos) == hilbert_x_bit(code, d0));
        assert(bit8(y, pos) == hilbert_y_bit(code, d0));
        lemma_byte_mod_split(x, (n - 1) as nat);
        lemma_byte_mod_split(y, (n - 1) as nat);
        assert(pow2((n - 1) as nat + 1) == pow2(n)) by {
            lemma_pow2_unfold(n);
            lemma_pow2_unfold((n - 1) as nat + 1);
        }

        lemma_hilbert_point_bits(code, x, y, d0 + 1);

        // Assemble: this depth's high bit plus the deeper depths' point
        let s0 = swap_state(code, d0);
        let v0 = invert_state(code, d0);
        let raw_x = hi != lo;
        let raw_y = hi;
        let xb = (if s0 {
            raw_y
        } else {
            raw_x
        }) != v0;
        let yb = (if s0 {
            raw_x
        } else {
            raw_y
        }) != v0;
        assert(xb == hilbert_x_bit(code, d0));
        assert(yb == hilbert_y_bit(code, d0));
        let rest = hilbert_point((n - 1) as nat, cn % p, s0 != !(hi != lo), v0 != (hi && lo));
        assert(hilbert_point(n, cn, s0, v0) == ((if xb {
            pow2((n - 1) as nat)
        } else {
            0nat
        }) + rest.0, (if yb {
            pow2((n - 1) as nat)
        } else {
            0nat
        }) + rest.1));
        assert(pow2((16 - 2 * (d0 + 1)) as nat) == p);
        assert(rest == (((x as nat) % pow2((n - 1) as nat), (y as nat) % pow2(
            (n - 1) as nat,
        ))));
        assert((x as nat) % pow2(n) == (if xb {
            pow2((n - 1) as nat)
        } else {
            0nat
        }) + (x as nat) % pow2((n - 1) as nat)) by {
            assert(xb == bit8(x, ((n - 1) as nat) as u8));
            assert((x as nat) % pow2((n - 1) as nat + 1) == (if bit8(x, ((n - 1) as nat) as u8) {
                pow2((n - 1) as nat)
            } else {
                0nat
            }) + (x as nat) % pow2((n - 1) as nat));
        }
        assert((y as nat) % pow2(n) == (if yb {
            pow2((n - 1) as nat)
        } else {
            0nat
        }) + (y as nat) % pow2((n - 1) as nat)) by {
            assert(yb == bit8(y, ((n - 1) as nat) as u8));
            assert((y as nat) % pow2((n - 1) as nat + 1) == (if bit8(y, ((n - 1) as nat) as u8) {
                pow2((n - 1) as nat)
            } else {
                0nat
            }) + (y as nat) % pow2((n - 1) as nat));
        }
        assert(pow2((16 - 2 * d0) as nat) == pow2((2 * n) as nat));
    }
}

/// `(t / 2) % 2` is already a parity, so reducing it again changes nothing
proof fn lemma_mod_mod_two(t: int)
    requires
        t >= 0,
    ensures
        ((t / 2) % 2) % 2 == (t / 2) % 2,
{
    lemma_small_mod(((t / 2) % 2) as nat, 2);
}

/// Hilbert adjacency: the decodings of two consecutive curve indices always
/// sit at Manhattan distance exactly 1 in the grid
pub proof fn lemma_hilbert_adjacency(code: CurveIdx, pt: Coordinates2D, next_pt: Coordinates2D)
    requires
        code < 0xffff,
        hilbert_decoded(code, pt),
        hilbert_decoded((code + 1) as u16, next_pt),
    ensures
        manhattan_distance(
            (pt[0] as nat, pt[1] as nat),
            (next_pt[0] as nat, next_pt[1] as nat),
        ) == 1,
{
    lemma2_to64();
    lemma_hilbert_point_bits(code, pt[0], pt[1], 0);
    lemma_hilbert_point_bits((code + 1) as u16, next_pt[0], next_pt[1], 0);
    lemma_small_mod(code as nat, pow2(16));
    lemma_small_mod((code + 1) as nat, pow2(16));
    lemma_small_mod(pt[0] as nat, pow2(8));
    lemma_small_mod(pt[1] as nat, pow2(8));
    lemma_small_mod(next_pt[0] as nat, pow2(8));
    lemma_small_mod(next_pt[1] as nat, pow2(8));
    lemma_hilbert_point_adjacent(8, code as nat, false, false);
}

} // verus!
