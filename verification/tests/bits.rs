//! Tests for the bit-manipulation primitives

use space_filler::bits;
use space_filler::{Coordinate, CurveIdx, NumBits};

/// Shift a new low-order bit into a 16-bit accumulator
fn push_bit16(target: &mut u16, bit: bool) {
    *target = (*target << 1) | (bit as u16);
}

/// Shift a new low-order bit into an 8-bit accumulator
fn push_bit8(target: &mut u8, bit: bool) {
    *target = (*target << 1) | (bit as u8);
}

/// Read the low-order bit of an 8-bit accumulator
fn peek_bit8(target: u8) -> bool {
    (target & 1) == 1
}

/// Pop the low-order bit of an 8-bit accumulator
fn pop_bit8(target: &mut u8) -> bool {
    let res = peek_bit8(*target);
    *target >>= 1;
    res
}

#[test]
fn num_bits() {
    assert_eq!(bits::num_bits::<u8>(), 8);
    assert_eq!(bits::num_bits::<u16>(), 16);
    assert_eq!(bits::num_bits::<u32>(), 32);
    assert_eq!(bits::num_bits::<u64>(), 64);
    assert_eq!(bits::num_bits::<u128>(), 128);
}

#[test]
fn low_order_mask() {
    let mut expected = 0;
    for i in 0..=bits::num_bits::<CurveIdx>() {
        assert_eq!(bits::low_order_mask(i), expected);
        push_bit16(&mut expected, true);
    }
}

#[test]
fn low_order_mask_scenarios() {
    assert_eq!(bits::low_order_mask(0), 0);
    assert_eq!(bits::low_order_mask(4), 0b1111);
    assert_eq!(bits::low_order_mask(16), u16::MAX);
    assert_eq!(bits::low_order_mask(40), u16::MAX);
}

#[test]
fn striped_mask() {
    let num_bits = bits::num_bits::<CurveIdx>();
    for length in 1..num_bits {
        let stripe = bits::low_order_mask(length);
        let stripe_length = 2 * length;
        let mut mask = stripe;
        for _ in 1..(num_bits / stripe_length) + (num_bits % stripe_length != 0) as NumBits {
            mask = (mask << stripe_length) | stripe;
        }
        assert_eq!(
            bits::striped_mask(length),
            mask,
            "Unexpected striped mask for length {}",
            length
        );
    }
}

#[test]
fn striped_mask_scenarios() {
    assert_eq!(bits::striped_mask(1), 0b0101010101010101);
    assert_eq!(bits::striped_mask(2), 0b0011001100110011);
    assert_eq!(bits::striped_mask(8), 0x00ff);
    assert_eq!(bits::striped_mask(16), u16::MAX);
}

fn ltr_inclusive_scan(input: Coordinate, op: fn(bool, bool) -> bool, neutral: bool) -> Coordinate {
    let mut input_buf = input.reverse_bits();
    let mut expected = neutral as Coordinate;
    for _bit_idx in 0..bits::num_bits::<Coordinate>() {
        let input_bit = pop_bit8(&mut input_buf);
        let new_bit = op(peek_bit8(expected), input_bit);
        push_bit8(&mut expected, new_bit);
    }
    expected
}

fn bool_xor(a: bool, b: bool) -> bool {
    a ^ b
}

#[test]
fn bitwise_xor_ltr_inclusive_scan() {
    for input in 0..=Coordinate::MAX {
        assert_eq!(
            bits::bitwise_xor_ltr_inclusive_scan(input),
            ltr_inclusive_scan(input, bool_xor, false),
            "Unexpected inclusive XOR scan result for input {:08b}",
            input
        );
    }
}

#[test]
fn bitwise_xor_ltr_exclusive_scan() {
    for input in 0..=Coordinate::MAX {
        assert_eq!(
            bits::bitwise_xor_ltr_exclusive_scan(input),
            bits::bitwise_xor_ltr_inclusive_scan(input) >> 1,
            "Unexpected exclusive XOR scan result for input {:08b}",
            input
        );
    }
}

/// Reference bit-by-bit implementation of the conditional swap
fn naive_bitwise_swaps(mask: Coordinate, src1: Coordinate, src2: Coordinate) -> [Coordinate; 2] {
    let [mut mask_buf, mut src1_buf, mut src2_buf] = [mask, src1, src2];
    let mut results = [0 as Coordinate; 2];
    for _bit_idx in 0..bits::num_bits::<Coordinate>() {
        match pop_bit8(&mut mask_buf) {
            false => {
                push_bit8(&mut results[0], pop_bit8(&mut src1_buf));
                push_bit8(&mut results[1], pop_bit8(&mut src2_buf));
            }
            true => {
                push_bit8(&mut results[0], pop_bit8(&mut src2_buf));
                push_bit8(&mut results[1], pop_bit8(&mut src1_buf));
            }
        }
    }
    for result in &mut results {
        *result = result.reverse_bits();
    }
    results
}

#[test]
fn bitwise_swaps_matches_naive() {
    // Sweep a varied sample of the parameter space against the reference
    for mask in (0..=Coordinate::MAX).step_by(7) {
        for src1 in (0..=Coordinate::MAX).step_by(13) {
            for src2 in (0..=Coordinate::MAX).step_by(17) {
                assert_eq!(
                    bits::bitwise_swaps(mask, src1, src2),
                    naive_bitwise_swaps(mask, src1, src2),
                    "Unexpected bitwise swap result for src1={:08b}, src2={:08b}, mask={:08b}",
                    src1,
                    src2,
                    mask
                );
            }
        }
    }
}

#[test]
fn bitwise_swaps_involutive() {
    for mask in (0..=Coordinate::MAX).step_by(3) {
        for src1 in (0..=Coordinate::MAX).step_by(11) {
            for src2 in (0..=Coordinate::MAX).step_by(19) {
                let [r1, r2] = bits::bitwise_swaps(mask, src1, src2);
                assert_eq!(bits::bitwise_swaps(mask, r1, r2), [src1, src2]);
            }
        }
    }
}
