//! Tests for the Hilbert curve decoder

use space_filler::{bits, hilbert, Coordinate, CurveIdx};

/// Shift a new low-order bit into an 8-bit accumulator
fn push_bit8(target: &mut u8, bit: bool) {
    *target = (*target << 1) | (bit as u8);
}

/// Pop the low-order bit of a 16-bit accumulator
fn pop_bit16(target: &mut u16) -> bool {
    let res = (*target & 1) == 1;
    *target >>= 1;
    res
}

#[test]
fn hilbert_decode_2d() {
    for input in 0..=CurveIdx::MAX {
        let mut input_buf = input.reverse_bits();
        let mut results = [0; 2];
        let mut swap = false;
        let mut invert = false;
        for _bit_idx in 0..bits::num_bits::<Coordinate>() {
            let high_order_bit = pop_bit16(&mut input_buf);
            let low_order_bit = pop_bit16(&mut input_buf);
            let mut x_bit = high_order_bit ^ low_order_bit;
            let mut y_bit = high_order_bit;
            if swap {
                core::mem::swap(&mut x_bit, &mut y_bit);
            }
            push_bit8(&mut results[0], x_bit ^ invert);
            push_bit8(&mut results[1], y_bit ^ invert);
            swap ^= !(high_order_bit ^ low_order_bit);
            invert ^= high_order_bit & low_order_bit;
        }
        assert_eq!(
            hilbert::decode_2d(input),
            results,
            "Unexpected 2D Hilbert code decoding result for input {:08b}",
            input
        );
    }
}

#[test]
fn hilbert_decode_scenarios() {
    assert_eq!(hilbert::decode_2d(0), [0, 0]);
    assert_eq!(hilbert::decode_2d(1), [0, 1]);
    assert_eq!(hilbert::decode_2d(2), [1, 1]);
    assert_eq!(hilbert::decode_2d(3), [1, 0]);
    // The ]-shaped base motif ends its walk on the far end of the starting
    // column, one axis away from the start at every recursion depth
    assert_eq!(hilbert::decode_2d(CurveIdx::MAX), [0, 255]);
}

#[test]
fn hilbert_adjacency() {
    let mut prev = hilbert::decode_2d(0);
    for input in 1..=CurveIdx::MAX {
        let curr = hilbert::decode_2d(input);
        let dx = (curr[0] as i32 - prev[0] as i32).abs();
        let dy = (curr[1] as i32 - prev[1] as i32).abs();
        assert_eq!(
            dx + dy,
            1,
            "Hilbert points for indices {} and {} are not grid neighbors",
            input - 1,
            input
        );
        prev = curr;
    }
}
