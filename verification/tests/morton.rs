//! Tests for the Morton curve decoder and iterator

use space_filler::{bits, morton, Coordinate, Coordinates2D, CurveIdx};

/// Shift a new low-order bit into an 8-bit accumulator
fn push_bit8(target: &mut u8, bit: bool) {
    *target = (*target << 1) | (bit as u8);
}

/// Pop the low-order bit of a 16-bit accumulator
fn pop_bit16(target: &mut u16) -> bool {
    let res = (*target & 1) == 1;
    *target >>= 1;
    res
}

#[test]
fn morton_decode_2d() {
    for input in CurveIdx::MIN..=CurveIdx::MAX {
        let mut input_buf = input.reverse_bits();
        let mut results = [0 as Coordinate; 2];
        for _bit_idx in 0..bits::num_bits::<Coordinate>() {
            for result in results.iter_mut().rev() {
                push_bit8(result, pop_bit16(&mut input_buf));
            }
        }
        assert_eq!(
            morton::decode_2d(input),
            results,
            "Unexpected 2D Morton code decoding result for input {:08b}",
            input
        );
    }
}

#[test]
fn morton_decode_scenarios() {
    assert_eq!(morton::decode_2d(0), [0, 0]);
    assert_eq!(morton::decode_2d(0xffff), [255, 255]);
    assert_eq!(morton::decode_2d(0b10), [0, 1]);
    assert_eq!(morton::decode_2d(0b01), [1, 0]);
}

/// Check that an iterator yields exactly `decode_2d(start)`,
/// `decode_2d(start + 1)`, ..., `decode_2d(CurveIdx::MAX)`, then ends
fn check_iter(mut iter: morton::MortonIter, start: CurveIdx) {
    let mut expected_idx = start;
    loop {
        let coords: Option<Coordinates2D> = iter.next();
        assert_eq!(
            coords,
            Some(morton::decode_2d(expected_idx)),
            "Unexpected 2D Morton code iterator output at index {}",
            expected_idx
        );
        if expected_idx == CurveIdx::MAX {
            break;
        }
        expected_idx += 1;
    }
    assert_eq!(iter.next(), None);
    assert_eq!(iter.next(), None);
}

#[test]
fn iter_2d() {
    check_iter(morton::iter_2d(), CurveIdx::MIN);
}

#[test]
fn iter_from_2d_samples() {
    for start in [0, 1, 2, 3, 12345, 0x7fff, 0x8000, 0xfffe, 0xffff] {
        check_iter(morton::iter_from_2d(start), start);
    }
}
