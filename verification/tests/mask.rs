use pocketplus::{compute_change, update_build, update_mask};
use pocketplus::BitVector;

#[test]
fn test_update_build_at_t0() {
    let mut build = BitVector::from_bytes(&[0xFF], 8);
    let input = BitVector::new(8);
    let prev_input = BitVector::new(8);

    update_build(&mut build, &input, &prev_input, false, 0);

    assert_eq!(build.hamming_weight(), 0);
}

#[test]
fn test_update_build_with_new_mask_flag() {
    let mut build = BitVector::from_bytes(&[0xFF], 8);
    let input = BitVector::new(8);
    let prev_input = BitVector::new(8);

    update_build(&mut build, &input, &prev_input, true, 5);

    assert_eq!(build.hamming_weight(), 0);
}

#[test]
fn test_update_build_accumulates_changes() {
    let mut build = BitVector::from_bytes(&[0b0000_1111], 8);
    let input = BitVector::from_bytes(&[0b1010_0000], 8);
    let prev_input = BitVector::from_bytes(&[0b0000_0000], 8);

    update_build(&mut build, &input, &prev_input, false, 1);

    let expected = BitVector::from_bytes(&[0b1010_1111], 8);
    assert_eq!(build, expected);
}

#[test]
fn test_update_mask_normal() {
    let mut mask = BitVector::from_bytes(&[0b0000_1111], 8);
    let input = BitVector::from_bytes(&[0b1100_0000], 8);
    let prev_input = BitVector::from_bytes(&[0b0000_0000], 8);
    let build_prev = BitVector::new(8);

    update_mask(&mut mask, &input, &prev_input, &build_prev, false);

    let expected = BitVector::from_bytes(&[0b1100_1111], 8);
    assert_eq!(mask, expected);
}

#[test]
fn test_update_mask_with_new_mask_flag() {
    let mut mask = BitVector::from_bytes(&[0b0000_1111], 8);
    let input = BitVector::from_bytes(&[0b1100_0000], 8);
    let prev_input = BitVector::from_bytes(&[0b0000_0000], 8);
    let build_prev = BitVector::from_bytes(&[0b0011_0000], 8);

    update_mask(&mut mask, &input, &prev_input, &build_prev, true);

    let expected = BitVector::from_bytes(&[0b1111_0000], 8);
    assert_eq!(mask, expected);
}

#[test]
fn test_compute_change_at_t0() {
    let mask = BitVector::from_bytes(&[0b1010_1010], 8);
    let prev_mask = BitVector::new(8);

    let change = compute_change(&mask, &prev_mask, 0);

    assert_eq!(change, mask);
}

#[test]
fn test_compute_change_normal() {
    let mask = BitVector::from_bytes(&[0b1111_0000], 8);
    let prev_mask = BitVector::from_bytes(&[0b1010_1010], 8);

    let change = compute_change(&mask, &prev_mask, 1);

    let expected = BitVector::from_bytes(&[0b0101_1010], 8);
    assert_eq!(change, expected);
}
