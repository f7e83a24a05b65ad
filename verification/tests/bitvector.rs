use pocketplus::BitVector;

#[test]
fn bitvector_test_new() {
    let bv = BitVector::new(720);
    assert_eq!(bv.len(), 720);
    assert_eq!(bv.hamming_weight(), 0);
}

#[test]
fn test_get_set_bit() {
    let mut bv = BitVector::new(32);

    bv.set_bit(0, 1);
    assert_eq!(bv.get_bit(0), 1);
    assert_eq!(bv.get_bit(1), 0);

    bv.set_bit(31, 1);
    assert_eq!(bv.get_bit(31), 1);

    bv.set_bit(0, 0);
    assert_eq!(bv.get_bit(0), 0);
}

#[test]
fn test_from_bytes_to_bytes_roundtrip() {
    let original = vec![0xDE, 0xAD, 0xBE, 0xEF, 0xCA, 0xFE];
    let bv = BitVector::from_bytes(&original, 48);
    let result = bv.to_bytes();
    assert_eq!(result, original);
}

#[test]
fn test_xor() {
    let mut a = BitVector::new(32);
    let mut b = BitVector::new(32);

    a.set_bit(0, 1);
    a.set_bit(1, 1);
    b.set_bit(1, 1);
    b.set_bit(2, 1);

    let result = a.xor(&b);
    assert_eq!(result.get_bit(0), 1);
    assert_eq!(result.get_bit(1), 0);
    assert_eq!(result.get_bit(2), 1);
}

#[test]
fn test_or() {
    let mut a = BitVector::new(32);
    let mut b = BitVector::new(32);

    a.set_bit(0, 1);
    b.set_bit(1, 1);

    let result = a.or(&b);
    assert_eq!(result.get_bit(0), 1);
    assert_eq!(result.get_bit(1), 1);
    assert_eq!(result.get_bit(2), 0);
}

#[test]
fn test_and() {
    let mut a = BitVector::new(32);
    let mut b = BitVector::new(32);

    a.set_bit(0, 1);
    a.set_bit(1, 1);
    b.set_bit(1, 1);
    b.set_bit(2, 1);

    let result = a.and(&b);
    assert_eq!(result.get_bit(0), 0);
    assert_eq!(result.get_bit(1), 1);
    assert_eq!(result.get_bit(2), 0);
}

#[test]
fn test_not() {
    let mut bv = BitVector::new(8);
    bv.set_bit(0, 1);
    bv.set_bit(2, 1);

    let result = bv.not();
    assert_eq!(result.get_bit(0), 0);
    assert_eq!(result.get_bit(1), 1);
    assert_eq!(result.get_bit(2), 0);
    assert_eq!(result.get_bit(3), 1);
}

#[test]
fn test_left_shift() {
    let mut bv = BitVector::new(32);
    bv.set_bit(1, 1);

    let result = bv.left_shift();
    assert_eq!(result.get_bit(0), 1);
    assert_eq!(result.get_bit(1), 0);
}

#[test]
fn test_hamming_weight() {
    let mut bv = BitVector::new(32);
    assert_eq!(bv.hamming_weight(), 0);

    bv.set_bit(0, 1);
    bv.set_bit(5, 1);
    bv.set_bit(31, 1);
    assert_eq!(bv.hamming_weight(), 3);
}

#[test]
fn test_zero() {
    let mut bv = BitVector::new(32);
    bv.set_bit(0, 1);
    bv.set_bit(15, 1);
    bv.set_bit(31, 1);

    bv.zero();
    assert_eq!(bv.hamming_weight(), 0);
}

#[test]
fn test_equals() {
    let mut a = BitVector::new(32);
    let mut b = BitVector::new(32);

    assert_eq!(a, b);

    a.set_bit(5, 1);
    assert_ne!(a, b);

    b.set_bit(5, 1);
    assert_eq!(a, b);
}

#[test]
fn test_720_bits() {
    let mut bv = BitVector::new(720);
    assert_eq!(bv.len(), 720);

    bv.set_bit(0, 1);
    bv.set_bit(719, 1);
    assert_eq!(bv.get_bit(0), 1);
    assert_eq!(bv.get_bit(719), 1);
    assert_eq!(bv.hamming_weight(), 2);

    let bytes = bv.to_bytes();
    assert_eq!(bytes.len(), 90);

    let bv2 = BitVector::from_bytes(&bytes, 720);
    assert_eq!(bv, bv2);
}

#[test]
fn test_reverse() {
    let mut bv = BitVector::new(8);
    bv.set_bit(0, 1);
    bv.set_bit(1, 0);
    bv.set_bit(2, 1);

    let rev = bv.reverse();
    assert_eq!(rev.get_bit(7), 1);
    assert_eq!(rev.get_bit(6), 0);
    assert_eq!(rev.get_bit(5), 1);
}

#[test]
fn test_default() {
    let bv = BitVector::default();
    assert_eq!(bv.len(), 0);
    assert!(bv.is_empty());
}
