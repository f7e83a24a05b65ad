use pocketplus::{BitBuffer, BitVector};

#[test]
fn bitbuffer_test_new() {
    let bb = BitBuffer::new();
    assert_eq!(bb.len(), 0);
    assert!(bb.is_empty());
}

#[test]
fn test_append_bit() {
    let mut bb = BitBuffer::new();

    bb.append_bit(1);
    bb.append_bit(0);
    bb.append_bit(1);
    bb.append_bit(1);
    bb.append_bit(0);
    bb.append_bit(0);
    bb.append_bit(1);
    bb.append_bit(0);

    assert_eq!(bb.len(), 8);

    let bytes = bb.to_bytes();
    assert_eq!(bytes.len(), 1);
    assert_eq!(bytes[0], 0xB2);
}

#[test]
fn test_append_value() {
    let mut bb = BitBuffer::new();

    bb.append_value(0b1010, 4);
    assert_eq!(bb.len(), 4);

    bb.append_value(0b1100, 4);
    assert_eq!(bb.len(), 8);

    let bytes = bb.to_bytes();
    assert_eq!(bytes.len(), 1);
    assert_eq!(bytes[0], 0xAC);
}

#[test]
fn test_append_bits() {
    let mut bb = BitBuffer::new();

    let data = vec![0xDE, 0xAD];
    bb.append_bits(&data, 16);

    assert_eq!(bb.len(), 16);

    let bytes = bb.to_bytes();
    assert_eq!(bytes, data);
}

#[test]
fn test_append_bitvector() {
    let mut bb = BitBuffer::new();

    let mut bv = BitVector::new(16);
    bv.set_bit(0, 1);
    bv.set_bit(1, 1);
    bv.set_bit(2, 0);
    bv.set_bit(3, 0);
    bv.set_bit(4, 1);
    bv.set_bit(5, 0);
    bv.set_bit(6, 1);
    bv.set_bit(7, 0);
    bv.set_bit(8, 1);
    bv.set_bit(9, 1);
    bv.set_bit(10, 1);
    bv.set_bit(11, 1);
    bv.set_bit(12, 1);
    bv.set_bit(13, 1);
    bv.set_bit(14, 1);
    bv.set_bit(15, 0);

    bb.append_bitvector(&bv);

    assert_eq!(bb.len(), 16);

    let bytes = bb.to_bytes();
    assert_eq!(bytes.len(), 2);
    assert_eq!(bytes[0], 0xCA);
    assert_eq!(bytes[1], 0xFE);
}

#[test]
fn test_partial_byte() {
    let mut bb = BitBuffer::new();

    bb.append_bit(1);
    bb.append_bit(0);
    bb.append_bit(1);
    bb.append_bit(1);
    bb.append_bit(0);

    assert_eq!(bb.len(), 5);

    let bytes = bb.to_bytes();
    assert_eq!(bytes.len(), 1);
    assert_eq!(bytes[0], 0xB0);
}

#[test]
fn test_clear() {
    let mut bb = BitBuffer::new();
    bb.append_value(0xFF, 8);
    assert_eq!(bb.len(), 8);

    bb.clear();
    assert_eq!(bb.len(), 0);
    assert!(bb.is_empty());
}

#[test]
fn test_multi_byte() {
    let mut bb = BitBuffer::new();

    bb.append_value(0xDE, 8);
    bb.append_value(0xAD, 8);
    bb.append_value(0xBE, 8);

    assert_eq!(bb.len(), 24);

    let bytes = bb.to_bytes();
    assert_eq!(bytes.len(), 3);
    assert_eq!(bytes[0], 0xDE);
    assert_eq!(bytes[1], 0xAD);
    assert_eq!(bytes[2], 0xBE);
}

#[test]
fn test_append_bit_low_bit_only() {
    // only the low bit of the argument is appended
    let mut bb = BitBuffer::new();
    bb.append_bit(2);
    bb.append_bit(3);
    bb.append_bit(0);
    bb.append_bit(255);
    assert_eq!(bb.len(), 4);
    assert_eq!(bb.to_bytes()[0], 0b0101_0000);
}

#[test]
fn test_bitbuffer_clone() {
    let mut bb = BitBuffer::new();
    bb.append_value(0xDE, 8);
    let copy = bb.clone();
    assert_eq!(copy.len(), 8);
    assert_eq!(copy.to_bytes(), bb.to_bytes());
}
