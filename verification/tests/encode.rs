use pocketplus::{bit_extract, bit_extract_forward, count_encode, rle_encode};
use pocketplus::{BitBuffer, BitVector};

#[test]
fn test_count_encode_one() {
    let mut output = BitBuffer::new();
    count_encode(&mut output, 1).unwrap();

    assert_eq!(output.len(), 1);
    let bytes = output.to_bytes();
    assert_eq!(bytes[0] & 0x80, 0x00);
}

#[test]
fn test_count_encode_small() {
    let mut output = BitBuffer::new();
    count_encode(&mut output, 2).unwrap();
    assert_eq!(output.len(), 8);
    assert_eq!(output.to_bytes()[0], 0xC0);

    let mut output = BitBuffer::new();
    count_encode(&mut output, 10).unwrap();
    assert_eq!(output.len(), 8);
    assert_eq!(output.to_bytes()[0], 0xC8);

    let mut output = BitBuffer::new();
    count_encode(&mut output, 33).unwrap();
    assert_eq!(output.len(), 8);
    assert_eq!(output.to_bytes()[0], 0xDF);
}

#[test]
fn test_count_encode_large() {
    let mut output = BitBuffer::new();
    count_encode(&mut output, 34).unwrap();
    assert_eq!(output.len(), 9);
}

#[test]
fn test_count_encode_invalid() {
    let mut output = BitBuffer::new();
    assert!(count_encode(&mut output, 0).is_err());
    assert!(count_encode(&mut output, 65536).is_err());
}

#[test]
fn test_rle_encode_empty() {
    let input = BitVector::new(8);
    let mut output = BitBuffer::new();
    rle_encode(&mut output, &input).unwrap();
    assert_eq!(output.len(), 2);
}

#[test]
fn test_rle_encode_single_bit() {
    let mut input = BitVector::new(8);
    input.set_bit(7, 1);

    let mut output = BitBuffer::new();
    rle_encode(&mut output, &input).unwrap();

    assert_eq!(output.len(), 3);
}

#[test]
fn test_bit_extract() {
    let data = BitVector::from_bytes(&[0b1011_0011], 8);
    let mask = BitVector::from_bytes(&[0b0100_1010], 8);

    let mut output = BitBuffer::new();
    bit_extract(&mut output, &data, &mask).unwrap();

    assert_eq!(output.len(), 3);
}

#[test]
fn test_bit_extract_all_ones() {
    let data = BitVector::from_bytes(&[0xAB], 8);
    let mask = BitVector::from_bytes(&[0xFF], 8);

    let mut output = BitBuffer::new();
    bit_extract(&mut output, &data, &mask).unwrap();

    assert_eq!(output.len(), 8);
    let bytes = output.to_bytes();
    assert_eq!(bytes[0], 0xD5);
}

#[test]
fn test_bit_extract_none() {
    let data = BitVector::from_bytes(&[0xAB], 8);
    let mask = BitVector::from_bytes(&[0x00], 8);

    let mut output = BitBuffer::new();
    bit_extract(&mut output, &data, &mask).unwrap();

    assert_eq!(output.len(), 0);
}

#[test]
fn test_bit_extract_length_mismatch() {
    let data = BitVector::new(8);
    let mask = BitVector::new(16);

    let mut output = BitBuffer::new();
    assert!(bit_extract(&mut output, &data, &mask).is_err());
}

#[test]
fn test_bit_extract_forward() {
    let data = BitVector::from_bytes(&[0xAB], 8);
    let mask = BitVector::from_bytes(&[0xFF], 8);

    let mut output = BitBuffer::new();
    bit_extract_forward(&mut output, &data, &mask).unwrap();

    assert_eq!(output.len(), 8);
    let bytes = output.to_bytes();
    assert_eq!(bytes[0], 0xAB);
}

#[test]
fn test_rle_encode_pattern() {
    let mut input = BitVector::new(8);
    input.set_bit(0, 1);
    input.set_bit(7, 1);

    let mut output = BitBuffer::new();
    rle_encode(&mut output, &input).unwrap();

    assert_eq!(output.len(), 11);
}
