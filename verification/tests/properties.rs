use pocketplus::{BitBuffer, BitVector};

#[test]
fn test_library_loads() {
    assert!(true);
}

#[test]
fn test_popcount_of_xor() {
    // the weight of an exclusive or is the sum of the weights minus twice
    // the weight of the overlap
    let v = BitVector::from_bytes(&[0b1100_1010, 0b0101_0101], 16);
    let w = BitVector::from_bytes(&[0b1010_1010, 0b0011_1100], 16);

    let both = v.and(&w).hamming_weight();
    let either = v.xor(&w).hamming_weight();
    assert_eq!(either + 2 * both, v.hamming_weight() + w.hamming_weight());
}

#[test]
fn test_bytes_roundtrip_multiple_of_eight() {
    // from_bytes after to_bytes is the identity for whole-byte widths
    let bytes: Vec<u8> = (0u16..32).map(|i| (i * 11 % 256) as u8).collect();
    let bv = BitVector::from_bytes(&bytes, 256);
    assert_eq!(bv.to_bytes(), bytes);
    let again = BitVector::from_bytes(&bv.to_bytes(), 256);
    assert_eq!(again, bv);
}

#[test]
fn test_extract_emits_popcount_bits() {
    // bit extraction emits exactly one bit per set mask position
    let data = BitVector::from_bytes(&[0xF0, 0x0F, 0xAA], 24);
    let mask = BitVector::from_bytes(&[0x81, 0x7E, 0x55], 24);

    let mut output = BitBuffer::new();
    pocketplus::bit_extract(&mut output, &data, &mask).unwrap();
    assert_eq!(output.len(), mask.hamming_weight());

    let mut forward = BitBuffer::new();
    pocketplus::bit_extract_forward(&mut forward, &data, &mask).unwrap();
    assert_eq!(forward.len(), mask.hamming_weight());
}
