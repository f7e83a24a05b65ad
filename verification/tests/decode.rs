use pocketplus::{bit_insert, count_decode, rle_decode};
use pocketplus::{BitReader, BitVector};

#[test]
fn test_count_decode_one() {
    let data = vec![0b0000_0000];
    let mut reader = BitReader::new(&data, 1);
    assert_eq!(count_decode(&mut reader).unwrap(), 1);
}

#[test]
fn test_count_decode_terminator() {
    let data = vec![0b1000_0000];
    let mut reader = BitReader::new(&data, 2);
    assert_eq!(count_decode(&mut reader).unwrap(), 0);
}

#[test]
fn test_count_decode_small() {
    let data = vec![0xC0];
    let mut reader = BitReader::new(&data, 8);
    assert_eq!(count_decode(&mut reader).unwrap(), 2);

    let data = vec![0xC5];
    let mut reader = BitReader::new(&data, 8);
    assert_eq!(count_decode(&mut reader).unwrap(), 7);

    let data = vec![0xDF];
    let mut reader = BitReader::new(&data, 8);
    assert_eq!(count_decode(&mut reader).unwrap(), 33);
}

#[test]
fn test_count_decode_large() {
    let data = vec![0xF0, 0x00];
    let mut reader = BitReader::new(&data, 9);
    assert_eq!(count_decode(&mut reader).unwrap(), 34);
}

#[test]
fn test_rle_decode_empty() {
    let data = vec![0b1000_0000];
    let mut reader = BitReader::new(&data, 2);

    let result = rle_decode(&mut reader, 8).unwrap();
    assert_eq!(result.len(), 8);
    assert_eq!(result.hamming_weight(), 0);
}

#[test]
fn test_rle_decode_single_bit() {
    let data = vec![0b0100_0000];
    let mut reader = BitReader::new(&data, 3);

    let result = rle_decode(&mut reader, 8).unwrap();
    assert_eq!(result.len(), 8);
    assert_eq!(result.hamming_weight(), 1);
    assert_eq!(result.get_bit(7), 1);
}

#[test]
fn test_bit_insert() {
    let mask = BitVector::from_bytes(&[0b0100_1010], 8);
    let mut data = BitVector::new(8);
    data.zero();

    let input = vec![0xC0];
    let mut reader = BitReader::new(&input, 3);

    bit_insert(&mut reader, &mut data, &mask).unwrap();

    assert_eq!(data.get_bit(1), 0);
    assert_eq!(data.get_bit(4), 1);
    assert_eq!(data.get_bit(6), 1);
}

#[test]
fn test_bit_insert_length_mismatch() {
    let mask = BitVector::new(16);
    let mut data = BitVector::new(8);

    let input = vec![0x00];
    let mut reader = BitReader::new(&input, 8);

    assert!(bit_insert(&mut reader, &mut data, &mask).is_err());
}

#[test]
fn test_bit_insert_empty_mask() {
    let mask = BitVector::new(8);
    let mut data = BitVector::new(8);

    let input = vec![];
    let mut reader = BitReader::new(&input, 0);

    bit_insert(&mut reader, &mut data, &mask).unwrap();
}

#[test]
fn test_count_roundtrip_table() {
    // every counter value from 1 through 1024 survives an encode-decode trip
    let mut a: u32 = 1;
    while a <= 1024 {
        let mut output = pocketplus::BitBuffer::new();
        pocketplus::count_encode(&mut output, a).unwrap();
        let bytes = output.to_bytes();
        let mut reader = BitReader::new(&bytes, output.len());
        assert_eq!(count_decode(&mut reader).unwrap(), a);
        a += 1;
    }
}

#[test]
fn test_count_roundtrip_extremes() {
    for a in [1u32, 2, 33, 34, 65534, 65535] {
        let mut output = pocketplus::BitBuffer::new();
        pocketplus::count_encode(&mut output, a).unwrap();
        let bytes = output.to_bytes();
        let mut reader = BitReader::new(&bytes, output.len());
        assert_eq!(count_decode(&mut reader).unwrap(), a);
    }
}

#[test]
fn test_rle_roundtrip_pattern() {
    // an irregular vector survives a run-length encode-decode trip
    let mut input = BitVector::new(48);
    for i in [0usize, 1, 7, 8, 13, 31, 32, 46, 47] {
        input.set_bit(i, 1);
    }
    let mut output = pocketplus::BitBuffer::new();
    pocketplus::rle_encode(&mut output, &input).unwrap();
    let bytes = output.to_bytes();
    let mut reader = BitReader::new(&bytes, output.len());
    let decoded = rle_decode(&mut reader, 48).unwrap();
    assert_eq!(decoded, input);
}

#[test]
fn test_extract_insert_roundtrip() {
    // inserting what extraction emitted restores the data at mask positions
    let data = BitVector::from_bytes(&[0xDE, 0xAD], 16);
    let mask = BitVector::from_bytes(&[0b0110_1001, 0b1001_0110], 16);

    let mut output = pocketplus::BitBuffer::new();
    pocketplus::bit_extract(&mut output, &data, &mask).unwrap();
    assert_eq!(output.len(), mask.hamming_weight());

    let bytes = output.to_bytes();
    let mut reader = BitReader::new(&bytes, output.len());
    let mut rebuilt = BitVector::new(16);
    bit_insert(&mut reader, &mut rebuilt, &mask).unwrap();

    for i in 0..16 {
        if mask.get_bit(i) == 1 {
            assert_eq!(rebuilt.get_bit(i), data.get_bit(i));
        } else {
            assert_eq!(rebuilt.get_bit(i), 0);
        }
    }
}

#[test]
fn test_rle_decode_impossible_position() {
    // a gap of 9 into an 8-bit vector would set a bit before position 0:
    // COUNT(9) = 110 00111, then the terminator 10
    let data = vec![0xC7, 0x80];
    let mut reader = BitReader::new(&data, 10);
    match rle_decode(&mut reader, 8) {
        Err(pocketplus::PocketError::InvalidFormat(m)) => {
            assert_eq!(m, "impossible RLE position");
        }
        _ => panic!("an impossible RLE position must be rejected"),
    }
}
