use pocketplus::{BitReader, PocketError};

#[test]
fn bitreader_test_new() {
    let data = vec![0xAB, 0xCD];
    let reader = BitReader::new(&data, 16);
    assert_eq!(reader.position(), 0);
    assert_eq!(reader.remaining(), 16);
    assert!(reader.has_bits());
}

#[test]
fn test_read_bit() {
    let data = vec![0xAB];
    let mut reader = BitReader::new(&data, 8);

    assert_eq!(reader.read_bit().unwrap(), 1);
    assert_eq!(reader.read_bit().unwrap(), 0);
    assert_eq!(reader.read_bit().unwrap(), 1);
    assert_eq!(reader.read_bit().unwrap(), 0);
    assert_eq!(reader.read_bit().unwrap(), 1);
    assert_eq!(reader.read_bit().unwrap(), 0);
    assert_eq!(reader.read_bit().unwrap(), 1);
    assert_eq!(reader.read_bit().unwrap(), 1);

    assert!(!reader.has_bits());
}

#[test]
fn test_read_bits() {
    let data = vec![0xDE, 0xAD];
    let mut reader = BitReader::new(&data, 16);

    assert_eq!(reader.read_bits(4).unwrap(), 0b1101);
    assert_eq!(reader.read_bits(8).unwrap(), 0b11101010);
    assert_eq!(reader.read_bits(4).unwrap(), 0b1101);

    assert_eq!(reader.remaining(), 0);
}

#[test]
fn test_read_bits_underflow() {
    let data = vec![0xFF];
    let mut reader = BitReader::new(&data, 8);

    assert!(matches!(reader.read_bits(16), Err(PocketError::Underflow)));
}

#[test]
fn test_read_bits_invalid_count() {
    let data = vec![0xFF];
    let mut reader = BitReader::new(&data, 8);

    assert!(matches!(
        reader.read_bits(0),
        Err(PocketError::InvalidLength)
    ));

    assert!(matches!(
        reader.read_bits(33),
        Err(PocketError::InvalidLength)
    ));
}

#[test]
fn test_align_byte() {
    let data = vec![0xAB, 0xCD];
    let mut reader = BitReader::new(&data, 16);

    reader.read_bits(3).unwrap();
    assert_eq!(reader.position(), 3);

    reader.align_byte();
    assert_eq!(reader.position(), 8);

    reader.align_byte();
    assert_eq!(reader.position(), 8);
}

#[test]
fn test_peek_bit() {
    let data = vec![0xAB];
    let mut reader = BitReader::new(&data, 8);

    assert_eq!(reader.peek_bit().unwrap(), 1);
    assert_eq!(reader.position(), 0);

    assert_eq!(reader.read_bit().unwrap(), 1);
    assert_eq!(reader.position(), 1);

    assert_eq!(reader.peek_bit().unwrap(), 0);
    assert_eq!(reader.position(), 1);
}

#[test]
fn test_skip() {
    let data = vec![0xAB, 0xCD];
    let mut reader = BitReader::new(&data, 16);

    reader.skip(4).unwrap();
    assert_eq!(reader.position(), 4);

    reader.skip(8).unwrap();
    assert_eq!(reader.position(), 12);

    reader.skip(4).unwrap();
    assert_eq!(reader.remaining(), 0);

    assert!(matches!(reader.skip(1), Err(PocketError::Underflow)));
}

#[test]
fn test_back() {
    let data = vec![0xAB];
    let mut reader = BitReader::new(&data, 8);

    reader.read_bit().unwrap();
    assert_eq!(reader.position(), 1);

    reader.back().unwrap();
    assert_eq!(reader.position(), 0);

    assert!(matches!(reader.back(), Err(PocketError::Underflow)));
}

#[test]
fn test_partial_bits() {
    let data = vec![0xF0];
    let mut reader = BitReader::new(&data, 5);

    assert_eq!(reader.read_bit().unwrap(), 1);
    assert_eq!(reader.read_bit().unwrap(), 1);
    assert_eq!(reader.read_bit().unwrap(), 1);
    assert_eq!(reader.read_bit().unwrap(), 1);
    assert_eq!(reader.read_bit().unwrap(), 0);

    assert!(matches!(reader.read_bit(), Err(PocketError::Underflow)));
}

#[test]
fn test_empty_reader() {
    let data = vec![];
    let mut reader = BitReader::new(&data, 0);

    assert!(!reader.has_bits());
    assert_eq!(reader.remaining(), 0);
    assert!(matches!(reader.read_bit(), Err(PocketError::Underflow)));
    assert!(matches!(reader.peek_bit(), Err(PocketError::Underflow)));
}
