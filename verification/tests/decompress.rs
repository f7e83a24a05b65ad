use pocketplus::{compress, decompress, Decompressor, PocketError};

#[test]
fn test_decompress_invalid_packet_size_zero() {
    let data = vec![0u8; 10];
    let result = decompress(&data, 0, 1);
    assert!(matches!(result, Err(PocketError::InvalidPacketSize(0))));
}

#[test]
fn test_decompress_invalid_packet_size_not_byte_aligned() {
    let data = vec![0u8; 10];
    let result = decompress(&data, 721, 1);
    assert!(matches!(result, Err(PocketError::InvalidPacketSize(721))));
}

#[test]
fn test_decompress_invalid_robustness() {
    let data = vec![0u8; 10];
    let result = decompress(&data, 720, 8);
    assert!(matches!(result, Err(PocketError::InvalidRobustness(8))));
}

#[test]
fn test_decompress_empty_input() {
    let data: Vec<u8> = vec![];
    let result = decompress(&data, 720, 1);
    assert!(matches!(result, Err(PocketError::UnexpectedEndOfInput)));
}

#[test]
fn test_decompressor_new() {
    let decomp = Decompressor::new(720, None, 2);
    assert!(decomp.is_ok());
    // a fresh decompressor can be reset without touching a stream
    let mut decomp = decomp.unwrap();
    decomp.reset();
}

#[test]
fn test_decompressor_new_invalid_f() {
    let result = Decompressor::new(0, None, 2);
    assert!(matches!(result, Err(PocketError::InvalidPacketSize(0))));

    let result = Decompressor::new(65536, None, 2);
    assert!(matches!(result, Err(PocketError::InvalidPacketSize(65536))));
}

#[test]
fn test_decompressor_new_invalid_robustness() {
    let result = Decompressor::new(720, None, 8);
    assert!(matches!(result, Err(PocketError::InvalidRobustness(8))));
}

#[test]
fn test_round_trip_single_packet() {
    let original = vec![0xDE, 0xAD, 0xBE, 0xEF, 0xCA, 0xFE, 0xBA, 0xBE];

    let compressed = compress(&original, 64, 1, 10, 20, 50).unwrap();

    let decompressed = decompress(&compressed, 64, 1).unwrap();

    assert_eq!(decompressed, original);
}

#[test]
fn test_round_trip_multiple_packets() {
    let original = vec![
        0xDE, 0xAD, 0xBE, 0xEF, 0xCA, 0xFE, 0xBA, 0xBE, // first packet
        0x12, 0x34, 0x56, 0x78, 0x9A, 0xBC, 0xDE, 0xF0, // second packet
    ];

    let compressed = compress(&original, 64, 1, 10, 20, 50).unwrap();
    let decompressed = decompress(&compressed, 64, 1).unwrap();

    assert_eq!(decompressed, original);
}

#[test]
fn test_round_trip_all_zeros() {
    let original = vec![0u8; 90];

    let compressed = compress(&original, 720, 2, 20, 50, 100).unwrap();
    let decompressed = decompress(&compressed, 720, 2).unwrap();

    assert_eq!(decompressed, original);
}

#[test]
fn test_round_trip_all_ones() {
    let original = vec![0xFF; 90];

    let compressed = compress(&original, 720, 2, 20, 50, 100).unwrap();
    let decompressed = decompress(&compressed, 720, 2).unwrap();

    assert_eq!(decompressed, original);
}

#[test]
fn test_round_trip_alternating() {
    let original: Vec<u8> = (0..90)
        .map(|i| if i % 2 == 0 { 0xAA } else { 0x55 })
        .collect();

    let compressed = compress(&original, 720, 1, 10, 20, 50).unwrap();
    let decompressed = decompress(&compressed, 720, 1).unwrap();

    assert_eq!(decompressed, original);
}

#[test]
fn test_round_trip_many_packets() {
    let original: Vec<u8> = (0..900).map(|i| (i % 256) as u8).collect();

    let compressed = compress(&original, 720, 2, 20, 50, 100).unwrap();
    let decompressed = decompress(&compressed, 720, 2).unwrap();

    assert_eq!(decompressed, original);
}

#[test]
fn test_round_trip_all_zeros_single_packet() {
    // the first packet always goes out verbatim, so a lone all-zero packet
    // costs its raw size plus the frame header
    let original = vec![0u8; 90];

    let compressed = compress(&original, 720, 1, 10, 20, 50).unwrap();
    assert_eq!(compressed.len(), 94);

    let decompressed = decompress(&compressed, 720, 1).unwrap();
    assert_eq!(decompressed, original);
}

#[test]
fn test_all_zeros_later_packets_shrink() {
    // once the mask has settled, an all-zero packet costs almost nothing
    let original = vec![0u8; 900];

    let compressed = compress(&original, 720, 1, 10, 20, 50).unwrap();
    assert!(compressed.len() < 900);

    let decompressed = decompress(&compressed, 720, 1).unwrap();
    assert_eq!(decompressed, original);
}

#[test]
fn test_round_trip_robustness_zero() {
    // nontrivial input with no robustness window at all
    let original: Vec<u8> = (0..270).map(|i| (i * 13 % 256) as u8).collect();

    let compressed = compress(&original, 720, 0, 5, 7, 11).unwrap();
    let decompressed = decompress(&compressed, 720, 0).unwrap();

    assert_eq!(decompressed, original);
}

#[test]
fn test_round_trip_max_robustness() {
    let original: Vec<u8> = (0..160).map(|i| (i * 31 % 256) as u8).collect();

    let compressed = compress(&original, 64, 7, 3, 4, 5).unwrap();
    let decompressed = decompress(&compressed, 64, 7).unwrap();

    assert_eq!(decompressed, original);
}

#[test]
fn test_round_trip_smallest_packet() {
    let original: Vec<u8> = vec![0x5A, 0xA5, 0x5A, 0x00, 0xFF, 0x81];

    let compressed = compress(&original, 8, 1, 10, 20, 50).unwrap();
    let decompressed = decompress(&compressed, 8, 1).unwrap();

    assert_eq!(decompressed, original);
}

#[test]
fn test_decompress_truncated_stream() {
    let original: Vec<u8> = (0..180).map(|i| (i % 256) as u8).collect();
    let compressed = compress(&original, 720, 1, 10, 20, 50).unwrap();

    // cutting the stream off mid-packet is an underflow
    let truncated = &compressed[..compressed.len() / 2];
    assert!(matches!(
        decompress(truncated, 720, 1),
        Err(PocketError::Underflow)
    ));
}

#[test]
fn test_round_trip_largest_packet() {
    // the widest packet size: 8191 bytes
    let original: Vec<u8> = (0..8191).map(|i| (i * 3 % 256) as u8).collect();

    let compressed = compress(&original, 65528, 1, 10, 20, 50).unwrap();
    let decompressed = decompress(&compressed, 65528, 1).unwrap();

    assert_eq!(decompressed, original);
}

#[test]
fn test_packet_size_too_large() {
    // one whole packet of 8193 bytes: the width itself is rejected
    let data = vec![0u8; 8193];
    assert!(matches!(
        compress(&data, 65544, 1, 10, 20, 50),
        Err(PocketError::InvalidPacketSize(65544))
    ));
    assert!(matches!(
        decompress(&data, 65544, 1),
        Err(PocketError::InvalidPacketSize(65544))
    ));
}

#[test]
fn test_decompressor_clone_mid_stream() {
    // a clone taken between packets decodes the next packet identically
    let original: Vec<u8> = (0..32).map(|i| (i * 7 % 256) as u8).collect();
    let compressed = compress(&original, 64, 0, 3, 4, 5).unwrap();

    let mut decomp = Decompressor::new(64, None, 0).unwrap();
    let mut reader = pocketplus::BitReader::new(&compressed, compressed.len() * 8);
    decomp.decompress_packet(&mut reader).unwrap();
    reader.align_byte();
    decomp.decompress_packet(&mut reader).unwrap();
    reader.align_byte();

    let mut twin = decomp.clone();
    let mut twin_reader = reader.clone();
    let a = decomp.decompress_packet(&mut reader).unwrap();
    let b = twin.decompress_packet(&mut twin_reader).unwrap();
    assert_eq!(a, b);
    assert_eq!(a.to_bytes(), &original[16..24]);
}
