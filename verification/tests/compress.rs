use pocketplus::{compress, CompressionParams, Compressor, PocketError};
use pocketplus::BitVector;

#[test]
fn test_compress_empty_input() {
    let result = compress(&[], 720, 1, 10, 20, 50);
    assert!(result.is_ok());
    assert_eq!(result.unwrap().len(), 0);
}

#[test]
fn test_compress_invalid_packet_size_zero() {
    let data = vec![0u8; 90];
    let result = compress(&data, 0, 1, 10, 20, 50);
    assert!(matches!(result, Err(PocketError::InvalidPacketSize(0))));
}

#[test]
fn test_compress_invalid_packet_size_not_byte_aligned() {
    let data = vec![0u8; 90];
    let result = compress(&data, 719, 1, 10, 20, 50);
    assert!(matches!(result, Err(PocketError::InvalidPacketSize(719))));
}

#[test]
fn test_compress_invalid_robustness() {
    let data = vec![0u8; 90];
    let result = compress(&data, 720, 8, 10, 20, 50);
    assert!(matches!(result, Err(PocketError::InvalidRobustness(8))));
}

#[test]
fn test_compress_valid_params() {
    let data = vec![0u8; 90];
    let result = compress(&data, 720, 1, 10, 20, 50);
    assert!(result.is_ok());
    let compressed = result.unwrap();
    assert!(!compressed.is_empty());
}

#[test]
fn test_compressor_new() {
    let comp = Compressor::new(720, None, 2, 10, 20, 50);
    assert!(comp.is_ok());
    let comp = comp.unwrap();
    // a fresh compressor accepts a first packet of the configured width
    let mut comp = comp;
    let input = BitVector::new(720);
    let params = CompressionParams {
        new_mask_flag: false,
        send_mask_flag: true,
        uncompressed_flag: true,
    };
    assert!(comp.compress_packet(&input, &params).is_ok());
}

#[test]
fn test_compress_single_packet() {
    let mut comp = Compressor::new(64, None, 1, 10, 20, 50).unwrap();
    let input = BitVector::from_bytes(&[0xDE, 0xAD, 0xBE, 0xEF, 0xCA, 0xFE, 0xBA, 0xBE], 64);

    let params = CompressionParams {
        new_mask_flag: false,
        send_mask_flag: true,
        uncompressed_flag: true,
    };

    let result = comp.compress_packet(&input, &params);
    assert!(result.is_ok());
}

#[test]
fn test_compress_multiple_packets() {
    let data = vec![
        0xDE, 0xAD, 0xBE, 0xEF, 0xCA, 0xFE, 0xBA, 0xBE, 0x12, 0x34, 0x56, 0x78, 0x9A, 0xBC,
        0xDE, 0xF0,
    ];

    let result = compress(&data, 64, 1, 10, 20, 50);
    assert!(result.is_ok());
    let compressed = result.unwrap();
    assert!(!compressed.is_empty());
}

#[test]
fn test_compress_wrong_packet_length() {
    let mut comp = Compressor::new(64, None, 1, 10, 20, 50).unwrap();
    let input = BitVector::new(32);
    let params = CompressionParams {
        new_mask_flag: false,
        send_mask_flag: true,
        uncompressed_flag: true,
    };
    assert!(matches!(
        comp.compress_packet(&input, &params),
        Err(PocketError::InvalidInputLength { expected: 64, actual: 32 })
    ));
}

#[test]
fn test_compress_length_not_multiple() {
    let data = vec![0u8; 91];
    let result = compress(&data, 720, 1, 10, 20, 50);
    assert!(matches!(
        result,
        Err(PocketError::InvalidInputLength { expected: 180, actual: 91 })
    ));
}

#[test]
fn test_compress_deterministic() {
    // the compressed stream is a pure function of the inputs
    let data: Vec<u8> = (0..180).map(|i| (i * 7 % 256) as u8).collect();
    let first = compress(&data, 720, 1, 10, 20, 50).unwrap();
    let second = compress(&data, 720, 1, 10, 20, 50).unwrap();
    assert_eq!(first, second);
}

#[test]
fn test_compressor_reset_repeats_stream() {
    let mut comp = Compressor::new(64, None, 0, 10, 20, 50).unwrap();
    let input = BitVector::from_bytes(&[1, 2, 3, 4, 5, 6, 7, 8], 64);
    let params = CompressionParams {
        new_mask_flag: false,
        send_mask_flag: true,
        uncompressed_flag: true,
    };
    let first = comp.compress_packet(&input, &params).unwrap().to_bytes();
    comp.reset();
    let second = comp.compress_packet(&input, &params).unwrap().to_bytes();
    assert_eq!(first, second);
}

#[test]
fn test_buffer_overflow_reported() {
    // a buffer filled to its cap refuses further bits, and the counter
    // encoder reports that as an overflow
    let mut bb = pocketplus::BitBuffer::new();
    let cap_bits = 65535 * 6 * 8;
    let mut appended = 0;
    while appended + 56 <= cap_bits {
        assert!(bb.append_value(0, 56));
        appended += 56;
    }
    while appended < cap_bits {
        assert!(bb.append_bit(0));
        appended += 1;
    }
    assert!(!bb.append_bit(1));
    assert!(matches!(
        pocketplus::count_encode(&mut bb, 5),
        Err(PocketError::BufferOverflow)
    ));
}

#[test]
fn test_compressor_clone_mid_stream() {
    // a clone taken mid-stream continues exactly like the source
    let data: Vec<u8> = (0..64).map(|i| (i * 5 % 256) as u8).collect();
    let mut comp = Compressor::new(64, None, 1, 3, 4, 5).unwrap();
    let params = CompressionParams {
        new_mask_flag: false,
        send_mask_flag: true,
        uncompressed_flag: true,
    };
    for chunk in data.chunks(8).take(4) {
        let input = BitVector::from_bytes(chunk, 64);
        comp.compress_packet(&input, &params).unwrap();
    }
    let mut twin = comp.clone();
    let next = BitVector::from_bytes(&data[32..40], 64);
    let a = comp.compress_packet(&next, &params).unwrap().to_bytes();
    let b = twin.compress_packet(&next, &params).unwrap().to_bytes();
    assert_eq!(a, b);
}

#[test]
fn test_params_default() {
    let params = CompressionParams::default();
    assert!(!params.new_mask_flag);
    assert!(!params.send_mask_flag);
    assert!(!params.uncompressed_flag);
}
