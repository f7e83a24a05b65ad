use pocketplus::PocketError;

#[test]
fn test_error_display() {
    let err = PocketError::InvalidPacketSize(0);
    assert!(err.message().contains("invalid packet size"));

    let err = PocketError::InvalidRobustness(10);
    assert!(err.message().contains("invalid robustness"));

    let err = PocketError::InvalidInputLength {
        expected: 100,
        actual: 50,
    };
    assert!(err.message().contains("expected 100"));

    let err = PocketError::UnexpectedEndOfInput;
    assert!(err.message().contains("unexpected end"));

    let err = PocketError::InvalidFormat("test".to_string());
    assert!(err.message().contains("invalid format"));

    let err = PocketError::BufferOverflow;
    assert!(err.message().contains("buffer overflow"));

    let err = PocketError::Underflow;
    assert!(err.message().contains("not enough bits"));

    let err = PocketError::InvalidLength;
    assert!(err.message().contains("invalid length"));
}

#[test]
fn test_count_out_of_range_is_invalid_format() {
    let mut output = pocketplus::BitBuffer::new();
    assert!(matches!(
        pocketplus::count_encode(&mut output, 0),
        Err(PocketError::InvalidFormat(_))
    ));
    assert!(matches!(
        pocketplus::count_encode(&mut output, 70000),
        Err(PocketError::InvalidFormat(_))
    ));
    assert_eq!(output.len(), 0);
}

#[test]
fn test_decimal_rendering() {
    assert_eq!(PocketError::InvalidPacketSize(0).message(), "invalid packet size: 0 (must be > 0 and divisible by 8)");
    assert_eq!(
        PocketError::InvalidInputLength { expected: 65535, actual: 9 }.message(),
        "invalid input length: expected 65535, got 9"
    );
    assert_eq!(PocketError::InvalidRobustness(10).message(), "invalid robustness: 10 (must be 0-7)");
}
