use odbc2parquet::decimal::{decode_signed_be, twos_complement_big_int, twos_complement_i128};
use odbc2parquet::EncodeError;

fn fast(text: &[u8], length: usize) -> Result<Vec<u8>, EncodeError> {
    let mut digits = Vec::new();
    twos_complement_i128(&text.to_vec(), length, &mut digits)
}

fn wide(text: &[u8], length: usize) -> Result<Vec<u8>, EncodeError> {
    let mut digits = Vec::new();
    twos_complement_big_int(&text.to_vec(), length, &mut digits)
}

#[test]
fn decimal_exact_bytes() {
    // 123.45 with the point stripped is 12345 = 0x3039.
    assert_eq!(fast(b"123.45", 3).unwrap(), vec![0x00, 0x30, 0x39]);
    // Negative values are sign-extended with 0xFF, not zero-filled.
    assert_eq!(fast(b"-1", 2).unwrap(), vec![0xFF, 0xFF]);
    assert_eq!(fast(b"-123.45", 3).unwrap(), vec![0xFF, 0xCF, 0xC7]);
    assert_eq!(fast(b"+7", 1).unwrap(), vec![0x07]);
    assert_eq!(fast(b"0", 4).unwrap(), vec![0x00, 0x00, 0x00, 0x00]);
    assert_eq!(fast(b"-128", 1).unwrap(), vec![0x80]);
    assert_eq!(fast(b"127", 1).unwrap(), vec![0x7F]);
}

#[test]
fn decimal_wide_path_writes_real_encodings() {
    // The arbitrary-precision path must transform, not echo, its input.
    assert_eq!(wide(b"-1", 2).unwrap(), vec![0xFF, 0xFF]);
    assert_eq!(wide(b"255", 2).unwrap(), vec![0x00, 0xFF]);
    // A 40-digit value needs more than 128 bits.
    let big = b"1000000000000000000000000000000000000000";
    let encoded = wide(big, 17).unwrap();
    assert_eq!(encoded.len(), 17);
    assert_eq!(encoded[0], 0x02);
    assert_eq!(wide(big, 16), Err(EncodeError::DecimalOutOfRange));
}

#[test]
fn decimal_paths_agree_on_overlap() {
    // Fast 128-bit arithmetic and arbitrary-precision arithmetic must
    // produce identical byte output wherever both apply.
    let cases: &[&[u8]] = &[
        b"0",
        b"1",
        b"-1",
        b"127",
        b"-128",
        b"128",
        b"-129",
        b"99999999999999999999999999999999999999",
        b"-99999999999999999999999999999999999999",
        b"123456789.123456789",
        b"-0.00000001",
    ];
    for text in cases {
        for length in [16usize, 17, 20] {
            assert_eq!(fast(text, length), wide(text, length), "{:?} {}", text, length);
        }
    }
}

#[test]
fn decimal_round_trip() {
    for value in [0i128, 1, -1, 12345, -12345, i64::MAX as i128, i64::MIN as i128] {
        let text = value.to_string().into_bytes();
        let encoded = fast(&text, 16).unwrap();
        assert_eq!(decode_signed_be(&encoded), Some(value));
    }
}

#[test]
fn decimal_malformed_text() {
    assert_eq!(fast(b"", 4), Err(EncodeError::MalformedDecimal));
    assert_eq!(fast(b"abc", 4), Err(EncodeError::MalformedDecimal));
    assert_eq!(fast(b"-", 4), Err(EncodeError::MalformedDecimal));
    assert_eq!(fast(b".", 4), Err(EncodeError::MalformedDecimal));
    assert_eq!(fast(b"12a", 4), Err(EncodeError::MalformedDecimal));
    assert_eq!(wide(b"12 34", 4), Err(EncodeError::MalformedDecimal));
}

#[test]
fn decimal_out_of_range() {
    // 300 does not fit one signed byte.
    assert_eq!(fast(b"300", 1), Err(EncodeError::DecimalOutOfRange));
    assert_eq!(wide(b"300", 1), Err(EncodeError::DecimalOutOfRange));
    // 39 digits overflow the 128-bit fast path.
    let over = b"170141183460469231731687303715884105728";
    assert_eq!(fast(over, 17), Err(EncodeError::DecimalOutOfRange));
    // The wide path still handles it.
    assert!(wide(over, 17).is_ok());
}
