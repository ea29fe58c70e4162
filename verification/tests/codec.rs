use bsdiff::encode_int64;
use bsdiff::offtin;
use bsdiff::CompressionAlgorithm;

#[test]
fn bsdf2_test_offtin_positive() {
    let buf = [0x42, 0x00, 0x00, 0x00, 0x00, 0x00, 0x00, 0x00];
    assert_eq!(offtin(&buf), 0x42);
}

#[test]
fn bsdf2_test_offtin_negative() {
    // Sign bit set: 0x8000000000000042 represents -66
    let buf = [0x42, 0x00, 0x00, 0x00, 0x00, 0x00, 0x00, 0x80];
    assert_eq!(offtin(&buf), -0x42);
}

#[test]
fn test_compression_algorithm_from_u8() {
    assert_eq!(CompressionAlgorithm::from_u8(0).unwrap(), CompressionAlgorithm::Plain);
    assert_eq!(CompressionAlgorithm::from_u8(1).unwrap(), CompressionAlgorithm::Bz2);
    assert_eq!(CompressionAlgorithm::from_u8(2).unwrap(), CompressionAlgorithm::Brotli);
    assert!(CompressionAlgorithm::from_u8(3).is_err());
}

#[test]
fn test_encode_int64_positive() {
    let mut buf = Vec::new();
    encode_int64(42, &mut buf);
    assert_eq!(buf, vec![42, 0, 0, 0, 0, 0, 0, 0]);
}

#[test]
fn test_encode_int64_negative() {
    let mut buf = Vec::new();
    encode_int64(-42, &mut buf);
    assert_eq!(buf, vec![42, 0, 0, 0, 0, 0, 0, 0x80]);
}

#[test]
fn test_encode_int64_zero() {
    let mut buf = Vec::new();
    encode_int64(0, &mut buf);
    assert_eq!(buf, vec![0; 8]);
}

#[test]
fn test_offtin_zero() {
    let buf = [0u8; 8];
    assert_eq!(offtin(&buf), 0);
}

#[test]
fn patch_test_offtin_positive() {
    let buf = [42, 0, 0, 0, 0, 0, 0, 0];
    assert_eq!(offtin(&buf), 42);
}

#[test]
fn patch_test_offtin_negative() {
    // 42 with sign bit set
    let buf = [42, 0, 0, 0, 0, 0, 0, 0x80];
    assert_eq!(offtin(&buf), -42);
}

#[test]
fn test_offtin_max_positive() {
    // Maximum positive value: 0x7FFFFFFFFFFFFFFF
    let buf = [0xFF, 0xFF, 0xFF, 0xFF, 0xFF, 0xFF, 0xFF, 0x7F];
    assert_eq!(offtin(&buf), i64::MAX);
}

#[test]
fn test_offtin_max_negative() {
    // Maximum negative value: sign bit + 0x7FFFFFFFFFFFFFFF
    let buf = [0xFF, 0xFF, 0xFF, 0xFF, 0xFF, 0xFF, 0xFF, 0xFF];
    assert_eq!(offtin(&buf), -i64::MAX);
}

#[test]
fn test_codec_round_trip_values() {
    let values = [0i64, 1, -1, 66, -66, 4096, -4096, i64::MAX, -i64::MAX];
    for &x in values.iter() {
        let mut buf = Vec::new();
        encode_int64(x, &mut buf);
        assert_eq!(buf.len(), 8);
        assert_eq!(offtin(&buf), x);
    }
}

#[test]
fn test_encode_minus_66() {
    let mut buf = Vec::new();
    encode_int64(-66, &mut buf);
    assert_eq!(buf, vec![0x42, 0, 0, 0, 0, 0, 0, 0x80]);
    assert_eq!(offtin(&buf), -66);
}

#[test]
fn test_compression_algorithm_tags() {
    assert_eq!(CompressionAlgorithm::Plain.to_u8(), 0);
    assert_eq!(CompressionAlgorithm::Bz2.to_u8(), 1);
    assert_eq!(CompressionAlgorithm::Brotli.to_u8(), 2);
    assert_eq!(CompressionAlgorithm::from_u8(255), Err(bsdiff::PatchError::InvalidData));
}
