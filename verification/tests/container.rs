use bsdiff::encode_int64;
use bsdiff::parse_bsdf2_header;
use bsdiff::patch_bsdf2;
use bsdiff::Bsdf2Writer;
use bsdiff::CompressionAlgorithm;
use bsdiff::PatchError;

const BSDIFF_MAGIC: &[u8; 8] = b"BSDIFF40";

/// A container with no compression on any stream, built by hand.
fn plain_container(ctrl: &[u8], diff: &[u8], extra: &[u8], new_size: i64) -> Vec<u8> {
    let mut p = Vec::new();
    p.extend_from_slice(b"BSDF2");
    p.push(0);
    p.push(0);
    p.push(0);
    encode_int64(ctrl.len() as i64, &mut p);
    encode_int64(diff.len() as i64, &mut p);
    encode_int64(new_size, &mut p);
    p.extend_from_slice(ctrl);
    p.extend_from_slice(diff);
    p.extend_from_slice(extra);
    p
}

fn tuple(add: i64, copy: i64, seek: i64) -> Vec<u8> {
    let mut t = Vec::new();
    encode_int64(add, &mut t);
    encode_int64(copy, &mut t);
    encode_int64(seek, &mut t);
    t
}

#[test]
fn test_parse_invalid_magic() {
    let invalid = vec![0u8; 32];
    assert!(parse_bsdf2_header(&invalid).is_err());
}

#[test]
fn test_parse_negative_lengths() {
    let mut data = vec![0u8; 32];
    data[0..8].copy_from_slice(BSDIFF_MAGIC);
    // Set negative length (sign bit set)
    data[8] = 0x01;
    data[15] = 0x80; // Sign bit

    assert!(parse_bsdf2_header(&data).is_err());
}

#[test]
fn test_writer_creation() {
    let writer = Bsdf2Writer::new(
        CompressionAlgorithm::Brotli,
        CompressionAlgorithm::Brotli,
        CompressionAlgorithm::Bz2,
    );
    assert_eq!(writer.ctrl_alg(), CompressionAlgorithm::Brotli);
    assert_eq!(writer.written_output(), 0);
}

#[test]
fn test_legacy_writer() {
    let writer = Bsdf2Writer::new_legacy();
    assert_eq!(writer.ctrl_alg(), CompressionAlgorithm::Bz2);
    assert_eq!(writer.diff_alg(), CompressionAlgorithm::Bz2);
    assert_eq!(writer.extra_alg(), CompressionAlgorithm::Bz2);
}

#[test]
fn test_parse_wrong_magic_text() {
    let mut data = vec![0u8; 40];
    data[0..8].copy_from_slice(b"XYZXYZXY");
    assert_eq!(parse_bsdf2_header(&data).unwrap_err(), PatchError::InvalidData);
}

#[test]
fn test_parse_misaligned_control() {
    // Control length 23 bytes: not a multiple of 24.
    let p = plain_container(&[0u8; 23], &[], &[], 0);
    assert_eq!(parse_bsdf2_header(&p).unwrap_err(), PatchError::InvalidData);
}

#[test]
fn test_parse_new_size_over_limit() {
    // Declared output of 3 GiB exceeds the 2 GiB cap.
    let p = plain_container(&[], &[], &[], 3 * 1024 * 1024 * 1024);
    assert_eq!(parse_bsdf2_header(&p).unwrap_err(), PatchError::ResourceExhausted);
}

#[test]
fn test_parse_truncated_header() {
    let p = vec![0u8; 31];
    assert_eq!(parse_bsdf2_header(&p).unwrap_err(), PatchError::InvalidData);
}

#[test]
fn test_parse_unknown_tag_byte() {
    let mut p = plain_container(&[], &[], &[], 0);
    p[5] = 7;
    assert_eq!(parse_bsdf2_header(&p).unwrap_err(), PatchError::InvalidData);
}

#[test]
fn test_apply_empty_output() {
    // A declared size of zero with empty streams terminates at once.
    let p = plain_container(&[], &[], &[], 0);
    let old = b"some old bytes";
    let mut new = Vec::new();
    patch_bsdf2(old, &p, &mut new).unwrap();
    assert!(new.is_empty());
}

#[test]
fn test_apply_seek_to_end_of_old() {
    // A seek landing exactly at the end of `old` is legal.
    let old = b"abcd";
    let mut ctrl = tuple(0, 0, 4);
    ctrl.extend_from_slice(&tuple(0, 2, 0));
    let p = plain_container(&ctrl, &[], b"xy", 2);
    let mut new = Vec::new();
    patch_bsdf2(old, &p, &mut new).unwrap();
    assert_eq!(new, b"xy");
}

#[test]
fn test_apply_read_past_old_substitutes_zero() {
    // Adds past the end of `old` read zeroes, as the reference applier does.
    let old = b"ab";
    let ctrl = tuple(4, 0, 0);
    let diff = [1u8, 1, 7, 9];
    let p = plain_container(&ctrl, &diff, &[], 4);
    let mut new = Vec::new();
    patch_bsdf2(old, &p, &mut new).unwrap();
    assert_eq!(new, &[b'a' + 1, b'b' + 1, 7, 9]);
}

#[test]
fn test_apply_negative_seek_to_zero() {
    // Seeking back to position zero is legal.
    let old = b"abcd";
    let mut ctrl = tuple(2, 0, -2);
    ctrl.extend_from_slice(&tuple(2, 0, 0));
    let diff = [0u8, 0, 0, 0];
    let p = plain_container(&ctrl, &diff, &[], 4);
    let mut new = Vec::new();
    patch_bsdf2(old, &p, &mut new).unwrap();
    assert_eq!(new, b"abab");
}

#[test]
fn test_apply_seek_below_zero_rejected() {
    let old = b"abcd";
    let ctrl = tuple(0, 0, -1);
    let p = plain_container(&ctrl, &[], &[], 0);
    let mut new = Vec::new();
    assert_eq!(patch_bsdf2(old, &p, &mut new).unwrap_err(), PatchError::InvalidData);
}

#[test]
fn test_apply_unconsumed_diff_rejected() {
    // Leftover diff bytes after the last tuple are a structural fault.
    let old = b"abcd";
    let ctrl = tuple(1, 0, 0);
    let diff = [0u8, 0];
    let p = plain_container(&ctrl, &diff, &[], 1);
    let mut new = Vec::new();
    assert_eq!(patch_bsdf2(old, &p, &mut new).unwrap_err(), PatchError::InvalidData);
}

#[test]
fn test_apply_unconsumed_extra_rejected() {
    let old = b"abcd";
    let ctrl = tuple(0, 1, 0);
    let p = plain_container(&ctrl, &[], b"xy", 1);
    let mut new = Vec::new();
    assert_eq!(patch_bsdf2(old, &p, &mut new).unwrap_err(), PatchError::InvalidData);
}

#[test]
fn test_apply_size_mismatch_rejected() {
    // The tuples must produce exactly the declared size.
    let old = b"abcd";
    let ctrl = tuple(0, 1, 0);
    let p = plain_container(&ctrl, &[], b"x", 2);
    let mut new = Vec::new();
    assert_eq!(patch_bsdf2(old, &p, &mut new).unwrap_err(), PatchError::InvalidData);
}

#[test]
fn test_apply_negative_tuple_length_rejected() {
    let old = b"abcd";
    let ctrl = tuple(-1, 0, 0);
    let p = plain_container(&ctrl, &[], &[], 0);
    let mut new = Vec::new();
    assert_eq!(patch_bsdf2(old, &p, &mut new).unwrap_err(), PatchError::InvalidData);
}

#[test]
fn test_writer_plain_container_parses_back() {
    // What the writer frames, the parser hands back stream for stream.
    let mut w = Bsdf2Writer::new(
        CompressionAlgorithm::Plain,
        CompressionAlgorithm::Plain,
        CompressionAlgorithm::Plain,
    );
    w.add_control_entry(bsdiff::ControlEntry {
        diff_size: 3,
        extra_size: 2,
        offset_increment: -1,
    })
        .unwrap();
    w.write_diff_stream(&[9, 8, 7]).unwrap();
    w.write_extra_stream(&[1, 2]).unwrap();
    let mut out = Vec::new();
    w.close(&mut out).unwrap();
    let (new_size, ctrl, diff, extra) = parse_bsdf2_header(&out).unwrap();
    assert_eq!(new_size, 5);
    assert_eq!(ctrl.len(), 24);
    assert_eq!(diff, vec![9, 8, 7]);
    assert_eq!(extra, vec![1, 2]);
    assert_eq!(bsdiff::offtin(&ctrl[0..8]), 3);
    assert_eq!(bsdiff::offtin(&ctrl[8..16]), 2);
    assert_eq!(bsdiff::offtin(&ctrl[16..24]), -1);
}

#[test]
fn test_writer_bz2_container_parses_back() {
    let mut w = Bsdf2Writer::new_legacy();
    w.add_control_entry(bsdiff::ControlEntry {
        diff_size: 0,
        extra_size: 4,
        offset_increment: 0,
    })
        .unwrap();
    w.write_extra_stream(b"wxyz").unwrap();
    let mut out = Vec::new();
    w.close(&mut out).unwrap();
    assert_eq!(&out[0..8], BSDIFF_MAGIC);
    let (new_size, ctrl, diff, extra) = parse_bsdf2_header(&out).unwrap();
    assert_eq!(new_size, 4);
    assert_eq!(ctrl.len(), 24);
    assert_eq!(diff.len(), 0);
    assert_eq!(extra, b"wxyz");
}
