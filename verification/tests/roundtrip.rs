use bsdiff::diff;
use bsdiff::offtin;
use bsdiff::patch;
use bsdiff::patch_bsdf2;
use bsdiff::qsufsort;
use bsdiff::Bsdf2Writer;
use bsdiff::ControlEntry;
use bsdiff::CompressionAlgorithm;

/// Runs the raw-form round trip and returns the reconstructed bytes.
fn raw_round_trip(old: &[u8], new: &[u8]) -> (Vec<u8>, Vec<u8>) {
    let mut raw = Vec::new();
    diff(old, new, &mut raw).unwrap();
    let mut rebuilt = Vec::new();
    patch(old, &raw, &mut rebuilt).unwrap();
    (raw, rebuilt)
}

/// Splits a raw tuple stream into control entries and the two flat streams.
fn split_raw(raw: &[u8]) -> (Vec<ControlEntry>, Vec<u8>, Vec<u8>) {
    let mut entries = Vec::new();
    let mut diff_bytes = Vec::new();
    let mut extra_bytes = Vec::new();
    let mut i: usize = 0;
    while i < raw.len() {
        let add = offtin(&raw[i..i + 8]);
        let copy = offtin(&raw[i + 8..i + 16]);
        let seek = offtin(&raw[i + 16..i + 24]);
        i += 24;
        diff_bytes.extend_from_slice(&raw[i..i + add as usize]);
        i += add as usize;
        extra_bytes.extend_from_slice(&raw[i..i + copy as usize]);
        i += copy as usize;
        entries.push(ControlEntry { diff_size: add, extra_size: copy, offset_increment: seek });
    }
    (entries, diff_bytes, extra_bytes)
}

/// Frames a raw tuple stream as a container under the given algorithms and
/// applies it back.
fn container_round_trip(
    old: &[u8],
    new: &[u8],
    algs: (CompressionAlgorithm, CompressionAlgorithm, CompressionAlgorithm),
    legacy: bool,
) -> Vec<u8> {
    let mut raw = Vec::new();
    diff(old, new, &mut raw).unwrap();
    let (entries, diff_bytes, extra_bytes) = split_raw(&raw);
    let mut w = if legacy {
        Bsdf2Writer::new_legacy()
    } else {
        Bsdf2Writer::new(algs.0, algs.1, algs.2)
    };
    for e in entries {
        w.add_control_entry(e).unwrap();
    }
    w.write_diff_stream(&diff_bytes).unwrap();
    w.write_extra_stream(&extra_bytes).unwrap();
    let mut container = Vec::new();
    w.close(&mut container).unwrap();
    let mut rebuilt = Vec::new();
    patch_bsdf2(old, &container, &mut rebuilt).unwrap();
    rebuilt
}

#[test]
fn test_diff_identical_buffers() {
    let old = [0x00u8, 0x01, 0x02, 0x03];
    let new = [0x00u8, 0x01, 0x02, 0x03];
    let (raw, rebuilt) = raw_round_trip(&old, &new);
    assert_eq!(rebuilt, new);
    // One tuple mixing the whole of `old` with zero diff bytes.
    assert_eq!(raw.len(), 24 + 4);
    assert_eq!(offtin(&raw[0..8]), 4);
    assert_eq!(offtin(&raw[8..16]), 0);
    assert_eq!(&raw[24..28], &[0, 0, 0, 0]);
}

#[test]
fn test_diff_single_byte_substitution() {
    let old = b"Hello, world!";
    let new = b"Hello, World!";
    let (raw, rebuilt) = raw_round_trip(old, new);
    assert_eq!(rebuilt, new);
    // The diff byte standing for offset 7 is 'W' - 'w' modulo 256.
    let (entries, diff_bytes, _) = split_raw(&raw);
    assert!(!entries.is_empty());
    assert!(diff_bytes.contains(&b'W'.wrapping_sub(b'w')));
    assert_eq!(diff_bytes[7], b'W'.wrapping_sub(b'w'));
}

#[test]
fn test_diff_from_empty_old() {
    let old = b"";
    let new = b"abcdef";
    let (raw, rebuilt) = raw_round_trip(old, new);
    assert_eq!(rebuilt, new);
    // One tuple (0, 6, 0) with the extra stream holding the literals.
    assert_eq!(raw.len(), 24 + 6);
    assert_eq!(offtin(&raw[0..8]), 0);
    assert_eq!(offtin(&raw[8..16]), 6);
    assert_eq!(offtin(&raw[16..24]), 0);
    assert_eq!(&raw[24..30], b"abcdef");
}

#[test]
fn test_diff_to_empty_new() {
    let old = b"something old";
    let new = b"";
    let (_, rebuilt) = raw_round_trip(old, new);
    assert!(rebuilt.is_empty());
}

#[test]
fn test_diff_general_edit() {
    let old = b"the quick brown fox jumps over the lazy dog";
    let new = b"the quick red fox leaps over the lazy dog, twice";
    let (_, rebuilt) = raw_round_trip(old, new);
    assert_eq!(rebuilt, new);
}

#[test]
fn test_diff_binary_blobs() {
    let mut old = Vec::new();
    let mut new = Vec::new();
    let mut x: u32 = 1;
    for i in 0..4096u32 {
        x = x.wrapping_mul(1664525).wrapping_add(1013904223);
        old.push((x >> 24) as u8);
        if i % 97 == 0 {
            new.push(i as u8);
        }
        new.push((x >> 24) as u8);
    }
    let (_, rebuilt) = raw_round_trip(&old, &new);
    assert_eq!(rebuilt, new);
}

#[test]
fn test_diff_of_applied_patch_agrees() {
    // Re-diffing a reconstruction gives a patch with the same effect.
    let old = b"some shared base material";
    let new = b"some shared base material, amended";
    let (_, first) = raw_round_trip(old, new);
    let (_, second) = raw_round_trip(old, &first);
    assert_eq!(first, second);
}

#[test]
fn test_container_round_trip_all_algorithms() {
    let old = b"round and round the compressed streams go";
    let new = b"round and round and round the uncompressed streams went";
    let plain = CompressionAlgorithm::Plain;
    let bz2 = CompressionAlgorithm::Bz2;
    let brotli = CompressionAlgorithm::Brotli;
    assert_eq!(container_round_trip(old, new, (plain, plain, plain), false), new);
    assert_eq!(container_round_trip(old, new, (bz2, bz2, bz2), false), new);
    assert_eq!(container_round_trip(old, new, (brotli, brotli, brotli), false), new);
    assert_eq!(container_round_trip(old, new, (plain, bz2, brotli), false), new);
    assert_eq!(container_round_trip(old, new, (bz2, bz2, bz2), true), new);
}

#[test]
fn test_suffix_array_inverts() {
    let old = b"banana bandana";
    let n = old.len();
    let mut ia = vec![0i64; n + 1];
    let mut va = vec![0i64; n + 1];
    qsufsort(&mut ia, &mut va, old);
    for i in 0..=n {
        assert!(0 <= va[i] && va[i] as usize <= n);
        assert!(0 <= ia[i] && ia[i] as usize <= n);
        assert_eq!(ia[va[i] as usize] as usize, i);
    }
}

#[test]
fn test_suffix_array_sorted() {
    let old = b"abracadabra";
    let n = old.len();
    let mut ia = vec![0i64; n + 1];
    let mut va = vec![0i64; n + 1];
    qsufsort(&mut ia, &mut va, old);
    for r in 0..n {
        let a = &old[ia[r] as usize..];
        let b = &old[ia[r + 1] as usize..];
        assert!(a <= b, "suffixes out of order at rank {}", r);
    }
}

#[test]
fn test_raw_patch_rejects_truncated_stream() {
    let old = b"abcdef";
    let mut raw = Vec::new();
    diff(old, b"abcdefg", &mut raw).unwrap();
    let mut rebuilt = Vec::new();
    assert!(patch(old, &raw[..raw.len() - 1], &mut rebuilt).is_err());
}

#[test]
fn test_raw_patch_rejects_mid_tuple_end() {
    let old = b"abcdef";
    let raw = [0u8; 23];
    let mut rebuilt = Vec::new();
    assert_eq!(
        patch(old, &raw, &mut rebuilt).unwrap_err(),
        bsdiff::PatchError::UnexpectedEof
    );
}

#[test]
fn test_raw_patch_negative_length_kind() {
    let old = b"abcd";
    let mut raw = Vec::new();
    bsdiff::encode_int64(-1, &mut raw);
    bsdiff::encode_int64(0, &mut raw);
    bsdiff::encode_int64(0, &mut raw);
    let mut rebuilt = Vec::new();
    assert_eq!(
        patch(old, &raw, &mut rebuilt).unwrap_err(),
        bsdiff::PatchError::InvalidData
    );
}

#[test]
fn test_raw_patch_old_overrun_kind() {
    // The raw form has no zero-substitution: reading past `old` is EOF.
    let old = b"ab";
    let mut raw = Vec::new();
    bsdiff::encode_int64(3, &mut raw);
    bsdiff::encode_int64(0, &mut raw);
    bsdiff::encode_int64(0, &mut raw);
    raw.extend_from_slice(&[0, 0, 0]);
    let mut rebuilt = Vec::new();
    assert_eq!(
        patch(old, &raw, &mut rebuilt).unwrap_err(),
        bsdiff::PatchError::UnexpectedEof
    );
}

#[test]
fn test_raw_patch_bad_seek_kind() {
    let old = b"abcd";
    let mut raw = Vec::new();
    bsdiff::encode_int64(0, &mut raw);
    bsdiff::encode_int64(0, &mut raw);
    bsdiff::encode_int64(-1, &mut raw);
    let mut rebuilt = Vec::new();
    assert_eq!(
        patch(old, &raw, &mut rebuilt).unwrap_err(),
        bsdiff::PatchError::InvalidData
    );
}

#[test]
fn test_suffix_array_rank_zero_is_empty_suffix() {
    let old = b"mississippi";
    let n = old.len();
    let mut ia = vec![0i64; n + 1];
    let mut va = vec![0i64; n + 1];
    qsufsort(&mut ia, &mut va, old);
    assert_eq!(ia[0] as usize, n);
}
