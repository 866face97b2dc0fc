//! Codec round trips: zigzag varints, int64 delta coding, varchar records.

use mimdb::compression::{
    compress_int64_column, compress_varchar_column, decompress_int64_column,
    decompress_varchar_column,
};
use mimdb::varint::{decode_vle, encode_vle};

fn vle_roundtrip_cases(test_cases: Vec<i64>) {
    for value in test_cases {
        let mut encoded = Vec::new();
        encode_vle(value, &mut encoded);
        let (decoded, bytes_read) = decode_vle(&encoded).unwrap();

        assert_eq!(value, decoded);
        assert_eq!(bytes_read, encoded.len());
    }
}

#[test]
fn compression_test_vle_encoding() {
    let test_cases = vec![0, 1, -1, 127, -127, 128, -128, 16383, -16383];
    vle_roundtrip_cases(test_cases);
}

#[test]
fn main_test_vle_encoding() {
    let test_cases = vec![0, 1, -1, 127, -127, 128, -128, 16383, -16383];
    vle_roundtrip_cases(test_cases);
}

#[test]
fn compression_test_int64_compression() {
    let data = vec![100, 102, 101, 103, 104, 105]; // good for delta compression

    let compressed = compress_int64_column(&data).unwrap();
    let decompressed = decompress_int64_column(&compressed, data.len()).unwrap();

    assert_eq!(data, decompressed);
}

#[test]
fn main_test_int64_compression() {
    let data = vec![100, 102, 101, 103, 104, 105];

    let compressed = compress_int64_column(&data).unwrap();
    let decompressed = decompress_int64_column(&compressed, data.len()).unwrap();

    assert_eq!(data, decompressed);
}

#[test]
fn compression_test_varchar_compression() {
    let data = vec!["Hello".to_string(), "World".to_string(), "Test".to_string()];

    let compressed = compress_varchar_column(&data).unwrap();
    let decompressed = decompress_varchar_column(&compressed, data.len()).unwrap();

    assert_eq!(data, decompressed);
}

#[test]
fn main_test_varchar_compression() {
    let data = vec!["Hello".to_string(), "World".to_string(), "Test".to_string()];

    let compressed = compress_varchar_column(&data).unwrap();
    let decompressed = decompress_varchar_column(&compressed, data.len()).unwrap();

    assert_eq!(data, decompressed);
}

#[test]
fn test_int64_roundtrip_extremes() {
    // delta + varint + Zstd round trip including the integer extremes
    let xs = vec![100, 102, 101, 103, 104, 105, i64::MIN, i64::MAX, 0];
    let compressed = compress_int64_column(&xs).unwrap();
    let decompressed = decompress_int64_column(&compressed, xs.len()).unwrap();
    assert_eq!(xs, decompressed);
}

#[test]
fn test_int64_roundtrip_sizes() {
    for n in [0usize, 1, 2, 7, 100, 1000] {
        let xs: Vec<i64> = (0..n as i64).map(|i| i * 37 - 11).collect();
        let compressed = compress_int64_column(&xs).unwrap();
        let decompressed = decompress_int64_column(&compressed, xs.len()).unwrap();
        assert_eq!(xs, decompressed);
    }
}

#[test]
fn test_int64_all_equal() {
    let xs: Vec<i64> = vec![42; 500];
    let compressed = compress_int64_column(&xs).unwrap();
    let decompressed = decompress_int64_column(&compressed, xs.len()).unwrap();
    assert_eq!(xs, decompressed);
}

#[test]
fn test_varchar_edge_characters() {
    // edge characters: empty, multi-byte, newline, quote, tab
    let ss = vec![
        "".to_string(),
        "\u{1F680}".to_string(),
        "a\nb".to_string(),
        "quote\"x".to_string(),
        "tab\tx".to_string(),
    ];
    let compressed = compress_varchar_column(&ss).unwrap();
    assert!(!compressed.is_empty());
    let decompressed = decompress_varchar_column(&compressed, ss.len()).unwrap();
    assert_eq!(ss, decompressed);
}

#[test]
fn test_varchar_with_nul() {
    let ss = vec!["a\0b".to_string(), "\0".to_string(), "plain".to_string()];
    let compressed = compress_varchar_column(&ss).unwrap();
    let decompressed = decompress_varchar_column(&compressed, ss.len()).unwrap();
    assert_eq!(ss, decompressed);
}

#[test]
fn test_empty_columns_compress_to_empty() {
    assert!(compress_int64_column(&[]).unwrap().is_empty());
    assert!(compress_varchar_column(&[]).unwrap().is_empty());
    assert!(decompress_int64_column(&[], 0).unwrap().is_empty());
    assert!(decompress_varchar_column(&[], 0).unwrap().is_empty());
}

#[test]
fn test_zstd_actually_compresses() {
    // a run of equal values must shrink; this fails if the compressor
    // handed its input back unchanged
    let xs: Vec<i64> = vec![7; 100_000];
    let compressed = compress_int64_column(&xs).unwrap();
    assert!(compressed.len() < 10_000);
}

#[test]
fn test_lz4_actually_compresses() {
    let ss: Vec<String> = vec!["abcabcabcabc".to_string(); 10_000];
    let compressed = compress_varchar_column(&ss).unwrap();
    let raw: usize = ss.iter().map(|s| s.len() + 4).sum();
    assert!(compressed.len() < raw / 2);
}

#[test]
fn test_truncated_int64_payload_is_rejected() {
    let xs = vec![1i64, 2, 3];
    let compressed = compress_int64_column(&xs).unwrap();
    // asking for more rows than were encoded must fail
    assert!(decompress_int64_column(&compressed, 4).is_err());
}

#[test]
fn test_garbage_varchar_payload_is_rejected() {
    let garbage = vec![0xffu8, 0x01, 0x02, 0x03];
    assert!(decompress_varchar_column(&garbage, 1).is_err());
}
