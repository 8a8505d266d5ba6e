use compressor::{compress_rle, decompress_rle};

#[test]
fn rle_test_compress_simple() {
    let input = b"AABBBCCCC";
    let compressed = compress_rle(input);
    assert_eq!(compressed, vec![b'A', 2, b'B', 3, b'C', 4]);
}

#[test]
fn test_decompress_simple() {
    let compressed = vec![b'A', 2, b'B', 3, b'C', 4];
    let decompressed = decompress_rle(&compressed);
    assert_eq!(decompressed, b"AABBBCCCC");
}

#[test]
fn test_roundtrip() {
    let original = b"AABBBCCCCDDDDEEEE";
    let compressed = compress_rle(original);
    let decompressed = decompress_rle(&compressed);
    assert_eq!(decompressed, original);
}

#[test]
fn rle_test_empty_input() {
    let input = b"";
    let compressed = compress_rle(input);
    assert_eq!(compressed, Vec::<u8>::new());
    let decompressed = decompress_rle(&compressed);
    assert_eq!(decompressed, input);
}

#[test]
fn rle_test_single_character() {
    let input = b"A";
    let compressed = compress_rle(input);
    assert_eq!(compressed, vec![b'A', 1]);
    let decompressed = decompress_rle(&compressed);
    assert_eq!(decompressed, input);
}

#[test]
fn rle_long_run_splits_at_255() {
    let input = vec![b'A'; 300];
    let compressed = compress_rle(&input);
    assert_eq!(compressed, vec![b'A', 255, b'A', 45]);
    let decompressed = decompress_rle(&compressed);
    assert_eq!(decompressed, input);
}

#[test]
fn rle_decompress_drops_trailing_lone_byte() {
    let decompressed = decompress_rle(&[b'A', 2, b'B']);
    assert_eq!(decompressed, b"AA");
}

#[test]
fn rle_decompress_empty() {
    assert_eq!(decompress_rle(b""), Vec::<u8>::new());
}
