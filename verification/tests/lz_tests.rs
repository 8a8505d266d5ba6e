use compressor::{compress_lz, decompress_lz};

#[test]
fn lz_test_compress_simple() {
    let input = b"ABABABAB";
    let compressed = compress_lz(input);
    let decompressed = decompress_lz(&compressed);
    assert_eq!(decompressed, input);
}

#[test]
fn test_compress_with_repeats() {
    let input = b"ABCABCABC";
    let compressed = compress_lz(input);
    let decompressed = decompress_lz(&compressed);
    assert_eq!(decompressed, input);
}

#[test]
fn lz_test_empty_input() {
    let input = b"";
    let compressed = compress_lz(input);
    assert_eq!(compressed, Vec::<u8>::new());
    let decompressed = decompress_lz(&compressed);
    assert_eq!(decompressed, input);
}

#[test]
fn lz_test_single_character() {
    let input = b"A";
    let compressed = compress_lz(input);
    let decompressed = decompress_lz(&compressed);
    assert_eq!(decompressed, input);
}

#[test]
fn test_no_repetition() {
    let input = b"ABCDEF";
    let compressed = compress_lz(input);
    let decompressed = decompress_lz(&compressed);
    assert_eq!(decompressed, input);
}

#[test]
fn lz_no_match_encodes_two_bytes_per_byte() {
    let input = b"ABCDEF";
    let compressed = compress_lz(input);
    assert_eq!(compressed.len(), 2 * input.len());
    assert_eq!(
        compressed,
        vec![0, b'A', 0, b'B', 0, b'C', 0, b'D', 0, b'E', 0, b'F']
    );
}

#[test]
fn lz_exploits_repetition() {
    let input = b"ABABABAB";
    let compressed = compress_lz(input);
    assert!(compressed.len() < 2 * input.len());
    // four literals, then one match reaching back four bytes for four bytes
    assert_eq!(compressed, vec![0, b'A', 0, b'B', 0, b'A', 0, b'B', 1, 4, 4]);
    assert_eq!(decompress_lz(&compressed), input);
}

#[test]
fn lz_two_equal_bytes_stay_literals() {
    let input = b"AA";
    let compressed = compress_lz(input);
    assert_eq!(compressed, vec![0, b'A', 0, b'A']);
    assert_eq!(decompress_lz(&compressed), input);
}

#[test]
fn lz_match_length_can_exceed_offset_on_decode() {
    // offset 1, length 5: the copy reads bytes it has just appended
    let stream = vec![0, b'X', 1, 1, 5];
    assert_eq!(decompress_lz(&stream), b"XXXXXX");
}

#[test]
fn lz_offsets_stay_inside_window() {
    // repetitive buffer much longer than the window
    let mut input = Vec::new();
    for i in 0..120usize {
        input.push(b"ABCD"[i % 4]);
        input.push(b'A' + (i % 26) as u8);
    }
    let compressed = compress_lz(&input);
    assert_eq!(decompress_lz(&compressed), input);
    // walk the token stream: every match offset is in 1..=20 and never
    // reaches back past what has been produced
    let mut i = 0usize;
    let mut produced = 0usize;
    while i < compressed.len() {
        match compressed[i] {
            0 => {
                produced += 1;
                i += 2;
            }
            1 => {
                let offset = compressed[i + 1] as usize;
                let length = compressed[i + 2] as usize;
                assert!(1 <= offset && offset <= 20);
                assert!(offset <= produced);
                produced += length;
                i += 3;
            }
            _ => panic!("unknown tag in encoder output"),
        }
    }
}

#[test]
fn lz_truncated_literal_token_is_ignored() {
    let input = b"ABCABCABC";
    let mut stream = compress_lz(input);
    stream.push(0); // lone literal tag, payload missing
    assert_eq!(decompress_lz(&stream), input);
}

#[test]
fn lz_truncated_match_token_is_ignored() {
    let input = b"ABABABAB";
    let mut stream = compress_lz(input);
    stream.push(1);
    stream.push(3); // match tag with offset but no length
    assert_eq!(decompress_lz(&stream), input);
}

#[test]
fn lz_decode_stops_at_unknown_tag() {
    let stream = vec![0, b'A', 0xFF, 0, b'B'];
    assert_eq!(decompress_lz(&stream), b"A");
}

#[test]
fn lz_decode_lone_tag_bytes() {
    assert_eq!(decompress_lz(&[0]), Vec::<u8>::new());
    assert_eq!(decompress_lz(&[1]), Vec::<u8>::new());
    assert_eq!(decompress_lz(&[1, 5]), Vec::<u8>::new());
}

#[test]
fn lz_decode_clamps_overlong_offset() {
    // offset larger than the output so far: the copy start clamps to the
    // front of the output
    let stream = vec![0, b'A', 0, b'B', 1, 9, 3];
    assert_eq!(decompress_lz(&stream), b"ABABA");
}
