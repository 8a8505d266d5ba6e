use compressor::select::{detect_algorithm, Algorithm};

#[test]
fn text_extensions_pick_rle() {
    assert_eq!(detect_algorithm(b"txt"), Algorithm::Rle);
    assert_eq!(detect_algorithm(b"json"), Algorithm::Rle);
    assert_eq!(detect_algorithm(b"md"), Algorithm::Rle);
}

#[test]
fn binary_extensions_pick_lz() {
    assert_eq!(detect_algorithm(b"zip"), Algorithm::Lz);
    assert_eq!(detect_algorithm(b"jpg"), Algorithm::Lz);
    assert_eq!(detect_algorithm(b"docx"), Algorithm::Lz);
}

#[test]
fn extension_case_is_ignored() {
    assert_eq!(detect_algorithm(b"PNG"), Algorithm::Lz);
    assert_eq!(detect_algorithm(b"Pdf"), Algorithm::Lz);
    assert_eq!(detect_algorithm(b"TXT"), Algorithm::Rle);
}

#[test]
fn unknown_extension_falls_back_to_rle() {
    assert_eq!(detect_algorithm(b"bin"), Algorithm::Rle);
    assert_eq!(detect_algorithm(b""), Algorithm::Rle);
}
