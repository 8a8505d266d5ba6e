//! Verified byte-stream compression.
//!
//! A sliding-window Lempel-Ziv codec and a run-length codec, each a
//! pair of pure byte-buffer transforms with a proved lossless round
//! trip, and a selector that picks a codec from a file-name extension.

pub mod lz;
pub mod rle;
pub mod select;

pub use lz::compress_lz;
pub use lz::decompress_lz;
pub use rle::compress_rle;
pub use rle::decompress_rle;
