//! ZPS1 block compression and a reader for unmodeled ZPAQ archives.
//!
//! The crate has two independent halves:
//! * `codec` implements the ZPS1 stream framing over the LZ77 block codec in
//!   `lz77`, whose token model lives in `tokens`.  Every stream produced by
//!   `compress` is proved to decode back to the original bytes.
//! * `zpaq` scans byte buffers for ZPAQ block headers and extracts segment
//!   payloads from unmodeled (zero-component) blocks.

pub mod codec;
pub mod error;
pub mod lz77;
pub mod tokens;
pub mod zpaq;

pub use codec::{
    compress, compression_options_for_level, decompress, CompressionOptions, DecompressionOptions,
};
pub use error::ZparsError;
pub use zpaq::{extract_unmodeled_bytes, inspect_bytes, ZpaqBlockHeader, ZpaqExtractedSegment};
