//! The LZ4 block format, its compressor and its decompressor.
//!
//! `format` is the model of the wire format that the contracts speak of,
//! `compress` and `decompress` hold the executable code, `roundtrip` proves
//! that a compressed block decodes to its input, and `validity` proves what
//! makes a block invalid.

pub mod compress;
pub mod decompress;
pub mod format;
pub mod roundtrip;
pub mod validity;

pub use compress::{compress, compress_into_uninit, CompressError};
pub use decompress::{decompress, DecompressError};
