//! The LZ4 block format: a compressor and a decompressor for independent
//! blocks of bytes, without frames or checksums.
//!
//! `block::compress` turns bytes into a block and `block::decompress` turns
//! a block back into bytes. Both are total functions of their arguments;
//! the decompressor takes any bytes at all and answers with the decoded
//! data or with an error.

pub mod block;
