//! A directory archiver built on static Huffman coding: bit streams over
//! in-memory buffers, code trees and symbol tables, the archive's header
//! records, and the archive writer and reader.

pub mod bitwise;
pub mod write;
pub mod read;
pub mod tree;
pub mod error;
pub mod coding;
pub mod charset;
pub mod utils;
pub mod block;
pub mod compress;
pub mod decompress;
