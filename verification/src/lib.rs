//! Compressor and decompressor for the Amiga LZX archive format.
//!
//! This is the format of the `LZX` tool on the Amiga, not the one of the same
//! name in cabinet files.
//!
//! The layers, from the bottom up: [`bitio`] reads and writes bits, [`huffman`]
//! codes symbols, [`lz77`] finds matches, [`block`] and [`decoder`] write and
//! read the compressed stream, and [`archive`] is the container. Each layer
//! states what it does over a mathematical model. [`wire`] states the stream
//! format on its bits, [`roundtrip`] and [`archive::roundtrip`] that what was
//! written comes back, and [`size`] how long compressed data can get.

pub mod archive;
pub mod bitio;
pub mod bits;
pub mod block;
pub mod bytes;
pub mod constants;
pub mod crc32;
pub mod decoder;
pub mod error;
pub mod hash;
pub mod huffman;
pub mod lz77;
pub mod matcher;
pub mod paths;
pub mod roundtrip;
pub mod size;
pub mod wire;

pub use crate::archive::writer::Level;
pub use crate::archive::{
    ArchiveReader, ArchiveWriter, DateTime, Entry, EntryAttrs, EntryBuilder, EntryWriter,
};
pub use crate::error::{Error, Result};
