//! Huffman coding.

pub mod build;
pub mod code;
pub mod decode;
pub mod pretree;
