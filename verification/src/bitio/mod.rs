//! Bit-level reading and writing of a stream of 16-bit big-endian words.
//! The bit that is written first sits at the least significant end of its
//! word.

pub mod reader;
pub mod writer;

pub use reader::BitReader;
pub use writer::BitWriter;
