//! What can go wrong.

use vstd::prelude::*;

verus! {

#[derive(Debug)]
pub enum Error {
    /// The encoded filename does not fit its one-byte length field.
    FilenameTooLong(usize),
    /// The encoded comment does not fit its one-byte length field.
    CommentTooLong(usize),
    /// The filename holds a character that is not part of Latin-1.
    FilenameNotLatin1,
    /// The comment holds a character that is not part of Latin-1.
    CommentNotLatin1,
    /// A date or time field lies outside what the format can store.
    DateOutOfRange(&'static str),
    /// The bytes are no well-formed archive.
    InvalidArchive(&'static str),
    /// The input ends before the data does.
    Truncated,
    /// A stored checksum is not the one of the data.
    CrcMismatch { expected: u32, actual: u32 },
    /// Code lengths that describe no complete prefix code.
    BadHuffmanTree,
}

pub type Result<T> = std::result::Result<T, Error>;

} // verus!
