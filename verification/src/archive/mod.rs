//! Archive container.
//!
//! An archive is ten bytes of info header, then the entries, each one a header
//! with its name and comment and a compressed payload:
//!
//! ```text
//! [ info header ]
//! [ entry header ][ name ][ comment ][ payload ]
//! [ entry header ][ name ][ comment ][ payload ]
//! ...
//! ```

pub mod attrs;
pub mod calendar;
pub mod datetime;
pub mod header;
pub mod latin1;
pub mod plain_datetime;
pub mod reader;
pub mod roundtrip;
pub mod writer;

pub use crate::archive::attrs::EntryAttrs;
pub use crate::archive::datetime::DateTime;
pub use crate::archive::reader::{ArchiveReader, Entry};
pub use crate::archive::writer::{ArchiveWriter, EntryBuilder, EntryWriter};
