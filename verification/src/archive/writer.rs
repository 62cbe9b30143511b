//! Archive writer.

use vstd::prelude::*;
use vstd::slice::slice_subrange;

use crate::archive::attrs::EntryAttrs;
use crate::archive::datetime::DateTime;
use crate::archive::header;
use crate::archive::header::{EntryHeader, Header};
use crate::archive::latin1;
use crate::archive::latin1::encode_latin1;
use crate::block;
use crate::block::BlockWriter;
use crate::bytes::read_be32;
use crate::bytes;
use crate::constants::{
    level_max, level_normal, level_quick, LevelParams, BLOCK_TOKEN_LIMIT, ENTRY_HEADER_LEN,
    ENTRY_HEADER_PACK_MODE, INFO_HEADER_FLAGS, INFO_HEADER_LEN, INFO_HEADER_MAGIC,
    INFO_HEADER_VERSION, MAIN_SYMBOLS,
};
use crate::crc32;
use crate::crc32::crc32;
use crate::error::{Error, Result};
use crate::lz77;
use crate::roundtrip;

verus! {

/// The bytes, added up.
pub open spec fn byte_sum(b: Seq<u8>) -> int
    decreases b.len(),
{
    if b.len() == 0 {
        0
    } else {
        byte_sum(b.drop_last()) + b.last()
    }
}

/// The first ten bytes of an archive before their checksum is set.
pub open spec fn blank_info_header() -> Seq<u8> {
    seq![
        INFO_HEADER_MAGIC@[0],
        INFO_HEADER_MAGIC@[1],
        INFO_HEADER_MAGIC@[2],
        INFO_HEADER_MAGIC@[3],
        0u8,
        0u8,
        INFO_HEADER_VERSION,
        INFO_HEADER_FLAGS,
        0u8,
        0u8,
    ]
}

/// The first ten bytes of an archive. The fifth one is the sum of the others,
/// cut to a byte.
pub open spec fn info_header() -> Seq<u8> {
    blank_info_header().update(4, (byte_sum(blank_info_header()) % 256) as u8)
}

/// Build the first ten bytes of an archive.
pub(crate) fn make_info_header() -> (h: [u8; INFO_HEADER_LEN])
    ensures
        h@ == info_header(),
{
    let mut h = [0u8; INFO_HEADER_LEN];
    h[0] = INFO_HEADER_MAGIC[0];
    h[1] = INFO_HEADER_MAGIC[1];
    h[2] = INFO_HEADER_MAGIC[2];
    h[3] = INFO_HEADER_MAGIC[3];
    h[6] = INFO_HEADER_VERSION;
    h[7] = INFO_HEADER_FLAGS;
    let ghost blank = h@;
    assert(blank =~= blank_info_header());
    let mut sum: u8 = 0;
    let mut i: usize = 0;
    while i < INFO_HEADER_LEN
        invariant
            i <= INFO_HEADER_LEN,
            h@ == blank,
            blank.len() == INFO_HEADER_LEN,
            sum == byte_sum(blank.take(i as int)) % 256,
        decreases INFO_HEADER_LEN - i,
    {
        assert(blank.take(i + 1).drop_last() =~= blank.take(i as int));
        sum = ((sum as u32 + h[i] as u32) % 256) as u8;
        i += 1;
    }
    assert(blank.take(10) =~= blank);
    h[4] = sum;
    assert(h@ =~= info_header());
    h
}

/// How hard the writer looks for matches.
#[derive(Debug, Clone, Copy, PartialEq, Eq, Structural)]
pub enum Level {
    Quick,
    Normal,
    Max,
}

impl Default for Level {
    fn default() -> (l: Level)
        ensures
            l == Level::Normal,
    {
        Level::Normal
    }
}

impl Level {
    /// The parameters of the level.
    pub open spec fn spec_params(self) -> LevelParams {
        match self {
            Level::Quick => LevelParams { lazy_threshold: 1, multi_step: false },
            Level::Normal => LevelParams { lazy_threshold: 7, multi_step: false },
            Level::Max => LevelParams { lazy_threshold: 40, multi_step: true },
        }
    }

    /// The level that flags choose.
    pub open spec fn chosen(quick: bool, normal: bool, max: bool) -> Level {
        if quick {
            Level::Quick
        } else if max {
            Level::Max
        } else {
            Level::Normal
        }
    }

    /// The level that flags choose: the quick one before the others, and the
    /// normal one where none is set.
    pub fn from_flags(quick: bool, normal: bool, max: bool) -> (l: Level)
        ensures
            l == Level::chosen(quick, normal, max),
            l == (if quick {
                Level::Quick
            } else if max {
                Level::Max
            } else {
                Level::Normal
            }),
    {
        match (quick, normal, max) {
            (true, _, _) => Level::Quick,
            (_, _, true) => Level::Max,
            _ => Level::Normal,
        }
    }

    pub(crate) fn params(self) -> (p: LevelParams)
        ensures
            p == self.spec_params(),
    {
        match self {
            Level::Quick => level_quick(),
            Level::Normal => level_normal(),
            Level::Max => level_max(),
        }
    }
}

/// The quick level is chosen wherever its flag is set, and only there. The highest
/// one needs its own flag and not that of the quick one. All else is normal.
pub proof fn lemma_chosen(quick: bool, normal: bool, max: bool)
    ensures
        Level::chosen(quick, normal, max) == Level::Quick <==> quick,
        Level::chosen(quick, normal, max) == Level::Max <==> max && !quick,
        Level::chosen(quick, normal, max) == Level::Normal <==> !max && !quick,
{
}

/// A higher level puts off longer matches for the sake of still longer ones, and
/// follows more links to find them.
pub proof fn lemma_levels()
    ensures
        Level::Quick.spec_params().lazy_threshold == 1,
        Level::Normal.spec_params().lazy_threshold == 7,
        Level::Max.spec_params().lazy_threshold == 40,
        2 <= lz77::walks_of(Level::Quick.spec_params()) <= lz77::walks_of(
            Level::Normal.spec_params(),
        ) <= lz77::walks_of(Level::Max.spec_params()),
        lz77::walks_of(Level::Quick.spec_params()) == 16,
        lz77::walks_of(Level::Normal.spec_params()) == 128,
        lz77::walks_of(Level::Max.spec_params()) == 1024,
{
}

/// What an entry is to be called and how it is to be written.
#[derive(Debug, Clone)]
pub struct EntryBuilder {
    pub filename: String,
    pub comment: String,
    pub attrs: EntryAttrs,
    pub datetime: DateTime,
    pub level: Level,
}

impl EntryBuilder {
    /// An entry without a comment, with the usual attributes and level and the
    /// first date there is.
    pub fn new(filename: &str) -> (b: Self)
        ensures
            b.filename@ == filename@,
            b.comment@ == Seq::<char>::empty(),
            b.attrs.byte() == 0x0b,
            b.datetime == DateTime::first(),
            b.level == Level::Normal,
    {
        EntryBuilder {
            filename: filename.to_owned(),
            comment: String::new(),
            attrs: EntryAttrs::default(),
            datetime: DateTime::zero(),
            level: Level::default(),
        }
    }

    pub fn comment(self, c: &str) -> (b: Self)
        ensures
            b.comment@ == c@,
            b == (EntryBuilder { comment: b.comment, ..self }),
    {
        EntryBuilder { comment: c.to_owned(), ..self }
    }

    pub fn attrs(self, a: EntryAttrs) -> (b: Self)
        ensures
            b == (EntryBuilder { attrs: a, ..self }),
    {
        EntryBuilder { attrs: a, ..self }
    }

    pub fn datetime(self, d: DateTime) -> (b: Self)
        ensures
            b == (EntryBuilder { datetime: d, ..self }),
    {
        EntryBuilder { datetime: d, ..self }
    }

    pub fn level(self, l: Level) -> (b: Self)
        ensures
            b == (EntryBuilder { level: l, ..self }),
    {
        EntryBuilder { level: l, ..self }
    }
}

/// Compress data to a stream of blocks.
pub(crate) fn compress(data: &[u8], level: &LevelParams) -> (r: Result<Vec<u8>>)
    ensures
        r matches Ok(out) && out@ == roundtrip::compressed(data@, *level),
{
    let tokens = lz77::encode(data, level);
    let mut bw = BlockWriter::new(Vec::new());
    let n = tokens.len();
    let mut i: usize = 0;
    let ghost none = Seq::new(MAIN_SYMBOLS as nat, |i: int| 0u8);
    let ghost all = block::stream_bits(none, tokens@);
    proof {
        reveal(roundtrip::compressed);
        assert forall|k: int| 0 <= k < tokens@.len() implies lz77::token_ok(
            #[trigger] tokens@[k],
        ) by {
            lz77::lemma_tokens_ok(data@, *level, 0);
        }
        assert(tokens@.skip(0) =~= tokens@);
        assert(bw.bits() + all =~= all);
    }
    while i < n
        invariant
            i <= n == tokens@.len(),
            bw.wf(),
            bw.prefix() == Seq::<u8>::empty(),
            forall|k: int| 0 <= k < tokens@.len() ==> lz77::token_ok(#[trigger] tokens@[k]),
            all == bw.bits() + block::stream_bits(bw.lengths(), tokens@.skip(i as int)),
        decreases n - i,
    {
        let ghost left = tokens@.skip(i as int);
        let ghost before = bw.bits();
        let end: usize = if n - i <= BLOCK_TOKEN_LIMIT {
            n
        } else {
            i + BLOCK_TOKEN_LIMIT
        };
        let chunk = slice_subrange(tokens.as_slice(), i, end);
        proof {
            let k = end - i;
            assert(chunk@ =~= left.take(k));
            assert forall|j: int| 0 <= j < chunk@.len() implies lz77::token_ok(
                #[trigger] chunk@[j],
            ) by {
                assert(chunk@[j] == tokens@[i + j]);
            }
            block::lemma_chunk_ok(chunk@);
            assert(left.skip(k) =~= tokens@.skip(end as int));
        }
        bw.write_block(chunk)?;
        proof {
            assert(all =~= bw.bits() + block::stream_bits(
                bw.lengths(),
                tokens@.skip(end as int),
            ));
        }
        i = end;
    }
    proof {
        assert(block::stream_bits(bw.lengths(), tokens@.skip(n as int)) =~= Seq::<bool>::empty());
        assert(all =~= bw.bits());
    }
    let (out, _) = bw.finish()?;
    Ok(out)
}

/// What an entry is to be called and how it is to be written, in the terms of
/// the format.
#[verifier::ext_equal]
pub struct Meta {
    pub filename: Seq<u8>,
    pub comment: Seq<u8>,
    pub attrs: u8,
    pub datetime: DateTime,
    pub level: Level,
}

/// The names of the entry can be written.
pub open spec fn names_ok(b: EntryBuilder) -> bool {
    &&& latin1::is_latin1(b.filename@)
    &&& latin1::is_latin1(b.comment@)
    &&& b.filename@.len() <= 255
    &&& b.comment@.len() <= 255
}

/// What is wrong with the names of an entry that cannot be written. The filename
/// comes first.
pub open spec fn names_error(b: EntryBuilder) -> Error {
    if !latin1::is_latin1(b.filename@) {
        Error::FilenameNotLatin1
    } else if b.filename@.len() > 255 {
        Error::FilenameTooLong(b.filename@.len() as usize)
    } else if !latin1::is_latin1(b.comment@) {
        Error::CommentNotLatin1
    } else {
        Error::CommentTooLong(b.comment@.len() as usize)
    }
}

pub open spec fn meta_of(b: EntryBuilder) -> Meta {
    Meta {
        filename: latin1::bytes_of(b.filename@),
        comment: latin1::bytes_of(b.comment@),
        attrs: b.attrs.byte(),
        datetime: b.datetime,
        level: b.level,
    }
}

/// The length of the entry's header.
pub open spec fn meta_len(m: Meta) -> nat {
    ENTRY_HEADER_LEN as nat + m.filename.len() + m.comment.len()
}

/// The payload of an entry.
pub open spec fn payload_of(m: Meta, data: Seq<u8>) -> Seq<u8> {
    roundtrip::compressed(data, m.level.spec_params())
}

/// What the header of an entry says.
pub open spec fn header_of(m: Meta, data: Seq<u8>) -> Header {
    Header {
        attrs: m.attrs,
        original: data.len() as u32,
        compressed: payload_of(m, data).len() as u32,
        pack_mode: ENTRY_HEADER_PACK_MODE,
        merged: 0,
        date: m.datetime.word(),
        data_crc: crc32::checksum(data),
        filename: m.filename,
        comment: m.comment,
    }
}

/// An entry: its header, then its payload.
pub open spec fn entry_bytes(m: Meta, data: Seq<u8>) -> Seq<u8> {
    header::header_bytes(header_of(m, data)) + payload_of(m, data)
}

/// Names are accepted where every character is one of the first 256, and there
/// are no more than 255 of them.
pub proof fn lemma_names(b: EntryBuilder)
    ensures
        names_ok(b) <==> {
            &&& b.filename@.len() < 256
            &&& b.comment@.len() < 256
            &&& forall|i: int|
                0 <= i < b.filename@.len() ==> (#[trigger] b.filename@[i]) as int <= 0xff
            &&& forall|i: int|
                0 <= i < b.comment@.len() ==> (#[trigger] b.comment@[i]) as int <= 0xff
        },
{
}

/// What is wrong with the filename is told before what is wrong with the comment,
/// and characters that have no byte before too many of them.
pub proof fn lemma_names_error(b: EntryBuilder)
    requires
        !names_ok(b),
    ensures
        names_error(b) == Error::FilenameNotLatin1 <==> exists|i: int|
            0 <= i < b.filename@.len() && (#[trigger] b.filename@[i]) as int > 0xff,
        b.filename@.len() <= 255 ==> !(names_error(b) is FilenameTooLong),
        b.filename@.len() > 255 && b.filename@.len() <= usize::MAX ==> names_error(b)
            == Error::FilenameNotLatin1 || names_error(b) == Error::FilenameTooLong(
            b.filename@.len() as usize,
        ),
        names_error(b) is CommentNotLatin1 ==> b.filename@.len() <= 255 && exists|i: int|
            0 <= i < b.comment@.len() && (#[trigger] b.comment@[i]) as int > 0xff,
        names_error(b) matches Error::CommentTooLong(n) ==> b.comment@.len() > 255 && n
            == b.comment@.len() as usize && b.filename@.len() <= 255,
        names_error(b) is FilenameNotLatin1 || names_error(b) is FilenameTooLong || names_error(
            b,
        ) is CommentNotLatin1 || names_error(b) is CommentTooLong,
{
}

/// Where everything stands in an entry that was written. The numbers have their
/// least significant byte first, but for the date.
pub proof fn lemma_entry_layout(m: Meta, data: Seq<u8>)
    requires
        m.filename.len() <= 255,
        m.comment.len() <= 255,
        data.len() <= u32::MAX,
        payload_of(m, data).len() <= u32::MAX,
    ensures
        ({
            let b = entry_bytes(m, data);
            let n = m.filename.len() as int;
            let c = m.comment.len() as int;
            let payload = b.skip(31 + n + c);
            &&& b[0] == m.attrs
            &&& b[2] + 256 * b[3] + 65536 * b[4] + 16777216 * b[5] == data.len()
            &&& b[6] + 256 * b[7] + 65536 * b[8] + 16777216 * b[9] == payload.len()
            &&& b[11] == 2
            &&& b[12] == 0
            &&& b[14] == c
            &&& 16777216 * b[18] + 65536 * b[19] + 256 * b[20] + b[21] == m.datetime.word()
            &&& b[22] + 256 * b[23] + 65536 * b[24] + 16777216 * b[25] == crc32::checksum(data)
            &&& b[30] == n
            &&& b.subrange(31, 31 + n) == m.filename
            &&& b.subrange(31 + n, 31 + n + c) == m.comment
            &&& payload == roundtrip::compressed(data, m.level.spec_params())
        }),
{
    let h = header_of(m, data);
    let head = header::header_bytes(h);
    let b = entry_bytes(m, data);
    let n = m.filename.len() as int;
    let c = m.comment.len() as int;
    header::lemma_header_layout(h);
    assert(forall|i: int| 0 <= i < head.len() ==> #[trigger] b[i] == head[i]);
    assert(b.skip(31 + n + c) =~= payload_of(m, data));
    assert(b.subrange(31, 31 + n) =~= m.filename) by {
        assert forall|i: int| 0 <= i < n implies b.subrange(31, 31 + n)[i] == m.filename[i] by {
            assert(head[31 + i] == h.filename[i]);
        }
    }
    assert(b.subrange(31 + n, 31 + n + c) =~= m.comment) by {
        assert forall|i: int| 0 <= i < c implies b.subrange(31 + n, 31 + n + c)[i]
            == m.comment[i] by {
            assert(head[31 + n + i] == h.comment[i]);
        }
    }
}

/// The first ten bytes of an archive: the three letters, zeros, the version and
/// the flags, and in the fifth byte the sum of the others, cut to a byte.
pub proof fn lemma_info_layout()
    ensures
        info_header().len() == 10,
        info_header()[0] == 0x4c,
        info_header()[1] == 0x5a,
        info_header()[2] == 0x58,
        info_header()[3] == 0,
        info_header()[5] == 0,
        info_header()[6] == 0x0a,
        info_header()[7] == 0x04,
        info_header()[8] == 0,
        info_header()[9] == 0,
        info_header()[4] == (0x4c + 0x5a + 0x58 + 0x0a + 0x04) % 256,
{
    reveal_with_fuel(byte_sum, 11);
    let b = blank_info_header();
    assert(byte_sum(b) == 0x4c + 0x5a + 0x58 + 0x0a + 0x04);
}

/// Writes an archive into a vector.
pub struct ArchiveWriter {
    inner: Vec<u8>,
}

impl ArchiveWriter {
    /// What the vector holds.
    pub closed spec fn bytes(&self) -> Seq<u8> {
        self.inner@
    }

    /// Begin an archive.
    pub fn new(inner: Vec<u8>) -> (r: Result<Self>)
        ensures
            r matches Ok(w) && w.bytes() == inner@ + info_header(),
    {
        let mut inner = inner;
        let h = make_info_header();
        inner.extend_from_slice(&h);
        Ok(ArchiveWriter { inner })
    }

    /// Begin an entry. Its header is zeros until the entry is finished.
    pub fn add_entry(&mut self, builder: EntryBuilder) -> (r: Result<EntryWriter<'_>>)
        ensures
            match r {
                Ok(w) => {
                    &&& names_ok(builder)
                    &&& w.entry.meta() == meta_of(builder)
                    &&& w.entry.data() == Seq::<u8>::empty()
                    &&& w.entry.start() == old(self).bytes().len()
                    &&& w.archive.bytes() == old(self).bytes() + Seq::new(
                        meta_len(meta_of(builder)),
                        |i: int| 0u8,
                    )
                    &&& *final(self) == *final(w.archive)
                },
                Err(e) => {
                    &&& !names_ok(builder)
                    &&& e == names_error(builder)
                    &&& *final(self) == *old(self)
                },
            },
    {
        let filename = match encode_latin1(builder.filename.as_str()) {
            Some(bytes) => bytes,
            None => {
                return Err(Error::FilenameNotLatin1);
            },
        };
        if filename.len() > 255 {
            return Err(Error::FilenameTooLong(filename.len()));
        }
        let comment = match encode_latin1(builder.comment.as_str()) {
            Some(bytes) => bytes,
            None => {
                return Err(Error::CommentNotLatin1);
            },
        };
        if comment.len() > 255 {
            return Err(Error::CommentTooLong(comment.len()));
        }
        let start: usize = self.inner.len();
        let len: usize = ENTRY_HEADER_LEN + filename.len() + comment.len();
        let ghost before = self.inner@;
        let mut i: usize = 0;
        assert(self.inner@ =~= before + Seq::new(0, |i: int| 0u8));
        while i < len
            invariant
                i <= len,
                self.inner@ == before + Seq::new(i as nat, |i: int| 0u8),
            decreases len - i,
        {
            self.inner.push(0);
            i += 1;
            assert(self.inner@ =~= before + Seq::new(i as nat, |i: int| 0u8));
        }
        let entry = PendingEntry {
            filename,
            comment,
            attrs: builder.attrs,
            datetime: builder.datetime,
            level: builder.level,
            start,
            uncompressed: Vec::new(),
        };
        Ok(EntryWriter { archive: self, entry })
    }

    /// Give the vector back.
    pub fn finish(self) -> (r: Result<Vec<u8>>)
        ensures
            r matches Ok(v) && v@ == self.bytes(),
    {
        Ok(self.inner)
    }
}

/// An entry under way.
pub struct PendingEntry {
    filename: Vec<u8>,
    comment: Vec<u8>,
    attrs: EntryAttrs,
    datetime: DateTime,
    level: Level,
    start: usize,
    uncompressed: Vec<u8>,
}

impl PendingEntry {
    pub closed spec fn meta(&self) -> Meta {
        Meta {
            filename: self.filename@,
            comment: self.comment@,
            attrs: self.attrs.byte(),
            datetime: self.datetime,
            level: self.level,
        }
    }

    /// Where the entry begins in the archive.
    pub closed spec fn start(&self) -> nat {
        self.start as nat
    }

    /// The bytes of the entry so far.
    pub closed spec fn data(&self) -> Seq<u8> {
        self.uncompressed@
    }
}

/// Takes the bytes of one entry. They are compressed when the entry is
/// finished, for which all of them are needed.
pub struct EntryWriter<'a> {
    pub archive: &'a mut ArchiveWriter,
    pub entry: PendingEntry,
}

impl<'a> EntryWriter<'a> {
    /// The archive ends with the place that is kept for the entry's header.
    pub open spec fn wf(&self) -> bool {
        self.archive.bytes().len() == self.entry.start() + meta_len(self.entry.meta())
    }

    /// Append bytes to the entry. All of them are taken.
    pub fn write(&mut self, buf: &[u8]) -> (r: Result<usize>)
        ensures
            r == Ok::<usize, Error>(buf@.len() as usize),
            final(self).archive == old(self).archive,
            final(self).entry.meta() == old(self).entry.meta(),
            final(self).entry.start() == old(self).entry.start(),
            final(self).entry.data() == old(self).entry.data() + buf@,
    {
        self.entry.uncompressed.extend_from_slice(buf);
        assert(self.entry.data() =~= old(self).entry.data() + buf@);
        Ok(buf.len())
    }

    /// Append bytes to the entry.
    pub fn write_all(&mut self, buf: &[u8]) -> (r: Result<()>)
        ensures
            r is Ok,
            final(self).archive == old(self).archive,
            final(self).entry.meta() == old(self).entry.meta(),
            final(self).entry.start() == old(self).entry.start(),
            final(self).entry.data() == old(self).entry.data() + buf@,
    {
        self.write(buf)?;
        Ok(())
    }

    /// Does nothing: the bytes wait until the entry is finished.
    pub fn flush(&mut self) -> (r: Result<()>)
        ensures
            r is Ok,
            *final(self) == *old(self),
    {
        Ok(())
    }

    /// Compress the bytes of the entry, append the payload, and fill the header
    /// in.
    pub fn finish(self) -> (r: Result<()>)
        requires
            self.wf(),
        ensures
            r is Ok,
            final(self.archive).bytes() == old(self.archive).bytes().take(
                self.entry.start() as int,
            ) + entry_bytes(self.entry.meta(), self.entry.data()),
    {
        let ghost m = self.entry.meta();
        let ghost data = self.entry.data();
        let ghost before = self.archive.bytes();
        let entry = self.entry;
        let archive = self.archive;
        let params = entry.level.params();
        let mut payload = compress(&entry.uncompressed, &params)?;
        let date = entry.datetime.pack();
        let h = EntryHeader {
            attrs: entry.attrs.bits(),
            original: entry.uncompressed.len() as u32,
            compressed: payload.len() as u32,
            pack_mode: ENTRY_HEADER_PACK_MODE,
            merged: 0,
            date: read_be32(&date, 0),
            data_crc: crc32(&entry.uncompressed),
            filename: entry.filename,
            comment: entry.comment,
        };
        proof {
            let w = m.datetime.word();
            assert(date@.subrange(0, 4) =~= bytes::be32(w));
            bytes::lemma_be32(w, date@, 0);
            assert(h@ =~= header_of(m, data));
            header::lemma_header_len(h@);
        }
        let head = h.to_bytes();
        archive.inner.append(&mut payload);
        let start: usize = entry.start;
        let ghost placed = archive.inner@;
        let mut i: usize = 0;
        while i < head.len()
            invariant
                i <= head@.len(),
                start + head@.len() <= placed.len(),
                archive.inner@.len() == placed.len(),
                forall|k: int|
                    0 <= k < placed.len() ==> #[trigger] archive.inner@[k] == (if start <= k < start
                        + i {
                        head@[k - start]
                    } else {
                        placed[k]
                    }),
            decreases head@.len() - i,
        {
            assert(archive.inner.len() <= usize::MAX);
            archive.inner[start + i] = head[i];
            i += 1;
        }
        proof {
            assert(archive.inner@ =~= before.take(start as int) + entry_bytes(m, data));
        }
        Ok(())
    }
}

} // verus!
