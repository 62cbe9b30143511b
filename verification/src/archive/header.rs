//! Entry headers.
//!
//! An entry header is 31 bytes, then the name, then the comment. Its numbers
//! have their least significant byte first, but for the date. Its checksum
//! covers all of it, where the checksum itself counts as zeros.

use vstd::prelude::*;

use crate::bytes;
use crate::bytes::{push_le32, read_be32, read_le32};
use crate::constants::{CRC32_INIT, ENTRY_HEADER_HOST_OS, ENTRY_HEADER_LEN, ENTRY_HEADER_MACHINE};
use crate::crc32;
use crate::crc32::Crc32;
use crate::error::{Error, Result};

verus! {

/// What an entry header says.
#[verifier::ext_equal]
pub struct Header {
    pub attrs: u8,
    /// How many bytes the entry has.
    pub original: u32,
    /// How many bytes of payload follow.
    pub compressed: u32,
    pub pack_mode: u8,
    /// Not zero: the entry is of a group that shares one payload.
    pub merged: u8,
    /// The date and time in one number.
    pub date: u32,
    /// The checksum of the entry's bytes.
    pub data_crc: u32,
    pub filename: Seq<u8>,
    pub comment: Seq<u8>,
}

/// The first 31 bytes of a header.
#[verifier::opaque]
pub open spec fn fixed_bytes(h: Header, crc: u32) -> Seq<u8> {
    seq![h.attrs, 0u8] + bytes::le32(h.original) + bytes::le32(h.compressed) + seq![
        ENTRY_HEADER_MACHINE,
        h.pack_mode,
        h.merged,
        0u8,
        h.comment.len() as u8,
        ENTRY_HEADER_HOST_OS,
        0u8,
        0u8,
    ] + bytes::be32(h.date) + bytes::le32(h.data_crc) + bytes::le32(crc) + seq![
        h.filename.len() as u8,
    ]
}

/// The checksum of a header.
pub open spec fn header_crc(h: Header) -> u32 {
    crc32::checksum(fixed_bytes(h, 0) + h.filename + h.comment)
}

/// A header.
pub open spec fn header_bytes(h: Header) -> Seq<u8> {
    fixed_bytes(h, header_crc(h)) + h.filename + h.comment
}

/// The header with its checksum as zeros.
pub open spec fn without_crc(b: Seq<u8>) -> Seq<u8> {
    Seq::new(
        b.len(),
        |i: int|
            if 26 <= i < 30 {
                0u8
            } else {
                b[i]
            },
    )
}

/// The name that follows the first 31 bytes.
pub open spec fn name_in(b: Seq<u8>) -> Seq<u8> {
    b.subrange(31, 31 + b[30])
}

/// The comment behind the name.
pub open spec fn comment_in(b: Seq<u8>) -> Seq<u8> {
    b.subrange(31 + b[30], 31 + b[30] + b[14])
}

/// The length of the header that begins here.
pub open spec fn header_len(b: Seq<u8>) -> int {
    31 + b[30] + b[14]
}

/// What the header that begins here says.
pub open spec fn header_in(b: Seq<u8>) -> Header {
    Header {
        attrs: b[0],
        original: bytes::le32_at(b, 2),
        compressed: bytes::le32_at(b, 6),
        pack_mode: b[11],
        merged: b[12],
        date: bytes::be32_at(b, 18),
        data_crc: bytes::le32_at(b, 22),
        filename: name_in(b),
        comment: comment_in(b),
    }
}

/// Read a header, where there is one: what it says, and the bytes behind it.
pub open spec fn read_header(b: Seq<u8>) -> (Result<Option<Header>>, Seq<u8>) {
    if b.len() == 0 {
        (Ok(None), b)
    } else if b.len() < ENTRY_HEADER_LEN || b.len() < header_len(b) {
        (Err(Error::Truncated), Seq::empty())
    } else {
        let expected = bytes::le32_at(b, 26);
        let actual = crc32::checksum(without_crc(b.take(header_len(b))));
        if expected != actual {
            (Err(Error::CrcMismatch { expected, actual }), b.skip(header_len(b)))
        } else {
            (Ok(Some(header_in(b))), b.skip(header_len(b)))
        }
    }
}

/// The length of a header.
pub proof fn lemma_header_len(h: Header)
    ensures
        header_bytes(h).len() == ENTRY_HEADER_LEN + h.filename.len() + h.comment.len(),
{
    reveal(fixed_bytes);
}

/// A header that was written comes back.
pub proof fn lemma_header_round_trip(h: Header, rest: Seq<u8>)
    requires
        h.filename.len() <= 255,
        h.comment.len() <= 255,
    ensures
        read_header(header_bytes(h) + rest) == (Ok::<Option<Header>, Error>(Some(h)), rest),
{
    reveal(fixed_bytes);
    let crc = header_crc(h);
    let fixed = fixed_bytes(h, crc);
    let head = header_bytes(h);
    let b = head + rest;
    assert(fixed.len() == 31);
    assert(b.take(31) =~= fixed);
    assert(b[30] == h.filename.len() && b[14] == h.comment.len());
    assert(header_len(b) == head.len());
    assert(b.take(head.len() as int) =~= head);
    assert(b.skip(head.len() as int) =~= rest);
    assert(b.subrange(2, 6) =~= bytes::le32(h.original));
    assert(b.subrange(6, 10) =~= bytes::le32(h.compressed));
    assert(b.subrange(18, 22) =~= bytes::be32(h.date));
    assert(b.subrange(22, 26) =~= bytes::le32(h.data_crc));
    assert(b.subrange(26, 30) =~= bytes::le32(crc));
    bytes::lemma_le32(h.original, b, 2);
    bytes::lemma_le32(h.compressed, b, 6);
    bytes::lemma_be32(h.date, b, 18);
    bytes::lemma_le32(h.data_crc, b, 22);
    bytes::lemma_le32(crc, b, 26);
    assert(name_in(b) =~= h.filename);
    assert(comment_in(b) =~= h.comment);
    assert(without_crc(head) =~= fixed_bytes(h, 0) + h.filename + h.comment);
    assert(header_in(b) =~= h);
}

/// The first 31 bytes of a header, one by one.
proof fn lemma_fixed_bytes(h: Header, crc: u32)
    ensures
        fixed_bytes(h, crc).len() == 31,
        fixed_bytes(h, crc)[0] == h.attrs,
        fixed_bytes(h, crc)[1] == 0,
        fixed_bytes(h, crc).subrange(2, 6) == bytes::le32(h.original),
        fixed_bytes(h, crc).subrange(6, 10) == bytes::le32(h.compressed),
        fixed_bytes(h, crc)[10] == 0x0a,
        fixed_bytes(h, crc)[11] == h.pack_mode,
        fixed_bytes(h, crc)[12] == h.merged,
        fixed_bytes(h, crc)[13] == 0,
        fixed_bytes(h, crc)[14] == h.comment.len() as u8,
        fixed_bytes(h, crc)[15] == 0x0a,
        fixed_bytes(h, crc)[16] == 0,
        fixed_bytes(h, crc)[17] == 0,
        fixed_bytes(h, crc).subrange(18, 22) == bytes::be32(h.date),
        fixed_bytes(h, crc).subrange(22, 26) == bytes::le32(h.data_crc),
        fixed_bytes(h, crc).subrange(26, 30) == bytes::le32(crc),
        fixed_bytes(h, crc)[30] == h.filename.len() as u8,
{
    reveal(fixed_bytes);
}

/// A number with its least significant byte first.
proof fn lemma_le32_sum(b: Seq<u8>, i: int, v: u32)
    requires
        0 <= i,
        i + 4 <= b.len(),
        b.subrange(i, i + 4) == bytes::le32(v),
    ensures
        b[i] + 256 * b[i + 1] + 65536 * b[i + 2] + 16777216 * b[i + 3] == v,
{
    let s = b.subrange(i, i + 4);
    assert(s[0] == b[i] && s[1] == b[i + 1] && s[2] == b[i + 2] && s[3] == b[i + 3]);
}

/// The headers with two checksums differ in these four bytes alone.
proof fn lemma_fixed_crc(h: Header, crc: u32)
    ensures
        fixed_bytes(h, crc).update(26, 0).update(27, 0).update(28, 0).update(29, 0)
            == fixed_bytes(h, 0),
{
    reveal(fixed_bytes);
    assert(fixed_bytes(h, crc).update(26, 0).update(27, 0).update(28, 0).update(29, 0)
        =~= fixed_bytes(h, 0));
}

/// Where each field stands in a header. The numbers at 2, 6, 22 and 26 have their
/// least significant byte first, the date at 18 its most significant one. The
/// checksum at 26 is that of the header with zeros in its own place.
pub proof fn lemma_header_layout(h: Header)
    requires
        h.filename.len() <= 255,
        h.comment.len() <= 255,
    ensures
        ({
            let b = header_bytes(h);
            let n = h.filename.len() as int;
            &&& b.len() == 31 + n + h.comment.len()
            &&& b[0] == h.attrs
            &&& b[1] == 0
            &&& b[2] + 256 * b[3] + 65536 * b[4] + 16777216 * b[5] == h.original
            &&& b[6] + 256 * b[7] + 65536 * b[8] + 16777216 * b[9] == h.compressed
            &&& b[10] == 0x0a
            &&& b[11] == h.pack_mode
            &&& b[12] == h.merged
            &&& b[13] == 0
            &&& b[14] == h.comment.len()
            &&& b[15] == 0x0a
            &&& b[16] == 0
            &&& b[17] == 0
            &&& 16777216 * b[18] + 65536 * b[19] + 256 * b[20] + b[21] == h.date
            &&& b[22] + 256 * b[23] + 65536 * b[24] + 16777216 * b[25] == h.data_crc
            &&& b[26] + 256 * b[27] + 65536 * b[28] + 16777216 * b[29] == crc32::checksum(
                b.update(26, 0).update(27, 0).update(28, 0).update(29, 0),
            )
            &&& b[30] == h.filename.len()
            &&& forall|i: int| 0 <= i < n ==> #[trigger] b[31 + i] == h.filename[i]
            &&& forall|i: int|
                0 <= i < h.comment.len() ==> #[trigger] b[31 + n + i] == h.comment[i]
        }),
{
    let b = header_bytes(h);
    let crc = header_crc(h);
    let fixed = fixed_bytes(h, crc);
    lemma_fixed_bytes(h, crc);
    lemma_fixed_crc(h, crc);
    lemma_le32_sum(fixed, 2, h.original);
    lemma_le32_sum(fixed, 6, h.compressed);
    lemma_le32_sum(fixed, 22, h.data_crc);
    lemma_le32_sum(fixed, 26, crc);
    bytes::lemma_be32(h.date, fixed, 18);
    assert(forall|i: int| 0 <= i < 31 ==> #[trigger] b[i] == fixed[i]);
    assert(b.update(26, 0).update(27, 0).update(28, 0).update(29, 0) =~= fixed.update(26, 0).update(
        27,
        0,
    ).update(28, 0).update(29, 0) + h.filename + h.comment);
}

/// What is read of a header, byte by byte, of any bytes that are long enough for
/// the name whose length stands at 30 and the comment whose length stands at 14.
/// Nothing but the checksum decides whether the header is accepted.
pub proof fn lemma_header_fields(b: Seq<u8>)
    requires
        b.len() >= 31,
        b.len() >= 31 + b[30] + b[14],
    ensures
        ({
            let end = 31 + b[30] + b[14];
            let stored = b[26] + 256 * b[27] + 65536 * b[28] + 16777216 * b[29];
            let actual = crc32::checksum(
                b.take(end).update(26, 0).update(27, 0).update(28, 0).update(29, 0),
            );
            &&& read_header(b).1 == b.skip(end)
            &&& match read_header(b).0 {
                Ok(Some(h)) => {
                    &&& stored == actual
                    &&& h.attrs == b[0]
                    &&& h.original == b[2] + 256 * b[3] + 65536 * b[4] + 16777216 * b[5]
                    &&& h.compressed == b[6] + 256 * b[7] + 65536 * b[8] + 16777216 * b[9]
                    &&& h.pack_mode == b[11]
                    &&& h.merged == b[12]
                    &&& h.date == 16777216 * b[18] + 65536 * b[19] + 256 * b[20] + b[21]
                    &&& h.data_crc == b[22] + 256 * b[23] + 65536 * b[24] + 16777216 * b[25]
                    &&& h.filename.len() == b[30]
                    &&& h.comment.len() == b[14]
                    &&& forall|i: int|
                        0 <= i < h.filename.len() ==> #[trigger] h.filename[i] == b[31 + i]
                    &&& forall|i: int|
                        0 <= i < h.comment.len() ==> #[trigger] h.comment[i] == b[31 + b[30] + i]
                },
                Err(Error::CrcMismatch { expected, actual: found }) => {
                    &&& stored != actual
                    &&& expected == stored
                    &&& found == actual
                },
                _ => false,
            }
        }),
{
    let end = 31 + b[30] + b[14];
    assert(b.take(end).update(26, 0).update(27, 0).update(28, 0).update(29, 0) =~= without_crc(
        b.take(end),
    ));
}

/// Bytes that end within a header are refused, and nothing is left of them. Only
/// where there is no byte at all does the archive end.
pub proof fn lemma_header_ends(b: Seq<u8>)
    requires
        b.len() < 31 || b.len() < 31 + b[30] + b[14],
    ensures
        b.len() == 0 ==> read_header(b).0 == Ok::<Option<Header>, Error>(None),
        b.len() > 0 ==> read_header(b).0 == Err::<Option<Header>, Error>(Error::Truncated),
        read_header(b).1.len() == 0,
{
}

/// An entry header.
pub struct EntryHeader {
    pub attrs: u8,
    pub original: u32,
    pub compressed: u32,
    pub pack_mode: u8,
    pub merged: u8,
    pub date: u32,
    pub data_crc: u32,
    pub filename: Vec<u8>,
    pub comment: Vec<u8>,
}

impl View for EntryHeader {
    type V = Header;

    open spec fn view(&self) -> Header {
        Header {
            attrs: self.attrs,
            original: self.original,
            compressed: self.compressed,
            pack_mode: self.pack_mode,
            merged: self.merged,
            date: self.date,
            data_crc: self.data_crc,
            filename: self.filename@,
            comment: self.comment@,
        }
    }
}

impl EntryHeader {
    /// Append the first 31 bytes.
    fn push_fixed(&self, out: &mut Vec<u8>, crc: u32)
        ensures
            final(out)@ == old(out)@ + fixed_bytes(self@, crc),
    {
        out.push(self.attrs);
        out.push(0);
        push_le32(out, self.original);
        push_le32(out, self.compressed);
        out.push(ENTRY_HEADER_MACHINE);
        out.push(self.pack_mode);
        out.push(self.merged);
        out.push(0);
        out.push(self.comment.len() as u8);
        out.push(ENTRY_HEADER_HOST_OS);
        out.push(0);
        out.push(0);
        let d: u32 = self.date;
        out.push((d / 0x100_0000) as u8);
        out.push((d / 0x1_0000 % 256) as u8);
        out.push((d / 0x100 % 256) as u8);
        out.push((d % 256) as u8);
        push_le32(out, self.data_crc);
        push_le32(out, crc);
        out.push(self.filename.len() as u8);
        reveal(fixed_bytes);
        assert(out@ =~= old(out)@ + fixed_bytes(self@, crc));
    }

    /// The header.
    pub fn to_bytes(&self) -> (out: Vec<u8>)
        ensures
            out@ == header_bytes(self@),
    {
        let mut blank: Vec<u8> = Vec::new();
        self.push_fixed(&mut blank, 0);
        let crc = checksum_of(&blank, &self.filename, &self.comment);
        assert(blank@ =~= fixed_bytes(self@, 0));
        let mut out: Vec<u8> = Vec::new();
        self.push_fixed(&mut out, crc);
        out.extend_from_slice(&self.filename);
        out.extend_from_slice(&self.comment);
        assert(out@ =~= header_bytes(self@));
        out
    }
}

/// The checksum of three slices in a row.
fn checksum_of(a: &[u8], b: &[u8], c: &[u8]) -> (crc: u32)
    ensures
        crc == crc32::checksum(a@ + b@ + c@),
{
    let mut crc = Crc32::new();
    crc.update(a);
    crc.update(b);
    crc.update(c);
    proof {
        crc32::lemma_incremental(CRC32_INIT, a@, b@);
        crc32::lemma_incremental(CRC32_INIT, a@ + b@, c@);
    }
    crc.finalize()
}

/// Part of a slice as a vector.
pub(crate) fn copy_range(b: &[u8], from: usize, to: usize) -> (out: Vec<u8>)
    requires
        from <= to <= b@.len(),
    ensures
        out@ == b@.subrange(from as int, to as int),
{
    let mut out: Vec<u8> = Vec::new();
    let mut i: usize = from;
    while i < to
        invariant
            from <= i <= to <= b@.len(),
            out@ == b@.subrange(from as int, i as int),
        decreases to - i,
    {
        out.push(b[i]);
        i += 1;
        assert(out@ =~= b@.subrange(from as int, i as int));
    }
    out
}

/// Read the header that begins at `pos`, where there is one: what it says, and
/// the position behind it.
pub fn parse_header(b: &[u8], pos: usize) -> (r: (Result<Option<EntryHeader>>, usize))
    requires
        pos <= b@.len(),
    ensures
        pos <= r.1 <= b@.len(),
        b@.skip(r.1 as int) == read_header(b@.skip(pos as int)).1,
        match r.0 {
            Ok(Some(h)) => read_header(b@.skip(pos as int)).0 == Ok::<Option<Header>, Error>(
                Some(h@),
            ) && r.1 > pos,
            Ok(None) => read_header(b@.skip(pos as int)).0 == Ok::<Option<Header>, Error>(None),
            Err(e) => read_header(b@.skip(pos as int)).0 == Err::<Option<Header>, Error>(e),
        },
{
    let n = b.len();
    let left: usize = n - pos;
    let ghost rest = b@.skip(pos as int);
    if left == 0 {
        return (Ok(None), pos);
    }
    if left < ENTRY_HEADER_LEN {
        assert(b@.skip(n as int) =~= Seq::<u8>::empty());
        return (Err(Error::Truncated), n);
    }
    let comment_len: usize = b[pos + 14] as usize;
    let filename_len: usize = b[pos + 30] as usize;
    let len: usize = ENTRY_HEADER_LEN + filename_len + comment_len;
    if left < len {
        assert(b@.skip(n as int) =~= Seq::<u8>::empty());
        return (Err(Error::Truncated), n);
    }
    let name_at: usize = pos + ENTRY_HEADER_LEN;
    let comment_at: usize = name_at + filename_len;
    let end: usize = pos + len;
    let filename = copy_range(b, name_at, comment_at);
    let comment = copy_range(b, comment_at, end);
    let mut fixed = copy_range(b, pos, name_at);
    fixed[26] = 0;
    fixed[27] = 0;
    fixed[28] = 0;
    fixed[29] = 0;
    let expected = read_le32(b, pos + 26);
    let actual = checksum_of(&fixed, &filename, &comment);
    proof {
        assert(header_len(rest) == len);
        assert(filename@ =~= name_in(rest));
        assert(comment@ =~= comment_in(rest));
        assert(fixed@ + filename@ + comment@ =~= without_crc(rest.take(len as int)));
        assert(b@.skip(end as int) =~= rest.skip(len as int));
    }
    if expected != actual {
        return (Err(Error::CrcMismatch { expected, actual }), end);
    }
    let h = EntryHeader {
        attrs: b[pos],
        original: read_le32(b, pos + 2),
        compressed: read_le32(b, pos + 6),
        pack_mode: b[pos + 11],
        merged: b[pos + 12],
        date: read_be32(b, pos + 18),
        data_crc: read_le32(b, pos + 22),
        filename,
        comment,
    };
    assert(h@ =~= header_in(rest));
    (Ok(Some(h)), end)
}

} // verus!
