//! Archive reader.

use vstd::prelude::*;

use crate::archive::attrs::EntryAttrs;
use crate::archive::datetime::DateTime;
use crate::archive::header;
use crate::archive::header::{copy_range, parse_header, EntryHeader, Header};
use crate::archive::latin1;
use crate::archive::latin1::decode_latin1;
use crate::constants::INFO_HEADER_LEN;
use crate::crc32;
use crate::crc32::crc32;
use crate::decoder;
use crate::decoder::decode;
use crate::error::{Error, Result};

verus! {

/// An entry of an archive.
#[derive(Debug, Clone)]
pub struct Entry {
    pub filename: String,
    pub comment: String,
    pub attrs: EntryAttrs,
    pub datetime: DateTime,
    pub data: Vec<u8>,
    /// The checksum in the entry's header, which is that of `data`.
    pub data_crc: u32,
}

/// What an entry holds.
#[verifier::ext_equal]
pub struct EntryView {
    pub filename: Seq<char>,
    pub comment: Seq<char>,
    pub attrs: u8,
    pub datetime: DateTime,
    pub data: Seq<u8>,
    pub data_crc: u32,
}

impl View for Entry {
    type V = EntryView;

    open spec fn view(&self) -> EntryView {
        EntryView {
            filename: self.filename@,
            comment: self.comment@,
            attrs: self.attrs.byte(),
            datetime: self.datetime,
            data: self.data@,
            data_crc: self.data_crc,
        }
    }
}

/// What a reader has before it: the bytes of the archive that it has not read
/// yet, the headers of a group whose entries it has not handed out yet, and
/// those entries' bytes.
#[verifier::ext_equal]
pub struct ReaderState {
    pub rest: Seq<u8>,
    pub group: Seq<Header>,
    pub data: Seq<u8>,
}

/// The entry of a header with these bytes.
pub open spec fn entry_of(h: Header, data: Seq<u8>) -> EntryView {
    EntryView {
        filename: latin1::text_of(h.filename),
        comment: latin1::text_of(h.comment),
        attrs: h.attrs,
        datetime: DateTime::of_word(h.date),
        data,
        data_crc: h.data_crc,
    }
}

/// How many bytes the entries of a group have together.
pub open spec fn total(group: Seq<Header>) -> nat
    decreases group.len(),
{
    if group.len() == 0 {
        0
    } else {
        total(group.drop_last()) + group.last().original as nat
    }
}

/// Nothing of the group is missing. An entry that is not merged is a group of
/// its own. A group of merged ones ends with the one that brings the payload.
pub open spec fn group_ends(group: Seq<Header>) -> bool {
    (group.len() == 1 && group[0].merged == 0) || group.last().compressed > 0
}

/// Read the headers of a group to its end: the outcome, and the bytes behind.
pub open spec fn read_group(group: Seq<Header>, rest: Seq<u8>) -> (Result<Seq<Header>>, Seq<u8>)
    decreases rest.len(),
{
    if group_ends(group) {
        (Ok(group), rest)
    } else {
        match header::read_header(rest) {
            (Err(e), behind) => (Err(e), behind),
            (Ok(None), behind) => (Err(Error::Truncated), behind),
            (Ok(Some(h)), behind) => read_group(group.push(h), behind),
        }
    }
}

/// What a payload decodes to, where `size` bytes are wanted.
pub open spec fn unpacked(pack_mode: u8, payload: Seq<u8>, size: nat) -> Result<Seq<u8>> {
    if size == 0 {
        Ok(Seq::empty())
    } else if size > usize::MAX {
        Err(Error::InvalidArchive("merged group too large"))
    } else if pack_mode == 0 {
        if payload.len() == size {
            Ok(payload)
        } else {
            Err(Error::InvalidArchive("stored entry size does not match payload length"))
        }
    } else if pack_mode == 2 {
        decoder::decoded(payload, size)
    } else {
        Err(Error::InvalidArchive("unknown pack mode"))
    }
}

/// Hand the first entry of the group out, where its bytes have the checksum in
/// its header.
pub open spec fn hand_out(st: ReaderState) -> (Result<Option<EntryView>>, ReaderState) {
    let h = st.group[0];
    let data = st.data.take(h.original as int);
    let after = ReaderState {
        group: st.group.drop_first(),
        data: st.data.skip(h.original as int),
        ..st
    };
    let actual = crc32::checksum(data);
    if actual != h.data_crc {
        (Err(Error::CrcMismatch { expected: h.data_crc, actual }), after)
    } else {
        (Ok(Some(entry_of(h, data))), after)
    }
}

/// A reader that has handed all entries of a group out.
pub open spec fn between(rest: Seq<u8>) -> ReaderState {
    ReaderState { rest, group: Seq::empty(), data: Seq::empty() }
}

/// Read the payload of a group, and hand its first entry out.
pub open spec fn open_group(group: Seq<Header>, rest: Seq<u8>) -> (
    Result<Option<EntryView>>,
    ReaderState,
) {
    let tail = group.last();
    let n = tail.compressed as int;
    if rest.len() < n {
        (Err(Error::Truncated), between(Seq::empty()))
    } else {
        match unpacked(tail.pack_mode, rest.take(n), total(group)) {
            Err(e) => (Err(e), between(rest.skip(n))),
            Ok(data) => hand_out(ReaderState { rest: rest.skip(n), group, data }),
        }
    }
}

/// Read the next entry.
pub open spec fn next(st: ReaderState) -> (Result<Option<EntryView>>, ReaderState) {
    if st.group.len() > 0 {
        hand_out(st)
    } else {
        match header::read_header(st.rest) {
            (Err(e), rest) => (Err(e), between(rest)),
            (Ok(None), rest) => (Ok(None), between(rest)),
            (Ok(Some(h)), rest) => match read_group(seq![h], rest) {
                (Err(e), behind) => (Err(e), between(behind)),
                (Ok(group), behind) => open_group(group, behind),
            },
        }
    }
}

/// Begin to read an archive, where it begins with the right letters.
pub open spec fn opened(b: Seq<u8>) -> Result<ReaderState> {
    if b.len() < INFO_HEADER_LEN {
        Err(Error::InvalidArchive("truncated info header"))
    } else if b.take(3) != seq![0x4cu8, 0x5a, 0x58] {
        Err(Error::InvalidArchive("not an LZX archive"))
    } else {
        Ok(between(b.skip(INFO_HEADER_LEN as int)))
    }
}

/// Ten bytes that begin with `LZX` are enough to begin with. What the other seven
/// are does not matter, and the entries begin behind them.
pub proof fn lemma_opened(b: Seq<u8>)
    ensures
        b.len() >= 10 && b[0] == 0x4c && b[1] == 0x5a && b[2] == 0x58 ==> opened(b) == Ok::<
            ReaderState,
            Error,
        >(between(b.skip(10))),
        b.len() < 10 ==> opened(b) == Err::<ReaderState, Error>(
            Error::InvalidArchive("truncated info header"),
        ),
        b.len() >= 10 && !(b[0] == 0x4c && b[1] == 0x5a && b[2] == 0x58) ==> opened(b) == Err::<
            ReaderState,
            Error,
        >(Error::InvalidArchive("not an LZX archive")),
{
    if b.len() >= 10 {
        let start = b.take(3);
        assert(start[0] == b[0] && start[1] == b[1] && start[2] == b[2]);
        if b[0] == 0x4c && b[1] == 0x5a && b[2] == 0x58 {
            assert(start =~= seq![0x4cu8, 0x5a, 0x58]);
        }
    }
}

/// Headers that a vector holds.
spec fn headers(v: Seq<EntryHeader>) -> Seq<Header> {
    Seq::new(v.len(), |i: int| v[i]@)
}

/// Reads the entries of an archive, one after the other.
pub struct ArchiveReader<'a> {
    inner: &'a [u8],
    pos: usize,
    /// Headers of the last group.
    group: Vec<EntryHeader>,
    /// How many entries of the group have been handed out.
    given: usize,
    /// The bytes of the group's entries.
    data: Vec<u8>,
    data_pos: usize,
}

proof fn lemma_unpacked_len(pack_mode: u8, payload: Seq<u8>, size: nat)
    ensures
        unpacked(pack_mode, payload, size) matches Ok(data) ==> data.len() == size,
{
    decoder::lemma_decoded_len(payload, size);
}

proof fn lemma_total_concat(a: Seq<Header>, b: Seq<Header>)
    ensures
        total(a + b) == total(a) + total(b),
    decreases b.len(),
{
    if b.len() == 0 {
        assert(a + b =~= a);
    } else {
        lemma_total_concat(a, b.drop_last());
        assert((a + b).drop_last() =~= a + b.drop_last());
    }
}

proof fn lemma_total_first(group: Seq<Header>)
    requires
        group.len() > 0,
    ensures
        total(group) == group[0].original + total(group.drop_first()),
{
    let one = seq![group[0]];
    lemma_total_concat(one, group.drop_first());
    assert(one + group.drop_first() =~= group);
    assert(one.drop_last() =~= Seq::<Header>::empty());
    assert(total(Seq::<Header>::empty()) == 0);
}

impl<'a> ArchiveReader<'a> {
    pub closed spec fn wf(&self) -> bool {
        &&& self.pos <= self.inner@.len()
        &&& self.given <= self.group@.len()
        &&& self.data_pos <= self.data@.len()
        &&& self.data@.len() - self.data_pos == total(
            headers(self.group@).skip(self.given as int),
        )
    }

    /// What the reader has before it.
    pub closed spec fn state(&self) -> ReaderState {
        ReaderState {
            rest: self.inner@.skip(self.pos as int),
            group: headers(self.group@).skip(self.given as int),
            data: self.data@.skip(self.data_pos as int),
        }
    }

    /// Check that an archive begins with the right letters. The rest of its
    /// first ten bytes is not looked at.
    pub fn new(inner: &'a [u8]) -> (r: Result<Self>)
        ensures
            match r {
                Ok(reader) => opened(inner@) == Ok::<ReaderState, Error>(reader.state()),
                Err(e) => opened(inner@) == Err::<ReaderState, Error>(e),
            },
            match r {
                Ok(reader) => {
                    &&& inner@.len() >= INFO_HEADER_LEN
                    &&& inner@.take(3) == seq![0x4cu8, 0x5a, 0x58]
                    &&& reader.wf()
                    &&& reader.state() == between(inner@.skip(INFO_HEADER_LEN as int))
                },
                Err(e) => if inner@.len() < INFO_HEADER_LEN {
                    e == Error::InvalidArchive("truncated info header")
                } else {
                    inner@.take(3) != seq![0x4cu8, 0x5a, 0x58] && e == Error::InvalidArchive(
                        "not an LZX archive",
                    )
                },
            },
    {
        if inner.len() < INFO_HEADER_LEN {
            return Err(Error::InvalidArchive("truncated info header"));
        }
        let ghost start = inner@.take(3);
        if inner[0] != 0x4c || inner[1] != 0x5a || inner[2] != 0x58 {
            assert(start[0] == inner@[0] && start[1] == inner@[1] && start[2] == inner@[2]);
            return Err(Error::InvalidArchive("not an LZX archive"));
        }
        assert(start =~= seq![0x4cu8, 0x5a, 0x58]);
        let reader = ArchiveReader {
            inner,
            pos: INFO_HEADER_LEN,
            group: Vec::new(),
            given: 0,
            data: Vec::new(),
            data_pos: 0,
        };
        assert(reader.state() =~= between(inner@.skip(INFO_HEADER_LEN as int)));
        assert(headers(reader.group@).skip(0) =~= Seq::<Header>::empty());
        Ok(reader)
    }

    /// Forget the group.
    fn clear(&mut self)
        requires
            old(self).pos <= old(self).inner@.len(),
        ensures
            final(self).wf(),
            final(self).inner == old(self).inner,
            final(self).pos == old(self).pos,
            final(self).state() == between(old(self).inner@.skip(old(self).pos as int)),
    {
        self.group = Vec::new();
        self.given = 0;
        self.data = Vec::new();
        self.data_pos = 0;
        assert(headers(self.group@).skip(0) =~= Seq::<Header>::empty());
        assert(self.state() =~= between(self.inner@.skip(self.pos as int)));
    }

    /// Hand the next entry of the group out.
    fn take_entry(&mut self) -> (r: Result<Option<Entry>>)
        requires
            old(self).wf(),
            old(self).state().group.len() > 0,
        ensures
            final(self).wf(),
            final(self).state() == hand_out(old(self).state()).1,
            agrees(r, hand_out(old(self).state()).0),
    {
        let ghost st = self.state();
        proof {
            lemma_total_first(st.group);
            assert(headers(self.group@)[self.given as int] == st.group[0]);
            assert(st.group.drop_first() =~= headers(self.group@).skip(self.given + 1));
        }
        assert(self.data.len() <= usize::MAX && self.group.len() <= usize::MAX);
        let h = &self.group[self.given];
        let size: usize = h.original as usize;
        let data = copy_range(&self.data, self.data_pos, self.data_pos + size);
        assert(data@ =~= st.data.take(size as int));
        let data_crc: u32 = h.data_crc;
        let actual = crc32(&data);
        let filename = decode_latin1(&h.filename);
        let comment = decode_latin1(&h.comment);
        let attrs = EntryAttrs::from_bits_retain(h.attrs);
        let datetime = DateTime::from_word(h.date);
        self.given = self.given + 1;
        self.data_pos = self.data_pos + size;
        proof {
            assert(self.data@.skip(self.data_pos as int) =~= st.data.skip(size as int));
            assert(self.state() =~= hand_out(st).1);
        }
        if actual != data_crc {
            return Err(Error::CrcMismatch { expected: data_crc, actual });
        }
        Ok(Some(Entry { filename, comment, attrs, datetime, data, data_crc }))
    }

    /// Read the headers of the group that `first` begins.
    fn collect_group(&mut self, first: EntryHeader) -> (r: Result<Vec<EntryHeader>>)
        requires
            old(self).pos <= old(self).inner@.len(),
        ensures
            final(self).inner == old(self).inner,
            old(self).pos <= final(self).pos <= final(self).inner@.len(),
            ({
                let model = read_group(seq![first@], old(self).inner@.skip(old(self).pos as int));
                &&& final(self).inner@.skip(final(self).pos as int) == model.1
                &&& match r {
                    Ok(group) => group@.len() > 0 && model.0 == Ok::<Seq<Header>, Error>(
                        headers(group@),
                    ),
                    Err(e) => model.0 == Err::<Seq<Header>, Error>(e),
                }
            }),
    {
        let ghost model = read_group(seq![first@], self.inner@.skip(self.pos as int));
        let mut group: Vec<EntryHeader> = Vec::new();
        group.push(first);
        assert(headers(group@) =~= seq![first@]);
        while !((group.len() == 1 && group[0].merged == 0) || group[group.len() - 1].compressed > 0)
            invariant
                self.inner == old(self).inner,
                old(self).pos <= self.pos <= self.inner@.len(),
                group@.len() > 0,
                model == read_group(seq![first@], old(self).inner@.skip(old(self).pos as int)),
                model == read_group(headers(group@), self.inner@.skip(self.pos as int)),
            decreases self.inner@.len() - self.pos,
        {
            let ghost before = headers(group@);
            let (r, pos) = parse_header(self.inner, self.pos);
            self.pos = pos;
            match r {
                Err(e) => {
                    return Err(e);
                },
                Ok(None) => {
                    return Err(Error::Truncated);
                },
                Ok(Some(h)) => {
                    let ghost added = h@;
                    group.push(h);
                    assert(headers(group@) =~= before.push(added));
                },
            }
        }
        Ok(group)
    }

    /// Read the payload of a group.
    fn read_payload(&mut self, group: &Vec<EntryHeader>) -> (r: Result<Vec<u8>>)
        requires
            old(self).pos <= old(self).inner@.len(),
            group@.len() > 0,
        ensures
            final(self).inner == old(self).inner,
            final(self).pos <= final(self).inner@.len(),
            ({
                let rest = old(self).inner@.skip(old(self).pos as int);
                let tail = group@.last();
                let n = tail.compressed as int;
                let now = final(self).inner@.skip(final(self).pos as int);
                if rest.len() < n {
                    r == Err::<Vec<u8>, Error>(Error::Truncated) && now == Seq::<u8>::empty()
                } else {
                    let model = unpacked(tail.pack_mode, rest.take(n), total(headers(group@)));
                    &&& now == rest.skip(n)
                    &&& match r {
                        Ok(data) => model == Ok::<Seq<u8>, Error>(data@),
                        Err(e) => model == Err::<Seq<u8>, Error>(e),
                    }
                }
            }),
    {
        let ghost rest = self.inner@.skip(self.pos as int);
        let last: usize = group.len() - 1;
        let size: usize = group[last].compressed as usize;
        let n = self.inner.len();
        if n - self.pos < size {
            self.pos = n;
            assert(self.inner@.skip(n as int) =~= Seq::<u8>::empty());
            return Err(Error::Truncated);
        }
        let payload = copy_range(self.inner, self.pos, self.pos + size);
        self.pos = self.pos + size;
        proof {
            assert(payload@ =~= rest.take(size as int));
            assert(self.inner@.skip(self.pos as int) =~= rest.skip(size as int));
        }
        let wanted: usize = match group_size(group) {
            Some(wanted) => wanted,
            None => {
                return Err(Error::InvalidArchive("merged group too large"));
            },
        };
        if wanted == 0 {
            let none: Vec<u8> = Vec::new();
            assert(none@ =~= Seq::<u8>::empty());
            return Ok(none);
        }
        let mode: u8 = group[last].pack_mode;
        if mode == 0 {
            if payload.len() != wanted {
                return Err(
                    Error::InvalidArchive("stored entry size does not match payload length"),
                );
            }
            Ok(payload)
        } else if mode == 2 {
            decode(&payload, wanted)
        } else {
            Err(Error::InvalidArchive("unknown pack mode"))
        }
    }

    /// Read the next entry, or nothing where the archive ends. The entries of a
    /// group share one payload, and come one by one. An error leaves the reader
    /// behind what was wrong.
    pub fn next_entry(&mut self) -> (r: Result<Option<Entry>>)
        requires
            old(self).wf(),
        ensures
            final(self).wf(),
            final(self).state() == next(old(self).state()).1,
            agrees(r, next(old(self).state()).0),
    {
        let ghost st = self.state();
        if self.given < self.group.len() {
            return self.take_entry();
        }
        assert(st.group.len() == 0);
        let (r, pos) = parse_header(self.inner, self.pos);
        self.pos = pos;
        self.clear();
        let first = match r {
            Ok(Some(h)) => h,
            Ok(None) => {
                return Ok(None);
            },
            Err(e) => {
                return Err(e);
            },
        };
        let group = match self.collect_group(first) {
            Ok(group) => group,
            Err(e) => {
                self.clear();
                return Err(e);
            },
        };
        let ghost tail = group@.last();
        let ghost mode = tail.pack_mode;
        let ghost payload = self.inner@.skip(self.pos as int).take(tail.compressed as int);
        match self.read_payload(&group) {
            Ok(data) => {
                self.group = group;
                self.given = 0;
                self.data = data;
                self.data_pos = 0;
                proof {
                    lemma_unpacked_len(
                        mode,
                        payload,
                        total(headers(self.group@)),
                    );
                    assert(headers(self.group@).skip(0) =~= headers(self.group@));
                    assert(self.data@.skip(0) =~= self.data@);
                }
                self.take_entry()
            },
            Err(e) => {
                self.clear();
                Err(e)
            },
        }
    }
}

/// How many bytes the entries of a group have together, where that is a size at
/// all.
fn group_size(group: &Vec<EntryHeader>) -> (r: Option<usize>)
    ensures
        match r {
            Some(n) => n == total(headers(group@)),
            None => total(headers(group@)) > usize::MAX,
        },
{
    let mut n: usize = 0;
    let mut i: usize = 0;
    let ghost all = headers(group@);
    while i < group.len()
        invariant
            i <= group@.len(),
            all == headers(group@),
            n == total(all.take(i as int)),
        decreases group@.len() - i,
    {
        proof {
            assert(all.take(i + 1).drop_last() =~= all.take(i as int));
            lemma_total_concat(all.take(i + 1), all.skip(i + 1));
            assert(all.take(i + 1) + all.skip(i + 1) =~= all);
        }
        let size: usize = group[i].original as usize;
        if n > usize::MAX - size {
            return None;
        }
        n = n + size;
        i += 1;
    }
    assert(all.take(i as int) =~= all);
    Some(n)
}

/// The outcome is the one that the model has.
pub open spec fn agrees(r: Result<Option<Entry>>, model: Result<Option<EntryView>>) -> bool {
    match r {
        Ok(Some(e)) => model == Ok::<Option<EntryView>, Error>(Some(e@)),
        Ok(None) => model == Ok::<Option<EntryView>, Error>(None),
        Err(e) => model == Err::<Option<EntryView>, Error>(e),
    }
}

} // verus!
