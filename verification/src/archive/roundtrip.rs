//! What the archive writer wrote, the archive reader gives back.

use vstd::prelude::*;

use crate::archive::datetime;
use crate::archive::header;
use crate::archive::header::Header;
use crate::archive::latin1;
use crate::archive::reader;
use crate::archive::reader::{EntryView, ReaderState};
use crate::archive::writer;
use crate::archive::writer::{EntryBuilder, Meta};
use crate::constants::{LevelParams, INFO_HEADER_LEN};
use crate::crc32;
use crate::decoder;
use crate::error::Error;
use crate::roundtrip;
use crate::size;

verus! {

/// The entry can be written so that it can be read back: its names are short
/// enough, and its date and its sizes have room in the header.
pub open spec fn entry_ok(m: Meta, data: Seq<u8>) -> bool {
    &&& m.filename.len() <= 255
    &&& m.comment.len() <= 255
    &&& m.datetime.storable()
    &&& data.len() <= u32::MAX
    &&& writer::payload_of(m, data).len() <= u32::MAX
}

/// An entry of up to two billion bytes always has room.
pub proof fn lemma_entry_fits(m: Meta, data: Seq<u8>)
    requires
        m.filename.len() <= 255,
        m.comment.len() <= 255,
        m.datetime.storable(),
        data.len() <= 2_000_000_000,
    ensures
        entry_ok(m, data),
{
    size::lemma_compressed_len(data, m.level.spec_params());
}

/// The entry as a reader has it.
pub open spec fn entry_view(m: Meta, data: Seq<u8>) -> EntryView {
    EntryView {
        filename: latin1::text_of(m.filename),
        comment: latin1::text_of(m.comment),
        attrs: m.attrs,
        datetime: m.datetime,
        data,
        data_crc: crc32::checksum(data),
    }
}

/// An entry that was written comes back, and the reader goes on behind it.
pub proof fn lemma_entry_round_trip(m: Meta, data: Seq<u8>, rest: Seq<u8>)
    requires
        entry_ok(m, data),
    ensures
        reader::next(reader::between(writer::entry_bytes(m, data) + rest)) == (
            Ok::<Option<EntryView>, Error>(Some(entry_view(m, data))),
            reader::between(rest),
        ),
{
    let h = writer::header_of(m, data);
    let payload = writer::payload_of(m, data);
    let behind = payload + rest;
    assert(writer::entry_bytes(m, data) + rest =~= header::header_bytes(h) + behind);
    header::lemma_header_round_trip(h, behind);
    let group = seq![h];
    assert(reader::group_ends(group));
    assert(group.drop_last() =~= Seq::<Header>::empty());
    assert(reader::total(Seq::<Header>::empty()) == 0);
    assert(reader::total(group) == data.len());
    assert(behind.take(payload.len() as int) =~= payload);
    assert(behind.skip(payload.len() as int) =~= rest);
    roundtrip::lemma_round_trip(data, m.level.spec_params());
    assert(reader::unpacked(h.pack_mode, payload, data.len()) == Ok::<Seq<u8>, Error>(data)) by {
        if data.len() == 0 {
            assert(data =~= Seq::<u8>::empty());
        }
    }
    datetime::lemma_pack_round_trip(m.datetime);
    let st = ReaderState { rest, group, data };
    assert(data.take(data.len() as int) =~= data);
    assert(data.skip(data.len() as int) =~= Seq::<u8>::empty());
    assert(group.drop_first() =~= Seq::<Header>::empty());
    assert(reader::hand_out(st).1 =~= reader::between(rest));
    assert(reader::entry_of(h, data) =~= entry_view(m, data));
}

/// The entries of an archive in a row.
pub open spec fn entries_bytes(entries: Seq<(Meta, Seq<u8>)>) -> Seq<u8>
    decreases entries.len(),
{
    if entries.len() == 0 {
        Seq::empty()
    } else {
        writer::entry_bytes(entries[0].0, entries[0].1) + entries_bytes(entries.drop_first())
    }
}

/// An archive of several entries comes back entry by entry, and then ends.
pub proof fn lemma_archive_round_trip(entries: Seq<(Meta, Seq<u8>)>, k: int)
    requires
        0 <= k <= entries.len(),
        forall|i: int|
            0 <= i < entries.len() ==> entry_ok((#[trigger] entries[i]).0, entries[i].1),
    ensures
        reader::next(reader::between(entries_bytes(entries.skip(k)))) == (if k < entries.len() {
            (
                Ok::<Option<EntryView>, Error>(Some(entry_view(entries[k].0, entries[k].1))),
                reader::between(entries_bytes(entries.skip(k + 1))),
            )
        } else {
            (Ok::<Option<EntryView>, Error>(None), reader::between(Seq::empty()))
        }),
{
    let left = entries.skip(k);
    if k < entries.len() {
        let e = entries[k];
        assert(entry_ok(entries[k].0, entries[k].1));
        assert(left[0] == e);
        assert(left.drop_first() =~= entries.skip(k + 1));
        lemma_entry_round_trip(e.0, e.1, entries_bytes(entries.skip(k + 1)));
    } else {
        assert(entries_bytes(left) =~= Seq::<u8>::empty());
    }
}

/// Finishing an entry puts it behind those before it.
pub proof fn lemma_entries_push(entries: Seq<(Meta, Seq<u8>)>, m: Meta, data: Seq<u8>)
    ensures
        entries_bytes(entries.push((m, data))) == entries_bytes(entries) + writer::entry_bytes(
            m,
            data,
        ),
    decreases entries.len(),
{
    let all = entries.push((m, data));
    if entries.len() == 0 {
        assert(all.drop_first() =~= Seq::<(Meta, Seq<u8>)>::empty());
        assert(entries_bytes(Seq::<(Meta, Seq<u8>)>::empty()) =~= Seq::<u8>::empty());
        assert(entries_bytes(all) =~= entries_bytes(entries) + writer::entry_bytes(m, data));
    } else {
        lemma_entries_push(entries.drop_first(), m, data);
        assert(all.drop_first() =~= entries.drop_first().push((m, data)));
        assert(entries_bytes(all) =~= entries_bytes(entries) + writer::entry_bytes(m, data));
    }
}

/// The names of an entry come back as they were given.
pub proof fn lemma_names_round_trip(b: EntryBuilder, data: Seq<u8>)
    requires
        writer::names_ok(b),
    ensures
        entry_view(writer::meta_of(b), data).filename == b.filename@,
        entry_view(writer::meta_of(b), data).comment == b.comment@,
        writer::meta_of(b).filename.len() <= 255,
        writer::meta_of(b).comment.len() <= 255,
{
    latin1::lemma_text_round_trip(b.filename@);
    latin1::lemma_text_round_trip(b.comment@);
}

/// An entry comes back as it was described, with the bytes that it was given and
/// their checksum.
pub proof fn lemma_builder_round_trip(b: EntryBuilder, data: Seq<u8>, rest: Seq<u8>)
    requires
        writer::names_ok(b),
        b.datetime.storable(),
        data.len() <= 2_000_000_000,
    ensures
        reader::next(
            reader::between(writer::entry_bytes(writer::meta_of(b), data) + rest),
        ) == (
            Ok::<Option<EntryView>, Error>(
                Some(
                    EntryView {
                        filename: b.filename@,
                        comment: b.comment@,
                        attrs: b.attrs.byte(),
                        datetime: b.datetime,
                        data,
                        data_crc: crc32::checksum(data),
                    },
                ),
            ),
            reader::between(rest),
        ),
        writer::payload_of(writer::meta_of(b), data) == roundtrip::compressed(
            data,
            b.level.spec_params(),
        ),
{
    let m = writer::meta_of(b);
    lemma_names_round_trip(b, data);
    lemma_entry_fits(m, data);
    lemma_entry_round_trip(m, data, rest);
}

/// An archive begins with the bytes that a reader looks for, and what comes
/// behind them is what it reads.
pub proof fn lemma_info_header(rest: Seq<u8>)
    ensures
        (writer::info_header() + rest).len() >= INFO_HEADER_LEN,
        (writer::info_header() + rest).take(3) == seq![0x4cu8, 0x5a, 0x58],
        (writer::info_header() + rest).skip(INFO_HEADER_LEN as int) == rest,
{
    let all = writer::info_header() + rest;
    assert(all.take(3) =~= seq![0x4cu8, 0x5a, 0x58]);
    assert(all.skip(INFO_HEADER_LEN as int) =~= rest);
}

/// The headers of a group in a row.
pub open spec fn headers_bytes(group: Seq<Header>) -> Seq<u8>
    decreases group.len(),
{
    if group.len() == 0 {
        Seq::empty()
    } else {
        header::header_bytes(group[0]) + headers_bytes(group.drop_first())
    }
}

/// The bytes of several files in a row.
pub open spec fn files_bytes(files: Seq<Seq<u8>>) -> Seq<u8>
    decreases files.len(),
{
    if files.len() == 0 {
        Seq::empty()
    } else {
        files[0] + files_bytes(files.drop_first())
    }
}

/// Headers of a merged group, of which only the last one has the size of the
/// payload, and which fit these files.
pub open spec fn group_ok(group: Seq<Header>, files: Seq<Seq<u8>>, payload: Seq<u8>) -> bool {
    &&& 0 < group.len() == files.len()
    &&& forall|i: int|
        0 <= i < group.len() ==> {
            let h = #[trigger] group[i];
            &&& h.filename.len() <= 255
            &&& h.comment.len() <= 255
            &&& h.merged != 0
            &&& h.original == files[i].len()
            &&& h.data_crc == crc32::checksum(files[i])
            &&& i < group.len() - 1 ==> h.compressed == 0
        }
    &&& group.last().pack_mode == 2
    &&& group.last().compressed == payload.len() > 0
    &&& files_bytes(files).len() <= usize::MAX
}

/// The reader once a group has been read and `k` of its entries handed out.
pub open spec fn within_group(
    group: Seq<Header>,
    files: Seq<Seq<u8>>,
    rest: Seq<u8>,
    k: int,
) -> ReaderState {
    ReaderState { rest, group: group.skip(k), data: files_bytes(files.skip(k)) }
}

proof fn lemma_read_group(done: Seq<Header>, group: Seq<Header>, k: int, rest: Seq<u8>)
    requires
        0 < k <= group.len(),
        done == group.take(k),
        group.last().compressed > 0,
        forall|i: int|
            0 <= i < group.len() ==> {
                let h = #[trigger] group[i];
                &&& h.filename.len() <= 255
                &&& h.comment.len() <= 255
                &&& h.merged != 0
                &&& i < group.len() - 1 ==> h.compressed == 0
            },
    ensures
        reader::read_group(done, headers_bytes(group.skip(k)) + rest) == (
            Ok::<Seq<Header>, Error>(group),
            rest,
        ),
    decreases group.len() - k,
{
    let left = group.skip(k);
    assert(done.last() == group[k - 1]);
    assert(done[0] == group[0]);
    if k == group.len() {
        assert(done =~= group);
        assert(headers_bytes(left) + rest =~= rest);
    } else {
        let h = group[k];
        assert(group[k - 1].compressed == 0);
        assert(group[0].merged != 0);
        assert(left[0] == h);
        assert(left.drop_first() =~= group.skip(k + 1));
        let behind = headers_bytes(group.skip(k + 1)) + rest;
        assert(headers_bytes(left) + rest =~= header::header_bytes(h) + behind);
        header::lemma_header_round_trip(h, behind);
        assert(done.push(h) =~= group.take(k + 1));
        lemma_read_group(done.push(h), group, k + 1, rest);
    }
}

proof fn lemma_total(group: Seq<Header>, files: Seq<Seq<u8>>, k: int)
    requires
        0 <= k <= group.len() == files.len(),
        forall|i: int|
            0 <= i < group.len() ==> (#[trigger] group[i]).original == files[i].len(),
    ensures
        reader::total(group.take(k)) + files_bytes(files.skip(k)).len() == files_bytes(
            files,
        ).len(),
    decreases k,
{
    if k == 0 {
        assert(files.skip(0) =~= files);
        assert(group.take(0) =~= Seq::<Header>::empty());
    } else {
        lemma_total(group, files, k - 1);
        assert(group.take(k).drop_last() =~= group.take(k - 1));
        let left = files.skip(k - 1);
        assert(left[0] == files[k - 1]);
        assert(left.drop_first() =~= files.skip(k));
        assert(group[k - 1].original == files[k - 1].len());
    }
}

proof fn lemma_within(group: Seq<Header>, files: Seq<Seq<u8>>, rest: Seq<u8>, k: int)
    requires
        0 <= k < group.len() == files.len(),
        group[k].original == files[k].len(),
        group[k].data_crc == crc32::checksum(files[k]),
    ensures
        reader::next(within_group(group, files, rest, k)) == (
            Ok::<Option<EntryView>, Error>(Some(reader::entry_of(group[k], files[k]))),
            within_group(group, files, rest, k + 1),
        ),
        k + 1 == group.len() ==> within_group(group, files, rest, k + 1) == reader::between(rest),
{
    let st = within_group(group, files, rest, k);
    let left = files.skip(k);
    assert(left[0] == files[k]);
    assert(left.drop_first() =~= files.skip(k + 1));
    let tail = files_bytes(files.skip(k + 1));
    assert(group[k].original == files[k].len());
    assert(st.data.take(files[k].len() as int) =~= files[k]);
    assert(st.data.skip(files[k].len() as int) =~= tail);
    assert(st.group[0] == group[k]);
    assert(st.group.drop_first() =~= group.skip(k + 1));
    assert(reader::hand_out(st).1 =~= within_group(group, files, rest, k + 1));
    if k + 1 == group.len() {
        assert(within_group(group, files, rest, k + 1) =~= reader::between(rest));
    }
}

/// Handing an entry of a group out leaves the others.
pub proof fn lemma_within_group(
    group: Seq<Header>,
    files: Seq<Seq<u8>>,
    payload: Seq<u8>,
    rest: Seq<u8>,
    k: int,
)
    requires
        group_ok(group, files, payload),
        0 <= k < group.len(),
    ensures
        reader::next(within_group(group, files, rest, k)) == (
            Ok::<Option<EntryView>, Error>(Some(reader::entry_of(group[k], files[k]))),
            within_group(group, files, rest, k + 1),
        ),
        k + 1 == group.len() ==> within_group(group, files, rest, k + 1) == reader::between(rest),
{
    assert(group[k].original == files[k].len());
    lemma_within(group, files, rest, k);
}

proof fn lemma_open_group(
    group: Seq<Header>,
    files: Seq<Seq<u8>>,
    level: LevelParams,
    rest: Seq<u8>,
)
    requires
        group_ok(group, files, roundtrip::compressed(files_bytes(files), level)),
    ensures
        reader::open_group(
            group,
            roundtrip::compressed(files_bytes(files), level) + rest,
        ) == reader::next(within_group(group, files, rest, 0)),
{
    let data = files_bytes(files);
    let payload = roundtrip::compressed(data, level);
    let behind = payload + rest;
    assert(behind.take(payload.len() as int) =~= payload);
    assert(behind.skip(payload.len() as int) =~= rest);
    lemma_total(group, files, group.len() as int);
    assert(group.take(group.len() as int) =~= group);
    assert(files.skip(files.len() as int) =~= Seq::<Seq<u8>>::empty());
    assert(files_bytes(Seq::<Seq<u8>>::empty()) =~= Seq::<u8>::empty());
    assert(reader::total(group) == data.len());
    roundtrip::lemma_round_trip(data, level);
    if data.len() == 0 {
        assert(data =~= Seq::<u8>::empty());
    }
    assert(group.skip(0) =~= group);
    assert(files.skip(0) =~= files);
}

/// A reader that has read all headers of a group goes on to its payload.
proof fn lemma_next_group(h: Header, more: Seq<u8>, group: Seq<Header>, behind: Seq<u8>)
    requires
        h.filename.len() <= 255,
        h.comment.len() <= 255,
        reader::read_group(seq![h], more) == (Ok::<Seq<Header>, Error>(group), behind),
    ensures
        reader::next(reader::between(header::header_bytes(h) + more)) == reader::open_group(
            group,
            behind,
        ),
{
    header::lemma_header_round_trip(h, more);
}

/// The entries of a merged group, whose payload is all its files in a row,
/// compressed together, come back one by one, each with its own file.
pub proof fn lemma_group_round_trip(
    group: Seq<Header>,
    files: Seq<Seq<u8>>,
    level: LevelParams,
    rest: Seq<u8>,
)
    requires
        group_ok(group, files, roundtrip::compressed(files_bytes(files), level)),
    ensures
        reader::next(
            reader::between(
                headers_bytes(group) + roundtrip::compressed(files_bytes(files), level) + rest,
            ),
        ) == (
            Ok::<Option<EntryView>, Error>(Some(reader::entry_of(group[0], files[0]))),
            within_group(group, files, rest, 1),
        ),
{
    let payload = roundtrip::compressed(files_bytes(files), level);
    let behind = payload + rest;
    let h = group[0];
    let more = headers_bytes(group.skip(1)) + behind;
    assert(headers_bytes(group) + payload + rest == header::header_bytes(h) + more) by {
        assert(group.drop_first() =~= group.skip(1));
        assert(headers_bytes(group) + payload + rest =~= header::header_bytes(h) + more);
    }
    assert(group.take(1) =~= seq![h]);
    lemma_read_group(seq![h], group, 1, behind);
    lemma_next_group(h, more, group, behind);
    lemma_open_group(group, files, level, rest);
    lemma_within_group(group, files, payload, rest, 0);
}

/// A single header, not of a group, that stands before its payload.
proof fn lemma_single(h: Header, payload: Seq<u8>, rest: Seq<u8>)
    requires
        h.filename.len() <= 255,
        h.comment.len() <= 255,
        h.merged == 0,
        h.compressed == payload.len(),
    ensures
        reader::next(reader::between(header::header_bytes(h) + payload + rest))
            == reader::open_group(seq![h], payload + rest),
        (payload + rest).take(payload.len() as int) == payload,
        (payload + rest).skip(payload.len() as int) == rest,
        reader::total(seq![h]) == h.original,
{
    let group = seq![h];
    let behind = payload + rest;
    assert(header::header_bytes(h) + payload + rest =~= header::header_bytes(h) + behind);
    assert(reader::group_ends(group));
    lemma_next_group(h, behind, group, behind);
    assert(group.drop_last() =~= Seq::<Header>::empty());
    assert(reader::total(Seq::<Header>::empty()) == 0);
    assert(behind.take(payload.len() as int) =~= payload);
    assert(behind.skip(payload.len() as int) =~= rest);
}

/// The only entry of its group, whose bytes have been found, is handed out where
/// their checksum is right.
proof fn lemma_hand_out_single(h: Header, data: Seq<u8>, rest: Seq<u8>)
    requires
        data.len() == h.original,
    ensures
        reader::hand_out(ReaderState { rest, group: seq![h], data }) == (
            if crc32::checksum(data) == h.data_crc {
                Ok::<Option<EntryView>, Error>(Some(reader::entry_of(h, data)))
            } else {
                Err(Error::CrcMismatch { expected: h.data_crc, actual: crc32::checksum(data) })
            },
            reader::between(rest),
        ),
{
    let st = ReaderState { rest, group: seq![h], data };
    assert(data.take(h.original as int) =~= data);
    assert(data.skip(h.original as int) =~= Seq::<u8>::empty());
    assert(st.group.drop_first() =~= Seq::<Header>::empty());
    assert(reader::hand_out(st).1 =~= reader::between(rest));
}

/// A stored entry comes back, of whatever size, and the reader goes on behind
/// it.
pub proof fn lemma_stored_entry(h: Header, data: Seq<u8>, rest: Seq<u8>)
    requires
        h.filename.len() <= 255,
        h.comment.len() <= 255,
        h.merged == 0,
        h.pack_mode == 0,
        h.original == data.len(),
        h.compressed == data.len(),
        h.data_crc == crc32::checksum(data),
    ensures
        reader::next(reader::between(header::header_bytes(h) + data + rest)) == (
            Ok::<Option<EntryView>, Error>(Some(reader::entry_of(h, data))),
            reader::between(rest),
        ),
{
    lemma_single(h, data, rest);
    lemma_hand_out_single(h, data, rest);
    if data.len() == 0 {
        assert(data =~= Seq::<u8>::empty());
    }
}

/// What comes of an entry whose payload does not decode to what its header says:
/// a stored one of another size, one with an unknown mode of packing, and one
/// whose payload is refused by the decoder. The reader goes on behind it.
pub proof fn lemma_entry_refused(h: Header, payload: Seq<u8>, rest: Seq<u8>)
    requires
        h.filename.len() <= 255,
        h.comment.len() <= 255,
        h.merged == 0,
        h.compressed == payload.len(),
        h.original > 0,
    ensures
        ({
            let r = reader::next(reader::between(header::header_bytes(h) + payload + rest));
            &&& r.1 == reader::between(rest)
            &&& h.pack_mode == 0 && payload.len() != h.original ==> r.0 == Err::<
                Option<EntryView>,
                Error,
            >(Error::InvalidArchive("stored entry size does not match payload length"))
            &&& h.pack_mode != 0 && h.pack_mode != 2 ==> r.0 == Err::<Option<EntryView>, Error>(
                Error::InvalidArchive("unknown pack mode"),
            )
            &&& h.pack_mode == 2 && decoder::decoded(payload, h.original as nat) is Err ==> r.0
                == Err::<Option<EntryView>, Error>(
                decoder::decoded(payload, h.original as nat)->Err_0,
            )
        }),
{
    lemma_single(h, payload, rest);
    decoder::lemma_decoded_len(payload, h.original as nat);
    match reader::unpacked(h.pack_mode, payload, h.original as nat) {
        Ok(data) => {
            lemma_hand_out_single(h, data, rest);
        },
        Err(_) => {},
    }
}

/// No entry is handed out whose bytes have another checksum than its header
/// says, stored or compressed, and whatever an archive holds: what is handed out
/// has the size and the checksum of its header. An entry of no bytes is handed out
/// whatever its payload is.
pub proof fn lemma_entry_checked(h: Header, payload: Seq<u8>, rest: Seq<u8>)
    requires
        h.filename.len() <= 255,
        h.comment.len() <= 255,
        h.merged == 0,
        h.compressed == payload.len(),
    ensures
        ({
            let r = reader::next(reader::between(header::header_bytes(h) + payload + rest));
            &&& r.0 matches Ok(Some(e)) ==> {
                &&& e.data.len() == h.original
                &&& e.data_crc == h.data_crc == crc32::checksum(e.data)
                &&& e == reader::entry_of(h, e.data)
            }
            &&& h.pack_mode == 0 && h.original == payload.len() && crc32::checksum(payload)
                != h.data_crc ==> r == (
                Err::<Option<EntryView>, Error>(
                    Error::CrcMismatch {
                        expected: h.data_crc,
                        actual: crc32::checksum(payload),
                    },
                ),
                reader::between(rest),
            )
            &&& h.pack_mode == 2 && h.original > 0 && (decoder::decoded(
                payload,
                h.original as nat,
            ) matches Ok(data) && crc32::checksum(data) == h.data_crc) ==> r == (
                Ok::<Option<EntryView>, Error>(
                    Some(
                        reader::entry_of(
                            h,
                            decoder::decoded(payload, h.original as nat)->Ok_0,
                        ),
                    ),
                ),
                reader::between(rest),
            )
            &&& h.original == 0 && h.data_crc == crc32::checksum(Seq::empty()) ==> r == (
                Ok::<Option<EntryView>, Error>(Some(reader::entry_of(h, Seq::empty()))),
                reader::between(rest),
            )
            &&& r.0 !is Ok || r.0->Ok_0 is Some
        }),
{
    lemma_single(h, payload, rest);
    decoder::lemma_decoded_len(payload, h.original as nat);
    if payload.len() == 0 {
        assert(payload =~= Seq::<u8>::empty());
    }
    match reader::unpacked(h.pack_mode, payload, h.original as nat) {
        Ok(data) => {
            lemma_hand_out_single(h, data, rest);
        },
        Err(_) => {},
    }
}

/// A payload that is cut short is refused, and nothing is left of it.
pub proof fn lemma_payload_cut(h: Header, payload: Seq<u8>)
    requires
        h.filename.len() <= 255,
        h.comment.len() <= 255,
        h.merged == 0,
        payload.len() < h.compressed,
    ensures
        reader::next(reader::between(header::header_bytes(h) + payload)) == (
            Err::<Option<EntryView>, Error>(Error::Truncated),
            reader::between(Seq::empty()),
        ),
{
    let group = seq![h];
    assert(reader::group_ends(group));
    lemma_next_group(h, payload, group, payload);
}

/// Headers of a merged group that fit these files, of which only the last one
/// has the size of the payload.
pub open spec fn group_fits(group: Seq<Header>, files: Seq<Seq<u8>>, size: nat) -> bool {
    &&& 0 < group.len() == files.len()
    &&& forall|i: int|
        0 <= i < group.len() ==> {
            let h = #[trigger] group[i];
            &&& h.filename.len() <= 255
            &&& h.comment.len() <= 255
            &&& h.merged != 0
            &&& h.original == files[i].len()
            &&& h.data_crc == crc32::checksum(files[i])
            &&& h.compressed == (if i == group.len() - 1 {
                size
            } else {
                0
            })
        }
    &&& size > 0
    &&& files_bytes(files).len() <= usize::MAX
}

proof fn lemma_group_open(
    group: Seq<Header>,
    files: Seq<Seq<u8>>,
    payload: Seq<u8>,
    rest: Seq<u8>,
)
    requires
        group_fits(group, files, payload.len()),
        reader::unpacked(group.last().pack_mode, payload, files_bytes(files).len()) == Ok::<
            Seq<u8>,
            Error,
        >(files_bytes(files)),
    ensures
        reader::open_group(group, payload + rest) == reader::next(
            within_group(group, files, rest, 0),
        ),
{
    let behind = payload + rest;
    assert(group[group.len() - 1] == group.last());
    assert(behind.take(payload.len() as int) =~= payload);
    assert(behind.skip(payload.len() as int) =~= rest);
    lemma_total(group, files, group.len() as int);
    assert(group.take(group.len() as int) =~= group);
    assert(files.skip(files.len() as int) =~= Seq::<Seq<u8>>::empty());
    assert(files_bytes(Seq::<Seq<u8>>::empty()) =~= Seq::<u8>::empty());
    assert(reader::total(group) == files_bytes(files).len());
    assert(group.skip(0) =~= group);
    assert(files.skip(0) =~= files);
}

proof fn lemma_group_entries(
    group: Seq<Header>,
    files: Seq<Seq<u8>>,
    payload: Seq<u8>,
    rest: Seq<u8>,
)
    requires
        group_fits(group, files, payload.len()),
        reader::unpacked(group.last().pack_mode, payload, files_bytes(files).len()) == Ok::<
            Seq<u8>,
            Error,
        >(files_bytes(files)),
    ensures
        reader::next(reader::between(headers_bytes(group) + payload + rest)) == (
            Ok::<Option<EntryView>, Error>(Some(reader::entry_of(group[0], files[0]))),
            within_group(group, files, rest, 1),
        ),
        forall|k: int|
            0 <= k < group.len() ==> #[trigger] reader::next(within_group(group, files, rest, k))
                == (
                Ok::<Option<EntryView>, Error>(Some(reader::entry_of(group[k], files[k]))),
                within_group(group, files, rest, k + 1),
            ),
        within_group(group, files, rest, group.len() as int) == reader::between(rest),
{
    let behind = payload + rest;
    let h = group[0];
    let more = headers_bytes(group.skip(1)) + behind;
    assert(headers_bytes(group) + payload + rest == header::header_bytes(h) + more) by {
        assert(group.drop_first() =~= group.skip(1));
        assert(headers_bytes(group) + payload + rest =~= header::header_bytes(h) + more);
    }
    assert(group.take(1) =~= seq![h]);
    assert(group[group.len() - 1] == group.last());
    lemma_read_group(seq![h], group, 1, behind);
    lemma_next_group(h, more, group, behind);
    lemma_group_open(group, files, payload, rest);
    assert forall|k: int| 0 <= k < group.len() implies #[trigger] reader::next(
        within_group(group, files, rest, k),
    ) == (
        Ok::<Option<EntryView>, Error>(Some(reader::entry_of(group[k], files[k]))),
        within_group(group, files, rest, k + 1),
    ) by {
        lemma_within(group, files, rest, k);
    }
    lemma_within(group, files, rest, group.len() - 1);
    lemma_within(group, files, rest, 0);
}

/// The entries of a merged group, whose payload is all its files in a row as they
/// are, come back one by one, each with its own file, and the reader goes on
/// behind the payload.
pub proof fn lemma_stored_group(group: Seq<Header>, files: Seq<Seq<u8>>, rest: Seq<u8>)
    requires
        group_fits(group, files, files_bytes(files).len()),
        group.last().pack_mode == 0,
    ensures
        reader::next(reader::between(headers_bytes(group) + files_bytes(files) + rest)) == (
            Ok::<Option<EntryView>, Error>(Some(reader::entry_of(group[0], files[0]))),
            within_group(group, files, rest, 1),
        ),
        forall|k: int|
            0 <= k < group.len() ==> #[trigger] reader::next(within_group(group, files, rest, k))
                == (
                Ok::<Option<EntryView>, Error>(Some(reader::entry_of(group[k], files[k]))),
                within_group(group, files, rest, k + 1),
            ),
        within_group(group, files, rest, group.len() as int) == reader::between(rest),
{
    lemma_group_entries(group, files, files_bytes(files), rest);
}

/// The entries of a merged group come back in the same way from any payload that
/// decodes to all its files in a row.
pub proof fn lemma_packed_group(
    group: Seq<Header>,
    files: Seq<Seq<u8>>,
    payload: Seq<u8>,
    rest: Seq<u8>,
)
    requires
        group_fits(group, files, payload.len()),
        group.last().pack_mode == 2,
        decoder::decoded(payload, files_bytes(files).len()) == Ok::<Seq<u8>, Error>(
            files_bytes(files),
        ),
    ensures
        reader::next(reader::between(headers_bytes(group) + payload + rest)) == (
            Ok::<Option<EntryView>, Error>(Some(reader::entry_of(group[0], files[0]))),
            within_group(group, files, rest, 1),
        ),
        forall|k: int|
            0 <= k < group.len() ==> #[trigger] reader::next(within_group(group, files, rest, k))
                == (
                Ok::<Option<EntryView>, Error>(Some(reader::entry_of(group[k], files[k]))),
                within_group(group, files, rest, k + 1),
            ),
        within_group(group, files, rest, group.len() as int) == reader::between(rest),
{
    if files_bytes(files).len() == 0 {
        assert(files_bytes(files) =~= Seq::<u8>::empty());
    }
    lemma_group_entries(group, files, payload, rest);
}

/// An entry of a group whose file has another checksum than its header says is
/// refused. The others are not.
pub proof fn lemma_group_checked(
    group: Seq<Header>,
    files: Seq<Seq<u8>>,
    rest: Seq<u8>,
    k: int,
)
    requires
        0 <= k < group.len() == files.len(),
        group[k].original == files[k].len(),
        group[k].data_crc != crc32::checksum(files[k]),
    ensures
        reader::next(within_group(group, files, rest, k)) == (
            Err::<Option<EntryView>, Error>(
                Error::CrcMismatch {
                    expected: group[k].data_crc,
                    actual: crc32::checksum(files[k]),
                },
            ),
            within_group(group, files, rest, k + 1),
        ),
{
    let st = within_group(group, files, rest, k);
    let left = files.skip(k);
    assert(left[0] == files[k]);
    assert(left.drop_first() =~= files.skip(k + 1));
    assert(st.data.take(files[k].len() as int) =~= files[k]);
    assert(st.data.skip(files[k].len() as int) =~= files_bytes(files.skip(k + 1)));
    assert(st.group[0] == group[k]);
    assert(st.group.drop_first() =~= group.skip(k + 1));
    assert(reader::hand_out(st).1 =~= within_group(group, files, rest, k + 1));
}

/// A group that no header with a payload ends is refused.
pub proof fn lemma_group_cut(group: Seq<Header>, done: Seq<Header>)
    requires
        done.len() > 0,
        done[0].merged != 0,
        done.last().compressed == 0,
        forall|i: int|
            0 <= i < group.len() ==> {
                let h = #[trigger] group[i];
                &&& h.filename.len() <= 255
                &&& h.comment.len() <= 255
                &&& h.compressed == 0
            },
    ensures
        reader::read_group(done, headers_bytes(group)) == (
            Err::<Seq<Header>, Error>(Error::Truncated),
            Seq::<u8>::empty(),
        ),
    decreases group.len(),
{
    if group.len() == 0 {
        assert(headers_bytes(group) =~= Seq::<u8>::empty());
    } else {
        let h = group[0];
        let more = headers_bytes(group.drop_first());
        header::lemma_header_round_trip(h, more);
        assert forall|i: int| 0 <= i < group.drop_first().len() implies {
            let g = #[trigger] group.drop_first()[i];
            &&& g.filename.len() <= 255
            &&& g.comment.len() <= 255
            &&& g.compressed == 0
        } by {
            assert(group.drop_first()[i] == group[i + 1]);
        }
        lemma_group_cut(group.drop_first(), done.push(h));
    }
}

/// What is wrong with a header is told, and the reader goes on behind it. At the end
/// of the archive there is no entry, and there is none after that either.
pub proof fn lemma_header_told(b: Seq<u8>)
    ensures
        header::read_header(b).0 matches Err(e) ==> reader::next(reader::between(b)) == (
            Err::<Option<EntryView>, Error>(e),
            reader::between(header::read_header(b).1),
        ),
        b.len() == 0 ==> reader::next(reader::between(b)) == (
            Ok::<Option<EntryView>, Error>(None),
            reader::between(b),
        ),
        reader::next(reader::between(b)).0 == Ok::<Option<EntryView>, Error>(None) ==> b.len() == 0,
{
}

/// An archive that ends within a group is refused, and nothing is left of it.
pub proof fn lemma_group_unfinished(h: Header, group: Seq<Header>)
    requires
        h.filename.len() <= 255,
        h.comment.len() <= 255,
        h.merged != 0,
        h.compressed == 0,
        forall|i: int|
            0 <= i < group.len() ==> {
                let g = #[trigger] group[i];
                &&& g.filename.len() <= 255
                &&& g.comment.len() <= 255
                &&& g.compressed == 0
            },
    ensures
        reader::next(
            reader::between(header::header_bytes(h) + headers_bytes(group)),
        ) == (
            Err::<Option<EntryView>, Error>(Error::Truncated),
            reader::between(Seq::empty()),
        ),
{
    header::lemma_header_round_trip(h, headers_bytes(group));
    lemma_group_cut(group, seq![h]);
}

} // verus!
