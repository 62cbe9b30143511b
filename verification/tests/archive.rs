use amiga_lzx::block::BlockWriter;
use amiga_lzx::constants::{
    level_normal, ENTRY_HEADER_HOST_OS, ENTRY_HEADER_LEN, ENTRY_HEADER_MACHINE,
    ENTRY_HEADER_PACK_MODE, INFO_HEADER_FLAGS, INFO_HEADER_LEN, INFO_HEADER_MAGIC,
    INFO_HEADER_VERSION,
};
use amiga_lzx::crc32::{crc32, Crc32};
use amiga_lzx::lz77;
use amiga_lzx::{
    ArchiveReader, ArchiveWriter, DateTime, EntryAttrs, EntryBuilder, Error, Level,
};

fn round_trip(name: &str, payload: &[u8], level: Level) {
    let mut ar = ArchiveWriter::new(Vec::new()).unwrap();
    let mut entry = ar
        .add_entry(
            EntryBuilder::new(name)
                .level(level)
                .datetime(DateTime::try_new(2026, 4, 13, 3, 47, 22).unwrap())
                .attrs(EntryAttrs::read() | EntryAttrs::write()),
        )
        .unwrap();
    entry.write_all(payload).unwrap();
    entry.finish().unwrap();
    let bytes = ar.finish().unwrap();

    let mut reader = ArchiveReader::new(&bytes).unwrap();
    let entry = reader
        .next_entry()
        .unwrap()
        .expect("expected at least one entry");
    assert_eq!(entry.filename, name);
    assert_eq!(entry.data, payload);
    assert_eq!(
        entry.attrs,
        EntryAttrs::read() | EntryAttrs::write(),
        "attrs mismatch"
    );
    assert_eq!(
        entry.datetime,
        DateTime::try_new(2026, 4, 13, 3, 47, 22).unwrap(),
        "datetime mismatch"
    );
    assert!(reader.next_entry().unwrap().is_none(), "expected EOF");
}

#[test]
fn empty_file() {
    round_trip("empty.bin", b"", Level::Normal);
}

#[test]
fn one_byte() {
    round_trip("one.bin", b"x", Level::Normal);
}

#[test]
fn lorem_at_each_level() {
    let data = b"Lorem ipsum dolor sit amet, consectetur adipiscing elit. \
                 Lorem ipsum dolor sit amet, consectetur adipiscing elit. \
                 Sed do eiusmod tempor incididunt ut labore et dolore magna \
                 aliqua. Ut enim ad minim veniam, quis nostrud exercitation \
                 ullamco laboris nisi ut aliquip ex ea commodo consequat.";
    round_trip("lorem.txt", data, Level::Quick);
    round_trip("lorem.txt", data, Level::Normal);
    round_trip("lorem.txt", data, Level::Max);
}

#[test]
fn long_zeros_64k() {
    let data = vec![0u8; 64 * 1024];
    round_trip("zeros.bin", &data, Level::Normal);
}

#[test]
fn long_zeros_above_64k() {
    let data = vec![0u8; 80 * 1024];
    round_trip("zeros80k.bin", &data, Level::Normal);
}

#[test]
fn random_128k() {
    let mut s: u64 = 0x9e37_79b9_7f4a_7c15;
    let mut next = || {
        s ^= s << 13;
        s ^= s >> 7;
        s ^= s << 17;
        s
    };
    let mut data = vec![0u8; 128 * 1024];
    for b in data.iter_mut() {
        *b = (next() & 0xff) as u8;
    }
    round_trip("random.bin", &data, Level::Normal);
}

#[test]
fn multi_entry_archive() {
    let mut ar = ArchiveWriter::new(Vec::new()).unwrap();
    for (name, payload) in &[
        ("first.txt", &b"hello world"[..]),
        ("second.bin", &[0u8; 1000][..]),
        (
            "third.txt",
            &b"the quick brown fox jumps over the lazy dog"[..],
        ),
    ] {
        let mut e = ar.add_entry(EntryBuilder::new(*name)).unwrap();
        e.write_all(payload).unwrap();
        e.finish().unwrap();
    }
    let buf = ar.finish().unwrap();

    let mut reader = ArchiveReader::new(&buf).unwrap();
    let e1 = reader.next_entry().unwrap().unwrap();
    assert_eq!(e1.filename, "first.txt");
    assert_eq!(e1.data, b"hello world");
    let e2 = reader.next_entry().unwrap().unwrap();
    assert_eq!(e2.filename, "second.bin");
    assert_eq!(e2.data, vec![0u8; 1000]);
    let e3 = reader.next_entry().unwrap().unwrap();
    assert_eq!(e3.filename, "third.txt");
    assert_eq!(e3.data, b"the quick brown fox jumps over the lazy dog");
    assert!(reader.next_entry().unwrap().is_none());
}

fn info_header() -> Vec<u8> {
    let mut info = [0u8; INFO_HEADER_LEN];
    info[0..4].copy_from_slice(&INFO_HEADER_MAGIC);
    info[6] = INFO_HEADER_VERSION;
    info[7] = INFO_HEADER_FLAGS;
    let sum: u8 = info.iter().fold(0u8, |a, &b| a.wrapping_add(b));
    info[4] = sum;
    info.to_vec()
}

/// A header with the given sizes, pack mode, merged flag and date bytes.
fn raw_header(
    sizes: (u32, u32),
    pack_mode: u8,
    merged: u8,
    date: [u8; 4],
    data_crc: u32,
    filename: &[u8],
) -> Vec<u8> {
    let mut h = vec![0u8; ENTRY_HEADER_LEN + filename.len()];
    h[0] = 0x07;
    h[2..6].copy_from_slice(&sizes.0.to_le_bytes());
    h[6..10].copy_from_slice(&sizes.1.to_le_bytes());
    h[10] = ENTRY_HEADER_MACHINE;
    h[11] = pack_mode;
    h[12] = merged;
    h[14] = 0;
    h[15] = ENTRY_HEADER_HOST_OS;
    h[18..22].copy_from_slice(&date);
    h[22..26].copy_from_slice(&data_crc.to_le_bytes());
    h[30] = filename.len() as u8;
    h[ENTRY_HEADER_LEN..].copy_from_slice(filename);

    let mut crc = Crc32::new();
    crc.update(&h[0..ENTRY_HEADER_LEN]);
    crc.update(filename);
    let header_crc = crc.finalize();
    h[26..30].copy_from_slice(&header_crc.to_le_bytes());
    h
}

#[test]
fn handcrafted_merged_group_round_trip() {
    let payload_a = b"This is the first file. It contains some text.";
    let payload_b = b"And this is the second file with different content!";
    let mut combined = Vec::new();
    combined.extend_from_slice(payload_a);
    combined.extend_from_slice(payload_b);

    let tokens = lz77::encode(&combined, &level_normal());
    let mut bw = BlockWriter::new(Vec::new());
    bw.write_block(&tokens).unwrap();
    let (compressed_payload, _) = bw.finish().unwrap();

    fn entry_header(
        original_size: u32,
        compressed_size: u32,
        data_crc: u32,
        filename: &str,
    ) -> Vec<u8> {
        raw_header(
            (original_size, compressed_size),
            ENTRY_HEADER_PACK_MODE,
            1,
            [0, 0, 0, 0],
            data_crc,
            filename.as_bytes(),
        )
    }

    let crc_a = crc32(payload_a);
    let crc_b = crc32(payload_b);

    let mut archive = Vec::new();
    archive.extend_from_slice(&info_header());
    archive.extend(entry_header(payload_a.len() as u32, 0, crc_a, "first.txt"));
    archive.extend(entry_header(
        payload_b.len() as u32,
        compressed_payload.len() as u32,
        crc_b,
        "second.txt",
    ));
    archive.extend_from_slice(&compressed_payload);

    let mut reader = ArchiveReader::new(&archive).unwrap();
    let e1 = reader.next_entry().unwrap().expect("first entry");
    assert_eq!(e1.filename, "first.txt");
    assert_eq!(e1.data, payload_a);
    assert_eq!(e1.data_crc, crc_a);

    let e2 = reader.next_entry().unwrap().expect("second entry");
    assert_eq!(e2.filename, "second.txt");
    assert_eq!(e2.data, payload_b);
    assert_eq!(e2.data_crc, crc_b);

    assert!(reader.next_entry().unwrap().is_none(), "expected EOF");
}

#[test]
fn entry_with_comment() {
    let mut ar = ArchiveWriter::new(Vec::new()).unwrap();
    let mut e = ar
        .add_entry(EntryBuilder::new("file.txt").comment("a small note"))
        .unwrap();
    e.write_all(b"payload").unwrap();
    e.finish().unwrap();
    let buf = ar.finish().unwrap();

    let mut reader = ArchiveReader::new(&buf).unwrap();
    let entry = reader.next_entry().unwrap().unwrap();
    assert_eq!(entry.filename, "file.txt");
    assert_eq!(entry.comment, "a small note");
    assert_eq!(entry.data, b"payload");
}

#[test]
fn latin1_filename_and_comment_round_trip() {
    let mut ar = ArchiveWriter::new(Vec::new()).unwrap();
    let mut e = ar
        .add_entry(EntryBuilder::new("¡tsa!.txt").comment("olá"))
        .unwrap();
    e.write_all(b"payload").unwrap();
    e.finish().unwrap();
    let buf = ar.finish().unwrap();

    let mut reader = ArchiveReader::new(&buf).unwrap();
    let entry = reader.next_entry().unwrap().unwrap();
    assert_eq!(entry.filename, "¡tsa!.txt");
    assert_eq!(entry.comment, "olá");
    assert_eq!(entry.data, b"payload");
}

#[test]
fn non_latin1_filename_is_rejected() {
    let mut ar = ArchiveWriter::new(Vec::new()).unwrap();
    match ar.add_entry(EntryBuilder::new("snowman-☃.txt")) {
        Err(Error::FilenameNotLatin1) => {}
        Err(other) => panic!("unexpected error: {other:?}"),
        Ok(_) => panic!("expected non-Latin-1 filename to be rejected"),
    };
}

#[test]
fn non_latin1_comment_is_rejected() {
    let mut ar = ArchiveWriter::new(Vec::new()).unwrap();
    match ar.add_entry(EntryBuilder::new("file.txt").comment("snowman-☃")) {
        Err(Error::CommentNotLatin1) => {}
        Err(other) => panic!("unexpected error: {other:?}"),
        Ok(_) => panic!("expected non-Latin-1 comment to be rejected"),
    };
}

/// Date bytes by the layout of the format, with the year field given.
fn date_bytes(day: u32, month: u32, field: u32, hour: u32, minute: u32, second: u32) -> [u8; 4] {
    (day << 27 | (month - 1) << 23 | field << 17 | hour << 12 | minute << 6 | second).to_be_bytes()
}

#[test]
fn y2k_test_archive_decodes_correctly() {
    // Name, year field, then the date and time to expect.
    let expected: &[(&str, u32, (u16, u8, u8, u8, u8, u8))] = &[
        ("1978", 8, (1978, 1, 1, 0, 1, 2)),
        ("1979", 9, (1979, 2, 10, 3, 4, 5)),
        ("1980", 10, (1980, 3, 20, 6, 7, 8)),
        ("1998", 28, (1998, 4, 30, 9, 10, 11)),
        ("1999", 29, (1999, 5, 1, 12, 13, 14)),
        ("2000", 58, (2000, 6, 2, 15, 16, 17)),
        ("2001", 59, (2001, 7, 3, 18, 19, 20)),
        ("2002", 60, (2002, 8, 4, 21, 22, 23)),
        ("2003", 61, (2003, 9, 5, 0, 59, 59)),
        ("2004", 62, (2004, 10, 6, 1, 58, 58)),
        ("2005", 63, (2005, 11, 7, 2, 57, 57)),
        ("2006", 30, (2006, 12, 8, 3, 56, 56)),
        ("2007", 31, (2007, 1, 9, 4, 55, 55)),
        ("2008", 32, (2008, 2, 10, 5, 54, 54)),
        ("2010", 34, (2010, 3, 11, 6, 53, 53)),
        ("2020", 44, (2020, 4, 12, 7, 52, 52)),
        ("2030", 54, (2030, 5, 13, 8, 51, 51)),
        ("2033", 57, (2033, 6, 14, 9, 50, 50)),
        ("2034", 0, (2034, 7, 15, 10, 49, 49)),
        ("2035", 1, (2035, 8, 16, 11, 48, 48)),
        ("2040", 6, (2040, 9, 17, 12, 47, 47)),
        ("2041", 7, (2041, 10, 18, 13, 46, 46)),
    ];
    let mut archive = info_header();
    for &(name, field, (_, month, day, hour, minute, second)) in expected {
        let date = date_bytes(
            day as u32,
            month as u32,
            field,
            hour as u32,
            minute as u32,
            second as u32,
        );
        archive.extend(raw_header((4, 4), 0, 0, date, crc32(name.as_bytes()), name.as_bytes()));
        archive.extend_from_slice(name.as_bytes());
    }
    let mut reader = ArchiveReader::new(&archive).unwrap();
    for &(name, _, (year, month, day, hour, minute, second)) in expected {
        let entry = reader
            .next_entry()
            .unwrap()
            .unwrap_or_else(|| panic!("missing entry {name}"));
        assert_eq!(entry.filename, name, "filename mismatch");
        assert_eq!(
            entry.datetime,
            DateTime::try_new(year, month, day, hour, minute, second).unwrap(),
            "datetime mismatch for {name}"
        );
    }
    assert!(reader.next_entry().unwrap().is_none(), "expected EOF");
}

fn small_archive() -> Vec<u8> {
    let mut ar = ArchiveWriter::new(Vec::new()).unwrap();
    let mut e = ar.add_entry(EntryBuilder::new("a.txt")).unwrap();
    assert_eq!(e.write(b"some ").unwrap(), 5);
    e.flush().unwrap();
    assert_eq!(e.write(b"text").unwrap(), 4);
    e.finish().unwrap();
    ar.finish().unwrap()
}

#[test]
fn an_archive_begins_with_the_info_header() {
    let bytes = ArchiveWriter::new(vec![1, 2]).unwrap().finish().unwrap();
    assert_eq!(
        bytes,
        vec![1, 2, 0x4c, 0x5a, 0x58, 0x00, 0x0c, 0x00, 0x0a, 0x04, 0x00, 0x00]
    );
}

#[test]
fn an_entry_header_has_its_fields_in_place() {
    let bytes = small_archive();
    let h = &bytes[10..];
    assert_eq!(h[0], 0x0b);
    assert_eq!(&h[2..6], &[9, 0, 0, 0]);
    let compressed = u32::from_le_bytes([h[6], h[7], h[8], h[9]]) as usize;
    assert_eq!(bytes.len(), 10 + 31 + 5 + compressed);
    assert_eq!(&h[10..16], &[0x0a, 0x02, 0, 0, 0, 0x0a]);
    assert_eq!(&h[18..22], &[0x08, 0x10, 0x00, 0x00]);
    assert_eq!(&h[22..26], &crc32(b"some text").to_le_bytes());
    assert_eq!(h[30], 5);
    assert_eq!(&h[31..36], b"a.txt");
    let mut blank = h[..36].to_vec();
    blank[26..30].copy_from_slice(&[0; 4]);
    assert_eq!(&h[26..30], &crc32(&blank).to_le_bytes());
}

#[test]
fn names_that_are_too_long_are_rejected() {
    let mut ar = ArchiveWriter::new(Vec::new()).unwrap();
    let long = "n".repeat(256);
    assert!(matches!(
        ar.add_entry(EntryBuilder::new(&long)).err(),
        Some(Error::FilenameTooLong(256))
    ));
    assert!(matches!(
        ar.add_entry(EntryBuilder::new("n").comment(&long)).err(),
        Some(Error::CommentTooLong(256))
    ));
    assert!(matches!(
        ar.add_entry(EntryBuilder::new(&long).comment("☃")).err(),
        Some(Error::FilenameTooLong(256))
    ));
    assert!(matches!(
        ar.add_entry(EntryBuilder::new("☃").comment(&long)).err(),
        Some(Error::FilenameNotLatin1)
    ));
    assert_eq!(ar.finish().unwrap().len(), 10);
}

#[test]
fn the_longest_names_come_back() {
    let name = "é".repeat(255);
    let comment = "c".repeat(255);
    let mut ar = ArchiveWriter::new(Vec::new()).unwrap();
    let e = ar
        .add_entry(EntryBuilder::new(&name).comment(&comment))
        .unwrap();
    e.finish().unwrap();
    let bytes = ar.finish().unwrap();
    assert_eq!(bytes.len(), 10 + 31 + 510);
    let mut reader = ArchiveReader::new(&bytes).unwrap();
    let entry = reader.next_entry().unwrap().unwrap();
    assert_eq!(entry.filename, name);
    assert_eq!(entry.comment, comment);
}

#[test]
fn what_is_no_archive_is_refused() {
    assert!(matches!(
        ArchiveReader::new(b"LZX").err(),
        Some(Error::InvalidArchive("truncated info header"))
    ));
    assert!(matches!(
        ArchiveReader::new(b"LHA       ").err(),
        Some(Error::InvalidArchive("not an LZX archive"))
    ));
    let mut reader = ArchiveReader::new(b"LZX       ").unwrap();
    assert!(reader.next_entry().unwrap().is_none());
}

#[test]
fn cut_off_archives_are_truncated() {
    let bytes = small_archive();
    for end in [11, 40, 45, bytes.len() - 1] {
        let mut reader = ArchiveReader::new(&bytes[..end]).unwrap();
        assert!(matches!(reader.next_entry(), Err(Error::Truncated)), "{end}");
        assert!(reader.next_entry().unwrap().is_none());
    }
}

#[test]
fn damaged_headers_and_data_are_found() {
    let mut bytes = small_archive();
    bytes[41] = b'b';
    let mut reader = ArchiveReader::new(&bytes).unwrap();
    assert!(matches!(
        reader.next_entry(),
        Err(Error::CrcMismatch { .. })
    ));

    let mut archive = info_header();
    archive.extend(raw_header((3, 3), 0, 0, [0; 4], crc32(b"abc"), b"x"));
    archive.extend_from_slice(b"abd");
    archive.extend(raw_header((3, 3), 0, 0, [0; 4], crc32(b"abc"), b"y"));
    archive.extend_from_slice(b"abc");
    let mut reader = ArchiveReader::new(&archive).unwrap();
    match reader.next_entry() {
        Err(Error::CrcMismatch { expected, actual }) => {
            assert_eq!(expected, crc32(b"abc"));
            assert_eq!(actual, crc32(b"abd"));
        }
        _ => panic!("expected a mismatch"),
    }
    assert_eq!(reader.next_entry().unwrap().unwrap().filename, "y");
}

#[test]
fn stored_entries_and_unknown_pack_modes() {
    let mut archive = info_header();
    archive.extend(raw_header((2, 3), 0, 0, [0; 4], 0, b"short"));
    archive.extend_from_slice(b"abc");
    archive.extend(raw_header((3, 3), 1, 0, [0; 4], 0, b"odd"));
    archive.extend_from_slice(b"abc");
    archive.extend(raw_header((0, 3), 9, 0, [0; 4], 0, b"empty"));
    archive.extend_from_slice(b"abc");
    let mut reader = ArchiveReader::new(&archive).unwrap();
    assert!(matches!(
        reader.next_entry(),
        Err(Error::InvalidArchive(
            "stored entry size does not match payload length"
        ))
    ));
    assert!(matches!(
        reader.next_entry(),
        Err(Error::InvalidArchive("unknown pack mode"))
    ));
    let entry = reader.next_entry().unwrap().unwrap();
    assert_eq!(entry.filename, "empty");
    assert!(entry.data.is_empty());
    assert!(reader.next_entry().unwrap().is_none());
}

#[test]
fn a_group_without_payload_is_truncated() {
    let mut archive = info_header();
    archive.extend(raw_header((3, 0), 2, 1, [0; 4], 0, b"first"));
    let mut reader = ArchiveReader::new(&archive).unwrap();
    assert!(matches!(reader.next_entry(), Err(Error::Truncated)));
}

#[test]
fn one_bad_file_of_a_group_does_not_spoil_the_others() {
    let mut archive = info_header();
    archive.extend(raw_header((3, 0), 0, 1, [0; 4], crc32(b"abc"), b"a"));
    archive.extend(raw_header((3, 0), 0, 1, [0; 4], 7, b"b"));
    archive.extend(raw_header((3, 9), 0, 1, [0; 4], crc32(b"ghi"), b"c"));
    archive.extend_from_slice(b"abcdefghi");
    let mut reader = ArchiveReader::new(&archive).unwrap();
    assert_eq!(reader.next_entry().unwrap().unwrap().data, b"abc");
    assert!(matches!(
        reader.next_entry(),
        Err(Error::CrcMismatch { expected: 7, .. })
    ));
    assert_eq!(reader.next_entry().unwrap().unwrap().data, b"ghi");
    assert!(reader.next_entry().unwrap().is_none());
}

#[test]
fn attributes_keep_all_bits() {
    let all = EntryAttrs::pure()
        | EntryAttrs::script()
        | EntryAttrs::hold()
        | EntryAttrs::archive()
        | EntryAttrs::execute()
        | EntryAttrs::delete()
        | EntryAttrs::write()
        | EntryAttrs::read();
    assert_eq!(all.bits(), 0xff);
    assert_eq!(EntryAttrs::from_bits_retain(0xa5).bits(), 0xa5);
    assert_eq!(
        EntryAttrs::default(),
        EntryAttrs::read() | EntryAttrs::write() | EntryAttrs::execute()
    );
}

#[test]
fn levels_from_flags() {
    assert_eq!(Level::from_flags(true, true, true), Level::Quick);
    assert_eq!(Level::from_flags(false, true, true), Level::Max);
    assert_eq!(Level::from_flags(false, true, false), Level::Normal);
    assert_eq!(Level::from_flags(false, false, false), Level::default());
}

#[test]
fn every_latin1_character_comes_back() {
    for first in [1u8, 128] {
        let name: String = (first..=first + 126).map(|b| b as char).collect();
        round_trip(&name, b"x", Level::Quick);
    }
}

#[test]
fn noise_does_not_grow_by_much() {
    let mut s: u64 = 0x0123_4567_89ab_cdef;
    let data: Vec<u8> = (0..100_000)
        .map(|_| {
            s ^= s << 13;
            s ^= s >> 7;
            s ^= s << 17;
            s as u8
        })
        .collect();
    for part in [&data[..1], &data[..1000], &data[..]] {
        let mut ar = ArchiveWriter::new(Vec::new()).unwrap();
        let mut e = ar.add_entry(EntryBuilder::new("noise")).unwrap();
        e.write_all(part).unwrap();
        e.finish().unwrap();
        let payload = ar.finish().unwrap().len() - 10 - 31 - 5;
        assert!(8 * payload <= 17 * part.len() + 8 * 3002);
        assert_eq!(payload % 2, 0);
    }
}
