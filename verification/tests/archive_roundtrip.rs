use amiga_lzx::{ArchiveReader, ArchiveWriter, DateTime, EntryAttrs, EntryBuilder, Level};

/// Write an entry piece by piece, and read it back.
fn round_trip(name: &str, payload: &[u8], level: Level) {
    let datetime = DateTime::try_new(2026, 4, 13, 3, 47, 22).unwrap();
    let attrs = EntryAttrs::read() | EntryAttrs::write();
    let mut ar = ArchiveWriter::new(Vec::new()).unwrap();
    let builder = EntryBuilder::new(name)
        .level(level)
        .datetime(datetime)
        .attrs(attrs);
    let mut entry = ar.add_entry(builder).unwrap();
    for piece in payload.chunks(1000) {
        assert_eq!(entry.write(piece).unwrap(), piece.len());
    }
    entry.finish().unwrap();
    let bytes = ar.finish().unwrap();

    let mut reader = ArchiveReader::new(&bytes).unwrap();
    let entry = reader
        .next_entry()
        .unwrap()
        .expect("expected at least one entry");
    assert_eq!(entry.filename, name);
    assert_eq!(entry.data, payload);
    assert_eq!(entry.attrs, attrs, "attrs mismatch");
    assert_eq!(entry.datetime, datetime, "datetime mismatch");
    assert!(reader.next_entry().unwrap().is_none(), "expected EOF");
}

#[test]
fn archive_roundtrip_empty_file() {
    round_trip("empty.bin", b"", Level::Normal);
}

#[test]
fn archive_roundtrip_one_byte() {
    round_trip("one.bin", b"x", Level::Normal);
}

#[test]
fn archive_roundtrip_lorem_at_each_level() {
    let data = b"Lorem ipsum dolor sit amet, consectetur adipiscing elit. \
                 Lorem ipsum dolor sit amet, consectetur adipiscing elit. \
                 Sed do eiusmod tempor incididunt ut labore et dolore magna \
                 aliqua. Ut enim ad minim veniam, quis nostrud exercitation \
                 ullamco laboris nisi ut aliquip ex ea commodo consequat.";
    round_trip("lorem.txt", data, Level::Quick);
    round_trip("lorem.txt", data, Level::Normal);
    round_trip("lorem.txt", data, Level::Max);
}

#[test]
fn archive_roundtrip_long_zeros_64k() {
    let data = vec![0u8; 64 * 1024];
    round_trip("zeros.bin", &data, Level::Normal);
}

#[test]
fn archive_roundtrip_long_zeros_above_64k() {
    let data = vec![0u8; 80 * 1024];
    round_trip("zeros80k.bin", &data, Level::Normal);
}

#[test]
fn archive_roundtrip_random_128k() {
    let mut s: u64 = 0x9e37_79b9_7f4a_7c15;
    let mut next = || {
        s ^= s << 13;
        s ^= s >> 7;
        s ^= s << 17;
        s
    };
    let mut data = vec![0u8; 128 * 1024];
    for b in data.iter_mut() {
        *b = (next() & 0xff) as u8;
    }
    round_trip("random.bin", &data, Level::Normal);
}

#[test]
fn archive_roundtrip_multi_entry_archive() {
    let files: [(&str, &[u8]); 3] = [
        ("first.txt", b"hello world"),
        ("second.bin", &[0u8; 1000]),
        ("third.txt", b"the quick brown fox jumps over the lazy dog"),
    ];
    let mut ar = ArchiveWriter::new(Vec::new()).unwrap();
    for (name, payload) in files {
        let mut e = ar.add_entry(EntryBuilder::new(name)).unwrap();
        for piece in payload.chunks(7) {
            e.write_all(piece).unwrap();
        }
        e.finish().unwrap();
    }
    let buf = ar.finish().unwrap();

    let mut reader = ArchiveReader::new(&buf).unwrap();
    for (name, payload) in files {
        let e = reader.next_entry().unwrap().unwrap();
        assert_eq!(e.filename, name);
        assert_eq!(e.data, payload);
    }
    assert!(reader.next_entry().unwrap().is_none());
}

#[test]
fn archive_roundtrip_entry_with_comment() {
    let mut ar = ArchiveWriter::new(Vec::new()).unwrap();
    let mut e = ar
        .add_entry(EntryBuilder::new("file.txt").comment("a small note"))
        .unwrap();
    e.write_all(b"pay").unwrap();
    e.write_all(b"load").unwrap();
    e.finish().unwrap();
    let buf = ar.finish().unwrap();

    let mut reader = ArchiveReader::new(&buf).unwrap();
    let entry = reader.next_entry().unwrap().unwrap();
    assert_eq!(entry.filename, "file.txt");
    assert_eq!(entry.comment, "a small note");
    assert_eq!(entry.data, b"payload");
}
