use amiga_lzx::crc32::{crc32, Crc32, CRC32_TABLE};

#[test]
fn empty_is_zero() {
    assert_eq!(crc32(b""), 0);
}

#[test]
fn vector_123456789() {
    assert_eq!(crc32(b"123456789"), 0xcbf43926);
}

#[test]
fn quick_brown_fox() {
    assert_eq!(
        crc32(b"The quick brown fox jumps over the lazy dog"),
        0x414fa339
    );
}

#[test]
fn incremental_matches_oneshot() {
    let data = b"The quick brown fox jumps over the lazy dog";
    let (a, b) = data.split_at(10);
    let mut c = Crc32::new();
    c.update(a);
    c.update(b);
    assert_eq!(c.finalize(), crc32(data));
}

#[test]
fn a_checksum_can_be_resumed() {
    let data = b"123456789";
    let mut c = Crc32::default();
    assert_eq!(c.raw(), 0xffff_ffff);
    c.update(&data[..4]);
    let saved = c.raw();
    let mut d = Crc32::from_raw(saved);
    d.update(&data[4..]);
    assert_eq!(d.finalize(), 0xcbf43926);
}

#[test]
fn table_entries() {
    assert_eq!(CRC32_TABLE[0], 0);
    assert_eq!(CRC32_TABLE[1], 0x77073096);
    assert_eq!(CRC32_TABLE[128], 0xedb88320);
    assert_eq!(CRC32_TABLE[255], 0x2d02ef8d);
}
