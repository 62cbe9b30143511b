use amiga_lzx::bitio::{BitReader, BitWriter};
use amiga_lzx::Error;

#[test]
fn eof_does_not_supply_zero_bits() {
    let mut r = BitReader::new(&b""[..]);
    assert!(matches!(r.read_bits(1), Err(Error::Truncated)));
    assert!(matches!(r.consume_bits(1), Err(Error::Truncated)));
    assert_eq!(r.read_bits(0).unwrap(), 0);

    let mut r = BitReader::new(&[0x12, 0x34][..]);
    assert_eq!(r.read_bits(16).unwrap(), 0x1234);
    assert!(matches!(r.read_bits(1), Err(Error::Truncated)));
    assert!(matches!(r.read_bits(1), Err(Error::Truncated)));
    assert_eq!(r.bytes_read(), 2);
}

#[test]
fn odd_byte_cannot_replace_a_complete_word() {
    let mut r = BitReader::new(&[0x12][..]);
    assert!(matches!(r.read_bits(1), Err(Error::Truncated)));
    assert!(matches!(r.read_bits(1), Err(Error::Truncated)));
    assert_eq!(r.bytes_read(), 1);
}

#[test]
fn padded_lookahead_cannot_be_consumed_as_data() {
    let mut r = BitReader::new(&[0x80, 0x00][..]);
    r.consume_bits(15).unwrap();
    assert_eq!(r.peek_bits_padded(12).unwrap(), 1);
    assert!(matches!(r.consume_bits(2), Err(Error::Truncated)));
    assert_eq!(r.read_bits(1).unwrap(), 1);
    assert!(matches!(r.peek_bits_padded(12), Err(Error::Truncated)));
}

#[test]
fn read_back_three_bit_header() {
    let mut w = BitWriter::new(Vec::new());
    w.write_bits(0b011, 3).unwrap();
    let (bytes, _) = w.finish().unwrap();

    let mut r = BitReader::new(&bytes);
    assert_eq!(r.read_bits(3).unwrap(), 0b011);
}

#[test]
fn round_trip_mixed_widths() {
    let writes: &[(u32, u32)] = &[
        (0b1, 1),
        (0b0101, 4),
        (0xabcd, 16),
        (0x1f, 5),
        (0xfa, 8),
        (0x123, 9),
    ];
    let mut w = BitWriter::new(Vec::new());
    for &(v, n) in writes {
        w.write_bits(v, n).unwrap();
    }
    let (bytes, _) = w.finish().unwrap();

    let mut r = BitReader::new(&bytes);
    for &(v, n) in writes {
        assert_eq!(r.read_bits(n).unwrap(), v, "width {n}");
    }
}

#[test]
fn long_random_round_trip() {
    let mut state: u64 = 0x00c0_ffee_1234_5678;
    let mut next = || {
        state ^= state << 13;
        state ^= state >> 7;
        state ^= state << 17;
        state
    };
    let mut writes = Vec::new();
    for _ in 0..2000 {
        let n = ((next() % 16) + 1) as u32;
        let v = (next() as u32) & ((1u32 << n) - 1);
        writes.push((v, n));
    }
    let mut w = BitWriter::new(Vec::new());
    for &(v, n) in &writes {
        w.write_bits(v, n).unwrap();
    }
    let (bytes, _) = w.finish().unwrap();
    let mut r = BitReader::new(&bytes);
    for &(v, n) in &writes {
        assert_eq!(r.read_bits(n).unwrap(), v);
    }
}

#[test]
fn single_word_pack_lsb_first_in_be_bytes() {
    let mut w = BitWriter::new(Vec::new());
    w.write_bits(0b1011, 4).unwrap();
    w.write_bits(0b0010, 4).unwrap();
    let (out, n) = w.finish().unwrap();
    assert_eq!(n, 2);
    assert_eq!(out, vec![0x00, 0x2b]);
}

#[test]
fn three_bit_block_header_at_start() {
    let mut w = BitWriter::new(Vec::new());
    w.write_bits(0b011, 3).unwrap();
    let (out, _) = w.finish().unwrap();
    assert_eq!(out.len(), 2);
    assert_eq!(out[0], 0x00);
    assert_eq!(out[1], 0b0000_0011);
}

#[test]
fn writes_full_word_then_partial() {
    let mut w = BitWriter::new(Vec::new());
    w.write_bits(0xabcd, 16).unwrap();
    w.write_bits(0xff, 8).unwrap();
    let (out, _) = w.finish().unwrap();
    assert_eq!(out, vec![0xab, 0xcd, 0x00, 0xff]);
}

#[test]
fn twenty_four_bits_behind_pending_ones_are_kept() {
    let mut w = BitWriter::new(Vec::new());
    w.write_bits(0x7fff, 15).unwrap();
    assert_eq!(w.pending_bits(), 15);
    w.write_bits(0xabcdef, 24).unwrap();
    assert_eq!(w.bytes_written(), 4);
    assert_eq!(w.pending_bits(), 7);
    w.flush_to_word().unwrap();
    assert_eq!(w.pending_bits(), 0);
    w.flush_to_word().unwrap();
    assert_eq!(w.bytes_written(), 6);
    let (out, _) = w.finish().unwrap();

    let mut r = BitReader::new(&out);
    assert_eq!(r.read_bits(15).unwrap(), 0x7fff);
    assert_eq!(r.read_bits(12).unwrap(), 0xdef);
    assert_eq!(r.read_bits_u8(8).unwrap(), 0xbc);
    assert_eq!(r.read_bits_u8(4).unwrap(), 0xa);
}

#[test]
fn words_follow_what_the_vector_held() {
    let mut w = BitWriter::new(vec![1, 2, 3]);
    w.write_bits(0x1234, 16).unwrap();
    assert_eq!(w.bytes_written(), 2);
    w.inner_mut()[0] = 9;
    let (out, n) = w.finish().unwrap();
    assert_eq!(n, 2);
    assert_eq!(out, vec![9, 2, 3, 0x12, 0x34]);
}

#[test]
fn peeking_does_not_consume() {
    let mut r = BitReader::new(&[0x00, 0x2b][..]);
    assert_eq!(r.peek_bits(4).unwrap(), 0b1011);
    assert_eq!(r.peek_bits(8).unwrap(), 0x2b);
    assert_eq!(r.peek_bits(0).unwrap(), 0);
    r.consume_bits(4).unwrap();
    assert_eq!(r.read_bits(12).unwrap(), 0b0010);
    assert!(matches!(r.peek_bits(1), Err(Error::Truncated)));
    assert_eq!(r.peek_bits_padded(0).unwrap(), 0);
}
