use amiga_lzx::bitio::BitWriter;
use amiga_lzx::block::BlockWriter;
use amiga_lzx::constants::{level_max, level_normal, level_quick};
use amiga_lzx::decoder::{decode, Decoder};
use amiga_lzx::huffman::pretree::{encode_section, Section};
use amiga_lzx::lz77::encode as lz77_encode;
use amiga_lzx::lz77::Token;
use amiga_lzx::Error;

fn round_trip(input: &[u8]) {
    for level in [level_quick(), level_normal(), level_max()] {
        let tokens = lz77_encode(input, &level);
        let mut bw = BlockWriter::new(Vec::new());
        bw.write_block(&tokens).unwrap();
        let (bytes, _) = bw.finish().unwrap();

        let decoded = decode(&bytes, input.len()).unwrap();
        assert_eq!(decoded, input, "level {:?}", level);
    }
}

#[test]
fn empty_round_trip_is_empty() {
    let result = decode(&[], 0).unwrap();
    assert!(result.is_empty());
}

#[test]
fn single_literal() {
    round_trip(b"x");
}

#[test]
fn short_text() {
    round_trip(b"hello, world");
}

#[test]
fn lorem_ipsum() {
    let data = b"Lorem ipsum dolor sit amet, consectetur adipiscing elit. \
                 Lorem ipsum dolor sit amet, consectetur adipiscing elit. \
                 Sed do eiusmod tempor incididunt ut labore et dolore magna \
                 aliqua. Ut enim ad minim veniam, quis nostrud exercitation \
                 ullamco laboris nisi ut aliquip ex ea commodo consequat.";
    round_trip(data);
}

#[test]
fn long_zeros() {
    let data = vec![0u8; 8192];
    round_trip(&data);
}

#[test]
fn periodic_pattern() {
    let mut data = Vec::new();
    for _ in 0..500 {
        data.extend_from_slice(b"ABCDEFG ");
    }
    round_trip(&data);
}

#[test]
fn random_bytes() {
    let mut s: u64 = 0xfeed_face_dead_beef;
    let mut next = || {
        s ^= s << 13;
        s ^= s >> 7;
        s ^= s << 17;
        s
    };
    let mut data = vec![0u8; 16 * 1024];
    for b in data.iter_mut() {
        *b = (next() & 0xff) as u8;
    }
    round_trip(&data);
}

#[test]
fn all_byte_values_present() {
    let data: Vec<u8> = (0..=255u8).cycle().take(2000).collect();
    round_trip(&data);
}

#[test]
fn match_that_exceeds_expected_size_is_rejected() {
    let input = vec![0u8; 100];
    let tokens = lz77_encode(&input, &level_normal());
    let mut bw = BlockWriter::new(Vec::new());
    bw.write_block(&tokens).unwrap();
    let (bytes, _) = bw.finish().unwrap();

    let err = decode(&bytes, 10).unwrap_err();
    assert!(matches!(
        err,
        Error::InvalidArchive("decoded data exceeds expected length")
    ));
}

#[test]
fn blocks_follow_each_other() {
    let a = lz77_encode(b"first block, first block", &level_normal());
    let b = vec![
        Token::Match { length: 5, distance: 11 },
        Token::Match { length: 3, distance: 0 },
        Token::Literal(b'!'),
    ];
    let mut bw = BlockWriter::new(Vec::new());
    bw.write_block(&a).unwrap();
    assert!(bw.bytes_written() > 0);
    bw.write_block(&[]).unwrap();
    bw.write_block(&b).unwrap();
    let (bytes, n) = bw.finish().unwrap();
    assert_eq!(n as usize, bytes.len());

    let mut dec = Decoder::new(&bytes);
    let mut out = b">".to_vec();
    dec.decode_into(&mut out, 24).unwrap();
    assert_eq!(out, b">first block, first block");
    dec.decode_into(&mut out, 9).unwrap();
    assert_eq!(&out[25..], b"first bl!");
}

#[test]
fn a_match_may_reach_before_the_first_byte() {
    let mut bw = BlockWriter::new(Vec::new());
    bw.write_block(&[Token::Literal(5), Token::Match { length: 4, distance: 3 }])
        .unwrap();
    let (bytes, _) = bw.finish().unwrap();
    assert_eq!(decode(&bytes, 5).unwrap(), vec![5, 0, 0, 5, 0]);
}

#[test]
fn a_stream_that_ends_early_is_truncated() {
    assert!(matches!(decode(&[], 1), Err(Error::Truncated)));
    let tokens = lz77_encode(b"some text to cut off", &level_normal());
    let mut bw = BlockWriter::new(Vec::new());
    bw.write_block(&tokens).unwrap();
    let (bytes, _) = bw.finish().unwrap();
    assert!(matches!(
        decode(&bytes[..bytes.len() - 2], 20),
        Err(Error::Truncated)
    ));
}

#[test]
fn unknown_block_types_are_refused() {
    for number in [0u32, 4, 7] {
        let mut w = BitWriter::new(Vec::new());
        w.write_bits(number, 3).unwrap();
        let (bytes, _) = w.finish().unwrap();
        assert!(matches!(
            decode(&bytes, 1),
            Err(Error::InvalidArchive("unknown block type"))
        ));
    }
}

#[test]
fn a_block_without_any_tree_is_refused() {
    let mut w = BitWriter::new(Vec::new());
    w.write_bits(1, 3).unwrap();
    for byte in [0, 0, 9] {
        w.write_bits(byte, 8).unwrap();
    }
    w.write_bits(0xffff, 16).unwrap();
    let (bytes, _) = w.finish().unwrap();
    assert!(matches!(decode(&bytes, 9), Err(Error::BadHuffmanTree)));
}

#[test]
fn a_match_past_the_end_of_its_block_is_refused() {
    // A block of one byte, whose first token stands for a match of four.
    let good = [Token::Match { length: 4, distance: 1 }];
    let mut bw = BlockWriter::new(Vec::new());
    bw.write_block(&good).unwrap();
    let (mut bytes, _) = bw.finish().unwrap();
    assert_eq!(decode(&bytes, 4).unwrap(), vec![0; 4]);
    // The size stands in the bits from 3 to 26, its low byte in 19 to 26.
    let word = u16::from_be_bytes([bytes[2], bytes[3]]);
    let smaller = (word & !(0xff << 3)) | (1 << 3);
    bytes[2..4].copy_from_slice(&smaller.to_be_bytes());
    assert!(matches!(
        decode(&bytes, 4),
        Err(Error::InvalidArchive("match runs past block end"))
    ));
}

/// A stream with a block of the letters `a` and `b`, each of one bit, and the
/// code lengths of its literals.
fn letters() -> (BitWriter, Vec<u8>) {
    let mut lengths = vec![0u8; 256];
    lengths[b'a' as usize] = 1;
    lengths[b'b' as usize] = 1;
    let mut w = BitWriter::new(Vec::new());
    header(&mut w);
    encode_section(&mut w, Section::Literal, &[0; 256], &lengths).unwrap();
    encode_section(&mut w, Section::Match, &[0; 512], &[0; 512]).unwrap();
    w.write_bits(0b10, 2).unwrap();
    (w, lengths)
}

/// The header of a block of two bytes.
fn header(w: &mut BitWriter) {
    w.write_bits(2, 3).unwrap();
    for byte in [0, 0, 2] {
        w.write_bits(byte, 8).unwrap();
    }
}

/// A section whose pretree has no codes.
fn bad_section(w: &mut BitWriter) {
    for _ in 0..20 {
        w.write_bits(0, 4).unwrap();
    }
}

#[test]
fn a_bad_tree_leaves_the_size_and_the_table() {
    let (mut w, _) = letters();
    header(&mut w);
    bad_section(&mut w);
    w.write_bits(0b11, 2).unwrap();
    w.write_bits(0, 16).unwrap();
    let (bytes, _) = w.finish().unwrap();

    let mut dec = Decoder::new(&bytes);
    let mut out = Vec::new();
    dec.decode_into(&mut out, 2).unwrap();
    assert!(matches!(
        dec.decode_into(&mut out, 2),
        Err(Error::BadHuffmanTree)
    ));
    dec.decode_into(&mut out, 2).unwrap();
    assert_eq!(out, b"abbb");
}

#[test]
fn a_bad_tree_leaves_the_lengths_before_it() {
    let (mut w, lengths) = letters();
    let mut longer = lengths.clone();
    longer[b'a' as usize] = 2;
    longer[b'b' as usize] = 3;
    header(&mut w);
    encode_section(&mut w, Section::Literal, &lengths, &longer).unwrap();
    bad_section(&mut w);
    w.write_bits(0b001_00, 5).unwrap();
    w.write_bits(7, 3).unwrap();
    w.write_bits(0, 16).unwrap();
    let (bytes, _) = w.finish().unwrap();

    let mut dec = Decoder::new(&bytes);
    let mut out = Vec::new();
    dec.decode_into(&mut out, 2).unwrap();
    assert!(dec.decode_into(&mut out, 2).is_err());
    dec.decode_into(&mut out, 2).unwrap();
    assert_eq!(out, b"abab");
    assert!(matches!(
        dec.decode_into(&mut out, 1),
        Err(Error::InvalidArchive("unknown block type"))
    ));
}
