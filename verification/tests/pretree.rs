use amiga_lzx::bitio::{BitReader, BitWriter};
use amiga_lzx::huffman::pretree::{
    analyse_section, apply_delta, decode_section, delta_symbol, encode_section, PretreeOp, Section,
};
use amiga_lzx::Error;

fn round_trip_section(section: Section, prev: &[u8], curr: &[u8]) {
    let mut w = BitWriter::new(Vec::new());
    encode_section(&mut w, section, prev, curr).unwrap();
    let (bytes, _) = w.finish().unwrap();

    let mut decoded = prev.to_vec();
    let mut r = BitReader::new(&bytes);
    decode_section(&mut r, section, &mut decoded).unwrap();
    assert_eq!(decoded, curr);
}

#[test]
fn literal_section_no_runs() {
    let prev = vec![0u8; 256];
    let mut curr = vec![0u8; 256];
    for i in 0..256 {
        curr[i] = ((i % 13) + 1) as u8;
    }
    round_trip_section(Section::Literal, &prev, &curr);
}

#[test]
fn literal_section_with_zero_runs() {
    let prev = vec![5u8; 256];
    let mut curr = vec![0u8; 256];
    for i in 100..120 {
        curr[i] = 4;
    }
    round_trip_section(Section::Literal, &prev, &curr);
}

#[test]
fn match_section_with_long_zero_runs() {
    let prev = vec![3u8; 512];
    let mut curr = vec![0u8; 512];
    for i in 0..10 {
        curr[i] = 7;
    }
    for i in 500..512 {
        curr[i] = 8;
    }
    round_trip_section(Section::Match, &prev, &curr);
}

#[test]
fn match_section_same_delta_run() {
    let prev = vec![10u8; 512];
    let mut curr = vec![7u8; 512];
    curr[100] = 3;
    curr[200] = 0;
    round_trip_section(Section::Match, &prev, &curr);
}

#[test]
fn delta_then_apply_is_identity() {
    for prev in 0..=16u8 {
        for curr in 0..=16u8 {
            let s = delta_symbol(prev, curr);
            assert_eq!(apply_delta(prev, s), curr, "prev={prev} curr={curr}");
        }
    }
}

#[test]
fn deltas_wrap_at_seventeen() {
    assert_eq!(delta_symbol(5, 3), 2);
    assert_eq!(delta_symbol(3, 5), 15);
    assert_eq!(delta_symbol(0, 16), 1);
    assert_eq!(apply_delta(0, 1), 16);
}

#[test]
fn sections_have_their_run_ranges() {
    let l = Section::Literal;
    let m = Section::Match;
    assert_eq!([l.run_threshold(), m.run_threshold()], [4, 3]);
    assert_eq!([l.sym17_base(), l.sym17_max()], [4, 19]);
    assert_eq!([m.sym17_base(), m.sym17_max()], [3, 18]);
    assert_eq!([l.sym18_base(), l.sym18_max()], [20, 51]);
    assert_eq!([m.sym18_base(), m.sym18_max()], [19, 82]);
    assert_eq!([l.sym19_base(), l.sym19_max()], [4, 5]);
    assert_eq!([m.sym19_base(), m.sym19_max()], [3, 4]);
    assert_eq!([l.sym17_extra_bits(), m.sym17_extra_bits()], [4, 4]);
    assert_eq!([l.sym18_extra_bits(), m.sym18_extra_bits()], [5, 6]);
    assert_eq!([l.sym19_extra_bits(), m.sym19_extra_bits()], [1, 1]);
}

#[test]
fn a_section_is_described_in_runs() {
    let prev = vec![2u8; 40];
    let mut curr = vec![0u8; 40];
    curr[0] = 5;
    for i in 1..7 {
        curr[i] = 3;
    }
    let (freqs, ops) = analyse_section(Section::Literal, &prev, &curr);
    assert_eq!(ops.len(), 4);
    assert!(matches!(ops[0], PretreeOp::Single { delta: 14 }));
    assert!(matches!(ops[1], PretreeOp::SameRun { run: 5, delta: 16 }));
    assert!(matches!(ops[2], PretreeOp::Single { delta: 16 }));
    assert!(matches!(ops[3], PretreeOp::ZeroRunLong { run: 33 }));
    assert_eq!(freqs[14], 1);
    assert_eq!(freqs[16], 2);
    assert_eq!(freqs[18], 1);
    assert_eq!(freqs[19], 1);
    assert_eq!(freqs.iter().sum::<u32>(), 5);
}

#[test]
fn a_section_without_codes_is_refused() {
    let mut lengths = vec![0u8; 256];
    let bytes = [0u8; 20];
    let mut r = BitReader::new(&bytes);
    assert!(matches!(
        decode_section(&mut r, Section::Literal, &mut lengths),
        Err(Error::BadHuffmanTree)
    ));
    let mut r = BitReader::new(&bytes[..4]);
    assert!(matches!(
        decode_section(&mut r, Section::Literal, &mut lengths),
        Err(Error::Truncated)
    ));
}

#[test]
fn a_section_takes_whole_words() {
    let prev = vec![0u8; 256];
    let mut curr = vec![0u8; 256];
    curr[0] = 1;
    curr[1] = 1;
    let mut w = BitWriter::new(Vec::new());
    encode_section(&mut w, Section::Literal, &prev, &curr).unwrap();
    let bits = 8 * w.bytes_written() + w.pending_bits() as u64;
    let (mut bytes, n) = w.finish().unwrap();
    bytes.extend([0; 8]);
    let mut r = BitReader::new(&bytes);
    let mut out = prev.clone();
    decode_section(&mut r, Section::Literal, &mut out).unwrap();
    assert_eq!(out, curr);
    assert_eq!(r.bytes_read(), n);
    assert!(bits <= 8 * n);
}

#[test]
fn a_section_before_an_odd_last_byte_comes_back() {
    let prev = vec![0u8; 256];
    let curr: Vec<u8> = (0..=255u8).map(|i| i % 9).collect();
    let mut w = BitWriter::new(Vec::new());
    encode_section(&mut w, Section::Literal, &prev, &curr).unwrap();
    w.write_bits(0xbeef, 16).unwrap();
    let (mut bytes, _) = w.finish().unwrap();
    bytes.push(0x55);
    let mut r = BitReader::new(&bytes);
    let mut out = prev;
    decode_section(&mut r, Section::Literal, &mut out).unwrap();
    assert_eq!(out, curr);
    assert_eq!(r.read_bits(16).unwrap(), 0xbeef);
}
