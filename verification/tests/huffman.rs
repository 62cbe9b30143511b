use amiga_lzx::bitio::{BitReader, BitWriter};
use amiga_lzx::huffman::build::{build_lengths, canonical_codes, reverse_bits};
use amiga_lzx::huffman::decode::{decode_symbol, make_decode_table};
use amiga_lzx::Error;

fn kraft_sum_valid(lengths: &[u8], max_len: u8) -> bool {
    let mut sum: u64 = 0;
    let scale = 1u64 << max_len;
    for &l in lengths {
        if l == 0 {
            continue;
        }
        if l > max_len {
            return false;
        }
        sum += scale >> l;
    }
    sum <= scale
}

#[test]
fn empty_freqs() {
    let l = build_lengths(&[0u32; 8], 16);
    assert!(l.iter().all(|&x| x == 0));
}

#[test]
fn single_symbol_gets_phantom_partner() {
    let mut freqs = [0u32; 8];
    freqs[3] = 99;
    let l = build_lengths(&freqs, 16);
    assert_eq!(l[3], 1);
    let extras: Vec<usize> = (0..8).filter(|&i| i != 3 && l[i] == 1).collect();
    assert_eq!(extras.len(), 1);
    let zeros = l.iter().filter(|&&x| x == 0).count();
    assert_eq!(zeros, 6);
}

#[test]
fn two_symbols_get_length_1() {
    let mut freqs = [0u32; 5];
    freqs[1] = 10;
    freqs[4] = 20;
    let l = build_lengths(&freqs, 16);
    assert_eq!(l[1], 1);
    assert_eq!(l[4], 1);
}

#[test]
fn classic_example_is_optimal() {
    let freqs = [5u32, 9, 12, 13, 16, 45];
    let l = build_lengths(&freqs, 16);
    let cost: u32 = freqs
        .iter()
        .zip(l.iter())
        .map(|(&f, &li)| f * li as u32)
        .sum();
    assert_eq!(cost, 224);
    assert!(kraft_sum_valid(&l, 16));
}

#[test]
fn skewed_distribution_kraft_valid() {
    let mut freqs = vec![0u32; 768];
    for i in 0..768 {
        freqs[i] = (i as u32 + 1) * 3;
    }
    let l = build_lengths(&freqs, 16);
    assert!(kraft_sum_valid(&l, 16));
    for &li in &l {
        assert!(li >= 1 && li <= 16);
    }
}

#[test]
fn limit_constrains_max_length() {
    let mut freqs = vec![1u32; 200];
    freqs[0] = 1_000_000;
    let l = build_lengths(&freqs, 12);
    for &li in &l {
        assert!(li <= 12, "length {li} exceeds limit");
    }
    assert!(kraft_sum_valid(&l, 12));
}

#[test]
fn canonical_codes_are_prefix_unique() {
    let lengths = vec![3u8, 3, 3, 3, 3, 2, 4, 4];
    let (codes, _rev) = canonical_codes(&lengths);
    let mut seen: Vec<(u32, u8)> = Vec::new();
    for (i, &l) in lengths.iter().enumerate() {
        if l == 0 {
            continue;
        }
        for &(other_code, other_len) in &seen {
            let (short, short_len, long, long_len) = if l <= other_len {
                (codes[i], l, other_code, other_len)
            } else {
                (other_code, other_len, codes[i], l)
            };
            let shifted = long >> (long_len - short_len);
            assert_ne!(shifted, short, "prefix collision");
        }
        seen.push((codes[i], l));
    }
}

#[test]
fn reverse_bits_known_values() {
    assert_eq!(reverse_bits(0b1, 1), 0b1);
    assert_eq!(reverse_bits(0b10, 2), 0b01);
    assert_eq!(reverse_bits(0b1100, 4), 0b0011);
    assert_eq!(reverse_bits(0b1011_0000, 8), 0b0000_1101);
}

fn round_trip(freqs: &[u32], symbols: &[u16], number_symbols: usize, table_size: u32) {
    let lengths = build_lengths(freqs, 16);
    let (_codes, reversed) = canonical_codes(&lengths);

    let mut w = BitWriter::new(Vec::new());
    for &sym in symbols {
        w.write_bits(reversed[sym as usize], lengths[sym as usize] as u32)
            .unwrap();
    }
    let (bytes, _) = w.finish().unwrap();

    let table = make_decode_table(number_symbols, table_size, &lengths).unwrap();
    let mut r = BitReader::new(&bytes);
    let mut decoded = Vec::with_capacity(symbols.len());
    for _ in 0..symbols.len() {
        let sym = decode_symbol(&mut r, &table, &lengths, number_symbols, table_size).unwrap();
        decoded.push(sym);
    }
    assert_eq!(decoded, symbols);
}

#[test]
fn small_alphabet_round_trip() {
    let freqs = [5u32, 9, 12, 13, 16, 45, 0, 0];
    round_trip(&freqs, &[0, 1, 2, 3, 4, 5, 5, 5, 4, 0], 8, 6);
}

#[test]
fn alphabet_with_long_codes() {
    let mut freqs = vec![1u32; 64];
    freqs[0] = 100_000;
    freqs[1] = 50_000;
    let mut symbols = Vec::new();
    for i in 0..64u16 {
        symbols.push(i);
    }
    round_trip(&freqs, &symbols, 64, 7);
}

#[test]
fn full_main_tree_round_trip() {
    let mut freqs = vec![0u32; 768];
    for (i, slot) in freqs.iter_mut().enumerate().take(256) {
        *slot = 5 + (i as u32 % 17);
    }
    for (i, slot) in freqs.iter_mut().enumerate().skip(256) {
        *slot = if i % 7 == 0 { 12 } else { 1 };
    }
    let symbols: Vec<u16> = (0..768u16).chain(0..256u16).collect();
    round_trip(&freqs, &symbols, 768, 12);
}

#[test]
fn code_lengths_of_a_classic_example() {
    assert_eq!(build_lengths(&[5, 9, 12, 13, 16, 45], 16), vec![4, 4, 3, 3, 3, 1]);
    assert_eq!(build_lengths(&[5, 9, 12, 13, 16, 45], 3), vec![3, 3, 3, 3, 2, 2]);
    assert_eq!(build_lengths(&[1, 1, 1, 1], 2), vec![2, 2, 2, 2]);
    assert_eq!(build_lengths(&[0, 7], 16), vec![1, 1]);
    assert_eq!(build_lengths(&[7], 16), vec![1]);
}

#[test]
fn canonical_codes_of_known_lengths() {
    let (codes, reversed) = canonical_codes(&[2, 1, 0, 3, 3]);
    assert_eq!(codes, vec![0b10, 0b0, 0, 0b110, 0b111]);
    assert_eq!(reversed, vec![0b01, 0b0, 0, 0b011, 0b111]);
}

#[test]
fn incomplete_and_overfull_codes_are_refused() {
    assert!(matches!(
        make_decode_table(4, 3, &[1, 2, 0, 0]),
        Err(Error::BadHuffmanTree)
    ));
    assert!(matches!(
        make_decode_table(4, 3, &[1, 1, 1, 0]),
        Err(Error::BadHuffmanTree)
    ));
    assert!(matches!(
        make_decode_table(4, 3, &[0, 0, 0, 0]),
        Err(Error::BadHuffmanTree)
    ));
    assert!(make_decode_table(4, 3, &[1, 2, 3, 3]).is_ok());
    assert!(make_decode_table(4, 3, &[1, 1, 9, 0]).is_ok());
}

#[test]
fn the_last_code_may_be_shorter_than_the_lookahead() {
    let lengths = [1u8, 2, 3, 3];
    let table = make_decode_table(4, 6, &[1, 2, 3, 3]).unwrap();
    // Thirteen ones, then the code of symbol 2.
    let mut w = BitWriter::new(Vec::new());
    let (_, reversed) = canonical_codes(&lengths);
    for s in [3usize, 3, 3, 3, 0, 2] {
        w.write_bits(reversed[s], lengths[s] as u32).unwrap();
    }
    let (bytes, _) = w.finish().unwrap();
    assert_eq!(bytes.len(), 2);
    let mut r = BitReader::new(&bytes);
    let mut out = Vec::new();
    for _ in 0..6 {
        out.push(decode_symbol(&mut r, &table, &lengths, 4, 6).unwrap());
    }
    assert_eq!(out, vec![3, 3, 3, 3, 0, 2]);
    assert!(matches!(
        decode_symbol(&mut r, &table, &lengths, 4, 6),
        Err(Error::Truncated)
    ));
}

/// The least cost of a prefix code whose codes have at most `max_len` bits.
fn least_cost(freqs: &[u32], max_len: u8) -> u32 {
    fn search(freqs: &[u32], max_len: u8, room: u32) -> Option<u32> {
        match freqs.split_first() {
            None => Some(0),
            Some((&f, rest)) => (1..=max_len)
                .filter(|&l| room >= 1 << (max_len - l))
                .filter_map(|l| {
                    let below = search(rest, max_len, room - (1 << (max_len - l)))?;
                    Some(f * l as u32 + below)
                })
                .min(),
        }
    }
    search(freqs, max_len, 1 << max_len).unwrap()
}

#[test]
fn no_code_is_cheaper() {
    let cases: [&[u32]; 5] = [
        &[1, 1, 2, 3, 5, 8, 13],
        &[100, 1, 1, 1, 1, 1],
        &[7, 7, 7, 7, 7],
        &[1, 2, 4, 8, 16, 32],
        &[9, 3, 1000, 2],
    ];
    for freqs in cases {
        for max_len in 3..=5 {
            let lengths = build_lengths(freqs, max_len);
            let cost: u32 = freqs.iter().zip(&lengths).map(|(&f, &l)| f * l as u32).sum();
            assert_eq!(cost, least_cost(freqs, max_len), "{freqs:?} {max_len}");
        }
    }
}

#[test]
fn decode_tables_cell_by_cell() {
    let mut expected = vec![0u16, 1, 0, 2, 0, 1, 0, 3];
    expected.extend([0; 16]);
    assert_eq!(make_decode_table(4, 3, &[1, 2, 3, 3]).unwrap(), expected);

    // The codes of symbols 4 to 6 are longer than the index. Their nodes are
    // numbered from 8 on.
    let mut expected = vec![0u16, 1, 0, 2, 0, 1, 0, 3, 0, 1, 0, 2, 0, 1, 0, 8];
    expected.extend([4, 9, 5, 6]);
    expected.extend([0; 24]);
    let table = make_decode_table(7, 4, &[1, 2, 3, 4, 5, 6, 6]).unwrap();
    assert_eq!(table, expected);
}

#[test]
fn decoding_takes_whole_words() {
    let lengths = [1u8, 1];
    let table = make_decode_table(2, 6, &lengths).unwrap();
    let bytes = [0u8; 6];
    let mut r = BitReader::new(&bytes);
    for i in 0..12 {
        assert_eq!(r.bytes_read(), if i == 0 { 0 } else { 2 });
        assert_eq!(decode_symbol(&mut r, &table, &lengths, 2, 6).unwrap(), 0);
    }
    assert_eq!(r.bytes_read(), 4);
}

#[test]
fn the_lengths_to_consume_are_looked_up() {
    let table = make_decode_table(2, 6, &[1, 1]).unwrap();
    let bytes = [0x00, 0b0100];
    let mut r = BitReader::new(&bytes);
    assert_eq!(decode_symbol(&mut r, &table, &[2, 3], 2, 6).unwrap(), 0);
    assert_eq!(decode_symbol(&mut r, &table, &[2, 3], 2, 6).unwrap(), 1);
    assert_eq!(r.read_bits(11).unwrap(), 0);
    assert!(matches!(r.read_bits(1), Err(Error::Truncated)));
}
