use amiga_lzx::constants::{level_max, level_normal, level_quick};
use amiga_lzx::lz77::{encode, Token};

fn token_count_matches_input(tokens: &[Token]) -> usize {
    tokens
        .iter()
        .map(|t| match t {
            Token::Literal(_) => 1,
            Token::Match { length, .. } => *length as usize,
        })
        .sum()
}

fn reconstruct(tokens: &[Token]) -> Vec<u8> {
    let mut out = Vec::new();
    for tok in tokens {
        match *tok {
            Token::Literal(b) => out.push(b),
            Token::Match { length, distance } => {
                let start = out.len() - distance as usize;
                for i in 0..length as usize {
                    let b = out[start + i];
                    out.push(b);
                }
            }
        }
    }
    out
}

#[test]
fn empty_input_produces_no_tokens() {
    let tokens = encode(b"", &level_normal());
    assert!(tokens.is_empty());
}

#[test]
fn single_byte_emits_one_literal() {
    let tokens = encode(b"x", &level_normal());
    assert_eq!(tokens, vec![Token::Literal(b'x')]);
}

#[test]
fn no_repeats_all_literals() {
    let data: Vec<u8> = (0..200u8).collect();
    let tokens = encode(&data, &level_normal());
    assert_eq!(tokens.len(), data.len());
    assert!(tokens.iter().all(|t| matches!(t, Token::Literal(_))));
    assert_eq!(reconstruct(&tokens), data);
}

#[test]
fn long_zeros_collapse_to_matches() {
    let data = vec![0u8; 4096];
    let tokens = encode(&data, &level_normal());
    assert!(tokens.len() < 200);
    assert_eq!(token_count_matches_input(&tokens), data.len());
    assert_eq!(reconstruct(&tokens), data);
}

#[test]
fn periodic_pattern_compresses() {
    let mut data = Vec::new();
    for _ in 0..200 {
        data.extend_from_slice(b"ABCDEFG");
    }
    let tokens = encode(&data, &level_normal());
    assert!(tokens.len() < data.len() / 2);
    assert_eq!(reconstruct(&tokens), data);
}

#[test]
fn round_trip_lorem_ipsum() {
    let data = b"Lorem ipsum dolor sit amet, consectetur adipiscing elit. \
                 Lorem ipsum dolor sit amet, consectetur adipiscing elit. \
                 Sed do eiusmod tempor incididunt ut labore et dolore magna \
                 aliqua. Ut enim ad minim veniam, quis nostrud exercitation \
                 ullamco laboris nisi ut aliquip ex ea commodo consequat.";
    for level in [level_quick(), level_normal(), level_max()] {
        let tokens = encode(data, &level);
        assert_eq!(reconstruct(&tokens), data);
        assert_eq!(token_count_matches_input(&tokens), data.len());
    }
}

#[test]
fn round_trip_random_bytes() {
    let mut s: u64 = 0x1234_5678_9abc_def0;
    let mut next = || {
        s ^= s << 13;
        s ^= s >> 7;
        s ^= s << 17;
        s
    };
    let mut data = vec![0u8; 32 * 1024];
    for b in data.iter_mut() {
        *b = (next() & 0xff) as u8;
    }
    let tokens = encode(&data, &level_normal());
    assert_eq!(reconstruct(&tokens), data);
}

#[test]
fn a_longer_match_one_byte_on_wins() {
    // At the second "abc" a match of three stands, one byte on one of four.
    let data = b"abc bcde abcde";
    let lazy = encode(data, &level_normal());
    let tail: Vec<Token> = lazy[lazy.len() - 2..].to_vec();
    assert_eq!(
        tail,
        vec![
            Token::Literal(b'a'),
            Token::Match { length: 4, distance: 6 }
        ]
    );
    assert_eq!(reconstruct(&lazy), data);
}

#[test]
fn a_run_is_one_literal_and_matches_of_distance_one() {
    let tokens = encode(&[7u8; 300], &level_quick());
    assert_eq!(
        tokens,
        vec![
            Token::Literal(7),
            Token::Match { length: 258, distance: 1 },
            Token::Match { length: 41, distance: 1 },
        ]
    );
}

#[test]
fn no_match_reaches_before_the_first_byte() {
    let data: Vec<u8> = (0..5000u32).map(|i| (i * i / 7 % 11) as u8).collect();
    let mut before = 0;
    for token in encode(&data, &level_max()) {
        match token {
            Token::Literal(_) => before += 1,
            Token::Match { length, distance } => {
                assert!(1 <= distance && distance as usize <= before);
                before += length as usize;
            }
        }
    }
    assert_eq!(before, data.len());
}
