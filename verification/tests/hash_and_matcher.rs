use amiga_lzx::constants::MAX_MATCH;
use amiga_lzx::hash::{hash3, HashChains, NONE};
use amiga_lzx::matcher::{find_longest_match, Match, MAX_DISTANCE};

fn build_chains(window: &[u8], up_to: usize) -> HashChains {
    let mut c = HashChains::new();
    let limit = up_to.min(window.len().saturating_sub(2));
    for i in 0..limit {
        let h = hash3(window[i], window[i + 1], window[i + 2]);
        c.insert(h, i as u32);
    }
    c
}

#[test]
fn hash_is_deterministic() {
    assert_eq!(hash3(b'a', b'b', b'c'), hash3(b'a', b'b', b'c'));
    assert_ne!(hash3(b'a', b'b', b'c'), hash3(b'a', b'b', b'd'));
}

#[test]
fn hash_has_known_values() {
    assert_eq!(hash3(0, 0, 0), 0);
    assert_eq!(hash3(0, 0, 1), 1);
    assert_eq!(hash3(0, 1, 0), 32);
    assert_eq!(hash3(1, 0, 0), 1024);
    assert_eq!(hash3(255, 255, 255), 0x631f);
}

#[test]
fn chain_round_trips_recent_inserts() {
    let mut chains = HashChains::new();
    let h = hash3(1, 2, 3);
    chains.insert(h, 100);
    chains.insert(h, 200);
    chains.insert(h, 300);

    assert_eq!(chains.head(h), 300);
    assert_eq!(chains.prev(300), 200);
    assert_eq!(chains.prev(200), 100);
    assert_eq!(chains.prev(100), NONE);
}

#[test]
fn positions_a_window_apart_share_a_link() {
    let mut chains = HashChains::default();
    chains.insert(5, 1);
    chains.insert(6, 1 + 0x10000);
    assert_eq!(chains.head(5), 1);
    assert_eq!(chains.head(6), 0x10001);
    assert_eq!(chains.prev(1), NONE);
    chains.insert(6, 1 + 0x20000);
    assert_eq!(chains.prev(1), 0x10001);
}

#[test]
fn finds_simple_repeat() {
    let data = b"the quick brown fox the quick brown";
    let chains = build_chains(data, 20);
    let h = hash3(data[20], data[21], data[22]);
    let m = find_longest_match(data, 20, &chains, h, 64);
    assert!(m.is_useful());
    assert_eq!(m.distance, 20);
    assert_eq!(m.length, 15);
}

#[test]
fn finds_max_length_run_of_zeros() {
    let mut data = vec![0u8; 1024];
    for byte in data.iter_mut() {
        *byte = 0;
    }
    let chains = build_chains(&data, 512);
    let h = hash3(0, 0, 0);
    let m = find_longest_match(&data, 512, &chains, h, 256);
    assert_eq!(m.length, MAX_MATCH);
    assert!(m.distance >= 1 && m.distance <= MAX_DISTANCE);
}

#[test]
fn no_match_returns_none() {
    let data = b"abcdefghijklmnop";
    let chains = build_chains(data, 8);
    let pos = 8;
    let h = hash3(data[pos], data[pos + 1], data[pos + 2]);
    let m = find_longest_match(data, pos, &chains, h, 64);
    assert!(!m.is_useful());
}

#[test]
fn distance_limit_is_respected() {
    let mut data = vec![0xaau8; MAX_DISTANCE + 100];
    for (i, b) in data.iter_mut().enumerate() {
        *b = (i % 251) as u8;
    }
    data[0] = 0x10;
    data[1] = 0x20;
    data[2] = 0x30;
    let pos = MAX_DISTANCE;
    data[pos] = 0x10;
    data[pos + 1] = 0x20;
    data[pos + 2] = 0x30;

    let chains = build_chains(&data, pos);
    let h = hash3(data[pos], data[pos + 1], data[pos + 2]);
    let m = find_longest_match(&data, pos, &chains, h, 256);
    assert!(m.is_useful());
    assert_eq!(m.distance, MAX_DISTANCE);
}

#[test]
fn one_byte_too_far_is_no_match() {
    let mut data = vec![0u8; MAX_DISTANCE + 10];
    for (i, b) in data.iter_mut().enumerate() {
        *b = (i % 251) as u8;
    }
    let pos = MAX_DISTANCE + 1;
    for i in 0..3 {
        data[i] = 0xfd + i as u8;
        data[pos + i] = 0xfd + i as u8;
    }
    let chains = build_chains(&data, pos);
    let h = hash3(0xfd, 0xfe, 0xff);
    assert_eq!(find_longest_match(&data, pos, &chains, h, 256), Match::none());
}

#[test]
fn no_walks_find_nothing() {
    let data = b"abcabcabc";
    let chains = build_chains(data, 3);
    let h = hash3(b'a', b'b', b'c');
    assert_eq!(find_longest_match(data, 3, &chains, h, 0), Match::none());
    assert_eq!(find_longest_match(data, 7, &chains, h, 9), Match::none());
    assert_eq!(
        find_longest_match(data, 3, &chains, h, 1),
        Match { length: 6, distance: 3 }
    );
}

#[test]
fn the_longest_match_wins_and_then_the_nearest() {
    let data = b"abcdX abcY abcZ abcd! abc?";
    let chains = build_chains(data, 24);
    let h = hash3(b'a', b'b', b'c');
    assert_eq!(
        find_longest_match(data, 22, &chains, h, 100),
        Match { length: 3, distance: 6 }
    );
    let chains = build_chains(data, 17);
    assert_eq!(
        find_longest_match(data, 16, &chains, h, 100),
        Match { length: 4, distance: 16 }
    );
    assert_eq!(
        find_longest_match(data, 16, &chains, h, 3),
        Match { length: 3, distance: 5 }
    );
}

#[test]
fn an_insert_leaves_other_chains_alone() {
    let mut chains = HashChains::new();
    chains.insert(1, 10);
    chains.insert(2, 20);
    chains.insert(1, 30);
    assert_eq!(chains.head(2), 20);
    assert_eq!(chains.prev(20), NONE);
    assert_eq!(chains.prev(30), 10);
    assert_eq!(chains.prev(10), NONE);
}
