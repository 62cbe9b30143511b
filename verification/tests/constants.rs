use amiga_lzx::constants::{
    build_slot_lookup, length_slot, level_max, level_normal, level_quick, position_slot,
    TABLE_FOUR, TABLE_ONE, TABLE_THREE, TABLE_TWO,
};

#[test]
fn table_three_is_power_mask() {
    for n in 0..16 {
        assert_eq!(TABLE_THREE[n], (1u32 << n) - 1, "n={n}");
    }
}

#[test]
fn table_one_matches_expected() {
    for s in 0..32 {
        let expected = if s < 4 { 0 } else { (s / 2 - 1) as u8 };
        assert_eq!(TABLE_ONE[s], expected, "slot {s}");
    }
}

#[test]
fn table_two_covers_ranges_contiguously() {
    for s in 0..31 {
        let end = TABLE_TWO[s] + (1u32 << TABLE_ONE[s]);
        assert_eq!(end, TABLE_TWO[s + 1], "slot {s}");
    }
    assert_eq!(TABLE_TWO[31] + (1u32 << TABLE_ONE[31]), 65536);
}

#[test]
fn table_four_is_doubled() {
    for i in 0..17 {
        assert_eq!(TABLE_FOUR[i], i as u8);
        assert_eq!(TABLE_FOUR[i + 17], i as u8);
    }
}

#[test]
fn slot_lookup_matches_table_two() {
    let t = build_slot_lookup();
    for pos in 1u32..512 {
        let slot = position_slot(&t, pos) as usize;
        let base = TABLE_TWO[slot];
        let end = base + (1u32 << TABLE_ONE[slot]);
        assert!(
            (base..end).contains(&pos),
            "pos {pos} -> slot {slot} (range {base}..{end})"
        );
    }
    for pos in (512u32..65536).step_by(37) {
        let slot = position_slot(&t, pos) as usize;
        let base = TABLE_TWO[slot];
        let end = base + (1u32 << TABLE_ONE[slot]);
        assert!(
            (base..end).contains(&pos),
            "pos {pos} -> slot {slot} (range {base}..{end})"
        );
    }
}

#[test]
fn length_slot_bounds() {
    let t = build_slot_lookup();
    assert_eq!(length_slot(&t, 3), 0);
    assert_eq!(length_slot(&t, 4), 1);
    assert_eq!(length_slot(&t, 5), 2);
    assert_eq!(length_slot(&t, 6), 3);
    assert_eq!(length_slot(&t, 7), 4);
    assert_eq!(length_slot(&t, 8), 4);
    assert_eq!(length_slot(&t, 258), 15);
}

#[test]
fn position_slots_at_the_edges() {
    let t = build_slot_lookup();
    assert_eq!(position_slot(&t, 0), 0);
    assert_eq!(position_slot(&t, 511), 17);
    assert_eq!(position_slot(&t, 512), 18);
    assert_eq!(position_slot(&t, 49151), 30);
    assert_eq!(position_slot(&t, 49152), 31);
    assert_eq!(position_slot(&t, 65535), 31);
}

#[test]
fn levels_have_their_parameters() {
    let levels = [level_quick(), level_normal(), level_max()];
    let values: Vec<(u16, bool)> = levels
        .iter()
        .map(|l| (l.lazy_threshold, l.multi_step))
        .collect();
    assert_eq!(values, vec![(1, false), (7, false), (40, true)]);
}
