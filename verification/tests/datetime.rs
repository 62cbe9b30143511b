use std::time::{Duration, UNIX_EPOCH};

use amiga_lzx::archive::calendar::{civil_to_days, days_to_civil};
use amiga_lzx::archive::plain_datetime;
use amiga_lzx::{DateTime, Error};

#[test]
fn pack_unpack_round_trip() {
    let cases = [
        DateTime::zero(),
        DateTime::try_new(2026, 4, 13, 3, 47, 22).unwrap(),
        DateTime::try_new(1999, 12, 31, 23, 59, 59).unwrap(),
        DateTime::try_new(2033, 12, 31, 23, 59, 59).unwrap(),
        DateTime::try_new(2041, 12, 31, 23, 59, 59).unwrap(),
        DateTime::try_new(1978, 1, 1, 0, 0, 0).unwrap(),
        DateTime::try_new(2003, 7, 4, 12, 34, 56).unwrap(),
        DateTime::try_new(2020, 4, 19, 11, 33, 0).unwrap(),
        DateTime::try_new(2040, 6, 15, 18, 0, 0).unwrap(),
    ];
    for c in cases {
        let bytes = c.pack();
        let back = DateTime::unpack(bytes);
        assert_eq!(back, c, "round-trip failed for {c:?} -> {bytes:02x?}");
    }
}

#[test]
fn rejects_out_of_range() {
    assert!(DateTime::try_new(1977, 1, 1, 0, 0, 0).is_err());
    assert!(DateTime::try_new(2042, 1, 1, 0, 0, 0).is_err());
    assert!(DateTime::try_new(2026, 13, 1, 0, 0, 0).is_err());
    assert!(DateTime::try_new(2026, 1, 0, 0, 0, 0).is_err());
    assert!(DateTime::try_new(2026, 1, 1, 24, 0, 0).is_err());
}

#[test]
fn y2k_fix_sample_decodes_to_2026() {
    let bytes = [0x99, 0xe4, 0xb8, 0x40];
    let dt = DateTime::unpack(bytes);
    assert_eq!(dt.year, 2026);
    assert_eq!(dt.month, 4);
    assert_eq!(dt.day, 19);
}

#[test]
fn known_instant_round_trip() {
    let st = UNIX_EPOCH + Duration::from_secs(1_718_447_445);
    let (dt, clamped) = DateTime::from_system_time_clamped(st);
    assert!(!clamped);
    assert_eq!(dt.year, 2024);
    assert_eq!(dt.month, 6);
    assert_eq!(dt.day, 15);
    assert_eq!(dt.hour, 10);
    assert_eq!(dt.minute, 30);
    assert_eq!(dt.second, 45);
    let st2 = dt.to_system_time();
    assert_eq!(st2, st);
}

#[test]
fn pre_1978_clamps_to_zero() {
    let (dt, clamped) = DateTime::from_system_time_clamped(UNIX_EPOCH);
    assert!(clamped);
    assert_eq!(dt, DateTime::zero());

    let pre = UNIX_EPOCH - Duration::from_secs(60);
    let (dt, clamped) = DateTime::from_system_time_clamped(pre);
    assert!(clamped);
    assert_eq!(dt, DateTime::zero());
}

#[test]
fn post_2041_clamps_to_max() {
    let secs_2050 = 2_524_608_000u64;
    let st = UNIX_EPOCH + Duration::from_secs(secs_2050);
    let (dt, clamped) = DateTime::from_system_time_clamped(st);
    assert!(clamped);
    assert_eq!(dt.year, 2041);
    assert_eq!(dt.month, 12);
    assert_eq!(dt.day, 31);
    assert_eq!(dt.hour, 23);
    assert_eq!(dt.minute, 59);
    assert_eq!(dt.second, 59);
}

#[test]
fn leap_year_day() {
    let dt = DateTime::try_new(2024, 2, 29, 12, 0, 0).unwrap();
    let st = dt.to_system_time();
    let (back, _) = DateTime::from_system_time_clamped(st);
    assert_eq!(back, dt);
}

#[test]
fn last_valid_lzx_instant_round_trips() {
    let dt = DateTime::try_new(2041, 12, 31, 23, 59, 59).unwrap();
    let st = dt.to_system_time();
    let (back, clamped) = DateTime::from_system_time_clamped(st);
    assert!(!clamped);
    assert_eq!(back, dt);
}

#[test]
fn issue_5_sample_decodes_to_2026_04_19() {
    let bytes = [0x99, 0xe4, 0xb8, 0x40];
    let dt = DateTime::unpack(bytes);
    assert_eq!(dt.year, 2026);
    assert_eq!(dt.month, 4);
    assert_eq!(dt.day, 19);
    assert_eq!(dt.hour, 11);
    assert_eq!(dt.minute, 33);
    assert_eq!(dt.second, 0);
}

#[test]
fn datetime_pack_unpack_round_trip() {
    let cases = [
        plain_datetime::DateTime::zero(),
        plain_datetime::DateTime::try_new(2026, 4, 13, 3, 47, 22).unwrap(),
        plain_datetime::DateTime::try_new(1999, 12, 31, 23, 59, 59).unwrap(),
        plain_datetime::DateTime::try_new(2033, 12, 31, 23, 59, 59).unwrap(),
    ];
    for c in cases {
        let bytes = c.pack();
        let back = plain_datetime::DateTime::unpack(bytes);
        assert_eq!(back, c);
    }
}

#[test]
fn datetime_rejects_out_of_range() {
    assert!(plain_datetime::DateTime::try_new(1969, 1, 1, 0, 0, 0).is_err());
    assert!(plain_datetime::DateTime::try_new(2034, 1, 1, 0, 0, 0).is_err());
    assert!(plain_datetime::DateTime::try_new(2026, 13, 1, 0, 0, 0).is_err());
    assert!(plain_datetime::DateTime::try_new(2026, 1, 0, 0, 0, 0).is_err());
    assert!(plain_datetime::DateTime::try_new(2026, 1, 1, 24, 0, 0).is_err());
}

#[test]
fn the_two_readings_of_the_date_bytes() {
    let bytes = [0x99, 0xe4, 0xb8, 0x40];
    let plain = plain_datetime::DateTime::unpack(bytes);
    assert_eq!((plain.year, plain.month, plain.day), (2020, 3, 19));
    let dt = DateTime::try_new(1985, 12, 24, 18, 30, 5).unwrap();
    assert_eq!(dt.pack(), [0xc5, 0x9f, 0x27, 0x85]);
    let p = plain_datetime::DateTime::try_new(1985, 12, 24, 18, 30, 5).unwrap();
    assert_eq!(p.pack(), [0xc6, 0x1f, 0x27, 0x85]);
    assert_eq!(plain_datetime::DateTime::default().year, 1970);
}

#[test]
fn each_field_out_of_range_is_named() {
    let cases = [
        ((1977, 1, 1, 0, 0, 0), "year must be 1978..=2041"),
        ((2000, 0, 1, 0, 0, 0), "month must be 1..=12"),
        ((2000, 1, 32, 0, 0, 0), "day must be 1..=31"),
        ((2000, 1, 1, 24, 0, 0), "hour must be 0..=23"),
        ((2000, 1, 1, 0, 60, 0), "minute must be 0..=59"),
        ((2000, 1, 1, 0, 0, 60), "second must be 0..=59"),
    ];
    for ((y, mo, d, h, mi, s), text) in cases {
        match DateTime::try_new(y, mo, d, h, mi, s) {
            Err(Error::DateOutOfRange(t)) => assert_eq!(t, text),
            _ => panic!("{text}"),
        }
    }
    assert!(matches!(
        plain_datetime::DateTime::try_new(2034, 1, 1, 0, 0, 0),
        Err(Error::DateOutOfRange("year must be 1970..=2033"))
    ));
}

#[test]
fn days_count_from_the_unix_epoch() {
    assert_eq!(civil_to_days(1970, 1, 1), 0);
    assert_eq!(civil_to_days(1969, 12, 31), -1);
    assert_eq!(civil_to_days(2000, 2, 29), 11016);
    assert_eq!(civil_to_days(2000, 3, 1), 11017);
    assert_eq!(days_to_civil(11016), (2000, 2, 29));
    let mut day = 0;
    for year in 1970..2100 {
        for month in 1..=12u8 {
            let leap = year % 4 == 0 && (year % 100 != 0 || year % 400 == 0);
            let len = match month {
                2 => 28 + leap as u8,
                4 | 6 | 9 | 11 => 30,
                _ => 31,
            };
            for d in 1..=len {
                assert_eq!(civil_to_days(year, month, d), day);
                assert_eq!(days_to_civil(day as i64), (year, month, d));
                day += 1;
            }
        }
    }
}

#[test]
fn seconds_at_the_edges_of_the_range() {
    let last = DateTime::try_new(2041, 12, 31, 23, 59, 59).unwrap();
    assert_eq!(DateTime::zero().to_unix_seconds(), 252_460_800);
    assert_eq!(last.to_unix_seconds(), 2_272_147_199);
    assert_eq!(
        DateTime::from_unix_seconds_clamped(Some(252_460_800)),
        (DateTime::zero(), false)
    );
    assert_eq!(
        DateTime::from_unix_seconds_clamped(Some(252_460_799)),
        (DateTime::zero(), true)
    );
    assert_eq!(
        DateTime::from_unix_seconds_clamped(Some(2_272_147_199)),
        (last, false)
    );
    assert_eq!(
        DateTime::from_unix_seconds_clamped(Some(2_272_147_200)),
        (last, true)
    );
    assert_eq!(
        DateTime::from_unix_seconds_clamped(None),
        (DateTime::default(), true)
    );
}

#[test]
fn any_four_bytes_come_back() {
    for bytes in [
        [0x00, 0x00, 0x00, 0x00],
        [0xff, 0xff, 0xff, 0xff],
        [0x99, 0xe4, 0xb8, 0x40],
        [0x07, 0x80, 0x0f, 0xff],
        [0x12, 0x34, 0x56, 0x78],
    ] {
        assert_eq!(DateTime::unpack(bytes).pack(), bytes);
        assert_eq!(plain_datetime::DateTime::unpack(bytes).pack(), bytes);
    }
    let dt = DateTime::unpack([0xff, 0xff, 0xff, 0xff]);
    assert_eq!((dt.year, dt.month, dt.day), (2005, 16, 31));
    assert_eq!((dt.hour, dt.minute, dt.second), (31, 63, 63));
}

#[test]
fn an_instant_comes_back_to_the_second() {
    let start = UNIX_EPOCH + Duration::from_secs(1_000_000_000);
    let (dt, _) = DateTime::from_system_time_clamped(start + Duration::from_nanos(999_999_999));
    assert_eq!(dt.to_system_time(), start);
    let (dt, _) = DateTime::from_system_time_clamped(start);
    assert_eq!(dt.to_system_time(), start);
}
