use cargo_grime_cremator::age::{
    civil_to_systemtime, cutoff_setting, duration_text, is_disable_sentinel, is_overlong,
    parse_cutoff, parse_cutoff_at, relative_cutoff, time_of_reading, try_parse_absolute,
    AbsoluteError, CutoffError, EARLIEST,
};
use cargo_grime_cremator::civil::days_from_civil;
use cargo_grime_cremator::text::IntError;
use cargo_grime_cremator::timestamp::{Timestamp, NANOS_PER_SEC};
use std::time::{SystemTime, UNIX_EPOCH};

fn now() -> Timestamp {
    let d = SystemTime::now().duration_since(UNIX_EPOCH).unwrap();
    Timestamp::after_epoch(d.as_secs(), d.subsec_nanos())
}

fn secs(t: Timestamp) -> i128 {
    t.nanos / NANOS_PER_SEC
}

fn age_secs(cutoff: Timestamp) -> i128 {
    (now().nanos - cutoff.nanos) / NANOS_PER_SEC
}

fn at(secs: u64) -> Timestamp {
    Timestamp::after_epoch(secs, 0)
}

#[test]
fn parses_relative_month() {
    let cutoff = parse_cutoff("1 month").unwrap();
    let age = age_secs(cutoff);
    assert!(age > 28 * 86400);
    assert!(age < 32 * 86400);
}

#[test]
fn parses_relative_days_with_ago() {
    let a = parse_cutoff("4 days").unwrap();
    let b = parse_cutoff("4 days ago").unwrap();
    // The two readings of the clock happen microseconds apart, so the results
    // should be within a couple of seconds.
    let diff = (b.nanos - a.nanos).abs() / NANOS_PER_SEC;
    assert!(diff < 5);
}

#[test]
fn parses_relative_compound() {
    let cutoff = parse_cutoff("2 hours 30 minutes").unwrap();
    let age = age_secs(cutoff);
    // 2h30m = 9000s, with a tiny tolerance for the drift of the clock.
    assert!(age >= 9000);
    assert!(age < 9000 + 5);
}

#[test]
fn parses_absolute_utc_date() {
    let cutoff = parse_cutoff("2025-02-21").unwrap();
    // `date -u -d "2025-02-21 00:00:00 UTC" +%s` = 1740096000
    assert_eq!(secs(cutoff), 1_740_096_000);
}

#[test]
fn parses_absolute_utc_datetime_space() {
    let cutoff = parse_cutoff("2025-02-21 13:00:00").unwrap();
    assert_eq!(secs(cutoff), 1_740_096_000 + 13 * 3600);
}

#[test]
fn parses_absolute_utc_datetime_iso_t() {
    let cutoff = parse_cutoff("2025-02-21T13:00:00").unwrap();
    assert_eq!(secs(cutoff), 1_740_096_000 + 13 * 3600);
}

#[test]
fn rejects_future_absolute() {
    assert!(parse_cutoff("2999-01-01").is_err());
}

#[test]
fn rejects_garbage() {
    assert!(parse_cutoff("nonsense input").is_err());
    assert!(parse_cutoff("").is_err());
}

#[test]
fn disable_sentinels() {
    assert!(is_disable_sentinel("never"));
    assert!(is_disable_sentinel("off"));
    assert!(is_disable_sentinel("0"));
    assert!(is_disable_sentinel(""));
    assert!(is_disable_sentinel("  off  "));
    assert!(!is_disable_sentinel("1 month"));
    assert!(!is_disable_sentinel("forever"));
}

#[test]
fn sentinel_disables_the_cutoff() {
    assert!(matches!(cutoff_setting(" never\n"), Some(Ok(None))));
    assert!(matches!(cutoff_setting("   "), Some(Ok(None))));
    let set = cutoff_setting("1 hour").unwrap().unwrap().unwrap();
    let age = age_secs(set);
    assert!(age >= 3600 && age < 3605);
    assert!(matches!(
        cutoff_setting("nonsense"),
        Some(Err(CutoffError::NotADuration(_)))
    ));
    assert!(cutoff_setting("18446744073709551615.5 s").is_none());
}

#[test]
fn relative_cutoffs_are_exact() {
    let now = at(2_000_000_000);
    assert_eq!(
        parse_cutoff_at("2 hours 30 minutes", now).unwrap().nanos,
        now.nanos - 9000 * NANOS_PER_SEC
    );
    assert_eq!(
        parse_cutoff_at("36h", now).unwrap().nanos,
        now.nanos - 36 * 3600 * NANOS_PER_SEC
    );
    assert_eq!(
        parse_cutoff_at("1d12h", now).unwrap().nanos,
        now.nanos - 36 * 3600 * NANOS_PER_SEC
    );
    assert_eq!(
        parse_cutoff_at("1500ms", now).unwrap().nanos,
        now.nanos - 1_500_000_000
    );
    // A month is 30.44 days.
    assert_eq!(
        parse_cutoff_at("1 month", now).unwrap().nanos,
        now.nanos - 2_630_016 * NANOS_PER_SEC
    );
}

#[test]
fn ago_does_not_matter() {
    let now = at(1_800_000_000);
    for body in ["4 days", "1 month", "2 hours 30 minutes", " 36h "] {
        let with = format!("{} ago", body);
        assert_eq!(
            parse_cutoff_at(&with, now).unwrap(),
            parse_cutoff_at(body, now).unwrap()
        );
    }
    // Once only.
    assert!(parse_cutoff_at("4 days ago ago", now).is_err());
}

#[test]
fn space_or_t_does_not_matter() {
    let now = at(1_800_000_000);
    for (a, b) in [
        ("2025-02-21 13:00:00", "2025-02-21T13:00:00"),
        ("2025-02-21 13:00", "2025-02-21T13:00"),
        ("2025-2-1 1:2:3", "2025-2-1T1:2:3"),
    ] {
        assert_eq!(
            parse_cutoff_at(a, now).unwrap(),
            parse_cutoff_at(b, now).unwrap()
        );
    }
}

#[test]
fn date_is_its_midnight() {
    let now = at(1_800_000_000);
    let day = parse_cutoff_at("2024-02-29", now).unwrap();
    assert_eq!(parse_cutoff_at("2024-02-29 00:00:00", now).unwrap(), day);
    assert_eq!(parse_cutoff_at("2024-02-29T0:0", now).unwrap(), day);
    assert_eq!(parse_cutoff_at("  2024-02-29  ", now).unwrap(), day);
    assert_eq!(secs(day), 1_709_164_800);
}

#[test]
fn errors_say_what_is_wrong() {
    let now = at(1_800_000_000);
    assert!(matches!(
        parse_cutoff_at(" \t ", now),
        Err(CutoffError::Empty)
    ));
    assert!(matches!(
        parse_cutoff_at("2999-01-01", now),
        Err(CutoffError::Future)
    ));
    assert!(matches!(
        parse_cutoff_at("12 parsecs", now),
        Err(CutoffError::NotADuration(_))
    ));
    assert!(matches!(
        parse_cutoff_at("300000000000 years", now),
        Err(CutoffError::TooFarPast)
    ));
    assert!(matches!(
        parse_cutoff_at("1969-12-31 23:59:59", now),
        Err(CutoffError::Absolute(AbsoluteError::Before1970))
    ));
    assert!(parse_cutoff_at("1970-01-01", now).is_ok());
}

#[test]
fn absolute_errors_say_what_is_wrong() {
    match try_parse_absolute("2025-xx-01") {
        Err(AbsoluteError::Month { part, cause }) => {
            assert_eq!(part, "xx");
            assert_eq!(cause, IntError::InvalidDigit);
        }
        other => panic!("{:?}", other),
    }
    match try_parse_absolute("2025-01- 00") {
        // The first space ends the date, so that the day is empty.
        Err(AbsoluteError::Day { part, cause }) => {
            assert_eq!(part, "");
            assert_eq!(cause, IntError::Empty);
        }
        other => panic!("{:?}", other),
    }
    match try_parse_absolute("2025-99999999999-01") {
        Err(AbsoluteError::Month { part, cause }) => {
            assert_eq!(part, "99999999999");
            assert_eq!(cause, IntError::PosOverflow);
        }
        other => panic!("{:?}", other),
    }
    match try_parse_absolute("2025-02-21 ago") {
        Err(AbsoluteError::Time { part }) => assert_eq!(part, "ago"),
        other => panic!("{:?}", other),
    }
    match try_parse_absolute("2025-02-21 1:2:3:4") {
        Err(AbsoluteError::Time { part }) => assert_eq!(part, "1:2:3:4"),
        other => panic!("{:?}", other),
    }
    assert!(matches!(
        try_parse_absolute("2025-02-21 x:00"),
        Err(AbsoluteError::Hour {
            cause: IntError::InvalidDigit
        })
    ));
    assert!(matches!(
        try_parse_absolute("2025-02-21 13:"),
        Err(AbsoluteError::Minute {
            cause: IntError::Empty
        })
    ));
    assert!(matches!(
        try_parse_absolute("2025-02-21 13:00:-1"),
        Err(AbsoluteError::Second {
            cause: IntError::InvalidDigit
        })
    ));
    match try_parse_absolute("2025-13-01 04:05:06") {
        Err(AbsoluteError::OutOfRange {
            year,
            month,
            day,
            hour,
            minute,
            second,
        }) => assert_eq!(
            (year, month, day, hour, minute, second),
            (2025, 13, 1, 4, 5, 6)
        ),
        other => panic!("{:?}", other),
    }
    assert!(matches!(
        try_parse_absolute("0000-01-01"),
        Err(AbsoluteError::Before1970)
    ));
}

#[test]
fn what_is_no_date_is_not_absolute() {
    assert!(matches!(try_parse_absolute("1 month"), Ok(None)));
    assert!(matches!(try_parse_absolute("2025-2-1"), Ok(None)));
    assert!(matches!(try_parse_absolute("2025-02-21-7"), Ok(None)));
    assert!(matches!(try_parse_absolute("202-002-21"), Ok(None)));
    assert!(matches!(try_parse_absolute("2025/02/21"), Ok(None)));
    // Ten bytes are asked for, not ten characters.
    assert!(matches!(
        try_parse_absolute("2025-1-\u{20ac}"),
        Err(AbsoluteError::Day { .. })
    ));
    // A plus sign is read as part of a number.
    assert_eq!(
        secs(try_parse_absolute("2025-+2-21").unwrap().unwrap()),
        1_740_096_000
    );
}

#[test]
fn civil_dates_give_epoch_seconds() {
    let second = |y: i32, m: u32, d: u32| secs(civil_to_systemtime(y, m, d, 0, 0, 0).unwrap());
    assert_eq!(second(1970, 1, 1), 0);
    assert_eq!(second(2000, 2, 29), 951_782_400);
    assert_eq!(second(2000, 3, 1), 951_868_800);
    assert_eq!(second(2025, 2, 21), 1_740_096_000);
    assert_eq!(second(2038, 1, 19), 2_147_472_000);
    assert_eq!(second(9999, 12, 31), 253_402_214_400);
    // A day past the end of its month runs on.
    assert_eq!(second(2025, 2, 31), second(2025, 3, 3));
    assert_eq!(
        secs(civil_to_systemtime(2025, 2, 21, 23, 59, 59).unwrap()),
        1_740_096_000 + 86399
    );
    assert!(civil_to_systemtime(2025, 0, 1, 0, 0, 0).is_err());
    assert!(civil_to_systemtime(2025, 1, 32, 0, 0, 0).is_err());
    assert!(civil_to_systemtime(2025, 1, 0, 0, 0, 0).is_err());
    assert!(civil_to_systemtime(2025, 1, 1, 24, 0, 0).is_err());
    assert!(civil_to_systemtime(2025, 1, 1, 0, 60, 0).is_err());
    assert!(civil_to_systemtime(2025, 1, 1, 0, 0, 60).is_err());
}

#[test]
fn days_follow_one_another() {
    let lens = |y: i32| -> [u32; 12] {
        let leap = (y % 4 == 0 && y % 100 != 0) || y % 400 == 0;
        [31, if leap { 29 } else { 28 }, 31, 30, 31, 30, 31, 31, 30, 31, 30, 31]
    };
    let mut day: i64 = days_from_civil(-401, 1, 1);
    for y in -401..2405 {
        for (m, len) in lens(y).into_iter().enumerate() {
            for d in 1..=len {
                assert_eq!(days_from_civil(y, m as u32 + 1, d), day);
                day += 1;
            }
        }
    }
    assert_eq!(days_from_civil(1970, 1, 1), 0);
    assert_eq!(days_from_civil(1969, 12, 31), -1);
    assert!(days_from_civil(i32::MAX, 12, 31) > 0);
    assert!(days_from_civil(i32::MIN, 1, 1) < 0);
}

#[test]
fn cutoffs_reach_back_to_the_first_second() {
    let now = at(0);
    let far = relative_cutoff(Ok((9_223_372_036_854_775_808, 0)), now).unwrap();
    assert_eq!(far.nanos, EARLIEST);
    assert!(matches!(
        relative_cutoff(Ok((9_223_372_036_854_775_808, 1)), now),
        Err(CutoffError::TooFarPast)
    ));
    let e = humantime::parse_duration("?").unwrap_err();
    assert!(matches!(
        relative_cutoff(Err(e), now),
        Err(CutoffError::NotADuration(_))
    ));
}

#[test]
fn only_outlandish_texts_are_overlong() {
    for text in [
        "1 month",
        "4 days ago",
        "2025-02-21 13:00:00",
        "1500000000000 ms",
        "999999999999 years",
        "1.5 h 30 ms",
        "100000000000 s 5 ms",
        "000000000001s 1ms",
        "600000000000s 5ms",
        "1.500000000000000000 s",
        "99999999999999999999 ms",
        "",
    ] {
        assert!(!is_overlong(text), "{:?}", text);
    }
    assert!(is_overlong("584542046090 years 626 s 1 ms"));
    assert!(is_overlong("18446744073709551615.5 s ago"));
    // Large numbers are read as ever.
    let now = at(2_000_000_000);
    assert_eq!(
        parse_cutoff_at("100000000000 s 5 ms", now).unwrap().nanos,
        (2_000_000_000 - 100_000_000_000) * NANOS_PER_SEC - 5_000_000
    );
    assert_eq!(
        parse_cutoff_at("000000000001s 1ms ago", now).unwrap().nanos,
        now.nanos - 1_001_000_000
    );
    assert_eq!(
        parse_cutoff_at("1500000000000 ms", now).unwrap().nanos,
        500_000_000 * NANOS_PER_SEC
    );
}

#[test]
fn clock_readings_are_points_in_time() {
    assert_eq!(time_of_reading(Ok((3, 5))).nanos, 3_000_000_005);
    assert_eq!(time_of_reading(Err((3, 5))).nanos, -3_000_000_005);
    assert_eq!(time_of_reading(Ok((0, 0))), Timestamp::epoch());
}

#[test]
fn duration_stands_in_front_of_ago() {
    assert_eq!(duration_text("  4 days  ago "), "4 days");
    assert_eq!(duration_text(" 1 month\n"), "1 month");
    assert_eq!(duration_text("4 days ago ago"), "4 days ago");
    assert_eq!(duration_text("ago"), "ago");
}

#[test]
fn short_dates_are_told_by_their_bytes() {
    assert!(matches!(try_parse_absolute("2025-1-1T"), Ok(None)));
    assert!(matches!(try_parse_absolute("2025-1-1 "), Ok(None)));
    // Eleven bytes, with either separator.
    assert!(matches!(
        try_parse_absolute("2025-1-1T\u{e9}"),
        Err(AbsoluteError::Time { .. })
    ));
    assert!(matches!(
        try_parse_absolute("2025-1-1 \u{e9}"),
        Err(AbsoluteError::Time { .. })
    ));
}

#[test]
fn ago_behind_a_duration_says_nothing() {
    let now = at(2_000_000_000);
    for text in ["4 days", "2 hours 30 minutes", " 1d12h  ", "2025h", "600000000000s 5ms"] {
        let plain = parse_cutoff_at(text, now).unwrap().nanos;
        let ago = parse_cutoff_at(&format!("{} ago", text), now).unwrap().nanos;
        assert_eq!(plain, ago, "{}", text);
    }
    assert_eq!(
        parse_cutoff_at("2 hours 30 minutes ago", now).unwrap().nanos,
        now.nanos - 9_000 * NANOS_PER_SEC
    );
    // A text with a dash is no duration.
    assert!(matches!(
        parse_cutoff_at("-4 days", now),
        Err(CutoffError::NotADuration(_))
    ));
    assert!(matches!(
        parse_cutoff_at("2025-1-1", now),
        Err(CutoffError::NotADuration(_))
    ));
}
