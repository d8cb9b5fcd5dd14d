use dit::parse::{parse_duration, parse_time_text, TimeText};
use dit::time::{format_duration_piece, Duration, Nice, Timestamp};
use dit::zone::{now, parse_timestamp};

fn assert_parses(x: &str) {
    assert!(parse_timestamp(x).is_some(), "parse_timestamp({}) should be Some(_) but is None", x);
}

fn assert_parses_not(x: &str) {
    assert!(parse_timestamp(x).is_none(), "parse_timestamp({}) should be None", x);
}

#[test]
fn test_parse_datetime() {
    assert_parses("1:22");
    assert_parses("11:22");
    assert_parses("11:22:33");

    assert_parses("2020-10-20-1:22");
    assert_parses("2020-10-20-11:22");
    assert_parses("2020-10-20-11:22:33");

    assert_parses("-11d");
    assert_parses("-11h");
    assert_parses("-11min");
    assert_parses("-11s");
    assert_parses("-3d-3h-123min-123s");

    assert_parses("11d");
    assert_parses("11h");
    assert_parses("11min");
    assert_parses("11s");
    assert_parses("3d3h123min123s");

    assert_parses_not("11");
    assert_parses_not("11:2");
    assert_parses_not("11:222");
    assert_parses_not("11:22:3");

    assert_parses_not("2020");
    assert_parses_not("2020-10");
    assert_parses_not("2020-10-20");
    assert_parses_not("2020-10-20-11");
}

#[test]
fn time_text_forms() {
    assert_eq!(
        parse_time_text("2020-10-20-1:22"),
        Some(TimeText::At { year: 2020, month: 10, day: 20, hour: 1, minute: 22, second: 0 })
    );
    assert_eq!(parse_time_text("11:22:33"), Some(TimeText::Today { hour: 11, minute: 22, second: 33 }));
    assert_eq!(parse_time_text("-1h30min"), Some(TimeText::Relative(Duration { secs: -3600 + 1800 })));
    assert_eq!(parse_time_text("11"), None);
    assert_eq!(parse_time_text("2020-10-20-11"), None);
}

#[test]
fn relative_time_is_offset_from_now() {
    let before = now().unwrap();
    let t = parse_timestamp("-1h").unwrap();
    let after = now().unwrap();
    assert!(t.secs >= before.secs - 3600 && t.secs <= after.secs - 3600);
}

#[test]
fn duration_text() {
    assert_eq!(Duration::seconds(0).nice(), "0s");
    assert_eq!(Duration::seconds(5400).nice(), "1h30min");
    assert_eq!(Duration::seconds(3661).nice(), "1h1min1s");
    assert_eq!(Duration::seconds(90000).nice(), "25h");
    assert_eq!(Duration::seconds(-90).nice(), "-1min-30s");
    assert_eq!(Duration::seconds(59).nice(), "59s");
}

#[test]
fn duration_pieces() {
    assert_eq!(format_duration_piece(0, "h"), "");
    assert_eq!(format_duration_piece(5, "min"), "5min");
    assert_eq!(format_duration_piece(-12, "s"), "-12s");
}

#[test]
fn duration_parsing() {
    assert_eq!(parse_duration("1h30min"), Some(Duration { secs: 5400 }));
    assert_eq!(parse_duration("0s"), Some(Duration { secs: 0 }));
    assert_eq!(parse_duration(""), Some(Duration { secs: 0 }));
    assert_eq!(parse_duration("3d"), Some(Duration { secs: 259200 }));
    assert_eq!(
        parse_duration("-3d-3h-123min-123s"),
        Some(Duration { secs: -(3 * 86400 + 3 * 3600 + 123 * 60 + 123) })
    );
    assert_eq!(parse_duration("+2min"), Some(Duration { secs: 120 }));
    assert_eq!(parse_duration("5"), None);
    assert_eq!(parse_duration("1s1h"), None);
    assert_eq!(parse_duration("1h1h"), None);
    assert_eq!(parse_duration("1m"), None);
    assert_eq!(parse_duration("1234567890123456789s"), Some(Duration { secs: 1234567890123456789 }));
    assert_eq!(parse_duration("1234567890123456789012345678901s"), None);
}

#[test]
fn duration_text_reads_back() {
    let max: i128 = 1_000_000_000_000_000_000_000_000_000_000_000;
    for secs in [0i128, 1, 59, 60, 5400, 86399, 90061, -5400, -1, max, -max, max - 1] {
        let d = Duration::seconds(secs);
        assert_eq!(parse_duration(&d.nice()), Some(d));
    }
}

#[test]
fn timestamp_text_round_trip() {
    let t = Timestamp { secs: 1577872800, offset: 3600 };
    assert_eq!(t.nice(), "2020-01-01 11:00:00 +0100");
    assert_eq!(Timestamp::from_text("2020-01-01 11:00:00 +0100"), Some(t));
    assert_eq!(Timestamp::from_text("2020-01-01T11:00"), None);
    assert_eq!(None::<Timestamp>.nice(), "");
}

#[test]
fn local_days() {
    assert_eq!(Timestamp { secs: 86399, offset: 0 }.local_day(), 0);
    assert_eq!(Timestamp { secs: 86400, offset: 0 }.local_day(), 1);
    assert_eq!(Timestamp { secs: -1, offset: 0 }.local_day(), -1);
    assert_eq!(Timestamp { secs: 82800, offset: 3600 }.local_day(), 1);
    assert_eq!(Timestamp { secs: 3600, offset: -7200 }.local_day(), -1);
}

#[test]
fn timestamp_range() {
    assert!(Timestamp::new(0, 0).is_some());
    assert!(Timestamp::new(0, 86400).is_none());
    assert!(Timestamp::new(0, 30).is_none());
    assert!(Timestamp::new(0, -19800).is_some());
    assert_eq!(Timestamp::from_text("2020-01-01 11:00:00 -0530"), Some(Timestamp { secs: 1577896200, offset: -19800 }));
    assert!(Timestamp::new(9_000_000_000_000, 0).is_none());
    assert!(now().is_some());
}
