use activity::cache::{intervals_from_rows, rows_of_intervals, label_from_name, reuse_decision, should_reuse_cache};
use activity::calendar::{
    build_month_dates, days_in_month, effective_day, format_local_date, local_midnight_of, next_day, six_am_of,
};
use activity::segb::{collect_record_ranges, RecordIter};
use activity::types::{InputKind, Interval, IntervalLabel, ScreenEventKind};
use activity::unified::{archive_key, fetch_windows, input_kind_of, kind_of, parse_line, screen_kind_of};
use activity::wifi::{compute_subnet, extract_field, ip_to_u32, parse_wifi_log_timestamp, LineParser};

#[test]
fn compute_subnet_basic() {
    assert_eq!(compute_subnet("192.168.1.10", "255.255.255.0"), Some("192.168.1.0/24".to_string()));
}

#[test]
fn compute_subnet_slash16() {
    assert_eq!(compute_subnet("10.0.5.1", "255.255.0.0"), Some("10.0.0.0/16".to_string()));
}

#[test]
fn compute_subnet_slash8() {
    assert_eq!(compute_subnet("172.16.0.1", "255.0.0.0"), Some("172.0.0.0/8".to_string()));
}

#[test]
fn compute_subnet_invalid_ip() {
    assert!(compute_subnet("not.an.ip", "255.255.255.0").is_none());
}

#[test]
fn ip_to_u32_values() {
    assert_eq!(ip_to_u32("1.2.3.4"), Some(0x01020304));
    assert_eq!(ip_to_u32("1.2"), Some(0x0102));
    assert_eq!(ip_to_u32("1.2.3.4.5"), None);
    assert_eq!(ip_to_u32("1.256.3.4"), None);
}

#[test]
fn extract_field_takes_word() {
    assert_eq!(
        extract_field("en0: IP Address: 192.168.1.4 (dhcp)", "IP Address: "),
        Some("192.168.1.4".to_string())
    );
    assert_eq!(extract_field("nothing here", "IP Address: "), None);
}

#[test]
fn parse_wifi_log_timestamp_basic() {
    let line = "Tue May 19 11:45:33.009 something";
    let ts = parse_wifi_log_timestamp(line, 2024);
    assert!(ts.is_some(), "expected Some, got None for line: {line}");
}

#[test]
fn parse_wifi_log_timestamp_single_digit_day() {
    let line = "Mon Jan  5 09:00:00.000 something";
    let ts = parse_wifi_log_timestamp(line, 2024);
    assert!(ts.is_some(), "expected Some for single-digit day");
}

#[test]
fn parse_wifi_log_timestamp_invalid() {
    assert!(parse_wifi_log_timestamp("not a timestamp", 2024).is_none());
}

#[test]
fn line_parser_builds_events() {
    let mut p = LineParser::new(2024);
    p.feed_line("Tue May 19 11:45:33.009 IP Address: 192.168.1.10");
    p.feed_line("Tue May 19 11:45:33.009 IP subnet mask: 255.255.255.0");
    p.feed_line("Tue May 19 11:45:34.009 Router IP Address: 192.168.1.1");
    p.feed_line("Tue May 19 11:46:00.000 IP Address: 0.0.0.0");
    p.feed_line("Tue May 19 11:46:00.000 IP subnet mask: 0.0.0.0");
    let events = p.finish();
    assert_eq!(events.len(), 2);
    assert_eq!(events[0].subnet, "192.168.1.0/24");
    assert_eq!(events[0].ip, "192.168.1.10");
    assert_eq!(events[1].subnet, "");
    assert!(events[1].time_ms > events[0].time_ms);
}

#[test]
fn parse_line_kbd() {
    let line = "2024-03-15 10:30:45.123456+0900 0x1234  Default   0x0  12345  0  SkyLight: some event";
    let result = parse_line("keyboard", line);
    assert!(result.is_some());
    let (ts, kind) = result.unwrap();
    assert_eq!(kind, "kbd");
    assert!(ts > 0);
}

#[test]
fn parse_line_too_short() {
    assert!(parse_line("keyboard", "short").is_none());
}

#[test]
fn parse_line_screen_lock() {
    let line = "2024-03-15 10:30:45.000000+0000 loginwindow: sendDistributedNotification: com.apple.screenIsLocked";
    let result = parse_line("screen_lock", line);
    assert!(result.is_some());
    let (_, kind) = result.unwrap();
    assert_eq!(kind, "screen_lock");
}

#[test]
fn parse_line_screen_unlock() {
    let line = "2024-03-15 10:30:45.000000+0000 loginwindow: sendDistributedNotification: com.apple.screenIsUnlocked";
    let result = parse_line("screen_lock", line);
    assert!(result.is_some());
    let (_, kind) = result.unwrap();
    assert_eq!(kind, "screen_unlock");
}

#[test]
fn kind_of_unknown_class() {
    assert_eq!(kind_of("other", "anything"), None);
    assert_eq!(kind_of("app_launch", "LAUNCH: x"), Some("app_launch"));
}

#[test]
fn archive_key_shapes() {
    assert_eq!(
        archive_key("powerlog_2024-03-15_ABCDEF12.PLSQL.gz"),
        Some("2024-03-15_ABCDEF12".to_string())
    );
    assert_eq!(archive_key("powerlog_short.PLSQL.gz"), None);
    assert_eq!(archive_key("other_2024-03-15_ABCDEF12.PLSQL.gz"), None);
}

const DELIMITER: [u8; 4] = [0x0a, 0x00, 0x00, 0x00];

fn build_segb(payloads: &[&[u8]]) -> Vec<u8> {
    let mut buf = Vec::new();
    buf.extend_from_slice(&DELIMITER);
    buf.extend_from_slice(&[0x00, 0x00, 0x00, 0x00]);
    for payload in payloads {
        buf.extend_from_slice(&DELIMITER);
        buf.extend_from_slice(payload);
    }
    buf
}

#[test]
fn no_records() {
    let buf = build_segb(&[]);
    let ranges = collect_record_ranges(&buf);
    assert!(ranges.is_empty());
}

#[test]
fn single_record() {
    let buf = build_segb(&[b"hello"]);
    let ranges = collect_record_ranges(&buf);
    assert_eq!(ranges.len(), 1);
    let (s, e) = ranges[0];
    assert_eq!(&buf[s..e], b"hello");
}

#[test]
fn multiple_records() {
    let payloads: &[&[u8]] = &[b"first", b"second", b"third"];
    let buf = build_segb(payloads);
    let ranges = collect_record_ranges(&buf);
    assert_eq!(ranges.len(), 3);
    for (i, &(s, e)) in ranges.iter().enumerate() {
        assert_eq!(&buf[s..e], payloads[i]);
    }
}

#[test]
fn record_containing_delimiter_bytes() {
    let payload = &[0x0a, 0x01, 0x02, 0x03, 0x04];
    let buf = build_segb(&[payload]);
    let ranges = collect_record_ranges(&buf);
    assert_eq!(ranges.len(), 1);
    let (s, e) = ranges[0];
    assert_eq!(&buf[s..e], payload);
}

#[test]
fn record_iter_hands_out_payloads() {
    let buf = build_segb(&[b"ab", b"cd"]);
    let mut it = RecordIter::new(buf);
    assert_eq!(it.next_record(), Some(b"ab".to_vec()));
    assert_eq!(it.next_record(), Some(b"cd".to_vec()));
    assert_eq!(it.next_record(), None);
}

#[test]
fn build_month_dates_count() {
    let dates = build_month_dates("202401");
    assert_eq!(dates.len(), 31);
    assert_eq!(dates[0], "2024-01-01");
    assert_eq!(dates[30], "2024-01-31");
}

#[test]
fn days_in_month_feb_leap() {
    assert_eq!(days_in_month("202402"), 29);
}

#[test]
fn days_in_month_feb_non_leap() {
    assert_eq!(days_in_month("202302"), 28);
}

#[test]
fn days_in_month_dec() {
    assert_eq!(days_in_month("202312"), 31);
}

#[test]
fn next_day_basic() {
    assert_eq!(next_day("2024-03-15").as_deref(), Some("2024-03-16"));
}

#[test]
fn next_day_month_boundary() {
    assert_eq!(next_day("2024-01-31").as_deref(), Some("2024-02-01"));
}

#[test]
fn next_day_year_boundary() {
    assert_eq!(next_day("2023-12-31").as_deref(), Some("2024-01-01"));
}

#[test]
fn six_am_round_trip() {
    let date = "2024-03-15";
    let ts = six_am_of(date).unwrap();
    assert_eq!(effective_day(ts).as_deref(), Some(date));
}

#[test]
fn effective_day_before_6am_rolls_back() {
    let date = "2024-03-15";
    let six_am_ts = six_am_of(date).unwrap();
    let before_6am = six_am_ts - 1;
    assert_eq!(effective_day(before_6am).as_deref(), Some("2024-03-14"));
}

#[test]
fn format_local_date_lies_within_a_day_of_utc() {
    // 2024-03-15T12:00:00Z
    let d = format_local_date(1_710_504_000_000).unwrap();
    assert!(d == "2024-03-14" || d == "2024-03-15" || d == "2024-03-16");
}

#[test]
fn effective_day_is_some_in_range() {
    assert!(effective_day(1_710_504_000_000).is_some());
    assert!(effective_day(0).is_some());
}

#[test]
fn six_am_of_lies_within_a_day_of_utc_six() {
    // 2024-03-15T06:00:00Z
    let t = six_am_of("2024-03-15").unwrap();
    assert!((t - 1_710_482_400_000).abs() < 86_400_000);
}

#[test]
fn local_midnight_of_missing_date_is_zero() {
    assert_eq!(local_midnight_of("2024-02-30"), 0);
    assert_eq!(local_midnight_of("2024-13-01"), 0);
}

#[test]
fn local_midnight_of_lies_within_a_day_of_utc_midnight() {
    let t = local_midnight_of("2024-03-15");
    assert!((t - 1_710_460_800_000).abs() < 86_400_000);
}

#[test]
fn effective_day_at_6am_stays() {
    let date = "2024-03-15";
    let ts = six_am_of(date).unwrap();
    assert_eq!(effective_day(ts).as_deref(), Some(date));
}

#[test]
fn interval_cache_should_reuse_cache_future_date() {
    assert!(!should_reuse_cache("2099-01-01", "2024-01-01"));
}

#[test]
fn interval_cache_should_reuse_cache_today() {
    assert!(!should_reuse_cache("2024-03-15", "2024-03-15"));
}

#[test]
fn interval_cache_should_reuse_cache_tomorrow() {
    assert!(!should_reuse_cache("2099-12-31", "2024-03-15"));
}

#[test]
fn interval_cache_should_reuse_cache_old_past_date() {
    assert!(should_reuse_cache("1970-01-01", "2099-12-31"));
}

#[test]
fn reuse_decision_current_day() {
    assert!(!reuse_decision("2024-03-14", "2024-03-15", Some("2024-03-14")));
    assert!(reuse_decision("2024-03-13", "2024-03-15", Some("2024-03-14")));
}

#[test]
fn stored_labels_round_trip() {
    assert_eq!(label_from_name("transit"), Some(IntervalLabel::Transit));
    assert_eq!(label_from_name("other"), None);
    let rows = vec![(1, 2, "active".to_string()), (2, 3, "nope".to_string()), (3, 4, "break".to_string())];
    let ivs = intervals_from_rows(&rows);
    assert_eq!(ivs.len(), 2);
    assert_eq!(ivs[1].label, IntervalLabel::Break);
}

#[test]
fn stored_event_kinds() {
    assert_eq!(screen_kind_of("screen_lock"), Some(ScreenEventKind::Lock));
    assert_eq!(screen_kind_of("screen_unlock"), Some(ScreenEventKind::Unlock));
    assert_eq!(screen_kind_of("kbd"), None);
    assert_eq!(input_kind_of("kbd"), Some(InputKind::Kbd));
    assert_eq!(input_kind_of("app_launch"), Some(InputKind::AppLaunch));
    assert_eq!(input_kind_of("screen_lock"), None);
}

#[test]
fn stored_intervals_read_back_without_location() {
    let ivs = vec![
        Interval { first_ms: 1, last_ms: 5, label: IntervalLabel::Active, location: Some("duet:x".to_string()) },
        Interval { first_ms: 5, last_ms: 9, label: IntervalLabel::Transit, location: None },
    ];
    let rows: Vec<(i64, i64, String)> =
        rows_of_intervals(&ivs).into_iter().map(|(f, l, n)| (f, l, n.to_string())).collect();
    let back = intervals_from_rows(&rows);
    assert_eq!(back.len(), 2);
    assert_eq!(back[0], Interval { first_ms: 1, last_ms: 5, label: IntervalLabel::Active, location: None });
    assert_eq!(back[1], ivs[1]);
}

#[test]
fn unified_log_fetch_windows() {
    assert_eq!(fetch_windows(None, 100, 1_000_000), vec![(100, 1_000_000)]);
    assert_eq!(fetch_windows(Some((50, 699_999)), 100, 1_000_000), vec![(699_999, 1_000_000)]);
    assert!(fetch_windows(Some((50, 700_000)), 100, 1_000_000).is_empty());
    assert_eq!(fetch_windows(Some((500, 999_000)), 100, 1_000_000), vec![(100, 500)]);
    assert_eq!(
        fetch_windows(Some((500, 600_000)), 100, 1_000_000),
        vec![(600_000, 1_000_000), (100, 500)]
    );
    assert!(fetch_windows(Some((100, 800_000)), 100, 1_000_000).is_empty());
}
