use chrono::{Datelike, Local, NaiveDate, TimeZone};
use activity::calendar::weekday_prefix;
use activity::numfmt::format_duration;
use activity::render::{format_extended_time, format_time_since, rto_other_symbol, TerminalRenderer};
use activity::report::{DayReport, MonthBreak, MonthReport, MonthReportRow, ReportInterval};
use activity::types::IntervalLabel;

#[test]
fn format_duration_zero() {
    assert_eq!(format_duration(0), "00h00");
}

#[test]
fn format_duration_30min() {
    assert_eq!(format_duration(30 * 60 * 1000), "00h30");
}

#[test]
fn format_duration_90min() {
    assert_eq!(format_duration(90 * 60 * 1000), "01h30");
}

#[test]
fn format_duration_rounds_to_nearest_minute() {
    assert_eq!(format_duration(29_999), "00h00");
    assert_eq!(format_duration(30_000), "00h01");
    assert_eq!(format_duration(8 * 3_600_000 + 46 * 60_000), "08h46");
    assert_eq!(format_duration(-90 * 60 * 1000), "-1h-30");
}

fn local_midnight(date: &str) -> i64 {
    let parts: Vec<u32> = date.split('-').map(|p| p.parse().unwrap()).collect();
    let d = NaiveDate::from_ymd_opt(parts[0] as i32, parts[1], parts[2]).unwrap();
    Local.with_ymd_and_hms(d.year(), d.month(), d.day(), 0, 0, 0).single().unwrap().timestamp_millis()
}

#[test]
fn format_extended_time_midnight() {
    let date = "2026-05-19";
    let midnight = local_midnight(date);
    assert_eq!(format_extended_time(date, midnight, false), "00:00");
}

#[test]
fn format_extended_time_6am() {
    let date = "2026-05-19";
    let midnight = local_midnight(date);
    let six_am = midnight + 6 * 60 * 60 * 1000;
    assert_eq!(format_extended_time(date, six_am, false), "06:00");
}

#[test]
fn format_extended_time_next_day() {
    let date = "2026-05-19";
    let midnight = local_midnight(date);
    let ts = midnight + (25 * 60 + 30) * 60 * 1000;
    assert_eq!(format_extended_time(date, ts, false), "25:30");
}

#[test]
fn format_time_since_rounding() {
    assert_eq!(format_time_since(0, 61_000, false), "00:01");
    assert_eq!(format_time_since(0, 61_000, true), "00:02");
    assert_eq!(format_time_since(1_000, 1_000, true), "00:00");
}

#[test]
fn rto_other_symbol_single_other_is_asterisk() {
    let other_ids = vec!["office-b".to_string()];
    assert_eq!(rto_other_symbol("office-b", &other_ids), "*");
}

#[test]
fn rto_other_symbol_multiple_superscript() {
    let other_ids = vec!["office-b".to_string(), "office-c".to_string()];
    assert_eq!(rto_other_symbol("office-b", &other_ids), "²");
    assert_eq!(rto_other_symbol("office-c", &other_ids), "³");
}

#[test]
fn rto_other_symbol_overflow_uses_number() {
    let other_ids: Vec<String> = (0..9).map(|i| format!("office-{i}")).collect();
    assert_eq!(rto_other_symbol("office-8", &other_ids), "10");
}

#[test]
fn weekday_prefix_known_dates() {
    assert_eq!(weekday_prefix("2026-05-19"), "Tue");
    assert_eq!(weekday_prefix("2024-02-29"), "Thu");
    assert_eq!(weekday_prefix("2024-02-30"), "Thu");
}

fn day_report() -> DayReport {
    DayReport {
        date: "2026-05-19".to_string(),
        intervals: vec![
            ReportInterval {
                first_ms: 9 * 3_600_000,
                last_ms: 12 * 3_600_000,
                label: IntervalLabel::Active,
                location: Some("duet:a".to_string()),
            },
            ReportInterval {
                first_ms: 12 * 3_600_000,
                last_ms: 13 * 3_600_000,
                label: IntervalLabel::Break,
                location: None,
            },
        ],
        total_active_ms: 3 * 3_600_000,
        dominant_id: Some("duet:a".to_string()),
        other_ids: vec![],
    }
}

#[test]
fn render_day_plain_table() {
    let r = TerminalRenderer { color: false };
    let text = r.render_day_at(&day_report(), 0);
    let expected = [
        "Tue 2026-05-19",
        "",
        "Start     End   Duration   Type     RTO",
        "───────────────────────────────────────",
        "09:00   12:00      03h00   active   ✓︎  ",
        "12:00   13:00      01h00   break       ",
        "───────────────────────────────────────",
        "        Total      03h00",
        "",
        "✓︎  Main office",
    ]
    .join("\n");
    assert_eq!(text, expected);
}

#[test]
fn render_day_without_activity() {
    let mut report = day_report();
    report.intervals.retain(|iv| iv.label != IntervalLabel::Active);
    let r = TerminalRenderer { color: false };
    assert_eq!(r.render_day_at(&report, 0), "Tue 2026-05-19\n\nNo user-initiated activity found.");
}

#[test]
fn render_day_colored_title() {
    let mut report = day_report();
    report.intervals.clear();
    let r = TerminalRenderer { color: true };
    assert_eq!(
        r.render_day_at(&report, 0),
        "\x1b[1m\x1b[38;2;184;187;38mTue 2026-05-19\x1b[0m\n\nNo user-initiated activity found."
    );
}

#[test]
fn render_month_plain_table() {
    let report = MonthReport {
        yyyymm: "202605".to_string(),
        rows: vec![MonthReportRow {
            date: "2026-05-19".to_string(),
            first_ms: 9 * 3_600_000,
            last_ms: 18 * 3_600_000,
            total_active_ms: 8 * 3_600_000,
            locations: vec!["duet:a".to_string(), "duet:b".to_string()],
            breaks: vec![MonthBreak {
                first_ms: 12 * 3_600_000,
                last_ms: 13 * 3_600_000,
                label: IntervalLabel::Transit,
            }],
        }],
        dominant_id: Some("duet:a".to_string()),
        other_ids: vec!["duet:b".to_string()],
    };
    let r = TerminalRenderer { color: false };
    let text = r.render_month_at(&report, &[0]);
    let expected = [
        "May 2026",
        "",
        "Date             Start    End  Total  RTO  Breaks",
        "─────────────────────────────────────────────────",
        "Tue 2026-05-19:  09:00  18:00  08h00  ✓︎*   12:00→13:00 (01h00 transit)",
        "",
        "✓︎  Main office",
        "*  Other office",
    ]
    .join("\n");
    assert_eq!(text, expected);
}

#[test]
fn render_month_empty() {
    let report = MonthReport {
        yyyymm: "202613".to_string(),
        rows: vec![],
        dominant_id: None,
        other_ids: vec![],
    };
    let r = TerminalRenderer { color: false };
    assert_eq!(r.render_month(&report), "Unknown 2026\n\nNo activity found.");
}
