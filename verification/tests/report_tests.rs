use activity::report::{build_day_report, build_month_report, day_input_checked};
use activity::types::{Interval, IntervalLabel};

fn make_interval(first_ms: i64, last_ms: i64, label: IntervalLabel) -> Interval {
    Interval { first_ms, last_ms, label, location: None }
}

#[test]
fn day_report_no_active_returns_empty() {
    let intervals = vec![
        make_interval(1_000, 2_000, IntervalLabel::Break),
        make_interval(2_000, 3_000, IntervalLabel::Transit),
    ];
    let report = build_day_report("2026-05-19", &intervals, None, &[]);
    assert!(report.intervals.is_empty());
    assert_eq!(report.total_active_ms, 0);
}

#[test]
fn day_report_slices_correctly() {
    let intervals = vec![
        make_interval(0, 1_000, IntervalLabel::Break),
        make_interval(1_000, 2_000, IntervalLabel::Active),
        make_interval(2_000, 3_000, IntervalLabel::Break),
        make_interval(3_000, 4_000, IntervalLabel::Active),
        make_interval(4_000, 5_000, IntervalLabel::Break),
    ];
    let report = build_day_report("2026-05-19", &intervals, None, &[]);
    assert_eq!(report.intervals.len(), 3);
    assert_eq!(report.intervals[0].label, IntervalLabel::Active);
    assert_eq!(report.intervals[1].label, IntervalLabel::Break);
    assert_eq!(report.intervals[2].label, IntervalLabel::Active);
    assert_eq!(report.total_active_ms, 2_000);
}

#[test]
fn day_report_filters_zero_duration() {
    let intervals = vec![
        make_interval(0, 0, IntervalLabel::Active),
        make_interval(1_000, 2_000, IntervalLabel::Active),
    ];
    let report = build_day_report("2026-05-19", &intervals, None, &[]);
    assert_eq!(report.intervals.len(), 1);
    assert_eq!(report.total_active_ms, 1_000);
}

#[test]
fn day_report_keeps_ids() {
    let intervals = vec![make_interval(0, 10, IntervalLabel::Active)];
    let others = vec!["duet:b".to_string()];
    let report = build_day_report("2026-05-19", &intervals, Some("duet:a"), &others);
    assert_eq!(report.date, "2026-05-19");
    assert_eq!(report.dominant_id.as_deref(), Some("duet:a"));
    assert_eq!(report.other_ids, others);
}

fn located(first_ms: i64, last_ms: i64, loc: &str) -> Interval {
    Interval { first_ms, last_ms, label: IntervalLabel::Active, location: Some(loc.to_string()) }
}

#[test]
fn month_report_rows_until_today() {
    let dates: Vec<String> =
        vec!["2026-05-01".to_string(), "2026-05-02".to_string(), "2026-05-03".to_string()];
    let by_date = vec![
        (
            "2026-05-01".to_string(),
            vec![
                make_interval(0, 100, IntervalLabel::Break),
                located(100, 300, "duet:z"),
                make_interval(300, 400, IntervalLabel::Transit),
                located(400, 500, "duet:a"),
                located(500, 600, "duet:dom"),
            ],
        ),
        ("2026-05-03".to_string(), vec![located(0, 10, "duet:z")]),
    ];
    let report = build_month_report("202605", &dates, &by_date, Some("duet:dom"), &[], "2026-05-02");
    assert_eq!(report.yyyymm, "202605");
    assert_eq!(report.rows.len(), 1);
    let row = &report.rows[0];
    assert_eq!(row.date, "2026-05-01");
    assert_eq!(row.first_ms, 100);
    assert_eq!(row.last_ms, 600);
    assert_eq!(row.total_active_ms, 400);
    assert_eq!(row.locations, vec!["duet:dom".to_string(), "duet:a".to_string(), "duet:z".to_string()]);
    assert_eq!(row.breaks.len(), 1);
    assert_eq!(row.breaks[0].first_ms, 300);
    assert_eq!(row.breaks[0].label, IntervalLabel::Transit);
}

#[test]
fn month_report_skips_days_without_activity() {
    let dates: Vec<String> = vec!["2026-05-01".to_string(), "2026-05-02".to_string()];
    let by_date = vec![("2026-05-02".to_string(), vec![make_interval(0, 100, IntervalLabel::Break)])];
    let report = build_month_report("202605", &dates, &by_date, None, &[], "2026-05-31");
    assert!(report.rows.is_empty());
}

#[test]
fn day_input_checked_bounds() {
    let ok = vec![
        Interval { first_ms: 0, last_ms: 1_000, label: IntervalLabel::Active, location: None },
        Interval { first_ms: 1_000, last_ms: 2_000, label: IntervalLabel::Break, location: None },
    ];
    assert!(day_input_checked(&ok));
    let too_far = vec![Interval { first_ms: 0, last_ms: i64::MAX, label: IntervalLabel::Active, location: None }];
    assert!(!day_input_checked(&too_far));
    let long = Interval {
        first_ms: -4_000_000_000_000_000_000,
        last_ms: 4_000_000_000_000_000_000,
        label: IntervalLabel::Active,
        location: None,
    };
    assert!(day_input_checked(&[long.clone()]));
    let too_long = vec![long.clone(), long];
    assert!(!day_input_checked(&too_long));
    assert!(day_input_checked(&[]));
}
