use activity::focus::merge_focus_streams;
use activity::intervals::prepare_intervals_for_render;
use activity::search::last_before;
use activity::calendar::six_am_of;
use activity::periods::attribute_periods_to_date;
use activity::timeline::build_timeline;
use activity::types::{
    BlEvent, FrontmostEvent, InitialState, InputEvent, InputKind, LocationGroups, ScreenEvent, TimelineInputs,
    WifiEvent,
};
use activity::types::{ActivePeriod, FocusPeriod, Interval, IntervalLabel, PointFocusEvent, RawEvent, RawEventKind};

#[test]
fn last_before_empty() {
    let arr: Vec<RawEvent> = vec![];
    assert!(last_before(&arr, 1000).is_none());
}

#[test]
fn last_before_all_ge() {
    let arr = vec![
        RawEvent { time_ms: 100, kind: RawEventKind::Kbd },
        RawEvent { time_ms: 200, kind: RawEventKind::Kbd },
    ];
    assert!(last_before(&arr, 100).is_none());
    assert!(last_before(&arr, 50).is_none());
}

#[test]
fn last_before_found() {
    let arr = vec![
        RawEvent { time_ms: 100, kind: RawEventKind::Kbd },
        RawEvent { time_ms: 200, kind: RawEventKind::Kbd },
        RawEvent { time_ms: 300, kind: RawEventKind::Kbd },
    ];
    let r = last_before(&arr, 250).unwrap();
    assert_eq!(r.time_ms, 200);
}

#[test]
fn last_before_boundary_exact() {
    let arr = vec![
        RawEvent { time_ms: 100, kind: RawEventKind::Kbd },
        RawEvent { time_ms: 200, kind: RawEventKind::Kbd },
    ];
    let r = last_before(&arr, 200).unwrap();
    assert_eq!(r.time_ms, 100);
}

#[test]
fn last_before_returns_last_element() {
    let arr = vec![
        RawEvent { time_ms: 100, kind: RawEventKind::Kbd },
        RawEvent { time_ms: 200, kind: RawEventKind::Kbd },
    ];
    let r = last_before(&arr, 999).unwrap();
    assert_eq!(r.time_ms, 200);
}

#[test]
fn merge_focus_streams_suppresses_covered_points() {
    let periods = vec![FocusPeriod {
        first_ms: 1000,
        last_ms: 3000,
        bundle_id: "com.example.app".to_string(),
    }];
    let point_events = vec![
        PointFocusEvent { time_ms: 500, bundle_id: "com.other.app".to_string() },
        PointFocusEvent { time_ms: 1500, bundle_id: "com.example.app".to_string() },
        PointFocusEvent { time_ms: 4000, bundle_id: "com.other.app".to_string() },
    ];
    let result = merge_focus_streams(&periods, &point_events);
    let times: Vec<i64> = result.iter().map(|e| e.time_ms).collect();
    assert!(times.contains(&500));
    assert!(times.contains(&1000));
    assert!(times.contains(&4000));
    assert!(!times.contains(&1500), "covered point event should be suppressed");
}

#[test]
fn merge_focus_streams_period_wins_on_tie() {
    let periods = vec![FocusPeriod {
        first_ms: 1000,
        last_ms: 2000,
        bundle_id: "com.period.app".to_string(),
    }];
    let point_events = vec![PointFocusEvent {
        time_ms: 1000,
        bundle_id: "com.point.app".to_string(),
    }];
    let result = merge_focus_streams(&periods, &point_events);
    let at_1000: Vec<&PointFocusEvent> = result.iter().filter(|e| e.time_ms == 1000).collect();
    assert_eq!(at_1000.len(), 1);
    assert_eq!(at_1000[0].bundle_id, "com.period.app");
}

fn make_interval(first_ms: i64, last_ms: i64, label: IntervalLabel) -> Interval {
    Interval { first_ms, last_ms, label, location: None }
}

#[test]
fn two_transits_unchanged() {
    let intervals = vec![
        make_interval(0, 100, IntervalLabel::Active),
        make_interval(100, 200, IntervalLabel::Transit),
        make_interval(200, 300, IntervalLabel::Active),
        make_interval(300, 400, IntervalLabel::Transit),
        make_interval(400, 500, IntervalLabel::Active),
    ];
    let result = prepare_intervals_for_render(intervals.clone());
    assert_eq!(result.len(), intervals.len());
    let tc = result.iter().filter(|iv| iv.label == IntervalLabel::Transit).count();
    assert_eq!(tc, 2);
}

#[test]
fn one_transit_unchanged() {
    let intervals = vec![
        make_interval(0, 100, IntervalLabel::Active),
        make_interval(100, 200, IntervalLabel::Transit),
        make_interval(200, 300, IntervalLabel::Active),
    ];
    let result = prepare_intervals_for_render(intervals.clone());
    assert_eq!(result.len(), 3);
}

#[test]
fn inner_transits_relabeled() {
    let intervals = vec![
        make_interval(0, 100, IntervalLabel::Active),
        make_interval(100, 200, IntervalLabel::Transit),
        make_interval(200, 300, IntervalLabel::Active),
        make_interval(300, 400, IntervalLabel::Transit),
        make_interval(400, 500, IntervalLabel::Active),
        make_interval(500, 600, IntervalLabel::Transit),
        make_interval(600, 700, IntervalLabel::Active),
    ];
    let result = prepare_intervals_for_render(intervals);
    let tc = result.iter().filter(|iv| iv.label == IntervalLabel::Transit).count();
    assert_eq!(tc, 2, "only first and last transits should remain");
}

#[test]
fn inner_transits_merge_with_neighbours() {
    let intervals = vec![
        make_interval(0, 100, IntervalLabel::Active),
        make_interval(100, 200, IntervalLabel::Transit),
        make_interval(200, 300, IntervalLabel::Active),
        make_interval(300, 400, IntervalLabel::Transit),
        make_interval(400, 500, IntervalLabel::Active),
        make_interval(500, 600, IntervalLabel::Transit),
        make_interval(600, 700, IntervalLabel::Active),
    ];
    let result = prepare_intervals_for_render(intervals);
    assert_eq!(result.len(), 5);
    assert_eq!(result[2], make_interval(200, 500, IntervalLabel::Active));
    for w in result.windows(2) {
        assert_ne!(w[0].label, w[1].label);
    }
}

#[test]
fn attribute_periods_to_date_clips_to_the_day_window() {
    let ws = six_am_of("2024-03-15").unwrap();
    let we = six_am_of("2024-03-16").unwrap();
    let periods = vec![
        ActivePeriod { first_ms: ws + 1_000, last_ms: ws + 5_000 },
        ActivePeriod { first_ms: ws - 3_600_000, last_ms: ws + 3_600_000 },
        ActivePeriod { first_ms: we - 1_000, last_ms: we + 60_000 },
    ];
    let no_events: Vec<RawEvent> = Vec::new();
    let r = attribute_periods_to_date(&periods, "2024-03-15", &no_events).unwrap();
    assert_eq!(
        r,
        vec![
            ActivePeriod { first_ms: ws + 1_000, last_ms: ws + 5_000 },
            ActivePeriod { first_ms: we - 1_000, last_ms: we },
        ]
    );
}

#[test]
fn attribute_periods_to_date_unreadable_date_is_none() {
    let no_events: Vec<RawEvent> = Vec::new();
    assert!(attribute_periods_to_date(&[], "not-a-date", &no_events).is_none());
}

#[test]
fn build_timeline_ignores_events_outside_window() {
    let ws: i64 = 1_000_000;
    let we: i64 = 10_000_000;
    let bl = vec![BlEvent { time_ms: 2_000_000, active: true }, BlEvent { time_ms: 8_000_000, active: false }];
    let input = vec![
        InputEvent { time_ms: 2_100_000, kind: InputKind::Kbd },
        InputEvent { time_ms: 3_000_000, kind: InputKind::Kbd },
    ];
    let bl2 = vec![
        BlEvent { time_ms: 500_000, active: false },
        BlEvent { time_ms: 2_000_000, active: true },
        BlEvent { time_ms: 8_000_000, active: false },
        BlEvent { time_ms: 12_000_000, active: true },
    ];
    let input2 = vec![
        InputEvent { time_ms: 900_000, kind: InputKind::Kbd },
        InputEvent { time_ms: 2_100_000, kind: InputKind::Kbd },
        InputEvent { time_ms: 3_000_000, kind: InputKind::Kbd },
        InputEvent { time_ms: 11_000_000, kind: InputKind::Kbd },
    ];
    let screen: Vec<ScreenEvent> = Vec::new();
    let focus: Vec<FrontmostEvent> = Vec::new();
    let wifi: Vec<WifiEvent> = Vec::new();
    let wifi2 = vec![WifiEvent { time_ms: 20_000_000, ip: "10.0.0.5".to_string(), subnet: "10.0.0.0/24".to_string() }];
    let groups = LocationGroups { pairs: Vec::new() };
    let init = || InitialState { bl_on: false, screen_locked: false, ip_canon: None, last_input_time: None };
    let a = build_timeline(
        TimelineInputs {
            bl_events: &bl,
            screen_events: &screen,
            input_events: &input,
            frontmost_events: &focus,
            wifi_events: &wifi,
        },
        &groups,
        ws,
        we,
        init(),
    );
    let b = build_timeline(
        TimelineInputs {
            bl_events: &bl2,
            screen_events: &screen,
            input_events: &input2,
            frontmost_events: &focus,
            wifi_events: &wifi2,
        },
        &groups,
        ws,
        we,
        init(),
    );
    assert!(!a.is_empty());
    assert_eq!(a, b);
}
