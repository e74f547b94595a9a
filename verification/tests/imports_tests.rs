use activity::config::{cache_base_dir, config_base_dir, config_from_raw, BaseDir, OfficeSection, RawConfig};
use activity::imports::{archive_to_import, knowledge_periods, new_infocus_events, refresh_due};
use activity::orchestrate::{cached_use, date_span, legacy_intervals, needs_legacy, with_fallback};
use activity::cache::CachedIntervals;
use activity::proto::{connection_event, gained_focus_bundle};
use activity::segb::SegbError;
use activity::types::{ActivePeriod, Interval, IntervalLabel, PointFocusEvent};

const MAY_1_2024_UTC_MS: i64 = 1_714_521_600_000;

#[test]
fn archive_dated_at_cutoff_is_imported() {
    assert_eq!(
        archive_to_import("powerlog_2024-05-01_ABCDEF12.PLSQL.gz", MAY_1_2024_UTC_MS).as_deref(),
        Some("2024-05-01_ABCDEF12")
    );
}

#[test]
fn archive_before_cutoff_is_skipped() {
    assert_eq!(archive_to_import("powerlog_2024-05-01_ABCDEF12.PLSQL.gz", MAY_1_2024_UTC_MS + 1), None);
}

#[test]
fn archive_with_bad_name_or_date_is_skipped() {
    assert_eq!(archive_to_import("powerlog_2024-05-01_ABCDEF12.PLSQL", 0), None);
    assert_eq!(archive_to_import("notes.txt", 0), None);
    assert_eq!(archive_to_import("powerlog_notadate__.PLSQL.gz", 0), None);
    assert_eq!(archive_to_import("powerlog_2024-02-30_X.PLSQL.gz", 0), None);
}

#[test]
fn refresh_due_after_ttl() {
    assert!(refresh_due(None, 0, 300_000));
    assert!(!refresh_due(Some(100), 104, 5));
    assert!(refresh_due(Some(100), 105, 5));
}

#[test]
fn new_infocus_events_after_watermark() {
    let events = vec![
        PointFocusEvent { time_ms: 5, bundle_id: "a".to_string() },
        PointFocusEvent { time_ms: 20, bundle_id: "b".to_string() },
        PointFocusEvent { time_ms: 15, bundle_id: "c".to_string() },
    ];
    let (fresh, coverage) = new_infocus_events(&events, 10);
    let ids: Vec<&str> = fresh.iter().map(|e| e.bundle_id.as_str()).collect();
    assert_eq!(ids, vec!["b", "c"]);
    assert_eq!(coverage, Some(20));
    let (none, cov) = new_infocus_events(&events, 20);
    assert!(none.is_empty());
    assert_eq!(cov, None);
}

#[test]
fn knowledge_periods_keep_positive_rows() {
    let rows = vec![
        ("a".to_string(), 10i64, 20i64),
        ("b".to_string(), 30, 30),
        ("c".to_string(), 40, 35),
    ];
    let (periods, coverage) = knowledge_periods(&rows);
    assert_eq!(periods.len(), 1);
    assert_eq!(periods[0].bundle_id, "a");
    assert_eq!((periods[0].first_ms, periods[0].last_ms), (10, 20));
    assert_eq!(coverage, Some(40));
    assert_eq!(knowledge_periods(&[]).1, None);
}

#[test]
fn config_base_prefers_xdg() {
    assert!(matches!(config_base_dir(Some("/x".to_string()), Some("/h".to_string())), Some(BaseDir::Xdg(p)) if p == "/x"));
    assert!(matches!(config_base_dir(Some(String::new()), Some("/h".to_string())), Some(BaseDir::UnderHome(p)) if p == "/h"));
    assert!(config_base_dir(None, None).is_none());
    assert!(config_base_dir(None, Some(String::new())).is_none());
}

#[test]
fn config_needs_non_empty_ssid() {
    let ok = config_from_raw(RawConfig { office: Some(OfficeSection { ssid: Some("corp-wifi".to_string()) }) });
    assert_eq!(ok.map(|c| c.office_ssid), Some("corp-wifi".to_string()));
    assert!(config_from_raw(RawConfig { office: Some(OfficeSection { ssid: None }) }).is_none());
    assert!(config_from_raw(RawConfig { office: Some(OfficeSection { ssid: Some(String::new()) }) }).is_none());
    assert!(config_from_raw(RawConfig { office: None }).is_none());
}

#[test]
fn gained_focus_bundle_decodes() {
    assert_eq!(gained_focus_bundle(1, b"com.apple.Safari").as_deref(), Some("com.apple.Safari"));
    assert_eq!(gained_focus_bundle(0, b"com.apple.Safari"), None);
    assert_eq!(gained_focus_bundle(1, b""), None);
    assert_eq!(gained_focus_bundle(1, &[0xff, 0xfe]), None);
}

#[test]
fn connection_event_needs_ssid_and_order() {
    let e = connection_event(1, 2, Some("net".to_string())).unwrap();
    assert_eq!((e.first_ms, e.last_ms, e.ssid.as_str()), (1, 2, "net"));
    assert!(connection_event(2, 2, Some("net".to_string())).is_none());
    assert!(connection_event(1, 2, Some(String::new())).is_none());
    assert!(connection_event(1, 2, None).is_none());
}

#[test]
fn segb_error_message() {
    assert_eq!(SegbError::Io("denied".to_string()).message(), "I/O error: denied");
}

fn iv(first: i64, last: i64, label: IntervalLabel) -> Interval {
    Interval { first_ms: first, last_ms: last, label, location: None }
}

#[test]
fn cached_use_cases() {
    let final_day = CachedIntervals { provisional: false, intervals: vec![iv(1, 2, IntervalLabel::Active)] };
    let (reused, fallback) = cached_use(Some(final_day.clone()), true);
    assert_eq!(reused.map(|v| v.len()), Some(1));
    assert!(fallback.is_none());
    let (reused, fallback) = cached_use(Some(final_day), false);
    assert!(reused.is_none() && fallback.is_none());
    let provisional = CachedIntervals { provisional: true, intervals: vec![iv(1, 2, IntervalLabel::Active)] };
    let (reused, fallback) = cached_use(Some(provisional), true);
    assert!(reused.is_none());
    assert_eq!(fallback.map(|v| v.len()), Some(1));
    let (reused, fallback) = cached_use(None, true);
    assert!(reused.is_none() && fallback.is_none());
}

#[test]
fn legacy_and_fallback_decisions() {
    let breaks = vec![iv(1, 2, IntervalLabel::Break)];
    let active = vec![iv(1, 2, IntervalLabel::Active)];
    assert!(needs_legacy(&breaks, false));
    assert!(!needs_legacy(&breaks, true));
    assert!(!needs_legacy(&active, false));
    let kept = with_fallback(breaks.clone(), Some(active.clone()));
    assert_eq!(kept[0].label, IntervalLabel::Active);
    let kept = with_fallback(active.clone(), Some(breaks.clone()));
    assert_eq!(kept[0].label, IntervalLabel::Active);
    assert_eq!(with_fallback(breaks.clone(), None)[0].label, IntervalLabel::Break);
    assert!(legacy_intervals(&[]).is_none());
    let ivs = legacy_intervals(&[
        ActivePeriod { first_ms: 10, last_ms: 20 },
        ActivePeriod { first_ms: 30, last_ms: 40 },
    ])
    .unwrap();
    assert_eq!(ivs.len(), 3);
    assert_eq!((ivs[1].first_ms, ivs[1].last_ms, ivs[1].label), (20, 30, IntervalLabel::Break));
}

#[test]
fn date_span_of_dates() {
    let dates = vec!["2026-05-03".to_string(), "2026-04-30".to_string(), "2026-05-10".to_string()];
    assert_eq!(date_span(&dates), Some(("2026-04-30".to_string(), "2026-05-10".to_string())));
    assert_eq!(date_span(&[]), None);
}

#[test]
fn cache_base_falls_back_to_home() {
    assert!(matches!(cache_base_dir(Some("/c".to_string()), Some("/h".to_string())), Some(BaseDir::Xdg(p)) if p == "/c"));
    assert!(matches!(cache_base_dir(None, Some(String::new())), Some(BaseDir::UnderHome(p)) if p.is_empty()));
    assert!(cache_base_dir(Some(String::new()), None).is_none());
}
