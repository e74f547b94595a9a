use activity::location::{
    clip_duet_to_office_subnets, cluster_at, co_occurrences, order_signals, subnet_periods_from,
    SignalPeriod,
};
use activity::types::LocationGroups;

#[test]
fn duet_before_subnet() {
    let pair = order_signals("subnet:10.0.0.0/24", "duet:abc");
    assert_eq!(pair[0], "duet:abc");
    assert_eq!(pair[1], "subnet:10.0.0.0/24");
}

#[test]
fn lex_within_same_prefix_duet() {
    let pair = order_signals("duet:zzz", "duet:aaa");
    assert_eq!(pair[0], "duet:aaa");
    assert_eq!(pair[1], "duet:zzz");
}

#[test]
fn lex_within_same_prefix_subnet() {
    let pair = order_signals("subnet:192.168.0.0/16", "subnet:10.0.0.0/8");
    assert_eq!(pair[0], "subnet:10.0.0.0/8");
    assert_eq!(pair[1], "subnet:192.168.0.0/16");
}

#[test]
fn already_sorted_duet_first() {
    let pair = order_signals("duet:abc", "subnet:10.0.0.0/24");
    assert_eq!(pair[0], "duet:abc");
    assert_eq!(pair[1], "subnet:10.0.0.0/24");
}

#[test]
fn order_signals_is_symmetric() {
    let a = order_signals("duet:x", "duet:y");
    let b = order_signals("duet:y", "duet:x");
    assert_eq!(a, b);
}

#[test]
fn cluster_at_known_signal() {
    let clusters = LocationGroups {
        pairs: vec![("subnet:10.0.0.0/24".to_string(), "duet:abc".to_string())],
    };
    assert_eq!(cluster_at(&clusters, "subnet:10.0.0.0/24"), "duet:abc");
}

#[test]
fn cluster_at_unknown_signal() {
    let clusters = LocationGroups { pairs: vec![] };
    assert_eq!(cluster_at(&clusters, "subnet:10.0.0.0/24"), "subnet:10.0.0.0/24");
}

fn period(start_ms: i64, end_ms: i64, signal: &str) -> SignalPeriod {
    SignalPeriod { start_ms, end_ms, signal: signal.to_string() }
}

#[test]
fn clip_duet_keeps_overlaps_only() {
    let duet = vec![period(0, 100, "duet:a"), period(200, 300, "duet:b")];
    let office = vec![period(50, 80, "subnet:x"), period(90, 250, "subnet:x"), period(400, 500, "subnet:x")];
    let clipped = clip_duet_to_office_subnets(&duet, &office);
    let got: Vec<(i64, i64, String)> =
        clipped.iter().map(|p| (p.start_ms, p.end_ms, p.signal.clone())).collect();
    assert_eq!(
        got,
        vec![
            (50, 80, "duet:a".to_string()),
            (90, 100, "duet:a".to_string()),
            (200, 250, "duet:b".to_string()),
        ]
    );
}

#[test]
fn subnet_periods_skip_empty_subnets() {
    let rows = vec![(10, "10.0.0.0/24".to_string()), (20, String::new()), (30, "10.1.0.0/24".to_string())];
    let ps = subnet_periods_from(&rows, 99);
    let got: Vec<(i64, i64, String)> = ps.iter().map(|p| (p.start_ms, p.end_ms, p.signal.clone())).collect();
    assert_eq!(
        got,
        vec![(10, 20, "subnet:10.0.0.0/24".to_string()), (30, 99, "subnet:10.1.0.0/24".to_string())]
    );
}

#[test]
fn co_occurrences_pairs_overlaps() {
    let duet = vec![period(0, 100, "duet:a")];
    let subnets = vec![period(50, 150, "subnet:x"), period(200, 300, "subnet:y")];
    let pairs = co_occurrences(&duet, &subnets, 10, 0);
    assert_eq!(pairs.len(), 1);
    assert_eq!(pairs[0].signal_a, "duet:a");
    assert_eq!(pairs[0].signal_b, "subnet:x");
    assert_eq!(pairs[0].overlap_ms, 50);
    assert_eq!(pairs[0].last_seen_ms, 100);
}

#[test]
fn duet_periods_last_until_next_anchor() {
    let anchors = vec![(1_000i64, "aaa".to_string()), (5_000, "bbb".to_string())];
    let periods = activity::location::duet_periods_from(&anchors, 9_000);
    let got: Vec<(i64, i64, String)> =
        periods.iter().map(|p| (p.start_ms, p.end_ms, p.signal.clone())).collect();
    assert_eq!(
        got,
        vec![(1_000, 5_000, "duet:aaa".to_string()), (5_000, 9_000, "duet:bbb".to_string())]
    );
}
