use activity::grouping::{build_location_groups, resolve_location_clusters};
use activity::location::{cluster_at, SignalPeriod};
use activity::rto::{office_subnet_periods, rto_data_of, subnet_of};
use activity::types::LocationGroups;

fn pairs(v: &[(&str, &str)]) -> Vec<(String, String)> {
    v.iter().map(|(a, b)| (a.to_string(), b.to_string())).collect()
}

fn period(start: i64, end: i64, signal: &str) -> SignalPeriod {
    SignalPeriod { start_ms: start, end_ms: end, signal: signal.to_string() }
}

#[test]
fn resolve_clusters_merges_a_pair() {
    let groups = resolve_location_clusters(&pairs(&[("duet:aaa", "subnet:10.0.0.0/24")]));
    assert_eq!(cluster_at(&groups, "duet:aaa"), "duet:aaa");
    assert_eq!(cluster_at(&groups, "subnet:10.0.0.0/24"), "duet:aaa");
    assert_eq!(groups.pairs.len(), 2);
}

#[test]
fn resolve_clusters_without_pairs_keeps_signals_apart() {
    let groups = resolve_location_clusters(&[]);
    assert!(groups.pairs.is_empty());
    assert_ne!(
        cluster_at(&groups, "duet:aaa"),
        cluster_at(&groups, "subnet:10.0.0.0/24")
    );
}

#[test]
fn resolve_clusters_prefers_duet_then_lexicographic() {
    let groups = resolve_location_clusters(&pairs(&[
        ("subnet:10.0.1.0/24", "subnet:10.0.0.0/24"),
        ("subnet:10.0.1.0/24", "duet:zzz"),
        ("duet:bbb", "duet:ccc"),
    ]));
    assert_eq!(cluster_at(&groups, "subnet:10.0.0.0/24"), "duet:zzz");
    assert_eq!(cluster_at(&groups, "subnet:10.0.1.0/24"), "duet:zzz");
    assert_eq!(cluster_at(&groups, "duet:zzz"), "duet:zzz");
    assert_eq!(cluster_at(&groups, "duet:ccc"), "duet:bbb");
    assert_eq!(cluster_at(&groups, "duet:bbb"), "duet:bbb");
}

#[test]
fn resolve_clusters_joins_two_groups() {
    let groups = resolve_location_clusters(&pairs(&[
        ("duet:b", "subnet:1"),
        ("duet:a", "subnet:2"),
        ("subnet:1", "subnet:2"),
    ]));
    for s in ["duet:a", "duet:b", "subnet:1", "subnet:2"] {
        assert_eq!(cluster_at(&groups, s), "duet:a");
    }
}

#[test]
fn build_location_groups_uses_smallest_subnet() {
    let groups = build_location_groups(
        &pairs(&[("10.0.1.0/24", "10.0.0.0/24"), ("10.0.2.0/24", "10.0.1.0/24")]),
        &["10.0.2.0/24".to_string(), "192.168.1.0/24".to_string(), "10.0.0.0/24".to_string()],
    );
    assert_eq!(groups.pairs.len(), 3);
    assert_eq!(cluster_at(&groups, "10.0.2.0/24"), "10.0.0.0/24");
    assert_eq!(cluster_at(&groups, "192.168.1.0/24"), "192.168.1.0/24");
    assert_eq!(cluster_at(&groups, "10.0.0.0/24"), "10.0.0.0/24");
}

#[test]
fn build_location_groups_lists_each_subnet_once() {
    let groups = build_location_groups(&[], &["a".to_string(), "a".to_string()]);
    assert_eq!(groups.pairs, vec![("a".to_string(), "a".to_string())]);
}

#[test]
fn subnet_of_signal() {
    assert_eq!(subnet_of("subnet:10.0.0.0/24"), "10.0.0.0/24");
    assert_eq!(subnet_of("duet:abc"), "");
    assert_eq!(subnet_of("subnet:"), "");
}

#[test]
fn office_subnet_periods_keeps_office_subnets() {
    let all = vec![
        period(1, 2, "subnet:10.0.0.0/24"),
        period(3, 4, "subnet:192.168.1.0/24"),
        period(5, 6, "subnet:10.0.0.0/24"),
    ];
    let office = office_subnet_periods(&all, &vec!["10.0.0.0/24".to_string()]);
    assert_eq!(office.len(), 2);
    assert_eq!(office[0].start_ms, 1);
    assert_eq!(office[1].start_ms, 5);
}

#[test]
fn rto_data_locates_and_sorts_blocks() {
    let clusters = LocationGroups {
        pairs: pairs(&[("subnet:a", "duet:x"), ("duet:x", "duet:x")]),
    };
    let evidence = vec![(1i64, 2i64, "subnet:a".to_string())];
    let duet = vec![period(10, 20, "duet:y")];
    let office = vec![period(5, 15, "subnet:a"), period(10, 12, "subnet:a")];
    let data = rto_data_of(&evidence, &duet, &office, &clusters, Some("duet:x".to_string()));
    assert_eq!(data.blocks.len(), 1);
    assert_eq!(data.blocks[0].location, "duet:x");
    let got: Vec<(i64, i64, String)> =
        data.all_periods.iter().map(|b| (b.first_ms, b.last_ms, b.location.clone())).collect();
    assert_eq!(
        got,
        vec![
            (5, 15, "duet:x".to_string()),
            (10, 20, "duet:y".to_string()),
            (10, 12, "duet:x".to_string()),
        ]
    );
    assert_eq!(data.dominant_id.as_deref(), Some("duet:x"));
    assert_eq!(data.other_ids, vec!["duet:y".to_string()]);
}

#[test]
fn rto_other_ids_are_sorted_and_distinct() {
    let clusters = LocationGroups { pairs: vec![] };
    let evidence = vec![
        (1i64, 2i64, "duet:c".to_string()),
        (3, 4, "duet:a".to_string()),
        (5, 6, "subnet:z".to_string()),
        (7, 8, "duet:c".to_string()),
    ];
    let data = rto_data_of(&evidence, &[], &[], &clusters, None);
    assert_eq!(data.other_ids, vec!["duet:a".to_string(), "duet:c".to_string()]);
}
