use activity::biome::{correlate_with_biome, sightings_of, WifiSession};

fn session(first: i64, last: i64, ssid: &str) -> WifiSession {
    WifiSession { first_ms: first, last_ms: last, ssid: ssid.to_string() }
}

fn rows(v: &[(i64, &str)]) -> Vec<(i64, String)> {
    v.iter().map(|(t, s)| (*t, s.to_string())).collect()
}

fn owned(v: &[(&str, &str)]) -> Vec<(String, String)> {
    v.iter().map(|(a, b)| (a.to_string(), b.to_string())).collect()
}

#[test]
fn correlate_records_identities_and_pairs() {
    let sessions = vec![session(1_000, 100_000, "corp")];
    let ip = rows(&[(2_000, "10.0.1.0/24"), (3_000, "10.0.0.0/24"), (4_000, "10.0.1.0/24"), (500_000, "10.9.0.0/24")]);
    let c = correlate_with_biome(&sessions, &ip);
    assert_eq!(c.identities, owned(&[("corp", "10.0.1.0/24"), ("corp", "10.0.0.0/24")]));
    assert_eq!(
        c.cooccurring,
        owned(&[
            ("10.0.0.0/24", "10.0.1.0/24"),
            ("10.0.0.0/24", "10.0.1.0/24"),
            ("10.0.0.0/24", "10.0.1.0/24"),
        ])
    );
}

#[test]
fn correlate_without_sessions_records_nothing() {
    let c = correlate_with_biome(&[], &rows(&[(1, "a"), (2, "b")]));
    assert!(c.identities.is_empty());
    assert!(c.cooccurring.is_empty());
}

#[test]
fn short_session_lasts_a_minute() {
    let sessions = vec![session(0, 0, "net")];
    let m = sightings_of(&sessions, &rows(&[(30_000, "s"), (60_000, "t"), (60_001, "u")]));
    let subnets: Vec<&str> = m.iter().map(|s| s.subnet.as_str()).collect();
    assert_eq!(subnets, vec!["s", "t"]);
}

#[test]
fn row_matches_last_started_session() {
    let sessions = vec![session(0, 10_000, "a"), session(5_000, 6_000, "b")];
    let m = sightings_of(&sessions, &rows(&[(8_000, "x"), (1_000, "y")]));
    assert_eq!(m.len(), 2);
    assert_eq!(m[0].ssid, "b");
    assert_eq!(m[0].session_first_ms, 5_000);
    assert_eq!(m[1].ssid, "a");
}

#[test]
fn window_pairs_need_same_network_and_ten_minutes() {
    let sessions = vec![session(0, 1_000, "n1"), session(100_000, 101_000, "n1"), session(200_000, 201_000, "n2")];
    let ip = rows(&[(500, "a"), (100_500, "b"), (200_500, "c"), (900_000, "d")]);
    let c = correlate_with_biome(&sessions, &ip);
    assert_eq!(c.identities, owned(&[("n1", "a"), ("n1", "b"), ("n2", "c")]));
    assert_eq!(c.cooccurring, owned(&[("a", "b")]));
}

#[test]
fn window_stops_at_first_late_sighting() {
    let sessions = vec![session(0, 2_000_000, "n")];
    let ip = rows(&[(0, "a"), (700_000, "b"), (800_000, "a")]);
    let c = correlate_with_biome(&sessions, &ip);
    // one session: pair (a, b) once from the session; window from 0 stops at 700_000;
    // window from 700_000 pairs b with a at 800_000.
    assert_eq!(c.cooccurring, owned(&[("a", "b"), ("a", "b")]));
}
