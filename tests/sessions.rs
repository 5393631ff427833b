use wakalyze::active_time::estimate_seconds;
use wakalyze::heartbeats::{extract_entries, HeartbeatEntry, RawHeartbeat};
use wakalyze::sessions::{build_sessions, Session, DEFAULT_MAX_GAP_SECONDS};

const GAP: i64 = DEFAULT_MAX_GAP_SECONDS;

fn hb(time: f64, project: &str) -> RawHeartbeat {
    RawHeartbeat {
        time: Some(time as i64),
        project: Some(project.to_string()),
    }
}

#[test]
fn estimate_seconds_empty() {
    assert_eq!(estimate_seconds(&[], GAP), 0);
}

#[test]
fn estimate_seconds_single() {
    assert_eq!(estimate_seconds(&[100], GAP), 0);
}

#[test]
fn estimate_seconds_within_gap() {
    assert_eq!(estimate_seconds(&[100, 200], GAP), 100);
}

#[test]
fn estimate_seconds_exceeds_gap() {
    assert_eq!(estimate_seconds(&[100, 100 + 15 * 60 + 1], GAP), 0);
}

#[test]
fn estimate_seconds_exact_gap_limit() {
    assert_eq!(estimate_seconds(&[100, 100 + 15 * 60], GAP), 15 * 60);
}

#[test]
fn estimate_seconds_duplicates_ignored() {
    assert_eq!(estimate_seconds(&[100, 100, 200], GAP), 100);
}

#[test]
fn estimate_seconds_multiple_segments() {
    assert_eq!(estimate_seconds(&[100, 200, 300], GAP), 200);
}

#[test]
fn estimate_seconds_unsorted_with_repeats() {
    assert_eq!(estimate_seconds(&[300, 100, 200, 100, 300], GAP), 200);
    assert_eq!(estimate_seconds(&[5000, 100, 200], GAP), 100);
    assert_eq!(estimate_seconds(&[100, 200], 0), 0);
}

#[test]
fn extract_entries_empty() {
    assert_eq!(extract_entries(&[]), Vec::<HeartbeatEntry>::new());
}

#[test]
fn extract_entries_valid() {
    let heartbeats = vec![hb(200.0, "foo"), hb(100.0, "bar")];
    let result = extract_entries(&heartbeats);
    assert_eq!(
        result,
        vec![
            HeartbeatEntry {
                time: 100,
                project: Some("bar".into())
            },
            HeartbeatEntry {
                time: 200,
                project: Some("foo".into())
            },
        ]
    );
}

#[test]
fn extract_entries_skips_missing_time() {
    let heartbeats = vec![RawHeartbeat {
        time: None,
        project: Some("foo".into()),
    }];
    assert_eq!(extract_entries(&heartbeats), Vec::<HeartbeatEntry>::new());
}

#[test]
fn extract_entries_float_time() {
    let heartbeats = vec![hb(100.5, "foo")];
    let result = extract_entries(&heartbeats);
    assert_eq!(
        result,
        vec![HeartbeatEntry {
            time: 100,
            project: Some("foo".into())
        }]
    );
}

#[test]
fn extract_entries_empty_project_becomes_none() {
    let heartbeats = vec![RawHeartbeat {
        time: Some(100),
        project: Some("  ".into()),
    }];
    let result = extract_entries(&heartbeats);
    assert_eq!(
        result,
        vec![HeartbeatEntry {
            time: 100,
            project: None
        }]
    );
}

#[test]
fn extract_entries_missing_project_becomes_none() {
    let heartbeats = vec![RawHeartbeat {
        time: Some(100),
        project: None,
    }];
    let result = extract_entries(&heartbeats);
    assert_eq!(
        result,
        vec![HeartbeatEntry {
            time: 100,
            project: None
        }]
    );
}

#[test]
fn extract_entries_stable_and_untrimmed() {
    let heartbeats = vec![hb(200.0, " b "), hb(100.0, "x"), hb(200.0, "a"), hb(50.0, "\t")];
    let result = extract_entries(&heartbeats);
    let got: Vec<(i64, Option<String>)> = result.into_iter().map(|e| (e.time, e.project)).collect();
    assert_eq!(
        got,
        vec![
            (50, None),
            (100, Some("x".to_string())),
            (200, Some(" b ".to_string())),
            (200, Some("a".to_string())),
        ]
    );
}

#[test]
fn build_sessions_empty() {
    assert_eq!(build_sessions(&[], GAP), Vec::<Session>::new());
}

#[test]
fn build_sessions_single_heartbeat() {
    let heartbeats = vec![hb(1000.0, "foo")];
    let sessions = build_sessions(&heartbeats, GAP);
    assert_eq!(sessions.len(), 1);
    assert_eq!(sessions[0].start, 1000);
    assert_eq!(sessions[0].end, 1000);
    assert_eq!(sessions[0].seconds, 0);
    assert_eq!(sessions[0].project, Some("foo".into()));
}

#[test]
fn build_sessions_two_heartbeats_same_session() {
    let heartbeats = vec![hb(1000.0, "foo"), hb(1300.0, "foo")];
    let sessions = build_sessions(&heartbeats, GAP);
    assert_eq!(sessions.len(), 1);
    assert_eq!(sessions[0].start, 1000);
    assert_eq!(sessions[0].end, 1300);
    assert_eq!(sessions[0].seconds, 300);
}

#[test]
fn build_sessions_project_change_splits() {
    let heartbeats = vec![hb(1000.0, "foo"), hb(1300.0, "bar")];
    let sessions = build_sessions(&heartbeats, GAP);
    assert_eq!(sessions.len(), 2);
    assert_eq!(sessions[0].project, Some("foo".into()));
    assert_eq!(sessions[1].project, Some("bar".into()));
}

#[test]
fn build_sessions_gap_splits() {
    let heartbeats = vec![hb(1000.0, "foo"), hb((1000 + 15 * 60 + 1) as f64, "foo")];
    let sessions = build_sessions(&heartbeats, GAP);
    assert_eq!(sessions.len(), 2);
}

#[test]
fn build_sessions_duplicate_timestamps_skipped() {
    let heartbeats = vec![hb(1000.0, "foo"), hb(1000.0, "foo"), hb(1300.0, "foo")];
    let sessions = build_sessions(&heartbeats, GAP);
    assert_eq!(sessions.len(), 1);
    assert_eq!(sessions[0].start, 1000);
    assert_eq!(sessions[0].end, 1300);
    assert_eq!(sessions[0].seconds, 300);
}

#[test]
fn build_sessions_gap_over_threshold_gives_single_points() {
    let heartbeats = vec![hb(1000.0, "foo"), hb((1000 + GAP + 1) as f64, "foo")];
    let sessions = build_sessions(&heartbeats, GAP);
    assert_eq!(
        sessions,
        vec![
            Session { start: 1000, end: 1000, seconds: 0, project: Some("foo".into()) },
            Session { start: 1000 + GAP + 1, end: 1000 + GAP + 1, seconds: 0, project: Some("foo".into()) },
        ]
    );
    let at_limit = vec![hb(1000.0, "foo"), hb((1000 + GAP) as f64, "foo")];
    assert_eq!(build_sessions(&at_limit, GAP).len(), 1);
}

#[test]
fn build_sessions_duplicate_time_keeps_first_project() {
    // The second heartbeat at 1000 is skipped, so the session keeps "foo" and "bar" at 1100
    // starts a new one.
    let heartbeats = vec![hb(1000.0, "foo"), hb(1000.0, "bar"), hb(1100.0, "bar")];
    let sessions = build_sessions(&heartbeats, GAP);
    assert_eq!(
        sessions,
        vec![
            Session { start: 1000, end: 1000, seconds: 0, project: Some("foo".into()) },
            Session { start: 1100, end: 1100, seconds: 0, project: Some("bar".into()) },
        ]
    );
}

#[test]
fn build_sessions_untagged_heartbeats_join() {
    let heartbeats = vec![
        RawHeartbeat { time: Some(100), project: None },
        RawHeartbeat { time: Some(200), project: Some(" ".into()) },
        RawHeartbeat { time: None, project: Some("x".into()) },
        RawHeartbeat { time: Some(400), project: Some("x".into()) },
        RawHeartbeat { time: Some(700), project: Some("x".into()) },
    ];
    let sessions = build_sessions(&heartbeats, GAP);
    assert_eq!(
        sessions,
        vec![
            Session { start: 100, end: 200, seconds: 100, project: None },
            Session { start: 400, end: 700, seconds: 300, project: Some("x".into()) },
        ]
    );
}

#[test]
fn build_sessions_non_positive_gap_gives_points() {
    let heartbeats = vec![hb(100.0, "foo"), hb(101.0, "foo"), hb(101.0, "foo")];
    let sessions = build_sessions(&heartbeats, 0);
    assert_eq!(
        sessions,
        vec![
            Session { start: 100, end: 100, seconds: 0, project: Some("foo".into()) },
            Session { start: 101, end: 101, seconds: 0, project: Some("foo".into()) },
        ]
    );
}
