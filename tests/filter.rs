use wakalyze::calendar::Date;
use wakalyze::filter::{contains_any, filter_sessions, DaySessions};
use wakalyze::sessions::Session;

fn feb(day: u32) -> Date {
    Date { year: 2026, month: 2, day }
}

fn session(start: i64, project: Option<&str>) -> Session {
    Session {
        start,
        end: start + 1,
        seconds: 1,
        project: project.map(|p| p.to_string()),
    }
}

#[test]
fn filter_sessions_none_returns_all() {
    let days = vec![DaySessions {
        date: feb(1),
        sessions: vec![session(1, Some("foo"))],
    }];
    assert_eq!(filter_sessions(&days, None), days);
}

#[test]
fn filter_sessions_empty_returns_all() {
    let days = vec![DaySessions {
        date: feb(1),
        sessions: vec![session(1, Some("foo"))],
    }];
    assert_eq!(filter_sessions(&days, Some("")), days);
}

#[test]
fn filter_sessions_matches_substring() {
    let days = vec![DaySessions {
        date: feb(1),
        sessions: vec![session(1, Some("my-project")), session(3, Some("other"))],
    }];
    let result = filter_sessions(&days, Some("proj"));
    assert_eq!(result.len(), 1);
    assert_eq!(result[0].sessions.len(), 1);
    assert_eq!(result[0].sessions[0].project, Some("my-project".into()));
}

#[test]
fn filter_sessions_case_insensitive() {
    let days = vec![DaySessions {
        date: feb(1),
        sessions: vec![session(1, Some("MyProject"))],
    }];
    let result = filter_sessions(&days, Some("myproject"));
    assert_eq!(result.len(), 1);
}

#[test]
fn filter_sessions_comma_separated_match_any() {
    let days = vec![DaySessions {
        date: feb(1),
        sessions: vec![
            session(1, Some("foo")),
            session(3, Some("bar")),
            session(5, Some("baz")),
        ],
    }];
    let result = filter_sessions(&days, Some("foo,bar"));
    assert_eq!(result.len(), 1);
    let projects: Vec<_> = result[0].sessions.iter().map(|s| s.project.clone()).collect();
    assert_eq!(projects, vec![Some("foo".into()), Some("bar".into())]);
}

#[test]
fn filter_sessions_comma_separated_trimmed() {
    let days = vec![DaySessions {
        date: feb(1),
        sessions: vec![session(1, Some("bar"))],
    }];
    let result = filter_sessions(&days, Some(" , bar , "));
    assert_eq!(result.len(), 1);
}

#[test]
fn filter_sessions_removes_empty_days() {
    let days = vec![DaySessions {
        date: feb(1),
        sessions: vec![session(1, Some("foo"))],
    }];
    let result = filter_sessions(&days, Some("bar"));
    assert!(result.is_empty());
}

#[test]
fn filter_sessions_without_terms_keeps_empty_days() {
    let days = vec![
        DaySessions { date: feb(1), sessions: vec![] },
        DaySessions { date: feb(2), sessions: vec![session(1, None)] },
    ];
    assert_eq!(filter_sessions(&days, None), days);
    assert_eq!(filter_sessions(&days, Some("")), days);
    assert_eq!(filter_sessions(&days, Some(" , ,")), days);
}

#[test]
fn filter_sessions_keeps_order_and_drops_untagged() {
    let days = vec![
        DaySessions {
            date: feb(1),
            sessions: vec![session(1, Some("Alpha")), session(3, None), session(5, Some("beta-2"))],
        },
        DaySessions { date: feb(2), sessions: vec![session(7, Some("gamma"))] },
        DaySessions { date: feb(3), sessions: vec![session(9, Some("BETA"))] },
    ];
    let result = filter_sessions(&days, Some(" ALPHA ,Beta"));
    assert_eq!(
        result,
        vec![
            DaySessions {
                date: feb(1),
                sessions: vec![session(1, Some("Alpha")), session(5, Some("beta-2"))],
            },
            DaySessions { date: feb(3), sessions: vec![session(9, Some("BETA"))] },
        ]
    );
}

#[test]
fn contains_any_needs_one_term() {
    let terms = vec!["foo".to_string(), "ar".to_string()];
    assert!(contains_any("my-bar", &terms));
    assert!(contains_any("food", &terms));
    assert!(!contains_any("Foo", &terms));
    assert!(!contains_any("anything", &Vec::new()));
}
