use fish_session::protocol::SessionInfo;
use fish_session::ui::naming::{
    after_draw, draw_limit, fallback_session_name, max_attempts, name_is_taken, next_session_name,
    pick_unique_candidate, sanitize_session_name, suggest_session_name,
    suggest_session_name_from_candidates, DrawStep,
};

fn named(names: &[&str]) -> Vec<SessionInfo> {
    names
        .iter()
        .map(|name| SessionInfo {
            name: name.to_string(),
            cwd: "/tmp".to_string(),
            pid: 1,
            attached: false,
        })
        .collect()
}

#[test]
fn sanitize_name_normalizes_symbols() {
    assert_eq!(sanitize_session_name("My Project!!"), "my-project");
    assert_eq!(sanitize_session_name("api_v2"), "api_v2");
}

#[test]
fn next_name_appends_suffix_on_collision() {
    let sessions = vec![
        SessionInfo {
            name: "project".to_string(),
            cwd: "/tmp/a".to_string(),
            pid: 1,
            attached: false,
        },
        SessionInfo {
            name: "project-2".to_string(),
            cwd: "/tmp/b".to_string(),
            pid: 2,
            attached: false,
        },
    ];

    let next = next_session_name("/home/vincent/Code/project", &sessions);
    assert_eq!(next, "project-3");
}

#[test]
fn suggested_name_skips_existing_candidates() {
    let sessions = vec![SessionInfo {
        name: "calm-cloud".to_string(),
        cwd: "/tmp".to_string(),
        pid: 1,
        attached: false,
    }];
    let candidates = vec!["calm-cloud".to_string(), "vivid-river".to_string()];

    let suggested = suggest_session_name_from_candidates(&sessions, &candidates, 10);
    assert_eq!(suggested, "vivid-river");
}

#[test]
fn suggested_name_falls_back_when_candidates_exhausted() {
    let sessions = vec![
        SessionInfo {
            name: "taken".to_string(),
            cwd: "/tmp".to_string(),
            pid: 1,
            attached: false,
        },
        SessionInfo {
            name: "session".to_string(),
            cwd: "/tmp".to_string(),
            pid: 1,
            attached: false,
        },
        SessionInfo {
            name: "session-2".to_string(),
            cwd: "/tmp".to_string(),
            pid: 1,
            attached: false,
        },
    ];
    let candidates = vec!["taken".to_string(), "taken".to_string()];

    let suggested = suggest_session_name_from_candidates(&sessions, &candidates, 2);
    assert_eq!(suggested, "session-3");
}

#[test]
fn suggested_name_uses_names_crate_style_when_available() {
    let sessions = vec![SessionInfo {
        name: "alpha".to_string(),
        cwd: "/tmp".to_string(),
        pid: 1,
        attached: false,
    }];

    let suggested = suggest_session_name(&sessions);
    assert!(suggested.contains('-'));
    assert!(!suggested.is_empty());
    assert_ne!(suggested, "alpha");
}

#[test]
fn made_names_are_clean_and_stay() {
    for raw in ["--A  b--", "äöü", "x__Y-z", "...", "-", "a\u{301}b", "___", "A!!!!B"] {
        let clean = sanitize_session_name(raw);
        assert!(clean.chars().all(|c| {
            c.is_ascii_lowercase() || c.is_ascii_digit() || c == '-' || c == '_'
        }));
        assert!(!clean.starts_with('-') && !clean.ends_with('-'));
        assert_eq!(sanitize_session_name(&clean), clean);
    }
    assert_eq!(sanitize_session_name("--A  b--"), "a-b");
    assert_eq!(sanitize_session_name("äöü"), "");
    assert_eq!(sanitize_session_name("a-!b"), "a--b");
}

#[test]
fn directories_give_names() {
    assert_eq!(next_session_name("/srv/My App/", &named(&[])), "my-app");
    assert_eq!(next_session_name("/", &named(&[])), "session");
    assert_eq!(next_session_name("/srv/...", &named(&["session"])), "session-2");
    assert_eq!(next_session_name("/a/..", &named(&[])), "session");
    let taken = ["p", "p-2", "p-3", "p-4", "p-5", "p-6", "p-7", "p-8", "p-9", "p-10"];
    assert_eq!(next_session_name("/p", &named(&taken)), "p-11");
}

#[test]
fn only_so_many_candidates_are_tried() {
    let sessions = named(&["a"]);
    let candidates = vec!["a".to_string(), "b".to_string()];
    assert_eq!(pick_unique_candidate(&sessions, &candidates, 2), Some(1));
    assert_eq!(pick_unique_candidate(&sessions, &candidates, 1), None);
    assert_eq!(suggest_session_name_from_candidates(&sessions, &candidates, 1), "session");
    assert_eq!(fallback_session_name(&named(&["session", "session-3"])), "session-2");
    assert!(name_is_taken(&sessions, "a"));
    assert!(!name_is_taken(&sessions, "b"));
}

#[test]
fn attempts_stay_within_bounds() {
    assert_eq!(max_attempts(0, 0), 64);
    assert_eq!(max_attempts(10, 10), 200);
    assert_eq!(max_attempts(1000, 1000), 50_000);
    assert_eq!(max_attempts(usize::MAX, usize::MAX), 50_000);
}

#[test]
fn generated_names_have_their_form() {
    for _ in 0..50 {
        let name = suggest_session_name(&[]);
        let (adjective, noun) = name.split_once('-').unwrap();
        assert!(!adjective.is_empty() && !noun.is_empty());
        assert!(name.chars().all(|c| c.is_ascii_lowercase() || c == '-'));
    }
    assert!(names::ADJECTIVES.iter().all(|word| {
        !word.is_empty() && word.chars().all(|c| c.is_ascii_lowercase() || c == '-')
    }));
    assert!(names::NOUNS.iter().all(|word| {
        !word.is_empty() && word.chars().all(|c| c.is_ascii_lowercase() || c == '-')
    }));
}

#[test]
fn names_are_drawn_until_one_is_free() {
    let sessions = named(&["calm-cloud"]);
    let draw = |name: &str, left| after_draw(&sessions, name.to_string(), left);
    assert!(matches!(draw("vivid-river", 1), DrawStep::Take(name) if name == "vivid-river"));
    assert!(matches!(draw("calm-cloud", 3), DrawStep::Again(2)));
    assert!(matches!(draw("calm-cloud", 1), DrawStep::FallBack));
}

#[test]
fn the_word_lists_allow_for_many_draws() {
    assert_eq!((names::ADJECTIVES.len(), names::NOUNS.len()), (1124, 981));
    assert_eq!(draw_limit(), 50_000);
    assert_eq!(draw_limit(), max_attempts(names::ADJECTIVES.len(), names::NOUNS.len()));
}
