use fish_session::paths::Place;
use fish_session::protocol::SessionInfo;
use fish_session::ui::zoxide::{
    fuzzy_filter, fuzzy_match, fuzzy_term, order_by, parse_scored_zoxide_line, query_failure,
    scored_lines, session_at, terms_of, total_order, zoxide_rank_for_path, SortKey, TermMatch, TermStep,
    ZoxideEntry,
};

fn term_score(found: &TermMatch) -> f64 {
    let mut score = 0.0;
    for step in &found.steps {
        score += 1.0;
        if step.boundary {
            score += 0.8;
        }
        match step.distance {
            Some(1) => score += 1.5,
            Some(distance) => score -= ((distance - 1) as f64 * 0.02).min(0.8),
            None => {}
        }
        score -= ((step.found as f64) * 0.005).min(0.7);
    }
    score += found.term_len as f64 / found.candidate_len.max(1) as f64 * 2.0;
    score.max(0.0)
}

fn totals(query: &str, entries: &[ZoxideEntry]) -> Vec<u64> {
    entries
        .iter()
        .map(|entry| {
            let fuzzy: f64 = match fuzzy_match(query, &entry.path) {
                Some(found) => found.iter().map(term_score).sum(),
                None => 0.0,
            };
            (f64::from_bits(entry.zoxide_score) + fuzzy * 100.0).to_bits()
        })
        .collect()
}

fn entry(path: &str, score: f64) -> ZoxideEntry {
    ZoxideEntry { path: path.to_string(), zoxide_score: score.to_bits() }
}

fn found_paths(query: &str, entries: &[ZoxideEntry], limit: usize) -> Vec<String> {
    let scores = totals(query, entries);
    fuzzy_filter(query, entries, &scores, limit).into_iter().map(|m| m.path).collect()
}

#[test]
fn parse_scored_line_extracts_score_and_path() {
    let parsed = parse_scored_zoxide_line("  32.2 /home/vincent/Code/delv3").unwrap();
    assert_eq!(parsed.0.parse::<f64>().unwrap(), 32.2);
    assert_eq!(parsed.1, "/home/vincent/Code/delv3");
}

#[test]
fn fuzzy_filter_prioritizes_fuzzy_match() {
    let entries = vec![
        entry("/home/vincent/Code/alpha-service", 1000.0),
        entry("/home/vincent/Code/codex", 50.0),
    ];

    let scores = totals("cdx", &entries);
    let results = fuzzy_filter("cdx", &entries, &scores, 10);
    assert_eq!(results.first().unwrap().path, "/home/vincent/Code/codex");
}

#[test]
fn lines_without_both_parts_are_skipped() {
    assert!(parse_scored_zoxide_line("").is_none());
    assert!(parse_scored_zoxide_line("12.5").is_none());
    assert!(parse_scored_zoxide_line("12.5   ").is_none());
    let (score, path) = parse_scored_zoxide_line(" 1 /a b \t").unwrap();
    assert_eq!((score.as_str(), path.as_str()), ("1", "/a b"));
    assert_eq!(query_failure(" \n"), "zoxide query failed");
    assert_eq!(query_failure(" no db\n"), "zoxide query failed: no db");
}

#[test]
fn terms_are_lower_case_words() {
    assert_eq!(terms_of("  Foo\tBAR  "), ["foo", "bar"]);
    assert!(terms_of(" \n").is_empty());
}

#[test]
fn a_term_is_found_character_by_character() {
    let found = fuzzy_term("cdx", "/code/x").unwrap();
    assert_eq!(
        found.steps,
        [
            TermStep { found: 1, boundary: true, distance: None },
            TermStep { found: 3, boundary: false, distance: Some(2) },
            TermStep { found: 6, boundary: true, distance: Some(3) },
        ]
    );
    assert_eq!((found.term_len, found.candidate_len), (3, 7));
    assert!(fuzzy_term("xc", "/code/x").is_none());
    assert!(fuzzy_term("", "abc").unwrap().steps.is_empty());
}

#[test]
fn places_are_counted_in_bytes() {
    let found = fuzzy_term("äb", "/ä€b").unwrap();
    assert_eq!(
        found.steps,
        [
            TermStep { found: 1, boundary: true, distance: None },
            TermStep { found: 6, boundary: true, distance: Some(5) },
        ]
    );
}

#[test]
fn every_term_must_be_found() {
    assert_eq!(fuzzy_match("Co AL", "/Code/Alpha").unwrap().len(), 2);
    assert!(fuzzy_match("co zz", "/code/alpha").is_none());
    assert_eq!(fuzzy_match("  ", "/x").unwrap().len(), 0);
}

#[test]
fn scores_are_ordered_as_numbers() {
    let numbers = [
        f64::NEG_INFINITY, -2.5, -1.0, -0.0, 0.0, 1e-300, 1.0, 32.2, 1e300, f64::INFINITY, f64::NAN,
    ];
    for left in numbers {
        for right in numbers {
            assert_eq!(
                total_order(left.to_bits()).cmp(&total_order(right.to_bits())),
                left.total_cmp(&right)
            );
        }
    }
}

#[test]
fn without_a_search_zoxide_decides() {
    let entries =
        [entry("/a", 1.0), entry("/b", 3.0), entry("/c", 3.0), entry("/d", 2.0)];
    assert_eq!(found_paths("", &entries, 10), ["/b", "/c", "/d", "/a"]);
    assert_eq!(found_paths(" ", &entries, 2), ["/b", "/c"]);
    assert!(found_paths("", &entries, 0).is_empty());
    assert!(found_paths("", &[], 10).is_empty());
    assert!(found_paths("zzz", &entries, 10).is_empty());
}

#[test]
fn equal_scores_keep_their_order() {
    let key = |first, second| SortKey { first, second };
    let keys = [key(1, 0), key(2, 5), key(2, 7), key(1, 0), key(2, 5)];
    assert_eq!(order_by(&keys), [2, 1, 4, 0, 3]);
    assert!(order_by(&[]).is_empty());
}

#[test]
fn directories_of_sessions_rank_first() {
    let session = |name: &str| SessionInfo {
        name: name.to_string(),
        cwd: format!("/{name}"),
        pid: 1,
        attached: false,
    };
    let place = |path: &str| Place { path: path.to_string(), canonical: None };
    let sessions = [session("a"), session("b")];
    let places = [place("/a"), place("/b")];
    let active = Some("b".to_string());
    let rank = |path: &str| zoxide_rank_for_path(&sessions, &places, &active, &place(path));
    assert_eq!((rank("/b/"), rank("/a"), rank("/c")), (0, 1, 2));
    assert_eq!(zoxide_rank_for_path(&sessions, &places, &None, &place("/b")), 1);
    assert_eq!(session_at(&places, &place("/b")), Some(1));
    assert_eq!(session_at(&places, &place("/c")), None);
}

#[test]
fn the_answer_is_read_line_by_line() {
    let answer = "  32.2 /a b\r\nno-path\n\n4 /c\n 7\t/d";
    let pair = |score: &str, path: &str| (score.to_string(), path.to_string());
    assert_eq!(
        scored_lines(answer),
        [pair("32.2", "/a b"), pair("4", "/c"), pair("7", "/d")]
    );
    assert!(scored_lines("").is_empty());
    assert!(scored_lines("\n\n").is_empty());
    let from_std: Vec<(String, String)> =
        answer.lines().filter_map(parse_scored_zoxide_line).collect();
    assert_eq!(scored_lines(answer), from_std);
}
