use bazooka::desktop::DesktopEntry;
use bazooka::ranking::rank;
use bazooka::search::{best_matches, calculator_result, search, search_with, select_best};
use bazooka::search::within_limit;
use bazooka::search::{SearchResult, MAX_RESULTS, MAX_TEXT_LEN};

fn named(name: &str) -> DesktopEntry {
    DesktopEntry { name: name.to_string(), command: name.to_lowercase(), icon: None, comment: None }
}

fn entries(names: &[&str]) -> Vec<DesktopEntry> {
    names.iter().map(|n| named(n)).collect()
}

fn app_names(results: &[SearchResult]) -> Vec<String> {
    results
        .iter()
        .map(|r| match r {
            SearchResult::App(e) => e.name.clone(),
            SearchResult::CalcResult { display, .. } => format!("= {}", display),
        })
        .collect()
}

fn names(chosen: &[DesktopEntry]) -> Vec<String> {
    chosen.iter().map(|e| e.name.clone()).collect()
}

#[test]
fn arithmetic_gives_a_single_calculator_result() {
    let all = entries(&["2+2", "Calculator"]);
    let results = search(&all, "2+2");
    assert_eq!(results.len(), 1);
    match &results[0] {
        SearchResult::CalcResult { display, value_to_copy } => {
            assert_eq!(display, "4");
            assert_eq!(value_to_copy, "4");
        }
        SearchResult::App(_) => panic!("an entry was matched"),
    }
}

#[test]
fn the_calculator_takes_precedence_over_matching_names() {
    let all = entries(&["2", "2048"]);
    assert_eq!(app_names(&search(&all, "2")), vec!["= 2"]);
    assert_eq!(names(&best_matches(&all, "2")), vec!["2", "2048"]);
}

#[test]
fn calculator_values_are_written_in_full() {
    let none: Vec<DesktopEntry> = Vec::new();
    assert_eq!(app_names(&search(&none, "1/3")), vec!["= 0.3333333333333333"]);
    assert_eq!(app_names(&search(&none, "0.1+0.2")), vec!["= 0.30000000000000004"]);
    assert_eq!(app_names(&search(&none, " 10 % 4 ")), vec!["= 2"]);
    assert_eq!(app_names(&search(&none, "-(2^3)")), vec!["= -8"]);
    assert_eq!(app_names(&search(&none, "pi")), vec!["= 3.141592653589793"]);
}

#[test]
fn the_empty_query_gives_nothing() {
    let all = entries(&["Firefox", "Files"]);
    assert!(search(&all, "").is_empty());
    assert!(best_matches(&all, "").is_empty());
}

#[test]
fn fuzzy_matches_come_best_first() {
    let all = entries(&["Firefox", "Files", "Filezilla"]);
    assert_eq!(app_names(&search(&all, "fi")), vec!["Firefox", "Files", "Filezilla"]);
    let all = entries(&["Profiler", "Files", "Terminal", "Firefox"]);
    assert_eq!(app_names(&search(&all, "fi")), vec!["Files", "Firefox", "Profiler"]);
    assert_eq!(names(&best_matches(&all, "fi")), vec!["Files", "Firefox", "Profiler"]);
}

#[test]
fn results_are_capped() {
    let all = entries(&[
        "xfile", "File 1", "File 2", "File 3", "File 4", "File 5", "File 6", "File 7", "File 8",
        "File 9",
    ]);
    let results = search(&all, "fi");
    assert_eq!(results.len(), MAX_RESULTS);
    assert_eq!(
        app_names(&results),
        vec!["File 1", "File 2", "File 3", "File 4", "File 5", "File 6", "File 7", "File 8"]
    );
}

#[test]
fn division_by_zero_falls_through_to_matching() {
    let all = entries(&["1/0 tool", "Other", "0/0"]);
    assert_eq!(app_names(&search(&all, "1/0")), vec!["1/0 tool"]);
    assert_eq!(app_names(&search(&all, "0/0")), vec!["0/0"]);
    assert!(search(&all, "-1/0").is_empty());
}

#[test]
fn malformed_expressions_fall_through_to_matching() {
    let all = entries(&["Firefox", "2+ plus"]);
    assert_eq!(app_names(&search(&all, "2+")), vec!["2+ plus"]);
    assert_eq!(app_names(&search(&all, "fire")), vec!["Firefox"]);
    assert!(search(&all, "(((").is_empty());
}

#[test]
fn blank_queries_are_matched_not_evaluated() {
    let all = entries(&["Firefox", "Disk Usage", "Text Editor"]);
    assert_eq!(app_names(&search(&all, " ")), vec!["Disk Usage", "Text Editor"]);
    assert!(search(&all, "\t").is_empty());
    assert!(search(&all, " \r\n\t ").is_empty());
}

#[test]
fn upper_case_in_the_query_makes_matching_case_sensitive() {
    let all = entries(&["firefox", "Firefox"]);
    assert_eq!(app_names(&search(&all, "Fi")), vec!["Firefox"]);
    assert_eq!(app_names(&search(&all, "fi")), vec!["firefox", "Firefox"]);
}

#[test]
fn only_finite_values_give_a_calculator_result() {
    for value in ["inf", "-inf", "NaN"] {
        assert!(calculator_result(Some(value.to_string())).is_none());
    }
    assert!(calculator_result(None).is_none());
    for value in ["4", "-0", "0.5", "1000000000000000000000", "info", "Inf", "nan", ""] {
        match calculator_result(Some(value.to_string())) {
            Some(SearchResult::CalcResult { display, value_to_copy }) => {
                assert_eq!(display, value);
                assert_eq!(value_to_copy, value);
            }
            _ => panic!("no calculator result for {}", value),
        }
    }
}

#[test]
fn ranking_is_by_score_then_by_place() {
    assert_eq!(rank(&[Some(1), Some(3), Some(2)], 8), vec![1, 2, 0]);
    assert_eq!(rank(&[Some(5), None, Some(5), Some(7), None, Some(5)], 8), vec![3, 0, 2, 5]);
    assert_eq!(rank(&[Some(-1), Some(i64::MIN), Some(i64::MAX), Some(0)], 8), vec![2, 3, 0, 1]);
    assert_eq!(rank(&[None, None], 8), Vec::<usize>::new());
    assert_eq!(rank(&[], 8), Vec::<usize>::new());
}

#[test]
fn ranking_is_cut_off_at_the_limit() {
    assert_eq!(rank(&[Some(1), Some(3), Some(2), Some(3)], 2), vec![1, 3]);
    assert_eq!(rank(&[Some(1), Some(1), Some(1)], 2), vec![0, 1]);
    assert_eq!(rank(&[Some(1), Some(2), Some(3)], 1), vec![2]);
    assert_eq!(rank(&[Some(1), Some(2), Some(3)], 0), Vec::<usize>::new());
    assert_eq!(rank(&[Some(1), Some(2), Some(3)], 3), vec![2, 1, 0]);
    let scores: Vec<Option<i64>> = (0..20).map(|i| Some(i % 5)).collect();
    assert_eq!(rank(&scores, 8), vec![4, 9, 14, 19, 3, 8, 13, 18]);
}

#[test]
fn the_best_entries_are_selected_by_their_scores() {
    let all = entries(&["a", "b", "c", "d"]);
    let chosen = select_best(&all, &[Some(10), None, Some(30), Some(10)]);
    assert_eq!(names(&chosen), vec!["c", "a", "d"]);
    assert_eq!(chosen[0].command, "c");
    assert!(select_best(&all, &[None, None, None, None]).is_empty());
    assert!(select_best(&[], &[]).is_empty());
}

#[test]
fn selection_keeps_the_eight_best() {
    let all: Vec<DesktopEntry> = (0..12).map(|i| named(&format!("e{}", i))).collect();
    let scores: Vec<Option<i64>> = (0..12).map(|i| Some(i)).collect();
    assert_eq!(
        names(&select_best(&all, &scores)),
        vec!["e11", "e10", "e9", "e8", "e7", "e6", "e5", "e4"]
    );
}

#[test]
fn a_cloned_result_is_the_same_result() {
    let result = SearchResult::CalcResult { display: "4".to_string(), value_to_copy: "4".to_string() };
    assert_eq!(app_names(&[result.clone()]), app_names(&[result]));
    let result = SearchResult::App(named("Foo"));
    assert_eq!(app_names(&[result.clone()]), vec!["Foo"]);
}

#[test]
fn the_text_limit_counts_characters() {
    assert!(within_limit(""));
    assert!(within_limit("Firefox"));
    assert!(within_limit(&"é".repeat(MAX_TEXT_LEN)));
    assert!(!within_limit(&"a".repeat(MAX_TEXT_LEN + 1)));
}

#[test]
fn texts_at_the_limit_are_matched() {
    let long = "ab".repeat(MAX_TEXT_LEN / 2);
    let all = entries(&["Firefox", &long]);
    assert_eq!(app_names(&search(&all, "fx")), vec!["Firefox"]);
    assert_eq!(search(&all, "ba").len(), 1);
    let query = "x".repeat(MAX_TEXT_LEN);
    assert_eq!(names(&best_matches(&entries(&["x"]), &query)), Vec::<String>::new());
    assert_eq!(names(&best_matches(&entries(&["xx"]), "x")), vec!["xx"]);
}

#[test]
fn texts_beyond_the_limit_are_not_matched() {
    let long = "ab".repeat(MAX_TEXT_LEN / 2) + "a";
    let all = entries(&["Firefox", &long, "Fab"]);
    assert_eq!(app_names(&search(&all, "ab")), vec!["Fab"]);
    assert_eq!(names(&best_matches(&all, "a")), vec!["Fab"]);
    assert!(search(&all, &long).is_empty());
    assert!(best_matches(&all, &long).is_empty());
}

#[test]
fn scores_go_with_entries_place_by_place() {
    let all = entries(&["a", "b"]);
    assert_eq!(names(&select_best(&all, &[Some(1), Some(2), Some(3)])), vec!["b", "a"]);
    assert_eq!(names(&select_best(&all, &[Some(1)])), vec!["a"]);
    assert!(select_best(&all, &[]).is_empty());
    assert!(select_best(&[], &[Some(1)]).is_empty());
}

fn random_text(state: &mut u64, alphabet: &[char], max: u64) -> String {
    let mut step = || {
        *state = state.wrapping_mul(6364136223846793005).wrapping_add(1442695040888963407);
        *state >> 33
    };
    let len = step() % (max + 1);
    (0..len).map(|_| alphabet[(step() % alphabet.len() as u64) as usize]).collect()
}

#[test]
fn any_query_is_answered() {
    let alphabet: Vec<char> = "0123456789.+-*/%^()e, \t\r\npisnmaxqrtb_E\u{a0}é".chars().collect();
    let all = entries(&["Firefox", "Files", "2+2", "max", "é"]);
    let mut state = 3u64;
    for _ in 0..50000 {
        let query = random_text(&mut state, &alphabet, 9);
        assert!(search(&all, &query).len() <= MAX_RESULTS);
    }
}

#[test]
fn the_same_query_gives_the_same_results() {
    let alphabet: Vec<char> = "abAB cC/._-1é世\t".chars().collect();
    let mut state = 7u64;
    let all: Vec<DesktopEntry> =
        (0..40).map(|_| named(&random_text(&mut state, &alphabet, 12))).collect();
    for _ in 0..2000 {
        let query = random_text(&mut state, &alphabet, 4);
        let first = names(&best_matches(&all, &query));
        let _ = best_matches(&all, &random_text(&mut state, &alphabet, 4));
        assert_eq!(names(&best_matches(&all, &query)), first);
    }
}

#[test]
fn a_finite_value_is_the_only_result() {
    let all = entries(&["Firefox", "Files"]);
    assert_eq!(app_names(&search_with(&all, "fi", Some("4".to_string()))), vec!["= 4"]);
    assert_eq!(app_names(&search_with(&all, "", Some("0.5".to_string()))), vec!["= 0.5"]);
    assert_eq!(app_names(&search_with(&[], "x", Some("-0".to_string()))), vec!["= -0"]);
}

#[test]
fn without_a_finite_value_the_entries_are_matched() {
    let all = entries(&["Firefox", "Files", "Terminal"]);
    for value in [None, Some("inf"), Some("-inf"), Some("NaN")] {
        let value = value.map(str::to_string);
        assert_eq!(app_names(&search_with(&all, "fi", value.clone())), vec!["Firefox", "Files"]);
        assert!(search_with(&all, "", value).is_empty());
    }
}
