use diffview::fuzzy::{are_matchable, fuzzy_file_matches, rank_matches, MAX_FUZZY_CHARS};
use fuzzy_matcher::skim::SkimMatcherV2;
use fuzzy_matcher::FuzzyMatcher;

#[test]
fn fuzzy_empty_query_keeps_order() {
    let paths = ["b.rs", "a.rs"];
    assert_eq!(fuzzy_file_matches(&paths, ""), vec![0, 1]);
    assert_eq!(fuzzy_file_matches(&paths, "b"), vec![0]);
}

#[test]
fn blank_queries_keep_everything() {
    assert_eq!(fuzzy_file_matches(&["b", "a", "c"], " \t\u{3000}\n"), vec![0, 1, 2]);
    assert!(fuzzy_file_matches(&[], "").is_empty());
    assert!(fuzzy_file_matches(&[], "a").is_empty());
}

#[test]
fn queries_are_trimmed() {
    let paths = ["src/main.rs", "README.md"];
    assert_eq!(fuzzy_file_matches(&paths, "  main "), fuzzy_file_matches(&paths, "main"));
    assert_eq!(fuzzy_file_matches(&paths, "  main "), vec![0]);
}

#[test]
fn a_file_is_listed_if_it_holds_the_query_in_order() {
    let paths = ["src/main.rs", "README.md", "crates/app/theme.rs", "SMR"];
    let mut listed = fuzzy_file_matches(&paths, "smr");
    listed.sort();
    assert_eq!(listed, vec![0, 2, 3]);
    assert_eq!(fuzzy_file_matches(&paths, "SMR"), vec![3]);
    assert!(fuzzy_file_matches(&paths, "zzz").is_empty());
}

#[test]
fn best_matches_come_first() {
    let paths = [
        "docs/m/a/i/n.txt",
        "src/main.rs",
        "domain.rs",
        "main",
        "src/main.rs",
        "other",
    ];
    let matcher = SkimMatcherV2::default();
    let mut expected: Vec<(i64, usize)> = Vec::new();
    for (ix, path) in paths.iter().enumerate() {
        if let Some(score) = matcher.fuzzy_match(path, "main") {
            expected.push((score, ix));
        }
    }
    expected.sort_by_key(|(score, ix)| (-score, *ix));
    let expected: Vec<usize> = expected.into_iter().map(|(_, ix)| ix).collect();
    let listed = fuzzy_file_matches(&paths, "main");
    assert_eq!(listed, expected);
    assert_eq!(listed.len(), 5);
    assert_eq!(listed.last(), Some(&2));
}

#[test]
fn ranking_is_by_score_then_by_index() {
    assert_eq!(
        rank_matches(&[Some(3), None, Some(9), Some(3), Some(-1), None, Some(9)]),
        vec![2, 6, 0, 3, 4]
    );
    assert!(rank_matches(&[]).is_empty());
    assert!(rank_matches(&[None, None]).is_empty());
}

#[test]
fn very_long_paths_are_not_matchable() {
    let fits = "a".repeat(MAX_FUZZY_CHARS);
    let too_long = "a".repeat(MAX_FUZZY_CHARS + 1);
    assert!(are_matchable(&["a", fits.as_str()]));
    assert!(!are_matchable(&["a", too_long.as_str()]));
    assert!(are_matchable(&[]));
}
