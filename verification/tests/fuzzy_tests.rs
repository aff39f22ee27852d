use mcpreg::fuzzy;
use mcpreg::fuzzy::{acronym_match, all_tokens_match, contains_substring, fuzzy_score, is_subsequence, levenshtein, tokenize};
use mcpreg::jaro::{common_prefix4, jaro_counts_exec};

/// Jaro-Winkler similarity in `f64`, from the library's match counts (the
/// program's computation of the fallback score).
fn jaro_winkler(a: &str, b: &str) -> f64 {
    let a: Vec<char> = a.to_lowercase().chars().collect();
    let b: Vec<char> = b.to_lowercase().chars().collect();
    let jaro = if a.is_empty() && b.is_empty() {
        1.0
    } else if a.is_empty() || b.is_empty() {
        0.0
    } else {
        let (m, t) = jaro_counts_exec(&a, &b);
        if m == 0 {
            0.0
        } else {
            let m = m as f64;
            (m / a.len() as f64 + m / b.len() as f64 + (m - t as f64 / 2.0) / m) / 3.0
        }
    };
    jaro + common_prefix4(&a, &b) as f64 * 0.1 * (1.0 - jaro)
}

/// `suggest` with each candidate's Jaro-Winkler fallback computed in `f64`.
fn suggest(query: &str, candidates: &[String], max_distance: usize) -> Vec<(String, usize)> {
    let fallback: Vec<Option<usize>> = candidates
        .iter()
        .map(|c| {
            let name_part = c.rsplit('/').next().unwrap_or(c);
            let jw = jaro_winkler(query, c).max(jaro_winkler(query, name_part));
            if jw >= 0.8 {
                Some(max_distance + 1 + ((1.0 - jw) * 10.0) as usize)
            } else {
                None
            }
        })
        .collect();
    fuzzy::suggest(query, candidates, max_distance, &fallback)
}

#[test]
fn test_levenshtein_equal() {
    assert_eq!(levenshtein("hello", "hello"), 0);
}

#[test]
fn test_levenshtein_empty() {
    assert_eq!(levenshtein("", "abc"), 3);
    assert_eq!(levenshtein("abc", ""), 3);
}

#[test]
fn test_levenshtein_one_edit() {
    assert_eq!(levenshtein("cat", "bat"), 1);
    assert_eq!(levenshtein("cat", "cats"), 1);
    assert_eq!(levenshtein("cat", "at"), 1);
}

#[test]
fn test_levenshtein_case_insensitive() {
    assert_eq!(levenshtein("Hello", "hello"), 0);
    assert_eq!(levenshtein("ABC", "abd"), 1);
}

#[test]
fn test_is_subsequence() {
    assert!(is_subsequence("fs", "filesystem"));
    assert!(is_subsequence("fls", "filesystem"));
    assert!(is_subsequence("filesystem", "filesystem"));
    assert!(!is_subsequence("xyz", "filesystem"));
    assert!(is_subsequence("", "anything"));
}

#[test]
fn test_contains_substring() {
    assert!(contains_substring("filesystem", "file"));
    assert!(contains_substring("filesystem", "system"));
    assert!(contains_substring("FileSystem", "file"));
    assert!(!contains_substring("filesystem", "xyz"));
}

#[test]
fn test_fuzzy_score_exact() {
    assert_eq!(fuzzy_score("hello", "hello", 3), Some(0));
}

#[test]
fn test_fuzzy_score_prefix() {
    assert_eq!(fuzzy_score("file", "filesystem", 3), Some(1));
}

#[test]
fn test_fuzzy_score_substring() {
    assert_eq!(fuzzy_score("system", "filesystem", 3), Some(2));
}

#[test]
fn test_fuzzy_score_subsequence() {
    assert_eq!(fuzzy_score("fstm", "filesystem", 3), Some(3));
}

#[test]
fn test_fuzzy_score_levenshtein() {
    assert_eq!(fuzzy_score("filesytem", "filesystem", 3), Some(3));
    assert_eq!(fuzzy_score("xyzabc", "filesystem", 2), None);
}

#[test]
fn test_fuzzy_score_prefix_beats_substring() {
    let prefix_score = fuzzy_score("file", "filesystem", 3).unwrap();
    let substring_score = fuzzy_score("system", "filesystem", 3).unwrap();
    assert!(prefix_score < substring_score, "Prefix should rank higher than substring");
}

#[test]
fn test_fuzzy_score_too_far() {
    assert_eq!(fuzzy_score("zzzzz", "abc", 2), None);
}

#[test]
fn test_suggest_finds_close_matches() {
    let candidates: Vec<String> = vec!["org/filesystem".into(), "org/sqlite".into(), "org/postgres".into()];
    let suggestions = suggest("filesytem", &candidates, 3);
    assert!(!suggestions.is_empty());
    assert_eq!(suggestions[0].0, "org/filesystem");
}

#[test]
fn test_suggest_substring_beats_levenshtein() {
    let candidates: Vec<String> = vec!["org/web-search".into(), "org/websocket".into()];
    let suggestions = suggest("web", &candidates, 3);
    assert!(suggestions.len() == 2);
    assert!(suggestions[0].1 <= 1);
}

#[test]
fn test_suggest_no_close_matches() {
    let candidates: Vec<String> = vec!["org/filesystem".into()];
    let suggestions = suggest("zzzzz", &candidates, 2);
    assert!(suggestions.is_empty());
}

#[test]
fn test_suggest_checks_name_part() {
    let candidates: Vec<String> = vec!["modelcontextprotocol/sqlite".into()];
    let suggestions = suggest("sqlit", &candidates, 2);
    assert!(!suggestions.is_empty());
    assert_eq!(suggestions[0].0, "modelcontextprotocol/sqlite");
}

#[test]
fn test_suggest_sorted_by_score() {
    let candidates: Vec<String> = vec!["org/abcdef".into(), "org/abcde".into(), "org/abcd".into()];
    let suggestions = suggest("abcde", &candidates, 3);
    assert!(suggestions.len() >= 2);
    assert!(suggestions[0].1 <= suggestions[1].1);
}

#[test]
fn test_suggest_truncates_to_five() {
    let candidates: Vec<String> = (0..20).map(|i| format!("org/a{i}")).collect();
    let suggestions = suggest("a", &candidates, 5);
    assert!(suggestions.len() <= 5);
}

#[test]
fn test_suggest_exact_match() {
    let names = vec!["hello".to_string(), "world".to_string(), "help".to_string()];
    let suggestions = suggest("hello", &names, 3);
    assert!(!suggestions.is_empty());
    assert_eq!(suggestions[0].0, "hello");
    assert_eq!(suggestions[0].1, 0);
}

#[test]
fn test_suggest_empty_query() {
    let names = vec!["ab".to_string()];
    let suggestions = suggest("", &names, 3);
    assert!(!suggestions.is_empty());
}

#[test]
fn test_suggest_empty_names() {
    let names: Vec<String> = vec![];
    let suggestions = suggest("hello", &names, 3);
    assert!(suggestions.is_empty());
}

#[test]
fn test_suggest_filters_by_distance() {
    let names = vec!["cat".to_string(), "bat".to_string(), "zzzzzzzzz".to_string()];
    let suggestions = suggest("cat", &names, 1);
    assert!(!suggestions.iter().any(|(n, _)| n == "zzzzzzzzz"));
}

#[test]
fn test_levenshtein_identical() {
    assert_eq!(levenshtein("abc", "abc"), 0);
}

#[test]
fn test_levenshtein_single_edit() {
    assert_eq!(levenshtein("cat", "bat"), 1);
    assert_eq!(levenshtein("cat", "cats"), 1);
    assert_eq!(levenshtein("cat", "at"), 1);
}

#[test]
fn test_suggest_jaro_winkler_fallback() {
    let candidates: Vec<String> = vec!["org/postgresql-server".into(), "org/something-else".into()];
    let suggestions = suggest("postgresql", &candidates, 2);
    assert!(!suggestions.is_empty(), "JW fallback should find postgresql-server");
}

#[test]
fn test_acronym_match_basic() {
    assert!(acronym_match("fs", "file_system"));
    assert!(acronym_match("mcp", "model_context_protocol"));
    assert!(acronym_match("ws", "web-search"));
}

#[test]
fn test_acronym_match_slash() {
    assert!(acronym_match("mf", "modelcontextprotocol/filesystem"));
}

#[test]
fn test_acronym_match_no_match() {
    assert!(!acronym_match("xyz", "file_system"));
}

#[test]
fn test_acronym_match_case_insensitive() {
    assert!(acronym_match("FS", "File_System"));
}

#[test]
fn test_acronym_match_single_word() {
    assert!(acronym_match("s", "sqlite"));
}

#[test]
fn test_levenshtein_unicode() {
    assert_eq!(levenshtein("café", "cafe"), 1);
    assert_eq!(levenshtein("über", "uber"), 1);
}

#[test]
fn test_fuzzy_score_case_insensitive() {
    assert_eq!(fuzzy_score("FILE", "filesystem", 3), Some(1));
    assert_eq!(fuzzy_score("FileSystem", "filesystem", 3), Some(0));
}

#[test]
fn test_suggest_prefers_shorter_match() {
    let candidates = vec!["org/sql".into(), "org/sqlite-advanced-tooling".into()];
    let suggestions = suggest("sql", &candidates, 3);
    assert!(!suggestions.is_empty());
    assert_eq!(suggestions[0].0, "org/sql");
}

#[test]
fn test_is_subsequence_empty_needle() {
    assert!(is_subsequence("", "anything"));
}

#[test]
fn test_is_subsequence_equal() {
    assert!(is_subsequence("abc", "abc"));
}

#[test]
fn test_is_subsequence_longer_needle() {
    assert!(!is_subsequence("abcdef", "abc"));
}

#[test]
fn test_tokenize_basic() {
    assert_eq!(tokenize("hello world"), vec!["hello", "world"]);
}

#[test]
fn test_tokenize_separators() {
    assert_eq!(tokenize("file_system-server/v2"), vec!["file", "system", "server", "v2"]);
}

#[test]
fn test_tokenize_empty() {
    assert!(tokenize("").is_empty());
    assert!(tokenize("   ").is_empty());
}

#[test]
fn test_all_tokens_match_basic() {
    assert!(all_tokens_match("file system", "MCP filesystem server"));
    assert!(!all_tokens_match("file database", "MCP filesystem server"));
}

#[test]
fn test_all_tokens_match_single() {
    assert!(all_tokens_match("sql", "PostgreSQL database server"));
}

#[test]
fn test_all_tokens_match_empty_query() {
    assert!(all_tokens_match("", "anything"));
}

#[test]
fn test_suggest_empty_haystack() {
    let candidates: Vec<String> = vec![];
    let results = suggest("test", &candidates, 3);
    assert!(results.is_empty());
}

#[test]
fn test_acronym_match_positive() {
    assert!(acronym_match("fs", "file-system"));
}

#[test]
fn test_acronym_match_negative() {
    assert!(!acronym_match("xyz", "file-system"));
}

#[test]
fn test_tokenize_splits_correctly() {
    let tokens = tokenize("hello world-test");
    assert!(tokens.contains(&"hello".to_string()));
    assert!(tokens.contains(&"world".to_string()));
    assert!(tokens.contains(&"test".to_string()));
}

#[test]
fn fuzzy_test_all_tokens_match_basic() {
    assert!(all_tokens_match("file system", "filesystem-access"));
}

#[test]
fn fuzzy_test_is_subsequence() {
    assert!(is_subsequence("fss", "filesystem"));
    assert!(!is_subsequence("xyz", "filesystem"));
}

#[test]
fn test_fuzzy_empty_strings() {
    let score = fuzzy::fuzzy_score("", "", 3);
    assert_eq!(score, Some(0));
}

#[test]
fn test_fuzzy_query_longer_than_target() {
    let score = fuzzy::fuzzy_score("verylongquery", "ab", 3);
    assert!(score.is_none(), "Very different strings should return None");
}

#[test]
fn test_fuzzy_exact_match() {
    let score = fuzzy::fuzzy_score("hello", "hello", 3);
    assert_eq!(score, Some(0), "Exact match should have distance 0");
}

#[test]
fn test_fuzzy_near_match() {
    let score = fuzzy::fuzzy_score("helo", "hello", 3);
    assert!(score.is_some(), "Near match should return Some: {:?}", score);
    assert!(score.unwrap() <= 3, "Should be within max_distance");
}

#[test]
fn test_fuzzy_no_match() {
    let score = fuzzy::fuzzy_score("xyz", "abc", 1);
    assert!(score.is_none(), "Completely different strings with low max should be None");
}

#[test]
fn test_fuzzy_single_char() {
    let score = fuzzy::fuzzy_score("a", "a", 3);
    assert_eq!(score, Some(0));
}

#[test]
fn test_fuzzy_case_difference() {
    let score = fuzzy::fuzzy_score("hello", "Hello", 3);
    assert!(score.is_some() || score.is_none());
}

#[test]
fn test_fuzzy_unicode() {
    let _score = fuzzy::fuzzy_score("über", "über-server", 5);
}

#[test]
fn test_fuzzy_special_chars() {
    let _score = fuzzy::fuzzy_score("file://", "file://path", 5);
}

#[test]
fn fallback_below_the_threshold_in_floating_point_is_left_out() {
    // Seven matches out of ten and no common prefix: the similarity is
    // 0.7999999999999999 in f64, just under the 0.8 threshold.
    let candidates: Vec<String> = vec!["xbcdefghyz".into()];
    assert!(suggest("abcdefghij", &candidates, 2).is_empty());
}

#[test]
fn fallback_scores_are_used_only_where_no_fuzzy_score_applies() {
    let candidates: Vec<String> = vec!["hello".into(), "qqqqqq".into()];
    let r = fuzzy::suggest("hello", &candidates, 1, &vec![Some(9), Some(7)]);
    assert_eq!(r, vec![("hello".to_string(), 0), ("qqqqqq".to_string(), 7)]);
    assert!(fuzzy::suggest("hello", &candidates[1..], 1, &vec![None]).is_empty());
}
