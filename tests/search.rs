use minigrep::{contains_query, search_lines, search_lines_case_insensitive, split_lines};

const TEST_DOCS: &str = "Rust:\nsafe, fast, productive.\nPick three.";

#[test]
fn test_search_lines() {
    let query = "duct";
    assert_eq!(vec!["safe, fast, productive."], search_lines(query, TEST_DOCS));
}

#[test]
fn test_search_lines_case_insensitive() {
    let query = "DUCT";
    assert_eq!(
        vec!["safe, fast, productive."],
        search_lines_case_insensitive(query, TEST_DOCS)
    );
}

#[test]
fn case_sensitive_search_misses_other_case() {
    let found: Vec<&str> = search_lines("DUCT", TEST_DOCS);
    assert!(found.is_empty());
}

#[test]
fn empty_query_returns_every_line() {
    let all = vec!["Rust:", "safe, fast, productive.", "Pick three."];
    assert_eq!(all, search_lines("", TEST_DOCS));
    assert_eq!(all, search_lines_case_insensitive("", TEST_DOCS));
}

#[test]
fn whole_line_is_found() {
    assert_eq!(vec!["Pick three."], search_lines("Pick three.", TEST_DOCS));
    assert_eq!(vec!["Pick three."], search_lines_case_insensitive("Pick three.", TEST_DOCS));
    let text = "abc\nab\nxabcx";
    assert_eq!(vec!["abc", "xabcx"], search_lines("abc", text));
}

#[test]
fn matches_keep_their_order_and_repeats() {
    let text = "one t\ntwo\nthree t\ntwo";
    assert_eq!(vec!["one t", "two", "three t", "two"], search_lines("t", text));
    assert_eq!(vec!["two", "two"], search_lines("tw", text));
}

#[test]
fn case_insensitive_finds_what_case_sensitive_finds() {
    let text = "Apple pie\nbanana\nAPPLE juice\napple";
    let exact = search_lines("Apple", text);
    let folded = search_lines_case_insensitive("Apple", text);
    assert_eq!(vec!["Apple pie"], exact);
    assert_eq!(vec!["Apple pie", "APPLE juice", "apple"], folded);
    for line in exact {
        assert!(folded.contains(&line));
    }
}

#[test]
fn case_insensitive_folds_non_ascii_letters() {
    let text = "ÜBER alles\nnichts\nüber";
    assert_eq!(vec!["ÜBER alles", "über"], search_lines_case_insensitive("Über", text));
}

#[test]
fn final_sigma_folds_by_context() {
    // A capital sigma lowercases to a final sigma at the end of a word, and to a plain
    // sigma standing alone, so the folded forms no longer contain one another.
    let text = "ΑΣ";
    assert_eq!(vec!["ΑΣ"], search_lines("Σ", text));
    assert!(search_lines_case_insensitive("Σ", text).is_empty());
}

#[test]
fn lines_split_at_line_feeds_and_crlf() {
    assert_eq!(vec!["a", "b", "", "c"], split_lines("a\r\nb\n\nc"));
    assert_eq!(vec!["a", "b"], split_lines("a\nb\n"));
    assert_eq!(vec!["a", "b\r"], split_lines("a\nb\r"));
    assert_eq!(vec!["", "x\r"], split_lines("\r\nx\r"));
    assert_eq!(vec![""], split_lines("\n"));
    assert!(split_lines("").is_empty());
}

#[test]
fn lines_split_like_std() {
    let text = "foo\nbar\n\r\nbaz\r\nqu\u{e9}\r\r\n\u{1F600}";
    let expected: Vec<&str> = text.lines().collect();
    assert_eq!(expected, split_lines(text));
}

#[test]
fn search_never_returns_line_endings() {
    assert_eq!(vec!["x1", "x2"], search_lines("x", "x1\r\ny\r\nx2\r\n"));
    assert!(search_lines("\n", "a\nb").is_empty());
}

#[test]
fn empty_contents_have_no_matches() {
    assert!(search_lines("", "").is_empty());
    assert!(search_lines_case_insensitive("a", "").is_empty());
}

#[test]
fn contains_query_checks_substrings() {
    assert!(contains_query("safe, fast, productive.", "duct"));
    assert!(contains_query("abc", ""));
    assert!(contains_query("", ""));
    assert!(contains_query("abc", "abc"));
    assert!(!contains_query("abc", "abcd"));
    assert!(!contains_query("abc", "ac"));
    assert!(contains_query("aaab", "aab"));
    assert!(contains_query("héllo", "él"));
    assert!(!contains_query("", "a"));
}
