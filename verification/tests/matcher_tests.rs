use linegrep::matcher::PatternMatcher;
use linegrep::text::{contains_pattern, lower_char_exec, str_eq};

fn s(x: &str) -> String {
    x.to_string()
}

fn lines(xs: &[&str]) -> Vec<String> {
    xs.iter().map(|x| x.to_string()).collect()
}

#[test]
fn case_insensitive_search_finds_differently_cased_line() {
    let patterns = vec![s("cat")];
    let files = vec![s("a.txt")];
    let contents = vec![lines(&["I have a Cat", "no pets"])];
    let matcher = PatternMatcher::new(&patterns, &files).case_sensitive(false);
    let found = matcher.find_matches(&contents);
    assert_eq!(found.len(), 1);
    assert_eq!(found[0].filename, "a.txt");
    assert_eq!(found[0].line_number, 1);
    assert_eq!(found[0].line, "I have a Cat");
}

#[test]
fn inverted_search_keeps_the_complementary_lines() {
    let patterns = vec![s("cat")];
    let files = vec![s("a.txt")];
    let contents = vec![lines(&["I have a Cat", "no pets"])];
    let matcher = PatternMatcher::new(&patterns, &files).case_sensitive(false).invert_match(true);
    let found = matcher.find_matches(&contents);
    assert_eq!(found.len(), 1);
    assert_eq!(found[0].filename, "a.txt");
    assert_eq!(found[0].line_number, 2);
    assert_eq!(found[0].line, "no pets");
}

#[test]
fn default_search_is_case_sensitive() {
    let patterns = vec![s("cat")];
    let files = vec![s("a.txt")];
    let contents = vec![lines(&["I have a Cat", "a catalog"])];
    let matcher = PatternMatcher::new(&patterns, &files);
    let found = matcher.find_matches(&contents);
    assert_eq!(found.len(), 1);
    assert_eq!(found[0].line_number, 2);
    assert_eq!(found[0].line, "a catalog");
}

#[test]
fn kept_text_is_verbatim_even_when_comparing_case_insensitively() {
    let patterns = vec![s("WORLD")];
    let files = vec![s("f")];
    let contents = vec![lines(&["  Hello World  "])];
    let matcher = PatternMatcher::new(&patterns, &files).case_sensitive(false);
    let found = matcher.find_matches(&contents);
    assert_eq!(found.len(), 1);
    assert_eq!(found[0].line, "  Hello World  ");
}

#[test]
fn records_preserve_file_order_then_line_order() {
    let patterns = vec![s("x")];
    let files = vec![s("one"), s("two")];
    let contents = vec![lines(&["x1", "skip", "x2"]), lines(&["x3"])];
    let matcher = PatternMatcher::new(&patterns, &files);
    let found = matcher.find_matches(&contents);
    let got: Vec<(String, usize, String)> =
        found.iter().map(|m| (m.filename.clone(), m.line_number, m.line.clone())).collect();
    assert_eq!(
        got,
        vec![
            (s("one"), 1, s("x1")),
            (s("one"), 3, s("x2")),
            (s("two"), 1, s("x3")),
        ]
    );
}

#[test]
fn any_of_several_patterns_keeps_a_line() {
    let patterns = vec![s("dog"), s("pets")];
    let files = vec![s("a.txt")];
    let contents = vec![lines(&["I have a Cat", "no pets"])];
    let matcher = PatternMatcher::new(&patterns, &files);
    let found = matcher.find_matches(&contents);
    assert_eq!(found.len(), 1);
    assert_eq!(found[0].line_number, 2);
}

#[test]
fn empty_pattern_matches_every_line() {
    let patterns = vec![s("")];
    let files = vec![s("a.txt")];
    let contents = vec![lines(&["one", "", "three"])];
    let matcher = PatternMatcher::new(&patterns, &files);
    let found = matcher.find_matches(&contents);
    assert_eq!(found.len(), 3);
}

#[test]
fn no_patterns_means_no_match_and_inversion_keeps_all() {
    let patterns: Vec<String> = vec![];
    let files = vec![s("a.txt")];
    let contents = vec![lines(&["one", "two"])];
    let plain = PatternMatcher::new(&patterns, &files).find_matches(&contents);
    assert!(plain.is_empty());
    let inverted = PatternMatcher::new(&patterns, &files).invert_match(true).find_matches(&contents);
    assert_eq!(inverted.len(), 2);
}

#[test]
fn case_insensitive_keeps_everything_case_sensitive_keeps() {
    let patterns = vec![s("Ca"), s("pet")];
    let files = vec![s("a.txt")];
    let contents = vec![lines(&["I have a Cat", "no pets", "CARTS", "nothing"])];
    let sensitive = PatternMatcher::new(&patterns, &files).find_matches(&contents);
    let insensitive =
        PatternMatcher::new(&patterns, &files).case_sensitive(false).find_matches(&contents);
    let sens_lines: Vec<usize> = sensitive.iter().map(|m| m.line_number).collect();
    let insens_lines: Vec<usize> = insensitive.iter().map(|m| m.line_number).collect();
    for ln in &sens_lines {
        assert!(insens_lines.contains(ln));
    }
    assert_eq!(sens_lines, vec![1, 2]);
    assert_eq!(insens_lines, vec![1, 2, 3]);
}

#[test]
fn contains_pattern_modes() {
    assert!(contains_pattern("HeLLo", "hello", false));
    assert!(!contains_pattern("HeLLo", "hello", true));
    assert!(contains_pattern("abcdef", "cde", true));
    assert!(!contains_pattern("abcdef", "xyz", true));
    assert!(contains_pattern("abc", "", true));
    assert!(contains_pattern("", "", false));
    assert!(!contains_pattern("", "a", true));
}

#[test]
fn lowering_is_ascii_only() {
    assert_eq!(lower_char_exec('A'), 'a');
    assert_eq!(lower_char_exec('Z'), 'z');
    assert_eq!(lower_char_exec('a'), 'a');
    assert_eq!(lower_char_exec('3'), '3');
    assert_eq!(lower_char_exec('-'), '-');
}

#[test]
fn string_slice_equality_is_by_content() {
    assert!(str_eq("abc", "abc"));
    assert!(!str_eq("abc", "abd"));
    assert!(!str_eq("abc", "ab"));
    assert!(str_eq("", ""));
}
