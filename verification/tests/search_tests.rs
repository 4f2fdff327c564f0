use regex::Regex;
use scribble::notebook::TextElement;
use scribble::search::get_match_positions;
use scribble::search::get_total_match_count;
use scribble::search::perform_search;
use scribble::search::positions_compiled;
use scribble::search::positions_plain;
use scribble::search::search_compiled;
use scribble::search::search_plain;
use scribble::search::total_compiled;
use scribble::search::total_plain;
use scribble::search::MatchSpan;
use scribble::search::Pattern;

fn labels(texts: &[&str]) -> Vec<TextElement<()>> {
    texts.iter().map(|t| TextElement { text: t.to_string(), geometry: () }).collect()
}

fn span(start: usize, len: usize) -> MatchSpan {
    MatchSpan { start, len }
}

#[test]
fn empty_query_finds_nothing() {
    let page = labels(&["alpha", ""]);
    let out = perform_search(&page, "", false);
    assert_eq!(out.matches, Vec::<usize>::new());
    assert_eq!(out.error, None);
    let out = perform_search(&page, "", true);
    assert_eq!(out.matches, Vec::<usize>::new());
    assert_eq!(out.error, None);
    assert_eq!(get_match_positions("alpha", "", false), vec![]);
    assert_eq!(get_total_match_count(&page, &vec![0, 1], "", false), 0);
}

#[test]
fn plain_search_ignores_case() {
    let page = labels(&["Hello World", "nothing here", "say HELLO", "hell"]);
    let out = perform_search(&page, "hElLo", false);
    assert_eq!(out.matches, vec![0, 2]);
    assert_eq!(out.error, None);
    assert_eq!(search_plain(&page, "HELL"), vec![0, 2, 3]);
}

#[test]
fn plain_search_does_not_read_the_query_as_a_pattern() {
    let page = labels(&["a.c", "abc", "(x"]);
    assert_eq!(perform_search(&page, ".", false).matches, vec![0]);
    assert_eq!(perform_search(&page, "(", false).matches, vec![2]);
}

#[test]
fn regex_search_finds_matching_labels() {
    let page = labels(&["cat", "dog", "cart", "Cat"]);
    let out = perform_search(&page, "^ca.?t$", true);
    assert_eq!(out.matches, vec![0, 2]);
    assert_eq!(out.error, None);
}

#[test]
fn rejected_pattern_is_reported() {
    let page = labels(&["cat", "(dog"]);
    let out = perform_search(&page, "(dog", true);
    assert_eq!(out.matches, Vec::<usize>::new());
    let message = out.error.unwrap();
    let expected = format!("Regex error: {}", Regex::new("(dog").unwrap_err());
    assert_eq!(message, expected);
    assert!(message.starts_with("Regex error: "));
    assert!(message.len() > "Regex error: ".len());
}

#[test]
fn search_compiled_follows_the_compile_result() {
    let page = labels(&["one 1", "two", "three 3"]);
    let out = search_compiled(&page, &Pattern::compile("[0-9]"));
    assert_eq!(out.matches, vec![0, 2]);
    assert_eq!(out.error, None);
    let out = search_compiled(&page, &Pattern::compile("[0-9"));
    assert_eq!(out.matches, Vec::<usize>::new());
    assert_eq!(out.error, Some(format!("Regex error: {}", Regex::new("[0-9").unwrap_err())));
}

#[test]
fn plain_positions_overlap_and_ignore_case() {
    assert_eq!(positions_plain("aAaa", "aa"), vec![span(0, 2), span(1, 2), span(2, 2)]);
    assert_eq!(get_match_positions("Hello hello", "LL", false), vec![span(2, 2), span(8, 2)]);
    assert_eq!(get_match_positions("abc", "abcd", false), vec![]);
    assert_eq!(get_match_positions("abc", "abc", false), vec![span(0, 3)]);
}

#[test]
fn plain_positions_are_byte_offsets() {
    assert_eq!(positions_plain("né né", "é"), vec![span(1, 2), span(5, 2)]);
    assert_eq!(positions_plain("ÉCOLE école", "école"), vec![span(0, 6), span(7, 6)]);
}

#[test]
fn plain_span_is_as_long_as_the_query_as_typed() {
    // U+0130 takes two bytes; its lower-case form takes three.
    assert_eq!("\u{130}".to_lowercase().len(), 3);
    assert_eq!(positions_plain("x\u{130}y i\u{307}", "\u{130}"), vec![span(1, 2), span(6, 2)]);
}

#[test]
fn regex_positions_do_not_overlap() {
    assert_eq!(get_match_positions("aaaa", "aa", true), vec![span(0, 2), span(2, 2)]);
    assert_eq!(get_match_positions("x1 y22 z", "[0-9]+", true), vec![span(1, 1), span(4, 2)]);
    assert_eq!(get_match_positions("ab", "x*", true), vec![span(0, 0), span(1, 0), span(2, 0)]);
}

#[test]
fn rejected_pattern_matches_nowhere() {
    assert_eq!(get_match_positions("(((", "(", true), vec![]);
    assert_eq!(positions_compiled("(((", &Pattern::compile("(")), vec![]);
    assert_eq!(positions_compiled("a((", &Pattern::compile("\\(")), vec![span(1, 1), span(2, 1)]);
}

#[test]
fn total_counts_every_match_of_every_result() {
    let page = labels(&["aa aa", "b", "Aaa"]);
    assert_eq!(get_total_match_count(&page, &vec![0, 2], "aa", false), 2 + 2);
    assert_eq!(get_total_match_count(&page, &vec![0, 2], "aa", true), 2 + 1);
    assert_eq!(get_total_match_count(&page, &vec![0, 2], "^a", true), 1);
    assert_eq!(get_total_match_count(&page, &vec![0, 2], "(?i)^a", true), 1 + 1);
    assert_eq!(total_plain(&page, &vec![0, 1, 2], "a"), 4 + 0 + 3);
}

#[test]
fn total_skips_indices_that_name_no_label_and_counts_repeats() {
    let page = labels(&["xx", "x"]);
    assert_eq!(total_plain(&page, &vec![7, 1, 1, 2], "x"), 2);
    assert_eq!(total_compiled(&page, &vec![0, 9, 0], &Pattern::compile("x")), 4);
    assert_eq!(total_compiled(&page, &vec![0, 1], &Pattern::compile("x(")), 0);
    assert_eq!(get_total_match_count(&page, &vec![0, 1], "x(", true), 0);
}

#[test]
fn compiled_pattern_matches_and_finds() {
    let pattern = Pattern::compile("b+").ok().unwrap();
    assert!(pattern.is_match("abbbc"));
    assert!(!pattern.is_match("ac"));
    assert_eq!(pattern.find_all("abbcb"), vec![span(1, 2), span(4, 1)]);
    assert_eq!(pattern.find_all(""), vec![]);
    assert!(Pattern::compile("b+(").is_err());
}

#[test]
fn regex_spans_are_byte_offsets() {
    assert_eq!(get_match_positions("né né", "é", true), vec![span(1, 2), span(5, 2)]);
}
