use scribble::search::MatchSpan;
use scribble::text::escape_markup;
use scribble::text::is_blank;
use scribble::text::line_metrics;
use scribble::text::locate_match;
use scribble::text::place_matches;
use scribble::text::visible_lines;
use scribble::text::white_space;
use scribble::text::LineMetrics;
use scribble::text::MatchPlace;
use scribble::text::VisibleLine;

fn line(len: usize, blank: bool) -> LineMetrics {
    LineMetrics { len, blank }
}

fn expected_metrics(text: &str) -> Vec<LineMetrics> {
    text.lines().map(|l| LineMetrics { len: l.len(), blank: l.trim().is_empty() }).collect()
}

fn chained_escape(text: &str) -> String {
    text.replace('&', "&amp;")
        .replace('<', "&lt;")
        .replace('>', "&gt;")
        .replace('"', "&quot;")
        .replace('\'', "&#39;")
}

#[test]
fn white_space_is_what_the_standard_library_calls_so() {
    for code in 0..=0x10FFFFu32 {
        if let Some(c) = char::from_u32(code) {
            assert_eq!(white_space(c), c.is_whitespace(), "U+{:04X}", code);
        }
    }
}

#[test]
fn blank_text_has_nothing_to_show() {
    assert!(is_blank(""));
    assert!(is_blank(" \t\r\n\u{a0}\u{3000}"));
    assert!(!is_blank("  x "));
    assert!(!is_blank("\u{200b}"));
    for text in ["", " ", "a", " a", "\n\n", "\u{2028}", "é "] {
        assert_eq!(is_blank(text), text.trim().is_empty(), "{:?}", text);
    }
}

#[test]
fn lines_are_measured_in_bytes() {
    assert_eq!(line_metrics("one\ntwo three"), vec![line(3, false), line(9, false)]);
    assert_eq!(line_metrics("né\n€\n😀"), vec![line(3, false), line(3, false), line(4, false)]);
}

#[test]
fn empty_text_has_no_lines() {
    assert_eq!(line_metrics(""), vec![]);
}

#[test]
fn trailing_line_feed_starts_no_line() {
    assert_eq!(line_metrics("a\n"), vec![line(1, false)]);
    assert_eq!(line_metrics("a\n\n"), vec![line(1, false), line(0, true)]);
    assert_eq!(line_metrics("\n"), vec![line(0, true)]);
}

#[test]
fn carriage_return_before_line_feed_is_dropped() {
    assert_eq!(line_metrics("ab\r\ncd"), vec![line(2, false), line(2, false)]);
    assert_eq!(line_metrics("ab\r\r\ncd"), vec![line(3, false), line(2, false)]);
    assert_eq!(line_metrics("\r\n"), vec![line(0, true)]);
}

#[test]
fn carriage_return_at_the_end_of_text_stays() {
    assert_eq!(line_metrics("ab\r"), vec![line(3, false)]);
    assert_eq!(line_metrics("ab\ncd\r"), vec![line(2, false), line(3, false)]);
    assert_eq!(line_metrics("\r"), vec![line(1, true)]);
}

#[test]
fn blank_lines_are_marked() {
    assert_eq!(line_metrics("a\n \t \nb\n\u{a0}"), vec![line(1, false), line(3, true), line(1, false), line(2, true)]);
}

#[test]
fn lines_agree_with_the_standard_library() {
    let pieces = ["", "a", " ", "\n", "\r", "\r\n", "é", "x y", "\t", "\u{2029}", "😀"];
    for a in pieces {
        for b in pieces {
            for c in pieces {
                for d in pieces {
                    let text = format!("{}{}{}{}", a, b, c, d);
                    assert_eq!(line_metrics(&text), expected_metrics(&text), "{:?}", text);
                }
            }
        }
    }
}

#[test]
fn match_is_found_in_its_line() {
    let lines = line_metrics("hello\nbig world\nend");
    assert_eq!(
        locate_match(&lines, MatchSpan { start: 10, len: 5 }),
        Some(MatchPlace { line: 1, start: 4, end: 9 })
    );
    assert_eq!(
        locate_match(&lines, MatchSpan { start: 0, len: 2 }),
        Some(MatchPlace { line: 0, start: 0, end: 2 })
    );
    assert_eq!(
        locate_match(&lines, MatchSpan { start: 16, len: 3 }),
        Some(MatchPlace { line: 2, start: 0, end: 3 })
    );
}

#[test]
fn match_is_cut_at_the_end_of_its_line() {
    let lines = line_metrics("hello\nworld");
    assert_eq!(
        locate_match(&lines, MatchSpan { start: 3, len: 6 }),
        Some(MatchPlace { line: 0, start: 3, end: 5 })
    );
    assert_eq!(
        locate_match(&lines, MatchSpan { start: 3, len: usize::MAX }),
        Some(MatchPlace { line: 0, start: 3, end: 5 })
    );
}

#[test]
fn match_on_a_line_feed_lies_at_the_end_of_the_line() {
    let lines = line_metrics("ab\ncd");
    assert_eq!(
        locate_match(&lines, MatchSpan { start: 2, len: 1 }),
        Some(MatchPlace { line: 0, start: 2, end: 2 })
    );
}

#[test]
fn match_behind_the_text_has_no_place() {
    let lines = line_metrics("ab\ncd");
    assert_eq!(locate_match(&lines, MatchSpan { start: 5, len: 0 }), Some(MatchPlace { line: 1, start: 2, end: 2 }));
    assert_eq!(locate_match(&lines, MatchSpan { start: 6, len: 1 }), None);
    assert_eq!(locate_match(&lines, MatchSpan { start: usize::MAX, len: usize::MAX }), None);
    assert_eq!(locate_match(&vec![], MatchSpan { start: 0, len: 1 }), None);
}

#[test]
fn every_match_gets_its_place() {
    let spans = vec![MatchSpan { start: 1, len: 2 }, MatchSpan { start: 4, len: 1 }, MatchSpan { start: 40, len: 1 }];
    assert_eq!(
        place_matches("abc\ndef", &spans),
        vec![
            Some(MatchPlace { line: 0, start: 1, end: 3 }),
            Some(MatchPlace { line: 1, start: 0, end: 1 }),
            None,
        ]
    );
    assert_eq!(place_matches("abc", &vec![]), vec![]);
}

#[test]
fn markup_characters_are_escaped() {
    assert_eq!(escape_markup("a < b && c > \"d\" 'e'"), "a &lt; b &amp;&amp; c &gt; &quot;d&quot; &#39;e&#39;");
    assert_eq!(escape_markup(""), "");
    assert_eq!(escape_markup("plain é text"), "plain é text");
    assert_eq!(escape_markup("&amp;"), "&amp;amp;");
}

#[test]
fn escaping_agrees_with_replacing_one_character_after_the_other() {
    let pieces = ["&", "<", ">", "\"", "'", "a", ";", "#", "amp", "é"];
    for a in pieces {
        for b in pieces {
            for c in pieces {
                let text = format!("{}{}{}", a, b, c);
                assert_eq!(escape_markup(&text), chained_escape(&text), "{:?}", text);
            }
        }
    }
}

#[test]
fn blank_lines_keep_their_row_but_are_not_shown() {
    assert_eq!(
        visible_lines("top\n\n  \nlast é"),
        vec![VisibleLine { index: 0, len: 3 }, VisibleLine { index: 3, len: 7 }]
    );
    assert_eq!(visible_lines(""), vec![]);
    assert_eq!(visible_lines(" \n\t"), vec![]);
    for text in ["a\r\n\r\nb", "\n\nx", "x\n", "é\n \n😀 "] {
        let expected: Vec<VisibleLine> = text
            .lines()
            .enumerate()
            .filter(|(_, line)| !line.trim().is_empty())
            .map(|(index, line)| VisibleLine { index, len: line.len() })
            .collect();
        assert_eq!(visible_lines(text), expected, "{:?}", text);
    }
}
