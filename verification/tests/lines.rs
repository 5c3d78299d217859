use std::borrow::Cow;

use groupnest::lines::{linebreak_len, Lines, LinesCow};

#[test]
fn newline_identification() {
    let haystack = "\r\n\n\r\u{000B}";
    let result = haystack
        .char_indices()
        .map(|(by, _)| linebreak_len(haystack, by))
        .collect::<Vec<_>>();
    assert_eq!(result, vec![Some(2), Some(1), Some(1), Some(1), Some(1)]);
}

#[test]
fn segmentate() {
    let haystack = "The quick brown fox\r\njumps over\u{2029}the lazy dog.\n";
    let result = Lines::new(haystack).collect_lines();
    assert_eq!(result, vec!["The quick brown fox", "jumps over", "the lazy dog.", ""]);
}

#[test]
fn ownership() {
    let haystack = String::from("The quick brown fox\r\njumps over\u{2029}the lazy dog.\n");
    let mut lines = LinesCow::new(Cow::Owned(haystack));
    let mut result: Vec<Cow<'_, str>> = Vec::new();
    while let Some(line) = lines.next_line() {
        result.push(line);
    }
    assert_eq!(result, vec!["The quick brown fox", "jumps over", "the lazy dog.", ""]);
    assert!(result.iter().all(|elem| matches!(elem, Cow::Owned(_))));
}

#[test]
fn borrowed_lines_stay_borrowed() {
    let haystack = "a\r\nb\n";
    let mut lines = LinesCow::new(Cow::Borrowed(haystack));
    let mut result: Vec<Cow<'_, str>> = Vec::new();
    while let Some(line) = lines.next_line() {
        result.push(line);
    }
    assert_eq!(result, vec!["a", "b", ""]);
    assert!(result.iter().all(|elem| matches!(elem, Cow::Borrowed(_))));
}
