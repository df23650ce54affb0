use semver_bump::text::{split_spans, DOT, NEWLINE};

#[test]
fn split_spans_of_empty_text_is_one_empty_piece() {
    assert_eq!(split_spans(b"", NEWLINE), vec![(0, 0)]);
}

#[test]
fn split_spans_without_separator_is_the_whole_text() {
    assert_eq!(split_spans(b"abc", NEWLINE), vec![(0, 3)]);
}

#[test]
fn split_spans_cuts_at_every_separator() {
    assert_eq!(split_spans(b"a\nbc\n\nd", NEWLINE), vec![(0, 1), (2, 4), (5, 5), (6, 7)]);
    assert_eq!(split_spans(b"1.2.3", DOT), vec![(0, 1), (2, 3), (4, 5)]);
}

#[test]
fn split_spans_keeps_empty_pieces_at_both_ends() {
    assert_eq!(split_spans(b"\n", NEWLINE), vec![(0, 0), (1, 1)]);
    assert_eq!(split_spans(b"\na\n", NEWLINE), vec![(0, 0), (1, 2), (3, 3)]);
    assert_eq!(split_spans(b"...", DOT), vec![(0, 0), (1, 1), (2, 2), (3, 3)]);
}

#[test]
fn split_spans_agrees_with_str_split() {
    for text in ["", "a", "\n", "a\nb", "a\n\nb\n", "\n\n\n", "pkg1 = 3.0.0\npkg2 = 5.4.3\npkg3 = 1.2.3\n", "\u{e9}\n\u{4e16}\u{754c}\r\n"] {
        let pieces: Vec<&str> =
            split_spans(text.as_bytes(), NEWLINE).iter().map(|&(a, b)| &text[a..b]).collect();
        let expected: Vec<&str> = text.split("\n").collect();
        assert_eq!(pieces, expected);
    }
}

#[test]
fn the_separators_are_line_feed_and_dot() {
    assert_eq!(NEWLINE, b'\n');
    assert_eq!(DOT, b'.');
}
