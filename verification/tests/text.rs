use dto_generator::text::{
    contains, contains_char, is_whitespace, line_spans, matches_at, span_equals,
    strip_suffix_span, to_chars, token_spans, trim_span, Span,
};

fn cut(text: &str, spans: &[Span]) -> Vec<String> {
    let chars: Vec<char> = text.chars().collect();
    spans.iter().map(|s| chars[s.start..s.end].iter().collect()).collect()
}

fn lines_of(text: &str) -> Vec<String> {
    cut(text, &line_spans(&to_chars(text)))
}

fn tokens_of(text: &str) -> Vec<String> {
    cut(text, &token_spans(&to_chars(text)))
}

#[test]
fn whitespace_is_what_the_standard_library_takes_for_it() {
    for code in 0..=0x10FFFFu32 {
        if let Some(c) = char::from_u32(code) {
            assert_eq!(is_whitespace(c), c.is_whitespace(), "U+{:04X}", code);
        }
    }
}

#[test]
fn chars_are_the_characters_not_the_bytes() {
    assert_eq!(to_chars(""), Vec::<char>::new());
    assert_eq!(to_chars("aé→😀"), vec!['a', 'é', '→', '😀']);
}

#[test]
fn lines_end_at_line_feeds() {
    assert_eq!(lines_of(""), Vec::<String>::new());
    assert_eq!(lines_of("a"), vec!["a"]);
    assert_eq!(lines_of("a\n"), vec!["a"]);
    assert_eq!(lines_of("\n"), vec![""]);
    assert_eq!(lines_of("a\n\nb"), vec!["a", "", "b"]);
    assert_eq!(lines_of("a\nb\n\n"), vec!["a", "b", ""]);
    assert_eq!(lines_of("é\r\n😀"), vec!["é\r", "😀"]);
}

#[test]
fn line_spans_count_characters() {
    let spans = line_spans(&to_chars("éé\nab"));
    assert_eq!(spans, vec![Span { start: 0, end: 2 }, Span { start: 3, end: 5 }]);
}

#[test]
fn lines_are_those_of_the_standard_library_but_for_carriage_returns() {
    for text in ["", "\n", "a", "a\nb", "a\nb\n", "\n\na\n\n", "x\n\ny\nz"] {
        let expected: Vec<String> = text.lines().map(|l| l.to_string()).collect();
        assert_eq!(lines_of(text), expected, "{:?}", text);
    }
}

#[test]
fn tokens_are_the_stretches_without_whitespace() {
    assert_eq!(tokens_of(""), Vec::<String>::new());
    assert_eq!(tokens_of(" \t\n"), Vec::<String>::new());
    assert_eq!(tokens_of("a"), vec!["a"]);
    assert_eq!(tokens_of("  ab  c\td "), vec!["ab", "c", "d"]);
    assert_eq!(tokens_of("List<> someList,"), vec!["List<>", "someList,"]);
}

#[test]
fn tokens_are_those_of_the_standard_library() {
    for text in [
        "",
        " ",
        "public record Station(",
        "\u{2003}Long\u{a0}marketId\u{85}",
        "a\u{200b}b c",
        "\r\n x \r\n",
        "é 😀  →",
    ] {
        let expected: Vec<String> = text.split_whitespace().map(|t| t.to_string()).collect();
        assert_eq!(tokens_of(text), expected, "{:?}", text);
    }
}

#[test]
fn pattern_is_found_where_it_stands() {
    let text = to_chars("a record b");
    let record = to_chars("record");
    assert!(matches_at(&text, &record, 2));
    assert!(!matches_at(&text, &record, 1));
    assert!(!matches_at(&text, &record, 5));
    assert!(!matches_at(&text, &record, 10));
    assert!(!matches_at(&text, &record, 11));
    assert!(matches_at(&text, &[], 10));
    assert!(!matches_at(&text, &[], 11));
}

#[test]
fn pattern_is_found_anywhere() {
    let record = to_chars("record");
    assert!(contains(&to_chars("record"), &record));
    assert!(contains(&to_chars("xrecordx"), &record));
    assert!(contains(&to_chars("rerecord"), &record));
    assert!(!contains(&to_chars("recor"), &record));
    assert!(!contains(&to_chars("rec ord"), &record));
    assert!(!contains(&to_chars("Record"), &record));
    assert!(!contains(&to_chars(""), &record));
    assert!(contains(&to_chars(""), &[]));
    assert!(contains(&to_chars("abc"), &[]));
}

#[test]
fn character_is_found_anywhere() {
    assert!(contains_char(&to_chars(") {"), ')'));
    assert!(contains_char(&to_chars("a)"), ')'));
    assert!(!contains_char(&to_chars("a("), ')'));
    assert!(!contains_char(&to_chars(""), ')'));
}

#[test]
fn span_is_compared_with_a_pattern() {
    let text = to_chars("a record b");
    let record = to_chars("record");
    assert!(span_equals(&text, Span { start: 2, end: 8 }, &record));
    assert!(!span_equals(&text, Span { start: 2, end: 7 }, &record));
    assert!(!span_equals(&text, Span { start: 2, end: 9 }, &record));
    assert!(!span_equals(&text, Span { start: 1, end: 7 }, &record));
    assert!(span_equals(&text, Span { start: 4, end: 4 }, &[]));
}

#[test]
fn trimming_drops_the_character_at_both_ends() {
    let text = to_chars("x((a(b((y");
    assert_eq!(trim_span(&text, Span { start: 1, end: 8 }, '('), Span { start: 3, end: 6 });
    assert_eq!(trim_span(&text, Span { start: 3, end: 6 }, '('), Span { start: 3, end: 6 });
    let trimmed = trim_span(&text, Span { start: 1, end: 3 }, '(');
    assert_eq!(trimmed.start, trimmed.end);
    assert_eq!(trim_span(&text, Span { start: 0, end: 9 }, '('), Span { start: 0, end: 9 });
}

#[test]
fn stripping_drops_one_character_at_the_end() {
    let text = to_chars("a,,");
    assert_eq!(strip_suffix_span(&text, Span { start: 0, end: 3 }, ','), Span { start: 0, end: 2 });
    assert_eq!(strip_suffix_span(&text, Span { start: 0, end: 1 }, ','), Span { start: 0, end: 1 });
    assert_eq!(strip_suffix_span(&text, Span { start: 1, end: 1 }, ','), Span { start: 1, end: 1 });
}
