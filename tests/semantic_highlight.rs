use fresh::highlight::{Color, SemanticHighlighter};

#[test]
fn test_get_word_at_position() {
    let buffer = "hello world test".as_bytes();
    let highlighter = SemanticHighlighter::new();

    let range = highlighter.get_word_at_position(buffer, 2).unwrap();
    assert_eq!(range, 0..5);

    let range = highlighter.get_word_at_position(buffer, 6).unwrap();
    assert_eq!(range, 6..11);

    let range = highlighter.get_word_at_position(buffer, 5);
    assert!(range.is_none());
}

#[test]
fn test_find_occurrences() {
    let buffer = "foo bar foo baz foo".as_bytes();
    let highlighter = SemanticHighlighter::new();

    let occurrences = highlighter.find_occurrences_in_range(buffer, b"foo", 0, buffer.len());
    assert_eq!(occurrences.len(), 3);
    assert_eq!(occurrences[0], 0..3);
    assert_eq!(occurrences[1], 8..11);
    assert_eq!(occurrences[2], 16..19);
}

#[test]
fn test_whole_word_only() {
    let buffer = "foobar foo foobaz".as_bytes();
    let highlighter = SemanticHighlighter::new();

    let occurrences = highlighter.find_occurrences_in_range(buffer, b"foo", 0, buffer.len());
    assert_eq!(occurrences.len(), 1);
    assert_eq!(occurrences[0], 7..10);
}

#[test]
fn test_highlight_occurrences() {
    let buffer = "let foo = 1;\nlet bar = foo;\nlet baz = foo;".as_bytes();
    let highlighter = SemanticHighlighter::new();

    let spans = highlighter.highlight_occurrences(buffer, 4, 0, buffer.len());
    assert_eq!(spans.len(), 3);
}

#[test]
fn test_min_word_length() {
    let buffer = "a b c a b c".as_bytes();
    let highlighter = SemanticHighlighter::new().with_min_length(2);

    let spans = highlighter.highlight_occurrences(buffer, 0, 0, buffer.len());
    assert_eq!(spans.len(), 0);
}

#[test]
fn test_disabled() {
    let buffer = "hello hello hello".as_bytes();
    let mut highlighter = SemanticHighlighter::new();
    highlighter.enabled = false;

    let spans = highlighter.highlight_occurrences(buffer, 0, 0, buffer.len());
    assert_eq!(spans.len(), 0);
}

#[test]
fn test_cursor_at_end_of_buffer() {
    let buffer = "foo bar foo".as_bytes();
    let highlighter = SemanticHighlighter::new();

    let spans = highlighter.highlight_occurrences(buffer, buffer.len(), 0, buffer.len());
    assert_eq!(spans.len(), 2);
}

#[test]
fn test_cursor_on_word() {
    let buffer = "foo bar foo".as_bytes();
    let highlighter = SemanticHighlighter::new();

    let spans = highlighter.highlight_occurrences(buffer, 0, 0, buffer.len());
    assert_eq!(spans.len(), 2);
}

#[test]
fn test_viewport_limiting() {
    let buffer = "foo bar foo baz foo".as_bytes();
    let highlighter = SemanticHighlighter::new();

    let spans = highlighter.highlight_occurrences(buffer, 8, 4, 12);
    assert_eq!(spans.len(), 1);
    assert_eq!(spans[0].range, 8..11);
}

#[test]
fn highlights_carry_the_chosen_color() {
    let buffer = "ab ab".as_bytes();
    let color = Color { r: 1, g: 2, b: 3 };
    let highlighter = SemanticHighlighter::default().with_color(color);
    let spans = highlighter.highlight_occurrences(buffer, 0, 0, buffer.len());
    assert_eq!(spans.len(), 2);
    assert!(spans.iter().all(|s| s.color == color));
}

#[test]
fn invalid_utf8_window_finds_nothing() {
    let buffer: &[u8] = &[b'f', b'o', b'o', b' ', 0xff, b' ', b'f', b'o', b'o'];
    let highlighter = SemanticHighlighter::new();
    assert!(highlighter.find_occurrences_in_range(buffer, b"foo", 0, buffer.len()).is_empty());
    assert_eq!(highlighter.find_occurrences_in_range(buffer, b"foo", 0, 1), vec![0..3]);
}
