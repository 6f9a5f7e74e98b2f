use shadovi::FileType;
use shadovi::Position;
use shadovi::Row;
use shadovi::SearchDirection;
use shadovi::Type;

fn rust_type() -> FileType {
    FileType::from("sample.rs")
}

#[test]
fn test_highlight_find() {
    let mut row = Row::from("1testtest");
    let ft = rust_type();
    row.highlight(ft.highlighting_options(), None);
    assert_eq!(
        vec![
            Type::Number,
            Type::Normal,
            Type::Normal,
            Type::Normal,
            Type::Normal,
            Type::Normal,
            Type::Normal,
            Type::Normal,
            Type::Normal,
        ],
        row.highlighting().clone()
    );
    row.highlight_match(Some("t"));
    assert_eq!(
        vec![
            Type::Number,
            Type::Match,
            Type::Normal,
            Type::Normal,
            Type::Match,
            Type::Match,
            Type::Normal,
            Type::Normal,
            Type::Match,
        ],
        row.highlighting().clone()
    );
}

#[test]
fn test_find() {
    let row = Row::from("1testtest");
    assert_eq!(row.find("t", 0, SearchDirection::Forward), Some(1));
    assert_eq!(row.find("t", 2, SearchDirection::Forward), Some(4));
    assert_eq!(row.find("t", 5, SearchDirection::Forward), Some(5));
}

#[test]
fn find_backward_is_rightmost_before() {
    let row = Row::from("1testtest");
    assert_eq!(row.find("t", 9, SearchDirection::Backward), Some(8));
    assert_eq!(row.find("t", 5, SearchDirection::Backward), Some(4));
    assert_eq!(row.find("t", 1, SearchDirection::Backward), None);
}

#[test]
fn find_rejects_empty_query_and_out_of_range_start() {
    let row = Row::from("abc");
    assert_eq!(row.find("", 0, SearchDirection::Forward), None);
    assert_eq!(row.find("a", 4, SearchDirection::Forward), None);
    assert_eq!(row.find("zz", 0, SearchDirection::Forward), None);
}

#[test]
fn find_multi_character_query() {
    let row = Row::from("abcabc");
    assert_eq!(row.find("bc", 0, SearchDirection::Forward), Some(1));
    assert_eq!(row.find("bc", 2, SearchDirection::Forward), Some(4));
    assert_eq!(row.find("bc", 6, SearchDirection::Backward), Some(4));
}

#[test]
fn delete_then_insert_restores_length() {
    for i in 0..5 {
        let mut row = Row::from("hello");
        let before = row.len();
        row.delete(i);
        row.insert(i, 'x');
        assert_eq!(row.len(), before);
    }
    let mut row = Row::from("hello");
    row.delete(1);
    row.insert(1, 'x');
    assert_eq!(row.as_bytes(), b"hxllo".to_vec());
}

#[test]
fn split_then_append_reconstructs() {
    for at in 0..=4 {
        let mut row = Row::from("abcd");
        let tail = row.split(at);
        row.append(&tail);
        assert_eq!(row.len(), 4);
        assert_eq!(row.as_bytes(), b"abcd".to_vec());
    }
}

#[test]
fn insert_past_end_appends() {
    let mut row = Row::from("ab");
    row.insert(99, 'c');
    assert_eq!(row.len(), 3);
    assert_eq!(row.as_bytes(), b"abc".to_vec());
}

#[test]
fn delete_past_end_is_noop() {
    let mut row = Row::from("ab");
    row.delete(2);
    assert_eq!(row.len(), 2);
    assert_eq!(row.as_bytes(), b"ab".to_vec());
}

#[test]
fn grapheme_cluster_counts_not_chars() {
    // 'a' followed by a combining acute accent forms one cluster.
    let row = Row::from("a\u{0301}b");
    assert_eq!(row.len(), 2);
    let row = Row::from("");
    assert!(row.is_empty());
}

#[test]
fn highlight_covers_every_grapheme() {
    let ft = rust_type();
    let cases = ["", "\"unterminated", "abc123", "x1", "12.5 7", "'a' '\\n'", "// note", "fn x"];
    for text in cases {
        let mut row = Row::from(text);
        row.highlight(ft.highlighting_options(), None);
        assert_eq!(row.highlighting().len(), row.len());
    }
}

#[test]
fn highlight_classifies_tokens() {
    let ft = rust_type();
    let mut row = Row::from("'a'");
    row.highlight(ft.highlighting_options(), None);
    assert_eq!(row.highlighting().clone(), vec![Type::Character; 3]);

    let mut row = Row::from("// note");
    row.highlight(ft.highlighting_options(), None);
    assert_eq!(row.highlighting().clone(), vec![Type::Comment; 7]);

    let mut row = Row::from("\"ab\"x");
    row.highlight(ft.highlighting_options(), None);
    assert_eq!(
        row.highlighting().clone(),
        vec![Type::Str, Type::Str, Type::Str, Type::Str, Type::Normal]
    );

    let mut row = Row::from("\"open");
    row.highlight(ft.highlighting_options(), None);
    assert_eq!(row.highlighting().clone(), vec![Type::Str; 5]);

    let mut row = Row::from("x1 2");
    row.highlight(ft.highlighting_options(), None);
    assert_eq!(
        row.highlighting().clone(),
        vec![Type::Normal, Type::Normal, Type::Normal, Type::Number]
    );

    let mut row = Row::from("fn x");
    row.highlight(ft.highlighting_options(), None);
    assert_eq!(
        row.highlighting().clone(),
        vec![Type::KeywordPrimary, Type::KeywordPrimary, Type::Normal, Type::Normal]
    );
}

#[test]
fn plain_options_highlight_nothing() {
    let ft = FileType::default();
    let mut row = Row::from("'a' // 7 \"s\" fn");
    row.highlight(ft.highlighting_options(), None);
    assert!(row.highlighting().iter().all(|t| *t == Type::Normal));
    assert_eq!(row.highlighting().len(), row.len());
}

#[test]
fn render_expands_tabs_and_resets_style() {
    let row = Row::from("a\tb");
    assert_eq!(row.render(0, 3), "a  b\u{1b}[39m");
    assert_eq!(row.render(1, 2), "  \u{1b}[39m");
    assert_eq!(row.render(2, 99), "b\u{1b}[39m");
}

#[test]
fn render_emits_marker_on_category_change() {
    let ft = rust_type();
    let mut row = Row::from("1x");
    row.highlight(ft.highlighting_options(), None);
    assert_eq!(
        row.render(0, 2),
        "\u{1b}[38;2;220;163;163m1\u{1b}[39mx\u{1b}[39m"
    );
}

#[test]
fn render_compresses_equal_categories() {
    let ft = rust_type();
    let mut row = Row::from("12");
    row.highlight(ft.highlighting_options(), None);
    // One marker for the whole run of digits, not one per digit.
    assert_eq!(row.render(0, 2), "\u{1b}[38;2;220;163;163m12\u{1b}[39m");
}

#[test]
fn render_of_empty_range_is_just_the_reset() {
    let row = Row::from("abc");
    assert_eq!(row.render(5, 2), "\u{1b}[39m");
    let empty = Row::from("");
    assert_eq!(empty.render(0, 80), "\u{1b}[39m");
}

#[test]
fn as_bytes_is_utf8_text() {
    let row = Row::from("abc");
    assert_eq!(row.as_bytes(), b"abc".to_vec());
    let row = Row::from("\u{e9}");
    assert_eq!(row.as_bytes(), vec![0xc3, 0xa9]);
}

#[test]
fn position_default_is_origin() {
    let p = Position::default();
    assert_eq!(p.x, 0);
    assert_eq!(p.y, 0);
}
