use shadovi::Document;
use shadovi::Position;
use shadovi::SearchDirection;

#[test]
fn load_splits_on_line_feeds() {
    let doc = Document::load("abc\ndef\n", None);
    assert_eq!(doc.len(), 2);
    assert_eq!(doc.row(0).unwrap().as_bytes(), b"abc".to_vec());
    assert_eq!(doc.row(1).unwrap().as_bytes(), b"def".to_vec());
    assert!(doc.row(2).is_none());

    let doc = Document::load("a\r\nb", None);
    assert_eq!(doc.len(), 2);
    assert_eq!(doc.row(0).unwrap().as_bytes(), b"a".to_vec());
    assert_eq!(doc.row(1).unwrap().as_bytes(), b"b".to_vec());

    let doc = Document::load("", None);
    assert!(doc.is_empty());
}

#[test]
fn dirty_flag_lifecycle() {
    let mut doc = Document::load("abc\n", None);
    assert!(!doc.is_dirty());
    doc.insert(&Position { x: 0, y: 0 }, 'x');
    assert!(doc.is_dirty());
    doc.delete(&Position { x: 0, y: 0 });
    assert!(doc.is_dirty());
    let saved = doc.contents();
    doc.mark_saved();
    assert!(!doc.is_dirty());
    let reloaded = Document::load(&saved, None);
    assert!(!reloaded.is_dirty());
    assert_eq!(reloaded.contents(), saved);
}

#[test]
fn delete_at_line_end_merges_rows() {
    let mut doc = Document::load("abc\ndef\n", None);
    doc.delete(&Position { x: 3, y: 0 });
    assert_eq!(doc.len(), 1);
    assert_eq!(doc.row(0).unwrap().as_bytes(), b"abcdef".to_vec());
    assert!(doc.is_dirty());
}

#[test]
fn delete_at_document_end_is_noop() {
    let mut doc = Document::load("abc\n", None);
    doc.delete(&Position { x: 3, y: 0 });
    assert_eq!(doc.len(), 1);
    assert_eq!(doc.row(0).unwrap().as_bytes(), b"abc".to_vec());
    assert!(!doc.is_dirty());
    doc.delete(&Position { x: 0, y: 5 });
    assert!(!doc.is_dirty());
}

#[test]
fn insert_line_feed_splits_a_row() {
    let mut doc = Document::load("abcd\n", None);
    doc.insert(&Position { x: 2, y: 0 }, '\n');
    assert_eq!(doc.len(), 2);
    assert_eq!(doc.row(0).unwrap().as_bytes(), b"ab".to_vec());
    assert_eq!(doc.row(1).unwrap().as_bytes(), b"cd".to_vec());
}

#[test]
fn insert_on_virtual_last_line_appends_a_row() {
    let mut doc = Document::load("ab\n", None);
    doc.insert(&Position { x: 0, y: 1 }, 'c');
    assert_eq!(doc.len(), 2);
    assert_eq!(doc.row(1).unwrap().as_bytes(), b"c".to_vec());

    let mut doc = Document::load("ab\n", None);
    doc.insert(&Position { x: 0, y: 1 }, '\n');
    assert_eq!(doc.len(), 2);
    assert_eq!(doc.row(1).unwrap().as_bytes(), b"".to_vec());

    let mut doc = Document::load("ab\n", None);
    doc.insert(&Position { x: 0, y: 2 }, 'x');
    assert_eq!(doc.len(), 1);
    assert!(!doc.is_dirty());
}

#[test]
fn contents_round_trips_through_load() {
    let doc = Document::load("one\ntwo\nthree\n", None);
    assert_eq!(doc.contents(), "one\ntwo\nthree\n");
}

#[test]
fn find_scans_forward_across_lines() {
    let doc = Document::load("abc\ntbc\n", None);
    let hit = doc.find("t", &Position { x: 0, y: 0 }, SearchDirection::Forward);
    assert_eq!(hit, Some(Position { x: 0, y: 1 }));
    let hit = doc.find("b", &Position { x: 2, y: 0 }, SearchDirection::Forward);
    assert_eq!(hit, Some(Position { x: 1, y: 1 }));
    let miss = doc.find("z", &Position { x: 0, y: 0 }, SearchDirection::Forward);
    assert_eq!(miss, None);
}

#[test]
fn find_does_not_wrap_at_the_ends() {
    let doc = Document::load("tbc\nabc\n", None);
    // Forward from past the only occurrence: no wrap to line 0.
    let miss = doc.find("t", &Position { x: 1, y: 0 }, SearchDirection::Forward);
    assert_eq!(miss, None);
    // Backward from the start: nothing lies before it.
    let miss = doc.find("t", &Position { x: 0, y: 0 }, SearchDirection::Backward);
    assert_eq!(miss, None);
}

#[test]
fn find_scans_backward_across_lines() {
    let doc = Document::load("abc\ntbc\n", None);
    let hit = doc.find("a", &Position { x: 1, y: 1 }, SearchDirection::Backward);
    assert_eq!(hit, Some(Position { x: 0, y: 0 }));
    let hit = doc.find("b", &Position { x: 1, y: 1 }, SearchDirection::Backward);
    assert_eq!(hit, Some(Position { x: 1, y: 0 }));
}

#[test]
fn file_name_selects_highlighting() {
    let doc = Document::load("fn x\n", Some("main.rs".to_string()));
    assert_eq!(doc.file_name, Some("main.rs".to_string()));
    let doc = Document::load("fn x\n", None);
    assert_eq!(doc.file_name, None);
}

#[test]
fn document_highlight_runs_over_every_row() {
    let mut doc = Document::load("1\nt\n", Some("a.rs".to_string()));
    doc.highlight(Some("t"));
    let first = doc.row(0).unwrap().highlighting().clone();
    let second = doc.row(1).unwrap().highlighting().clone();
    assert_eq!(first, vec![shadovi::Type::Number]);
    assert_eq!(second, vec![shadovi::Type::Match]);
}
