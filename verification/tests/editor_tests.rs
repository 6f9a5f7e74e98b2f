use shadovi::Document;
use shadovi::Editor;
use shadovi::FileType;
use shadovi::Key;
use shadovi::Position;

fn editor_over(text: &str) -> Editor {
    Editor::new(Document::load(text, None))
}

#[test]
fn scroll_reveals_cursor_below_viewport() {
    let mut e = editor_over("");
    e.cursor_position = Position { x: 0, y: 25 };
    e.scroll(80, 10);
    assert_eq!(e.offset.y, 16);
}

#[test]
fn scroll_reveals_cursor_above_viewport() {
    let mut e = editor_over("");
    e.offset = Position { x: 7, y: 9 };
    e.cursor_position = Position { x: 3, y: 4 };
    e.scroll(80, 10);
    assert_eq!(e.offset.y, 4);
    assert_eq!(e.offset.x, 3);
}

#[test]
fn scroll_keeps_offset_when_cursor_visible() {
    let mut e = editor_over("");
    e.offset = Position { x: 2, y: 3 };
    e.cursor_position = Position { x: 5, y: 7 };
    e.scroll(10, 10);
    assert_eq!(e.offset, Position { x: 2, y: 3 });
}

#[test]
fn scroll_right_edge_rule() {
    let mut e = editor_over("");
    e.cursor_position = Position { x: 100, y: 0 };
    e.scroll(80, 10);
    assert_eq!(e.offset.x, 21);
}

#[test]
fn move_right_wraps_to_next_line() {
    let mut e = editor_over("ab\ncd\n");
    e.cursor_position = Position { x: 2, y: 0 };
    e.move_cursor(Key::Right, 10);
    assert_eq!(e.cursor_position, Position { x: 0, y: 1 });
}

#[test]
fn move_left_wraps_to_previous_line_end() {
    let mut e = editor_over("abc\nd\n");
    e.cursor_position = Position { x: 0, y: 1 };
    e.move_cursor(Key::Left, 10);
    assert_eq!(e.cursor_position, Position { x: 3, y: 0 });
}

#[test]
fn vertical_move_clamps_column_to_shorter_line() {
    let mut e = editor_over("abcdef\nab\n");
    e.cursor_position = Position { x: 6, y: 0 };
    e.move_cursor(Key::Down, 10);
    assert_eq!(e.cursor_position, Position { x: 2, y: 1 });
}

#[test]
fn page_keys_jump_by_viewport_height() {
    let mut e = editor_over("a\nb\nc\nd\ne\nf\ng\nh\n");
    e.cursor_position = Position { x: 0, y: 1 };
    e.move_cursor(Key::PageDown, 3);
    assert_eq!(e.cursor_position.y, 4);
    e.move_cursor(Key::PageDown, 100);
    assert_eq!(e.cursor_position.y, 8);
    e.move_cursor(Key::PageUp, 3);
    assert_eq!(e.cursor_position.y, 5);
    e.move_cursor(Key::PageUp, 100);
    assert_eq!(e.cursor_position.y, 0);
}

#[test]
fn home_and_end_jump_to_line_edges() {
    let mut e = editor_over("abcd\n");
    e.cursor_position = Position { x: 2, y: 0 };
    e.move_cursor(Key::End, 10);
    assert_eq!(e.cursor_position, Position { x: 4, y: 0 });
    e.move_cursor(Key::Home, 10);
    assert_eq!(e.cursor_position, Position { x: 0, y: 0 });
}

#[test]
fn screen_cursor_is_offset_relative() {
    let mut e = editor_over("");
    e.cursor_position = Position { x: 12, y: 30 };
    e.offset = Position { x: 10, y: 26 };
    let p = e.screen_cursor();
    assert_eq!(p, Position { x: 2, y: 4 });
}

#[test]
fn file_type_names() {
    assert_eq!(FileType::from("lib.rs").name().as_str(), "Rust");
    assert_eq!(FileType::from("notes.txt").name().as_str(), "No filetype");
    assert_eq!(FileType::default().name().as_str(), "No filetype");
}
