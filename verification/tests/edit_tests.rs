use split_editor::app::AppState;
use split_editor::keys::KeyCode;
use split_editor::render::Rect;
use split_editor::text::TextPanel;

fn hundred_lines() -> String {
    (100..200).map(|i| i.to_string()).collect::<Vec<String>>().join("\n")
}

fn strings(v: &[&str]) -> Vec<String> {
    v.iter().map(|s| s.to_string()).collect()
}

#[test]
fn set_text() {
    let mut edit = TextPanel::default();
    edit.set_text("\n123456789\n123456\n");

    assert_eq!(edit.lines(), strings(&["", "123456789", "123456", ""]))
}

#[test]
fn cursor_is_one_past_end() {
    let mut edit = TextPanel::default();
    edit.set_text("123456789\n123456");
    edit.set_cursor_to_end();

    let (_, cursor, _) = edit.make_text_content(Rect::new(10, 10, 20, 20));

    assert_eq!(cursor, (16, 11));
}

#[test]
fn cursor_on_continuation_line() {
    let mut edit = TextPanel::default();
    edit.set_text("123456789012345678901234567890");
    edit.set_current_line(0);
    edit.set_cursor_index(25);

    let (_, cursor, _) = edit.make_text_content(Rect::new(10, 10, 20, 20));

    assert_eq!(cursor, (edit.cursor_index_in_line() as u16 - 10 + edit.continuation_marker().len() as u16, 11));
}

#[test]
fn cursor_end_of_continuation_line() {
    let mut edit = TextPanel::default();
    edit.set_text("123456789012345678901234567890");
    edit.set_cursor_to_end();

    let (_, cursor, _) = edit.make_text_content(Rect::new(10, 10, 20, 20));

    assert_eq!(cursor, (20 + edit.continuation_marker().len() as u16, 11));
}

#[test]
fn cursor_end_of_multiple_continuation_line() {
    let mut edit = TextPanel::default();
    edit.set_text("12345678901234567890123456789012345678901234567890");
    edit.set_cursor_to_end();

    let (_, cursor, _) = edit.make_text_content(Rect::new(10, 10, 20, 20));

    assert_eq!(cursor, (24 + edit.continuation_marker().len() as u16, 12));
}

#[test]
fn line_after_line_with_continuations() {
    let mut edit = TextPanel::default();
    edit.set_text("12345678901234567890123456789012345678901234567890\n1234567890");
    edit.set_cursor_to_end();

    let (_, cursor, gutter) = edit.make_text_content(Rect::new(10, 10, 20, 20));

    assert_eq!(cursor, (20, 13));
    assert_eq!(gutter, strings(&["1", ".", ".", "2"]));
}

#[test]
fn cursor_is_next_line_when_after_newline() {
    let mut edit = TextPanel::default();
    edit.set_text("123456789\n123456\n");
    edit.set_cursor_to_end();

    let (_, cursor, _) = edit.make_text_content(Rect::new(10, 10, 20, 20));

    assert_eq!(cursor, (10, 12));
}

#[test]
fn newline_after_line_with_continuations() {
    let mut edit = TextPanel::default();
    edit.set_text("12345678901234567890123456789012345678901234567890\n");
    edit.set_cursor_to_end();

    let (_, cursor, gutter) = edit.make_text_content(Rect::new(10, 10, 20, 20));

    assert_eq!(cursor, (10, 13));
    assert_eq!(gutter, strings(&["1", ".", ".", "2"]));
}

#[test]
fn lines_with_scroll() {
    let mut edit = TextPanel::default();
    edit.set_text(&hundred_lines());
    edit.set_current_line(12);
    edit.set_cursor_index(1);
    edit.set_scroll_y(10);

    let (spans, cursor, gutter) = edit.make_text_content(Rect::new(10, 10, 20, 10));

    assert_eq!(cursor, (11, 12));

    let expected: Vec<Vec<String>> = (110..120).map(|i| vec![i.to_string()]).collect();
    assert_eq!(spans, expected);

    let expected_gutter: Vec<String> = (11..21).map(|i| i.to_string()).collect();
    assert_eq!(gutter, expected_gutter);
}

#[test]
fn wrapped_rows_carry_marker() {
    let mut edit = TextPanel::default();
    edit.set_text("123456789012345678901234567890");

    let (spans, cursor, _) = edit.make_text_content(Rect::new(0, 0, 20, 5));

    assert_eq!(
        spans,
        vec![vec!["12345678901234567890".to_string()], vec!["... ".to_string(), "1234567890".to_string()]]
    );
    // the cursor shows on the last row of the line, after the marker
    assert_eq!(cursor, (4, 1));
}

#[test]
fn cursor_hidden_when_line_not_shown() {
    let mut edit = TextPanel::default();
    edit.set_text(&hundred_lines());
    edit.set_current_line(50);
    edit.set_scroll_y(0);

    let (_, cursor, _) = edit.make_text_content(Rect::new(0, 0, 20, 10));

    assert_eq!(cursor, (32767, 32767));
}

#[test]
fn handle_character_key() {
    let mut edit = TextPanel::default();
    let mut state = AppState::new();

    edit.handle_key_stroke(KeyCode::Char('a'), &mut state);

    assert_eq!(edit.lines(), strings(&["a"]));
    assert_eq!(edit.cursor_index_in_line(), 1);
}

#[test]
fn handle_character_key_middle_of_line() {
    let mut edit = TextPanel::default();
    edit.set_text("ac");
    edit.set_cursor_index(1);

    let mut state = AppState::new();

    edit.handle_key_stroke(KeyCode::Char('b'), &mut state);

    assert_eq!(edit.lines(), strings(&["abc"]));
    assert_eq!(edit.cursor_index_in_line(), 2);
}

#[test]
fn handle_character_key_with_existing_text() {
    let mut edit = TextPanel::default();
    edit.set_text("a");
    edit.set_cursor_index(1);

    let mut state = AppState::new();

    edit.handle_key_stroke(KeyCode::Char('b'), &mut state);

    assert_eq!(edit.lines(), strings(&["ab"]));
    assert_eq!(edit.cursor_index_in_line(), 2);
}

#[test]
fn handle_enter_key() {
    let mut edit = TextPanel::default();
    edit.set_text("a");
    edit.set_cursor_index(1);

    let mut state = AppState::new();

    edit.handle_key_stroke(KeyCode::Enter, &mut state);

    assert_eq!(edit.lines(), strings(&["a", ""]));
    assert_eq!(edit.current_line(), 1);
    assert_eq!(edit.cursor_index_in_line(), 0);
}

#[test]
fn handle_backspace_key() {
    let mut edit = TextPanel::default();
    edit.set_text("a");
    edit.set_cursor_index(1);

    let mut state = AppState::new();

    edit.handle_key_stroke(KeyCode::Backspace, &mut state);

    assert_eq!(edit.lines(), strings(&[""]));
    assert_eq!(edit.current_line(), 0);
    assert_eq!(edit.cursor_index_in_line(), 0);
}

#[test]
fn handle_backspace_key_middle_of_line() {
    let mut edit = TextPanel::default();
    edit.set_text("abc");
    edit.set_cursor_index(2);

    let mut state = AppState::new();

    edit.handle_key_stroke(KeyCode::Backspace, &mut state);

    assert_eq!(edit.lines(), strings(&["ac"]));
    assert_eq!(edit.current_line(), 0);
    assert_eq!(edit.cursor_index_in_line(), 1);
}

#[test]
fn handle_backspace_key_start_of_non_empty_line() {
    let mut edit = TextPanel::default();
    edit.set_text("abc\ndef");
    edit.set_current_line(1);
    edit.set_cursor_index(0);

    let mut state = AppState::new();

    edit.handle_key_stroke(KeyCode::Backspace, &mut state);

    assert_eq!(edit.lines(), strings(&["abcdef"]));
    assert_eq!(edit.current_line(), 0);
    assert_eq!(edit.cursor_index_in_line(), 3);
}

#[test]
fn handle_backspace_key_on_newline() {
    let mut edit = TextPanel::default();
    edit.set_text("a\na");
    edit.set_current_line(1);
    edit.set_cursor_index(1);

    let mut state = AppState::new();

    edit.handle_key_stroke(KeyCode::Backspace, &mut state);
    edit.handle_key_stroke(KeyCode::Backspace, &mut state);

    assert_eq!(edit.lines(), strings(&["a"]));
    assert_eq!(edit.current_line(), 0);
    assert_eq!(edit.cursor_index_in_line(), 1);
}

#[test]
fn handle_delete_key() {
    let mut edit = TextPanel::default();
    edit.set_text("a");
    edit.set_cursor_index(0);

    let mut state = AppState::new();

    edit.handle_key_stroke(KeyCode::Delete, &mut state);

    assert_eq!(edit.lines(), strings(&[""]));
    assert_eq!(edit.current_line(), 0);
    assert_eq!(edit.cursor_index_in_line(), 0);
}

#[test]
fn handle_delete_key_middle_of_line() {
    let mut edit = TextPanel::default();
    edit.set_text("abc");
    edit.set_cursor_index(1);

    let mut state = AppState::new();

    edit.handle_key_stroke(KeyCode::Delete, &mut state);

    assert_eq!(edit.lines(), strings(&["ac"]));
    assert_eq!(edit.current_line(), 0);
    assert_eq!(edit.cursor_index_in_line(), 1);
}

#[test]
fn handle_delete_key_on_empty_line() {
    let mut edit = TextPanel::default();
    edit.set_text("abc\n\ndef");
    edit.set_current_line(1);
    edit.set_cursor_index(0);

    let mut state = AppState::new();

    edit.handle_key_stroke(KeyCode::Delete, &mut state);

    assert_eq!(edit.lines(), strings(&["abc", "def"]));
    assert_eq!(edit.current_line(), 1);
    assert_eq!(edit.cursor_index_in_line(), 0);
}

#[test]
fn handle_delete_key_end_of_line() {
    let mut edit = TextPanel::default();
    edit.set_text("abc\ndef");
    edit.set_current_line(0);
    edit.set_cursor_index(3);

    let mut state = AppState::new();

    edit.handle_key_stroke(KeyCode::Delete, &mut state);

    assert_eq!(edit.lines(), strings(&["abcdef"]));
    assert_eq!(edit.current_line(), 0);
    assert_eq!(edit.cursor_index_in_line(), 3);
}

#[test]
fn scroll_down_one() {
    let mut edit = TextPanel::default();
    edit.set_text(&hundred_lines());
    edit.set_scroll_y(95);

    let mut state = AppState::new();

    edit.scroll_down_one(KeyCode::Null, &mut state);

    assert_eq!(edit.scroll_y(), 96);
}

#[test]
fn scroll_down_past_text() {
    let mut edit = TextPanel::default();
    edit.set_text(&hundred_lines());
    edit.set_scroll_y(95);

    let mut state = AppState::new();

    edit.scroll_down_ten(KeyCode::Null, &mut state);

    assert_eq!(edit.scroll_y(), 100);
}

#[test]
fn scroll_up_one() {
    let mut edit = TextPanel::default();
    let mut state = AppState::new();
    edit.set_scroll_y(6);

    edit.scroll_up_one(KeyCode::Null, &mut state);

    assert_eq!(edit.scroll_y(), 5);
}

#[test]
fn scroll_up_one_at_zero() {
    let mut edit = TextPanel::default();
    let mut state = AppState::new();

    edit.scroll_up_one(KeyCode::Null, &mut state);

    assert_eq!(edit.scroll_y(), 0);
}

#[test]
fn next_character() {
    let mut edit = TextPanel::default();
    edit.set_text(&hundred_lines());
    edit.set_current_line(2);
    edit.set_cursor_index(2);
    let mut state = AppState::new();

    edit.move_to_next_character(KeyCode::Null, &mut state);

    assert_eq!(edit.cursor_index_in_line(), 3);
}

#[test]
fn next_character_to_next_line() {
    let mut edit = TextPanel::default();
    edit.set_text(&hundred_lines());
    edit.set_current_line(2);
    edit.set_cursor_index(2);
    let mut state = AppState::new();

    edit.move_to_next_character(KeyCode::Null, &mut state);
    assert_eq!(edit.cursor_index_in_line(), 3);

    edit.move_to_next_character(KeyCode::Null, &mut state);
    assert_eq!(edit.cursor_index_in_line(), 0);
    assert_eq!(edit.current_line(), 3);
}

#[test]
fn previous_character() {
    let mut edit = TextPanel::default();
    edit.set_text(&hundred_lines());
    edit.set_current_line(2);
    edit.set_cursor_index(2);
    let mut state = AppState::new();

    edit.move_to_previous_character(KeyCode::Null, &mut state);

    assert_eq!(edit.cursor_index_in_line(), 1);
}

#[test]
fn previous_character_to_previous_line() {
    let mut edit = TextPanel::default();
    edit.set_text(&hundred_lines());
    edit.set_current_line(2);
    edit.set_cursor_index(2);
    let mut state = AppState::new();

    edit.move_to_previous_character(KeyCode::Null, &mut state);
    assert_eq!(edit.cursor_index_in_line(), 1);

    edit.move_to_previous_character(KeyCode::Null, &mut state);
    assert_eq!(edit.cursor_index_in_line(), 0);

    edit.move_to_previous_character(KeyCode::Null, &mut state);
    assert_eq!(edit.cursor_index_in_line(), 3);
    assert_eq!(edit.current_line(), 1);
}

#[test]
fn previous_character_at_zero() {
    let mut edit = TextPanel::default();
    edit.set_text(&hundred_lines());
    let mut state = AppState::new();

    edit.move_to_previous_character(KeyCode::Null, &mut state);

    assert_eq!(edit.cursor_index_in_line(), 0);
    assert_eq!(edit.current_line(), 0);
}

#[test]
fn next_line() {
    let mut edit = TextPanel::default();
    edit.set_text("12345\n12345");
    edit.set_current_line(0);
    edit.set_cursor_index(4);
    let mut state = AppState::new();

    edit.move_to_next_line(KeyCode::Null, &mut state);

    assert_eq!(edit.cursor_index_in_line(), 4);
    assert_eq!(edit.current_line(), 1);
}

#[test]
fn next_line_no_line() {
    let mut edit = TextPanel::default();
    edit.set_text("12345\n12345");
    edit.set_current_line(1);
    edit.set_cursor_index(4);
    let mut state = AppState::new();

    edit.move_to_next_line(KeyCode::Null, &mut state);

    assert_eq!(edit.cursor_index_in_line(), 4);
    assert_eq!(edit.current_line(), 1);
}

#[test]
fn next_line_longer_than_next() {
    let mut edit = TextPanel::default();
    edit.set_text("1234567890\n12345\n1234567890");
    edit.set_current_line(0);
    edit.set_cursor_index(9);
    let mut state = AppState::new();

    edit.move_to_next_line(KeyCode::Null, &mut state);

    assert_eq!(edit.cursor_index_in_line(), 5);
    assert_eq!(edit.current_line(), 1);
}

#[test]
fn next_line_that_is_last_line() {
    let mut edit = TextPanel::default();
    edit.set_text("1234567890\n12345\n1234567890");
    edit.set_current_line(1);
    edit.set_cursor_index(4);
    let mut state = AppState::new();

    edit.move_to_next_line(KeyCode::Null, &mut state);

    assert_eq!(edit.cursor_index_in_line(), 4);
    assert_eq!(edit.current_line(), 2);
}

#[test]
fn previous_line() {
    let mut edit = TextPanel::default();
    edit.set_text("1234567890\n1234567890");
    edit.set_current_line(1);
    edit.set_cursor_index(4);
    let mut state = AppState::new();

    edit.move_to_previous_line(KeyCode::Null, &mut state);

    assert_eq!(edit.cursor_index_in_line(), 4);
    assert_eq!(edit.current_line(), 0);
}

#[test]
fn next_line_longer_than_previous() {
    let mut edit = TextPanel::default();
    edit.set_text("12345\n1234567890");
    edit.set_current_line(1);
    edit.set_cursor_index(9);
    let mut state = AppState::new();

    edit.move_to_previous_line(KeyCode::Null, &mut state);

    assert_eq!(edit.cursor_index_in_line(), 5);
    assert_eq!(edit.current_line(), 0);
}

#[test]
fn text_gives_back_set_text() {
    let mut edit = TextPanel::default();
    let original = "first line\n\nthird\n";
    edit.set_text(original);
    assert_eq!(edit.text(), original);
}

#[test]
fn save_without_file_asks_for_name() {
    let mut edit = TextPanel::edit_panel();
    edit.set_text("a\nb");
    match edit.save() {
        split_editor::text::SaveStep::AskForPath(changes) => assert_eq!(changes.len(), 1),
        _ => panic!("expected a request for a file name"),
    }
    assert_eq!(edit.state(), split_editor::text::PanelState::WaitingToSave);
}

#[test]
fn save_with_file_writes_each_line_with_newline() {
    let mut edit = TextPanel::edit_panel();
    edit.set_text("a\nb");
    edit.set_file_path("/tmp/out.txt".to_string());
    match edit.save() {
        split_editor::text::SaveStep::Write { path, contents } => {
            assert_eq!(path, "/tmp/out.txt");
            assert_eq!(contents, "a\nb\n");
        }
        _ => panic!("expected a write"),
    }
}
