use split_editor::app::{AppState, StateChangeRequest};
use split_editor::autocomplete::{Completion, CompleterKind};
use split_editor::input::{input_length_allowed, InputPanel};
use split_editor::keys::KeyCode;
use split_editor::panels::Panels;
use split_editor::text::TextPanel;

/// The completions that the test completer offers for `s`.
fn test_options(s: &str) -> Vec<Completion> {
    ["shout", "shells", "sell", "cats", "capture"]
        .iter()
        .filter(|o| o.starts_with(s))
        .map(|o| Completion::new(o.to_string(), o[s.len()..].to_string()))
        .collect()
}

fn waiting_for_input() -> (AppState, Panels) {
    let mut panels = Panels::new();
    let mut state = AppState::new();
    state.init(&mut panels);
    state.handle_changes(
        vec![StateChangeRequest::input_request_with_completer("Test".to_string(), CompleterKind::Panels)],
        &mut panels,
    );
    (state, panels)
}

#[test]
fn next_quick_select() {
    let (_state, _panels) = waiting_for_input();

    let mut input = TextPanel::input_panel();
    let options = test_options(&input.text());

    InputPanel::next_quick_select(&mut input, KeyCode::Null, Some(&options));

    assert_eq!(input.selection(), 1);
}

#[test]
fn next_quick_select_past_options() {
    let (_state, _panels) = waiting_for_input();

    let mut input = TextPanel::input_panel();
    input.set_selection(4);
    let options = test_options(&input.text());

    InputPanel::next_quick_select(&mut input, KeyCode::Null, Some(&options));

    assert_eq!(input.selection(), 0);
}

#[test]
fn previous_quick_select() {
    let (_state, _panels) = waiting_for_input();

    let mut input = TextPanel::input_panel();
    input.set_selection(3);
    let options = test_options(&input.text());

    InputPanel::previous_quick_select(&mut input, KeyCode::Null, Some(&options));

    assert_eq!(input.selection(), 2);
}

#[test]
fn previous_quick_select_past_options() {
    let (_state, _panels) = waiting_for_input();

    let mut input = TextPanel::input_panel();
    input.set_selection(0);
    let options = test_options(&input.text());

    InputPanel::previous_quick_select(&mut input, KeyCode::Null, Some(&options));

    assert_eq!(input.selection(), 4);
}

#[test]
fn fill_quick_select() {
    let (mut state, _panels) = waiting_for_input();

    let mut input = TextPanel::input_panel();
    input.set_text("se");
    let options = test_options(&input.text());

    InputPanel::fill_quick_select(&mut input, KeyCode::Char('1'), &mut state, Some(&options));

    assert_eq!(input.text(), "sell".to_string());
}

#[test]
fn fill_quick_select_invalid_selection() {
    let (mut state, _panels) = waiting_for_input();

    let mut input = TextPanel::input_panel();
    input.set_text("se");
    let options = test_options(&input.text());

    InputPanel::fill_quick_select(&mut input, KeyCode::Char('0'), &mut state, Some(&options));

    assert_eq!(input.text(), "se".to_string());
}

#[test]
fn fill_quick_select_invalid_code() {
    let (mut state, _panels) = waiting_for_input();

    let mut input = TextPanel::input_panel();
    input.set_text("se");
    let options = test_options(&input.text());

    InputPanel::fill_quick_select(&mut input, KeyCode::Enter, &mut state, Some(&options));

    assert_eq!(input.text(), "se".to_string());
}

#[test]
fn fill_quick_select_out_of_option_range() {
    let (mut state, _panels) = waiting_for_input();

    let mut input = TextPanel::input_panel();
    input.set_text("se");
    let options = test_options(&input.text());

    InputPanel::fill_quick_select(&mut input, KeyCode::Char('9'), &mut state, Some(&options));

    assert_eq!(input.text(), "se".to_string());
}

#[test]
fn fill_current_quick_select() {
    let (mut state, _panels) = waiting_for_input();

    let mut input = TextPanel::input_panel();
    input.set_text("ca");
    input.set_selection(1);
    let options = test_options(&input.text());

    InputPanel::fill_current_quick_select(&mut input, KeyCode::Null, &mut state, Some(&options));

    assert_eq!(input.text(), "capture".to_string());
}

#[test]
fn fill_current_quick_select_out_of_range() {
    let (mut state, _panels) = waiting_for_input();

    let mut input = TextPanel::input_panel();
    input.set_text("ca");
    input.set_selection(9);
    let options = test_options(&input.text());

    InputPanel::fill_current_quick_select(&mut input, KeyCode::Null, &mut state, Some(&options));

    assert_eq!(input.text(), "ca".to_string());
    assert_eq!(input.selection(), 0);
}

#[test]
fn fill_moves_cursor_past_completion() {
    let (mut state, _panels) = waiting_for_input();

    let mut input = TextPanel::input_panel();
    input.set_text("ca");
    input.set_cursor_index(2);
    let options = test_options(&input.text());

    InputPanel::fill_quick_select(&mut input, KeyCode::Char('2'), &mut state, Some(&options));

    assert_eq!(input.text(), "capture");
    assert_eq!(input.cursor_index_in_line(), 7);
    assert_eq!(state.get_messages().last().unwrap().text(), "Filling");
}

#[test]
fn quick_select_without_completer_does_nothing() {
    let mut input = TextPanel::input_panel();
    input.set_selection(2);

    InputPanel::next_quick_select(&mut input, KeyCode::Null, None);

    assert_eq!(input.selection(), 2);
}

#[test]
fn previous_then_next_returns_selection() {
    let mut input = TextPanel::input_panel();
    let options = test_options("");
    for start in 0..options.len() {
        input.set_selection(start);
        InputPanel::next_quick_select(&mut input, KeyCode::Null, Some(&options));
        InputPanel::previous_quick_select(&mut input, KeyCode::Null, Some(&options));
        assert_eq!(input.selection(), start);
    }
}

#[test]
fn submit_hands_text_in_and_clears() {
    let mut input = TextPanel::input_panel();
    input.set_text("answer");
    let mut state = AppState::new();

    let (handled, changes) = InputPanel::handle_key_stroke(&mut input, KeyCode::Enter, &mut state);

    assert!(handled);
    assert_eq!(changes.len(), 1);
    match &changes[0] {
        StateChangeRequest::InputComplete(t) => assert_eq!(t, "answer"),
        _ => panic!("expected completed input"),
    }
    assert_eq!(input.text(), "");
}

#[test]
fn length_with_completer_and_long_text() {
    let (state, _panels) = waiting_for_input();
    let mut input = TextPanel::input_panel();
    assert_eq!(InputPanel::length_handler(&input, 20, 0, split_editor::splits::Direction::Vertical, &state), 5);
    input.set_text("abcdefghijklmnopqrstuvwxyz");
    // 26 characters in a box of 18: 8 remain, continuation rows hold 14.
    assert_eq!(InputPanel::length_handler(&input, 20, 0, split_editor::splits::Direction::Vertical, &state), 6);
    let plain = AppState::new();
    assert_eq!(InputPanel::length_handler(&input, 20, 0, split_editor::splits::Direction::Vertical, &plain), 4);
}

#[test]
fn quick_select_labels_number_the_first_nine() {
    let options: Vec<Completion> = (0..12).map(|i| Completion::new(format!("o{}", i), String::new())).collect();
    let labels = InputPanel::quick_select_labels(&options, 1);
    assert_eq!(labels.len(), 9);
    assert_eq!(labels[0], ("1 o0".to_string(), false));
    assert_eq!(labels[1], ("2 o1".to_string(), true));
    assert_eq!(labels[8], ("9 o8".to_string(), false));
    assert!(InputPanel::quick_select_labels(&vec![], 0).is_empty());
    let two = test_options("sh");
    assert_eq!(
        InputPanel::quick_select_labels(&two, 5),
        vec![("1 shout".to_string(), false), ("2 shells".to_string(), false)]
    );
}

#[test]
fn input_title_is_prompt_with_completions() {
    let (state, _panels) = waiting_for_input();
    let mut input = TextPanel::input_panel();
    input.set_title("Input".to_string());
    assert_eq!(InputPanel::panel_title(&input, &state), "Test");
    assert_eq!(InputPanel::panel_title(&input, &AppState::new()), "Input");
}

#[test]
fn input_length_allowed_bounds() {
    assert!(input_length_allowed(0, 6));
    assert!(!input_length_allowed(0, 5));
    // text as long as the box at the narrowest width has no continuation room
    assert!(!input_length_allowed(4, 6));
    assert!(input_length_allowed(4, 7));
    assert!(!input_length_allowed(70000, 80));
}
