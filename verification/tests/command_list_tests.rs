use split_editor::command_list::{
    count_commands, deselect, format_code, format_modifiers, format_modifiers_concise, next_command, previous_command,
};
use split_editor::keys::{KeyCode, KeyModifiers};
use split_editor::manager::{global_commands, make_edit_commands, make_messages_commands};
use split_editor::text::TextPanel;

#[test]
fn counts_commands_of_sets() {
    let edit = make_edit_commands().unwrap();
    assert_eq!(count_commands(edit.get_node(&vec![]).unwrap()), 12);
    let global = global_commands().unwrap();
    assert_eq!(count_commands(global.get_node(&vec![]).unwrap()), 8);
    let messages = make_messages_commands().unwrap();
    assert_eq!(count_commands(messages.get_node(&vec![]).unwrap()), 0);
}

#[test]
fn modifier_names() {
    assert_eq!(format_modifiers(KeyModifiers::empty()), "");
    assert_eq!(format_modifiers(KeyModifiers::control().union(KeyModifiers::alt())), "CTRL + ALT");
    assert_eq!(format_modifiers(KeyModifiers { bits: 7 }), "SHIFT + CTRL + ALT");
    assert_eq!(format_modifiers_concise(KeyModifiers::shift().union(KeyModifiers::alt())), "SA");
    assert_eq!(format_modifiers_concise(KeyModifiers::control()), "C");
}

#[test]
fn key_names() {
    assert_eq!(format_code(KeyCode::Char('a')), "a");
    assert_eq!(format_code(KeyCode::Null), "*");
    assert_eq!(format_code(KeyCode::F(12)), "F(12)");
    assert_eq!(format_code(KeyCode::Enter), "Enter");
}

#[test]
fn command_selection_wraps() {
    let mut panel = TextPanel::default();
    next_command(&mut panel, KeyCode::Null, 3);
    assert_eq!(panel.selection(), 1);
    panel.set_selection(3);
    next_command(&mut panel, KeyCode::Null, 3);
    assert_eq!(panel.selection(), 1);
    previous_command(&mut panel, KeyCode::Null, 3);
    assert_eq!(panel.selection(), 3);
    previous_command(&mut panel, KeyCode::Null, 3);
    assert_eq!(panel.selection(), 2);
    deselect(&mut panel, KeyCode::Null);
    assert_eq!(panel.selection(), 0);
}

#[test]
fn lists_global_commands_sorted_by_name() {
    let global = global_commands().unwrap();
    let root = global.get_node(&vec![]).unwrap();
    let mut panel = TextPanel::default();
    panel.set_selection(2);

    let (selected, lines) = split_editor::command_list::format_commands(&panel, root, 0);

    assert_eq!(lines.len(), 8);
    assert_eq!(lines[0], vec!["Activate Panel   ".to_string(), " | ".to_string(), "C + a -> *".to_string()]);
    assert_eq!(lines[1][2], "C + p -> n");
    assert_eq!(lines[3][0], "Next Panel       ");
    assert_eq!(lines[3][2], "CA + l");
    assert_eq!(lines[7][0], "Split Vertical   ");
    assert_eq!(selected, Some(("Add Panel".to_string(), "Add panel to active split.".to_string())));

    let (none_selected, _) = split_editor::command_list::format_commands(&panel, root, 5);
    assert_eq!(none_selected, None);
}
