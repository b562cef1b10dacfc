use split_editor::app::AppState;
use split_editor::commands::CommandKeyId;
use split_editor::keys::{KeyCode, KeyModifiers};
use split_editor::manager::{
    global_commands, make_edit_commands, make_input_commands, make_messages_commands, run_global_action,
    run_panel_command, GlobalAction, Manager, PanelCommand,
};
use split_editor::panels::Panels;
use split_editor::text::{EDIT_PANEL_TYPE_ID, INPUT_PANEL_TYPE_ID, MESSAGE_PANEL_TYPE_ID};

fn id(code: KeyCode, mods: KeyModifiers) -> CommandKeyId {
    CommandKeyId::new(code, mods)
}

#[test]
fn command_sets_build() {
    assert!(global_commands().is_ok());
    assert!(make_edit_commands().is_ok());
    assert!(make_input_commands().is_ok());
    assert!(make_messages_commands().is_ok());
}

#[test]
fn global_split_sequence() {
    let commands = global_commands().unwrap();
    let ctrl_p = id(KeyCode::Char('p'), KeyModifiers::control());
    assert_eq!(commands.get(&vec![ctrl_p]), Some((false, None)));
    assert_eq!(
        commands.get(&vec![ctrl_p, id(KeyCode::Char('h'), KeyModifiers::empty())]),
        Some((true, Some(GlobalAction::SplitHorizontal)))
    );
    let ctrl_a = id(KeyCode::Char('a'), KeyModifiers::control());
    assert_eq!(commands.get(&vec![ctrl_a]), Some((false, Some(GlobalAction::StartSelectingPanel))));
    assert_eq!(
        commands.get(&vec![ctrl_a, id(KeyCode::Char('b'), KeyModifiers::empty())]),
        Some((true, Some(GlobalAction::SelectPanel)))
    );
}

#[test]
fn edit_panel_keys_go_to_panel_first() {
    let mut manager = Manager::default();
    manager.push_commands_for_panel(EDIT_PANEL_TYPE_ID);

    let step = manager.advance(id(KeyCode::Char('x'), KeyModifiers::empty()));

    assert_eq!(step.panel_command, Some(PanelCommand::HandleKeyStroke));
    assert!(manager.progress().is_empty());
}

#[test]
fn unhandled_key_falls_through_to_global() {
    let mut manager = Manager::default();
    manager.push_commands_for_panel(MESSAGE_PANEL_TYPE_ID);
    assert!(manager.advance(id(KeyCode::Char('p'), KeyModifiers::control())).panel_command.is_none());

    let step = manager.advance(id(KeyCode::Char('v'), KeyModifiers::empty()));
    assert!(step.panel_command.is_none());
    let action = manager.finish_advance(step.global, true);

    assert_eq!(action, Some(GlobalAction::SplitVertical));
    assert!(manager.progress().is_empty());
}

#[test]
fn handled_key_does_not_reach_global() {
    let mut manager = Manager::default();
    let step = manager.advance(id(KeyCode::Char('l'), KeyModifiers { bits: 6 }));
    assert_eq!(manager.finish_advance(step.global, false), None);
}

#[test]
fn replace_top_switches_command_set() {
    let mut manager = Manager::default();
    manager.replace_top_with_panel(INPUT_PANEL_TYPE_ID);
    assert!(manager.advance(id(KeyCode::Tab, KeyModifiers::empty())).panel_command.is_none());
    manager.reset();

    manager.push_commands_for_panel(EDIT_PANEL_TYPE_ID);
    manager.replace_top_with_panel(INPUT_PANEL_TYPE_ID);
    let step = manager.advance(id(KeyCode::Tab, KeyModifiers::empty()));
    assert_eq!(step.panel_command, Some(PanelCommand::FillCurrentQuickSelect));
}

#[test]
fn panel_command_runs_on_panel() {
    let mut panels = Panels::new();
    let mut state = AppState::new();
    state.init(&mut panels);
    let index = state.get_panel(1).unwrap().panel_index;
    let panel = panels.get_mut(index).unwrap();

    let outcome = run_panel_command(PanelCommand::HandleKeyStroke, panel, KeyCode::Char('q'), &mut state, None);

    assert!(outcome.handled);
    assert!(outcome.changes.is_empty());
    assert!(outcome.write.is_none());
    assert_eq!(panels.get(index).unwrap().text(), "q");
}

#[test]
fn global_action_runs_on_state() {
    let mut panels = Panels::new();
    let mut state = AppState::new();
    state.init(&mut panels);

    run_global_action(GlobalAction::ActivateNextPanel, &mut state, KeyCode::Null, &mut panels);
    assert_eq!(state.active_panel(), 2);

    run_global_action(GlobalAction::AddPanel, &mut state, KeyCode::Null, &mut panels);
    assert_eq!(state.layout_panels().len(), 4);
}

#[test]
fn command_checks_follow_text() {
    let mut panel = split_editor::text::TextPanel::edit_panel();
    panel.set_text("abc\ndef");
    panel.set_current_line(1);
    panel.set_cursor_index(3);
    // Delete at the end of the last line has no line to join
    assert!(!split_editor::manager::panel_command_allowed(PanelCommand::HandleKeyStroke, &panel, KeyCode::Delete, None));
    panel.set_current_line(0);
    assert!(split_editor::manager::panel_command_allowed(PanelCommand::HandleKeyStroke, &panel, KeyCode::Delete, None));
    panel.set_cursor_index(4);
    assert!(!split_editor::manager::panel_command_allowed(PanelCommand::HandleKeyStroke, &panel, KeyCode::Char('x'), None));
    assert!(split_editor::manager::panel_command_allowed(PanelCommand::ScrollUpOne, &panel, KeyCode::Null, None));
}

#[test]
fn global_set_binds_only_its_keys() {
    let commands = global_commands().unwrap();
    let ctrl = |c: char| id(KeyCode::Char(c), KeyModifiers::control());
    assert_eq!(commands.get(&vec![ctrl('q')]), None);
    assert_eq!(commands.get(&vec![ctrl('p'), id(KeyCode::Char('x'), KeyModifiers::empty())]), None);
    assert_eq!(
        commands.get(&vec![ctrl('a'), id(KeyCode::Char('7'), KeyModifiers::empty())]),
        Some((true, Some(GlobalAction::SelectPanel)))
    );
    assert_eq!(commands.get(&vec![ctrl('a'), ctrl('b')]), None);
}

#[test]
fn edit_set_binds_only_its_keys() {
    let commands = make_edit_commands().unwrap();
    let ctrl = |c: char| id(KeyCode::Char(c), KeyModifiers::control());
    assert_eq!(commands.get(&vec![ctrl('o')]), Some((true, Some(PanelCommand::OpenFile))));
    assert_eq!(commands.get(&vec![ctrl('q')]), None);
    assert_eq!(
        commands.get(&vec![id(KeyCode::Char('q'), KeyModifiers::empty())]),
        Some((true, Some(PanelCommand::HandleKeyStroke)))
    );
}
