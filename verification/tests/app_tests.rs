use split_editor::app::{
    AppState, InputRequest, LayoutPanel, Message, MessageChannel, State, StateChangeRequest, TOP_REQUESTOR_ID,
};
use split_editor::keys::KeyCode;
use split_editor::panels::{PanelFactory, Panels};
use split_editor::splits::UserSplits;
use split_editor::text::NULL_PANEL_TYPE_ID;

fn assert_is_default(app: &AppState) {
    assert_eq!(app.layout_panels().len(), 3, "Panels not set");
    assert_eq!(app.splits().len(), 1, "Splits not set");
    assert_eq!(app.active_panel(), 1, "Active panel not set");
    assert_eq!(app.selecting_panel(), false, "Selecting panel not set");
    assert_eq!(app.static_panels(), &vec!['$'], "Static panels not set");
    assert_eq!(app.state(), State::Normal);
    assert!(app.input_request().is_none());
}

fn started() -> (AppState, Panels) {
    let mut panels = Panels::new();
    let mut app = AppState::new();
    app.init(&mut panels);
    (app, panels)
}

#[test]
fn set_default() {
    let (mut app, mut panels) = started();
    app.split_current_panel_horizontal(KeyCode::Null, &mut panels);
    app.split_current_panel_horizontal(KeyCode::Null, &mut panels);
    app.split_current_panel_horizontal(KeyCode::Null, &mut panels);
    app.set_input_request(Some(InputRequest::new("Prompt".to_string(), None, TOP_REQUESTOR_ID)));
    app.set_state(State::WaitingPanelType(1));
    app.set_selecting_panel(true);

    app.reset(&mut panels);

    assert_is_default(&app);
}

#[test]
fn select_panel() {
    let (mut app, mut panels) = started();
    app.set_selecting_panel(true);
    app.add_panel_to_active_split(KeyCode::Null, &mut panels);

    app.select_panel(KeyCode::Char('b'), &mut panels);

    assert_eq!(app.active_panel(), 2);
    assert!(!app.selecting_panel());
}

#[test]
fn select_panel_invalid_code() {
    let (mut app, mut panels) = started();
    app.set_selecting_panel(true);
    app.add_panel_to_active_split(KeyCode::Null, &mut panels);

    app.select_panel(KeyCode::Enter, &mut panels);

    assert_eq!(app.active_panel(), 1);
    assert_eq!(app.get_messages()[0].channel(), MessageChannel::INFO);
}

#[test]
fn select_panel_invalid_id() {
    let (mut app, mut panels) = started();
    app.set_selecting_panel(true);
    app.add_panel_to_active_split(KeyCode::Null, &mut panels);

    app.select_panel(KeyCode::Char('z'), &mut panels);

    assert_eq!(app.active_panel(), 1);
    assert_eq!(app.get_messages()[0].channel(), MessageChannel::INFO);
}

#[test]
fn select_panel_cancels_input_request() {
    let (mut app, mut panels) = started();
    app.set_selecting_panel(true);
    app.add_panel_to_active_split(KeyCode::Null, &mut panels);
    app.set_input_request(Some(InputRequest::new("Test".to_string(), None, TOP_REQUESTOR_ID)));

    app.select_panel(KeyCode::Char('b'), &mut panels);

    assert_eq!(app.get_messages()[0].channel(), MessageChannel::INFO);
    assert!(app.input_request().is_none());
}

#[test]
fn add_panel_to_active_split() {
    let (mut app, mut panels) = started();

    app.add_panel_to_active_split(KeyCode::Null, &mut panels);

    assert_eq!(app.layout_panels().len(), 4);
    assert_eq!(app.splits().len(), 1);

    assert_eq!(
        app.splits()[0].panels,
        vec![UserSplits::Panel(0), UserSplits::Panel(1), UserSplits::Panel(2), UserSplits::Panel(3)]
    );

    assert_eq!(app.layout_panels()[1].split_index, 0);
    assert_eq!(app.layout_panels()[2].split_index, 0);

    assert_eq!(app.layout_panels()[2].id, 'b')
}

#[test]
fn add_panel_to_active_split_no_active_panel() {
    let (mut app, mut panels) = started();
    app.set_active_panel(100);

    app.add_panel_to_active_split(KeyCode::Null, &mut panels);

    assert_eq!(app.get_messages()[0].channel(), MessageChannel::ERROR)
}

#[test]
fn add_panel_to_active_split_no_active_split() {
    let (mut app, mut panels) = started();
    let index = panels.push(PanelFactory::edit());
    app.set_layout_panel(3, LayoutPanel::new(10, 'b', index));
    app.set_active_panel(3);

    app.add_panel_to_active_split(KeyCode::Null, &mut panels);

    assert_eq!(app.get_messages()[0].channel(), MessageChannel::ERROR)
}

#[test]
fn split_panel() {
    let (mut app, mut panels) = started();

    app.split_current_panel_horizontal(KeyCode::Null, &mut panels);

    assert_eq!(app.layout_panels().len(), 4);
    assert_eq!(app.splits().len(), 2);

    assert_eq!(app.splits()[1].panels, vec![UserSplits::Panel(1), UserSplits::Panel(3)]);

    assert_eq!(app.layout_panels()[3].split_index, 1);
}

#[test]
fn split_panel_not_in_split_logs_message() {
    let (mut app, mut panels) = started();
    app.remove_split_child(0, 1);

    app.split_current_panel_horizontal(KeyCode::Null, &mut panels);

    assert_is_default(&app);
    assert_eq!(app.get_messages()[0].channel(), MessageChannel::ERROR)
}

#[test]
fn split_no_active_panel_logs_message() {
    let (mut app, mut panels) = started();
    app.set_active_panel(100);

    app.split_current_panel_horizontal(KeyCode::Null, &mut panels);

    assert_eq!(app.active_panel(), 1);
    assert_eq!(app.get_messages()[0].channel(), MessageChannel::ERROR)
}

#[test]
fn split_active_panel_split_non_existent_logs_message() {
    let (mut app, mut panels) = started();
    let index = panels.push(PanelFactory::edit());
    app.set_layout_panel(3, LayoutPanel::new(10, 'b', index));
    app.set_active_panel(3);

    app.split_current_panel_horizontal(KeyCode::Null, &mut panels);

    assert_is_default(&app);
    assert_eq!(app.get_messages()[0].channel(), MessageChannel::ERROR)
}

#[test]
fn prompt_panel_doesnt_split() {
    let (mut app, mut panels) = started();

    app.set_active_panel(0);
    app.split_current_panel_horizontal(KeyCode::Null, &mut panels);

    assert_eq!(app.layout_panels().len(), 3);
    assert_eq!(app.splits().len(), 1);
    assert!(app.get_messages().contains(&Message::info("Cannot split static panel")));
}

#[test]
fn prompt_panel_doesnt_delete() {
    let (mut app, mut panels) = started();

    app.set_active_panel(0);
    app.delete_active_panel(KeyCode::Null, &mut panels);

    assert_eq!(app.layout_panels().len(), 3);
    assert_eq!(app.splits().len(), 1);

    assert!(app.get_messages().contains(&Message::info("Cannot delete static panel.")))
}

#[test]
fn delete_active_panel() {
    let (mut app, mut panels) = started();
    let next_panel_index = app.layout_panels().len();

    app.split_current_panel_horizontal(KeyCode::Null, &mut panels);
    app.set_active_panel(next_panel_index);

    app.delete_active_panel(KeyCode::Null, &mut panels);

    assert_eq!(app.active_panel(), 2);
    assert_eq!(app.layout_panels().len(), 4);
    assert_eq!(app.splits().len(), 2);

    assert_eq!(panels.get(3).unwrap().panel_type(), NULL_PANEL_TYPE_ID);
}

#[test]
fn delete_active_panel_replaces_if_only_one_left() {
    let (mut app, mut panels) = started();

    app.delete_active_panel(KeyCode::Null, &mut panels);

    match app.get_active_panel() {
        Some(lp) => assert_ne!(panels.get(lp.panel_index).unwrap().panel_type(), NULL_PANEL_TYPE_ID),
        None => panic!("No active panel"),
    }

    assert_eq!(panels.len(), 3);
    assert_eq!(app.splits().len(), 1);
}

#[test]
fn delete_active_panel_deletes_empty_split() {
    let (mut app, mut panels) = started();

    let second = app.layout_panels().len();
    app.split_current_panel_horizontal(KeyCode::Null, &mut panels);
    app.set_active_panel(second);

    app.delete_active_panel(KeyCode::Null, &mut panels);

    app.set_active_panel(second);

    app.delete_active_panel(KeyCode::Null, &mut panels);

    assert_eq!(app.layout_panels().len(), 3);
    assert_eq!(app.splits().len(), 1);
}

#[test]
fn delete_invalid_active_panel_logs_message() {
    let (mut app, mut panels) = started();
    app.set_active_panel(100);

    app.delete_active_panel(KeyCode::Null, &mut panels);

    assert_eq!(app.active_panel(), 1);
    assert_eq!(app.get_messages()[0].channel(), MessageChannel::ERROR)
}

#[test]
fn delete_panel_with_invalid_split_logs_message() {
    let (mut app, mut panels) = started();
    let index = panels.push(PanelFactory::edit());
    app.set_layout_panel(3, LayoutPanel::new(10, 'b', index));
    app.set_active_panel(3);

    app.delete_active_panel(KeyCode::Null, &mut panels);

    assert_is_default(&app);
    assert_eq!(app.get_messages()[0].channel(), MessageChannel::ERROR)
}

#[test]
fn delete_panel_split_doesnt_have_panel_logs_message() {
    let (mut app, mut panels) = started();
    app.remove_split_child(0, 1);

    app.delete_active_panel(KeyCode::Null, &mut panels);

    assert_is_default(&app);
    assert_eq!(app.get_messages()[0].channel(), MessageChannel::ERROR)
}

#[test]
fn delete_empty_split_not_present_in_parent_logs_message() {
    let (mut app, mut panels) = started();

    let second = app.layout_panels().len();
    app.split_current_panel_horizontal(KeyCode::Null, &mut panels);
    app.set_active_panel(second);

    let third = app.layout_panels().len();
    app.split_current_panel_horizontal(KeyCode::Null, &mut panels);
    app.set_active_panel(third);

    app.remove_split_child(1, 1);

    app.delete_active_panel(KeyCode::Null, &mut panels);
    app.set_active_panel(second);
    app.delete_active_panel(KeyCode::Null, &mut panels);

    assert_is_default(&app);
    assert_eq!(app.get_messages()[0].channel(), MessageChannel::ERROR)
}

fn nested_layout() -> (AppState, Panels) {
    // 0 and 1
    let (mut app, mut panels) = started();
    // 2
    app.split_current_panel_vertical(KeyCode::Null, &mut panels);
    // 3
    app.split_current_panel_horizontal(KeyCode::Null, &mut panels);
    // 4
    app.add_panel_to_active_split(KeyCode::Null, &mut panels);
    // 5
    app.add_panel_to_active_split(KeyCode::Null, &mut panels);
    app.set_active_panel(2);
    // 6
    app.split_current_panel_horizontal(KeyCode::Null, &mut panels);
    // 7
    app.add_panel_to_active_split(KeyCode::Null, &mut panels);
    // 8
    app.add_panel_to_active_split(KeyCode::Null, &mut panels);
    (app, panels)
}

fn vertical_layout() -> (AppState, Panels) {
    // 0, 1 and 2
    let (mut app, mut panels) = started();
    // 3
    app.split_current_panel_vertical(KeyCode::Null, &mut panels);
    // 4
    app.add_panel_to_active_split(KeyCode::Null, &mut panels);
    // 5
    app.add_panel_to_active_split(KeyCode::Null, &mut panels);
    app.set_active_panel(2);
    // 6
    app.split_current_panel_vertical(KeyCode::Null, &mut panels);
    // 7
    app.add_panel_to_active_split(KeyCode::Null, &mut panels);
    // 8
    app.add_panel_to_active_split(KeyCode::Null, &mut panels);
    (app, panels)
}

#[test]
fn activate_next_panel() {
    let (mut app, mut panels) = nested_layout();

    app.set_active_panel(7);

    app.activate_next_panel(KeyCode::Null, &mut panels);

    assert_eq!(app.active_panel(), 8)
}

#[test]
fn activate_next_panel_skip_inactive() {
    let (mut app, mut panels) = vertical_layout();

    app.set_active_panel(6);

    panels.remove(7);

    app.activate_next_panel(KeyCode::Null, &mut panels);

    assert_eq!(app.active_panel(), 8)
}

#[test]
fn activate_next_panel_no_active_panel() {
    let (mut app, mut panels) = nested_layout();

    app.set_active_panel(10);

    app.activate_next_panel(KeyCode::Null, &mut panels);

    assert_eq!(app.active_panel(), 1);
    assert_eq!(app.get_messages()[0].channel(), MessageChannel::ERROR)
}

#[test]
fn activate_previous_panel() {
    let (mut app, mut panels) = vertical_layout();

    app.set_active_panel(6);

    panels.remove(7);

    app.activate_previous_panel(KeyCode::Null, &mut panels);

    assert_eq!(app.active_panel(), 2)
}

#[test]
fn activate_previous_panel_no_active_panel() {
    let (mut app, mut panels) = nested_layout();

    app.set_active_panel(10);

    app.activate_previous_panel(KeyCode::Null, &mut panels);

    assert_eq!(app.active_panel(), 1);
    assert_eq!(app.get_messages()[0].channel(), MessageChannel::ERROR)
}

#[test]
fn new_panel_after_delete_uses_inactive_slot() {
    let (mut app, mut panels) = started();

    app.add_panel_to_active_split(KeyCode::Null, &mut panels);
    app.add_panel_to_active_split(KeyCode::Null, &mut panels);

    app.delete_active_panel(KeyCode::Null, &mut panels);

    assert_eq!(panels.get(1).unwrap().panel_type(), NULL_PANEL_TYPE_ID);

    app.add_panel_to_active_split(KeyCode::Null, &mut panels);

    assert_ne!(panels.get(1).unwrap().panel_type(), NULL_PANEL_TYPE_ID);
}

#[test]
fn split_panel_after_delete_uses_inactive_slot() {
    let (mut app, mut panels) = started();

    app.add_panel_to_active_split(KeyCode::Null, &mut panels);
    app.add_panel_to_active_split(KeyCode::Null, &mut panels);

    app.delete_active_panel(KeyCode::Null, &mut panels);

    assert_eq!(panels.get(1).unwrap().panel_type(), NULL_PANEL_TYPE_ID);

    app.split_current_panel_horizontal(KeyCode::Null, &mut panels);

    assert_ne!(panels.get(1).unwrap().panel_type(), NULL_PANEL_TYPE_ID);
}

#[test]
fn change_panel_type() {
    let (mut app, mut panels) = started();

    app.change_active_panel_type(KeyCode::Null, &mut panels);

    assert_eq!(app.active_panel(), 0);
    assert_eq!(app.state(), State::WaitingPanelType(1));

    let request = app.input_request().unwrap();
    assert_eq!(request.prompt(), &"Panel Type".to_string());
    assert_eq!(request.requestor_id(), TOP_REQUESTOR_ID);
    assert!(request.completer().is_some());
}

#[test]
fn first_available_id_skips_used_ids() {
    let (mut app, mut panels) = started();
    assert_eq!(app.first_available_id(), 'c');
    app.add_panel_to_active_split(KeyCode::Null, &mut panels);
    assert_eq!(app.layout_panels()[3].id, 'c');
    assert_eq!(app.first_available_id(), 'd');
}

#[test]
fn reset_walks_three_panels_in_order() {
    let (mut app, mut panels) = started();
    app.activate_next_panel(KeyCode::Null, &mut panels);
    assert_eq!(app.active_panel(), 2);
    app.activate_next_panel(KeyCode::Null, &mut panels);
    assert_eq!(app.active_panel(), 0);
    app.activate_previous_panel(KeyCode::Null, &mut panels);
    assert_eq!(app.active_panel(), 2);
}

#[test]
fn walk_and_prompt_checks() {
    let (mut app, mut panels) = started();
    assert!(app.walk_finishes(&panels));
    assert!(app.prompt_available(&panels));

    // a layout panel whose contents are not in the store stops the walk
    app.set_layout_panel(1, LayoutPanel::new(0, 'a', 99));
    assert!(!app.walk_finishes(&panels));

    let empty = AppState::new();
    assert!(!empty.prompt_available(&panels));
    let _ = &mut panels;
}

#[test]
fn ids_run_through_z_then_capitals() {
    let mut panels = Panels::new();
    let mut app = AppState::new();
    app.init(&mut panels);
    for _ in 0..23 {
        app.add_panel_to_active_split(KeyCode::Null, &mut panels);
    }
    assert_eq!(app.first_available_id(), 'z');
    app.add_panel_to_active_split(KeyCode::Null, &mut panels);
    assert_eq!(app.first_available_id(), 'A');
}

#[test]
fn get_split_mut_changes_the_split() {
    let mut panels = Panels::new();
    let mut app = AppState::new();
    app.init(&mut panels);
    app.get_split_mut(0).unwrap().panels.push(UserSplits::Panel(7));
    assert_eq!(app.get_split(0).unwrap().panels.last(), Some(&UserSplits::Panel(7)));
    assert!(app.get_split_mut(5).is_none());
}

#[test]
fn change_allowed_needs_the_prompt() {
    let mut panels = Panels::new();
    let empty = AppState::new();
    let input = StateChangeRequest::Input("Name".to_string(), None);
    assert!(!empty.change_allowed(&panels, 'a', &input));

    let mut app = AppState::new();
    app.init(&mut panels);
    assert!(app.change_allowed(&panels, 'a', &input));
    let complete = StateChangeRequest::InputComplete("x".to_string());
    assert!(app.change_allowed(&panels, 'a', &complete));
}
