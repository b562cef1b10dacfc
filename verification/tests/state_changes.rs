use split_editor::app::{AppState, InputRequest, LayoutPanel, MessageChannel, State, StateChangeRequest, TOP_REQUESTOR_ID};
use split_editor::panels::{PanelFactory, Panels};
use split_editor::text::{FileRequest, PanelKind, MESSAGE_PANEL_TYPE_ID};

fn started() -> (AppState, Panels) {
    let mut panels = Panels::new();
    let mut app = AppState::new();
    app.init(&mut panels);
    (app, panels)
}

#[test]
fn input_request() {
    let (mut app, mut panels) = started();

    app.handle_changes(vec![StateChangeRequest::input_request("Test Input".to_string())], &mut panels);

    let request = app.input_request().unwrap();
    assert_eq!(request.prompt(), &"Test Input".to_string());
    assert_eq!(request.requestor_id(), 1);
    assert!(request.completer().is_none());
    assert_eq!(app.active_panel(), 0);
}

#[test]
fn input_request_no_active_panel() {
    let (mut app, mut panels) = started();
    app.set_active_panel(100);

    app.handle_changes(vec![StateChangeRequest::input_request("Test Input".to_string())], &mut panels);

    assert_eq!(app.get_messages()[0].channel(), MessageChannel::ERROR)
}

#[test]
fn input_request_input_panel_is_active() {
    let (mut app, mut panels) = started();
    app.set_active_panel(0);

    app.handle_changes(vec![StateChangeRequest::input_request("Test Input".to_string())], &mut panels);

    assert_eq!(app.get_messages()[0].channel(), MessageChannel::ERROR)
}

#[test]
fn input_complete() {
    let (mut app, mut panels) = started();
    app.set_input_request(Some(InputRequest::new("Test Input".to_string(), None, 1)));
    app.set_active_panel(0);

    let index = panels.push(PanelFactory::edit());
    app.set_layout_panel(1, LayoutPanel::new(0, 'a', index));

    app.handle_changes(vec![StateChangeRequest::input_complete("Test Input".to_string())], &mut panels);

    assert!(app.input_request().is_none());
    assert_eq!(app.active_panel(), 1);
}

#[test]
fn input_complete_no_request() {
    let (mut app, mut panels) = started();

    let index = panels.push(PanelFactory::edit());
    app.set_layout_panel(1, LayoutPanel::new(0, 'a', index));

    app.handle_changes(vec![StateChangeRequest::input_complete("Test Input".to_string())], &mut panels);

    assert!(app.input_request().is_none());
    assert_eq!(app.get_messages()[0].channel(), MessageChannel::ERROR)
}

#[test]
fn input_complete_requestor_doesnt_exist() {
    let (mut app, mut panels) = started();
    app.set_input_request(Some(InputRequest::new("Test Input".to_string(), None, 10)));

    let index = panels.push(PanelFactory::edit());
    app.set_layout_panel(1, LayoutPanel::new(0, 'a', index));

    app.handle_changes(vec![StateChangeRequest::input_complete("Test Input".to_string())], &mut panels);

    assert!(app.input_request().is_none());
    assert_eq!(app.get_messages()[0].channel(), MessageChannel::ERROR)
}

#[test]
fn error_message() {
    let (mut app, mut panels) = started();

    app.handle_changes(vec![StateChangeRequest::error("Test Input")], &mut panels);

    assert_eq!(app.get_messages()[0].channel(), MessageChannel::ERROR)
}

#[test]
fn change_panel_type_complete() {
    let (mut app, mut panels) = started();
    app.set_active_panel(0);
    app.set_state(State::WaitingPanelType(1));
    app.set_input_request(Some(InputRequest::new("Panel Type".to_string(), None, TOP_REQUESTOR_ID)));

    app.handle_changes(vec![StateChangeRequest::InputComplete(MESSAGE_PANEL_TYPE_ID.to_string())], &mut panels);

    assert_ne!(app.get_panel(1).unwrap().id, '\0');
    assert_eq!(app.active_panel(), 1);
    assert_eq!(app.state(), State::Normal);
    assert!(app.input_request().is_none());
    let store_index = app.get_panel(1).unwrap().panel_index;
    assert_eq!(panels.get(store_index).unwrap().kind(), PanelKind::Messages);
}

#[test]
fn input_round_trip_hands_file_name_to_edit_panel() {
    let (mut app, mut panels) = started();
    let edit_index = app.get_panel(1).unwrap().panel_index;
    let (_, changes) = panels.get_mut(edit_index).unwrap().open_file(split_editor::keys::KeyCode::Null, &mut AppState::new());
    let requests = app.handle_changes(changes, &mut panels);
    assert!(requests.is_empty());
    assert_eq!(app.active_panel(), 0);

    let requests = app.handle_changes(vec![StateChangeRequest::input_complete("notes.txt".to_string())], &mut panels);

    assert_eq!(app.active_panel(), 1);
    assert!(app.input_request().is_none());
    assert_eq!(requests.len(), 1);
    assert_eq!(requests[0].panel_index, edit_index);
    match &requests[0].request {
        FileRequest::Open(name) => assert_eq!(name, "notes.txt"),
        FileRequest::Save(_) => panic!("expected an open request"),
    }
}

#[test]
fn info_messages_are_kept_in_order() {
    let (mut app, mut panels) = started();
    app.handle_changes(vec![StateChangeRequest::info("first"), StateChangeRequest::error("second")], &mut panels);
    assert_eq!(app.get_messages().len(), 2);
    assert_eq!(app.get_messages()[0].text(), "first");
    assert_eq!(app.get_messages()[1].channel(), MessageChannel::ERROR);
}

#[test]
fn single_change_reports_whether_handling_goes_on() {
    let (mut app, mut panels) = started();
    let mut requests = vec![];

    assert!(app.handle_change(StateChangeRequest::info("note"), &mut panels, 'a', &mut requests));
    assert_eq!(app.get_messages().len(), 1);

    // the prompt panel cannot ask for input itself
    assert!(!app.handle_change(StateChangeRequest::input_request("again".to_string()), &mut panels, '$', &mut requests));
    assert_eq!(app.get_messages()[1].channel(), MessageChannel::ERROR);
    assert!(requests.is_empty());
}
