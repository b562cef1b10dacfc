use split_editor::app::{AppState, StateChangeRequest};
use split_editor::autocomplete::{
    completer_options, AutoCompleter, CompleterKind, Completion, FileAutoCompleter, PanelAutoCompleter,
};
use split_editor::panels::Panels;

#[test]
fn empty_input_returns_all() {
    let completer = PanelAutoCompleter::new();

    assert_eq!(completer.get_options("").len(), PanelAutoCompleter::options().len());
}

#[test]
fn finds_match() {
    let completer = PanelAutoCompleter::new();

    assert_eq!(completer.get_options("E"), vec![Completion::new("Edit".to_string(), "dit".to_string())]);
    assert_eq!(completer.get_options("Ed"), vec![Completion::new("Edit".to_string(), "it".to_string())]);
    assert_eq!(completer.get_options("Edi"), vec![Completion::new("Edit".to_string(), "t".to_string())]);
    assert_eq!(completer.get_options("Edit"), vec![Completion::new("Edit".to_string(), "".to_string())]);
    assert_eq!(completer.get_options("Edits"), Vec::<Completion>::new());
}

#[test]
fn options_are_edit_and_messages() {
    assert_eq!(PanelAutoCompleter::options(), vec!["Edit", "Messages"]);
}

#[test]
fn file_entries_filtered_by_prefix() {
    let completer = FileAutoCompleter::new();
    let entries = vec!["src".to_string(), "Cargo.toml".to_string(), "scripts".to_string(), "target".to_string()];

    let options = completer.complete_entries("s", &entries);

    assert_eq!(
        options,
        vec![Completion::new("src".to_string(), "rc".to_string()), Completion::new("scripts".to_string(), "cripts".to_string())]
    );
    for o in &options {
        assert_eq!(format!("s{}", o.remaining()), *o.option());
    }
    assert_eq!(completer.complete_entries("", &entries).len(), 4);
    assert!(completer.complete_entries("x", &entries).is_empty());
}

#[test]
fn completer_options_follow_the_request() {
    let files = vec![Completion::new("main.rs".to_string(), "in.rs".to_string())];
    assert_eq!(completer_options(&AppState::new(), "E", files.clone()), None);

    let mut panels = Panels::new();
    let mut state = AppState::new();
    state.init(&mut panels);
    state.handle_changes(
        vec![StateChangeRequest::input_request_with_completer("Type".to_string(), CompleterKind::Panels)],
        &mut panels,
    );
    assert_eq!(
        completer_options(&state, "E", files.clone()),
        Some(vec![Completion::new("Edit".to_string(), "dit".to_string())])
    );

    let mut panels = Panels::new();
    let mut state = AppState::new();
    state.init(&mut panels);
    state.handle_changes(
        vec![StateChangeRequest::input_request_with_completer("File".to_string(), CompleterKind::Files)],
        &mut panels,
    );
    assert_eq!(completer_options(&state, "ma", files.clone()), Some(files));
}
