use split_editor::panels::{PanelFactory, Panels};
use split_editor::text::{EDIT_PANEL_TYPE_ID, MESSAGE_PANEL_TYPE_ID, NULL_PANEL_TYPE_ID};

#[test]
fn get_available() {
    assert_eq!(PanelFactory::options(), vec![NULL_PANEL_TYPE_ID, EDIT_PANEL_TYPE_ID, MESSAGE_PANEL_TYPE_ID,])
}

#[test]
fn create_invalid() {
    assert!(PanelFactory::panel("Test").is_none());
}

#[test]
fn create_null_boxed() {
    assert_eq!(PanelFactory::panel(NULL_PANEL_TYPE_ID).unwrap().panel_type(), NULL_PANEL_TYPE_ID);
}

#[test]
fn create_edit_boxed() {
    assert_eq!(PanelFactory::panel(EDIT_PANEL_TYPE_ID).unwrap().panel_type(), EDIT_PANEL_TYPE_ID);
}

#[test]
fn create_message_boxed() {
    assert_eq!(PanelFactory::panel(MESSAGE_PANEL_TYPE_ID).unwrap().panel_type(), MESSAGE_PANEL_TYPE_ID);
}

#[test]
fn add_panel() {
    let mut panels = Panels::new();
    let index = panels.push(PanelFactory::panel("Edit").unwrap());
    assert_eq!(index, 0);
}

#[test]
fn remove_panel() {
    let mut panels = Panels::new();
    let index = panels.push(PanelFactory::panel("Edit").unwrap());
    panels.remove(index);

    assert_eq!(panels.get(0).unwrap().panel_type(), NULL_PANEL_TYPE_ID);
}

#[test]
fn add_after_remove() {
    let mut panels = Panels::new();
    panels.push(PanelFactory::panel("Edit").unwrap());
    panels.push(PanelFactory::panel("Edit").unwrap());

    panels.remove(0);

    let index = panels.push(PanelFactory::panel("Edit").unwrap());

    assert_eq!(index, 0);
}

#[test]
fn push_after_removing_later_slot_reuses_it() {
    let mut panels = Panels::new();
    panels.push(PanelFactory::edit());
    panels.push(PanelFactory::edit());
    panels.push(PanelFactory::edit());

    panels.remove(1);

    assert_eq!(panels.push(PanelFactory::messages()), 1);
    assert_eq!(panels.len(), 3);
    assert_eq!(panels.get(1).unwrap().panel_type(), MESSAGE_PANEL_TYPE_ID);
}
