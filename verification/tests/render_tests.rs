use split_editor::app::AppState;
use split_editor::keys::KeyCode;
use split_editor::panels::Panels;
use split_editor::render::{layout_allowed, split_layout, split_lengths, split_lengths_allowed, HasPoint, Rect};
use split_editor::splits::UserSplits;

#[test]
fn rect_keeps_small_size() {
    let r = Rect::new(1, 2, 30, 40);
    assert_eq!((r.x, r.y, r.width, r.height), (1, 2, 30, 40));
}

#[test]
fn rect_clips_large_area() {
    let r = Rect::new(0, 0, 1000, 1000);
    assert!((r.width as u32) * (r.height as u32) <= u16::MAX as u32);
    assert!(r.width < 1000 && r.height < 1000);
}

#[test]
fn has_point_inside_and_outside() {
    let r = Rect::new(10, 10, 5, 5);
    assert!(r.has_point(10, 10));
    assert!(r.has_point(14, 14));
    assert!(!r.has_point(15, 10));
    assert!(!r.has_point(9, 12));
}

#[test]
fn lengths_share_what_is_left() {
    // two flexible children and a fixed one of 5 in 25 cells: 20 left,
    // 10 each for the first two; the last takes what remains.
    assert_eq!(split_lengths(&vec![0, 0, 5], 25), vec![10, 10, 0]);
    assert_eq!(split_lengths(&vec![0, 0, 0], 30), vec![10, 10, 10]);
    assert_eq!(split_lengths(&vec![0, 0, 0], 31), vec![10, 10, 11]);
    assert_eq!(split_lengths(&vec![], 31), Vec::<u16>::new());
}

#[test]
fn lengths_add_up_to_free_space() {
    let fixed = vec![0, 3, 0, 0];
    let lengths = split_lengths(&fixed, 40);
    let total: u32 = lengths.iter().map(|l| *l as u32).sum();
    assert_eq!(total, 40 - 3);
}

#[test]
fn default_layout_gives_input_its_rows() {
    let mut panels = Panels::new();
    let mut app = AppState::new();
    app.init(&mut panels);

    let children = split_layout(&app, &panels, 0, Rect::new(0, 0, 80, 24)).unwrap();

    assert_eq!(children.len(), 3);
    assert_eq!(children[0].0, UserSplits::Panel(0));
    // the input panel asks for three rows
    assert_eq!(children[0].1.height, 3);
    assert_eq!(split_lengths(&vec![3, 0, 0], 24), vec![3, 10, 8]);
    assert!(split_layout(&app, &panels, 5, Rect::new(0, 0, 80, 24)).is_none());
}

#[test]
fn hidden_panels_are_not_laid_out() {
    let mut panels = Panels::new();
    let mut app = AppState::new();
    app.init(&mut panels);
    app.split_current_panel_horizontal(KeyCode::Null, &mut panels);
    let index = app.get_panel(3).unwrap().panel_index;
    panels.get_mut(index).unwrap().conceal();

    let children = split_layout(&app, &panels, 1, Rect::new(0, 0, 80, 24)).unwrap();

    assert_eq!(children.len(), 1);
    assert_eq!(children[0].0, UserSplits::Panel(1));
}

#[test]
fn lengths_allowed_when_they_fit() {
    assert!(split_lengths_allowed(&vec![0, 0, 5], 25));
    assert!(!split_lengths_allowed(&vec![20, 0, 10], 25));
    assert!(split_lengths_allowed(&vec![], 0));
    // fixed lengths taken twice: the first children leave too little
    assert!(!split_lengths_allowed(&vec![8, 8, 0], 20));
}

#[test]
fn layout_allowed_checks_input_rows_and_edges() {
    let mut panels = Panels::new();
    let mut app = AppState::new();
    app.init(&mut panels);

    assert!(layout_allowed(&app, &panels, 0, Rect::new(0, 0, 80, 24)));
    // an input panel needs six columns to count its rows
    assert!(!layout_allowed(&app, &panels, 0, Rect::new(0, 0, 4, 24)));
    // the far edge must be a cell
    assert!(!layout_allowed(&app, &panels, 0, Rect { x: 65530, y: 0, width: 80, height: 24 }));
    // no such split: nothing to lay out
    assert!(layout_allowed(&app, &panels, 9, Rect::new(0, 0, 4, 4)));
}

#[test]
fn layout_tiles_the_chunk() {
    let mut panels = Panels::new();
    let mut app = AppState::new();
    app.init(&mut panels);

    let children = split_layout(&app, &panels, 0, Rect::new(2, 1, 80, 24)).unwrap();
    assert_eq!(children[0].1.y, 1);
    for w in children.windows(2) {
        assert_eq!(w[0].1.y + w[0].1.height, w[1].1.y);
    }
    let last = children.last().unwrap().1;
    assert_eq!(last.y + last.height, 25);
    for (_, r) in &children {
        assert_eq!((r.x, r.width), (2, 80));
    }
}
