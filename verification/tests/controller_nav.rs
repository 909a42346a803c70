use uf2boot::controller::{ButtonEvent, Controller, UiAction};

#[test]
fn selection_starts_at_top_after_refresh() {
    let mut c = Controller::new();
    assert_eq!(c.file_count(), 0);
    assert_eq!(c.selected_index(), 0);
    c.refresh_files(5);
    assert_eq!(c.file_count(), 5);
    assert_eq!(c.selected_index(), 0);
}

#[test]
fn move_down_wraps_at_the_bottom() {
    let mut c = Controller::new();
    c.refresh_files(3);
    c.move_down();
    assert_eq!(c.selected_index(), 1);
    c.move_down();
    assert_eq!(c.selected_index(), 2);
    c.move_down();
    assert_eq!(c.selected_index(), 0);
}

#[test]
fn move_up_wraps_at_the_top() {
    let mut c = Controller::new();
    c.refresh_files(3);
    c.move_up();
    assert_eq!(c.selected_index(), 2);
    c.move_up();
    assert_eq!(c.selected_index(), 1);
}

#[test]
fn empty_list_never_moves() {
    let mut c = Controller::new();
    c.move_up();
    assert_eq!(c.selected_index(), 0);
    c.move_down();
    assert_eq!(c.selected_index(), 0);
    assert!(!c.has_selection());
}

#[test]
fn buttons_map_to_actions() {
    let mut c = Controller::new();
    c.refresh_files(2);
    assert_eq!(c.handle_button(ButtonEvent::Down), UiAction::Redraw);
    assert_eq!(c.selected_index(), 1);
    assert_eq!(c.handle_button(ButtonEvent::Up), UiAction::Redraw);
    assert_eq!(c.selected_index(), 0);
    assert_eq!(c.handle_button(ButtonEvent::Refresh), UiAction::Refresh);
    assert_eq!(c.handle_button(ButtonEvent::Select), UiAction::BootSelected);
}

#[test]
fn select_with_no_files_boots_nothing() {
    let mut c = Controller::new();
    assert_eq!(c.handle_button(ButtonEvent::Select), UiAction::Redraw);
}
