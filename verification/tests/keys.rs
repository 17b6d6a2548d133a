use idxd::ui::keybindings::{
    command_for, Action, Command, Connected, Direction, Key, Keybindings, ViewMode,
};

fn everybody() -> Connected {
    Connected {
        open_directory: true,
        toggle_recursive: true,
        toggle_shuffle: true,
        toggle_favorite: true,
        delete_selected: true,
        go_to_parent: true,
    }
}

/// A grid of three rows: three items, one item, two items.
fn row_length(row: u32) -> u32 {
    match row {
        0 => 3,
        1 => 1,
        _ => 2,
    }
}

fn path_at(row: u32, col: u32) -> Option<String> {
    if col < row_length(row) {
        Some(format!("/p/{row}-{col}.jpg"))
    } else {
        None
    }
}

fn no_path(_row: u32, _col: u32) -> Option<String> {
    None
}

fn is_open(action: &Action, row: u32, col: u32, path: &str) -> bool {
    match action {
        Action::OpenViewer(r, c, p) => *r == row && *c == col && p == path,
        _ => false,
    }
}

#[test]
fn keys_move_through_the_grid() {
    let mut keys = Keybindings::new(row_length);
    keys.set_row_count(3);
    assert_eq!(keys.selection(), (0, 0));
    let (handled, action) = keys.handle_key_press(Key::Left, &path_at);
    assert!(handled && matches!(action, Action::Stay));
    let (handled, action) = keys.handle_key_press(Key::Char('l'), &path_at);
    assert!(handled && matches!(action, Action::SelectionChanged(0, 1)));
    let (_, action) = keys.handle_key_press(Key::Right, &path_at);
    assert!(matches!(action, Action::SelectionChanged(0, 2)));
    let (_, action) = keys.handle_key_press(Key::Char('j'), &path_at);
    assert!(matches!(action, Action::SelectionChanged(1, 0)));
    let (_, action) = keys.handle_key_press(Key::Char('h'), &path_at);
    assert!(matches!(action, Action::SelectionChanged(0, 2)));
    let (_, action) = keys.handle_key_press(Key::Char('k'), &path_at);
    assert!(matches!(action, Action::Stay));
    assert_eq!(keys.selection(), (0, 2));
    assert_eq!(keys.view_mode, ViewMode::Grid);
}

#[test]
fn enter_opens_and_escape_closes() {
    let mut keys = Keybindings::new(row_length);
    keys.set_row_count(3);
    assert_eq!(keys.set_selection(2, 9), Some((2, 1)));
    let (handled, action) = keys.handle_key_press(Key::Escape, &path_at);
    assert!(!handled && matches!(action, Action::Stay));
    let (handled, action) = keys.handle_key_press(Key::Return, &path_at);
    assert!(handled && is_open(&action, 2, 1, "/p/2-1.jpg"));
    assert_eq!(keys.view_mode, ViewMode::Viewer);
    // In the viewer enter is for nobody.
    let (handled, action) = keys.handle_key_press(Key::KpEnter, &path_at);
    assert!(!handled && matches!(action, Action::Stay));
    let (handled, action) = keys.handle_key_press(Key::Escape, &path_at);
    assert!(handled && matches!(action, Action::CloseViewer));
    assert_eq!(keys.view_mode, ViewMode::Grid);
}

#[test]
fn enter_without_an_item_does_nothing() {
    let mut keys = Keybindings::new(row_length);
    let (handled, action) = keys.handle_key_press(Key::Return, &no_path);
    assert!(!handled && matches!(action, Action::Stay));
    assert_eq!(keys.view_mode, ViewMode::Grid);
    assert_eq!(keys.set_selection(0, 0), None);
}

#[test]
fn steps_in_the_viewer_show_the_item_beside() {
    let mut keys = Keybindings::new(row_length);
    keys.set_row_count(3);
    keys.set_view_mode(ViewMode::Viewer);
    assert_eq!(keys.set_selection(0, 2), Some((0, 2)));
    let (handled, action) = keys.handle_key_press(Key::Right, &path_at);
    assert!(handled && is_open(&action, 1, 0, "/p/1-0.jpg"));
    let (handled, action) = keys.handle_key_press(Key::Left, &no_path);
    assert!(handled && matches!(action, Action::Stay));
    assert_eq!(keys.selection(), (0, 2));
    let (handled, action) = keys.handle_key_press(Key::Down, &path_at);
    assert!(!handled && matches!(action, Action::Stay));
    assert_eq!(keys.selection(), (0, 2));
}

#[test]
fn keys_that_nobody_answers_are_ignored() {
    let mut keys = Keybindings::new(row_length);
    for key in [Key::Char('o'), Key::Char('r'), Key::Char('s'), Key::Char('+'), Key::Delete] {
        let (handled, action) = keys.handle_key_press(key, &path_at);
        assert!(!handled && matches!(action, Action::Stay));
    }
    keys.connected = everybody();
    let (handled, action) = keys.handle_key_press(Key::Char('O'), &path_at);
    assert!(handled && matches!(action, Action::OpenDirectory));
    let (_, action) = keys.handle_key_press(Key::Char('R'), &path_at);
    assert!(matches!(action, Action::ToggleRecursive));
    let (_, action) = keys.handle_key_press(Key::Char('S'), &path_at);
    assert!(matches!(action, Action::ToggleShuffle));
    let (_, action) = keys.handle_key_press(Key::Char('='), &path_at);
    assert!(matches!(action, Action::ToggleFavorite));
    let (_, action) = keys.handle_key_press(Key::KpAdd, &path_at);
    assert!(matches!(action, Action::ToggleFavorite));
    let (_, action) = keys.handle_key_press(Key::Delete, &path_at);
    assert!(matches!(action, Action::DeleteSelected));
    let (_, action) = keys.handle_key_press(Key::BackSpace, &path_at);
    assert!(matches!(action, Action::GoToParent));
    let (_, action) = keys.handle_key_press(Key::Char('f'), &path_at);
    assert!(matches!(action, Action::ToggleFullscreen));
    let (_, action) = keys.handle_key_press(Key::Char(' '), &path_at);
    assert!(matches!(action, Action::ToggleUi));
}

#[test]
fn commands_depend_on_what_is_shown() {
    let on = everybody();
    assert_eq!(command_for(Key::Char(' '), ViewMode::Grid, on), Command::ToggleUi);
    assert_eq!(command_for(Key::Char(' '), ViewMode::Viewer, on), Command::PlayPause);
    assert_eq!(command_for(Key::BackSpace, ViewMode::Viewer, on), Command::Ignore);
    assert_eq!(command_for(Key::Char('l'), ViewMode::Grid, on), Command::Move(Direction::Right));
    assert_eq!(command_for(Key::Char('h'), ViewMode::Viewer, on), Command::Step(Direction::Left));
    assert_eq!(command_for(Key::Up, ViewMode::Viewer, on), Command::Ignore);
    assert_eq!(command_for(Key::Other, ViewMode::Grid, on), Command::Ignore);
}

#[test]
fn fewer_rows_pull_the_selection_back() {
    let mut keys = Keybindings::new(row_length);
    keys.set_row_count(3);
    assert_eq!(keys.set_selection(2, 1), Some((2, 1)));
    keys.set_row_count(2);
    assert_eq!(keys.selection(), (1, 0));
    keys.set_row_count(0);
    assert_eq!(keys.selection(), (1, 0));
}
