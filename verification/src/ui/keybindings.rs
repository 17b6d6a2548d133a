//! Keys and the selection in the grid.
//!
//! - Arrow keys, `h` `j` `k` `l`: move through the grid
//! - Enter: open the selected item
//! - Escape: close the viewer
//! - Backspace: go to the parent directory
//! - Space: play or pause in the viewer, show or hide the controls in the grid
//! - `f`: fullscreen
//! - `o`: open a directory
//! - `r`: scan recursively
//! - `s`: shuffle
//! - `+`: favorite
//! - Delete: delete the file
use vstd::prelude::*;

verus! {

/// A direction of movement in the grid.
#[derive(Clone, Copy, PartialEq, Eq, Structural, Debug)]
pub enum Direction {
    Up,
    Down,
    Left,
    Right,
}

/// What the window shows.
#[derive(Clone, Copy, PartialEq, Eq, Structural, Debug)]
pub enum ViewMode {
    Grid,
    Viewer,
}

/// A key on the keyboard.
#[derive(Clone, Copy, PartialEq, Eq, Structural, Debug)]
pub enum Key {
    Escape,
    Return,
    KpEnter,
    KpAdd,
    KpSubtract,
    KpZero,
    KpOne,
    Up,
    Down,
    Left,
    Right,
    Delete,
    BackSpace,
    /// A key that writes a character.
    Char(char),
    /// Any other key.
    Other,
}

/// The row whose number of items decides where a move ends, if one does.
pub open spec fn consulted_row(row: u32, col: u32, row_count: u32, d: Direction) -> Option<u32> {
    if row_count == 0 {
        None
    } else {
        match d {
            Direction::Up => if row > 0 {
                Some((row - 1) as u32)
            } else {
                None
            },
            Direction::Down => if row < row_count - 1 {
                Some((row + 1) as u32)
            } else {
                None
            },
            Direction::Left => if col == 0 && row > 0 {
                Some((row - 1) as u32)
            } else {
                None
            },
            Direction::Right => Some(row),
        }
    }
}

/// The last place of a row that a column comes down to; an empty row leaves it
/// as it is.
pub open spec fn clamped_col(col: u32, items: u32) -> u32 {
    if items > 0 && col > items - 1 {
        (items - 1) as u32
    } else {
        col
    }
}

/// Where a move leads, given the number of items of the consulted row. Up and
/// down keep the column as far as the row goes; left and right run on into the
/// neighbouring row; nothing leads out of the grid.
pub open spec fn moved(row: u32, col: u32, row_count: u32, d: Direction, items: u32) -> (u32, u32) {
    if row_count == 0 {
        (row, col)
    } else {
        match d {
            Direction::Up => if row > 0 {
                ((row - 1) as u32, clamped_col(col, items))
            } else {
                (row, col)
            },
            Direction::Down => if row < row_count - 1 {
                ((row + 1) as u32, clamped_col(col, items))
            } else {
                (row, col)
            },
            Direction::Left => if col > 0 {
                (row, (col - 1) as u32)
            } else if row > 0 {
                (
                    (row - 1) as u32,
                    if items > 0 {
                        (items - 1) as u32
                    } else {
                        0
                    },
                )
            } else {
                (row, col)
            },
            Direction::Right => if items > 0 && col < items - 1 {
                (row, (col + 1) as u32)
            } else if row < row_count - 1 {
                ((row + 1) as u32, 0)
            } else {
                (row, col)
            },
        }
    }
}

/// Whether `f` may answer `n` for the number of items of the consulted row; any
/// number will do where no row is consulted.
pub open spec fn answers<F: Fn(u32) -> u32>(f: F, row: Option<u32>, n: u32) -> bool {
    match row {
        Some(r) => call_ensures(f, (r,), n),
        None => true,
    }
}

/// The selected place in the grid, whose rows differ in length.
pub struct GridSelection<F: Fn(u32) -> u32> {
    /// The selected row.
    pub row: u32,
    /// The selected place within the row.
    pub col: u32,
    /// The number of rows.
    pub row_count: u32,
    /// The number of items of each row.
    pub items_per_row: F,
}

impl<F: Fn(u32) -> u32> GridSelection<F> {
    /// The number of items can be asked for any row.
    pub open spec fn can_count(self) -> bool {
        forall|r: u32| #[trigger] call_requires(self.items_per_row, (r,))
    }

    /// Rows and their lengths are as in `other`.
    pub open spec fn same_grid(self, other: Self) -> bool {
        self.row_count == other.row_count && self.items_per_row == other.items_per_row
    }

    /// The selected place is where a move from `before` leads.
    pub open spec fn is_moved(self, before: Self, d: Direction) -> bool {
        &&& self.same_grid(before)
        &&& exists|n: u32|
            #[trigger] answers(
                before.items_per_row,
                consulted_row(before.row, before.col, before.row_count, d),
                n,
            ) && (self.row, self.col) == moved(before.row, before.col, before.row_count, d, n)
    }

    /// The first place of a grid that has no rows yet.
    pub fn new(items_per_row: F) -> (r: Self)
        ensures
            r.row == 0,
            r.col == 0,
            r.row_count == 0,
            r.items_per_row == items_per_row,
    {
        GridSelection { row: 0, col: 0, row_count: 0, items_per_row }
    }

    /// Moves the selection; tells whether it changed.
    pub fn move_selection(&mut self, direction: Direction) -> (r: bool)
        requires
            old(self).can_count(),
        ensures
            final(self).is_moved(*old(self), direction),
            r == ((final(self).row, final(self).col) != (old(self).row, old(self).col)),
            direction == Direction::Up && old(self).row_count > 0 && old(self).row > 0 ==> {
                &&& final(self).row == old(self).row - 1
                &&& exists|n: u32|
                    #[trigger] call_ensures(old(self).items_per_row, (final(self).row,), n) && (
                    if n == 0 || old(self).col < n {
                        final(self).col == old(self).col
                    } else {
                        final(self).col == n - 1
                    })
            },
            direction == Direction::Down && old(self).row + 1 < old(self).row_count ==> {
                &&& final(self).row == old(self).row + 1
                &&& exists|n: u32|
                    #[trigger] call_ensures(old(self).items_per_row, (final(self).row,), n) && (
                    if n == 0 || old(self).col < n {
                        final(self).col == old(self).col
                    } else {
                        final(self).col == n - 1
                    })
            },
    {
        if self.row_count == 0 {
            assert(answers(self.items_per_row, None, 0));
            return false;
        }
        let old_row: u32 = self.row;
        let old_col: u32 = self.col;
        let ghost before = *self;
        let ghost asked = consulted_row(self.row, self.col, self.row_count, direction);
        match direction {
            Direction::Up => {
                if self.row > 0 {
                    let items: u32 = (self.items_per_row)(self.row - 1);
                    assert(answers(before.items_per_row, asked, items));
                    self.row = self.row - 1;
                    if items > 0 && self.col > items - 1 {
                        self.col = items - 1;
                    }
                } else {
                    assert(answers(before.items_per_row, asked, 0));
                }
            },
            Direction::Down => {
                if self.row < self.row_count - 1 {
                    let items: u32 = (self.items_per_row)(self.row + 1);
                    assert(answers(before.items_per_row, asked, items));
                    self.row = self.row + 1;
                    if items > 0 && self.col > items - 1 {
                        self.col = items - 1;
                    }
                } else {
                    assert(answers(before.items_per_row, asked, 0));
                }
            },
            Direction::Left => {
                if self.col > 0 {
                    assert(answers(before.items_per_row, asked, 0));
                    self.col = self.col - 1;
                } else if self.row > 0 {
                    let items: u32 = (self.items_per_row)(self.row - 1);
                    assert(answers(before.items_per_row, asked, items));
                    self.row = self.row - 1;
                    self.col = if items > 0 {
                        items - 1
                    } else {
                        0
                    };
                } else {
                    assert(answers(before.items_per_row, asked, 0));
                }
            },
            Direction::Right => {
                let items: u32 = (self.items_per_row)(self.row);
                assert(answers(before.items_per_row, asked, items));
                if items > 0 && self.col < items - 1 {
                    self.col = self.col + 1;
                } else if self.row < self.row_count - 1 {
                    self.row = self.row + 1;
                    self.col = 0;
                }
            },
        }
        old_row != self.row || old_col != self.col
    }

    /// The selected place as row and column.
    pub fn position(&self) -> (r: (u32, u32))
        ensures
            r == (self.row, self.col),
    {
        (self.row, self.col)
    }

    /// Sets the number of rows; a selection outside the grid comes back to its
    /// last row, and to the last item of the row it is in.
    pub fn set_row_count(&mut self, count: u32)
        requires
            old(self).can_count(),
        ensures
            final(self).row_count == count,
            final(self).items_per_row == old(self).items_per_row,
            final(self).row == if old(self).row >= count && count > 0 {
                (count - 1) as u32
            } else {
                old(self).row
            },
            count == 0 ==> final(self).col == old(self).col,
            count > 0 ==> exists|n: u32|
                #[trigger] call_ensures(old(self).items_per_row, (final(self).row,), n)
                    && final(self).col == clamped_col(old(self).col, n),
    {
        self.row_count = count;
        if self.row >= count && count > 0 {
            self.row = count - 1;
        }
        if count > 0 {
            let items: u32 = (self.items_per_row)(self.row);
            if self.col >= items && items > 0 {
                self.col = items - 1;
            }
            assert(self.col == clamped_col(old(self).col, items));
            assert(call_ensures(old(self).items_per_row, (self.row,), items));
        }
    }

    /// Selects a place, kept inside the grid; tells the place that is selected
    /// then, or nothing where the grid has no rows.
    pub fn set_selection(&mut self, row: u32, col: u32) -> (r: Option<(u32, u32)>)
        requires
            old(self).can_count(),
        ensures
            final(self).same_grid(*old(self)),
            old(self).row_count == 0 ==> r is None && final(self).row == old(self).row
                && final(self).col == old(self).col,
            old(self).row_count > 0 ==> {
                &&& r == Some((final(self).row, final(self).col))
                &&& final(self).row == if row > old(self).row_count - 1 {
                    (old(self).row_count - 1) as u32
                } else {
                    row
                }
                &&& exists|n: u32|
                    #[trigger] call_ensures(old(self).items_per_row, (final(self).row,), n)
                        && final(self).col == if n == 0 {
                        0
                    } else {
                        clamped_col(col, n)
                    }
            },
    {
        if self.row_count == 0 {
            return None;
        }
        let new_row: u32 = if row > self.row_count - 1 {
            self.row_count - 1
        } else {
            row
        };
        let items: u32 = (self.items_per_row)(new_row);
        let new_col: u32 = if items == 0 {
            0
        } else if col > items - 1 {
            items - 1
        } else {
            col
        };
        self.row = new_row;
        self.col = new_col;
        Some((new_row, new_col))
    }
}

/// Which of the optional requests somebody answers.
#[derive(Clone, Copy, PartialEq, Eq, Structural, Debug)]
pub struct Connected {
    pub open_directory: bool,
    pub toggle_recursive: bool,
    pub toggle_shuffle: bool,
    pub toggle_favorite: bool,
    pub delete_selected: bool,
    pub go_to_parent: bool,
}

/// What a key press asks the window to do.
#[derive(Debug)]
pub enum Action {
    /// Nothing.
    Stay,
    CloseViewer,
    /// Show the item at the given place.
    OpenViewer(u32, u32, String),
    PlayPause,
    ToggleUi,
    ToggleFullscreen,
    OpenDirectory,
    ToggleRecursive,
    ToggleShuffle,
    ToggleFavorite,
    DeleteSelected,
    GoToParent,
    /// Another place is selected.
    SelectionChanged(u32, u32),
}

/// What a key stands for.
#[derive(Clone, Copy, PartialEq, Eq, Structural, Debug)]
pub enum Command {
    /// The key is not for the browser.
    Ignore,
    CloseViewer,
    OpenSelected,
    PlayPause,
    ToggleUi,
    ToggleFullscreen,
    OpenDirectory,
    ToggleRecursive,
    ToggleShuffle,
    ToggleFavorite,
    DeleteSelected,
    GoToParent,
    /// Move through the grid.
    Move(Direction),
    /// Show the item beside the one that is shown.
    Step(Direction),
}

/// The direction that a key stands for in the grid.
pub open spec fn key_direction(key: Key) -> Option<Direction> {
    match key {
        Key::Up => Some(Direction::Up),
        Key::Down => Some(Direction::Down),
        Key::Left => Some(Direction::Left),
        Key::Right => Some(Direction::Right),
        Key::Char(c) => if c == 'h' {
            Some(Direction::Left)
        } else if c == 'j' {
            Some(Direction::Down)
        } else if c == 'k' {
            Some(Direction::Up)
        } else if c == 'l' {
            Some(Direction::Right)
        } else {
            None
        },
        _ => None,
    }
}

/// A command, if somebody answers it.
pub open spec fn if_connected(connected: bool, command: Command) -> Command {
    if connected {
        command
    } else {
        Command::Ignore
    }
}

/// What a key stands for, depending on what the window shows and who listens.
pub open spec fn command_of(key: Key, mode: ViewMode, on: Connected) -> Command {
    match key {
        Key::Escape => if_connected(mode == ViewMode::Viewer, Command::CloseViewer),
        Key::Return | Key::KpEnter => if_connected(mode == ViewMode::Grid, Command::OpenSelected),
        Key::KpAdd => if_connected(on.toggle_favorite, Command::ToggleFavorite),
        Key::Delete => if_connected(on.delete_selected, Command::DeleteSelected),
        Key::BackSpace => if_connected(
            on.go_to_parent && mode == ViewMode::Grid,
            Command::GoToParent,
        ),
        Key::Char(' ') => if mode == ViewMode::Viewer {
            Command::PlayPause
        } else {
            Command::ToggleUi
        },
        Key::Char('f') | Key::Char('F') => Command::ToggleFullscreen,
        Key::Char('o') | Key::Char('O') => if_connected(
            on.open_directory,
            Command::OpenDirectory,
        ),
        Key::Char('r') | Key::Char('R') => if_connected(
            on.toggle_recursive,
            Command::ToggleRecursive,
        ),
        Key::Char('s') | Key::Char('S') => if_connected(
            on.toggle_shuffle,
            Command::ToggleShuffle,
        ),
        Key::Char('+') | Key::Char('=') => if_connected(
            on.toggle_favorite,
            Command::ToggleFavorite,
        ),
        _ => match key_direction(key) {
            Some(d) => if mode == ViewMode::Grid {
                Command::Move(d)
            } else if d == Direction::Left || d == Direction::Right {
                Command::Step(d)
            } else {
                Command::Ignore
            },
            None => Command::Ignore,
        },
    }
}

fn read_direction(key: Key) -> (r: Option<Direction>)
    ensures
        r == key_direction(key),
{
    match key {
        Key::Up => Some(Direction::Up),
        Key::Down => Some(Direction::Down),
        Key::Left => Some(Direction::Left),
        Key::Right => Some(Direction::Right),
        Key::Char('h') => Some(Direction::Left),
        Key::Char('j') => Some(Direction::Down),
        Key::Char('k') => Some(Direction::Up),
        Key::Char('l') => Some(Direction::Right),
        _ => None,
    }
}

fn when(connected: bool, command: Command) -> (r: Command)
    ensures
        r == if_connected(connected, command),
{
    if connected {
        command
    } else {
        Command::Ignore
    }
}

/// Finds out what a key stands for.
pub fn command_for(key: Key, mode: ViewMode, on: Connected) -> (r: Command)
    ensures
        r == command_of(key, mode, on),
{
    match key {
        Key::Escape => when(mode == ViewMode::Viewer, Command::CloseViewer),
        Key::Return | Key::KpEnter => when(mode == ViewMode::Grid, Command::OpenSelected),
        Key::KpAdd => when(on.toggle_favorite, Command::ToggleFavorite),
        Key::Delete => when(on.delete_selected, Command::DeleteSelected),
        Key::BackSpace => when(on.go_to_parent && mode == ViewMode::Grid, Command::GoToParent),
        Key::Char(' ') => if mode == ViewMode::Viewer {
            Command::PlayPause
        } else {
            Command::ToggleUi
        },
        Key::Char('f') | Key::Char('F') => Command::ToggleFullscreen,
        Key::Char('o') | Key::Char('O') => when(on.open_directory, Command::OpenDirectory),
        Key::Char('r') | Key::Char('R') => when(on.toggle_recursive, Command::ToggleRecursive),
        Key::Char('s') | Key::Char('S') => when(on.toggle_shuffle, Command::ToggleShuffle),
        Key::Char('+') | Key::Char('=') => when(on.toggle_favorite, Command::ToggleFavorite),
        _ => match read_direction(key) {
            Some(d) => if mode == ViewMode::Grid {
                Command::Move(d)
            } else if d == Direction::Left || d == Direction::Right {
                Command::Step(d)
            } else {
                Command::Ignore
            },
            None => Command::Ignore,
        },
    }
}

/// Whether an action shows the given path at the given place.
pub open spec fn opens(action: Action, row: u32, col: u32, path: Seq<char>) -> bool {
    action matches Action::OpenViewer(r, c, p) && r == row && c == col && p@ == path
}

/// The action that a command is, where it concerns neither the selection nor
/// the viewer.
pub open spec fn plain_action(command: Command) -> Option<Action> {
    match command {
        Command::PlayPause => Some(Action::PlayPause),
        Command::ToggleUi => Some(Action::ToggleUi),
        Command::ToggleFullscreen => Some(Action::ToggleFullscreen),
        Command::OpenDirectory => Some(Action::OpenDirectory),
        Command::ToggleRecursive => Some(Action::ToggleRecursive),
        Command::ToggleShuffle => Some(Action::ToggleShuffle),
        Command::ToggleFavorite => Some(Action::ToggleFavorite),
        Command::DeleteSelected => Some(Action::DeleteSelected),
        Command::GoToParent => Some(Action::GoToParent),
        _ => None,
    }
}

/// The keyboard side of the window: what it shows, what is selected, and who
/// listens.
pub struct Keybindings<F: Fn(u32) -> u32> {
    pub view_mode: ViewMode,
    pub selection: GridSelection<F>,
    pub connected: Connected,
}

impl<F: Fn(u32) -> u32> Keybindings<F> {
    /// A grid without rows, and nobody listening.
    pub fn new(items_per_row: F) -> (r: Self)
        ensures
            r.view_mode == ViewMode::Grid,
            r.selection.row == 0,
            r.selection.col == 0,
            r.selection.row_count == 0,
            r.selection.items_per_row == items_per_row,
            r.connected == (Connected {
                open_directory: false,
                toggle_recursive: false,
                toggle_shuffle: false,
                toggle_favorite: false,
                delete_selected: false,
                go_to_parent: false,
            }),
    {
        Keybindings {
            view_mode: ViewMode::Grid,
            selection: GridSelection::new(items_per_row),
            connected: Connected {
                open_directory: false,
                toggle_recursive: false,
                toggle_shuffle: false,
                toggle_favorite: false,
                delete_selected: false,
                go_to_parent: false,
            },
        }
    }

    /// Sets what the window shows.
    pub fn set_view_mode(&mut self, mode: ViewMode)
        ensures
            final(self).view_mode == mode,
            final(self).selection == old(self).selection,
            final(self).connected == old(self).connected,
    {
        self.view_mode = mode;
    }

    /// Sets the number of rows; a selection outside the grid comes back into it.
    pub fn set_row_count(&mut self, count: u32)
        requires
            old(self).selection.can_count(),
        ensures
            final(self).view_mode == old(self).view_mode,
            final(self).connected == old(self).connected,
            final(self).selection.row_count == count,
            final(self).selection.items_per_row == old(self).selection.items_per_row,
            final(self).selection.row == if old(self).selection.row >= count && count > 0 {
                (count - 1) as u32
            } else {
                old(self).selection.row
            },
            count == 0 ==> final(self).selection.col == old(self).selection.col,
            count > 0 ==> exists|n: u32|
                #[trigger] call_ensures(
                    old(self).selection.items_per_row,
                    (final(self).selection.row,),
                    n,
                ) && final(self).selection.col == clamped_col(old(self).selection.col, n),
    {
        self.selection.set_row_count(count);
    }

    /// The selected place.
    pub fn selection(&self) -> (r: (u32, u32))
        ensures
            r == (self.selection.row, self.selection.col),
    {
        self.selection.position()
    }

    /// Selects a place, kept inside the grid; tells the place that is selected
    /// then, or nothing where the grid has no rows.
    pub fn set_selection(&mut self, row: u32, col: u32) -> (r: Option<(u32, u32)>)
        requires
            old(self).selection.can_count(),
        ensures
            final(self).view_mode == old(self).view_mode,
            final(self).connected == old(self).connected,
            final(self).selection.same_grid(old(self).selection),
            old(self).selection.row_count == 0 ==> r is None && final(self).selection == old(
                self,
            ).selection,
            old(self).selection.row_count > 0 ==> {
                &&& r == Some((final(self).selection.row, final(self).selection.col))
                &&& final(self).selection.row == if row > old(self).selection.row_count - 1 {
                    (old(self).selection.row_count - 1) as u32
                } else {
                    row
                }
                &&& exists|n: u32|
                    #[trigger] call_ensures(
                        old(self).selection.items_per_row,
                        (final(self).selection.row,),
                        n,
                    ) && final(self).selection.col == if n == 0 {
                        0
                    } else {
                        clamped_col(col, n)
                    }
            },
    {
        self.selection.set_selection(row, col)
    }

    /// Handles a key press: what the window has to do, and whether the key was
    /// for the browser. Paths are looked up by place.
    pub fn handle_key_press<G: Fn(u32, u32) -> Option<String>>(
        &mut self,
        key: Key,
        path_lookup: &G,
    ) -> (r: (bool, Action))
        requires
            old(self).selection.can_count(),
            forall|row: u32, col: u32| #[trigger] call_requires(*path_lookup, (row, col)),
        ensures
            final(self).connected == old(self).connected,
            final(self).selection.same_grid(old(self).selection),
            match command_of(key, old(self).view_mode, old(self).connected) {
                Command::Ignore => {
                    &&& *final(self) == *old(self)
                    &&& r == (false, Action::Stay)
                },
                Command::CloseViewer => {
                    &&& final(self).selection == old(self).selection
                    &&& final(self).view_mode == ViewMode::Grid
                    &&& r == (true, Action::CloseViewer)
                },
                Command::OpenSelected => {
                    &&& final(self).selection == old(self).selection
                    &&& exists|p: Option<String>|
                        {
                            &&& #[trigger] call_ensures(
                                *path_lookup,
                                (old(self).selection.row, old(self).selection.col),
                                p,
                            )
                            &&& match p {
                                Some(path) => r.0 && opens(
                                    r.1,
                                    old(self).selection.row,
                                    old(self).selection.col,
                                    path@,
                                ) && final(self).view_mode == ViewMode::Viewer,
                                None => r == (false, Action::Stay) && final(self).view_mode == old(
                                    self,
                                ).view_mode,
                            }
                        }
                },
                Command::Move(d) => {
                    &&& final(self).view_mode == old(self).view_mode
                    &&& final(self).selection.is_moved(old(self).selection, d)
                    &&& r.0
                    &&& if (final(self).selection.row, final(self).selection.col) == (
                        old(self).selection.row,
                        old(self).selection.col,
                    ) {
                        r.1 == Action::Stay
                    } else {
                        r.1 == Action::SelectionChanged(
                            final(self).selection.row,
                            final(self).selection.col,
                        )
                    }
                },
                Command::Step(d) => {
                    &&& final(self).view_mode == old(self).view_mode
                    &&& final(self).selection.is_moved(old(self).selection, d)
                    &&& r.0
                    &&& if (final(self).selection.row, final(self).selection.col) == (
                        old(self).selection.row,
                        old(self).selection.col,
                    ) {
                        r.1 == Action::Stay
                    } else {
                        exists|p: Option<String>|
                            {
                                &&& #[trigger] call_ensures(
                                    *path_lookup,
                                    (final(self).selection.row, final(self).selection.col),
                                    p,
                                )
                                &&& match p {
                                    Some(path) => opens(
                                        r.1,
                                        final(self).selection.row,
                                        final(self).selection.col,
                                        path@,
                                    ),
                                    None => r.1 == Action::Stay,
                                }
                            }
                    }
                },
                plain => {
                    &&& *final(self) == *old(self)
                    &&& r.0
                    &&& plain_action(plain) == Some(r.1)
                },
            },
    {
        match command_for(key, self.view_mode, self.connected) {
            Command::Ignore => (false, Action::Stay),
            Command::CloseViewer => {
                self.view_mode = ViewMode::Grid;
                (true, Action::CloseViewer)
            },
            Command::OpenSelected => {
                let (row, col) = self.selection.position();
                match path_lookup(row, col) {
                    Some(path) => {
                        self.view_mode = ViewMode::Viewer;
                        (true, Action::OpenViewer(row, col, path))
                    },
                    None => (false, Action::Stay),
                }
            },
            Command::PlayPause => (true, Action::PlayPause),
            Command::ToggleUi => (true, Action::ToggleUi),
            Command::ToggleFullscreen => (true, Action::ToggleFullscreen),
            Command::OpenDirectory => (true, Action::OpenDirectory),
            Command::ToggleRecursive => (true, Action::ToggleRecursive),
            Command::ToggleShuffle => (true, Action::ToggleShuffle),
            Command::ToggleFavorite => (true, Action::ToggleFavorite),
            Command::DeleteSelected => (true, Action::DeleteSelected),
            Command::GoToParent => (true, Action::GoToParent),
            Command::Move(d) => {
                if self.selection.move_selection(d) {
                    let (row, col) = self.selection.position();
                    (true, Action::SelectionChanged(row, col))
                } else {
                    (true, Action::Stay)
                }
            },
            Command::Step(d) => {
                if self.selection.move_selection(d) {
                    let (row, col) = self.selection.position();
                    match path_lookup(row, col) {
                        Some(path) => (true, Action::OpenViewer(row, col, path)),
                        None => (true, Action::Stay),
                    }
                } else {
                    (true, Action::Stay)
                }
            },
        }
    }
}

/// Whether a place is in a grid with the given row lengths.
pub open spec fn in_grid(row: u32, col: u32, row_count: u32, items: spec_fn(u32) -> u32) -> bool {
    row < row_count && col < items(row)
}

/// Where a move leads in a grid with the given row lengths.
pub open spec fn moved_in(
    row: u32,
    col: u32,
    row_count: u32,
    d: Direction,
    items: spec_fn(u32) -> u32,
) -> (u32, u32) {
    moved(
        row,
        col,
        row_count,
        d,
        match consulted_row(row, col, row_count, d) {
            Some(r) => items(r),
            None => 0,
        },
    )
}

/// In a grid without empty rows no move leads out of the grid.
pub proof fn moves_stay_in_grid(
    row: u32,
    col: u32,
    row_count: u32,
    d: Direction,
    items: spec_fn(u32) -> u32,
)
    requires
        in_grid(row, col, row_count, items),
        forall|r: u32| r < row_count ==> #[trigger] items(r) > 0,
    ensures
        ({
            let to = moved_in(row, col, row_count, d, items);
            in_grid(to.0, to.1, row_count, items)
        }),
{
}

/// In a grid without empty rows a step to the right that leads anywhere is
/// undone by a step to the left, and the other way round.
pub proof fn left_undoes_right(row: u32, col: u32, row_count: u32, items: spec_fn(u32) -> u32)
    requires
        in_grid(row, col, row_count, items),
        forall|r: u32| r < row_count ==> #[trigger] items(r) > 0,
    ensures
        ({
            let to = moved_in(row, col, row_count, Direction::Right, items);
            to != (row, col) ==> moved_in(to.0, to.1, row_count, Direction::Left, items) == (
                row,
                col,
            )
        }),
        ({
            let to = moved_in(row, col, row_count, Direction::Left, items);
            to != (row, col) ==> moved_in(to.0, to.1, row_count, Direction::Right, items) == (
                row,
                col,
            )
        }),
{
}

/// The number of items before a place.
pub open spec fn items_before(row: u32, items: spec_fn(u32) -> u32) -> nat
    decreases row,
{
    if row == 0 {
        0
    } else {
        items_before((row - 1) as u32, items) + items((row - 1) as u32) as nat
    }
}

/// Steps to the right go through every item of the grid in order: each leads to
/// the item that follows, and only the last item of the grid leads nowhere.
pub proof fn right_goes_to_next_item(row: u32, col: u32, row_count: u32, items: spec_fn(u32) -> u32)
    requires
        in_grid(row, col, row_count, items),
        forall|r: u32| r < row_count ==> #[trigger] items(r) > 0,
    ensures
        ({
            let to = moved_in(row, col, row_count, Direction::Right, items);
            if row == row_count - 1 && col == items(row) - 1 {
                to == (row, col)
            } else {
                items_before(to.0, items) + to.1 == items_before(row, items) + col + 1
            }
        }),
{
}

/// A move up or down leads to the row next to it, if there is one. It keeps the
/// column wherever that row is long enough, and otherwise ends on the last item of
/// that row.
pub proof fn up_and_down_keep_the_column(
    row: u32,
    col: u32,
    row_count: u32,
    items: spec_fn(u32) -> u32,
)
    requires
        in_grid(row, col, row_count, items),
        forall|r: u32| r < row_count ==> #[trigger] items(r) > 0,
    ensures
        ({
            let to = moved_in(row, col, row_count, Direction::Up, items);
            &&& to.0 == if row > 0 {
                row - 1
            } else {
                0
            }
            &&& col < items(to.0) ==> to.1 == col
            &&& col >= items(to.0) ==> to.1 == items(to.0) - 1
        }),
        ({
            let to = moved_in(row, col, row_count, Direction::Down, items);
            &&& to.0 == if row + 1 < row_count {
                row + 1
            } else {
                row as int
            }
            &&& col < items(to.0) ==> to.1 == col
            &&& col >= items(to.0) ==> to.1 == items(to.0) - 1
        }),
{
}

/// A step down to a row that is long enough is undone by a step up, and the other
/// way round; so it is throughout a grid of rows of equal length.
pub proof fn up_undoes_down(row: u32, col: u32, row_count: u32, items: spec_fn(u32) -> u32)
    requires
        in_grid(row, col, row_count, items),
    ensures
        row + 1 < row_count && col < items((row + 1) as u32) ==> ({
            let to = moved_in(row, col, row_count, Direction::Down, items);
            &&& to != (row, col)
            &&& moved_in(to.0, to.1, row_count, Direction::Up, items) == (row, col)
        }),
        row > 0 && col < items((row - 1) as u32) ==> ({
            let to = moved_in(row, col, row_count, Direction::Up, items);
            &&& to != (row, col)
            &&& moved_in(to.0, to.1, row_count, Direction::Down, items) == (row, col)
        }),
{
}

/// The letters `h`, `j`, `k` and `l` do what the arrow keys do; in the grid those
/// move the selection the way they point, and in the viewer only left and right
/// go on to another item.
pub proof fn letters_move_like_arrows(mode: ViewMode, on: Connected)
    ensures
        command_of(Key::Char('h'), mode, on) == command_of(Key::Left, mode, on),
        command_of(Key::Char('j'), mode, on) == command_of(Key::Down, mode, on),
        command_of(Key::Char('k'), mode, on) == command_of(Key::Up, mode, on),
        command_of(Key::Char('l'), mode, on) == command_of(Key::Right, mode, on),
        mode == ViewMode::Grid ==> {
            &&& command_of(Key::Left, mode, on) == Command::Move(Direction::Left)
            &&& command_of(Key::Down, mode, on) == Command::Move(Direction::Down)
            &&& command_of(Key::Up, mode, on) == Command::Move(Direction::Up)
            &&& command_of(Key::Right, mode, on) == Command::Move(Direction::Right)
        },
        mode == ViewMode::Viewer ==> {
            &&& command_of(Key::Left, mode, on) == Command::Step(Direction::Left)
            &&& command_of(Key::Right, mode, on) == Command::Step(Direction::Right)
            &&& command_of(Key::Up, mode, on) == Command::Ignore
            &&& command_of(Key::Down, mode, on) == Command::Ignore
        },
{
}

/// What each of the other keys is for: leaving the viewer and opening an item are
/// each for the place where they make sense, a request goes out only where it is
/// answered, and no key deletes, opens a directory or marks a favorite but those
/// that are for it.
pub proof fn requests_come_from_their_keys(key: Key, mode: ViewMode, on: Connected)
    ensures
        command_of(key, mode, on) == Command::CloseViewer <==> key == Key::Escape && mode
            == ViewMode::Viewer,
        command_of(key, mode, on) == Command::OpenSelected <==> (key == Key::Return || key
            == Key::KpEnter) && mode == ViewMode::Grid,
        command_of(key, mode, on) == Command::GoToParent <==> key == Key::BackSpace && mode
            == ViewMode::Grid && on.go_to_parent,
        command_of(key, mode, on) == Command::PlayPause <==> key == Key::Char(' ') && mode
            == ViewMode::Viewer,
        command_of(key, mode, on) == Command::ToggleUi <==> key == Key::Char(' ') && mode
            == ViewMode::Grid,
        command_of(key, mode, on) == Command::DeleteSelected <==> key == Key::Delete
            && on.delete_selected,
        command_of(key, mode, on) == Command::ToggleFavorite <==> (key == Key::KpAdd || key
            == Key::Char('+') || key == Key::Char('=')) && on.toggle_favorite,
        command_of(key, mode, on) == Command::ToggleFullscreen <==> key == Key::Char('f') || key
            == Key::Char('F'),
        command_of(key, mode, on) == Command::OpenDirectory <==> (key == Key::Char('o') || key
            == Key::Char('O')) && on.open_directory,
        command_of(key, mode, on) == Command::ToggleRecursive <==> (key == Key::Char('r') || key
            == Key::Char('R')) && on.toggle_recursive,
        command_of(key, mode, on) == Command::ToggleShuffle <==> (key == Key::Char('s') || key
            == Key::Char('S')) && on.toggle_shuffle,
{
}

/// A column is one of the row, the last where the row does not go so far.
pub proof fn column_is_one_of_the_row(col: u32, items: u32)
    ensures
        col < items ==> clamped_col(col, items) == col,
        0 < items <= col ==> clamped_col(col, items) == items - 1,
        items == 0 ==> clamped_col(col, items) == col,
{
}

/// A move leads to the neighbour: up and down to the row above and below, at the same column
/// as far as that row goes; left to the item before, which at the start of a row is the last
/// of the row above; right to the item behind, which at the end of a row is the first of the
/// row below. At the ends of the grid the selection stays.
pub proof fn move_leads_to_the_neighbour<F: Fn(u32) -> u32>(
    before: GridSelection<F>,
    after: GridSelection<F>,
    d: Direction,
)
    requires
        after.is_moved(before, d),
        before.row < before.row_count,
    ensures
        after.row_count == before.row_count,
        d == Direction::Up && before.row > 0 ==> {
            &&& after.row == before.row - 1
            &&& exists|n: u32|
                #[trigger] call_ensures(before.items_per_row, (after.row,), n) && after.col == (
                if n == 0 || before.col < n {
                    before.col as int
                } else {
                    n - 1
                })
        },
        d == Direction::Down && before.row + 1 < before.row_count ==> {
            &&& after.row == before.row + 1
            &&& exists|n: u32|
                #[trigger] call_ensures(before.items_per_row, (after.row,), n) && after.col == (
                if n == 0 || before.col < n {
                    before.col as int
                } else {
                    n - 1
                })
        },
        d == Direction::Left && before.col > 0 ==> after.row == before.row && after.col
            == before.col - 1,
        d == Direction::Left && before.col == 0 && before.row > 0 ==> {
            &&& after.row == before.row - 1
            &&& exists|n: u32|
                #[trigger] call_ensures(before.items_per_row, (after.row,), n) && after.col == (
                if n == 0 {
                    0
                } else {
                    n - 1
                })
        },
        d == Direction::Right ==> exists|n: u32|
            {
                &&& #[trigger] call_ensures(before.items_per_row, (before.row,), n)
                &&& before.col + 1 < n ==> after.row == before.row && after.col == before.col + 1
                &&& before.col + 1 >= n && before.row + 1 < before.row_count ==> after.row
                    == before.row + 1 && after.col == 0
                &&& before.col + 1 >= n && before.row + 1 == before.row_count ==> after.row
                    == before.row && after.col == before.col
            },
        d == Direction::Up && before.row == 0 ==> after.row == 0 && after.col == before.col,
        d == Direction::Down && before.row + 1 == before.row_count ==> after.row == before.row
            && after.col == before.col,
        d == Direction::Left && before.row == 0 && before.col == 0 ==> after.row == 0 && after.col
            == 0,
{
    let asked = consulted_row(before.row, before.col, before.row_count, d);
    let n = choose|n: u32|
        #[trigger] answers(before.items_per_row, asked, n) && (after.row, after.col) == moved(
            before.row,
            before.col,
            before.row_count,
            d,
            n,
        );
    assert(answers(before.items_per_row, asked, n));
    if let Some(row) = asked {
        assert(call_ensures(before.items_per_row, (row,), n));
    }
}

/// Each command that is an action is the action of its name, and no other.
pub proof fn commands_are_the_actions_they_name(command: Command)
    ensures
        plain_action(command) == Some(Action::PlayPause) <==> command == Command::PlayPause,
        plain_action(command) == Some(Action::ToggleUi) <==> command == Command::ToggleUi,
        plain_action(command) == Some(Action::ToggleFullscreen) <==> command == Command::ToggleFullscreen,
        plain_action(command) == Some(Action::OpenDirectory) <==> command == Command::OpenDirectory,
        plain_action(command) == Some(Action::ToggleRecursive) <==> command == Command::ToggleRecursive,
        plain_action(command) == Some(Action::ToggleShuffle) <==> command == Command::ToggleShuffle,
        plain_action(command) == Some(Action::ToggleFavorite) <==> command == Command::ToggleFavorite,
        plain_action(command) == Some(Action::DeleteSelected) <==> command == Command::DeleteSelected,
        plain_action(command) == Some(Action::GoToParent) <==> command == Command::GoToParent,
        plain_action(command) != Some(Action::Stay) && plain_action(command) != Some(
            Action::CloseViewer,
        ),
{
}

/// An item that is opened is that at the place, with its path.
pub proof fn item_is_opened_at_its_place(row: u32, col: u32, path: String, other: u32)
    requires
        row != col,
        other != row,
    ensures
        opens(Action::OpenViewer(row, col, path), row, col, path@),
        !opens(Action::OpenViewer(col, row, path), row, col, path@),
        !opens(Action::OpenViewer(other, col, path), row, col, path@),
{
}

} // verus!
