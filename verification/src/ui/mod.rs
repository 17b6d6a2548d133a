//! What the user interface decides: keys, selection, the viewer, the rows of
//! the grid and the window around them.
pub mod anchor;
pub mod decode;
pub mod keybindings;
pub mod list_view;
pub mod place;
pub mod row_widget;
pub mod texture_cache;
pub mod viewer;
pub mod window;
pub mod zoom;
