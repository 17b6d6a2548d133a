//! Finding media files and reading what the grid needs to know of them.
pub mod metadata;
pub mod file_scanner;
