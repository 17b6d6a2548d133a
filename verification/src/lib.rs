//! The logic of a keyboard-driven media browser: scanning and classifying
//! files, reading image and container headers, laying out a dense grid,
//! caching thumbnails and textures, and deciding what each key press, timer
//! or finished load does.
#![allow(unused_imports)]

pub mod bench;
pub mod bitmap;
pub mod decimals;
pub mod double;
pub mod hashing;
pub mod image_loader;
pub mod layout;
pub mod models;
pub mod paths;
pub mod precision;
pub mod scanner;
pub mod single;
pub mod sorting;
pub mod text;
pub mod texture_lru;
pub mod thumbnails;
pub mod ui;
pub mod video;
