//! What the browser knows about files: media items, rows of tiles, and the
//! records of the media database.
pub mod media_item;
pub mod media_store;
pub mod row_model;
