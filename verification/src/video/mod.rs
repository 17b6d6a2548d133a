//! Playing videos.
pub mod player;
