//! Laying items out in rows, and remembering the result.
pub mod justified;
pub mod layout_cache;
