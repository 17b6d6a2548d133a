//! The thumbnail pipeline: sizing and encoding, the memory and disk cache, and
//! the queue of requests.
pub mod cache;
pub mod generator;
pub mod queue;
