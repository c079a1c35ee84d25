//! A fixed-capacity key-value cache that evicts its least-recently-used entry.
pub mod model;
pub mod lru;
pub mod laws;
