//! A small verified task-list store.
//!
//! The store holds an ordered sequence of tasks, each carrying a unique,
//! store-assigned identifier, together with a monotonic allocation counter.
//! Mutations append to or remove from the sequence; the whole state can be
//! rendered to, and recovered from, a canonical JSON text, with a fail-open
//! fallback to the empty store when the persisted text is missing or corrupt.

pub mod codec;
pub mod model;
pub mod reader;
pub mod state;
pub mod store;
pub mod writer;
