//! An in-memory task store with smallest-free-integer identifiers.

pub mod task;
pub mod model;
pub mod store;
pub mod laws;
pub mod status;
