//! Home inventory engine: items nested in containers, references by name or
//! path, and the invariants that keep the container graph a forest.

pub mod error;
pub mod model;
pub mod text;
pub mod store;
pub mod load;
pub mod db;
pub mod guard;
pub mod commands;
pub mod tree;
pub mod laws;
