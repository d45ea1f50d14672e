//! A generation-checked slot arena and a node graph built on it.
pub mod class;
pub mod handle_map;
pub mod node;
pub mod universe;
mod unique;
