//! A task list organised as a tree: records that point at their parent are
//! assembled into a forest, flattened into a depth-annotated pre-order
//! sequence, and navigated by task id.
pub mod task;
pub mod hierarchy;
pub mod navigation;
pub mod laws;
pub mod mutation;
pub mod todolist;
pub mod session;
pub mod ui;
