//! A hierarchical task tracker's core: rebuilding a task tree from flat
//! parent-pointer records, flattening it into display rows, and choosing the
//! box-drawing connectors that draw it as an outline.

pub mod task;
pub mod tree;
pub mod flatten;
pub mod connectors;
pub mod arguments;
pub mod sorting;
pub mod ui;
pub mod well_formed;
