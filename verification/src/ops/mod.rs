//! What agents ask of a project.
pub mod content;
pub mod ranges;
pub mod symbol_ops;
