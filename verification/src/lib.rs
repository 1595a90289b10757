//! An index of the files and symbols of a project, for agents that read code.
pub mod config;
pub mod index;
pub mod laws;
pub mod maps;
pub mod ops;
pub mod pattern;
pub mod score;
pub mod sorting;
pub mod sources;
pub mod symbols;
pub mod text;
