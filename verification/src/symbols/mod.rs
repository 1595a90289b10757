//! Symbols and the table that holds those of a project.
pub mod identity;
pub mod parser;
pub mod queries;
pub mod symbol;
pub mod syntax;
pub mod table;

pub use table::SymbolTable;
