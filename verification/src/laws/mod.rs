//! What the operations are for, said of their inputs and results.
pub mod call_sites;
pub mod callers;
pub mod captures;
pub mod content;
pub mod extraction;
pub mod exunit;
pub mod files;
pub mod grep;
pub mod identity;
pub mod indexing;
pub mod lists;
pub mod lookup;
pub mod queries;
pub mod results;
pub mod score;
pub mod symbols;
pub mod tests_of;
pub mod text;
pub mod tree;
pub mod variables;
pub mod watching;
