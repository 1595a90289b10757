//! The index of a project's files.
pub mod call_site_cache;
pub mod consistency;
pub mod file_entry;
pub mod file_tree;
pub mod tree_view;
pub mod watch_filter;
pub mod watcher;
