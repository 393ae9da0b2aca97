//! The core of a workspace browser: a file tree with tri-state selection,
//! seeded from ignore rules, and the text that is made of the chosen files.
pub mod cache;
pub mod file_list;
pub mod file_tree;
pub mod fs_utils;
pub mod gitignore_handler;
pub mod paths;
pub mod selection;
pub mod session;
pub mod settings;
pub mod text;
pub mod tokenizer;
pub mod tree_laws;
pub mod workspace_event_handler;
