//! A text-editing engine for very large files.

pub mod bytes;
pub mod document;
pub mod editlog;
pub mod editor;
pub mod index;
pub mod page_store;
pub mod piece_tree;
pub mod scan;
pub mod session_log;
pub mod sidecar;
pub mod source_identity;
pub mod tree_laws;
pub mod tree_model;
