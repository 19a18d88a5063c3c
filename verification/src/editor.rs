//! Sessions and tabs: a document with its background jobs and its cursor.

pub mod session_core;
pub mod session_laws;
pub mod tab;
pub mod types;
