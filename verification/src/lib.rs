//! Core data engine for a note-taking application: notes, tags, and the
//! many-to-many links between them, with lazy tag creation, tag garbage
//! collection, and multi-tag intersection search.

pub mod models;
pub mod order;
pub mod store;
pub mod laws;
pub mod text;
