//! The entity model: notes, tags, and the request / response shapes of the
//! caller-facing operations.

use vstd::prelude::*;

verus! {

/// A stored note row.
#[derive(Debug, Clone)]
pub struct Note {
    pub id: i64,
    pub content: String,
    pub created_at: Option<String>,
    pub updated_at: Option<String>,
}

/// A tag row: a named label, unique by name.
#[derive(Debug, Clone)]
pub struct Tag {
    pub id: i64,
    pub name: String,
}

/// A note together with the names of the tags currently linked to it,
/// in alphabetical order.
#[derive(Debug, Clone)]
pub struct NoteWithTags {
    pub id: i64,
    pub content: String,
    pub created_at: Option<String>,
    pub updated_at: Option<String>,
    pub tags: Vec<String>,
}

/// Input of `create_note`.
#[derive(Debug, Clone)]
pub struct CreateNoteRequest {
    pub content: String,
    pub tags: Vec<String>,
}

/// Input of `update_note`.
#[derive(Debug, Clone)]
pub struct UpdateNoteRequest {
    pub id: i64,
    pub content: String,
    pub tags: Vec<String>,
}

/// Errors surfaced by the engine. Absent rows are not errors: reads return
/// `Option`, deletions of absent rows are no-ops.
#[derive(Debug, Clone, Copy, PartialEq, Eq, Structural)]
pub enum StoreError {
    /// A unique constraint would be broken: renaming a tag to a name that a
    /// different tag already carries.
    DuplicateTagName,
}

/// The character sequence behind an optional string.
pub open spec fn opt_view(o: Option<String>) -> Option<Seq<char>> {
    match o {
        Some(s) => Some(s@),
        None => None,
    }
}

} // verus!
