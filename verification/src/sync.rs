//! What is exchanged between devices.
//!
//! Each client pushes its locally modified rows and pulls the server's changes
//! since a cursor; the later `updated_at` wins. Deletions travel as tombstones
//! (`deleted_at` is set).

use vstd::prelude::*;

use crate::ident::Uuid;

verus! {

/// A position in the change feed, which is ordered by `(updated_at, id)`: a
/// pull resumes after an exact row even when several share a millisecond.
#[derive(Debug, Clone, Copy, PartialEq, Eq)]
pub struct SyncCursor {
    pub updated_at: i64,
    pub id: Uuid,
}

/// The full state of one thought for sync, tombstones included: the persisted
/// columns themselves rather than what readers derive from them.
#[derive(Debug, Clone, PartialEq, Eq)]
pub struct ThoughtChange {
    pub id: Uuid,
    pub text: String,
    pub created_at: i64,
    pub updated_at: i64,
    pub settled_at: Option<i64>,
    pub deleted_at: Option<i64>,
    pub actioned_at: Option<i64>,
}

/// What a `ThoughtChange` holds.
#[verifier::ext_equal]
pub struct ThoughtChangeView {
    pub id: Seq<u8>,
    pub text: Seq<char>,
    pub created_at: i64,
    pub updated_at: i64,
    pub settled_at: Option<i64>,
    pub deleted_at: Option<i64>,
    pub actioned_at: Option<i64>,
}

impl View for ThoughtChange {
    type V = ThoughtChangeView;

    open spec fn view(&self) -> ThoughtChangeView {
        ThoughtChangeView {
            id: self.id@,
            text: self.text@,
            created_at: self.created_at,
            updated_at: self.updated_at,
            settled_at: self.settled_at,
            deleted_at: self.deleted_at,
            actioned_at: self.actioned_at,
        }
    }
}

impl SyncCursor {
    /// The cursor positioned just past `change`.
    pub fn after(change: &ThoughtChange) -> (cursor: SyncCursor)
        ensures
            cursor.updated_at == change.updated_at,
            cursor.id == change.id,
    {
        SyncCursor { updated_at: change.updated_at, id: change.id }
    }
}

} // verus!
