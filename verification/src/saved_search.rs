//! Pinned queries.

use vstd::prelude::*;

use crate::ident::Uuid;

verus! {

/// A named, re-runnable query that the user has pinned. `query` is what the
/// user typed, verbatim. Saved searches stay on the device they were made on.
#[derive(Debug, Clone, PartialEq, Eq)]
pub struct SavedSearch {
    pub id: Uuid,
    pub name: String,
    pub query: String,
    /// Milliseconds since 1970-01-01 UTC at which the search was saved.
    pub created_at: i64,
}

/// What a `SavedSearch` holds.
#[verifier::ext_equal]
pub struct SavedSearchView {
    pub id: Seq<u8>,
    pub name: Seq<char>,
    pub query: Seq<char>,
    pub created_at: i64,
}

impl View for SavedSearch {
    type V = SavedSearchView;

    open spec fn view(&self) -> SavedSearchView {
        SavedSearchView {
            id: self.id@,
            name: self.name@,
            query: self.query@,
            created_at: self.created_at,
        }
    }
}

} // verus!
