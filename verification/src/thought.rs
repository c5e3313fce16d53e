//! Thoughts as their readers see them.

use vstd::prelude::*;

use crate::ident::Uuid;

verus! {

/// A single thought captured by the user.
///
/// Thoughts are immutable in identity (`id`, `created_at`) but their `text`
/// can be edited. While a thought is "live" -- recently captured or recently
/// touched -- edits silently overwrite. Once it settles (after
/// `SETTLE_WINDOW_MS` of inactivity, or when the app forces it), an edit first
/// archives the previous text into the edit history.
#[derive(Debug, Clone, PartialEq, Eq)]
pub struct Thought {
    pub id: Uuid,
    pub text: String,
    /// Milliseconds since 1970-01-01 UTC at which the thought was captured.
    pub created_at: i64,
    /// Milliseconds since 1970-01-01 UTC at which it was last modified.
    pub updated_at: i64,
    /// Whether an edit made now would archive the text.
    pub is_settled: bool,
    /// Whether the thought has been marked as dealt with.
    pub is_actioned: bool,
}

/// What a `Thought` holds.
#[verifier::ext_equal]
pub struct ThoughtView {
    pub id: Seq<u8>,
    pub text: Seq<char>,
    pub created_at: i64,
    pub updated_at: i64,
    pub is_settled: bool,
    pub is_actioned: bool,
}

impl View for Thought {
    type V = ThoughtView;

    open spec fn view(&self) -> ThoughtView {
        ThoughtView {
            id: self.id@,
            text: self.text@,
            created_at: self.created_at,
            updated_at: self.updated_at,
            is_settled: self.is_settled,
            is_actioned: self.is_actioned,
        }
    }
}

impl Thought {
    /// The same thought once more.
    pub fn duplicate(&self) -> (out: Thought)
        ensures
            out@ == self@,
            out.id == self.id,
    {
        Thought {
            id: self.id,
            text: self.text.clone(),
            created_at: self.created_at,
            updated_at: self.updated_at,
            is_settled: self.is_settled,
            is_actioned: self.is_actioned,
        }
    }
}

/// An earlier version of a thought, kept when a settled thought was edited.
#[derive(Debug, Clone, PartialEq, Eq)]
pub struct EditEntry {
    /// What the thought said before the edit.
    pub text: String,
    /// Milliseconds since 1970-01-01 UTC at which the edit landed.
    pub archived_at: i64,
}

/// What an `EditEntry` holds.
#[verifier::ext_equal]
pub struct EditEntryView {
    pub text: Seq<char>,
    pub archived_at: i64,
}

impl View for EditEntry {
    type V = EditEntryView;

    open spec fn view(&self) -> EditEntryView {
        EditEntryView { text: self.text@, archived_at: self.archived_at }
    }
}

} // verus!
