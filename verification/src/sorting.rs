//! The orders in which rows are listed.

use vstd::prelude::*;

use crate::order::{
    blob_before, blob_less, codes, folded, law_codes_injective, law_lex_asymmetric, law_lex_negatively_transitive,
    law_lex_total, lex_less, name_before,
};
use crate::rank::RowOrder;
use crate::tables::{
    HistoryRow, HistoryRowView, SavedRow, SavedRowView, ThoughtRow, ThoughtRowView,
};

verus! {

/// `(x, a)` comes before `(y, b)`: by the number, then by the blob.
pub open spec fn keyed_less(x: i64, a: Seq<u8>, y: i64, b: Seq<u8>) -> bool {
    x < y || (x == y && blob_less(a, b))
}

/// Whether `(x, a)` comes before `(y, b)`.
pub fn keyed_before(x: i64, a: &[u8], y: i64, b: &[u8]) -> (r: bool)
    ensures
        r == keyed_less(x, a@, y, b@),
{
    x < y || (x == y && blob_before(a, b))
}

/// The order of keys is a strict weak order.
pub proof fn law_keyed_order(x: i64, a: Seq<u8>, y: i64, b: Seq<u8>, z: i64, c: Seq<u8>)
    ensures
        !(keyed_less(x, a, y, b) && keyed_less(y, b, x, a)),
        keyed_less(x, a, z, c) ==> keyed_less(x, a, y, b) || keyed_less(y, b, z, c),
{
    law_lex_asymmetric(codes(a), codes(b));
    law_lex_negatively_transitive(codes(a), codes(b), codes(c));
}

/// Newest first: by time of capture, then by identifier, both descending.
pub struct NewestFirst;

impl RowOrder<ThoughtRow> for NewestFirst {
    open spec fn before(a: ThoughtRowView, b: ThoughtRowView) -> bool {
        keyed_less(b.created_at, b.id, a.created_at, a.id)
    }

    proof fn asymmetric(a: ThoughtRowView, b: ThoughtRowView) {
        law_keyed_order(b.created_at, b.id, a.created_at, a.id, a.created_at, a.id);
    }

    proof fn negatively_transitive(a: ThoughtRowView, b: ThoughtRowView, c: ThoughtRowView) {
        law_keyed_order(c.created_at, c.id, b.created_at, b.id, a.created_at, a.id);
    }

    fn is_before(a: &ThoughtRow, b: &ThoughtRow) -> (r: bool) {
        keyed_before(b.created_at, b.id.as_slice(), a.created_at, a.id.as_slice())
    }
}

/// Latest captured first, by time alone.
pub struct LatestFirst;

impl RowOrder<ThoughtRow> for LatestFirst {
    open spec fn before(a: ThoughtRowView, b: ThoughtRowView) -> bool {
        b.created_at < a.created_at
    }

    proof fn asymmetric(a: ThoughtRowView, b: ThoughtRowView) {
    }

    proof fn negatively_transitive(a: ThoughtRowView, b: ThoughtRowView, c: ThoughtRowView) {
    }

    fn is_before(a: &ThoughtRow, b: &ThoughtRow) -> (r: bool) {
        b.created_at < a.created_at
    }
}

/// Oldest change first: by time of modification, then by identifier.
pub struct OldestChangeFirst;

impl RowOrder<ThoughtRow> for OldestChangeFirst {
    open spec fn before(a: ThoughtRowView, b: ThoughtRowView) -> bool {
        keyed_less(a.updated_at, a.id, b.updated_at, b.id)
    }

    proof fn asymmetric(a: ThoughtRowView, b: ThoughtRowView) {
        law_keyed_order(a.updated_at, a.id, b.updated_at, b.id, b.updated_at, b.id);
    }

    proof fn negatively_transitive(a: ThoughtRowView, b: ThoughtRowView, c: ThoughtRowView) {
        law_keyed_order(a.updated_at, a.id, b.updated_at, b.id, c.updated_at, c.id);
    }

    fn is_before(a: &ThoughtRow, b: &ThoughtRow) -> (r: bool) {
        keyed_before(a.updated_at, a.id.as_slice(), b.updated_at, b.id.as_slice())
    }
}

/// Oldest entry of the edit history first. Those of one time stand as they were
/// archived.
pub struct OldestEntryFirst;

impl RowOrder<HistoryRow> for OldestEntryFirst {
    open spec fn before(a: HistoryRowView, b: HistoryRowView) -> bool {
        a.archived_at < b.archived_at
    }

    proof fn asymmetric(a: HistoryRowView, b: HistoryRowView) {
    }

    proof fn negatively_transitive(a: HistoryRowView, b: HistoryRowView, c: HistoryRowView) {
    }

    fn is_before(a: &HistoryRow, b: &HistoryRow) -> (r: bool) {
        a.archived_at < b.archived_at
    }
}

/// Oldest saved search first: by time, then by identifier.
pub struct OldestSavedFirst;

impl RowOrder<SavedRow> for OldestSavedFirst {
    open spec fn before(a: SavedRowView, b: SavedRowView) -> bool {
        keyed_less(a.created_at, a.id, b.created_at, b.id)
    }

    proof fn asymmetric(a: SavedRowView, b: SavedRowView) {
        law_keyed_order(a.created_at, a.id, b.created_at, b.id, b.created_at, b.id);
    }

    proof fn negatively_transitive(a: SavedRowView, b: SavedRowView, c: SavedRowView) {
        law_keyed_order(a.created_at, a.id, b.created_at, b.id, c.created_at, c.id);
    }

    fn is_before(a: &SavedRow, b: &SavedRow) -> (r: bool) {
        keyed_before(a.created_at, a.id.as_slice(), b.created_at, b.id.as_slice())
    }
}

/// How often a tag is used.
pub struct TagUse {
    pub name: String,
    pub uses: usize,
}

/// What a `TagUse` holds.
#[verifier::ext_equal]
pub struct TagUseView {
    pub name: Seq<char>,
    pub uses: nat,
}

impl View for TagUse {
    type V = TagUseView;

    open spec fn view(&self) -> TagUseView {
        TagUseView { name: self.name@, uses: self.uses as nat }
    }
}

/// Most used tag first, then by name without regard to ASCII case.
pub struct MostUsedFirst;

impl RowOrder<TagUse> for MostUsedFirst {
    open spec fn before(a: TagUseView, b: TagUseView) -> bool {
        b.uses < a.uses || (a.uses == b.uses && lex_less(folded(a.name), folded(b.name)))
    }

    proof fn asymmetric(a: TagUseView, b: TagUseView) {
        law_lex_asymmetric(folded(a.name), folded(b.name));
    }

    proof fn negatively_transitive(a: TagUseView, b: TagUseView, c: TagUseView) {
        law_lex_negatively_transitive(folded(a.name), folded(b.name), folded(c.name));
    }

    fn is_before(a: &TagUse, b: &TagUse) -> (r: bool) {
        b.uses < a.uses || (a.uses == b.uses && name_before(a.name.as_str(), b.name.as_str()))
    }
}

/// Of two keys that differ, one comes before the other.
pub proof fn law_keyed_total(x: i64, a: Seq<u8>, y: i64, b: Seq<u8>)
    ensures
        (x == y && a == b) || keyed_less(x, a, y, b) || keyed_less(y, b, x, a),
        !keyed_less(x, a, x, a),
{
    law_lex_total(codes(a), codes(b));
    law_lex_asymmetric(codes(a), codes(a));
    if codes(a) == codes(b) {
        law_codes_injective(a, b);
    }
}

} // verus!
