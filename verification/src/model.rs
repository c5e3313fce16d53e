//! What each operation of the store makes of the tables.

use vstd::prelude::*;

use crate::clock::settled;
use crate::embed::blob_of;
use crate::mirror::reconciled;
use crate::rank::ranked;
use crate::rows::{any_where, first_where, kept};
use crate::sorting::LatestFirst;
use crate::sync::ThoughtChangeView;
use crate::tables::{
    embeddings_besides, updated, EmbeddingRowView, HistoryRowView, RowChangeView, TablesView,
    ThoughtRow, ThoughtRowView,
};
use crate::thought::ThoughtView;

verus! {

/// The row is no tombstone.
pub open spec fn live(row: ThoughtRowView) -> bool {
    row.deleted_at is None
}

/// The row of that thought, be it a tombstone.
pub open spec fn find_row(rows: Seq<ThoughtRowView>, id: Seq<u8>) -> Option<ThoughtRowView> {
    first_where(rows, |row: ThoughtRowView| row.id == id)
}

/// The row of that thought, unless it is deleted.
pub open spec fn find_live(rows: Seq<ThoughtRowView>, id: Seq<u8>) -> Option<ThoughtRowView> {
    first_where(rows, |row: ThoughtRowView| row.id == id && live(row))
}

/// The thought that a row shows at the time `now`.
pub open spec fn thought_of(row: ThoughtRowView, now: i64) -> ThoughtView {
    ThoughtView {
        id: row.id,
        text: row.text,
        created_at: row.created_at,
        updated_at: row.updated_at,
        is_settled: settled(row.updated_at, row.settled_at, now),
        is_actioned: row.actioned_at is Some,
    }
}

/// The row of a thought captured at the time `now`.
pub open spec fn new_row(id: Seq<u8>, text: Seq<char>, now: i64) -> ThoughtRowView {
    ThoughtRowView {
        id,
        text,
        created_at: now,
        updated_at: now,
        settled_at: None,
        deleted_at: None,
        actioned_at: None,
        dirty: true,
    }
}

/// The vectors with this one for the thought.
pub open spec fn with_vector(
    embeddings: Seq<EmbeddingRowView>,
    id: Seq<u8>,
    vector: Seq<u32>,
) -> Seq<EmbeddingRowView> {
    embeddings_besides(embeddings, id).push(
        EmbeddingRowView { thought_id: id, vector: blob_of(vector) },
    )
}

/// The vectors after the text of the thought has changed: the new one in place
/// of the old, or none.
pub open spec fn revectored(
    embeddings: Seq<EmbeddingRowView>,
    id: Seq<u8>,
    vector: Option<Seq<u32>>,
) -> Seq<EmbeddingRowView> {
    match vector {
        Some(v) => with_vector(embeddings, id, v),
        None => embeddings_besides(embeddings, id),
    }
}

/// The tables after a thought was captured.
pub open spec fn created(
    t: TablesView,
    id: Seq<u8>,
    text: Seq<char>,
    now: i64,
    vector: Option<Seq<u32>>,
) -> TablesView {
    let stored = TablesView {
        thoughts: t.thoughts.push(new_row(id, text, now)),
        embeddings: match vector {
            Some(v) => with_vector(t.embeddings, id, v),
            None => t.embeddings,
        },
        ..t
    };
    reconciled(stored, id, text)
}

/// The edit history after an edit of the thought in `row`: one entry more, with
/// the text as it was, if the thought was settled.
pub open spec fn archived(
    history: Seq<HistoryRowView>,
    row: ThoughtRowView,
    now: i64,
) -> Seq<HistoryRowView> {
    if settled(row.updated_at, row.settled_at, now) {
        history.push(HistoryRowView { thought_id: row.id, text: row.text, archived_at: now })
    } else {
        history
    }
}

/// The tables after the thought in `row` was edited.
pub open spec fn edited(
    t: TablesView,
    row: ThoughtRowView,
    text: Seq<char>,
    now: i64,
    vector: Option<Seq<u32>>,
) -> TablesView {
    let stored = TablesView {
        history: archived(t.history, row, now),
        thoughts: updated(t.thoughts, RowChangeView::Edit { id: row.id, text, at: now }),
        embeddings: revectored(t.embeddings, row.id, vector),
        ..t
    };
    reconciled(stored, row.id, text)
}

/// The tables after a thought was deleted.
pub open spec fn buried(t: TablesView, id: Seq<u8>, now: i64) -> TablesView {
    let stored = TablesView {
        thoughts: updated(t.thoughts, RowChangeView::Bury { id, at: now }),
        embeddings: embeddings_besides(t.embeddings, id),
        ..t
    };
    reconciled(stored, id, Seq::empty())
}

/// The tables after an update of the thought table.
pub open spec fn changed(t: TablesView, change: RowChangeView) -> TablesView {
    TablesView { thoughts: updated(t.thoughts, change), ..t }
}

/// The row that a change from another device makes.
pub open spec fn row_of(change: ThoughtChangeView) -> ThoughtRowView {
    ThoughtRowView {
        id: change.id,
        text: change.text,
        created_at: change.created_at,
        updated_at: change.updated_at,
        settled_at: change.settled_at,
        deleted_at: change.deleted_at,
        actioned_at: change.actioned_at,
        dirty: false,
    }
}

/// The change is later than what is stored of its thought: the last writer
/// wins.
pub open spec fn wins(t: TablesView, change: ThoughtChangeView) -> bool {
    match find_row(t.thoughts, change.id) {
        Some(local) => local.updated_at < change.updated_at,
        None => true,
    }
}

/// The text whose tags a change brings: none for a tombstone.
pub open spec fn tagged_text(change: ThoughtChangeView) -> Seq<char> {
    if change.deleted_at is Some {
        Seq::empty()
    } else {
        change.text
    }
}

/// The tables after a change that wins was applied.
pub open spec fn applied(
    t: TablesView,
    change: ThoughtChangeView,
    vector: Option<Seq<u32>>,
) -> TablesView {
    let stored = TablesView {
        thoughts: if find_row(t.thoughts, change.id) is Some {
            updated(t.thoughts, RowChangeView::Overwrite { row: row_of(change) })
        } else {
            t.thoughts.push(row_of(change))
        },
        embeddings: revectored(t.embeddings, change.id, vector),
        ..t
    };
    reconciled(stored, change.id, tagged_text(change))
}

/// The tables after the pushes of `pushed` were acknowledged, each given by its
/// thought and that thought's time of modification when it was pushed.
pub open spec fn acknowledged(t: TablesView, pushed: Seq<(Seq<u8>, i64)>) -> TablesView
    decreases pushed.len(),
{
    if pushed.len() == 0 {
        t
    } else {
        changed(
            acknowledged(t, pushed.drop_last()),
            RowChangeView::Acknowledge { id: pushed.last().0, updated_at: pushed.last().1 },
        )
    }
}

/// The thought has a stored vector.
pub open spec fn has_vector(t: TablesView, id: Seq<u8>) -> bool {
    any_where(t.embeddings, |e: EmbeddingRowView| e.thought_id == id)
}

/// The thoughts that have yet to be embedded, latest captured first.
pub open spec fn missing(t: TablesView) -> Seq<ThoughtRowView> {
    ranked::<ThoughtRow, LatestFirst>(
        kept(t.thoughts, |row: ThoughtRowView| live(row) && !has_vector(t, row.id)),
    )
}

/// The tables with these vectors for these thoughts.
pub open spec fn with_vectors(
    t: TablesView,
    rows: Seq<ThoughtRowView>,
    vectors: Seq<Seq<u32>>,
) -> TablesView
    decreases vectors.len(),
{
    if vectors.len() == 0 {
        t
    } else {
        let n = vectors.len() - 1;
        let before = with_vectors(t, rows, vectors.drop_last());
        TablesView { embeddings: with_vector(before.embeddings, rows[n].id, vectors[n]), ..before }
    }
}

/// The tables after the tags of the rows were set from their texts, one row
/// after the other.
pub open spec fn retagged(t: TablesView, rows: Seq<ThoughtRowView>) -> TablesView
    decreases rows.len(),
{
    if rows.len() == 0 {
        t
    } else {
        reconciled(retagged(t, rows.drop_last()), rows.last().id, rows.last().text)
    }
}

/// How many rows from `i` on have an identifier of sixteen bytes before one
/// that has not, counted from the first row.
pub open spec fn readable_until(rows: Seq<ThoughtRowView>, i: int) -> int
    decreases rows.len() - i,
{
    if 0 <= i < rows.len() && rows[i].id.len() == 16 {
        readable_until(rows, i + 1)
    } else {
        i
    }
}

} // verus!
