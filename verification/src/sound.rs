//! What holds of the tables at all times.
//!
//! It holds of an empty store, and every operation keeps it.

use vstd::prelude::*;

use crate::backfill::with_columns;
use crate::mirror::{
    law_reconciled, lemma_mirrors_besides, mirrors, reconciled, tags_consistent, tags_in_use,
};
use crate::model::{
    acknowledged, applied, archived, buried, changed, created, edited, find_live, find_row, live,
    new_row, retagged, revectored, row_of, tagged_text, with_vector, with_vectors,
};
use crate::rows::{
    kept, law_first_where, law_kept_all, law_kept_contains, law_kept_pairwise, pairwise,
};
use crate::store::is_saved;
use crate::sync::ThoughtChangeView;
use crate::tables::{
    embeddings_besides, linked, links_besides, no_rows, saved_besides, updated, EmbeddingRowView, HistoryRowView,
    LinkRowView, RowChangeView, SavedRowView, TablesView, ThoughtRowView,
};
use crate::tags::tag_list;

verus! {

/// The tags that a thought should carry: those in its text, and none where it is
/// deleted or not there.
pub open spec fn tags_of(rows: Seq<ThoughtRowView>, id: Seq<u8>) -> Seq<Seq<char>> {
    match find_live(rows, id) {
        Some(row) => tag_list(row.text),
        None => Seq::empty(),
    }
}

/// The thought carries the tags in its text and no others.
pub open spec fn mirrored(t: TablesView, id: Seq<u8>) -> bool {
    mirrors(t.links, id, tags_of(t.thoughts, id))
}

/// No two rows are of the same thought.
pub open spec fn ids_distinct(rows: Seq<ThoughtRowView>) -> bool {
    pairwise(rows, |a: ThoughtRowView, b: ThoughtRowView| a.id != b.id)
}

/// Every thought has an identifier of its own, of sixteen bytes.
pub open spec fn thoughts_distinct(rows: Seq<ThoughtRowView>) -> bool {
    &&& ids_distinct(rows)
    &&& forall|i: int| 0 <= i < rows.len() ==> (#[trigger] rows[i]).id.len() == 16
}

/// Every entry of the edit history is of a thought that is there.
pub open spec fn history_owned(rows: Seq<ThoughtRowView>, history: Seq<HistoryRowView>) -> bool {
    forall|i: int|
        0 <= i < history.len() ==> find_row(rows, (#[trigger] history[i]).thought_id) is Some
}

/// Every vector is of a live thought, and none has two.
pub open spec fn vectors_owned(
    rows: Seq<ThoughtRowView>,
    embeddings: Seq<EmbeddingRowView>,
) -> bool {
    &&& pairwise(
        embeddings,
        |a: EmbeddingRowView, b: EmbeddingRowView| a.thought_id != b.thought_id,
    )
    &&& forall|i: int|
        0 <= i < embeddings.len() ==> find_live(
            rows,
            (#[trigger] embeddings[i]).thought_id,
        ) is Some
}

/// The tables are as they should be: thoughts and saved searches are distinct;
/// history and vectors belong to thoughts; the tag tables are consistent, hold
/// no tag that is not in use, and mirror the tags in the texts of the live
/// thoughts.
pub open spec fn sound(t: TablesView) -> bool {
    &&& thoughts_distinct(t.thoughts)
    &&& history_owned(t.thoughts, t.history)
    &&& vectors_owned(t.thoughts, t.embeddings)
    &&& tags_consistent(t)
    &&& tags_in_use(t)
    &&& forall|id: Seq<u8>| #[trigger] mirrored(t, id)
    &&& pairwise(t.saved, |a: SavedRowView, b: SavedRowView| a.id != b.id)
}

/// An empty store is sound.
pub proof fn law_empty_sound()
    ensures
        sound(no_rows()),
{
}

// ---- finding rows ----------------------------------------------------------

/// A thought is found by its identifier.
pub proof fn law_found(rows: Seq<ThoughtRowView>, i: int)
    requires
        thoughts_distinct(rows),
        0 <= i < rows.len(),
    ensures
        find_row(rows, rows[i].id) == Some(rows[i]),
        find_live(rows, rows[i].id) == (if live(rows[i]) {
            Some(rows[i])
        } else {
            None
        }),
{
    let id = rows[i].id;
    let p = |row: ThoughtRowView| row.id == id;
    let q = |row: ThoughtRowView| row.id == id && live(row);
    let r = |a: ThoughtRowView, b: ThoughtRowView| a.id != b.id;
    law_first_where(rows, p);
    law_first_where(rows, q);
    assert(p(rows[i]));
    assert forall|k: int| 0 <= k < rows.len() && (#[trigger] rows[k]).id == id implies k == i by {
        if k < i {
            assert(r(rows[k], rows[i]));
        } else if i < k {
            assert(r(rows[i], rows[k]));
        }
    }
    let found = find_row(rows, id).unwrap();
    let k = choose|k: int| 0 <= k < rows.len() && rows[k] == found;
    assert(rows[k].id == id);
    match find_live(rows, id) {
        Some(row) => {
            let m = choose|m: int| 0 <= m < rows.len() && rows[m] == row;
            assert(rows[m].id == id);
        },
        None => {
            assert(!q(rows[i]));
        },
    }
}

/// What is found stands in the table.
proof fn lemma_found_at(rows: Seq<ThoughtRowView>, id: Seq<u8>) -> (i: int)
    requires
        find_row(rows, id) is Some,
    ensures
        0 <= i < rows.len(),
        rows[i].id == id,
        find_row(rows, id) == Some(rows[i]),
{
    law_first_where(rows, |row: ThoughtRowView| row.id == id);
    choose|i: int| 0 <= i < rows.len() && rows[i] == find_row(rows, id).unwrap()
}

proof fn lemma_live_at(rows: Seq<ThoughtRowView>, id: Seq<u8>) -> (i: int)
    requires
        find_live(rows, id) is Some,
    ensures
        0 <= i < rows.len(),
        rows[i].id == id,
        live(rows[i]),
        find_live(rows, id) == Some(rows[i]),
{
    law_first_where(rows, |row: ThoughtRowView| row.id == id && live(row));
    choose|i: int| 0 <= i < rows.len() && rows[i] == find_live(rows, id).unwrap()
}

proof fn lemma_not_found(rows: Seq<ThoughtRowView>, id: Seq<u8>)
    requires
        forall|i: int| 0 <= i < rows.len() ==> (#[trigger] rows[i]).id != id,
    ensures
        find_row(rows, id) is None,
        find_live(rows, id) is None,
{
    if find_row(rows, id) is Some {
        lemma_found_at(rows, id);
    }
    if find_live(rows, id) is Some {
        lemma_live_at(rows, id);
    }
}

/// No row has an identifier that is not found.
proof fn lemma_absent(rows: Seq<ThoughtRowView>, id: Seq<u8>)
    requires
        find_row(rows, id) is None,
    ensures
        forall|i: int| 0 <= i < rows.len() ==> (#[trigger] rows[i]).id != id,
        find_live(rows, id) is None,
{
    let p = |row: ThoughtRowView| row.id == id;
    law_first_where(rows, p);
    assert forall|i: int| 0 <= i < rows.len() implies (#[trigger] rows[i]).id != id by {
        assert(!p(rows[i]));
    }
    lemma_not_found(rows, id);
}

/// The two tables hold rows of the same thoughts at the same places.
spec fn same_ids(a: Seq<ThoughtRowView>, b: Seq<ThoughtRowView>) -> bool {
    &&& a.len() == b.len()
    &&& forall|i: int| 0 <= i < a.len() ==> (#[trigger] b[i]).id == a[i].id
}

proof fn lemma_same_ids(a: Seq<ThoughtRowView>, b: Seq<ThoughtRowView>)
    requires
        thoughts_distinct(a),
        same_ids(a, b),
    ensures
        thoughts_distinct(b),
        forall|id: Seq<u8>| (#[trigger] find_row(b, id) is Some) == (find_row(a, id) is Some),
{
    let r = |x: ThoughtRowView, y: ThoughtRowView| x.id != y.id;
    assert forall|i: int, j: int| 0 <= i < j < b.len() implies r(
        #[trigger] b[i],
        #[trigger] b[j],
    ) by {
        assert(r(a[i], a[j]));
    }
    assert forall|i: int| 0 <= i < b.len() implies (#[trigger] b[i]).id.len() == 16 by {
        assert(a[i].id.len() == 16);
    }
    assert forall|id: Seq<u8>| (#[trigger] find_row(b, id) is Some) == (find_row(a, id) is Some) by {
        if find_row(a, id) is Some {
            let i = lemma_found_at(a, id);
            assert(b[i].id == id);
            law_found(b, i);
        }
        if find_row(b, id) is Some {
            let i = lemma_found_at(b, id);
            assert(a[i].id == id);
            law_found(a, i);
        }
    }
}

proof fn lemma_updated_ids(rows: Seq<ThoughtRowView>, change: RowChangeView)
    requires
        thoughts_distinct(rows),
    ensures
        same_ids(rows, updated(rows, change)),
{
    assert forall|i: int| 0 <= i < rows.len() implies (#[trigger] updated(rows, change)[i]).id
        == rows[i].id by {
    }
}

/// An update of the rows of one thought leaves the others as they are.
proof fn lemma_others_kept(rows: Seq<ThoughtRowView>, change: RowChangeView, id: Seq<u8>)
    requires
        thoughts_distinct(rows),
        forall|row: ThoughtRowView| #[trigger] change.hits(row) ==> row.id == id,
    ensures
        forall|other: Seq<u8>|
            other != id ==> #[trigger] find_live(updated(rows, change), other) == find_live(
                rows,
                other,
            ),
{
    let after = updated(rows, change);
    lemma_updated_ids(rows, change);
    lemma_same_ids(rows, after);
    assert forall|other: Seq<u8>| other != id implies #[trigger] find_live(after, other)
        == find_live(rows, other) by {
        if find_row(rows, other) is Some {
            let i = lemma_found_at(rows, other);
            law_found(rows, i);
            assert(after[i].id == other);
            law_found(after, i);
        } else {
            assert(find_row(after, other) is None);
            lemma_absent(rows, other);
            lemma_absent(after, other);
        }
    }
}

// ---- keeping it ------------------------------------------------------------

proof fn lemma_no_tags()
    ensures
        tag_list(Seq::empty()) == Seq::<Seq<char>>::empty(),
{
}

/// Tables that are sound but for the tags of one thought are sound once those
/// are reconciled.
proof fn lemma_reconciled_sound(t: TablesView, u: TablesView, id: Seq<u8>, text: Seq<char>)
    requires
        sound(t),
        u.tags == t.tags,
        u.links == t.links,
        u.saved == t.saved,
        thoughts_distinct(u.thoughts),
        history_owned(u.thoughts, u.history),
        vectors_owned(u.thoughts, u.embeddings),
        forall|other: Seq<u8>|
            other != id ==> #[trigger] tags_of(u.thoughts, other) == tags_of(t.thoughts, other),
        tags_of(u.thoughts, id) == tag_list(text),
    ensures
        sound(reconciled(u, id, text)),
{
    let after = reconciled(u, id, text);
    assert(tags_consistent(u));
    law_reconciled(u, id, text);
    assert forall|other: Seq<u8>| #[trigger] mirrored(after, other) by {
        if other != id {
            assert(mirrored(t, other));
            assert(tags_of(u.thoughts, other) == tags_of(t.thoughts, other));
            lemma_mirrors_besides(
                u.links,
                after.links,
                id,
                other,
                tags_of(t.thoughts, other),
            );
        }
    }
}

/// Dropping the vector of a thought that may no longer have one.
proof fn lemma_vectors_besides(
    rows: Seq<ThoughtRowView>,
    after: Seq<ThoughtRowView>,
    embeddings: Seq<EmbeddingRowView>,
    id: Seq<u8>,
)
    requires
        vectors_owned(rows, embeddings),
        forall|other: Seq<u8>|
            other != id && find_live(rows, other) is Some ==> #[trigger] find_live(
                after,
                other,
            ) is Some,
    ensures
        vectors_owned(after, embeddings_besides(embeddings, id)),
        forall|i: int|
            0 <= i < embeddings_besides(embeddings, id).len() ==> (#[trigger] embeddings_besides(
                embeddings,
                id,
            )[i]).thought_id != id,
{
    let p = |e: EmbeddingRowView| e.thought_id != id;
    let r = |a: EmbeddingRowView, b: EmbeddingRowView| a.thought_id != b.thought_id;
    law_kept_all(embeddings, p);
    law_kept_pairwise(embeddings, p, r);
    let rest = embeddings_besides(embeddings, id);
    assert forall|i: int| 0 <= i < rest.len() implies find_live(
        after,
        (#[trigger] rest[i]).thought_id,
    ) is Some by {
        let k = choose|k: int| 0 <= k < embeddings.len() && embeddings[k] == rest[i];
        assert(find_live(rows, embeddings[k].thought_id) is Some);
    }
}

proof fn lemma_vectors_put(
    rows: Seq<ThoughtRowView>,
    after: Seq<ThoughtRowView>,
    embeddings: Seq<EmbeddingRowView>,
    id: Seq<u8>,
    vector: Option<Seq<u32>>,
)
    requires
        vectors_owned(rows, embeddings),
        forall|other: Seq<u8>|
            other != id && find_live(rows, other) is Some ==> #[trigger] find_live(
                after,
                other,
            ) is Some,
        vector is Some ==> find_live(after, id) is Some,
    ensures
        vectors_owned(after, revectored(embeddings, id, vector)),
{
    lemma_vectors_besides(rows, after, embeddings, id);
    let rest = embeddings_besides(embeddings, id);
    let r = |a: EmbeddingRowView, b: EmbeddingRowView| a.thought_id != b.thought_id;
    match vector {
        Some(v) => {
            let all = with_vector(embeddings, id, v);
            assert forall|i: int, j: int| 0 <= i < j < all.len() implies r(
                #[trigger] all[i],
                #[trigger] all[j],
            ) by {
                if j < rest.len() {
                    assert(r(rest[i], rest[j]));
                } else {
                    assert(rest[i].thought_id != id);
                }
            }
            assert forall|i: int| 0 <= i < all.len() implies find_live(
                after,
                (#[trigger] all[i]).thought_id,
            ) is Some by {
                if i < rest.len() {
                    assert(find_live(after, rest[i].thought_id) is Some);
                }
            }
        },
        None => {},
    }
}

/// Capturing a thought under a fresh identifier keeps the tables sound.
pub proof fn law_created_sound(
    t: TablesView,
    id: Seq<u8>,
    text: Seq<char>,
    now: i64,
    vector: Option<Seq<u32>>,
)
    requires
        sound(t),
        id.len() == 16,
        find_row(t.thoughts, id) is None,
    ensures
        sound(created(t, id, text, now, vector)),
{
    let row = new_row(id, text, now);
    lemma_pushed(t.thoughts, row);
    let u = TablesView {
        thoughts: t.thoughts.push(row),
        embeddings: match vector {
            Some(v) => with_vector(t.embeddings, id, v),
            None => t.embeddings,
        },
        ..t
    };
    lemma_history_kept(t, u.thoughts);
    match vector {
        Some(v) => {
            lemma_vectors_put(t.thoughts, u.thoughts, t.embeddings, id, vector);
        },
        None => {
            lemma_absent(t.thoughts, id);
            assert forall|i: int| 0 <= i < u.embeddings.len() implies find_live(
                u.thoughts,
                (#[trigger] u.embeddings[i]).thought_id,
            ) is Some by {
                assert(find_live(t.thoughts, t.embeddings[i].thought_id) is Some);
            }
        },
    }
    lemma_reconciled_sound(t, u, id, text);
}

proof fn lemma_pushed(rows: Seq<ThoughtRowView>, row: ThoughtRowView)
    requires
        thoughts_distinct(rows),
        row.id.len() == 16,
        find_row(rows, row.id) is None,
    ensures
        thoughts_distinct(rows.push(row)),
        find_row(rows.push(row), row.id) == Some(row),
        find_live(rows.push(row), row.id) == (if live(row) {
            Some(row)
        } else {
            None
        }),
        forall|other: Seq<u8>|
            other != row.id ==> #[trigger] find_live(rows.push(row), other) == find_live(
                rows,
                other,
            ),
        forall|other: Seq<u8>|
            other != row.id ==> #[trigger] find_row(rows.push(row), other) == find_row(rows, other),
{
    let after = rows.push(row);
    lemma_absent(rows, row.id);
    let r = |a: ThoughtRowView, b: ThoughtRowView| a.id != b.id;
    assert forall|i: int, j: int| 0 <= i < j < after.len() implies r(
        #[trigger] after[i],
        #[trigger] after[j],
    ) by {
        if j < rows.len() {
            assert(r(rows[i], rows[j]));
        } else {
            assert(rows[i].id != row.id);
        }
    }
    assert forall|i: int| 0 <= i < after.len() implies (#[trigger] after[i]).id.len() == 16 by {
        if i < rows.len() {
            assert(rows[i].id.len() == 16);
        }
    }
    law_found(after, rows.len() as int);
    assert(after.drop_last() =~= rows);
}

proof fn lemma_history_kept(t: TablesView, after: Seq<ThoughtRowView>)
    requires
        history_owned(t.thoughts, t.history),
        forall|id: Seq<u8>|
            find_row(t.thoughts, id) is Some ==> #[trigger] find_row(after, id) is Some,
    ensures
        history_owned(after, t.history),
{
    assert forall|i: int| 0 <= i < t.history.len() implies find_row(
        after,
        (#[trigger] t.history[i]).thought_id,
    ) is Some by {
        assert(find_row(t.thoughts, t.history[i].thought_id) is Some);
    }
}

/// Editing a thought keeps the tables sound.
pub proof fn law_edited_sound(
    t: TablesView,
    row: ThoughtRowView,
    text: Seq<char>,
    now: i64,
    vector: Option<Seq<u32>>,
)
    requires
        sound(t),
        find_live(t.thoughts, row.id) == Some(row),
    ensures
        sound(edited(t, row, text, now, vector)),
{
    let id = row.id;
    let change = RowChangeView::Edit { id, text, at: now };
    let after = updated(t.thoughts, change);
    lemma_updated_ids(t.thoughts, change);
    lemma_same_ids(t.thoughts, after);
    lemma_others_kept(t.thoughts, change, id);
    let i = lemma_live_at(t.thoughts, id);
    law_found(after, i);
    assert(after[i] == change.makes(row));
    law_found(t.thoughts, i);
    let u = TablesView {
        history: archived(t.history, row, now),
        thoughts: after,
        embeddings: revectored(t.embeddings, id, vector),
        ..t
    };
    lemma_history_kept(t, after);
    assert forall|k: int| 0 <= k < u.history.len() implies find_row(
        after,
        (#[trigger] u.history[k]).thought_id,
    ) is Some by {
        if k < t.history.len() {
            assert(find_row(after, t.history[k].thought_id) is Some);
        } else {
            assert(find_row(after, id) is Some);
        }
    }
    lemma_vectors_put(t.thoughts, after, t.embeddings, id, vector);
    lemma_reconciled_sound(t, u, id, text);
}

/// Deleting a thought keeps the tables sound.
pub proof fn law_buried_sound(t: TablesView, id: Seq<u8>, now: i64)
    requires
        sound(t),
        find_live(t.thoughts, id) is Some,
    ensures
        sound(buried(t, id, now)),
{
    let change = RowChangeView::Bury { id, at: now };
    let after = updated(t.thoughts, change);
    lemma_updated_ids(t.thoughts, change);
    lemma_same_ids(t.thoughts, after);
    lemma_others_kept(t.thoughts, change, id);
    let i = lemma_live_at(t.thoughts, id);
    assert(after[i].id == id);
    law_found(after, i);
    let u = TablesView {
        thoughts: after,
        embeddings: embeddings_besides(t.embeddings, id),
        ..t
    };
    lemma_history_kept(t, after);
    lemma_vectors_besides(t.thoughts, after, t.embeddings, id);
    lemma_no_tags();
    lemma_reconciled_sound(t, u, id, Seq::empty());
}

/// The change neither alters a text nor deletes or revives a thought.
pub open spec fn harmless(change: RowChangeView) -> bool {
    !(change is Edit || change is Bury || change is Overwrite)
}

/// Settling, dealing with thoughts and acknowledging pushes keep the tables
/// sound.
pub proof fn law_changed_sound(t: TablesView, change: RowChangeView)
    requires
        sound(t),
        harmless(change),
    ensures
        sound(changed(t, change)),
{
    let after = updated(t.thoughts, change);
    let u = changed(t, change);
    lemma_updated_ids(t.thoughts, change);
    lemma_same_ids(t.thoughts, after);
    lemma_history_kept(t, after);
    assert forall|id: Seq<u8>| (#[trigger] find_live(after, id) is Some) == (find_live(
        t.thoughts,
        id,
    ) is Some) && tags_of(after, id) == tags_of(t.thoughts, id) by {
        if find_row(t.thoughts, id) is Some {
            let i = lemma_found_at(t.thoughts, id);
            law_found(t.thoughts, i);
            assert(after[i].id == id);
            law_found(after, i);
        } else {
            assert(find_row(after, id) is None);
            lemma_absent(t.thoughts, id);
            lemma_absent(after, id);
        }
    }
    assert forall|i: int| 0 <= i < u.embeddings.len() implies find_live(
        after,
        (#[trigger] u.embeddings[i]).thought_id,
    ) is Some by {
        assert(find_live(t.thoughts, t.embeddings[i].thought_id) is Some);
    }
    assert forall|id: Seq<u8>| #[trigger] mirrored(u, id) by {
        assert(mirrored(t, id));
        assert(find_live(after, id) is Some == find_live(t.thoughts, id) is Some);
    }
    assert forall|i: int| 0 <= i < u.tags.len() implies linked(u.links, #[trigger] u.tags[i]) by {
        assert(linked(t.links, t.tags[i]));
    }
}

/// Acknowledging pushes keeps the tables sound.
pub proof fn law_acknowledged_sound(t: TablesView, pushed: Seq<(Seq<u8>, i64)>)
    requires
        sound(t),
    ensures
        sound(acknowledged(t, pushed)),
    decreases pushed.len(),
{
    if pushed.len() > 0 {
        law_acknowledged_sound(t, pushed.drop_last());
        law_changed_sound(
            acknowledged(t, pushed.drop_last()),
            RowChangeView::Acknowledge { id: pushed.last().0, updated_at: pushed.last().1 },
        );
    }
}

/// Applying a change from another device keeps the tables sound.
pub proof fn law_applied_sound(
    t: TablesView,
    change: ThoughtChangeView,
    vector: Option<Seq<u32>>,
)
    requires
        sound(t),
        change.id.len() == 16,
        change.deleted_at is Some ==> vector is None,
    ensures
        sound(applied(t, change, vector)),
{
    let id = change.id;
    let row = row_of(change);
    let over = RowChangeView::Overwrite { row };
    let after = if find_row(t.thoughts, id) is Some {
        updated(t.thoughts, over)
    } else {
        t.thoughts.push(row)
    };
    if find_row(t.thoughts, id) is Some {
        lemma_updated_ids(t.thoughts, over);
        lemma_same_ids(t.thoughts, after);
        lemma_others_kept(t.thoughts, over, id);
        let i = lemma_found_at(t.thoughts, id);
        assert(after[i] == row);
        law_found(after, i);
    } else {
        lemma_pushed(t.thoughts, row);
    }
    let u = TablesView {
        thoughts: after,
        embeddings: revectored(t.embeddings, id, vector),
        ..t
    };
    lemma_history_kept(t, after);
    lemma_vectors_put(t.thoughts, after, t.embeddings, id, vector);
    lemma_no_tags();
    lemma_reconciled_sound(t, u, id, tagged_text(change));
}

/// Storing vectors of live thoughts keeps the tables sound.
pub proof fn law_vectors_sound(
    t: TablesView,
    rows: Seq<ThoughtRowView>,
    vectors: Seq<Seq<u32>>,
)
    requires
        sound(t),
        vectors.len() <= rows.len(),
        forall|i: int|
            0 <= i < vectors.len() ==> find_live(t.thoughts, (#[trigger] rows[i]).id) is Some,
    ensures
        sound(with_vectors(t, rows, vectors)),
        with_vectors(t, rows, vectors) == (TablesView {
            embeddings: with_vectors(t, rows, vectors).embeddings,
            ..t
        }),
    decreases vectors.len(),
{
    if vectors.len() > 0 {
        let n = vectors.len() - 1;
        law_vectors_sound(t, rows, vectors.drop_last());
        let u = with_vectors(t, rows, vectors.drop_last());
        let after = with_vectors(t, rows, vectors);
        assert(find_live(t.thoughts, rows[n].id) is Some);
        lemma_vectors_put(u.thoughts, u.thoughts, u.embeddings, rows[n].id, Some(vectors[n]));
        assert forall|id: Seq<u8>| #[trigger] mirrored(after, id) by {
            assert(mirrored(u, id));
        }
        assert forall|i: int| 0 <= i < after.tags.len() implies linked(
            after.links,
            #[trigger] after.tags[i],
        ) by {
            assert(linked(u.links, u.tags[i]));
        }
    }
}

/// Saving a search under a fresh identifier keeps the tables sound.
pub proof fn law_saved_sound(t: TablesView, row: SavedRowView)
    requires
        sound(t),
        !is_saved(t.saved, row.id),
    ensures
        sound(TablesView { saved: t.saved.push(row), ..t }),
{
    let r = |a: SavedRowView, b: SavedRowView| a.id != b.id;
    let p = |s: SavedRowView| s.id == row.id;
    let more = TablesView { saved: t.saved.push(row), ..t };
    assert forall|x: Seq<u8>| #[trigger] mirrored(more, x) by {
        assert(mirrored(t, x));
    }
    assert forall|i: int, j: int| 0 <= i < j < more.saved.len() implies r(
        #[trigger] more.saved[i],
        #[trigger] more.saved[j],
    ) by {
        if j < t.saved.len() {
            assert(r(t.saved[i], t.saved[j]));
        } else {
            assert(!p(t.saved[i]));
        }
    }
}

/// Deleting a saved search keeps the tables sound.
pub proof fn law_unsaved_sound(t: TablesView, id: Seq<u8>)
    requires
        sound(t),
    ensures
        sound(TablesView { saved: saved_besides(t.saved, id), ..t }),
{
    let less = TablesView { saved: saved_besides(t.saved, id), ..t };
    law_kept_pairwise(
        t.saved,
        |s: SavedRowView| s.id != id,
        |a: SavedRowView, b: SavedRowView| a.id != b.id,
    );
    assert forall|x: Seq<u8>| #[trigger] mirrored(less, x) by {
        assert(mirrored(t, x));
    }
}

// ---- migration -------------------------------------------------------------

/// Tables from before there were tags.
pub open spec fn untagged(t: TablesView) -> bool {
    &&& thoughts_distinct(t.thoughts)
    &&& history_owned(t.thoughts, t.history)
    &&& vectors_owned(t.thoughts, t.embeddings)
    &&& t.tags.len() == 0
    &&& t.links.len() == 0
    &&& pairwise(t.saved, |a: SavedRowView, b: SavedRowView| a.id != b.id)
}

proof fn lemma_changed_untagged(t: TablesView, change: RowChangeView)
    requires
        untagged(t),
        harmless(change),
    ensures
        untagged(changed(t, change)),
{
    let after = updated(t.thoughts, change);
    lemma_updated_ids(t.thoughts, change);
    lemma_same_ids(t.thoughts, after);
    lemma_history_kept(t, after);
    assert forall|i: int| 0 <= i < t.embeddings.len() implies find_live(
        after,
        (#[trigger] t.embeddings[i]).thought_id,
    ) is Some by {
        let id = t.embeddings[i].thought_id;
        let k = lemma_live_at(t.thoughts, id);
        assert(after[k].id == id);
        law_found(after, k);
    }
}

/// None of the rows is of that thought.
spec fn absent(rows: Seq<ThoughtRowView>, id: Seq<u8>) -> bool {
    forall|i: int| 0 <= i < rows.len() ==> (#[trigger] rows[i]).id != id
}

/// The thought at place `i` carries the tags in its text.
spec fn tagged_at(links: Seq<LinkRowView>, rows: Seq<ThoughtRowView>, i: int) -> bool {
    mirrors(links, rows[i].id, tag_list(rows[i].text))
}

/// The thoughts of these rows carry the tags in their texts, and no other
/// thought carries any.
spec fn tagged_alone(links: Seq<LinkRowView>, rows: Seq<ThoughtRowView>) -> bool {
    &&& forall|i: int| 0 <= i < rows.len() ==> #[trigger] tagged_at(links, rows, i)
    &&& forall|id: Seq<u8>| #[trigger] absent(rows, id) ==> mirrors(links, id, Seq::empty())
}

proof fn lemma_tagged_one_more(
    links: Seq<LinkRowView>,
    after: Seq<LinkRowView>,
    rows: Seq<ThoughtRowView>,
)
    requires
        rows.len() > 0,
        pairwise(rows, |a: ThoughtRowView, b: ThoughtRowView| a.id != b.id),
        tagged_alone(links, rows.drop_last()),
        links_besides(links, rows.last().id) == links_besides(after, rows.last().id),
        mirrors(after, rows.last().id, tag_list(rows.last().text)),
    ensures
        tagged_alone(after, rows),
{
    let front = rows.drop_last();
    let last = rows.last();
    let r = |a: ThoughtRowView, b: ThoughtRowView| a.id != b.id;
    assert forall|i: int| 0 <= i < rows.len() implies #[trigger] tagged_at(after, rows, i) by {
        if i < front.len() {
            assert(tagged_at(links, front, i));
            assert(front[i] == rows[i]);
            assert(r(rows[i], rows[rows.len() - 1]));
            lemma_mirrors_besides(links, after, last.id, rows[i].id, tag_list(rows[i].text));
        }
    }
    assert forall|id: Seq<u8>| #[trigger] absent(rows, id) implies mirrors(
        after,
        id,
        Seq::empty(),
    ) by {
        assert(rows[rows.len() - 1].id != id);
        assert(absent(front, id)) by {
            assert forall|i: int| 0 <= i < front.len() implies (#[trigger] front[i]).id != id by {
                assert(rows[i].id != id);
            }
        }
        lemma_mirrors_besides(links, after, last.id, id, Seq::empty());
    }
}

proof fn lemma_retagged(t: TablesView, rows: Seq<ThoughtRowView>)
    requires
        t.tags.len() == 0,
        t.links.len() == 0,
        pairwise(rows, |a: ThoughtRowView, b: ThoughtRowView| a.id != b.id),
    ensures
        tags_consistent(retagged(t, rows)),
        tags_in_use(retagged(t, rows)),
        tagged_alone(retagged(t, rows).links, rows),
        retagged(t, rows) == (TablesView {
            tags: retagged(t, rows).tags,
            links: retagged(t, rows).links,
            ..t
        }),
    decreases rows.len(),
{
    if rows.len() > 0 {
        let front = rows.drop_last();
        let last = rows.last();
        let r = |a: ThoughtRowView, b: ThoughtRowView| a.id != b.id;
        assert forall|i: int, j: int| 0 <= i < j < front.len() implies r(
            #[trigger] front[i],
            #[trigger] front[j],
        ) by {
            assert(r(rows[i], rows[j]));
        }
        lemma_retagged(t, front);
        let u = retagged(t, front);
        law_reconciled(u, last.id, last.text);
        lemma_tagged_one_more(u.links, retagged(t, rows).links, rows);
    }
}

/// Bringing tables from before there were tags up to date makes them sound.
pub proof fn law_migrated_sound(t: TablesView, current: i32)
    requires
        untagged(t),
    ensures
        sound(
            retagged(
                with_columns(t, current),
                kept(with_columns(t, current).thoughts, |row: ThoughtRowView| live(row)),
            ),
        ),
{
    let timed = if current < 2 {
        changed(t, RowChangeView::BackfillUpdatedAt)
    } else {
        t
    };
    if current < 2 {
        lemma_changed_untagged(t, RowChangeView::BackfillUpdatedAt);
    }
    if current < 5 {
        lemma_changed_untagged(timed, RowChangeView::MarkDirty);
    }
    let filled = with_columns(t, current);
    let p = |row: ThoughtRowView| live(row);
    let rows = kept(filled.thoughts, p);
    law_kept_pairwise(
        filled.thoughts,
        p,
        |a: ThoughtRowView, b: ThoughtRowView| a.id != b.id,
    );
    lemma_retagged(filled, rows);
    let after = retagged(filled, rows);
    law_kept_all(filled.thoughts, p);
    assert forall|id: Seq<u8>| #[trigger] mirrored(after, id) by {
        if find_live(filled.thoughts, id) is Some {
            let i = lemma_live_at(filled.thoughts, id);
            law_kept_contains(filled.thoughts, p, filled.thoughts[i]);
            let k = choose|k: int| 0 <= k < rows.len() && rows[k] == filled.thoughts[i];
            assert(tagged_at(after.links, rows, k));
        } else {
            assert forall|i: int| 0 <= i < rows.len() implies (#[trigger] rows[i]).id != id by {
                if rows[i].id == id {
                    let k = choose|k: int|
                        0 <= k < filled.thoughts.len() && filled.thoughts[k] == rows[i];
                    law_found(filled.thoughts, k);
                }
            }
            assert(absent(rows, id));
        }
    }
}

} // verus!
