//! What the operations of the store promise together.

use vstd::prelude::*;

use crate::clock::settled;
use crate::mirror::{carries, lemma_reconciled_rows, lists};
use crate::model::{
    acknowledged, applied, archived, buried, changed, created, edited, find_live, find_row,
    has_vector, live, missing, new_row, revectored, row_of, tagged_text, wins, with_vector,
    with_vectors,
};
use crate::order::{codes, folded, parts_at, same_name};
use crate::query::{
    at_row, carries_tag, feed, last_id, later, outbox, past, resumes, same_tag, stale, stream,
    stream_from, tagged, uses, Cursor,
};
use crate::rank::{
    law_ranked_contains, law_ranked_in_order, law_ranked_kept, law_ranked_pairwise, ranked,
    RowOrder,
};
use crate::rows::{
    kept, law_first_where, law_kept_all, law_kept_alike, law_kept_both, law_kept_contains,
    law_kept_pairwise, law_kept_rest, limited,
};
use crate::sorting::{
    keyed_less, law_keyed_order, law_keyed_total, LatestFirst, NewestFirst, OldestChangeFirst,
    OldestSavedFirst,
};
use crate::sound::{
    ids_distinct, law_buried_sound, law_found, mirrored, sound, tags_of, thoughts_distinct,
};
use crate::store::lemma_first_updated;
use crate::sync::{SyncCursor, ThoughtChangeView};
use crate::tables::{
    affected, embeddings_besides, linked, saved_besides, updated, EmbeddingRowView, LinkRowView,
    RowChangeView, SavedRow, SavedRowView, TablesView, ThoughtRow, ThoughtRowView,
};
use crate::tags::tag_list;
use crate::text::{ascii_lower, ascii_text, lowercased};

verus! {

// ---- pages -----------------------------------------------------------------

/// The relation by which no two rows are of the same thought.
spec fn apart() -> spec_fn(ThoughtRowView, ThoughtRowView) -> bool {
    |a: ThoughtRowView, b: ThoughtRowView| a.id != b.id
}

/// A listing by keys that differ from row to row resumes behind each row.
proof fn lemma_resumes<O: RowOrder<ThoughtRow>>(
    rows: Seq<ThoughtRowView>,
    p: spec_fn(ThoughtRowView) -> bool,
    q: spec_fn(ThoughtRowView) -> bool,
    i: int,
)
    requires
        ids_distinct(rows),
        0 <= i < ranked::<ThoughtRow, O>(kept(rows, p)).len(),
        forall|row: ThoughtRowView| #[trigger]
            q(row) == O::before(ranked::<ThoughtRow, O>(kept(rows, p))[i], row),
        forall|a: ThoughtRowView, b: ThoughtRowView|
            a.id != b.id ==> #[trigger] O::before(a, b) || O::before(b, a),
    ensures
        ranked::<ThoughtRow, O>(kept(rows, |row: ThoughtRowView| p(row) && q(row))) == ranked::<
            ThoughtRow,
            O,
        >(kept(rows, p)).skip(i + 1),
{
    let some = kept(rows, p);
    let all = ranked::<ThoughtRow, O>(some);
    law_kept_pairwise(rows, p, apart());
    law_ranked_pairwise::<ThoughtRow, O>(some, apart());
    law_ranked_in_order::<ThoughtRow, O>(some);
    assert forall|j: int| 0 <= j < all.len() implies q(#[trigger] all[j]) == (j >= i + 1) by {
        if j < i {
            assert(!O::before(all[i], all[j]));
        } else if j == i {
            O::asymmetric(all[i], all[i]);
        } else {
            assert(apart()(all[i], all[j]));
            assert(O::before(all[i], all[j]) || O::before(all[j], all[i]));
        }
    }
    law_kept_rest(all, q, i + 1);
    law_ranked_kept::<ThoughtRow, O>(some, q);
    law_kept_both(rows, p, q);
}

/// The stream from any position resumes just behind the row that a cursor points
/// to: nothing is skipped and nothing comes twice, even where thoughts share a
/// millisecond.
pub proof fn law_stream_resumes(
    rows: Seq<ThoughtRowView>,
    before: Option<Cursor>,
    i: int,
    cursor: Cursor,
)
    requires
        ids_distinct(rows),
        0 <= i < stream_from(rows, before).len(),
        at_row(Some(cursor), Some(stream_from(rows, before)[i])),
    ensures
        stream_from(rows, Some(cursor)) == stream_from(rows, before).skip(i + 1),
{
    let p = |row: ThoughtRowView| live(row) && (before matches Some(c) ==> past(row, c));
    let q = |row: ThoughtRowView| past(row, cursor);
    assert forall|a: ThoughtRowView, b: ThoughtRowView| a.id != b.id implies #[trigger]
        NewestFirst::before(a, b) || NewestFirst::before(b, a) by {
        law_keyed_total(a.created_at, a.id, b.created_at, b.id);
    }
    lemma_resumes::<NewestFirst>(rows, p, q, i);
    let at = stream_from(rows, before)[i];
    law_ranked_contains::<ThoughtRow, NewestFirst>(kept(rows, p), at);
    law_kept_contains(rows, p, at);
    let since = Some(cursor);
    let both = |row: ThoughtRowView| p(row) && q(row);
    let s = |row: ThoughtRowView| live(row) && (since matches Some(c) ==> past(row, c));
    assert forall|k: int| 0 <= k < rows.len() implies both(#[trigger] rows[k]) == s(rows[k]) by {
        if before is Some && past(rows[k], cursor) {
            let c = before.unwrap();
            let row = rows[k];
            law_keyed_order(
                row.created_at,
                row.id,
                c.created_at,
                c.id@,
                cursor.created_at,
                cursor.id@,
            );
            law_keyed_order(
                c.created_at,
                c.id@,
                cursor.created_at,
                cursor.id@,
                cursor.created_at,
                cursor.id@,
            );
        }
    }
    law_kept_alike(rows, both, s);
}

/// After a page, the stream goes on where its cursor says, and there is a cursor
/// exactly if thoughts follow. An empty page from the start has one before every
/// thought, but for one captured at the largest time under the last identifier.
pub proof fn law_page_resumes(
    rows: Seq<ThoughtRowView>,
    before: Option<Cursor>,
    next: Option<Cursor>,
    limit: usize,
)
    requires
        thoughts_distinct(rows),
        resumes(next, before, stream_from(rows, before), limit),
        limit == 0 && before is None ==> forall|i: int|
            0 <= i < rows.len() && live(#[trigger] rows[i]) ==> rows[i].created_at < i64::MAX
                || rows[i].id != last_id(),
    ensures
        next is Some <==> stream_from(rows, before).len() > limit,
        next is Some ==> stream_from(rows, next) == stream_from(rows, before).skip(limit as int),
{
    let rest = stream_from(rows, before);
    if rest.len() > limit {
        if limit > 0 {
            law_stream_resumes(rows, before, limit - 1, next.unwrap());
        } else {
            assert(rest.skip(0) =~= rest);
            if before is None {
                let p = |row: ThoughtRowView| live(row) && (before matches Some(c) ==> past(row, c));
                let s = |row: ThoughtRowView| live(row) && (next matches Some(c) ==> past(row, c));
                assert forall|i: int| 0 <= i < rows.len() implies p(#[trigger] rows[i]) == s(
                    rows[i],
                ) by {
                    if live(rows[i]) {
                        lemma_before_the_last(rows[i].created_at, rows[i].id);
                    }
                }
                law_kept_alike(rows, p, s);
            }
        }
    }
}

proof fn lemma_before_the_last(at: i64, id: Seq<u8>)
    requires
        id.len() == 16,
        at < i64::MAX || id != last_id(),
    ensures
        keyed_less(at, id, i64::MAX, last_id()),
{
    law_keyed_total(at, id, i64::MAX, last_id());
    if keyed_less(i64::MAX, last_id(), at, id) {
        let k = choose|k: int| parts_at(codes(last_id()), codes(id), k);
        assert(codes(last_id())[k] < codes(id)[k]);
    }
}

/// The first page starts at the newest thought.
pub proof fn law_stream_starts(rows: Seq<ThoughtRowView>)
    ensures
        stream_from(rows, None) == stream(rows),
{
    let before: Option<Cursor> = None;
    law_kept_alike(
        rows,
        |row: ThoughtRowView| live(row),
        |row: ThoughtRowView| live(row) && (before matches Some(c) ==> past(row, c)),
    );
}

/// The cursor from which page number `k` is asked for, the first one from `before`.
pub open spec fn page_cursor(
    before: Option<Cursor>,
    cursors: Seq<Cursor>,
    k: int,
) -> Option<Cursor> {
    if k == 0 {
        before
    } else {
        Some(cursors[k - 1])
    }
}

/// Each of the cursors is the one that the page asked for from the one before
/// returned.
pub open spec fn cursors_of(
    rows: Seq<ThoughtRowView>,
    before: Option<Cursor>,
    cursors: Seq<Cursor>,
    limit: usize,
) -> bool {
    forall|k: int|
        0 <= k < cursors.len() ==> resumes(
            Some(#[trigger] cursors[k]),
            page_cursor(before, cursors, k),
            stream_from(rows, page_cursor(before, cursors, k)),
            limit,
        )
}

/// Walking the stream from any position page by page shows every live thought
/// behind it once, newest first: page number `k` holds the thoughts from place
/// `k * limit` on, and has a cursor exactly if there are more behind it.
pub proof fn law_pages_cover_the_stream(
    rows: Seq<ThoughtRowView>,
    before: Option<Cursor>,
    cursors: Seq<Cursor>,
    limit: usize,
    k: int,
)
    requires
        ids_distinct(rows),
        0 < limit,
        cursors_of(rows, before, cursors, limit),
        0 <= k <= cursors.len(),
    ensures
        k * limit <= stream_from(rows, before).len(),
        stream_from(rows, page_cursor(before, cursors, k)) == stream_from(rows, before).skip(
            k * limit,
        ),
        forall|next: Option<Cursor>| #[trigger]
            resumes(
                next,
                page_cursor(before, cursors, k),
                stream_from(rows, page_cursor(before, cursors, k)),
                limit,
            ) ==> (next is Some <==> (k + 1) * limit < stream_from(rows, before).len()),
    decreases k,
{
    let all = stream_from(rows, before);
    if k == 0 {
        assert(all.skip(0) =~= all);
        assert(0 * limit == 0) by (nonlinear_arith);
        assert(1 * limit == limit) by (nonlinear_arith);
    } else {
        law_pages_cover_the_stream(rows, before, cursors, limit, k - 1);
        let start = (k - 1) * limit;
        let rest = all.skip(start);
        assert(k * limit == start + limit) by (nonlinear_arith)
            requires
                start == (k - 1) * limit,
        ;
        assert((k + 1) * limit == start + 2 * limit) by (nonlinear_arith)
            requires
                start == (k - 1) * limit,
        ;
        assert(resumes(Some(cursors[k - 1]), page_cursor(before, cursors, k - 1), rest, limit));
        assert(rest[limit - 1] == all[start + limit - 1]);
        law_stream_resumes(rows, before, start + limit - 1, cursors[k - 1]);
    }
}

// ---- sync ------------------------------------------------------------------

/// The change feed from any position resumes just behind the change that a cursor
/// points to: a client that pulls from its last cursor misses nothing and gets
/// nothing twice.
pub proof fn law_feed_resumes(
    rows: Seq<ThoughtRowView>,
    since: Option<SyncCursor>,
    i: int,
    cursor: SyncCursor,
)
    requires
        ids_distinct(rows),
        0 <= i < feed(rows, since).len(),
        cursor.updated_at == feed(rows, since)[i].updated_at,
        cursor.id@ == feed(rows, since)[i].id,
    ensures
        feed(rows, Some(cursor)) == feed(rows, since).skip(i + 1),
{
    let p = |row: ThoughtRowView| since matches Some(c) ==> later(row, c);
    let q = |row: ThoughtRowView| later(row, cursor);
    assert forall|a: ThoughtRowView, b: ThoughtRowView| a.id != b.id implies #[trigger]
        OldestChangeFirst::before(a, b) || OldestChangeFirst::before(b, a) by {
        law_keyed_total(a.updated_at, a.id, b.updated_at, b.id);
    }
    lemma_resumes::<OldestChangeFirst>(rows, p, q, i);
    let at = feed(rows, since)[i];
    law_ranked_contains::<ThoughtRow, OldestChangeFirst>(kept(rows, p), at);
    law_kept_contains(rows, p, at);
    let then = Some(cursor);
    let both = |row: ThoughtRowView| p(row) && q(row);
    let s = |row: ThoughtRowView| then matches Some(c) ==> later(row, c);
    assert forall|k: int| 0 <= k < rows.len() implies both(#[trigger] rows[k]) == s(rows[k]) by {
        if since is Some && later(rows[k], cursor) {
            let c = since.unwrap();
            let row = rows[k];
            law_keyed_order(
                cursor.updated_at,
                cursor.id@,
                c.updated_at,
                c.id@,
                row.updated_at,
                row.id,
            );
            law_keyed_order(
                cursor.updated_at,
                cursor.id@,
                c.updated_at,
                c.id@,
                c.updated_at,
                c.id@,
            );
        }
    }
    law_kept_alike(rows, both, s);
}

/// The cursor from which pull number `k` starts, the first one from `since`.
pub open spec fn pull_cursor(
    since: Option<SyncCursor>,
    cursors: Seq<SyncCursor>,
    k: int,
) -> Option<SyncCursor> {
    if k == 0 {
        since
    } else {
        Some(cursors[k - 1])
    }
}

/// Each of the cursors is just past the last change of the full pull that
/// started from the one before.
pub open spec fn pull_cursors(
    rows: Seq<ThoughtRowView>,
    since: Option<SyncCursor>,
    cursors: Seq<SyncCursor>,
    limit: nat,
) -> bool {
    forall|k: int|
        0 <= k < cursors.len() ==> {
            let page = limited(feed(rows, pull_cursor(since, cursors, k)), limit);
            &&& page.len() == limit
            &&& (#[trigger] cursors[k]).updated_at == page.last().updated_at
            &&& cursors[k].id@ == page.last().id
        }
}

/// Draining the change feed from any position pull by pull gets every change
/// behind it once, oldest first: pull number `k` holds the changes from place
/// `k * limit` of the feed on.
pub proof fn law_pulls_cover_the_feed(
    rows: Seq<ThoughtRowView>,
    since: Option<SyncCursor>,
    cursors: Seq<SyncCursor>,
    limit: nat,
    k: int,
)
    requires
        ids_distinct(rows),
        limit > 0,
        pull_cursors(rows, since, cursors, limit),
        0 <= k <= cursors.len(),
    ensures
        k * limit <= feed(rows, since).len(),
        feed(rows, pull_cursor(since, cursors, k)) == feed(rows, since).skip(k * limit),
    decreases k,
{
    let all = feed(rows, since);
    if k == 0 {
        assert(all.skip(0) =~= all);
        assert(0 * limit == 0) by (nonlinear_arith);
    } else {
        law_pulls_cover_the_feed(rows, since, cursors, limit, k - 1);
        let start = (k - 1) * limit;
        let page = limited(all.skip(start), limit);
        assert(k * limit == start + limit) by (nonlinear_arith)
            requires
                start == (k - 1) * limit,
        ;
        assert(cursors[k - 1].updated_at == page.last().updated_at);
        assert(page.last() == all[start + limit - 1]);
        law_feed_resumes(rows, since, start + limit - 1, cursors[k - 1]);
    }
}

/// The change feed holds every thought, tombstones included.
pub proof fn law_feed_complete(rows: Seq<ThoughtRowView>, row: ThoughtRowView)
    ensures
        feed(rows, None).contains(row) == rows.contains(row),
{
    let none: Option<SyncCursor> = None;
    let p = |row: ThoughtRowView| none matches Some(c) ==> later(row, c);
    law_ranked_contains::<ThoughtRow, OldestChangeFirst>(kept(rows, p), row);
    law_kept_contains(rows, p, row);
}

/// The rows of thoughts after a change has arrived, be it applied or not.
pub open spec fn received(
    t: TablesView,
    change: ThoughtChangeView,
    vector: Option<Seq<u32>>,
) -> TablesView {
    if wins(t, change) {
        applied(t, change, vector)
    } else {
        t
    }
}

proof fn lemma_applied_rows(t: TablesView, change: ThoughtChangeView, vector: Option<Seq<u32>>)
    ensures
        applied(t, change, vector).thoughts == (if find_row(t.thoughts, change.id) is Some {
            updated(t.thoughts, RowChangeView::Overwrite { row: row_of(change) })
        } else {
            t.thoughts.push(row_of(change))
        }),
{
    lemma_reconciled_rows(
        TablesView {
            thoughts: if find_row(t.thoughts, change.id) is Some {
                updated(t.thoughts, RowChangeView::Overwrite { row: row_of(change) })
            } else {
                t.thoughts.push(row_of(change))
            },
            embeddings: revectored(t.embeddings, change.id, vector),
            ..t
        },
        change.id,
        tagged_text(change),
    );
}

proof fn lemma_find_overwritten(rows: Seq<ThoughtRowView>, row: ThoughtRowView, id: Seq<u8>)
    ensures
        find_row(updated(rows, RowChangeView::Overwrite { row }), id) == (if id == row.id {
            match find_row(rows, id) {
                Some(_) => Some(row),
                None => None,
            }
        } else {
            find_row(rows, id)
        }),
    decreases rows.len(),
{
    let change = RowChangeView::Overwrite { row };
    if rows.len() > 0 {
        lemma_find_overwritten(rows.drop_last(), row, id);
        assert(updated(rows, change).drop_last() =~= updated(rows.drop_last(), change));
    }
}

/// A change that is applied replaces what was stored of its thought, and leaves
/// every other thought as it is.
pub proof fn law_applied_replaces(
    t: TablesView,
    change: ThoughtChangeView,
    vector: Option<Seq<u32>>,
    id: Seq<u8>,
)
    ensures
        find_row(applied(t, change, vector).thoughts, id) == (if id == change.id {
            Some(row_of(change))
        } else {
            find_row(t.thoughts, id)
        }),
{
    lemma_applied_rows(t, change, vector);
    if find_row(t.thoughts, change.id) is Some {
        lemma_find_overwritten(t.thoughts, row_of(change), id);
    } else {
        let after = t.thoughts.push(row_of(change));
        assert(after.drop_last() =~= t.thoughts);
    }
}

/// A change is applied once: when it arrives again, or an older one does, it is
/// ignored.
pub proof fn law_applied_once(
    t: TablesView,
    change: ThoughtChangeView,
    vector: Option<Seq<u32>>,
    again: ThoughtChangeView,
)
    requires
        again.id == change.id,
        again.updated_at <= change.updated_at,
    ensures
        !wins(applied(t, change, vector), again),
{
    law_applied_replaces(t, change, vector, change.id);
}

/// The last writer wins: what is stored of a thought after a change arrived is
/// the later of the two, and what was there on a tie.
pub proof fn law_last_writer_wins(
    t: TablesView,
    change: ThoughtChangeView,
    vector: Option<Seq<u32>>,
    id: Seq<u8>,
)
    ensures
        find_row(received(t, change, vector).thoughts, id) == (if id != change.id {
            find_row(t.thoughts, id)
        } else {
            match find_row(t.thoughts, id) {
                Some(local) => if local.updated_at < change.updated_at {
                    Some(row_of(change))
                } else {
                    Some(local)
                },
                None => Some(row_of(change)),
            }
        }),
{
    if wins(t, change) {
        law_applied_replaces(t, change, vector, id);
    }
}

/// Devices converge: two changes leave the same thoughts in whichever order they
/// arrive, unless they are of one thought and one millisecond.
pub proof fn law_changes_commute(
    t: TablesView,
    a: ThoughtChangeView,
    b: ThoughtChangeView,
    va: Option<Seq<u32>>,
    vb: Option<Seq<u32>>,
    id: Seq<u8>,
)
    requires
        a.id != b.id || a.updated_at != b.updated_at || a == b,
    ensures
        find_row(received(received(t, a, va), b, vb).thoughts, id) == find_row(
            received(received(t, b, vb), a, va).thoughts,
            id,
        ),
{
    law_last_writer_wins(t, a, va, id);
    law_last_writer_wins(t, b, vb, id);
    law_last_writer_wins(received(t, a, va), b, vb, id);
    law_last_writer_wins(received(t, b, vb), a, va, id);
}

/// Acknowledging pushes clears the mark of just the rows that still stand as
/// they were pushed: one edited in between stays marked and is pushed again.
pub proof fn law_acknowledged_rows(t: TablesView, pushed: Seq<(Seq<u8>, i64)>, i: int)
    requires
        0 <= i < t.thoughts.len(),
    ensures
        acknowledged(t, pushed).thoughts.len() == t.thoughts.len(),
        acknowledged(t, pushed).thoughts[i] == (if pushed.contains(
            (t.thoughts[i].id, t.thoughts[i].updated_at),
        ) {
            ThoughtRowView { dirty: false, ..t.thoughts[i] }
        } else {
            t.thoughts[i]
        }),
    decreases pushed.len(),
{
    if pushed.len() > 0 {
        let front = pushed.drop_last();
        law_acknowledged_rows(t, front, i);
        let key = (t.thoughts[i].id, t.thoughts[i].updated_at);
        assert(pushed.contains(key) <==> front.contains(key) || pushed.last() == key) by {
            assert(pushed =~= front.push(pushed.last()));
            if front.contains(key) {
                let k = choose|k: int| 0 <= k < front.len() && front[k] == key;
                assert(pushed[k] == key);
            }
            if pushed.last() == key {
                assert(pushed[pushed.len() - 1] == key);
            }
            if pushed.contains(key) {
                let k = choose|k: int| 0 <= k < pushed.len() && pushed[k] == key;
                if k < front.len() {
                    assert(front[k] == key);
                }
            }
        }
    }
}

// ---- capture, edit, delete -------------------------------------------------

/// A captured thought is found, live, and in the stream.
pub proof fn law_created_is_listed(
    t: TablesView,
    id: Seq<u8>,
    text: Seq<char>,
    now: i64,
    vector: Option<Seq<u32>>,
)
    requires
        find_row(t.thoughts, id) is None,
    ensures
        find_live(created(t, id, text, now, vector).thoughts, id) == Some(new_row(id, text, now)),
        stream(created(t, id, text, now, vector).thoughts).contains(new_row(id, text, now)),
        outbox(created(t, id, text, now, vector).thoughts).contains(new_row(id, text, now)),
        !settled(now, None, now),
{
    let row = new_row(id, text, now);
    let after = created(t, id, text, now, vector).thoughts;
    lemma_reconciled_rows(
        TablesView {
            thoughts: t.thoughts.push(row),
            embeddings: match vector {
                Some(v) => with_vector(t.embeddings, id, v),
                None => t.embeddings,
            },
            ..t
        },
        id,
        text,
    );
    assert(after.drop_last() =~= t.thoughts);
    assert(after[after.len() - 1] == row);
    let p = |r: ThoughtRowView| r.id == id;
    let q = |r: ThoughtRowView| r.id == id && live(r);
    law_first_where(t.thoughts, p);
    law_first_where(t.thoughts, q);
    assert(find_live(t.thoughts, id) is None) by {
        if find_live(t.thoughts, id) is Some {
            let k = choose|k: int|
                0 <= k < t.thoughts.len() && t.thoughts[k] == find_live(t.thoughts, id).unwrap();
            assert(p(t.thoughts[k]));
        }
    }
    law_kept_contains(after, |r: ThoughtRowView| live(r), row);
    law_ranked_contains::<ThoughtRow, NewestFirst>(
        kept(after, |r: ThoughtRowView| live(r)),
        row,
    );
    law_kept_contains(after, |r: ThoughtRowView| r.dirty, row);
    law_ranked_contains::<ThoughtRow, OldestChangeFirst>(
        kept(after, |r: ThoughtRowView| r.dirty),
        row,
    );
}

/// An edit of a thought that is still live overwrites it and leaves the history
/// alone; one of a settled thought adds the text it had. Either way the thought
/// is live again, keeps when it was captured and whether it was dealt with, and
/// is to be pushed.
pub proof fn law_edit(
    t: TablesView,
    row: ThoughtRowView,
    text: Seq<char>,
    now: i64,
    vector: Option<Seq<u32>>,
)
    requires
        find_live(t.thoughts, row.id) == Some(row),
        thoughts_distinct(t.thoughts),
    ensures
        find_live(edited(t, row, text, now, vector).thoughts, row.id) == Some(
            ThoughtRowView { text, updated_at: now, settled_at: None, dirty: true, ..row },
        ),
        !settled(row.updated_at, row.settled_at, now) ==> edited(
            t,
            row,
            text,
            now,
            vector,
        ).history == t.history,
        settled(row.updated_at, row.settled_at, now) ==> {
            let entry = edited(t, row, text, now, vector).history.last();
            &&& edited(t, row, text, now, vector).history.drop_last() == t.history
            &&& entry.thought_id == row.id
            &&& entry.text == row.text
            &&& entry.archived_at == now
        },
        !settled(now, None, now),
{
    let change = RowChangeView::Edit { id: row.id, text, at: now };
    lemma_reconciled_rows(
        TablesView {
            history: archived(t.history, row, now),
            thoughts: updated(t.thoughts, change),
            embeddings: revectored(t.embeddings, row.id, vector),
            ..t
        },
        row.id,
        text,
    );
    let after = edited(t, row, text, now, vector);
    let p = |r: ThoughtRowView| r.id == row.id && live(r);
    assert(after.thoughts == updated(t.thoughts, change));
    lemma_first_updated(t.thoughts, change, p);
    law_first_where(t.thoughts, p);
    if settled(row.updated_at, row.settled_at, now) {
        assert(after.history.drop_last() =~= t.history);
    }
}

/// Settling twice settles nothing the second time.
pub proof fn law_settled_once(t: TablesView, first: i64, second: i64)
    ensures
        affected(
            changed(t, RowChangeView::Settle { at: first }).thoughts,
            RowChangeView::Settle { at: second },
        ) == 0,
{
    let after = changed(t, RowChangeView::Settle { at: first }).thoughts;
    let p = |row: ThoughtRowView| (RowChangeView::Settle { at: second }).hits(row);
    law_kept_all(after, p);
    if kept(after, p).len() > 0 {
        let row = kept(after, p)[0];
        assert(p(row));
        let i = choose|i: int| 0 <= i < after.len() && after[i] == row;
        assert(after[i] == (RowChangeView::Settle { at: first }).on(t.thoughts[i]));
    }
}

/// A deleted thought is found no more: it is not live, not in the stream and has
/// no vector. Its tombstone stays, to be pushed, and is in the change feed.
pub proof fn law_deleted_is_gone(t: TablesView, id: Seq<u8>, now: i64)
    requires
        sound(t),
        find_live(t.thoughts, id) is Some,
    ensures
        find_live(buried(t, id, now).thoughts, id) is None,
        !has_vector(buried(t, id, now), id),
        forall|row: ThoughtRowView| #[trigger]
            stream(buried(t, id, now).thoughts).contains(row) ==> row.id != id,
        find_row(buried(t, id, now).thoughts, id) matches Some(tomb) && tomb.deleted_at == Some(now)
            && tomb.updated_at == now && tomb.dirty && outbox(
            buried(t, id, now).thoughts,
        ).contains(tomb) && feed(buried(t, id, now).thoughts, None).contains(tomb),
        buried(t, id, now).history == t.history,
{
    let change = RowChangeView::Bury { id, at: now };
    let u = TablesView {
        thoughts: updated(t.thoughts, change),
        embeddings: embeddings_besides(t.embeddings, id),
        ..t
    };
    lemma_reconciled_rows(u, id, Seq::empty());
    let after = buried(t, id, now).thoughts;
    law_buried_sound(t, id, now);
    let q = |r: ThoughtRowView| r.id == id && live(r);
    law_first_where(t.thoughts, q);
    let i = choose|i: int|
        0 <= i < t.thoughts.len() && t.thoughts[i] == find_live(t.thoughts, id).unwrap();
    assert(after[i] == change.makes(t.thoughts[i]));
    law_found(after, i);
    let tomb = after[i];
    let other = |e: EmbeddingRowView| e.thought_id != id;
    law_kept_all(t.embeddings, other);
    assert(!has_vector(buried(t, id, now), id)) by {
        if has_vector(buried(t, id, now), id) {
            let rest = buried(t, id, now).embeddings;
            let k = choose|k: int| 0 <= k < rest.len() && (#[trigger] rest[k]).thought_id == id;
            assert(other(rest[k]));
        }
    }
    assert forall|row: ThoughtRowView| #[trigger] stream(after).contains(row) implies row.id
        != id by {
        law_ranked_contains::<ThoughtRow, NewestFirst>(
            kept(after, |r: ThoughtRowView| live(r)),
            row,
        );
        law_kept_contains(after, |r: ThoughtRowView| live(r), row);
        if row.id == id {
            law_first_where(after, q);
            let k = choose|k: int| 0 <= k < after.len() && after[k] == row;
            assert(q(after[k]));
        }
    }
    assert(after.contains(tomb));
    law_kept_contains(after, |r: ThoughtRowView| r.dirty, tomb);
    law_ranked_contains::<ThoughtRow, OldestChangeFirst>(
        kept(after, |r: ThoughtRowView| r.dirty),
        tomb,
    );
    law_feed_complete(after, tomb);
}

/// A thought is stale exactly if it is live, was not dealt with, and was last
/// modified before the threshold.
pub proof fn law_stale(rows: Seq<ThoughtRowView>, threshold: int, row: ThoughtRowView)
    ensures
        stale(rows, threshold).contains(row) <==> rows.contains(row) && live(row)
            && row.actioned_at is None && row.updated_at < threshold,
{
    let p = |r: ThoughtRowView| live(r) && r.actioned_at is None && r.updated_at < threshold;
    law_ranked_contains::<ThoughtRow, OldestChangeFirst>(kept(rows, p), row);
    law_kept_contains(rows, p, row);
}

/// Marking a thought as dealt with, or no longer so, changes that and when it was
/// last modified, and nothing else of it; the thought is to be pushed. Marked, it
/// is never stale. Unmarking it leaves the same as it does without the mark.
pub proof fn law_action(t: TablesView, id: Seq<u8>, actioned_at: Option<i64>, at: i64)
    requires
        find_live(t.thoughts, id) is Some,
    ensures
        ({
            let row = find_live(t.thoughts, id).unwrap();
            let after = changed(t, RowChangeView::Action { id, actioned_at, at }).thoughts;
            let acted = ThoughtRowView { actioned_at, updated_at: at, dirty: true, ..row };
            &&& find_live(after, id) == Some(acted)
            &&& outbox(after).contains(acted)
            &&& actioned_at is Some ==> forall|threshold: int, r: ThoughtRowView| #[trigger]
                stale(after, threshold).contains(r) ==> r.id != id
        }),
        ({
            let done = changed(t, RowChangeView::Action { id, actioned_at, at });
            let undo = RowChangeView::Action { id, actioned_at: None, at };
            changed(done, undo) == changed(t, undo)
        }),
{
    let change = RowChangeView::Action { id, actioned_at, at };
    let undo = RowChangeView::Action { id, actioned_at: None, at };
    let q = |r: ThoughtRowView| r.id == id && live(r);
    let row = find_live(t.thoughts, id).unwrap();
    let after = changed(t, change).thoughts;
    lemma_first_updated(t.thoughts, change, q);
    law_first_where(t.thoughts, q);
    law_first_where(after, q);
    let acted = change.makes(row);
    assert(find_live(after, id) == Some(acted));
    law_kept_contains(after, |r: ThoughtRowView| r.dirty, acted);
    law_ranked_contains::<ThoughtRow, OldestChangeFirst>(
        kept(after, |r: ThoughtRowView| r.dirty),
        acted,
    );
    if actioned_at is Some {
        assert forall|threshold: int, r: ThoughtRowView| #[trigger]
            stale(after, threshold).contains(r) implies r.id != id by {
            law_stale(after, threshold, r);
            let k = choose|k: int| 0 <= k < after.len() && after[k] == r;
            assert(after[k] == change.on(t.thoughts[k]));
        }
    }
    assert(updated(after, undo) =~= updated(t.thoughts, undo)) by {
        assert forall|k: int| 0 <= k < t.thoughts.len() implies undo.on(after[k]) == undo.on(
            t.thoughts[k],
        ) by {
            assert(after[k] == change.on(t.thoughts[k]));
        }
    }
}

/// A saved search is listed once it is saved, and no longer once it is deleted;
/// every other one stays.
pub proof fn law_saved(saved: Seq<SavedRowView>, row: SavedRowView, other: SavedRowView)
    ensures
        ranked::<SavedRow, OldestSavedFirst>(saved.push(row)).contains(row),
        !ranked::<SavedRow, OldestSavedFirst>(saved_besides(saved, row.id)).contains(row),
        other.id != row.id ==> {
            &&& ranked::<SavedRow, OldestSavedFirst>(saved.push(row)).contains(other)
                == saved.contains(other)
            &&& ranked::<SavedRow, OldestSavedFirst>(saved_besides(saved, row.id)).contains(other)
                == saved.contains(other)
        },
{
    let more = saved.push(row);
    let p = |s: SavedRowView| s.id != row.id;
    law_ranked_contains::<SavedRow, OldestSavedFirst>(more, row);
    law_ranked_contains::<SavedRow, OldestSavedFirst>(more, other);
    law_ranked_contains::<SavedRow, OldestSavedFirst>(kept(saved, p), row);
    law_ranked_contains::<SavedRow, OldestSavedFirst>(kept(saved, p), other);
    law_kept_contains(saved, p, row);
    law_kept_contains(saved, p, other);
    assert(more[saved.len() as int] == row);
    if saved.contains(other) {
        let k = choose|k: int| 0 <= k < saved.len() && saved[k] == other;
        assert(more[k] == other);
    }
    if more.contains(other) && other.id != row.id {
        let k = choose|k: int| 0 <= k < more.len() && more[k] == other;
        assert(saved[k] == other);
    }
}

// ---- vectors ---------------------------------------------------------------

/// Every thought that waits for its vector is live, and has none.
pub proof fn law_missing(t: TablesView, row: ThoughtRowView)
    ensures
        missing(t).contains(row) <==> t.thoughts.contains(row) && live(row) && !has_vector(
            t,
            row.id,
        ),
{
    let p = |row: ThoughtRowView| live(row) && !has_vector(t, row.id);
    law_ranked_contains::<ThoughtRow, LatestFirst>(kept(t.thoughts, p), row);
    law_kept_contains(t.thoughts, p, row);
}

/// A thought that was embedded no longer waits, and one that had a vector keeps
/// one: embedding what is missing comes to an end.
pub proof fn law_embedding_makes_progress(
    t: TablesView,
    rows: Seq<ThoughtRowView>,
    vectors: Seq<Seq<u32>>,
    id: Seq<u8>,
)
    requires
        vectors.len() <= rows.len(),
    ensures
        with_vectors(t, rows, vectors).thoughts == t.thoughts,
        has_vector(with_vectors(t, rows, vectors), id) <==> has_vector(t, id) || exists|i: int|
            0 <= i < vectors.len() && (#[trigger] rows[i]).id == id,
    decreases vectors.len(),
{
    if vectors.len() > 0 {
        let n = vectors.len() - 1;
        let front = vectors.drop_last();
        law_embedding_makes_progress(t, rows, front, id);
        let u = with_vectors(t, rows, front);
        let after = with_vectors(t, rows, vectors);
        let p = |e: EmbeddingRowView| e.thought_id != rows[n].id;
        let rest = embeddings_besides(u.embeddings, rows[n].id);
        assert(after.embeddings.last().thought_id == rows[n].id);
        if rows[n].id == id {
            assert(after.embeddings[after.embeddings.len() - 1].thought_id == id);
            assert(has_vector(after, id));
        } else {
            if has_vector(u, id) {
                let k = choose|k: int|
                    0 <= k < u.embeddings.len() && (#[trigger] u.embeddings[k]).thought_id == id;
                law_kept_contains(u.embeddings, p, u.embeddings[k]);
                let m = choose|m: int| 0 <= m < rest.len() && rest[m] == u.embeddings[k];
                assert(after.embeddings[m].thought_id == id);
            }
            if has_vector(after, id) {
                let k = choose|k: int|
                    0 <= k < after.embeddings.len() && (#[trigger] after.embeddings[k]).thought_id
                        == id;
                assert(after.embeddings[k] == rest[k]);
                law_kept_contains(u.embeddings, p, rest[k]);
                let m = choose|m: int| 0 <= m < u.embeddings.len() && u.embeddings[m] == rest[k];
                assert(u.embeddings[m].thought_id == id);
            }
        }
    }
}

/// Embedding what is missing catches up: what waits afterwards is what waited
/// before, less the thoughts at the front that were embedded.
pub proof fn law_embedding_catches_up(t: TablesView, limit: nat, vectors: Seq<Seq<u32>>)
    requires
        thoughts_distinct(t.thoughts),
        vectors.len() <= limited(missing(t), limit).len(),
    ensures
        missing(with_vectors(t, limited(missing(t), limit), vectors)) == missing(t).skip(
            vectors.len() as int,
        ),
{
    let all = missing(t);
    let rows = limited(all, limit);
    let n = vectors.len() as int;
    let after = with_vectors(t, rows, vectors);
    let p = |row: ThoughtRowView| live(row) && !has_vector(t, row.id);
    let q = |row: ThoughtRowView|
        !exists|i: int| 0 <= i < n && (#[trigger] rows[i]).id == row.id;
    law_kept_pairwise(t.thoughts, p, apart());
    law_ranked_pairwise::<ThoughtRow, LatestFirst>(kept(t.thoughts, p), apart());
    assert forall|j: int| 0 <= j < all.len() implies q(#[trigger] all[j]) == (j >= n) by {
        if j < n {
            assert(rows[j].id == all[j].id);
        } else if !q(all[j]) {
            let i = choose|i: int| 0 <= i < n && (#[trigger] rows[i]).id == all[j].id;
            assert(apart()(all[i], all[j]));
        }
    }
    law_kept_rest(all, q, n);
    law_ranked_kept::<ThoughtRow, LatestFirst>(kept(t.thoughts, p), q);
    law_kept_both(t.thoughts, p, q);
    law_embedding_makes_progress(t, rows, vectors, Seq::empty());
    assert forall|k: int| 0 <= k < t.thoughts.len() implies (p(#[trigger] t.thoughts[k]) && q(
        t.thoughts[k],
    )) == (live(t.thoughts[k]) && !has_vector(after, t.thoughts[k].id)) by {
        law_embedding_makes_progress(t, rows, vectors, t.thoughts[k].id);
    }
    law_kept_alike(
        t.thoughts,
        |row: ThoughtRowView| p(row) && q(row),
        |row: ThoughtRowView| live(row) && !has_vector(after, row.id),
    );
}

// ---- tags ------------------------------------------------------------------

/// Within ASCII, names that are the same up to ASCII case have one lower case.
proof fn lemma_ascii_names(a: Seq<char>, b: Seq<char>)
    requires
        same_name(a, b),
        ascii_text(a),
    ensures
        lowercased(a) == lowercased(b),
{
    assert(folded(a).len() == folded(b).len());
    assert forall|i: int| 0 <= i < b.len() implies #[trigger] b[i] <= '\u{7f}' && ascii_lower(a[i])
        == ascii_lower(b[i]) by {
        assert(folded(a)[i] == folded(b)[i]);
        assert(a[i] <= '\u{7f}');
    }
    assert(lowercased(a) =~= lowercased(b));
}

/// Filtering by a tag shows exactly the live thoughts whose text has a stored tag
/// with that name, up to case. Among them are the thoughts whose text has the
/// name up to ASCII case, and those that have it up to case where it is of ASCII
/// or stored as it stands in the text.
pub proof fn law_tag_filter(t: TablesView, name: Seq<char>, row: ThoughtRowView)
    requires
        sound(t),
    ensures
        tagged(t, name).contains(row) <==> t.thoughts.contains(row) && live(row) && exists|k: int|
            0 <= k < t.tags.len() && same_tag(#[trigger] t.tags[k], name) && lists(
                tag_list(row.text),
                t.tags[k],
            ),
        t.thoughts.contains(row) && live(row) && lists(tag_list(row.text), name) ==> tagged(
            t,
            name,
        ).contains(row),
        forall|m: int|
            t.thoughts.contains(row) && live(row) && 0 <= m < tag_list(row.text).len() && lowercased(
                #[trigger] tag_list(row.text)[m],
            ) == lowercased(name) && (ascii_text(tag_list(row.text)[m]) || t.tags.contains(
                tag_list(row.text)[m],
            )) ==> tagged(t, name).contains(row),
{
    let p = |row: ThoughtRowView| live(row) && carries_tag(t, row.id, name);
    law_ranked_contains::<ThoughtRow, NewestFirst>(kept(t.thoughts, p), row);
    law_kept_contains(t.thoughts, p, row);
    if t.thoughts.contains(row) && live(row) {
        let i = choose|i: int| 0 <= i < t.thoughts.len() && t.thoughts[i] == row;
        law_found(t.thoughts, i);
        let names = tag_list(row.text);
        assert(mirrored(t, row.id));
        let q = |l: LinkRowView| l.thought_id == row.id && same_tag(l.name, name);
        if carries_tag(t, row.id, name) {
            let k = choose|k: int| 0 <= k < t.links.len() && q(#[trigger] t.links[k]);
            assert(lists(names, t.links[k].name));
            assert(t.tags.contains(t.links[k].name));
            let j = choose|j: int| 0 <= j < t.tags.len() && t.tags[j] == t.links[k].name;
            assert(same_tag(t.tags[j], name) && lists(names, t.tags[j]));
        }
        if exists|k: int|
            0 <= k < t.tags.len() && same_tag(#[trigger] t.tags[k], name) && lists(
                names,
                t.tags[k],
            ) {
            let j = choose|k: int|
                0 <= k < t.tags.len() && same_tag(#[trigger] t.tags[k], name) && lists(
                    names,
                    t.tags[k],
                );
            let m = choose|m: int|
                0 <= m < names.len() && same_name(t.tags[j], #[trigger] names[m]);
            let k = lemma_link_of(t, row, m);
            let h = choose|h: int| 0 <= h < t.tags.len() && t.tags[h] == t.links[k].name;
            let apart = |a: Seq<char>, b: Seq<char>| !same_name(a, b);
            assert(t.tags[h] == t.tags[j]) by {
                assert(same_name(t.tags[h], t.tags[j]));
                if h < j {
                    assert(apart(t.tags[h], t.tags[j]));
                } else if j < h {
                    assert(apart(t.tags[j], t.tags[h]));
                }
            }
            assert(q(t.links[k]));
        }
        if lists(names, name) {
            let m = choose|m: int| 0 <= m < names.len() && same_name(name, #[trigger] names[m]);
            let k = lemma_link_of(t, row, m);
            assert(q(t.links[k]));
        }
        assert forall|m: int|
            0 <= m < names.len() && lowercased(#[trigger] names[m]) == lowercased(name) && (
            ascii_text(names[m]) || t.tags.contains(names[m])) implies tagged(t, name).contains(
            row,
        ) by {
            let k = lemma_link_of(t, row, m);
            if ascii_text(names[m]) {
                lemma_ascii_names(names[m], t.links[k].name);
                assert(q(t.links[k]));
            } else {
                let j = choose|j: int| 0 <= j < t.tags.len() && t.tags[j] == names[m];
                assert(same_tag(t.tags[j], name) && lists(names, t.tags[j])) by {
                    assert(same_name(t.tags[j], names[m]));
                }
            }
        }
    }
}

/// Where a thought's link to one of the tags in its text stands.
proof fn lemma_link_of(t: TablesView, row: ThoughtRowView, m: int) -> (k: int)
    requires
        sound(t),
        t.thoughts.contains(row),
        live(row),
        0 <= m < tag_list(row.text).len(),
    ensures
        0 <= k < t.links.len(),
        t.links[k].thought_id == row.id,
        same_name(t.links[k].name, tag_list(row.text)[m]),
        t.tags.contains(t.links[k].name),
{
    let i = choose|i: int| 0 <= i < t.thoughts.len() && t.thoughts[i] == row;
    law_found(t.thoughts, i);
    assert(mirrored(t, row.id));
    assert(carries(t.links, row.id, tag_list(row.text)[m]));
    choose|k: int|
        0 <= k < t.links.len() && (#[trigger] t.links[k]).thought_id == row.id && same_name(
            t.links[k].name,
            tag_list(row.text)[m],
        )
}

/// Every stored tag is carried by a live thought, so autocomplete offers every
/// one of them.
pub proof fn law_tags_are_used(t: TablesView, i: int)
    requires
        sound(t),
        0 <= i < t.tags.len(),
    ensures
        uses(t, t.tags[i]) > 0,
{
    let name = t.tags[i];
    assert(linked(t.links, name));
    let k = choose|k: int| 0 <= k < t.links.len() && (#[trigger] t.links[k]).name == name;
    let id = t.links[k].thought_id;
    assert(mirrored(t, id));
    assert(find_live(t.thoughts, id) is Some) by {
        if find_live(t.thoughts, id) is None {
            assert(lists(tags_of(t.thoughts, id), t.links[k].name));
        }
    }
    let p = |l: LinkRowView| l.name == name && find_live(t.thoughts, l.thought_id) is Some;
    law_kept_contains(t.links, p, t.links[k]);
    assert(kept(t.links, p).contains(t.links[k]));
}

} // verus!
