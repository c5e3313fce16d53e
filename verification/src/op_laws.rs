//! What the operations give back and change, for every input.

use vstd::prelude::*;
use vstd::utf8::encode_utf8;

use crate::clock::clock_shows;
use crate::embed::TextEmbedder;
use crate::error::{Error, Result};
use crate::ident::Uuid;
use crate::list_laws::{
    behind, carries_row, changed_sooner, law_feed_lists, law_history_lists, law_outbox_lists,
    law_page, law_saved_lists, law_shows, law_shows_changes, law_shows_saved, law_stale_lists,
    law_stream_lists, law_suggested_lists, law_tagged_lists, law_thought_found, letters_before,
    linked_to, lives, reads, same_letter, sooner,
};
use crate::mirror::tags_consistent;
use crate::model::{changed, find_live, find_row};
use crate::query::{
    entries, feed, outbox, shows, shows_changes, stale, stale_before, stream, stream_from,
    suggested, tag_uses, tagged, Cursor, Page,
};
use crate::rank::ranked;
use crate::row_laws::{
    law_acknowledged, law_action_rows, law_applied, law_buried, law_bury_rows, law_created,
    law_edit_rows, law_edited, law_settle, tags_follow, took, vector_set,
};
use crate::rows::{
    kept, law_kept_alike, law_kept_everything, law_limited, law_lists_alike, law_lists_count,
    limited, lists_exactly, seen,
};
use crate::saved_search::SavedSearch;
use crate::search::{
    build_match_query, extract_ranges, law_blank_asks_nothing, law_marks_highlight,
    law_query_reads_back, law_snippet_drops_marks, law_words_are_runs, marks_at, range_between,
    read_query, runs_of, without_marks, words, MatchRange, QueryRead,
};
use crate::sorting::{OldestSavedFirst, TagUseView};
use crate::store::{components, pushes, ThoughtStore};
use crate::sync::{SyncCursor, ThoughtChange, ThoughtChangeView};
use crate::tables::{
    affected, HistoryRowView, RowChangeView, SavedRow, SavedRowView, TablesView, ThoughtRowView,
};
use crate::tags::{law_tags_stand_in_the_text, parse_tags, stands, tag_list};
use crate::text::{lowercased, whitespace};
use crate::thought::{EditEntry, Thought};

verus! {

/// A query is built from every text with a word, and asks for all of its words:
/// read back, it has a phrase for each, in order, which is the word itself, and the
/// last of them is a prefix. The words are the stretches of the text without
/// whitespace.
pub proof fn law_query_asks_for_every_word(text: &str, r: Option<String>) -> (at: Seq<(int, int)>)
    requires
        call_ensures(build_match_query, (text,), r),
    ensures
        runs_of(text@, at),
        r is None <==> forall|i: int| 0 <= i < text@.len() ==> whitespace(#[trigger] text@[i]),
        r matches Some(q) ==> read_query(
            QueryRead::Between { phrases: Seq::empty() },
            q@,
        ) == (QueryRead::Prefix {
            phrases: Seq::new(at.len(), |k: int| text@.subrange(at[k].0, at[k].1)),
        }),
{
    let at = law_words_are_runs(text@);
    law_blank_asks_nothing(text@);
    if r is Some {
        law_query_reads_back(text@);
        assert(words(text@) =~= Seq::new(
            at.len(),
            |k: int| text@.subrange(at[k].0, at[k].1),
        ));
    }
    at
}

/// Reading a marked snippet gives the text without the marks, and one range for
/// each start mark and end mark with no mark between them, in order, which covers
/// the bytes between the two.
pub proof fn law_ranges_cover_what_is_marked(marked: &str, r: (String, Vec<MatchRange>)) -> (at:
    Seq<(int, int)>)
    requires
        call_ensures(extract_ranges, (marked,), r),
        encode_utf8(marked@).len() <= usize::MAX,
    ensures
        r.0@ == without_marks(marked@),
        r.1@.len() == at.len(),
        forall|k: int|
            0 <= k < at.len() ==> marks_at(marked@, (#[trigger] at[k]).0, at[k].1)
                && range_between(marked@, r.1@[k], at[k].0, at[k].1),
        forall|k: int, m: int|
            0 <= k < m < at.len() ==> (#[trigger] at[k]).1 < (#[trigger] at[m]).0,
        forall|m: int, e: int| #[trigger] marks_at(marked@, m, e) ==> at.contains((m, e)),
{
    law_snippet_drops_marks(marked@);
    law_marks_highlight(marked@)
}

/// The tags of a text are the names that stand in it as tags, each with the case
/// and at the place of its first occurrence up to case, in order, and all of them.
pub proof fn law_tags_found(text: &str, tags: Vec<String>) -> (at: Seq<int>)
    requires
        call_ensures(parse_tags, (text,), tags),
    ensures
        at.len() == tags@.len(),
        forall|k: int| 0 <= k < at.len() ==> stands(text@, #[trigger] at[k], tags@[k]@),
        forall|k: int, m: int| 0 <= k < m < at.len() ==> #[trigger] at[k] < #[trigger] at[m],
        forall|k: int, i: int, name: Seq<char>|
            0 <= k < at.len() && i < #[trigger] at[k] && #[trigger] stands(text@, i, name)
                ==> lowercased(name) != lowercased(tags@[k]@),
        forall|i: int, name: Seq<char>| #[trigger]
            stands(text@, i, name) ==> exists|k: int|
                0 <= k < at.len() && lowercased((#[trigger] tags@[k])@) == lowercased(name),
{
    let all = tag_list(text@);
    let at = law_tags_stand_in_the_text(text@);
    assert(seen(tags@) == all);
    assert forall|k: int| 0 <= k < at.len() implies #[trigger] all[k] == tags@[k]@ by {
        assert(seen(tags@)[k] == tags@[k]@);
    }
    assert forall|k: int| 0 <= k < at.len() implies stands(
        text@,
        #[trigger] at[k],
        tags@[k]@,
    ) by {
        assert(all[k] == tags@[k]@);
    }
    assert forall|k: int, i: int, name: Seq<char>|
        0 <= k < at.len() && i < #[trigger] at[k] && #[trigger] stands(
            text@,
            i,
            name,
        ) implies lowercased(name) != lowercased(tags@[k]@) by {
        assert(all[k] == tags@[k]@);
    }
    assert forall|i: int, name: Seq<char>| #[trigger] stands(text@, i, name) implies exists|k: int|
        0 <= k < at.len() && lowercased((#[trigger] tags@[k])@) == lowercased(name) by {
        let k = choose|k: int|
            0 <= k < at.len() && lowercased(#[trigger] all[k]) == lowercased(name);
        assert(all[k] == tags@[k]@);
    }
    at
}

/// The edit history of a thought that is no tombstone shows exactly the history
/// rows of that thought, each as often as it is there, in the order of the times
/// at which they were archived, with text and time. Of any other there is none.
pub proof fn law_edit_history<E: TextEmbedder>(
    store: ThoughtStore<E>,
    id: Uuid,
    r: Result<Vec<EditEntry>>,
) -> (at: Seq<int>)
    requires
        call_ensures(ThoughtStore::<E>::edit_history, (&store, id), r),
    ensures
        r is Ok <==> lives(store@.thoughts, id@),
        r matches Err(e) ==> e == (Error::NotFound { id }),
        r matches Ok(out) ==> {
            let history = store@.history;
            &&& out@.len() == at.len()
            &&& out@.len() == history.to_multiset().filter(
                |row: HistoryRowView| row.thought_id == id@,
            ).len()
            &&& forall|k: int|
                0 <= k < at.len() ==> {
                    let row = history[#[trigger] at[k]];
                    &&& 0 <= at[k] < history.len() && row.thought_id == id@
                    &&& out@[k].text@ == row.text && out@[k].archived_at == row.archived_at
                }
            &&& forall|i: int|
                0 <= i < history.len() && (#[trigger] history[i]).thought_id == id@
                    ==> at.contains(i)
            &&& forall|k: int, m: int|
                0 <= k < m < at.len() ==> #[trigger] at[k] != #[trigger] at[m]
                    && out@[k].archived_at <= out@[m].archived_at
        },
{
    law_thought_found(store@.thoughts, id@);
    let history = store@.history;
    let all = entries(history, id@);
    let at = law_history_lists(history, id@);
    let p = |row: HistoryRowView| row.thought_id == id@;
    if r is Ok {
        let out = r.unwrap();
        assert(seen(out@).len() == all.len());
        assert forall|k: int| 0 <= k < at.len() implies ({
            let row = history[#[trigger] at[k]];
            &&& 0 <= at[k] < history.len() && row.thought_id == id@
            &&& out@[k].text@ == row.text && out@[k].archived_at == row.archived_at
        }) by {
            assert(seen(out@)[k] == out@[k]@);
            assert(p(history[at[k]]) && all[k] == history[at[k]]);
        }
        assert forall|i: int| 0 <= i < history.len() && (
        #[trigger] history[i]).thought_id == id@ implies at.contains(i) by {
            assert(p(history[i]));
        }
        assert forall|k: int, m: int| 0 <= k < m < at.len() implies #[trigger] at[k]
            != #[trigger] at[m] && out@[k].archived_at <= out@[m].archived_at by {
            assert(all[k].archived_at <= all[m].archived_at);
            assert(history[at[k]] == all[k] && history[at[m]] == all[m]);
        }
    }
    at
}

/// A thought is read by its identifier exactly where it is there and no tombstone.
pub proof fn law_get_thought<E: TextEmbedder>(
    store: ThoughtStore<E>,
    id: Uuid,
    now: i64,
    r: Result<Thought>,
)
    requires
        call_ensures(ThoughtStore::<E>::get_thought, (&store, id, now), r),
    ensures
        r is Ok <==> lives(store@.thoughts, id@),
        r matches Err(e) ==> e == (Error::NotFound { id }),
        r matches Ok(thought) ==> exists|i: int|
            0 <= i < store@.thoughts.len() && (#[trigger] store@.thoughts[i]).id == id@
                && store@.thoughts[i].deleted_at is None && reads(thought, store@.thoughts[i], now),
{
    law_thought_found(store@.thoughts, id@);
    if r is Ok {
        let row = find_live(store@.thoughts, id@).unwrap();
        let thought = r.unwrap();
        let i = choose|i: int|
            0 <= i < store@.thoughts.len() && #[trigger] store@.thoughts[i] == row && forall|j: int|
                0 <= j < i ==> (#[trigger] store@.thoughts[j]).id != id@
                    || store@.thoughts[j].deleted_at is Some;
        assert(thought@.text == thought.text@ && thought@.created_at == thought.created_at);
        assert(reads(thought, store@.thoughts[i], now));
    }
}

// ---- listings --------------------------------------------------------------

/// The rows at these places, in this order.
pub open spec fn rows_at<V>(rows: Seq<V>, at: Seq<int>) -> Seq<V> {
    Seq::new(at.len(), |k: int| rows[at[k]])
}

proof fn lemma_rows_at<V>(
    out: Seq<V>,
    rows: Seq<V>,
    p: spec_fn(V) -> bool,
    before: spec_fn(V, V) -> bool,
    at: Seq<int>,
)
    requires
        lists_exactly(out, rows, p, before, at),
    ensures
        out == rows_at(rows, at),
{
    assert forall|k: int| 0 <= k < at.len() implies out[k] == rows[#[trigger] at[k]] by {
    }
    assert(out =~= rows_at(rows, at));
}

/// What is listed of these rows: the first of them, as many as the limit allows,
/// as readers see them. A row with a damaged identifier among them makes it fail.
pub open spec fn lists_thoughts(
    r: Result<Vec<Thought>>,
    rows: Seq<ThoughtRowView>,
    limit: nat,
    now: i64,
) -> bool {
    let n = if rows.len() <= limit {
        rows.len()
    } else {
        limit
    };
    &&& r is Ok <==> forall|i: int| 0 <= i < n ==> (#[trigger] rows[i]).id.len() == 16
    &&& r matches Ok(out) ==> out@.len() == n && forall|i: int|
        0 <= i < n ==> reads(#[trigger] out@[i], rows[i], now)
}

proof fn lemma_lists_thoughts(
    r: Result<Vec<Thought>>,
    rows: Seq<ThoughtRowView>,
    limit: nat,
    now: i64,
)
    requires
        shows(r, limited(rows, limit), now),
    ensures
        lists_thoughts(r, rows, limit, now),
{
    let shown = limited(rows, limit);
    law_shows(r, shown, now);
    law_limited(rows, limit);
    if r is Ok {
        assert forall|i: int| 0 <= i < shown.len() implies (#[trigger] rows[i]).id.len() == 16 by {
            assert(shown[i] == rows[i]);
        }
        let out = r.unwrap();
        assert forall|i: int| 0 <= i < shown.len() implies reads(
            #[trigger] out@[i],
            rows[i],
            now,
        ) by {
            assert(shown[i] == rows[i]);
        }
    } else {
        let i = choose|i: int| 0 <= i < shown.len() && (#[trigger] shown[i]).id.len() != 16;
        assert(shown[i] == rows[i]);
    }
}

/// The list shows every thought that is no tombstone, the latest captured first.
pub proof fn law_list_at<E: TextEmbedder>(
    store: ThoughtStore<E>,
    now: i64,
    r: Result<Vec<Thought>>,
) -> (at: Seq<int>)
    requires
        call_ensures(ThoughtStore::<E>::list_at, (&store, now), r),
    ensures
        lists_exactly(
            rows_at(store@.thoughts, at),
            store@.thoughts,
            |row: ThoughtRowView| row.deleted_at is None,
            |a: ThoughtRowView, b: ThoughtRowView| sooner(b.created_at, b.id, a.created_at, a.id),
            at,
        ),
        lists_thoughts(r, rows_at(store@.thoughts, at), at.len(), now),
{
    let rows = store@.thoughts;
    let at = law_stream_lists(rows, None);
    let p = |row: ThoughtRowView|
        row.deleted_at is None && (None::<Cursor> matches Some(c) ==> behind(row, c));
    let q = |row: ThoughtRowView| row.deleted_at is None;
    let order = |a: ThoughtRowView, b: ThoughtRowView|
        sooner(b.created_at, b.id, a.created_at, a.id);
    lemma_rows_at(stream_from(rows, None), rows, p, order, at);
    law_lists_alike(stream_from(rows, None), rows, p, order, q, order, at);
    law_limited(stream(rows), at.len());
    lemma_lists_thoughts(r, stream(rows), at.len(), now);
    at
}

/// The stale thoughts are those that are no tombstones, not dealt with and were
/// modified longer ago than was asked for; the longest untouched first, up to the
/// limit.
pub proof fn law_list_stale_at<E: TextEmbedder>(
    store: ThoughtStore<E>,
    older_than_ms: i64,
    limit: usize,
    now: i64,
    r: Result<Vec<Thought>>,
) -> (at: Seq<int>)
    requires
        call_ensures(ThoughtStore::<E>::list_stale_at, (&store, older_than_ms, limit, now), r),
    ensures
        lists_exactly(
            rows_at(store@.thoughts, at),
            store@.thoughts,
            |row: ThoughtRowView|
                row.deleted_at is None && row.actioned_at is None && now - row.updated_at
                    > older_than_ms && row.updated_at < i64::MAX,
            |a: ThoughtRowView, b: ThoughtRowView| changed_sooner(a, b),
            at,
        ),
        lists_thoughts(r, rows_at(store@.thoughts, at), limit as nat, now),
{
    let rows = store@.thoughts;
    let at = law_stale_lists(rows, now, older_than_ms);
    let all = stale(rows, stale_before(now, older_than_ms));
    lemma_rows_at(
        all,
        rows,
        |row: ThoughtRowView|
            row.deleted_at is None && row.actioned_at is None && now - row.updated_at
                > older_than_ms && row.updated_at < i64::MAX,
        |a: ThoughtRowView, b: ThoughtRowView| changed_sooner(a, b),
        at,
    );
    lemma_lists_thoughts(r, all, limit as nat, now);
    at
}

/// The thoughts with a tag are those that are no tombstones and linked to it up to
/// case, in the order of the stream, up to the limit.
pub proof fn law_thoughts_with_tag_at<E: TextEmbedder>(
    store: ThoughtStore<E>,
    name: &str,
    limit: usize,
    now: i64,
    r: Result<Vec<Thought>>,
) -> (at: Seq<int>)
    requires
        call_ensures(ThoughtStore::<E>::thoughts_with_tag_at, (&store, name, limit, now), r),
    ensures
        lists_exactly(
            rows_at(store@.thoughts, at),
            store@.thoughts,
            |row: ThoughtRowView| row.deleted_at is None && linked_to(store@, row.id, name@),
            |a: ThoughtRowView, b: ThoughtRowView| sooner(b.created_at, b.id, a.created_at, a.id),
            at,
        ),
        lists_thoughts(r, rows_at(store@.thoughts, at), limit as nat, now),
{
    let at = law_tagged_lists(store@, name@);
    let all = tagged(store@, name@);
    lemma_rows_at(
        all,
        store@.thoughts,
        |row: ThoughtRowView| row.deleted_at is None && linked_to(store@, row.id, name@),
        |a: ThoughtRowView, b: ThoughtRowView| sooner(b.created_at, b.id, a.created_at, a.id),
        at,
    );
    lemma_lists_thoughts(r, all, limit as nat, now);
    at
}

/// A page shows what comes next in the stream from a cursor on: the thoughts that
/// are no tombstones and come behind it, the latest captured first, as many as were
/// asked for. There is a cursor to go on from exactly where more follow.
pub proof fn law_list_paginated_at<E: TextEmbedder>(
    store: ThoughtStore<E>,
    before: Option<Cursor>,
    limit: usize,
    now: i64,
    r: Result<Page>,
) -> (at: Seq<int>)
    requires
        call_ensures(ThoughtStore::<E>::list_paginated_at, (&store, before, limit, now), r),
    ensures
        lists_exactly(
            rows_at(store@.thoughts, at),
            store@.thoughts,
            |row: ThoughtRowView|
                row.deleted_at is None && (before matches Some(c) ==> behind(row, c)),
            |a: ThoughtRowView, b: ThoughtRowView| sooner(b.created_at, b.id, a.created_at, a.id),
            at,
        ),
        r matches Ok(page) ==> {
            let rest = rows_at(store@.thoughts, at);
            &&& page.thoughts@.len() == if rest.len() <= limit {
                rest.len() as int
            } else {
                limit as int
            }
            &&& forall|i: int|
                0 <= i < page.thoughts@.len() ==> reads(
                    #[trigger] page.thoughts@[i],
                    rest[i],
                    now,
                )
            &&& page.next_cursor is Some <==> rest.len() > limit
            &&& page.next_cursor is Some && limit > 0 ==> page.next_cursor.unwrap().created_at
                == rest[limit - 1].created_at && page.next_cursor.unwrap().id@ == rest[limit - 1].id
        },
{
    let rows = store@.thoughts;
    let at = law_stream_lists(rows, before);
    lemma_rows_at(
        stream_from(rows, before),
        rows,
        |row: ThoughtRowView| row.deleted_at is None && (before matches Some(c) ==> behind(row, c)),
        |a: ThoughtRowView, b: ThoughtRowView| sooner(b.created_at, b.id, a.created_at, a.id),
        at,
    );
    law_page(r, rows, before, limit, now);
    at
}

/// The tags that are suggested are those in use that start with the prefix up to
/// ASCII case, the most used first and then by their letters, up to the limit.
pub proof fn law_tags_with_prefix<E: TextEmbedder>(
    store: ThoughtStore<E>,
    prefix: &str,
    limit: usize,
    r: Result<Vec<String>>,
) -> (at: Seq<int>)
    requires
        call_ensures(ThoughtStore::<E>::tags_with_prefix, (&store, prefix, limit), r),
    ensures
        r is Ok,
        lists_exactly(
            rows_at(tag_uses(store@), at),
            tag_uses(store@),
            |u: TagUseView|
                u.uses > 0 && prefix@.len() <= u.name.len() && forall|i: int|
                    0 <= i < prefix@.len() ==> same_letter(#[trigger] u.name[i], prefix@[i]),
            |a: TagUseView, b: TagUseView|
                a.uses > b.uses || (a.uses == b.uses && letters_before(a.name, b.name)),
            at,
        ),
        r.unwrap()@.len() == if at.len() <= limit {
            at.len() as int
        } else {
            limit as int
        },
        forall|k: int|
            0 <= k < r.unwrap()@.len() ==> (#[trigger] r.unwrap()@[k])@ == store@.tags[at[k]],
{
    let t = store@;
    let at = law_suggested_lists(t, prefix@);
    let all = suggested(t, prefix@);
    let shown = limited(all, limit as nat);
    lemma_rows_at(
        all,
        tag_uses(t),
        |u: TagUseView|
            u.uses > 0 && prefix@.len() <= u.name.len() && forall|i: int|
                0 <= i < prefix@.len() ==> same_letter(#[trigger] u.name[i], prefix@[i]),
        |a: TagUseView, b: TagUseView|
            a.uses > b.uses || (a.uses == b.uses && letters_before(a.name, b.name)),
        at,
    );
    law_limited(all, limit as nat);
    let out = r.unwrap();
    assert(seen(out@).len() == shown.len());
    assert forall|k: int| 0 <= k < out@.len() implies (#[trigger] out@[k])@ == t.tags[at[k]] by {
        assert(seen(out@)[k] == out@[k]@);
        assert(shown[k] == all[k]);
        assert(0 <= at[k] < tag_uses(t).len());
        assert(all[k] == rows_at(tag_uses(t), at)[k]);
        assert(tag_uses(t)[at[k]].name == t.tags[at[k]]);
    }
    at
}

/// What is handed out of these rows: the first of them, as many as the limit
/// allows, with every column. A row with a damaged identifier makes it fail.
pub open spec fn lists_changes(
    r: Result<Vec<ThoughtChange>>,
    rows: Seq<ThoughtRowView>,
    limit: nat,
) -> bool {
    let n = if rows.len() <= limit {
        rows.len()
    } else {
        limit
    };
    &&& r is Ok <==> forall|i: int| 0 <= i < n ==> (#[trigger] rows[i]).id.len() == 16
    &&& r matches Ok(out) ==> out@.len() == n && forall|i: int|
        0 <= i < n ==> carries_row(#[trigger] out@[i], rows[i])
}

proof fn lemma_lists_changes(
    r: Result<Vec<ThoughtChange>>,
    rows: Seq<ThoughtRowView>,
    limit: nat,
)
    requires
        shows_changes(r, limited(rows, limit)),
    ensures
        lists_changes(r, rows, limit),
{
    let shown = limited(rows, limit);
    law_shows_changes(r, shown);
    law_limited(rows, limit);
    if r is Ok {
        assert forall|i: int| 0 <= i < shown.len() implies (#[trigger] rows[i]).id.len() == 16 by {
            assert(shown[i] == rows[i]);
        }
        let out = r.unwrap();
        assert forall|i: int| 0 <= i < shown.len() implies carries_row(
            #[trigger] out@[i],
            rows[i],
        ) by {
            assert(shown[i] == rows[i]);
        }
    } else {
        let i = choose|i: int| 0 <= i < shown.len() && (#[trigger] shown[i]).id.len() != 16;
        assert(shown[i] == rows[i]);
    }
}

/// What is pending are the rows that are dirty, tombstones among them, the earliest
/// modified first, up to the limit.
pub proof fn law_pending_changes<E: TextEmbedder>(
    store: ThoughtStore<E>,
    limit: usize,
    r: Result<Vec<ThoughtChange>>,
) -> (at: Seq<int>)
    requires
        call_ensures(ThoughtStore::<E>::pending_changes, (&store, limit), r),
    ensures
        lists_exactly(
            rows_at(store@.thoughts, at),
            store@.thoughts,
            |row: ThoughtRowView| row.dirty,
            |a: ThoughtRowView, b: ThoughtRowView| changed_sooner(a, b),
            at,
        ),
        lists_changes(r, rows_at(store@.thoughts, at), limit as nat),
{
    let at = law_outbox_lists(store@.thoughts);
    let all = outbox(store@.thoughts);
    lemma_rows_at(
        all,
        store@.thoughts,
        |row: ThoughtRowView| row.dirty,
        |a: ThoughtRowView, b: ThoughtRowView| changed_sooner(a, b),
        at,
    );
    lemma_lists_changes(r, all, limit as nat);
    at
}

/// The changes since a cursor are the rows modified after it, tombstones among them,
/// the earliest modified first, up to the limit; without a cursor, all rows.
pub proof fn law_changes_since<E: TextEmbedder>(
    store: ThoughtStore<E>,
    since: Option<SyncCursor>,
    limit: usize,
    r: Result<Vec<ThoughtChange>>,
) -> (at: Seq<int>)
    requires
        call_ensures(ThoughtStore::<E>::changes_since, (&store, since, limit), r),
    ensures
        lists_exactly(
            rows_at(store@.thoughts, at),
            store@.thoughts,
            |row: ThoughtRowView|
                since matches Some(c) ==> sooner(c.updated_at, c.id@, row.updated_at, row.id),
            |a: ThoughtRowView, b: ThoughtRowView| changed_sooner(a, b),
            at,
        ),
        lists_changes(r, rows_at(store@.thoughts, at), limit as nat),
{
    let at = law_feed_lists(store@.thoughts, since);
    let all = feed(store@.thoughts, since);
    lemma_rows_at(
        all,
        store@.thoughts,
        |row: ThoughtRowView|
            since matches Some(c) ==> sooner(c.updated_at, c.id@, row.updated_at, row.id),
        |a: ThoughtRowView, b: ThoughtRowView| changed_sooner(a, b),
        at,
    );
    lemma_lists_changes(r, all, limit as nat);
    at
}

/// The saved searches are listed all, the earliest saved first, each as it was
/// saved.
pub proof fn law_list_saved_searches<E: TextEmbedder>(
    store: ThoughtStore<E>,
    r: Result<Vec<SavedSearch>>,
) -> (at: Seq<int>)
    requires
        call_ensures(ThoughtStore::<E>::list_saved_searches, (&store,), r),
    ensures
        lists_exactly(
            rows_at(store@.saved, at),
            store@.saved,
            |row: SavedRowView| true,
            |a: SavedRowView, b: SavedRowView| sooner(a.created_at, a.id, b.created_at, b.id),
            at,
        ),
        r is Ok <==> forall|i: int|
            0 <= i < store@.saved.len() ==> (#[trigger] store@.saved[i]).id.len() == 16,
        r matches Ok(out) ==> out@.len() == store@.saved.len() && forall|k: int|
            0 <= k < at.len() ==> {
                let row = store@.saved[#[trigger] at[k]];
                &&& out@[k].id@ == row.id && out@[k].name@ == row.name
                &&& out@[k].query@ == row.query && out@[k].created_at == row.created_at
            },
{
    let saved = store@.saved;
    let at = law_saved_lists(saved);
    let all = ranked::<SavedRow, OldestSavedFirst>(saved);
    let every = |row: SavedRowView| true;
    let order = |a: SavedRowView, b: SavedRowView| sooner(a.created_at, a.id, b.created_at, b.id);
    lemma_rows_at(all, saved, every, order, at);
    law_shows_saved(r, all);
    law_lists_count(all, saved, every, order, at);
    law_kept_everything(saved);
    law_kept_alike(saved, every, |row: SavedRowView| true);
    if r is Ok {
        assert forall|i: int| 0 <= i < saved.len() implies (#[trigger] saved[i]).id.len()
            == 16 by {
            assert(every(saved[i]));
            let k = choose|k: int| 0 <= k < at.len() && at[k] == i;
            assert(all[k] == saved[at[k]]);
            assert(all[k].id.len() == 16);
        }
        let out = r.unwrap();
        assert forall|k: int| 0 <= k < at.len() implies ({
            let row = saved[#[trigger] at[k]];
            &&& out@[k].id@ == row.id && out@[k].name@ == row.name
            &&& out@[k].query@ == row.query && out@[k].created_at == row.created_at
        }) by {
            assert(all[k] == saved[at[k]]);
            assert(out@[k].id@ == all[k].id);
        }
    } else {
        let k = choose|k: int| 0 <= k < all.len() && (#[trigger] all[k]).id.len() != 16;
        assert(0 <= at[k] < saved.len() && all[k] == saved[at[k]]);
    }
    at
}

// ---- operations that change the store --------------------------------------

/// Every thought that is no tombstone is settled, at the given time where it was
/// not before; nothing else has changed; and `n` is how many were not.
pub open spec fn all_settled(before: TablesView, after: TablesView, at: i64, n: int) -> bool {
    &&& after.thoughts.len() == before.thoughts.len()
    &&& forall|i: int|
        0 <= i < after.thoughts.len() && (#[trigger] after.thoughts[i]).deleted_at is None
            ==> after.thoughts[i].settled_at is Some
    &&& forall|i: int|
        0 <= i < before.thoughts.len() ==> {
            let row = before.thoughts[i];
            let new = #[trigger] after.thoughts[i];
            &&& new.id == row.id && new.text == row.text && new.created_at == row.created_at
            &&& new.updated_at == row.updated_at && new.deleted_at == row.deleted_at
            &&& new.actioned_at == row.actioned_at && new.dirty == row.dirty
            &&& new.settled_at == if row.deleted_at is None && row.settled_at is None {
                Some(at)
            } else {
                row.settled_at
            }
        }
    &&& n == before.thoughts.to_multiset().filter(
        |row: ThoughtRowView| row.deleted_at is None && row.settled_at is None,
    ).len()
    &&& after.history == before.history && after.embeddings == before.embeddings
    &&& after.tags == before.tags && after.links == before.links && after.saved == before.saved
}

/// Settling at a time settles every thought that is no tombstone, whatever its
/// other columns hold, and returns how many were not settled before.
pub proof fn law_settle_all_live_at<E: TextEmbedder>(now: i64, n: usize)
    ensures
        forall|m: &mut ThoughtStore<E>| #[trigger]
            call_ensures(ThoughtStore::<E>::settle_all_live_at, (m, now), n) ==> all_settled(
                (*m)@,
                final(m)@,
                now,
                n as int,
            ),
{
    assert forall|m: &mut ThoughtStore<E>| #[trigger]
        call_ensures(ThoughtStore::<E>::settle_all_live_at, (m, now), n) implies all_settled(
        (*m)@,
        final(m)@,
        now,
        n as int,
    ) by {
        let hit = law_settle((*m)@.thoughts, now);
    }
}

/// Settling settles every thought that is no tombstone at the time of the clock,
/// and returns how many were not settled before; where the clock failed nothing
/// changes.
pub proof fn law_settle_all_live<E: TextEmbedder>(r: Result<usize>)
    ensures
        forall|m: &mut ThoughtStore<E>| #[trigger]
            call_ensures(ThoughtStore::<E>::settle_all_live, (m,), r) ==> match r {
                Ok(n) => exists|at: i64| #[trigger] all_settled((*m)@, final(m)@, at, n as int),
                Err(e) => e is Clock && final(m)@ == (*m)@,
            },
{
    assert forall|m: &mut ThoughtStore<E>| #[trigger]
        call_ensures(ThoughtStore::<E>::settle_all_live, (m,), r) implies match r {
        Ok(n) => exists|at: i64| #[trigger] all_settled((*m)@, final(m)@, at, n as int),
        Err(e) => e is Clock && final(m)@ == (*m)@,
    } by {
        if r is Ok {
            let at = choose|at: i64|
                #![trigger changed((*m)@, RowChangeView::Settle { at })]
                clock_shows(at) && final(m)@ == changed((*m)@, RowChangeView::Settle { at })
                    && r.unwrap() == affected((*m)@.thoughts, RowChangeView::Settle { at });
            let hit = law_settle((*m)@.thoughts, at);
            assert(all_settled((*m)@, final(m)@, at, r.unwrap() as int));
        }
    }
}

/// Of the saved searches exactly those with another identifier are left, as they
/// stand, and nothing else has changed.
pub open spec fn saved_gone(before: TablesView, after: TablesView, id: Seq<u8>) -> bool {
    &&& after.saved == kept(before.saved, |row: SavedRowView| row.id != id)
    &&& after.thoughts == before.thoughts && after.history == before.history
    &&& after.embeddings == before.embeddings
    &&& after.tags == before.tags && after.links == before.links
}

/// Deleting a saved search leaves every other one, as it stands, and touches
/// nothing else.
pub proof fn law_delete_saved_search<E: TextEmbedder>(id: Uuid, r: Result<()>)
    ensures
        forall|m: &mut ThoughtStore<E>| #[trigger]
            call_ensures(ThoughtStore::<E>::delete_saved_search, (m, id), r) ==> r is Ok
                && saved_gone((*m)@, final(m)@, id@),
{
}

/// A thought that was pushed is no longer dirty where it has not been modified
/// since, and nothing else changes.
pub open spec fn all_acknowledged(
    before: TablesView,
    after: TablesView,
    pushed: Seq<(Uuid, i64)>,
) -> bool {
    &&& after.thoughts.len() == before.thoughts.len()
    &&& forall|i: int|
        0 <= i < before.thoughts.len() ==> {
            let row = before.thoughts[i];
            let new = #[trigger] after.thoughts[i];
            &&& new.id == row.id && new.text == row.text && new.created_at == row.created_at
            &&& new.updated_at == row.updated_at && new.settled_at == row.settled_at
            &&& new.deleted_at == row.deleted_at && new.actioned_at == row.actioned_at
            &&& new.dirty <==> row.dirty && !was_pushed(pushed, row)
        }
    &&& after == (TablesView { thoughts: after.thoughts, ..before })
}

/// The row was pushed as it is.
pub open spec fn was_pushed(pushed: Seq<(Uuid, i64)>, row: ThoughtRowView) -> bool {
    exists|k: int|
        0 <= k < pushed.len() && (#[trigger] pushed[k]).0@ == row.id && pushed[k].1
            == row.updated_at
}

/// Acknowledging what was pushed clears exactly the rows that were.
pub proof fn law_mark_synced<E: TextEmbedder>(pushed: &Vec<(Uuid, i64)>, r: Result<()>)
    ensures
        forall|m: &mut ThoughtStore<E>| #[trigger]
            call_ensures(ThoughtStore::<E>::mark_synced, (m, pushed), r) ==> r is Ok
                && all_acknowledged((*m)@, final(m)@, pushed@),
{
    assert forall|m: &mut ThoughtStore<E>| #[trigger]
        call_ensures(ThoughtStore::<E>::mark_synced, (m, pushed), r) implies r is Ok
        && all_acknowledged((*m)@, final(m)@, pushed@) by {
        let before = (*m)@;
        let keys = pushes(pushed@);
        law_acknowledged(before, keys);
        assert forall|i: int| 0 <= i < before.thoughts.len() implies keys.contains(
            ((#[trigger] before.thoughts[i]).id, before.thoughts[i].updated_at),
        ) == was_pushed(pushed@, before.thoughts[i]) by {
            let row = before.thoughts[i];
            if keys.contains((row.id, row.updated_at)) {
                let k = choose|k: int| 0 <= k < keys.len() && keys[k] == (row.id, row.updated_at);
                assert(pushed@[k].0@ == row.id);
            }
            if was_pushed(pushed@, row) {
                let k = choose|k: int|
                    0 <= k < pushed@.len() && (#[trigger] pushed@[k]).0@ == row.id && pushed@[k].1
                        == row.updated_at;
                assert(keys[k] == (row.id, row.updated_at));
            }
        }
    }
}

/// There is one row more, of a new thought with this text, and its tags and vector;
/// nothing else has changed.
pub open spec fn captured(
    before: TablesView,
    after: TablesView,
    id: Seq<u8>,
    text: Seq<char>,
    now: i64,
    vector: Option<Seq<u32>>,
) -> bool {
    let row = after.thoughts.last();
    &&& after.thoughts.len() == before.thoughts.len() + 1
    &&& after.thoughts.drop_last() == before.thoughts
    &&& row.id == id && row.text == text && row.created_at == now && row.updated_at == now
    &&& row.settled_at is None && row.deleted_at is None && row.actioned_at is None && row.dirty
    &&& after.history == before.history && after.saved == before.saved
    &&& vector is None ==> after.embeddings == before.embeddings
    &&& vector is Some ==> vector_set(before.embeddings, after.embeddings, id, vector)
    &&& tags_follow(before, after, id, text)
}

/// Capturing a thought succeeds exactly where no row has its identifier, and then
/// stores it with its text, time, tags and vector, and returns it.
pub proof fn law_create_at<E: TextEmbedder>(
    id: Uuid,
    text: &str,
    now: i64,
    vector: Option<Vec<u32>>,
    r: Result<Thought>,
)
    ensures
        forall|m: &mut ThoughtStore<E>|
            tags_consistent((*m)@) && #[trigger] call_ensures(
                ThoughtStore::<E>::create_at,
                (m, id, text, now, vector),
                r,
            ) ==> match r {
                Ok(thought) => {
                    &&& has_no_row((*m)@.thoughts, id@)
                    &&& captured((*m)@, final(m)@, id@, text@, now, components(vector))
                    &&& thought.id == id && thought.text@ == text@ && thought.created_at == now
                    &&& thought.updated_at == now && !thought.is_settled && !thought.is_actioned
                },
                Err(_) => !has_no_row((*m)@.thoughts, id@) && final(m)@ == (*m)@,
            },
{
    assert forall|m: &mut ThoughtStore<E>|
        tags_consistent((*m)@) && #[trigger] call_ensures(
            ThoughtStore::<E>::create_at,
            (m, id, text, now, vector),
            r,
        ) implies match r {
        Ok(thought) => {
            &&& has_no_row((*m)@.thoughts, id@)
            &&& captured((*m)@, final(m)@, id@, text@, now, components(vector))
            &&& thought.id == id && thought.text@ == text@ && thought.created_at == now
            &&& thought.updated_at == now && !thought.is_settled && !thought.is_actioned
        },
        Err(_) => !has_no_row((*m)@.thoughts, id@) && final(m)@ == (*m)@,
    } by {
        let before = (*m)@;
        law_thought_found(before.thoughts, id@);
        if r is Ok {
            let thought = r.unwrap();
            law_created(before, id@, text@, now, components(vector));
            let after = final(m)@;
            assert(after.thoughts.drop_last() =~= before.thoughts);
            assert(thought@.text == thought.text@ && thought@.created_at == thought.created_at);
            assert(thought@.updated_at == thought.updated_at);
            assert(thought@.is_settled == thought.is_settled);
            assert(thought@.is_actioned == thought.is_actioned);
        }
    }
}

/// No row has this identifier.
pub open spec fn has_no_row(rows: Seq<ThoughtRowView>, id: Seq<u8>) -> bool {
    forall|i: int| 0 <= i < rows.len() ==> (#[trigger] rows[i]).id != id
}

/// The rows of the thought have the new text and time and are unsettled and dirty;
/// all other rows are as they were.
pub open spec fn rewritten(
    before: Seq<ThoughtRowView>,
    after: Seq<ThoughtRowView>,
    id: Seq<u8>,
    text: Seq<char>,
    now: i64,
) -> bool {
    &&& after.len() == before.len()
    &&& forall|i: int|
        0 <= i < before.len() ==> {
            let row = before[i];
            let new = #[trigger] after[i];
            if row.id == id {
                &&& new.id == id && new.text == text && new.created_at == row.created_at
                &&& new.updated_at == now && new.settled_at is None && new.dirty
                &&& new.deleted_at == row.deleted_at && new.actioned_at == row.actioned_at
            } else {
                new == row
            }
        }
}

/// The old text of the thought is archived exactly where it had settled: had been
/// settled, or was last modified more than an hour before.
pub open spec fn archived_where_settled(
    before: Seq<HistoryRowView>,
    after: Seq<HistoryRowView>,
    row: ThoughtRowView,
    now: i64,
) -> bool {
    if row.settled_at is Some || now - row.updated_at > 3_600_000 {
        &&& after.len() == before.len() + 1
        &&& after.drop_last() == before
        &&& after.last().thought_id == row.id && after.last().text == row.text
        &&& after.last().archived_at == now
    } else {
        after == before
    }
}

/// An edit succeeds exactly where the thought is there and no tombstone. It then
/// gives it the new text, archives the old one where it had settled, replaces its
/// vector and its tags, and returns it; otherwise nothing changes.
pub proof fn law_update_thought_at<E: TextEmbedder>(
    id: Uuid,
    text: &str,
    now: i64,
    vector: Option<Vec<u32>>,
    r: Result<Thought>,
)
    ensures
        forall|m: &mut ThoughtStore<E>|
            tags_consistent((*m)@) && #[trigger] call_ensures(
                ThoughtStore::<E>::update_thought_at,
                (m, id, text, now, vector),
                r,
            ) ==> match r {
                Ok(thought) => {
                    &&& lives((*m)@.thoughts, id@)
                    &&& rewritten((*m)@.thoughts, final(m)@.thoughts, id@, text@, now)
                    &&& archived_where_settled(
                        (*m)@.history,
                        final(m)@.history,
                        find_live((*m)@.thoughts, id@).unwrap(),
                        now,
                    )
                    &&& vector_set(
                        (*m)@.embeddings,
                        final(m)@.embeddings,
                        id@,
                        components(vector),
                    )
                    &&& tags_follow((*m)@, final(m)@, id@, text@)
                    &&& final(m)@.saved == (*m)@.saved
                    &&& thought.id == id && thought.text@ == text@ && thought.updated_at == now
                    &&& !thought.is_settled
                },
                Err(e) => e == (Error::NotFound { id }) && !lives((*m)@.thoughts, id@) && final(m)@
                    == (*m)@,
            },
{
    assert forall|m: &mut ThoughtStore<E>|
        tags_consistent((*m)@) && #[trigger] call_ensures(
            ThoughtStore::<E>::update_thought_at,
            (m, id, text, now, vector),
            r,
        ) implies match r {
        Ok(thought) => {
            &&& lives((*m)@.thoughts, id@)
            &&& rewritten((*m)@.thoughts, final(m)@.thoughts, id@, text@, now)
            &&& archived_where_settled(
                (*m)@.history,
                final(m)@.history,
                find_live((*m)@.thoughts, id@).unwrap(),
                now,
            )
            &&& vector_set((*m)@.embeddings, final(m)@.embeddings, id@, components(vector))
            &&& tags_follow((*m)@, final(m)@, id@, text@)
            &&& final(m)@.saved == (*m)@.saved
            &&& thought.id == id && thought.text@ == text@ && thought.updated_at == now
            &&& !thought.is_settled
        },
        Err(e) => e == (Error::NotFound { id }) && !lives((*m)@.thoughts, id@) && final(m)@
            == (*m)@,
    } by {
        let before = (*m)@;
        law_thought_found(before.thoughts, id@);
        if r is Ok {
            let thought = r.unwrap();
            let row = find_live(before.thoughts, id@).unwrap();
            let after = final(m)@;
            law_edited(before, row, text@, now, components(vector));
            law_edit_rows(before.thoughts, id@, text@, now);
            if after.history != before.history {
                assert(after.history.drop_last() =~= before.history);
            }
            assert(thought@.text == thought.text@ && thought@.updated_at == thought.updated_at);
            assert(thought@.is_settled == thought.is_settled);
        }
    }
}

/// The rows of the thought that were none are tombstones, dirty and modified then;
/// all other rows are as they were.
pub open spec fn entombed(
    before: Seq<ThoughtRowView>,
    after: Seq<ThoughtRowView>,
    id: Seq<u8>,
    now: i64,
) -> bool {
    &&& after.len() == before.len()
    &&& forall|i: int|
        0 <= i < before.len() ==> {
            let row = before[i];
            let new = #[trigger] after[i];
            if row.id == id && row.deleted_at is None {
                &&& new.id == id && new.text == row.text && new.created_at == row.created_at
                &&& new.updated_at == now && new.settled_at == row.settled_at && new.dirty
                &&& new.deleted_at == Some(now) && new.actioned_at == row.actioned_at
            } else {
                new == row
            }
        }
}

/// A deletion succeeds exactly where the thought is there and no tombstone. It then
/// makes one of it and takes its vector and its tags; its history stays. Otherwise
/// nothing changes.
pub proof fn law_delete_thought_at<E: TextEmbedder>(id: Uuid, now: i64, r: Result<()>)
    ensures
        forall|m: &mut ThoughtStore<E>|
            tags_consistent((*m)@) && #[trigger] call_ensures(
                ThoughtStore::<E>::delete_thought_at,
                (m, id, now),
                r,
            ) ==> match r {
                Ok(_) => {
                    &&& lives((*m)@.thoughts, id@)
                    &&& entombed((*m)@.thoughts, final(m)@.thoughts, id@, now)
                    &&& vector_set((*m)@.embeddings, final(m)@.embeddings, id@, None)
                    &&& tags_follow((*m)@, final(m)@, id@, Seq::empty())
                    &&& final(m)@.history == (*m)@.history && final(m)@.saved == (*m)@.saved
                },
                Err(e) => e == (Error::NotFound { id }) && !lives((*m)@.thoughts, id@) && final(m)@
                    == (*m)@,
            },
{
    assert forall|m: &mut ThoughtStore<E>|
        tags_consistent((*m)@) && #[trigger] call_ensures(
            ThoughtStore::<E>::delete_thought_at,
            (m, id, now),
            r,
        ) implies match r {
        Ok(_) => {
            &&& lives((*m)@.thoughts, id@)
            &&& entombed((*m)@.thoughts, final(m)@.thoughts, id@, now)
            &&& vector_set((*m)@.embeddings, final(m)@.embeddings, id@, None)
            &&& tags_follow((*m)@, final(m)@, id@, Seq::empty())
            &&& final(m)@.history == (*m)@.history && final(m)@.saved == (*m)@.saved
        },
        Err(e) => e == (Error::NotFound { id }) && !lives((*m)@.thoughts, id@) && final(m)@
            == (*m)@,
    } by {
        let before = (*m)@;
        law_thought_found(before.thoughts, id@);
        if r is Ok {
            law_buried(before, id@, now);
            law_bury_rows(before.thoughts, id@, now);
        }
    }
}

/// The rows of the thought that are no tombstones have the time at which it was
/// dealt with, or none, and are dirty and modified then; all other rows are as they
/// were.
pub open spec fn dealt_with(
    before: Seq<ThoughtRowView>,
    after: Seq<ThoughtRowView>,
    id: Seq<u8>,
    actioned_at: Option<i64>,
    now: i64,
) -> bool {
    &&& after.len() == before.len()
    &&& forall|i: int|
        0 <= i < before.len() ==> {
            let row = before[i];
            let new = #[trigger] after[i];
            if row.id == id && row.deleted_at is None {
                &&& new.id == id && new.text == row.text && new.created_at == row.created_at
                &&& new.updated_at == now && new.settled_at == row.settled_at && new.dirty
                &&& new.deleted_at is None && new.actioned_at == actioned_at
            } else {
                new == row
            }
        }
}

/// Dealing with a thought, or undoing that, succeeds exactly where it is there and
/// no tombstone, and changes nothing but its rows; otherwise nothing changes.
pub proof fn law_set_actioned_at<E: TextEmbedder>(
    id: Uuid,
    actioned_at: Option<i64>,
    now: i64,
    r: Result<Thought>,
)
    ensures
        forall|m: &mut ThoughtStore<E>| #[trigger]
            call_ensures(ThoughtStore::<E>::set_actioned_at, (m, id, actioned_at, now), r)
                ==> match r {
                Ok(thought) => {
                    &&& lives((*m)@.thoughts, id@)
                    &&& dealt_with((*m)@.thoughts, final(m)@.thoughts, id@, actioned_at, now)
                    &&& final(m)@ == (TablesView { thoughts: final(m)@.thoughts, ..(*m)@ })
                    &&& thought.id == id && thought.updated_at == now
                    &&& thought.is_actioned <==> actioned_at is Some
                },
                Err(e) => e == (Error::NotFound { id }) && !lives((*m)@.thoughts, id@) && final(m)@
                    == (*m)@,
            },
{
    assert forall|m: &mut ThoughtStore<E>| #[trigger]
        call_ensures(ThoughtStore::<E>::set_actioned_at, (m, id, actioned_at, now), r) implies match r {
        Ok(thought) => {
            &&& lives((*m)@.thoughts, id@)
            &&& dealt_with((*m)@.thoughts, final(m)@.thoughts, id@, actioned_at, now)
            &&& final(m)@ == (TablesView { thoughts: final(m)@.thoughts, ..(*m)@ })
            &&& thought.id == id && thought.updated_at == now
            &&& thought.is_actioned <==> actioned_at is Some
        },
        Err(e) => e == (Error::NotFound { id }) && !lives((*m)@.thoughts, id@) && final(m)@
            == (*m)@,
    } by {
        let before = (*m)@;
        law_thought_found(before.thoughts, id@);
        if r is Ok {
            let thought = r.unwrap();
            law_action_rows(before.thoughts, id@, actioned_at, now);
            assert(thought@.updated_at == thought.updated_at);
            assert(thought@.is_actioned == thought.is_actioned);
        }
    }
}

/// The change is taken over: its thought has a row with every column of it, not
/// dirty, and all other rows are as they were.
pub open spec fn taken_over(
    before: Seq<ThoughtRowView>,
    after: Seq<ThoughtRowView>,
    change: ThoughtChangeView,
) -> bool {
    &&& after.len() == if has_no_row(before, change.id) {
        before.len() + 1
    } else {
        before.len()
    }
    &&& has_no_row(before, change.id) ==> took(after.last(), change)
    &&& forall|i: int|
        0 <= i < before.len() ==> if (#[trigger] before[i]).id == change.id {
            took(after[i], change)
        } else {
            after[i] == before[i]
        }
}

/// A change from elsewhere is taken over exactly where the thought is not here, or
/// the row of it that is found was modified earlier; with it come its vector and
/// its tags, a tombstone has none. Otherwise nothing changes.
pub proof fn law_apply_remote_with<E: TextEmbedder>(
    change: &ThoughtChange,
    vector: Option<Vec<u32>>,
    r: bool,
)
    ensures
        forall|m: &mut ThoughtStore<E>|
            tags_consistent((*m)@) && #[trigger] call_ensures(
                ThoughtStore::<E>::apply_remote_with,
                (m, change, vector),
                r,
            ) ==> {
                let newer = find_row((*m)@.thoughts, change.id@) matches Some(local)
                    ==> local.updated_at < change.updated_at;
                &&& r == newer
                &&& !r ==> final(m)@ == (*m)@
                &&& r ==> {
                    &&& taken_over((*m)@.thoughts, final(m)@.thoughts, change@)
                    &&& vector_set(
                        (*m)@.embeddings,
                        final(m)@.embeddings,
                        change.id@,
                        components(vector),
                    )
                    &&& tags_follow(
                        (*m)@,
                        final(m)@,
                        change.id@,
                        if change.deleted_at is Some {
                            Seq::empty()
                        } else {
                            change.text@
                        },
                    )
                    &&& final(m)@.history == (*m)@.history && final(m)@.saved == (*m)@.saved
                }
            },
{
    assert forall|m: &mut ThoughtStore<E>|
        tags_consistent((*m)@) && #[trigger] call_ensures(
            ThoughtStore::<E>::apply_remote_with,
            (m, change, vector),
            r,
        ) implies ({
        let newer = find_row((*m)@.thoughts, change.id@) matches Some(local) ==> local.updated_at
            < change.updated_at;
        &&& r == newer
        &&& !r ==> final(m)@ == (*m)@
        &&& r ==> {
            &&& taken_over((*m)@.thoughts, final(m)@.thoughts, change@)
            &&& vector_set((*m)@.embeddings, final(m)@.embeddings, change.id@, components(vector))
            &&& tags_follow(
                (*m)@,
                final(m)@,
                change.id@,
                if change.deleted_at is Some {
                    Seq::empty()
                } else {
                    change.text@
                },
            )
            &&& final(m)@.history == (*m)@.history && final(m)@.saved == (*m)@.saved
        }
    }) by {
        let before = (*m)@;
        law_applied(before, change@, components(vector));
        law_thought_found(before.thoughts, change.id@);
        assert(change@.id == change.id@ && change@.text == change.text@);
        assert(change@.deleted_at == change.deleted_at && change@.updated_at == change.updated_at);
    }
}

} // verus!
