//! What the operations of the store do to the tables, row by row and column by
//! column.

use vstd::prelude::*;

use crate::backfill::{embedded_so, embedding_ended};
use crate::clock::{clock_failed, clock_shows};
use crate::embed::{blob_of, vector_of, word_at, TextEmbedder};
use crate::error::{Error, Result};
use crate::ident::Uuid;
use crate::laws::law_acknowledged_rows;
use crate::list_laws::{law_same_name, law_thought_found, lives, same_letters};
use crate::mirror::{
    carries, law_reconciled, lists, mirrors, reconciled, tags_consistent, tags_in_use, with_tags_on,
};
use crate::model::{
    acknowledged, applied, archived, buried, changed, created, edited, find_live, find_row, new_row,
    revectored, row_of, tagged_text, wins, with_vector, with_vectors,
};
use crate::order::same_name;
use crate::rows::{
    any_where, kept, law_kept_alike, law_kept_all, law_kept_both, law_kept_lists, law_lists_count,
    lists_exactly, pairwise,
};
use crate::saved_search::SavedSearch;
use crate::store::{
    action_ended, answers, arrives, change_embeds, components, create_ended, delete_ended, embeds,
    pushes, save_ended, settle_ended, update_ended, ThoughtStore,
};
use crate::sync::ThoughtChangeView;
use crate::tables::{
    affected, embeddings_besides, linked, links_besides, replay, saved_besides, step, updated,
    EmbeddingRow, EmbeddingRowView, HistoryRow, LinkRow, LinkRowView, RowChangeView, SavedRow,
    SavedRowView, Statement, Tables, TablesView, ThoughtRow, ThoughtRowView,
};
use crate::tags::{law_tags_stand_in_the_text, stands, tag_list};
use crate::text::lowercased;
use crate::thought::Thought;

verus! {

// ---- settling --------------------------------------------------------------

/// Settling at any time sets the time of every row that is no tombstone and has
/// none, whatever its other columns hold, and changes nothing else. The number
/// that it returns is that of these rows.
pub proof fn law_settle(rows: Seq<ThoughtRowView>, at: i64) -> (hit: Seq<int>)
    ensures
        ({
            let after = updated(rows, RowChangeView::Settle { at });
            &&& after.len() == rows.len()
            &&& forall|i: int|
                0 <= i < rows.len() && (#[trigger] after[i]).deleted_at is None
                    ==> after[i].settled_at is Some
            &&& forall|i: int|
                0 <= i < rows.len() ==> (#[trigger] after[i]).settled_at == (
                if rows[i].deleted_at is None && rows[i].settled_at is None {
                    Some(at)
                } else {
                    rows[i].settled_at
                })
            &&& forall|i: int|
                0 <= i < rows.len() ==> (#[trigger] after[i]).id == rows[i].id && after[i].text
                    == rows[i].text && after[i].created_at == rows[i].created_at
                    && after[i].updated_at == rows[i].updated_at && after[i].deleted_at
                    == rows[i].deleted_at && after[i].actioned_at == rows[i].actioned_at
                    && after[i].dirty == rows[i].dirty
        }),
        affected(rows, RowChangeView::Settle { at }) == rows.to_multiset().filter(
            |row: ThoughtRowView| row.deleted_at is None && row.settled_at is None,
        ).len(),
        affected(rows, RowChangeView::Settle { at }) == hit.len(),
        forall|k: int, m: int| 0 <= k < m < hit.len() ==> #[trigger] hit[k] < #[trigger] hit[m],
        forall|k: int| 0 <= k < hit.len() ==> 0 <= #[trigger] hit[k] < rows.len(),
        forall|i: int|
            0 <= i < rows.len() ==> (hit.contains(i) <==> (#[trigger] rows[i]).deleted_at is None
                && rows[i].settled_at is None),
{
    broadcast use vstd::seq_lib::group_to_multiset_ensures;

    let change = RowChangeView::Settle { at };
    let p = |row: ThoughtRowView| change.hits(row);
    let q = |row: ThoughtRowView| row.deleted_at is None && row.settled_at is None;
    law_kept_alike(rows, p, q);
    let hit = law_kept_lists(rows, q);
    law_lists_count(kept(rows, q), rows, q, |a: ThoughtRowView, b: ThoughtRowView| false, hit);
    assert(kept(rows, q).to_multiset().len() == kept(rows, q).len());
    assert forall|i: int| 0 <= i < rows.len() implies (hit.contains(i) <==> (
    #[trigger] rows[i]).deleted_at is None && rows[i].settled_at is None) by {
        if hit.contains(i) {
            let k = choose|k: int| 0 <= k < hit.len() && hit[k] == i;
            assert(q(rows[hit[k]]));
        } else {
            assert(!q(rows[i]));
        }
    }
    hit
}

/// Settling the store leaves no thought unsettled, says how many it settled, and
/// touches nothing else.
pub proof fn law_settle_ended<E: TextEmbedder>(
    before: ThoughtStore<E>,
    after: ThoughtStore<E>,
    r: Result<usize>,
)
    requires
        settle_ended(before, after, r),
    ensures
        after@.thoughts.len() == before@.thoughts.len(),
        r is Ok ==> forall|i: int|
            0 <= i < after@.thoughts.len() && (#[trigger] after@.thoughts[i]).deleted_at is None
                ==> after@.thoughts[i].settled_at is Some,
        r matches Ok(n) ==> n == before@.thoughts.to_multiset().filter(
            |row: ThoughtRowView| row.deleted_at is None && row.settled_at is None,
        ).len(),
        forall|i: int|
            0 <= i < before@.thoughts.len() ==> {
                let row = before@.thoughts[i];
                let new = #[trigger] after@.thoughts[i];
                &&& new.id == row.id && new.text == row.text && new.created_at == row.created_at
                &&& new.updated_at == row.updated_at && new.deleted_at == row.deleted_at
                &&& new.actioned_at == row.actioned_at && new.dirty == row.dirty
                &&& row.settled_at is Some || row.deleted_at is Some ==> new.settled_at
                    == row.settled_at
            },
        after@ == (TablesView { thoughts: after@.thoughts, ..before@ }),
        r matches Err(e) ==> clock_failed(e) && after@ == before@,
{
    if r is Ok {
        let now = choose|now: i64|
            #![trigger changed(before@, RowChangeView::Settle { at: now })]
            clock_shows(now) && after@ == changed(
                before@,
                RowChangeView::Settle { at: now },
            ) && r.unwrap() == affected(before@.thoughts, RowChangeView::Settle { at: now });
        let hit = law_settle(before@.thoughts, now);
    }
}

// ---- one change on every row -----------------------------------------------

/// An edit gives every row of the thought the new text and time, unsettles it and
/// makes it dirty, and leaves its other columns and all other rows as they were.
pub proof fn law_edit_rows(rows: Seq<ThoughtRowView>, id: Seq<u8>, text: Seq<char>, at: i64)
    ensures
        updated(rows, RowChangeView::Edit { id, text, at }).len() == rows.len(),
        forall|i: int|
            0 <= i < rows.len() ==> {
                let row = rows[i];
                let new = #[trigger] updated(rows, RowChangeView::Edit { id, text, at })[i];
                if row.id == id {
                    &&& new.id == id && new.text == text && new.created_at == row.created_at
                    &&& new.updated_at == at && new.settled_at is None && new.dirty
                    &&& new.deleted_at == row.deleted_at && new.actioned_at == row.actioned_at
                } else {
                    new == row
                }
            },
{
}

/// A deletion makes a tombstone of every row of the thought that is none, dirty
/// and modified then, and leaves its other columns and all other rows as they
/// were.
pub proof fn law_bury_rows(rows: Seq<ThoughtRowView>, id: Seq<u8>, at: i64)
    ensures
        updated(rows, RowChangeView::Bury { id, at }).len() == rows.len(),
        forall|i: int|
            0 <= i < rows.len() ==> {
                let row = rows[i];
                let new = #[trigger] updated(rows, RowChangeView::Bury { id, at })[i];
                if row.id == id && row.deleted_at is None {
                    &&& new.id == id && new.text == row.text && new.created_at == row.created_at
                    &&& new.updated_at == at && new.settled_at == row.settled_at && new.dirty
                    &&& new.deleted_at == Some(at) && new.actioned_at == row.actioned_at
                } else {
                    new == row
                }
            },
{
}

/// Dealing with a thought, or undoing that, sets the time it was dealt with on
/// its rows that are no tombstones, dirty and modified then, and leaves their
/// other columns and all other rows as they were.
pub proof fn law_action_rows(
    rows: Seq<ThoughtRowView>,
    id: Seq<u8>,
    actioned_at: Option<i64>,
    at: i64,
)
    ensures
        updated(rows, RowChangeView::Action { id, actioned_at, at }).len() == rows.len(),
        forall|i: int|
            0 <= i < rows.len() ==> {
                let row = rows[i];
                let new = #[trigger] updated(
                    rows,
                    RowChangeView::Action { id, actioned_at, at },
                )[i];
                if row.id == id && row.deleted_at is None {
                    &&& new.id == id && new.text == row.text && new.created_at == row.created_at
                    &&& new.updated_at == at && new.settled_at == row.settled_at && new.dirty
                    &&& new.deleted_at is None && new.actioned_at == actioned_at
                } else {
                    new == row
                }
            },
{
}

/// Replacing the row of a thought replaces it whole, and no other row.
pub proof fn law_overwrite_rows(rows: Seq<ThoughtRowView>, row: ThoughtRowView)
    ensures
        updated(rows, RowChangeView::Overwrite { row }).len() == rows.len(),
        forall|i: int|
            0 <= i < rows.len() ==> #[trigger] updated(rows, RowChangeView::Overwrite { row })[i]
                == (if rows[i].id == row.id {
                row
            } else {
                rows[i]
            }),
{
}

/// The backfills of old stores: a row modified at no time gets the time of its
/// capture, and every row becomes dirty; nothing else changes.
pub proof fn law_backfill_rows(rows: Seq<ThoughtRowView>)
    ensures
        updated(rows, RowChangeView::BackfillUpdatedAt).len() == rows.len(),
        updated(rows, RowChangeView::MarkDirty).len() == rows.len(),
        forall|i: int|
            0 <= i < rows.len() ==> {
                let row = rows[i];
                let new = #[trigger] updated(rows, RowChangeView::BackfillUpdatedAt)[i];
                &&& new.id == row.id && new.text == row.text && new.created_at == row.created_at
                &&& new.updated_at == if row.updated_at == 0 {
                    row.created_at
                } else {
                    row.updated_at
                }
                &&& new.settled_at == row.settled_at && new.deleted_at == row.deleted_at
                &&& new.actioned_at == row.actioned_at && new.dirty == row.dirty
            },
        forall|i: int|
            0 <= i < rows.len() ==> {
                let row = rows[i];
                let new = #[trigger] updated(rows, RowChangeView::MarkDirty)[i];
                &&& new.id == row.id && new.text == row.text && new.created_at == row.created_at
                &&& new.updated_at == row.updated_at && new.settled_at == row.settled_at
                &&& new.deleted_at == row.deleted_at && new.actioned_at == row.actioned_at
                &&& new.dirty
            },
{
}

// ---- vectors and tags of one thought ---------------------------------------

/// The blob holds the vector: four bytes for each component, the lowest first.
pub open spec fn holds_vector(blob: Seq<u8>, vector: Seq<u32>) -> bool {
    &&& blob.len() == 4 * vector.len()
    &&& forall|j: int|
        0 <= j < vector.len() ==> #[trigger] vector[j] == blob[4 * j] + 256 * blob[4 * j + 1]
            + 65536 * blob[4 * j + 2] + 16777216 * blob[4 * j + 3]
}

/// A vector is stored component by component, the lowest byte first.
pub proof fn law_blob_holds_vector(vector: Seq<u32>)
    ensures
        holds_vector(blob_of(vector), vector),
{
    let blob = blob_of(vector);
    assert forall|j: int| 0 <= j < vector.len() implies #[trigger] vector[j] == blob[4 * j] + 256
        * blob[4 * j + 1] + 65536 * blob[4 * j + 2] + 16777216 * blob[4 * j + 3] by {
        let w = vector[j];
        assert((4 * j) / 4 == j && (4 * j) % 4 == 0);
        assert((4 * j + 1) / 4 == j && (4 * j + 1) % 4 == 1);
        assert((4 * j + 2) / 4 == j && (4 * j + 2) % 4 == 2);
        assert((4 * j + 3) / 4 == j && (4 * j + 3) % 4 == 3);
    }
}

/// A blob is read as the vector that it holds, and as none exactly where its
/// length is no multiple of four.
pub proof fn law_vector_read(blob: Seq<u8>)
    ensures
        vector_of(blob) is Some <==> blob.len() % 4 == 0,
        vector_of(blob) matches Some(v) ==> holds_vector(blob, v),
{
    if blob.len() % 4 == 0 {
        let v = vector_of(blob).unwrap();
        assert forall|j: int| 0 <= j < v.len() implies #[trigger] v[j] == blob[4 * j] + 256 * blob[4
            * j + 1] + 65536 * blob[4 * j + 2] + 16777216 * blob[4 * j + 3] by {
            assert(word_at(blob, j) <= u32::MAX);
        }
    }
}

/// Of the vectors of all thoughts, those of the others are as they were, and the
/// thought has exactly the one that is given, or none.
pub open spec fn vector_set(
    before: Seq<EmbeddingRowView>,
    after: Seq<EmbeddingRowView>,
    id: Seq<u8>,
    vector: Option<Seq<u32>>,
) -> bool {
    let others = |e: EmbeddingRowView| e.thought_id != id;
    let own = kept(after, |e: EmbeddingRowView| e.thought_id == id);
    &&& kept(after, others) == kept(before, others)
    &&& match vector {
        Some(v) => own.len() == 1 && holds_vector(own[0].vector, v),
        None => own.len() == 0,
    }
}

/// Storing the vector of a thought, or none, replaces the one it had and leaves
/// those of the others.
pub proof fn law_vector_set(
    embeddings: Seq<EmbeddingRowView>,
    id: Seq<u8>,
    vector: Option<Seq<u32>>,
)
    ensures
        vector_set(embeddings, revectored(embeddings, id, vector), id, vector),
{
    let others = |e: EmbeddingRowView| e.thought_id != id;
    let own = |e: EmbeddingRowView| e.thought_id == id;
    let rest = embeddings_besides(embeddings, id);
    law_kept_all(embeddings, others);
    lemma_kept_of_kept(embeddings, others);
    lemma_kept_none(rest, own);
    if vector is Some {
        let v = vector.unwrap();
        law_blob_holds_vector(v);
        let after = revectored(embeddings, id, vector);
        assert(after.drop_last() =~= rest);
        assert(kept(after, own) == kept(rest, own).push(after.last()));
    }
}

proof fn lemma_kept_of_kept<V>(rows: Seq<V>, p: spec_fn(V) -> bool)
    ensures
        kept(kept(rows, p), p) == kept(rows, p),
    decreases rows.len(),
{
    if rows.len() > 0 {
        lemma_kept_of_kept(rows.drop_last(), p);
        if p(rows.last()) {
            let k = kept(rows.drop_last(), p);
            assert(k.push(rows.last()).drop_last() =~= k);
        }
    }
}

proof fn lemma_kept_none<V>(rows: Seq<V>, p: spec_fn(V) -> bool)
    requires
        forall|i: int| 0 <= i < rows.len() ==> !p(#[trigger] rows[i]),
    ensures
        kept(rows, p).len() == 0,
{
    law_kept_all(rows, p);
    if kept(rows, p).len() > 0 {
        let x = kept(rows, p)[0];
        let i = choose|i: int| 0 <= i < rows.len() && rows[i] == x;
        assert(!p(rows[i]));
    }
}

/// The links of the thought are to the tags of the text: to every name that
/// stands there as a tag, up to case, and to nothing else. The links of all other
/// thoughts are as they were.
#[verifier::opaque]
pub open spec fn links_follow(
    before: Seq<LinkRowView>,
    after: Seq<LinkRowView>,
    id: Seq<u8>,
    text: Seq<char>,
) -> bool {
    let others = |l: LinkRowView| l.thought_id != id;
    &&& kept(after, others) == kept(before, others)
    &&& forall|i: int|
        0 <= i < after.len() && (#[trigger] after[i]).thought_id == id ==> exists|
            k: int,
            name: Seq<char>,
        |
            #[trigger] stands(text, k, name) && same_letters(after[i].name, name)
    &&& forall|k: int, name: Seq<char>| #[trigger]
        stands(text, k, name) ==> exists|i: int, j: int, first: Seq<char>|
            0 <= i < after.len() && #[trigger] stands(text, j, first) && j <= k && lowercased(first)
                == lowercased(name) && (#[trigger] after[i]).thought_id == id && same_letters(
                after[i].name,
                first,
            )
    &&& forall|i: int, j: int|
        0 <= i < j < after.len() ==> #[trigger] after[i] != #[trigger] after[j]
}

/// One of the links is to a tag with exactly this name.
pub open spec fn names_a_tag(links: Seq<LinkRowView>, name: Seq<char>) -> bool {
    exists|j: int| 0 <= j < links.len() && (#[trigger] links[j]).name == name
}

/// The tags are those that a thought is linked to, no two the same up to ASCII
/// case, each spelled as it was, or as the text does where it is new.
#[verifier::opaque]
pub open spec fn tags_spelled(
    before: Seq<Seq<char>>,
    after: Seq<Seq<char>>,
    links: Seq<LinkRowView>,
    text: Seq<char>,
) -> bool {
    &&& forall|i: int| 0 <= i < links.len() ==> after.contains((#[trigger] links[i]).name)
    &&& forall|i: int| 0 <= i < after.len() ==> names_a_tag(links, #[trigger] after[i])
    &&& forall|i: int, j: int|
        0 <= i < j < after.len() ==> !same_letters(#[trigger] after[i], #[trigger] after[j])
    &&& forall|i: int|
        0 <= i < after.len() ==> before.contains(#[trigger] after[i]) || exists|k: int| #[trigger]
            stands(text, k, after[i])
}

/// The tags of the thought are those of the text, and those of all others are as
/// they were.
pub open spec fn tags_follow(
    before: TablesView,
    after: TablesView,
    id: Seq<u8>,
    text: Seq<char>,
) -> bool {
    &&& links_follow(before.links, after.links, id, text)
    &&& tags_spelled(before.tags, after.tags, after.links, text)
}

proof fn lemma_tags_from(t: TablesView, id: Seq<u8>, names: Seq<Seq<char>>)
    ensures
        forall|n: Seq<char>| #[trigger]
            with_tags_on(t, id, names).tags.contains(n) ==> t.tags.contains(n) || names.contains(
                n,
            ),
    decreases names.len(),
{
    if names.len() > 0 {
        let front = names.drop_last();
        lemma_tags_from(t, id, front);
        let was = with_tags_on(t, id, front).tags;
        let now = with_tags_on(t, id, names).tags;
        assert forall|n: Seq<char>| #[trigger] now.contains(n) implies t.tags.contains(n)
            || names.contains(n) by {
            let i = choose|i: int| 0 <= i < now.len() && now[i] == n;
            if i < was.len() {
                assert(was[i] == n);
                assert(was.contains(n));
                if front.contains(n) {
                    let k = choose|k: int| 0 <= k < front.len() && front[k] == n;
                    assert(names[k] == n);
                }
            } else {
                assert(names[names.len() - 1] == n);
            }
        }
    }
}

proof fn lemma_links_follow(
    before: Seq<LinkRowView>,
    after: Seq<LinkRowView>,
    id: Seq<u8>,
    text: Seq<char>,
)
    requires
        mirrors(after, id, tag_list(text)),
        links_besides(after, id) == links_besides(before, id),
        pairwise(after, |a: LinkRowView, b: LinkRowView| a != b),
    ensures
        links_follow(before, after, id, text),
{
    reveal(links_follow);
    let names = tag_list(text);
    let at = law_tags_stand_in_the_text(text);
    assert forall|i: int| 0 <= i < after.len() && (#[trigger] after[i]).thought_id
        == id implies exists|k: int, name: Seq<char>| #[trigger]
        stands(text, k, name) && same_letters(after[i].name, name) by {
        assert(lists(names, after[i].name));
        let m = choose|m: int|
            0 <= m < names.len() && same_name(after[i].name, #[trigger] names[m]);
        law_same_name(after[i].name, names[m]);
        assert(stands(text, at[m], names[m]));
    }
    assert forall|k: int, name: Seq<char>| #[trigger] stands(text, k, name) implies exists|
        i: int,
        j: int,
        first: Seq<char>,
    |
        0 <= i < after.len() && #[trigger] stands(text, j, first) && j <= k && lowercased(first)
            == lowercased(name) && (#[trigger] after[i]).thought_id == id && same_letters(
            after[i].name,
            first,
        ) by {
        let m = choose|m: int|
            0 <= m < at.len() && lowercased(#[trigger] names[m]) == lowercased(name);
        assert(stands(text, at[m], names[m]));
        assert(carries(after, id, names[m]));
        let i = choose|i: int|
            0 <= i < after.len() && (#[trigger] after[i]).thought_id == id && same_name(
                after[i].name,
                names[m],
            );
        law_same_name(after[i].name, names[m]);
        assert(at[m] <= k);
    }
    let apart = |a: LinkRowView, b: LinkRowView| a != b;
    assert forall|i: int, j: int| 0 <= i < j < after.len() implies #[trigger] after[i]
        != #[trigger] after[j] by {
        assert(apart(after[i], after[j]));
    }
}

proof fn lemma_tags_spelled(t: TablesView, id: Seq<u8>, text: Seq<char>)
    requires
        tags_consistent(reconciled(t, id, text)),
        tags_in_use(reconciled(t, id, text)),
    ensures
        tags_spelled(
            t.tags,
            reconciled(t, id, text).tags,
            reconciled(t, id, text).links,
            text,
        ),
{
    reveal(tags_spelled);
    let after = reconciled(t, id, text);
    let names = tag_list(text);
    let at = law_tags_stand_in_the_text(text);
    assert forall|i: int| 0 <= i < after.tags.len() implies names_a_tag(
        after.links,
        #[trigger] after.tags[i],
    ) by {
        assert(linked(after.links, after.tags[i]));
        let f = |l: LinkRowView| l.name == after.tags[i];
        let j = choose|j: int| 0 <= j < after.links.len() && f(#[trigger] after.links[j]);
        assert(after.links[j].name == after.tags[i]);
    }
    let other_name = |a: Seq<char>, b: Seq<char>| !same_name(a, b);
    assert forall|i: int, j: int| 0 <= i < j < after.tags.len() implies !same_letters(
        #[trigger] after.tags[i],
        #[trigger] after.tags[j],
    ) by {
        assert(other_name(after.tags[i], after.tags[j]));
        law_same_name(after.tags[i], after.tags[j]);
    }
    let cleared = TablesView { links: links_besides(t.links, id), ..t };
    let tagged = with_tags_on(cleared, id, names);
    lemma_tags_from(cleared, id, names);
    assert forall|i: int| 0 <= i < after.tags.len() implies t.tags.contains(
        #[trigger] after.tags[i],
    ) || exists|k: int| #[trigger] stands(text, k, after.tags[i]) by {
        let used = |n: Seq<char>| linked(tagged.links, n);
        law_kept_all(tagged.tags, used);
        assert(tagged.tags.contains(after.tags[i]));
        if !t.tags.contains(after.tags[i]) {
            let m = choose|m: int| 0 <= m < names.len() && names[m] == after.tags[i];
            assert(stands(text, at[m], names[m]));
        }
    }
}

/// Reconciling makes the tags of a thought those of the text, and touches no
/// other table.
pub proof fn law_tags_follow(t: TablesView, id: Seq<u8>, text: Seq<char>)
    requires
        tags_consistent(t),
    ensures
        tags_follow(t, reconciled(t, id, text), id, text),
        reconciled(t, id, text).thoughts == t.thoughts,
        reconciled(t, id, text).history == t.history,
        reconciled(t, id, text).embeddings == t.embeddings,
        reconciled(t, id, text).saved == t.saved,
{
    law_reconciled(t, id, text);
    lemma_links_follow(t.links, reconciled(t, id, text).links, id, text);
    lemma_tags_spelled(t, id, text);
}

/// A text without a tag leaves the thought without links.
proof fn lemma_no_links(
    before: Seq<LinkRowView>,
    after: Seq<LinkRowView>,
    id: Seq<u8>,
)
    requires
        links_follow(before, after, id, Seq::empty()),
    ensures
        forall|i: int| 0 <= i < after.len() ==> (#[trigger] after[i]).thought_id != id,
{
    reveal(links_follow);
}

// ---- capture, edit, delete, arrive -----------------------------------------

/// Capturing a thought adds one row, live, unsettled, not dealt with and dirty,
/// with its text and the time; its vector where there is one; and the tags of its
/// text. Nothing else changes.
pub proof fn law_created(
    t: TablesView,
    id: Seq<u8>,
    text: Seq<char>,
    now: i64,
    vector: Option<Seq<u32>>,
)
    requires
        tags_consistent(t),
    ensures
        ({
            let after = created(t, id, text, now, vector);
            let row = after.thoughts.last();
            &&& after.thoughts == t.thoughts.push(row)
            &&& row.id == id && row.text == text && row.created_at == now && row.updated_at == now
            &&& row.settled_at is None && row.deleted_at is None && row.actioned_at is None
            &&& row.dirty
            &&& after.history == t.history
            &&& after.saved == t.saved
            &&& vector is None ==> after.embeddings == t.embeddings
            &&& vector is Some ==> vector_set(t.embeddings, after.embeddings, id, vector)
            &&& tags_follow(t, after, id, text)
        }),
{
    let after = created(t, id, text, now, vector);
    let stored = TablesView {
        thoughts: t.thoughts.push(new_row(id, text, now)),
        embeddings: match vector {
            Some(v) => with_vector(t.embeddings, id, v),
            None => t.embeddings,
        },
        ..t
    };
    law_tags_follow(stored, id, text);
    law_vector_set(t.embeddings, id, vector);
    assert(after.thoughts == t.thoughts.push(after.thoughts.last()));
}

/// An edit gives the rows of the thought the new text, as `law_edit_rows` says.
/// Where it had settled the old text is archived; its vector becomes the given
/// one, or goes; its tags become those of the new text. Nothing else changes.
pub proof fn law_edited(
    t: TablesView,
    row: ThoughtRowView,
    text: Seq<char>,
    now: i64,
    vector: Option<Seq<u32>>,
)
    requires
        tags_consistent(t),
    ensures
        ({
            let after = edited(t, row, text, now, vector);
            &&& after.thoughts == updated(t.thoughts, RowChangeView::Edit { id: row.id, text, at: now })
            &&& if row.settled_at is Some || now - row.updated_at > 3_600_000 {
                &&& after.history == t.history.push(after.history.last())
                &&& after.history.last().thought_id == row.id
                &&& after.history.last().text == row.text
                &&& after.history.last().archived_at == now
            } else {
                after.history == t.history
            }
            &&& after.saved == t.saved
            &&& vector_set(t.embeddings, after.embeddings, row.id, vector)
            &&& tags_follow(t, after, row.id, text)
        }),
{
    let after = edited(t, row, text, now, vector);
    let stored = TablesView {
        history: archived(t.history, row, now),
        thoughts: updated(t.thoughts, RowChangeView::Edit { id: row.id, text, at: now }),
        embeddings: revectored(t.embeddings, row.id, vector),
        ..t
    };
    law_tags_follow(stored, row.id, text);
    law_vector_set(t.embeddings, row.id, vector);
    assert(archived(t.history, row, now).len() > t.history.len() ==> after.history
        == t.history.push(after.history.last()));
}

/// A deletion buries the rows of the thought, as `law_bury_rows` says, and takes
/// its vector and its tags. Nothing else changes: its history stays.
pub proof fn law_buried(t: TablesView, id: Seq<u8>, now: i64)
    requires
        tags_consistent(t),
    ensures
        ({
            let after = buried(t, id, now);
            &&& after.thoughts == updated(t.thoughts, RowChangeView::Bury { id, at: now })
            &&& after.history == t.history
            &&& after.saved == t.saved
            &&& vector_set(t.embeddings, after.embeddings, id, None)
            &&& tags_follow(t, after, id, Seq::empty())
            &&& forall|i: int|
                0 <= i < after.links.len() ==> (#[trigger] after.links[i]).thought_id != id
        }),
{
    let after = buried(t, id, now);
    let stored = TablesView {
        thoughts: updated(t.thoughts, RowChangeView::Bury { id, at: now }),
        embeddings: embeddings_besides(t.embeddings, id),
        ..t
    };
    law_tags_follow(stored, id, Seq::empty());
    law_vector_set(t.embeddings, id, None);
    lemma_no_links(t.links, after.links, id);
}

/// The row has the columns of the change, and is not dirty.
pub open spec fn took(row: ThoughtRowView, change: ThoughtChangeView) -> bool {
    &&& row.id == change.id && row.text == change.text
    &&& row.created_at == change.created_at && row.updated_at == change.updated_at
    &&& row.settled_at == change.settled_at && row.deleted_at == change.deleted_at
    &&& row.actioned_at == change.actioned_at && !row.dirty
}

/// A change that arrives is taken over exactly where the thought is not here or
/// was last modified earlier here. Its row then has every column of the change
/// and is not dirty; no other row changes. Its vector becomes the given one, or
/// goes; its tags become those of its text, and a tombstone has none.
pub proof fn law_applied(t: TablesView, change: ThoughtChangeView, vector: Option<Seq<u32>>)
    requires
        tags_consistent(t),
    ensures
        wins(t, change) <==> (find_row(t.thoughts, change.id) matches Some(local)
            ==> local.updated_at < change.updated_at),
        ({
            let after = applied(t, change, vector);
            let known = exists|i: int|
                0 <= i < t.thoughts.len() && (#[trigger] t.thoughts[i]).id == change.id;
            &&& known ==> after.thoughts.len() == t.thoughts.len()
            &&& !known ==> after.thoughts.len() == t.thoughts.len() + 1 && took(
                after.thoughts.last(),
                change,
            )
            &&& forall|i: int|
                0 <= i < t.thoughts.len() ==> if (#[trigger] t.thoughts[i]).id == change.id {
                    took(after.thoughts[i], change)
                } else {
                    after.thoughts[i] == t.thoughts[i]
                }
            &&& after.history == t.history
            &&& after.saved == t.saved
            &&& vector_set(t.embeddings, after.embeddings, change.id, vector)
            &&& change.deleted_at is None ==> tags_follow(t, after, change.id, change.text)
            &&& change.deleted_at is Some ==> tags_follow(t, after, change.id, Seq::empty())
        }),
{
    let after = applied(t, change, vector);
    let stored = TablesView {
        thoughts: if find_row(t.thoughts, change.id) is Some {
            updated(t.thoughts, RowChangeView::Overwrite { row: row_of(change) })
        } else {
            t.thoughts.push(row_of(change))
        },
        embeddings: revectored(t.embeddings, change.id, vector),
        ..t
    };
    law_thought_found(t.thoughts, change.id);
    law_tags_follow(stored, change.id, tagged_text(change));
    law_vector_set(t.embeddings, change.id, vector);
}

/// What was pushed is no longer dirty where it has not changed since; nothing
/// else changes.
pub proof fn law_acknowledged(t: TablesView, pushed: Seq<(Seq<u8>, i64)>)
    ensures
        acknowledged(t, pushed).thoughts.len() == t.thoughts.len(),
        forall|i: int|
            0 <= i < t.thoughts.len() ==> {
                let row = t.thoughts[i];
                let new = #[trigger] acknowledged(t, pushed).thoughts[i];
                &&& new.id == row.id && new.text == row.text && new.created_at == row.created_at
                &&& new.updated_at == row.updated_at && new.settled_at == row.settled_at
                &&& new.deleted_at == row.deleted_at && new.actioned_at == row.actioned_at
                &&& new.dirty <==> row.dirty && !pushed.contains((row.id, row.updated_at))
            },
        acknowledged(t, pushed) == (TablesView {
            thoughts: acknowledged(t, pushed).thoughts,
            ..t
        }),
    decreases pushed.len(),
{
    if pushed.len() > 0 {
        law_acknowledged(t, pushed.drop_last());
    }
    assert forall|i: int| 0 <= i < t.thoughts.len() implies ({
        let row = t.thoughts[i];
        let new = #[trigger] acknowledged(t, pushed).thoughts[i];
        &&& new.id == row.id && new.text == row.text && new.created_at == row.created_at
        &&& new.updated_at == row.updated_at && new.settled_at == row.settled_at
        &&& new.deleted_at == row.deleted_at && new.actioned_at == row.actioned_at
        &&& new.dirty <==> row.dirty && !pushed.contains((row.id, row.updated_at))
    }) by {
        law_acknowledged_rows(t, pushed, i);
    }
    if pushed.len() == 0 {
        assert(acknowledged(t, pushed).thoughts =~= t.thoughts);
    }
}

/// Vectors that are computed for rows are stored each for its row, in order, and
/// nothing else changes.
pub proof fn law_vectors_stored(t: TablesView, rows: Seq<ThoughtRowView>, vectors: Seq<Seq<u32>>)
    requires
        vectors.len() <= rows.len(),
        forall|i: int, j: int| 0 <= i < j < rows.len() ==> (#[trigger] rows[i]).id != (#[trigger] rows[j]).id,
    ensures
        ({
            let after = with_vectors(t, rows, vectors);
            &&& after == (TablesView { embeddings: after.embeddings, ..t })
            &&& forall|i: int|
                0 <= i < vectors.len() ==> {
                    let own = kept(
                        after.embeddings,
                        |e: EmbeddingRowView| e.thought_id == (#[trigger] rows[i]).id,
                    );
                    own.len() == 1 && holds_vector(own[0].vector, vectors[i])
                }
        }),
    decreases vectors.len(),
{
    if vectors.len() > 0 {
        let n = vectors.len() - 1;
        let front = vectors.drop_last();
        law_vectors_stored(t, rows, front);
        let was = with_vectors(t, rows, front);
        let after = with_vectors(t, rows, vectors);
        law_vector_set(was.embeddings, rows[n].id, Some(vectors[n]));
        let others = |e: EmbeddingRowView| e.thought_id != rows[n].id;
        assert forall|i: int| 0 <= i < vectors.len() implies ({
            let own = kept(
                after.embeddings,
                |e: EmbeddingRowView| e.thought_id == (#[trigger] rows[i]).id,
            );
            own.len() == 1 && holds_vector(own[0].vector, vectors[i])
        }) by {
            let mine = |e: EmbeddingRowView| e.thought_id == rows[i].id;
            if i < n {
                assert(rows[i].id != rows[n].id);
                assert(front[i] == vectors[i]);
                let both = |e: EmbeddingRowView| others(e) && mine(e);
                law_kept_both(after.embeddings, others, mine);
                law_kept_both(was.embeddings, others, mine);
                law_kept_alike(after.embeddings, both, mine);
                law_kept_alike(was.embeddings, both, mine);
            }
        }
    }
}

/// What was pushed is acknowledged entry by entry, and a vector component by
/// component.
pub proof fn law_handed_on(pushed: Seq<(Uuid, i64)>, vector: Option<Vec<u32>>)
    ensures
        pushes(pushed).len() == pushed.len(),
        forall|i: int|
            0 <= i < pushed.len() ==> (#[trigger] pushes(pushed)[i]).0 == pushed[i].0@ && pushes(
                pushed,
            )[i].1 == pushed[i].1,
        components(vector) is Some <==> vector is Some,
        vector matches Some(v) ==> components(vector) == Some(v@),
{
}

/// Embedding what lacks a vector needs an embedder. It goes through the rows in
/// order, stores for each what the embedder answered to its text, and says how many
/// when it is through; it stops at the first row that cannot be embedded, with the
/// error, and keeps what it has stored until then.
pub proof fn law_embedding_ended<E: TextEmbedder>(
    embedder: Option<E>,
    before: TablesView,
    after: TablesView,
    rows: Seq<ThoughtRowView>,
    r: Result<usize>,
)
    requires
        embedding_ended(embedder, before, after, rows, r),
        forall|i: int, j: int|
            0 <= i < j < rows.len() ==> (#[trigger] rows[i]).id != (#[trigger] rows[j]).id,
    ensures
        embedder is None ==> after == before && r is Err && r.unwrap_err() is NoEmbedder,
        embedder is Some ==> after == (TablesView { embeddings: after.embeddings, ..before }),
        embedder matches Some(e) ==> (r matches Ok(count) ==> count == rows.len() && forall|i: int|
            0 <= i < rows.len() ==> vector_answered(
                e,
                (#[trigger] rows[i]).text,
                kept(after.embeddings, |x: EmbeddingRowView| x.thought_id == rows[i].id),
            )),
        embedder is Some && r is Err ==> rows.len() > 0,
{
    if embedder is Some {
        let e = embedder.unwrap();
        let vectors = choose|vectors: Seq<Seq<u32>>| #[trigger]
            embedded_so(e, before, after, rows, vectors, r);
        law_vectors_stored(before, rows, vectors);
        if r is Ok {
            assert forall|i: int| 0 <= i < rows.len() implies vector_answered(
                e,
                (#[trigger] rows[i]).text,
                kept(after.embeddings, |x: EmbeddingRowView| x.thought_id == rows[i].id),
            ) by {
                let own = kept(
                    after.embeddings,
                    |x: EmbeddingRowView| x.thought_id == rows[i].id,
                );
                let v = choose|v: Vec<u32>| v@ == vectors[i] && #[trigger] answers(
                    e,
                    rows[i].text,
                    Ok(v),
                );
                let s = choose|s: &str|
                    s@ == rows[i].text && #[trigger] call_ensures(
                        E::embed,
                        (&e, s),
                        Ok::<Vec<u32>, Error>(v),
                    );
                assert(own.len() == 1 && holds_vector(own[0].vector, v@));
            }
        }
    }
}

/// One vector is stored, and it is what the embedder answered to the text.
pub open spec fn vector_answered<E: TextEmbedder>(
    e: E,
    text: Seq<char>,
    own: Seq<EmbeddingRowView>,
) -> bool {
    own.len() == 1 && exists|s: &str, v: Vec<u32>|
        s@ == text && #[trigger] call_ensures(E::embed, (&e, s), Ok::<Vec<u32>, Error>(v))
            && holds_vector(own[0].vector, v@)
}

// ---- what callers are told -------------------------------------------------

/// Capturing a thought either adds it as `law_created` says and returns it, with
/// an identifier that no thought had, or changes nothing.
pub proof fn law_create_ended<E: TextEmbedder>(
    before: ThoughtStore<E>,
    after: ThoughtStore<E>,
    text: Seq<char>,
    r: Result<Thought>,
)
    requires
        create_ended(before, after, text, r),
        tags_consistent(before@),
    ensures
        r matches Ok(thought) ==> {
            let row = after@.thoughts.last();
            let now = thought.created_at;
            &&& thought.text@ == text && thought.updated_at == now
            &&& !thought.is_settled && !thought.is_actioned
            &&& forall|i: int|
                0 <= i < before@.thoughts.len() ==> (#[trigger] before@.thoughts[i]).id
                    != thought.id@
            &&& after@.thoughts == before@.thoughts.push(row)
            &&& row.id == thought.id@ && row.text == text && row.created_at == now
            &&& row.updated_at == now && row.settled_at is None && row.deleted_at is None
            &&& row.actioned_at is None && row.dirty
            &&& after@.history == before@.history && after@.saved == before@.saved
            &&& tags_follow(before@, after@, thought.id@, text)
            &&& exists|vector: Option<Seq<u32>>| #[trigger]
                embeds(before.embedder, text, vector) && (if vector is Some {
                    vector_set(before@.embeddings, after@.embeddings, thought.id@, vector)
                } else {
                    after@.embeddings == before@.embeddings
                })
        },
        r matches Err(e) ==> after@ == before@ && (clock_failed(e) || (
        e matches Error::Storage { message } && message@
            == "UNIQUE constraint failed: thoughts.id"@)),
{
    if r is Ok {
        let thought = r.unwrap();
        let vector = choose|vector: Option<Seq<u32>>| #[trigger]
            embeds(before.embedder, text, vector) && after@ == created(
                before@,
                thought.id@,
                text,
                thought.created_at,
                vector,
            );
        law_created(before@, thought.id@, text, thought.created_at, vector);
        law_thought_found(before@.thoughts, thought.id@);
        assert(thought@.text == text);
        assert(thought@.is_settled == thought.is_settled);
    }
}

/// An edit succeeds only for a thought that is there and no tombstone, and then
/// does what `law_edited` says and returns the thought with the new text, settled
/// no longer; otherwise nothing changes, and unless the clock failed the error is
/// that there is no such thought.
pub proof fn law_update_ended<E: TextEmbedder>(
    before: ThoughtStore<E>,
    after: ThoughtStore<E>,
    id: Uuid,
    text: Seq<char>,
    r: Result<Thought>,
)
    requires
        update_ended(before, after, id, text, r),
        tags_consistent(before@),
    ensures
        r matches Ok(thought) ==> {
            let now = thought.updated_at;
            &&& lives(before@.thoughts, id@)
            &&& thought.id@ == id@ && thought.text@ == text && !thought.is_settled
            &&& find_live(before@.thoughts, id@) matches Some(row) && thought.created_at
                == row.created_at && (thought.is_actioned <==> row.actioned_at is Some) && (
            if row.settled_at is Some || now - row.updated_at > 3_600_000 {
                &&& after@.history.len() == before@.history.len() + 1
                &&& after@.history.drop_last() == before@.history
                &&& after@.history.last().thought_id == id@
                &&& after@.history.last().text == row.text
                &&& after@.history.last().archived_at == now
            } else {
                after@.history == before@.history
            })
            &&& after@.thoughts == updated(
                before@.thoughts,
                RowChangeView::Edit { id: id@, text, at: now },
            )
            &&& after@.saved == before@.saved
            &&& tags_follow(before@, after@, id@, text)
            &&& exists|vector: Option<Seq<u32>>| #[trigger]
                embeds(before.embedder, text, vector) && vector_set(
                    before@.embeddings,
                    after@.embeddings,
                    id@,
                    vector,
                )
        },
        r matches Err(e) ==> after@ == before@ && (clock_failed(e) || (e == (Error::NotFound { id })
            && !lives(before@.thoughts, id@))),
{
    law_thought_found(before@.thoughts, id@);
    if r is Ok {
        let thought = r.unwrap();
        let row = find_live(before@.thoughts, id@).unwrap();
        let vector = choose|vector: Option<Seq<u32>>| #[trigger]
            embeds(before.embedder, text, vector) && after@ == edited(
                before@,
                row,
                text,
                thought.updated_at,
                vector,
            );
        law_edited(before@, row, text, thought.updated_at, vector);
        assert(thought@.text == text);
        assert(thought@.is_settled == thought.is_settled);
        assert(thought@.is_actioned == thought.is_actioned);
        assert(thought@.created_at == thought.created_at);
        if after@.history != before@.history {
            assert(after@.history.drop_last() =~= before@.history);
        }
    }
}

/// A deletion succeeds only for a thought that is there and no tombstone, and then
/// does what `law_buried` says; otherwise nothing changes, and unless the clock
/// failed the error is that there is no such thought.
pub proof fn law_delete_ended<E: TextEmbedder>(
    before: ThoughtStore<E>,
    after: ThoughtStore<E>,
    id: Uuid,
    r: Result<()>,
)
    requires
        delete_ended(before, after, id, r),
        tags_consistent(before@),
    ensures
        r is Ok ==> {
            &&& lives(before@.thoughts, id@)
            &&& !lives(after@.thoughts, id@)
            &&& exists|now: i64|
                after@.thoughts == #[trigger] updated(
                    before@.thoughts,
                    RowChangeView::Bury { id: id@, at: now },
                )
            &&& after@.history == before@.history && after@.saved == before@.saved
            &&& vector_set(before@.embeddings, after@.embeddings, id@, None)
            &&& tags_follow(before@, after@, id@, Seq::empty())
        },
        r matches Err(e) ==> after@ == before@ && (clock_failed(e) || (e == (Error::NotFound { id })
            && !lives(before@.thoughts, id@))),
{
    law_thought_found(before@.thoughts, id@);
    if r is Ok {
        let now = choose|now: i64|
            clock_shows(now) && #[trigger] buried(before@, id@, now) == after@;
        law_buried(before@, id@, now);
        law_bury_rows(before@.thoughts, id@, now);
        assert(!lives(after@.thoughts, id@));
    }
}

/// Dealing with a thought, or undoing that, succeeds only for one that is there
/// and no tombstone, does what `law_action_rows` says and returns the thought;
/// otherwise nothing changes, and unless the clock failed the error is that there
/// is no such thought.
pub proof fn law_action_ended<E: TextEmbedder>(
    before: ThoughtStore<E>,
    after: ThoughtStore<E>,
    id: Uuid,
    done: bool,
    r: Result<Thought>,
)
    requires
        action_ended(before, after, id, done, r),
    ensures
        r matches Ok(thought) ==> {
            let now = thought.updated_at;
            &&& lives(before@.thoughts, id@)
            &&& thought.id@ == id@ && thought.is_actioned == done
            &&& find_live(before@.thoughts, id@) matches Some(row) && thought.text@ == row.text
                && thought.created_at == row.created_at && (thought.is_settled
                <==> row.settled_at is Some)
            &&& after@.thoughts == updated(
                before@.thoughts,
                RowChangeView::Action {
                    id: id@,
                    actioned_at: if done {
                        Some(now)
                    } else {
                        None
                    },
                    at: now,
                },
            )
            &&& after@ == (TablesView { thoughts: after@.thoughts, ..before@ })
        },
        r matches Err(e) ==> after@ == before@ && (clock_failed(e) || (e == (Error::NotFound { id })
            && !lives(before@.thoughts, id@))),
{
    law_thought_found(before@.thoughts, id@);
    if r is Ok {
        let thought = r.unwrap();
        assert(thought@.text == thought.text@);
        assert(thought@.is_settled == thought.is_settled);
        assert(thought@.is_actioned == thought.is_actioned);
        assert(thought@.created_at == thought.created_at);
    }
}

/// Saving a search adds it with its name and query as they were given, under an
/// identifier that none had, or changes nothing.
pub proof fn law_save_ended<E: TextEmbedder>(
    before: ThoughtStore<E>,
    after: ThoughtStore<E>,
    name: Seq<char>,
    query: Seq<char>,
    r: Result<SavedSearch>,
)
    requires
        save_ended(before, after, name, query, r),
    ensures
        r matches Ok(search) ==> {
            let row = after@.saved.last();
            &&& search.name@ == name && search.query@ == query
            &&& forall|i: int|
                0 <= i < before@.saved.len() ==> (#[trigger] before@.saved[i]).id != search.id@
            &&& after@.saved == before@.saved.push(row)
            &&& row.id == search.id@ && row.name == name && row.query == query
            &&& row.created_at == search.created_at
            &&& after@ == (TablesView { saved: after@.saved, ..before@ })
        },
        r matches Err(e) ==> after@ == before@ && (clock_failed(e) || (
        e matches Error::Storage { message } && message@
            == "UNIQUE constraint failed: saved_searches.id"@)),
{
    if r is Ok {
        let search = r.unwrap();
        let p = |row: SavedRowView| row.id == search.id@;
        assert(search@.name == search.name@ && search@.query == search.query@);
        assert forall|i: int| 0 <= i < before@.saved.len() implies (
        #[trigger] before@.saved[i]).id != search.id@ by {
            if p(before@.saved[i]) {
                assert(any_where(before@.saved, p));
            }
        }
    }
}

/// Deleting a saved search leaves exactly those with another identifier, as they
/// stand.
pub proof fn law_saved_besides(saved: Seq<SavedRowView>, id: Seq<u8>) -> (at: Seq<int>)
    ensures
        lists_exactly(
            saved_besides(saved, id),
            saved,
            |row: SavedRowView| row.id != id,
            |a: SavedRowView, b: SavedRowView| false,
            at,
        ),
{
    law_kept_lists(saved, |row: SavedRowView| row.id != id)
}

/// A change that arrives is taken over as `law_applied` says where it wins, and
/// otherwise nothing changes. A tombstone has no vector; any other thought gets
/// what the embedder makes of its text.
pub proof fn law_arrives<E: TextEmbedder>(
    embedder: Option<E>,
    before: TablesView,
    after: TablesView,
    change: ThoughtChangeView,
)
    requires
        arrives(embedder, before, after, change),
    ensures
        ({
            let newer = find_row(before.thoughts, change.id) matches Some(local)
                ==> local.updated_at < change.updated_at;
            &&& !newer ==> after == before
            &&& newer ==> exists|vector: Option<Seq<u32>>| #[trigger]
                applied(before, change, vector) == after && (if change.deleted_at is Some {
                    vector is None
                } else {
                    embeds(embedder, change.text, vector)
                })
        }),
{
    if wins(before, change) {
        let vector = choose|vector: Option<Seq<u32>>| #[trigger]
            change_embeds(embedder, change, vector) && after == applied(before, change, vector);
        assert(applied(before, change, vector) == after);
    }
}

// ---- the journal -----------------------------------------------------------

/// The journal tells all that was changed: the statements that an operation has
/// added to it, run on the tables as they were, give the tables as they are.
pub proof fn law_journal<E: TextEmbedder>(before: ThoughtStore<E>, after: ThoughtStore<E>)
    requires
        after.follows(before),
    ensures
        ({
            let old = before.journal@.len() as int;
            let new = after.journal@.len() as int;
            &&& old <= new
            &&& after.journal@.subrange(0, old) == before.journal@
            &&& replay(before@, after.journal@.subrange(old, new)) == after@
            &&& after.embedder == before.embedder
        }),
{
    let old = before.journal@.len() as int;
    let new = after.journal@.len() as int;
    assert(after.journal@.subrange(0, old) =~= before.journal@);
    assert(after.journal@.subrange(old, new) =~= after.journal@.skip(old));
}

/// Statements are run one after the other. One that inserts a row appends it; one
/// that stores the vector of a thought replaces what it had; one that deletes
/// leaves exactly the rows of the others; each touches one table.
pub proof fn law_statements(t: TablesView, done: Seq<Statement>, statement: Statement)
    ensures
        replay(t, Seq::empty()) == t,
        replay(t, done.push(statement)) == step(replay(t, done), statement),
        statement matches Statement::InsertThought { row } ==> step(t, statement) == (TablesView {
            thoughts: t.thoughts.push(row@),
            ..t
        }),
        statement matches Statement::UpdateThoughts { change } ==> step(t, statement)
            == (TablesView { thoughts: updated(t.thoughts, change@), ..t }),
        statement matches Statement::InsertHistory { row } ==> step(t, statement) == (TablesView {
            history: t.history.push(row@),
            ..t
        }),
        statement matches Statement::PutEmbedding { row } ==> step(t, statement) == (TablesView {
            embeddings: kept(
                t.embeddings,
                |e: EmbeddingRowView| e.thought_id != row.thought_id@,
            ).push(row@),
            ..t
        }),
        statement matches Statement::DeleteEmbedding { thought_id } ==> step(t, statement)
            == (TablesView {
            embeddings: kept(t.embeddings, |e: EmbeddingRowView| e.thought_id != thought_id@),
            ..t
        }),
        statement matches Statement::DeleteLinks { thought_id } ==> step(t, statement)
            == (TablesView {
            links: kept(t.links, |l: LinkRowView| l.thought_id != thought_id@),
            ..t
        }),
        statement matches Statement::InsertSaved { row } ==> step(t, statement) == (TablesView {
            saved: t.saved.push(row@),
            ..t
        }),
        statement matches Statement::DeleteSaved { id } ==> step(t, statement) == (TablesView {
            saved: kept(t.saved, |s: SavedRowView| s.id != id@),
            ..t
        }),
{
    assert(done.push(statement).drop_last() =~= done);
}

// ---- the rows as they are stored -------------------------------------------

/// A row shows each of its columns.
pub proof fn law_row_columns(
    thought: ThoughtRow,
    history: HistoryRow,
    embedding: EmbeddingRow,
    link: LinkRow,
    saved: SavedRow,
)
    ensures
        thought@.id == thought.id@ && thought@.text == thought.text@,
        thought@.created_at == thought.created_at && thought@.updated_at == thought.updated_at,
        thought@.settled_at == thought.settled_at && thought@.deleted_at == thought.deleted_at,
        thought@.actioned_at == thought.actioned_at && thought@.dirty == thought.dirty,
        history@.thought_id == history.thought_id@ && history@.text == history.text@,
        history@.archived_at == history.archived_at,
        embedding@.thought_id == embedding.thought_id@ && embedding@.vector == embedding.vector@,
        link@.thought_id == link.thought_id@ && link@.name == link.name@,
        saved@.id == saved.id@ && saved@.name == saved.name@,
        saved@.query == saved.query@ && saved@.created_at == saved.created_at,
{
}

/// The tables show each of their rows, in order.
pub proof fn law_table_rows(t: Tables)
    ensures
        t@.thoughts.len() == t.thoughts@.len() && forall|i: int|
            0 <= i < t.thoughts@.len() ==> #[trigger] t@.thoughts[i] == t.thoughts@[i]@,
        t@.history.len() == t.history@.len() && forall|i: int|
            0 <= i < t.history@.len() ==> #[trigger] t@.history[i] == t.history@[i]@,
        t@.embeddings.len() == t.embeddings@.len() && forall|i: int|
            0 <= i < t.embeddings@.len() ==> #[trigger] t@.embeddings[i] == t.embeddings@[i]@,
        t@.tags.len() == t.tags@.len() && forall|i: int|
            0 <= i < t.tags@.len() ==> #[trigger] t@.tags[i] == t.tags@[i]@,
        t@.links.len() == t.links@.len() && forall|i: int|
            0 <= i < t.links@.len() ==> #[trigger] t@.links[i] == t.links@[i]@,
        t@.saved.len() == t.saved@.len() && forall|i: int|
            0 <= i < t.saved@.len() ==> #[trigger] t@.saved[i] == t.saved@[i]@,
{
}

} // verus!
