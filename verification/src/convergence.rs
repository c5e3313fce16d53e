//! Synchronising makes devices agree.

use vstd::prelude::*;

use crate::embed::TextEmbedder;
use crate::laws::{law_applied_replaces, law_feed_complete};
use crate::model::{applied, find_row, row_of, wins};
use crate::query::{change_of, changes_of, feed, later, outbox};
use crate::rank::{law_ranked_contains, law_ranked_pairwise};
use crate::rows::{kept, law_first_where, law_kept_contains, law_kept_pairwise, pairwise};
use crate::service::arrived;
use crate::sorting::OldestChangeFirst;
use crate::sound::{law_found, thoughts_distinct};
use crate::store::{arrives, change_embeds};
use crate::sync::{SyncCursor, ThoughtChangeView};
use crate::tables::{TablesView, ThoughtRow, ThoughtRowView};

verus! {

/// The later of what is stored of a thought and a change of it; what is stored
/// on a tie.
pub open spec fn later_of(local: Option<ThoughtRowView>, change: ThoughtChangeView) -> Option<
    ThoughtRowView,
> {
    match local {
        Some(row) => if row.updated_at < change.updated_at {
            Some(row_of(change))
        } else {
            local
        },
        None => Some(row_of(change)),
    }
}

/// The latest of what is stored of a thought and the changes of it.
pub open spec fn latest(
    local: Option<ThoughtRowView>,
    changes: Seq<ThoughtChangeView>,
    id: Seq<u8>,
) -> Option<ThoughtRowView>
    decreases changes.len(),
{
    if changes.len() == 0 {
        local
    } else {
        let before = latest(local, changes.drop_last(), id);
        if changes.last().id == id {
            later_of(before, changes.last())
        } else {
            before
        }
    }
}

/// After changes have arrived, the latest of each thought is stored.
pub proof fn law_latest_is_stored<E: TextEmbedder>(
    embedder: Option<E>,
    before: TablesView,
    after: TablesView,
    changes: Seq<ThoughtChangeView>,
    id: Seq<u8>,
)
    requires
        arrived(embedder, before, after, changes),
    ensures
        find_row(after.thoughts, id) == latest(find_row(before.thoughts, id), changes, id),
    decreases changes.len(),
{
    if changes.len() > 0 {
        let change = changes.last();
        let mid = choose|mid: TablesView|
            arrived(embedder, before, mid, changes.drop_last()) && #[trigger] arrives(
                embedder,
                mid,
                after,
                change,
            );
        law_latest_is_stored(embedder, before, mid, changes.drop_last(), id);
        if wins(mid, change) {
            let vector = choose|vector: Option<Seq<u32>>| #[trigger]
                change_embeds(embedder, change, vector) && after == applied(
                    mid,
                    change,
                    vector,
                );
            law_applied_replaces(mid, change, vector, id);
        }
    }
}

proof fn lemma_latest_bounds(
    local: Option<ThoughtRowView>,
    changes: Seq<ThoughtChangeView>,
    id: Seq<u8>,
)
    ensures
        local matches Some(row) ==> (latest(local, changes, id) matches Some(x) && x.updated_at
            >= row.updated_at),
        forall|i: int|
            0 <= i < changes.len() && (#[trigger] changes[i]).id == id ==> (latest(
                local,
                changes,
                id,
            ) matches Some(x) && x.updated_at >= changes[i].updated_at),
    decreases changes.len(),
{
    if changes.len() > 0 {
        let front = changes.drop_last();
        lemma_latest_bounds(local, front, id);
        assert forall|i: int| 0 <= i < changes.len() && (#[trigger] changes[i]).id == id implies (
        latest(local, changes, id) matches Some(x) && x.updated_at >= changes[i].updated_at) by {
            if i < front.len() {
                assert(front[i] == changes[i]);
            }
        }
    }
}

/// No change is lost: once it has arrived, what is stored of its thought is at
/// least as late.
pub proof fn law_no_change_is_lost<E: TextEmbedder>(
    embedder: Option<E>,
    before: TablesView,
    after: TablesView,
    changes: Seq<ThoughtChangeView>,
    i: int,
)
    requires
        arrived(embedder, before, after, changes),
        0 <= i < changes.len(),
    ensures
        find_row(after.thoughts, changes[i].id) matches Some(row) && row.updated_at
            >= changes[i].updated_at,
{
    law_latest_is_stored(embedder, before, after, changes, changes[i].id);
    lemma_latest_bounds(find_row(before.thoughts, changes[i].id), changes, changes[i].id);
}

/// The change that a thought's row shows, if it is there.
pub open spec fn state_of(t: TablesView, id: Seq<u8>) -> Option<ThoughtChangeView> {
    match find_row(t.thoughts, id) {
        Some(row) => Some(change_of(row)),
        None => None,
    }
}

/// The relation by which no two rows are of the same thought.
spec fn apart() -> spec_fn(ThoughtRowView, ThoughtRowView) -> bool {
    |a: ThoughtRowView, b: ThoughtRowView| a.id != b.id
}

proof fn lemma_latest_of_rows(
    local: Option<ThoughtRowView>,
    rows: Seq<ThoughtRowView>,
    id: Seq<u8>,
)
    requires
        pairwise(rows, apart()),
    ensures
        latest(local, changes_of(rows), id) == (match find_row(rows, id) {
            Some(row) => later_of(local, change_of(row)),
            None => local,
        }),
    decreases rows.len(),
{
    if rows.len() > 0 {
        let front = rows.drop_last();
        assert forall|i: int, j: int| 0 <= i < j < front.len() implies apart()(
            #[trigger] front[i],
            #[trigger] front[j],
        ) by {
            assert(apart()(rows[i], rows[j]));
        }
        lemma_latest_of_rows(local, front, id);
        assert(changes_of(rows).drop_last() =~= changes_of(front));
        assert(changes_of(rows).last() == change_of(rows.last()));
        if rows.last().id == id {
            let p = |row: ThoughtRowView| row.id == id;
            law_first_where(front, p);
            if find_row(front, id) is Some {
                let k = choose|k: int|
                    0 <= k < front.len() && front[k] == find_row(front, id).unwrap();
                assert(apart()(rows[k], rows[rows.len() - 1]));
            }
        }
    }
}

/// Rows of distinct thoughts among those of a table are found as they are there.
proof fn lemma_found_among(rows: Seq<ThoughtRowView>, some: Seq<ThoughtRowView>, id: Seq<u8>)
    requires
        thoughts_distinct(rows),
        forall|row: ThoughtRowView| #[trigger] some.contains(row) ==> rows.contains(row),
    ensures
        find_row(some, id) matches Some(row) ==> find_row(rows, id) == Some(row),
        find_row(some, id) is None ==> (find_row(rows, id) matches Some(row) ==> !some.contains(
            row,
        )),
{
    let p = |row: ThoughtRowView| row.id == id;
    law_first_where(some, p);
    law_first_where(rows, p);
    match find_row(some, id) {
        Some(row) => {
            assert(rows.contains(row));
            let k = choose|k: int| 0 <= k < rows.len() && rows[k] == row;
            law_found(rows, k);
        },
        None => {
            if find_row(rows, id) is Some && some.contains(find_row(rows, id).unwrap()) {
                let k = choose|k: int|
                    0 <= k < some.len() && some[k] == find_row(rows, id).unwrap();
                assert(!p(some[k]));
            }
        },
    }
}

proof fn lemma_outbox(rows: Seq<ThoughtRowView>, id: Seq<u8>)
    requires
        thoughts_distinct(rows),
    ensures
        pairwise(outbox(rows), apart()),
        find_row(outbox(rows), id) == (match find_row(rows, id) {
            Some(row) => if row.dirty {
                Some(row)
            } else {
                None
            },
            None => None,
        }),
{
    let p = |row: ThoughtRowView| row.dirty;
    law_kept_pairwise(rows, p, apart());
    law_ranked_pairwise::<ThoughtRow, OldestChangeFirst>(kept(rows, p), apart());
    assert forall|row: ThoughtRowView| #[trigger] outbox(rows).contains(row) == (rows.contains(row)
        && row.dirty) by {
        law_ranked_contains::<ThoughtRow, OldestChangeFirst>(kept(rows, p), row);
        law_kept_contains(rows, p, row);
    }
    lemma_found_among(rows, outbox(rows), id);
    law_first_where(outbox(rows), |row: ThoughtRowView| row.id == id);
    law_first_where(rows, |row: ThoughtRowView| row.id == id);
    if find_row(outbox(rows), id) is Some {
        assert(outbox(rows).contains(find_row(outbox(rows), id).unwrap()));
    } else if find_row(rows, id) is Some {
        assert(rows.contains(find_row(rows, id).unwrap()));
        assert(!outbox(rows).contains(find_row(rows, id).unwrap()));
    }
}

proof fn lemma_feed(rows: Seq<ThoughtRowView>, id: Seq<u8>)
    requires
        thoughts_distinct(rows),
    ensures
        pairwise(feed(rows, None), apart()),
        find_row(feed(rows, None), id) == find_row(rows, id),
{
    let none: Option<SyncCursor> = None;
    let p = |row: ThoughtRowView| none matches Some(c) ==> later(row, c);
    law_kept_pairwise(rows, p, apart());
    law_ranked_pairwise::<ThoughtRow, OldestChangeFirst>(kept(rows, p), apart());
    assert forall|row: ThoughtRowView| #[trigger] feed(rows, None).contains(row) == rows.contains(
        row,
    ) by {
        law_feed_complete(rows, row);
    }
    lemma_found_among(rows, feed(rows, None), id);
    law_first_where(rows, |row: ThoughtRowView| row.id == id);
    if find_row(feed(rows, None), id) is None && find_row(rows, id) is Some {
        assert(rows.contains(find_row(rows, id).unwrap()));
        assert(feed(rows, None).contains(find_row(rows, id).unwrap()));
    }
}

/// What one device has of a thought and has not marked for pushing, the other
/// has at least as late.
pub open spec fn clean_rows_known(client: TablesView, server: TablesView) -> bool {
    forall|id: Seq<u8>|
        (#[trigger] find_row(client.thoughts, id) matches Some(row) && !row.dirty) ==> (find_row(
            server.thoughts,
            id,
        ) matches Some(x) && x.updated_at >= find_row(client.thoughts, id).unwrap().updated_at)
}

/// Where two devices have a thought from the same millisecond, they have it
/// alike.
pub open spec fn ties_agree(client: TablesView, server: TablesView) -> bool {
    forall|id: Seq<u8>|
        (#[trigger] find_row(client.thoughts, id) matches Some(a) && find_row(
            server.thoughts,
            id,
        ) matches Some(b) && a.updated_at == b.updated_at) ==> state_of(client, id) == state_of(
            server,
            id,
        )
}

/// One round of synchronisation makes client and server agree on every thought,
/// tombstones included: the client pushes what it has marked, and then reads the
/// server's change feed.
pub proof fn law_sync_converges<E: TextEmbedder, F: TextEmbedder>(
    server: TablesView,
    client: TablesView,
    pushed: TablesView,
    pulled: TablesView,
    server_embedder: Option<E>,
    client_embedder: Option<F>,
    id: Seq<u8>,
)
    requires
        thoughts_distinct(server.thoughts),
        thoughts_distinct(client.thoughts),
        thoughts_distinct(pushed.thoughts),
        clean_rows_known(client, server),
        ties_agree(client, server),
        arrived(server_embedder, server, pushed, changes_of(outbox(client.thoughts))),
        arrived(client_embedder, client, pulled, changes_of(feed(pushed.thoughts, None))),
    ensures
        state_of(pushed, id) == state_of(pulled, id),
{
    let sent = outbox(client.thoughts);
    let read = feed(pushed.thoughts, None);
    let mine = find_row(client.thoughts, id);
    let theirs = find_row(server.thoughts, id);
    law_latest_is_stored(server_embedder, server, pushed, changes_of(sent), id);
    law_latest_is_stored(client_embedder, client, pulled, changes_of(read), id);
    lemma_outbox(client.thoughts, id);
    lemma_feed(pushed.thoughts, id);
    lemma_latest_of_rows(theirs, sent, id);
    lemma_latest_of_rows(mine, read, id);
    law_first_where(client.thoughts, |row: ThoughtRowView| row.id == id);
    law_first_where(pushed.thoughts, |row: ThoughtRowView| row.id == id);
    assert(state_of(pushed, id) == state_of(pulled, id));
}

} // verus!
