//! What the listings hold, row by row: which rows of the tables they show, in
//! which order, and what of each row.

use vstd::prelude::*;

use crate::clock::{clock_failed, clock_shows, epoch_millis, law_stamp, stamped};
use crate::decimal::decimal;
use crate::error::{error_text, Error, Result};
use crate::model::{find_live, find_row, has_vector, live, missing};
use crate::order::{
    blob_less, codes, folded, folded_code, has_prefix, lex_less, parts_at, same_name,
};
use crate::query::{
    carries_tag, entries, entry_of, feed, last_id, later, outbox, pages_some_time, past, same_tag,
    shows, shows_changes, shows_page, shows_saved, shows_some_time, stale, stale_before,
    stale_some_time, stream, stream_from, suggested, tag_uses, tagged, unreadable, uses, Cursor,
    Page,
};
use crate::rank::{law_ranked_kept_lists, law_ranked_lists, ranked, RowOrder};
use crate::rows::{
    any_where, first_where, law_first_where, law_kept_alike, law_kept_lists, law_limited,
    law_lists_alike, law_lists_count, lemma_first_index, limited, lists_exactly, seen,
};
use crate::saved_search::SavedSearch;
use crate::sorting::{
    keyed_less, LatestFirst, MostUsedFirst, NewestFirst, OldestChangeFirst, OldestEntryFirst,
    OldestSavedFirst, TagUse, TagUseView,
};
use crate::sync::{SyncCursor, ThoughtChange};
use crate::tables::{
    bad_id, EmbeddingRowView, HistoryRow, HistoryRowView, LinkRowView, SavedRow, SavedRowView,
    TablesView, ThoughtRow, ThoughtRowView,
};
use crate::text::{ascii_lower, lowercased};
use crate::thought::Thought;

verus! {

// ---- orders ----------------------------------------------------------------

/// `a` comes before `b` by the first byte in which they differ, or as a part of
/// `b` that `b` starts with.
pub open spec fn bytes_before(a: Seq<u8>, b: Seq<u8>) -> bool {
    exists|k: int|
        0 <= k <= a.len() && k < b.len() && #[trigger] a.take(k) == b.take(k) && (k < a.len()
            ==> a[k] < b[k])
}

/// Identifiers are ordered byte by byte.
pub proof fn law_blob_order(a: Seq<u8>, b: Seq<u8>)
    ensures
        blob_less(a, b) == bytes_before(a, b),
{
    if blob_less(a, b) {
        let k = choose|k: int| parts_at(codes(a), codes(b), k);
        assert forall|i: int| 0 <= i < k implies a[i] == b[i] by {
            assert(codes(a)[i] == codes(b)[i]);
        }
        assert(a.take(k) =~= b.take(k));
    }
    if bytes_before(a, b) {
        let k = choose|k: int|
            0 <= k <= a.len() && k < b.len() && #[trigger] a.take(k) == b.take(k) && (k < a.len()
                ==> a[k] < b[k]);
        assert forall|i: int| 0 <= i < k implies codes(a)[i] == codes(b)[i] by {
            assert(a.take(k)[i] == b.take(k)[i]);
        }
        assert(parts_at(codes(a), codes(b), k));
    }
}

/// By time, and those of one time by identifier.
pub open spec fn sooner(x: i64, a: Seq<u8>, y: i64, b: Seq<u8>) -> bool {
    x < y || (x == y && bytes_before(a, b))
}

proof fn lemma_sooner(x: i64, a: Seq<u8>, y: i64, b: Seq<u8>)
    ensures
        keyed_less(x, a, y, b) == sooner(x, a, y, b),
{
    law_blob_order(a, b);
}

/// The same letter up to ASCII case.
pub open spec fn same_letter(a: char, b: char) -> bool {
    ||| a == b
    ||| 'A' <= a && a <= 'Z' && b as int == a as int + 32
    ||| 'A' <= b && b <= 'Z' && a as int == b as int + 32
}

/// The same name up to ASCII case.
pub open spec fn same_letters(a: Seq<char>, b: Seq<char>) -> bool {
    a.len() == b.len() && forall|i: int|
        0 <= i < a.len() ==> same_letter(#[trigger] a[i], b[i])
}

/// Names are compared letter by letter, up to ASCII case.
pub proof fn law_same_name(a: Seq<char>, b: Seq<char>)
    ensures
        same_name(a, b) == same_letters(a, b),
{
    if same_name(a, b) {
        assert(folded(a).len() == folded(b).len());
        assert forall|i: int| 0 <= i < a.len() implies same_letter(#[trigger] a[i], b[i]) by {
            assert(folded(a)[i] == folded(b)[i]);
            assert(folded_code(a[i]) == folded_code(b[i]));
        }
    }
    if same_letters(a, b) {
        assert forall|i: int| 0 <= i < a.len() implies #[trigger] folded(a)[i] == folded(b)[i] by {
            assert(same_letter(a[i], b[i]));
        }
        assert(folded(a) =~= folded(b));
    }
}

/// A name has a prefix where it starts with its letters, up to ASCII case.
pub proof fn law_has_prefix(name: Seq<char>, prefix: Seq<char>)
    ensures
        has_prefix(name, prefix) == (prefix.len() <= name.len() && forall|i: int|
            0 <= i < prefix.len() ==> same_letter(#[trigger] name[i], prefix[i])),
{
    if prefix.len() <= name.len() {
        let start = name.take(prefix.len() as int);
        law_same_name(start, prefix);
        if has_prefix(name, prefix) {
            assert forall|i: int| 0 <= i < prefix.len() implies same_letter(
                #[trigger] name[i],
                prefix[i],
            ) by {
                assert(same_letter(start[i], prefix[i]));
            }
        }
        if forall|i: int| 0 <= i < prefix.len() ==> same_letter(#[trigger] name[i], prefix[i]) {
            assert forall|i: int| 0 <= i < start.len() implies same_letter(
                #[trigger] start[i],
                prefix[i],
            ) by {
                assert(same_letter(name[i], prefix[i]));
            }
        }
    }
}

/// `a` comes before `b` in the order of their letters without regard to ASCII
/// case: by the first in which they differ, or as a part that `b` starts with.
pub open spec fn letters_before(a: Seq<char>, b: Seq<char>) -> bool {
    exists|k: int| #[trigger] letters_part(a, b, k)
}

/// `a` and `b` have the same letters up to position `k`, where `a` ends or has
/// the earlier letter.
pub open spec fn letters_part(a: Seq<char>, b: Seq<char>, k: int) -> bool {
    &&& 0 <= k <= a.len() && k < b.len()
    &&& forall|i: int| 0 <= i < k ==> same_letter(#[trigger] a[i], b[i])
    &&& k < a.len() ==> ascii_lower(a[k]) < ascii_lower(b[k])
}

/// Names are ordered by their letters without regard to ASCII case.
pub proof fn law_letters_order(a: Seq<char>, b: Seq<char>)
    ensures
        lex_less(folded(a), folded(b)) == letters_before(a, b),
{
    if lex_less(folded(a), folded(b)) {
        let k = choose|k: int| parts_at(folded(a), folded(b), k);
        assert forall|i: int| 0 <= i < k implies same_letter(#[trigger] a[i], b[i]) by {
            assert(folded(a)[i] == folded(b)[i]);
        }
        if k < a.len() {
            assert(folded(a)[k] < folded(b)[k]);
        }
        assert(letters_part(a, b, k));
    }
    if letters_before(a, b) {
        let k = choose|k: int| #[trigger] letters_part(a, b, k);
        assert forall|i: int| 0 <= i < k implies folded(a)[i] == folded(b)[i] by {
            assert(same_letter(a[i], b[i]));
        }
        assert(parts_at(folded(a), folded(b), k));
    }
}

// ---- the edit history ------------------------------------------------------

/// The edit history of a thought holds exactly the history rows of that thought,
/// each as often as it is there, from the earliest archived to the latest; those
/// of one time stand as they were archived.
pub proof fn law_history_lists(history: Seq<HistoryRowView>, id: Seq<u8>) -> (at: Seq<int>)
    ensures
        lists_exactly(
            entries(history, id),
            history,
            |row: HistoryRowView| row.thought_id == id,
            |a: HistoryRowView, b: HistoryRowView| a.archived_at < b.archived_at,
            at,
        ),
        forall|row: HistoryRowView| #[trigger]
            entries(history, id).contains(row) <==> history.contains(row) && row.thought_id == id,
        entries(history, id).to_multiset() == history.to_multiset().filter(
            |row: HistoryRowView| row.thought_id == id,
        ),
        entries(history, id).len() == history.to_multiset().filter(
            |row: HistoryRowView| row.thought_id == id,
        ).len(),
        forall|i: int, j: int|
            0 <= i < j < entries(history, id).len() ==> (#[trigger] entries(
                history,
                id,
            )[i]).archived_at <= (#[trigger] entries(history, id)[j]).archived_at,
{
    broadcast use vstd::seq_lib::group_to_multiset_ensures;

    let p = |row: HistoryRowView| row.thought_id == id;
    let before = |a: HistoryRowView, b: HistoryRowView| a.archived_at < b.archived_at;
    let out = entries(history, id);
    let at = law_ranked_kept_lists::<HistoryRow, OldestEntryFirst>(history, p);
    law_lists_alike(
        out,
        history,
        p,
        |a: HistoryRowView, b: HistoryRowView| OldestEntryFirst::before(a, b),
        p,
        before,
        at,
    );
    law_lists_count(out, history, p, before, at);
    assert forall|row: HistoryRowView| #[trigger] out.contains(row) <==> history.contains(row)
        && row.thought_id == id by {
        lemma_lists_contains(out, history, p, before, at, row);
    }
    assert forall|i: int, j: int| 0 <= i < j < out.len() implies (#[trigger] out[i]).archived_at <= (
    #[trigger] out[j]).archived_at by {
        assert(at[i] != at[j]);
    }
    at
}

proof fn lemma_lists_contains<V>(
    out: Seq<V>,
    rows: Seq<V>,
    p: spec_fn(V) -> bool,
    before: spec_fn(V, V) -> bool,
    at: Seq<int>,
    row: V,
)
    requires
        lists_exactly(out, rows, p, before, at),
    ensures
        out.contains(row) <==> rows.contains(row) && p(row),
{
    if out.contains(row) {
        let k = choose|k: int| 0 <= k < out.len() && out[k] == row;
        assert(0 <= at[k] < rows.len() && rows[at[k]] == row);
    }
    if rows.contains(row) && p(row) {
        let i = choose|i: int| 0 <= i < rows.len() && rows[i] == row;
        assert(p(rows[i]));
        let k = choose|k: int| 0 <= k < at.len() && at[k] == i;
        assert(0 <= at[k] < rows.len() && out[k] == row);
    }
}

/// An entry of the edit history shows the text that was replaced, and when.
pub proof fn law_history_entry(row: HistoryRowView)
    ensures
        entry_of(row).text == row.text,
        entry_of(row).archived_at == row.archived_at,
{
}

// ---- the stream ------------------------------------------------------------

/// The row comes behind the cursor: captured earlier, or at the same time and
/// with a smaller identifier.
pub open spec fn behind(row: ThoughtRowView, cursor: Cursor) -> bool {
    sooner(row.created_at, row.id, cursor.created_at, cursor.id@)
}

/// The stream shows every thought that is no tombstone, the latest captured
/// first, and of those of one time the largest identifier first; from a cursor
/// on, it shows those of them that come behind it.
pub proof fn law_stream_lists(rows: Seq<ThoughtRowView>, before: Option<Cursor>) -> (at: Seq<int>)
    ensures
        lists_exactly(
            stream_from(rows, before),
            rows,
            |row: ThoughtRowView|
                row.deleted_at is None && (before matches Some(c) ==> behind(row, c)),
            |a: ThoughtRowView, b: ThoughtRowView| sooner(b.created_at, b.id, a.created_at, a.id),
            at,
        ),
        before is None ==> stream_from(rows, before) == stream(rows),
{
    let p = |row: ThoughtRowView| row.deleted_at is None && (before matches Some(c) ==> past(row, c));
    let q = |row: ThoughtRowView|
        row.deleted_at is None && (before matches Some(c) ==> behind(row, c));
    let less = |a: ThoughtRowView, b: ThoughtRowView| NewestFirst::before(a, b);
    let sooner_of = |a: ThoughtRowView, b: ThoughtRowView|
        sooner(b.created_at, b.id, a.created_at, a.id);
    let at = law_ranked_kept_lists::<ThoughtRow, NewestFirst>(rows, p);
    assert forall|i: int| 0 <= i < rows.len() implies p(#[trigger] rows[i]) == q(rows[i]) by {
        if before is Some {
            let c = before.unwrap();
            lemma_sooner(rows[i].created_at, rows[i].id, c.created_at, c.id@);
        }
    }
    assert forall|a: ThoughtRowView, b: ThoughtRowView| #[trigger] less(a, b) == sooner_of(a, b) by {
        lemma_sooner(b.created_at, b.id, a.created_at, a.id);
    }
    law_kept_alike(
        rows,
        p,
        |row: ThoughtRowView| live(row) && (before matches Some(c) ==> past(row, c)),
    );
    law_lists_alike(stream_from(rows, before), rows, p, less, q, sooner_of, at);
    if before is None {
        law_kept_alike(rows, p, |row: ThoughtRowView| live(row));
    }
    at
}

/// What readers see of a row at a time.
pub open spec fn reads(thought: Thought, row: ThoughtRowView, now: i64) -> bool {
    &&& thought.id@ == row.id
    &&& thought.text@ == row.text
    &&& thought.created_at == row.created_at
    &&& thought.updated_at == row.updated_at
    &&& thought.is_settled <==> row.settled_at is Some || now - row.updated_at > 3_600_000
    &&& thought.is_actioned <==> row.actioned_at is Some
}

/// A listing shows each of its rows, in order, as readers see it, and fails
/// exactly where one of them has a damaged identifier.
pub proof fn law_shows(r: Result<Vec<Thought>>, rows: Seq<ThoughtRowView>, now: i64)
    requires
        shows(r, rows, now),
    ensures
        r is Ok <==> forall|i: int| 0 <= i < rows.len() ==> (#[trigger] rows[i]).id.len() == 16,
        r matches Ok(out) ==> out@.len() == rows.len() && forall|i: int|
            0 <= i < rows.len() ==> reads(#[trigger] out@[i], rows[i], now),
{
    law_first_where(rows, |row: ThoughtRowView| row.id.len() != 16);
    if r is Ok {
        let out = r.unwrap();
        assert(seen(out@).len() == rows.len());
        assert forall|i: int| 0 <= i < rows.len() implies reads(#[trigger] out@[i], rows[i], now) by {
            assert(seen(out@)[i] == out@[i]@);
        }
    } else {
        let row = unreadable(rows).unwrap();
        let i = choose|i: int| 0 <= i < rows.len() && rows[i] == row;
        assert(rows[i].id.len() != 16);
    }
}

/// A page shows the thoughts that come next in the stream, as many as were asked
/// for where there are so many, and all that are left otherwise. There is a
/// cursor exactly where more follow, and it is at the last thought of the page;
/// on an empty page it is where the page began.
pub proof fn law_page(
    r: Result<Page>,
    rows: Seq<ThoughtRowView>,
    before: Option<Cursor>,
    limit: usize,
    now: i64,
)
    requires
        shows_page(r, rows, before, limit, now),
    ensures
        ({
            let rest = stream_from(rows, before);
            let n = if rest.len() <= limit {
                rest.len() as int
            } else {
                limit as int
            };
            let read = if rest.len() <= limit {
                rest.len() as int
            } else {
                limit + 1
            };
            &&& r is Ok <==> forall|i: int| 0 <= i < read ==> (#[trigger] rest[i]).id.len() == 16
            &&& r matches Ok(page) ==> {
                &&& page.thoughts@.len() == n
                &&& forall|i: int| 0 <= i < n ==> reads(#[trigger] page.thoughts@[i], rest[i], now)
                &&& page.next_cursor is Some <==> rest.len() > limit
                &&& page.next_cursor matches Some(c) ==> if limit > 0 {
                    c.created_at == rest[limit - 1].created_at && c.id@ == rest[limit - 1].id
                } else {
                    match before {
                        Some(b) => c == b,
                        None => c.created_at == i64::MAX && c.id@.len() == 16 && forall|i: int|
                            0 <= i < 16 ==> #[trigger] c.id@[i] == 0xff,
                    }
                }
            }
        }),
{
    let rest = stream_from(rows, before);
    let read = limited(rest, (limit + 1) as nat);
    let shown = limited(rest, limit as nat);
    law_limited(rest, (limit + 1) as nat);
    law_limited(rest, limit as nat);
    law_first_where(read, |row: ThoughtRowView| row.id.len() != 16);
    if r is Ok {
        let page = r.unwrap();
        assert(seen(page.thoughts@).len() == shown.len());
        assert forall|i: int| 0 <= i < shown.len() implies reads(
            #[trigger] page.thoughts@[i],
            rest[i],
            now,
        ) by {
            assert(seen(page.thoughts@)[i] == page.thoughts@[i]@);
            assert(shown[i] == rest[i]);
        }
        assert forall|i: int| 0 <= i < read.len() implies (#[trigger] rest[i]).id.len() == 16 by {
            assert(read[i] == rest[i]);
        }
        if page.next_cursor is Some && limit == 0 && before is None {
            assert forall|i: int| 0 <= i < 16 implies #[trigger] page.next_cursor.unwrap().id@[i] == 0xff by {
                assert(last_id()[i] == 0xff);
            }
        }
    } else {
        let row = unreadable(read).unwrap();
        let i = choose|i: int| 0 <= i < read.len() && read[i] == row;
        assert(read[i] == rest[i]);
        assert(rest[i].id.len() != 16);
    }
}

// ---- sync ------------------------------------------------------------------

/// The order in which changes are handed out: by time of modification, then by
/// identifier.
pub open spec fn changed_sooner(a: ThoughtRowView, b: ThoughtRowView) -> bool {
    sooner(a.updated_at, a.id, b.updated_at, b.id)
}

/// What has yet to be pushed are the dirty rows, tombstones among them, the
/// earliest modified first.
pub proof fn law_outbox_lists(rows: Seq<ThoughtRowView>) -> (at: Seq<int>)
    ensures
        lists_exactly(
            outbox(rows),
            rows,
            |row: ThoughtRowView| row.dirty,
            |a: ThoughtRowView, b: ThoughtRowView| changed_sooner(a, b),
            at,
        ),
{
    let p = |row: ThoughtRowView| row.dirty;
    let less = |a: ThoughtRowView, b: ThoughtRowView| OldestChangeFirst::before(a, b);
    let at = law_ranked_kept_lists::<ThoughtRow, OldestChangeFirst>(rows, p);
    assert forall|a: ThoughtRowView, b: ThoughtRowView| #[trigger] less(a, b) == changed_sooner(
        a,
        b,
    ) by {
        lemma_sooner(a.updated_at, a.id, b.updated_at, b.id);
    }
    law_lists_alike(
        outbox(rows),
        rows,
        p,
        less,
        p,
        |a: ThoughtRowView, b: ThoughtRowView| changed_sooner(a, b),
        at,
    );
    at
}

/// The feed from a cursor on holds every row that was modified after it,
/// tombstones among them, the earliest modified first; without a cursor, every
/// row.
pub proof fn law_feed_lists(rows: Seq<ThoughtRowView>, since: Option<SyncCursor>) -> (at: Seq<int>)
    ensures
        lists_exactly(
            feed(rows, since),
            rows,
            |row: ThoughtRowView|
                since matches Some(c) ==> sooner(c.updated_at, c.id@, row.updated_at, row.id),
            |a: ThoughtRowView, b: ThoughtRowView| changed_sooner(a, b),
            at,
        ),
{
    let p = |row: ThoughtRowView| since matches Some(c) ==> later(row, c);
    let q = |row: ThoughtRowView|
        since matches Some(c) ==> sooner(c.updated_at, c.id@, row.updated_at, row.id);
    let less = |a: ThoughtRowView, b: ThoughtRowView| OldestChangeFirst::before(a, b);
    let at = law_ranked_kept_lists::<ThoughtRow, OldestChangeFirst>(rows, p);
    assert forall|i: int| 0 <= i < rows.len() implies p(#[trigger] rows[i]) == q(rows[i]) by {
        if since is Some {
            let c = since.unwrap();
            lemma_sooner(c.updated_at, c.id@, rows[i].updated_at, rows[i].id);
        }
    }
    assert forall|a: ThoughtRowView, b: ThoughtRowView| #[trigger] less(a, b) == changed_sooner(
        a,
        b,
    ) by {
        lemma_sooner(a.updated_at, a.id, b.updated_at, b.id);
    }
    law_lists_alike(
        feed(rows, since),
        rows,
        p,
        less,
        q,
        |a: ThoughtRowView, b: ThoughtRowView| changed_sooner(a, b),
        at,
    );
    at
}

/// A change carries every column of its row but whether it has been pushed.
pub open spec fn carries_row(change: ThoughtChange, row: ThoughtRowView) -> bool {
    &&& change.id@ == row.id
    &&& change.text@ == row.text
    &&& change.created_at == row.created_at
    &&& change.updated_at == row.updated_at
    &&& change.settled_at == row.settled_at
    &&& change.deleted_at == row.deleted_at
    &&& change.actioned_at == row.actioned_at
}

/// Changes are handed out row by row with all that is stored of each, and fail
/// exactly where one of the rows has a damaged identifier.
pub proof fn law_shows_changes(r: Result<Vec<ThoughtChange>>, rows: Seq<ThoughtRowView>)
    requires
        shows_changes(r, rows),
    ensures
        r is Ok <==> forall|i: int| 0 <= i < rows.len() ==> (#[trigger] rows[i]).id.len() == 16,
        r matches Ok(out) ==> out@.len() == rows.len() && forall|i: int|
            0 <= i < rows.len() ==> carries_row(#[trigger] out@[i], rows[i]),
{
    law_first_where(rows, |row: ThoughtRowView| row.id.len() != 16);
    if r is Ok {
        let out = r.unwrap();
        assert(seen(out@).len() == rows.len());
        assert forall|i: int| 0 <= i < rows.len() implies carries_row(#[trigger] out@[i], rows[i]) by {
            assert(seen(out@)[i] == out@[i]@);
        }
    } else {
        let row = unreadable(rows).unwrap();
        let i = choose|i: int| 0 <= i < rows.len() && rows[i] == row;
        assert(rows[i].id.len() != 16);
    }
}

// ---- stale thoughts, tags, saved searches ----------------------------------

/// The stale thoughts are those that are no tombstones, not dealt with, and were
/// last modified longer ago than the given time; the longest untouched first.
pub proof fn law_stale_lists(rows: Seq<ThoughtRowView>, now: i64, older_than_ms: i64) -> (at: Seq<
    int,
>)
    ensures
        lists_exactly(
            stale(rows, stale_before(now, older_than_ms)),
            rows,
            |row: ThoughtRowView|
                row.deleted_at is None && row.actioned_at is None && now - row.updated_at
                    > older_than_ms && row.updated_at < i64::MAX,
            |a: ThoughtRowView, b: ThoughtRowView| changed_sooner(a, b),
            at,
        ),
{
    let threshold = stale_before(now, older_than_ms);
    let p = |row: ThoughtRowView|
        live(row) && row.actioned_at is None && row.updated_at < threshold;
    let q = |row: ThoughtRowView|
        row.deleted_at is None && row.actioned_at is None && now - row.updated_at > older_than_ms
            && row.updated_at < i64::MAX;
    let less = |a: ThoughtRowView, b: ThoughtRowView| OldestChangeFirst::before(a, b);
    let at = law_ranked_kept_lists::<ThoughtRow, OldestChangeFirst>(rows, p);
    assert forall|i: int| 0 <= i < rows.len() implies p(#[trigger] rows[i]) == q(rows[i]) by {
    }
    assert forall|a: ThoughtRowView, b: ThoughtRowView| #[trigger] less(a, b) == changed_sooner(
        a,
        b,
    ) by {
        lemma_sooner(a.updated_at, a.id, b.updated_at, b.id);
    }
    law_lists_alike(
        stale(rows, threshold),
        rows,
        p,
        less,
        q,
        |a: ThoughtRowView, b: ThoughtRowView| changed_sooner(a, b),
        at,
    );
    at
}

/// A listing of stale thoughts at the time of the clock is one at some time since
/// 1970: those that are stale then, up to the limit, the longest untouched first.
pub proof fn law_stale_some_time(
    r: Result<Vec<Thought>>,
    rows: Seq<ThoughtRowView>,
    older_than_ms: i64,
    limit: nat,
)
    requires
        stale_some_time(r, rows, older_than_ms, limit),
    ensures
        r matches Ok(out) ==> exists|now: i64|
            now >= 0 && {
                let all = #[trigger] stale(rows, stale_before(now, older_than_ms));
                &&& out@.len() == if all.len() <= limit {
                    all.len()
                } else {
                    limit
                }
                &&& forall|i: int| 0 <= i < out@.len() ==> reads(#[trigger] out@[i], all[i], now)
            },
{
    if r is Ok {
        let now = choose|now: i64|
            clock_shows(now) && #[trigger] shows(
                r,
                limited(stale(rows, stale_before(now, older_than_ms)), limit),
                now,
            );
        let all = stale(rows, stale_before(now, older_than_ms));
        law_shows(r, limited(all, limit), now);
        law_limited(all, limit);
        lemma_clock(now);
        let out = r.unwrap();
        assert forall|i: int| 0 <= i < out@.len() implies reads(#[trigger] out@[i], all[i], now) by {
            assert(limited(all, limit)[i] == all[i]);
        }
    }
}

pub(crate) proof fn lemma_clock(now: i64)
    requires
        clock_shows(now),
    ensures
        now >= 0,
{
    let time = choose|time: std::time::SystemTime|
        stamped(#[trigger] epoch_millis(time), Ok::<i64, Error>(now));
    law_stamp(epoch_millis(time), Ok::<i64, Error>(now));
}

/// A listing at the time of the clock is one at some time since 1970, or fails as
/// the clock did.
pub proof fn law_some_time(r: Result<Vec<Thought>>, rows: Seq<ThoughtRowView>)
    requires
        shows_some_time(r, rows),
    ensures
        (r matches Err(e) && e is Clock) || exists|now: i64| now >= 0 && #[trigger] shows(r, rows, now),
{
    if !(r matches Err(e) && clock_failed(e)) {
        let now = choose|now: i64| clock_shows(now) && #[trigger] shows(r, rows, now);
        lemma_clock(now);
    }
}

/// A page at the time of the clock is one at some time since 1970, or fails as the
/// clock did.
pub proof fn law_page_some_time(
    r: Result<Page>,
    rows: Seq<ThoughtRowView>,
    before: Option<Cursor>,
    limit: usize,
)
    requires
        pages_some_time(r, rows, before, limit),
    ensures
        (r matches Err(e) && e is Clock) || exists|now: i64|
            now >= 0 && #[trigger] shows_page(r, rows, before, limit, now),
{
    if !(r matches Err(e) && clock_failed(e)) {
        let now = choose|now: i64|
            clock_shows(now) && #[trigger] shows_page(r, rows, before, limit, now);
        lemma_clock(now);
    }
}

/// A row with a damaged identifier is reported with the table it is in and the
/// number of bytes that its identifier has.
pub proof fn law_damaged_row(e: Error, blob: Seq<u8>)
    requires
        bad_id(e, blob),
    ensures
        error_text(e) == "corrupt row in `"@ + "thoughts"@ + "`: "@ + ("id column had "@ + decimal(
            blob.len() as int,
        ) + " bytes, expected 16"@),
{
}

/// The thought with this identifier is linked to a tag of this name, up to case.
pub open spec fn linked_to(t: TablesView, id: Seq<u8>, name: Seq<char>) -> bool {
    exists|i: int|
        0 <= i < t.links.len() && (#[trigger] t.links[i]).thought_id == id && (same_letters(
            t.links[i].name,
            name,
        ) || lowercased(t.links[i].name) == lowercased(name))
}

/// The thoughts with a tag are those that are no tombstones and linked to it up
/// to case, in the order of the stream.
pub proof fn law_tagged_lists(t: TablesView, name: Seq<char>) -> (at: Seq<int>)
    ensures
        lists_exactly(
            tagged(t, name),
            t.thoughts,
            |row: ThoughtRowView| row.deleted_at is None && linked_to(t, row.id, name),
            |a: ThoughtRowView, b: ThoughtRowView| sooner(b.created_at, b.id, a.created_at, a.id),
            at,
        ),
{
    let rows = t.thoughts;
    let p = |row: ThoughtRowView| live(row) && carries_tag(t, row.id, name);
    let q = |row: ThoughtRowView| row.deleted_at is None && linked_to(t, row.id, name);
    let less = |a: ThoughtRowView, b: ThoughtRowView| NewestFirst::before(a, b);
    let sooner_of = |a: ThoughtRowView, b: ThoughtRowView|
        sooner(b.created_at, b.id, a.created_at, a.id);
    let at = law_ranked_kept_lists::<ThoughtRow, NewestFirst>(rows, p);
    assert forall|i: int| 0 <= i < rows.len() implies p(#[trigger] rows[i]) == q(rows[i]) by {
        let id = rows[i].id;
        let f = |l: LinkRowView| l.thought_id == id && same_tag(l.name, name);
        if carries_tag(t, id, name) {
            let k = choose|k: int| 0 <= k < t.links.len() && f(#[trigger] t.links[k]);
            law_same_name(t.links[k].name, name);
            assert(linked_to(t, id, name));
        }
        if linked_to(t, id, name) {
            let k = choose|k: int|
                0 <= k < t.links.len() && (#[trigger] t.links[k]).thought_id == id && (same_letters(
                    t.links[k].name,
                    name,
                ) || lowercased(t.links[k].name) == lowercased(name));
            law_same_name(t.links[k].name, name);
            assert(f(t.links[k]));
            assert(any_where(t.links, f));
        }
    }
    assert forall|a: ThoughtRowView, b: ThoughtRowView| #[trigger] less(a, b) == sooner_of(a, b) by {
        lemma_sooner(b.created_at, b.id, a.created_at, a.id);
    }
    law_lists_alike(tagged(t, name), rows, p, less, q, sooner_of, at);
    at
}

/// There is a row with this identifier that is no tombstone.
pub open spec fn lives(rows: Seq<ThoughtRowView>, id: Seq<u8>) -> bool {
    exists|i: int|
        0 <= i < rows.len() && (#[trigger] rows[i]).id == id && rows[i].deleted_at is None
}

/// A thought is found by its identifier exactly where a row with it is there, and
/// as a live one where one of these is no tombstone; the first such row is found.
pub proof fn law_thought_found(rows: Seq<ThoughtRowView>, id: Seq<u8>)
    ensures
        find_live(rows, id) is Some <==> lives(rows, id),
        find_live(rows, id) matches Some(row) ==> row.id == id && row.deleted_at is None && exists|
            i: int,
        |
            0 <= i < rows.len() && #[trigger] rows[i] == row && forall|j: int|
                0 <= j < i ==> (#[trigger] rows[j]).id != id || rows[j].deleted_at is Some,
        find_row(rows, id) is Some <==> exists|i: int|
            0 <= i < rows.len() && (#[trigger] rows[i]).id == id,
        find_row(rows, id) matches Some(row) ==> row.id == id && exists|i: int|
            0 <= i < rows.len() && #[trigger] rows[i] == row && forall|j: int|
                0 <= j < i ==> (#[trigger] rows[j]).id != id,
{
    let p = |row: ThoughtRowView| row.id == id && live(row);
    let q = |row: ThoughtRowView| row.id == id;
    law_first_where(rows, p);
    law_first_where(rows, q);
    if find_live(rows, id) is Some {
        let i = lemma_first_index(rows, p);
        assert(rows[i].id == id && rows[i].deleted_at is None);
        assert forall|j: int| 0 <= j < i implies (#[trigger] rows[j]).id != id
            || rows[j].deleted_at is Some by {
            assert(!p(rows[j]));
        }
    } else if lives(rows, id) {
        let i = choose|i: int|
            0 <= i < rows.len() && (#[trigger] rows[i]).id == id && rows[i].deleted_at is None;
        assert(!p(rows[i]));
    }
    if find_row(rows, id) is Some {
        let i = lemma_first_index(rows, q);
        assert(rows[i].id == id);
        assert forall|j: int| 0 <= j < i implies (#[trigger] rows[j]).id != id by {
            assert(!q(rows[j]));
        }
    } else {
        assert forall|i: int| 0 <= i < rows.len() implies (#[trigger] rows[i]).id != id by {
            assert(!q(rows[i]));
        }
    }
}

/// A tag is used as often as it is linked to a thought that is no tombstone.
pub proof fn law_uses(t: TablesView, name: Seq<char>) -> (at: Seq<int>)
    ensures
        uses(t, name) == at.len(),
        forall|k: int, m: int| 0 <= k < m < at.len() ==> #[trigger] at[k] < #[trigger] at[m],
        forall|k: int| 0 <= k < at.len() ==> 0 <= #[trigger] at[k] < t.links.len(),
        forall|i: int|
            0 <= i < t.links.len() ==> (at.contains(i) <==> (#[trigger] t.links[i]).name == name
                && lives(t.thoughts, t.links[i].thought_id)),
{
    let p = |l: LinkRowView| l.name == name && find_live(t.thoughts, l.thought_id) is Some;
    let at = law_kept_lists(t.links, p);
    assert forall|i: int| 0 <= i < t.links.len() implies (at.contains(i) <==> (
    #[trigger] t.links[i]).name == name && lives(t.thoughts, t.links[i].thought_id)) by {
        law_thought_found(t.thoughts, t.links[i].thought_id);
        if at.contains(i) {
            let k = choose|k: int| 0 <= k < at.len() && at[k] == i;
            assert(p(t.links[at[k]]));
        } else {
            assert(!p(t.links[i]));
        }
    }
    at
}

/// The tags that are suggested are those that are in use and start with the
/// prefix up to ASCII case: the most used first, and those that are used alike in
/// the order of their letters without regard to ASCII case.
pub proof fn law_suggested_lists(t: TablesView, prefix: Seq<char>) -> (at: Seq<int>)
    ensures
        lists_exactly(
            suggested(t, prefix),
            tag_uses(t),
            |u: TagUseView|
                u.uses > 0 && prefix.len() <= u.name.len() && forall|i: int|
                    0 <= i < prefix.len() ==> same_letter(#[trigger] u.name[i], prefix[i]),
            |a: TagUseView, b: TagUseView|
                a.uses > b.uses || (a.uses == b.uses && letters_before(a.name, b.name)),
            at,
        ),
        tag_uses(t).len() == t.tags.len(),
        forall|i: int|
            0 <= i < t.tags.len() ==> (#[trigger] tag_uses(t)[i]).name == t.tags[i]
                && tag_uses(t)[i].uses == uses(t, t.tags[i]),
{
    let rows = tag_uses(t);
    let p = |u: TagUseView| u.uses > 0 && has_prefix(u.name, prefix);
    let q = |u: TagUseView|
        u.uses > 0 && prefix.len() <= u.name.len() && forall|i: int|
            0 <= i < prefix.len() ==> same_letter(#[trigger] u.name[i], prefix[i]);
    let less = |a: TagUseView, b: TagUseView| MostUsedFirst::before(a, b);
    let at = law_ranked_kept_lists::<TagUse, MostUsedFirst>(rows, p);
    assert forall|i: int| 0 <= i < rows.len() implies p(#[trigger] rows[i]) == q(rows[i]) by {
        law_has_prefix(rows[i].name, prefix);
    }
    assert forall|a: TagUseView, b: TagUseView| #[trigger] less(a, b) == (a.uses > b.uses || (a.uses
        == b.uses && letters_before(a.name, b.name))) by {
        law_letters_order(a.name, b.name);
    }
    law_lists_alike(
        suggested(t, prefix),
        rows,
        p,
        less,
        q,
        |a: TagUseView, b: TagUseView|
            a.uses > b.uses || (a.uses == b.uses && letters_before(a.name, b.name)),
        at,
    );
    at
}

/// The saved searches are listed all, the earliest saved first, and those of one
/// time by identifier.
pub proof fn law_saved_lists(saved: Seq<SavedRowView>) -> (at: Seq<int>)
    ensures
        lists_exactly(
            ranked::<SavedRow, OldestSavedFirst>(saved),
            saved,
            |row: SavedRowView| true,
            |a: SavedRowView, b: SavedRowView| sooner(a.created_at, a.id, b.created_at, b.id),
            at,
        ),
{
    let all = |row: SavedRowView| true;
    let less = |a: SavedRowView, b: SavedRowView| OldestSavedFirst::before(a, b);
    let at = law_ranked_lists::<SavedRow, OldestSavedFirst>(saved);
    assert forall|a: SavedRowView, b: SavedRowView| #[trigger] less(a, b) == sooner(
        a.created_at,
        a.id,
        b.created_at,
        b.id,
    ) by {
        lemma_sooner(a.created_at, a.id, b.created_at, b.id);
    }
    law_lists_alike(
        ranked::<SavedRow, OldestSavedFirst>(saved),
        saved,
        all,
        less,
        all,
        |a: SavedRowView, b: SavedRowView| sooner(a.created_at, a.id, b.created_at, b.id),
        at,
    );
    at
}

/// Every saved search is shown as it was saved, and the listing fails exactly
/// where one of them has a damaged identifier.
pub proof fn law_shows_saved(r: Result<Vec<SavedSearch>>, rows: Seq<SavedRowView>)
    requires
        shows_saved(r, rows),
    ensures
        r is Ok <==> forall|i: int| 0 <= i < rows.len() ==> (#[trigger] rows[i]).id.len() == 16,
        r matches Ok(out) ==> out@.len() == rows.len() && forall|i: int|
            0 <= i < rows.len() ==> (#[trigger] out@[i]).id@ == rows[i].id && out@[i].name@
                == rows[i].name && out@[i].query@ == rows[i].query && out@[i].created_at
                == rows[i].created_at,
{
    let p = |row: SavedRowView| row.id.len() != 16;
    law_first_where(rows, p);
    if r is Ok {
        let out = r.unwrap();
        assert(seen(out@).len() == rows.len());
        assert forall|i: int| 0 <= i < rows.len() implies (#[trigger] out@[i]).id@ == rows[i].id
            && out@[i].name@ == rows[i].name && out@[i].query@ == rows[i].query
            && out@[i].created_at == rows[i].created_at by {
            assert(seen(out@)[i] == out@[i]@);
        }
        assert forall|i: int| 0 <= i < rows.len() implies (#[trigger] rows[i]).id.len() == 16 by {
            assert(!p(rows[i]));
        }
    } else {
        let row = first_where(rows, p).unwrap();
        let i = choose|i: int| 0 <= i < rows.len() && rows[i] == row;
        assert(rows[i].id.len() != 16);
    }
}

/// The thoughts that lack a vector are those that are no tombstones and for
/// which none is stored, the latest captured first.
pub proof fn law_missing_lists(t: TablesView) -> (at: Seq<int>)
    ensures
        lists_exactly(
            missing(t),
            t.thoughts,
            |row: ThoughtRowView|
                row.deleted_at is None && forall|i: int|
                    0 <= i < t.embeddings.len() ==> (#[trigger] t.embeddings[i]).thought_id
                        != row.id,
            |a: ThoughtRowView, b: ThoughtRowView| a.created_at > b.created_at,
            at,
        ),
{
    let rows = t.thoughts;
    let p = |row: ThoughtRowView| live(row) && !has_vector(t, row.id);
    let q = |row: ThoughtRowView|
        row.deleted_at is None && forall|i: int|
            0 <= i < t.embeddings.len() ==> (#[trigger] t.embeddings[i]).thought_id != row.id;
    let less = |a: ThoughtRowView, b: ThoughtRowView| LatestFirst::before(a, b);
    let at = law_ranked_kept_lists::<ThoughtRow, LatestFirst>(rows, p);
    assert forall|i: int| 0 <= i < rows.len() implies p(#[trigger] rows[i]) == q(rows[i]) by {
        let id = rows[i].id;
        let f = |e: EmbeddingRowView| e.thought_id == id;
        if has_vector(t, id) {
            let k = choose|k: int| 0 <= k < t.embeddings.len() && f(#[trigger] t.embeddings[k]);
            assert(t.embeddings[k].thought_id == id);
        } else if live(rows[i]) {
            assert forall|k: int| 0 <= k < t.embeddings.len() implies (
            #[trigger] t.embeddings[k]).thought_id != id by {
                assert(!f(t.embeddings[k]));
            }
        }
    }
    law_lists_alike(
        missing(t),
        rows,
        p,
        less,
        q,
        |a: ThoughtRowView, b: ThoughtRowView| a.created_at > b.created_at,
        at,
    );
    at
}

} // verus!
