//! Reading the store: listings, pages, the change feed, tags.

use vstd::prelude::*;
use vstd::string::*;

use crate::clock::{clock_failed, clock_shows, is_settled_now, now_unix_millis};
use crate::embed::TextEmbedder;
use crate::error::{Error, Result};
use crate::ident::Uuid;
use crate::like::{escape_like, like_chars, law_escaped_prefix};
use crate::model::{find_live, live, thought_of};
use crate::order::{blob_eq, has_prefix, name_same, same_name};
use crate::rank::{cut, rank, ranked, select, views};
use crate::rows::{
    any_where, first_where, kept, law_kept_everything, lemma_first_where_extends, lemma_take_step,
    limited, seen,
};
use crate::saved_search::SavedSearch;
use crate::sorting::{
    keyed_before, keyed_less, MostUsedFirst, NewestFirst, OldestChangeFirst, OldestEntryFirst,
    OldestSavedFirst, TagUse, TagUseView,
};
use crate::store::{not_found, saved_search_of, ThoughtStore};
use crate::sync::{SyncCursor, ThoughtChange, ThoughtChangeView};
use crate::tables::{
    bad_id, uuid_from_blob, HistoryRow, HistoryRowView, LinkRowView, SavedRow, SavedRowView,
    TablesView, ThoughtRow, ThoughtRowView,
};
use crate::text::lowercased;
use crate::thought::{EditEntry, EditEntryView, Thought, ThoughtView};

verus! {

/// How many thoughts a page has where the caller has no more specific need.
pub const DEFAULT_PAGE_SIZE: usize = 64;

/// A position in the stream, just past one thought. `(created_at, id)` is unique
/// and ordered as the stream is, so a scan resumes after this exact row even
/// when several thoughts share a millisecond.
#[derive(Debug, Clone, Copy, PartialEq, Eq)]
pub struct Cursor {
    pub created_at: i64,
    pub id: Uuid,
}

/// One page of thoughts. `next_cursor` is there when older thoughts follow.
#[derive(Debug, Clone, PartialEq, Eq)]
pub struct Page {
    pub thoughts: Vec<Thought>,
    pub next_cursor: Option<Cursor>,
}

// ---- from rows to thoughts -------------------------------------------------

/// The thoughts that the rows show at the time `now`.
pub open spec fn thoughts_of(rows: Seq<ThoughtRowView>, now: i64) -> Seq<ThoughtView> {
    Seq::new(rows.len(), |i: int| thought_of(rows[i], now))
}

/// The first row whose identifier cannot be read.
pub open spec fn unreadable(rows: Seq<ThoughtRowView>) -> Option<ThoughtRowView> {
    first_where(rows, |row: ThoughtRowView| row.id.len() != 16)
}

/// The result shows the rows, or says that the first unreadable one is.
pub open spec fn shows(r: Result<Vec<Thought>>, rows: Seq<ThoughtRowView>, now: i64) -> bool {
    match unreadable(rows) {
        Some(row) => r matches Err(e) && bad_id(e, row.id),
        None => r matches Ok(out) && seen(out@) == thoughts_of(rows, now),
    }
}

/// The thought in a row.
pub(crate) fn into_thought(row: &ThoughtRow, id: Uuid, now: i64) -> (out: Thought)
    requires
        id@ == row.id@,
    ensures
        out@ == thought_of(row@, now),
        out.id == id,
{
    Thought {
        id,
        text: row.text.clone(),
        created_at: row.created_at,
        updated_at: row.updated_at,
        is_settled: is_settled_now(row.updated_at, row.settled_at, now),
        is_actioned: row.actioned_at.is_some(),
    }
}

/// The thoughts in the rows.
fn collect_thought_rows(rows: &Vec<&ThoughtRow>, now: i64) -> (r: Result<Vec<Thought>>)
    ensures
        shows(r, views(rows@), now),
{
    let ghost all = views(rows@);
    let ghost p = |row: ThoughtRowView| row.id.len() != 16;
    let mut out: Vec<Thought> = Vec::new();
    let mut i: usize = 0;
    while i < rows.len()
        invariant
            i <= rows@.len(),
            all == views(rows@),
            p == (|row: ThoughtRowView| row.id.len() != 16),
            first_where(all.take(i as int), p) is None,
            seen(out@) == thoughts_of(all.take(i as int), now),
        decreases rows.len() - i,
    {
        proof {
            lemma_take_step(all, p, i as int);
        }
        let row: &ThoughtRow = rows[i];
        assert(all[i as int] == row@);
        match uuid_from_blob(&row.id) {
            Ok(id) => {
                let ghost before = out@;
                out.push(into_thought(row, id, now));
                assert(seen(out@) =~= seen(before).push(thought_of(row@, now)));
                assert(seen(out@) =~= thoughts_of(all.take(i + 1), now));
            },
            Err(e) => {
                proof {
                    lemma_first_where_extends(all, p, i + 1);
                }
                return Err(e);
            },
        }
        i += 1;
    }
    assert(all.take(all.len() as int) =~= all);
    Ok(out)
}

/// The change that a row shows.
pub open spec fn change_of(row: ThoughtRowView) -> ThoughtChangeView {
    ThoughtChangeView {
        id: row.id,
        text: row.text,
        created_at: row.created_at,
        updated_at: row.updated_at,
        settled_at: row.settled_at,
        deleted_at: row.deleted_at,
        actioned_at: row.actioned_at,
    }
}

/// The changes that the rows show.
pub open spec fn changes_of(rows: Seq<ThoughtRowView>) -> Seq<ThoughtChangeView> {
    Seq::new(rows.len(), |i: int| change_of(rows[i]))
}

/// The result shows the rows as changes, or says that the first unreadable one
/// is.
pub open spec fn shows_changes(r: Result<Vec<ThoughtChange>>, rows: Seq<ThoughtRowView>) -> bool {
    match unreadable(rows) {
        Some(row) => r matches Err(e) && bad_id(e, row.id),
        None => r matches Ok(out) && seen(out@) == changes_of(rows),
    }
}

/// The changes in the rows.
fn collect_change_rows(rows: &Vec<&ThoughtRow>) -> (r: Result<Vec<ThoughtChange>>)
    ensures
        shows_changes(r, views(rows@)),
{
    let ghost all = views(rows@);
    let ghost p = |row: ThoughtRowView| row.id.len() != 16;
    let mut out: Vec<ThoughtChange> = Vec::new();
    let mut i: usize = 0;
    while i < rows.len()
        invariant
            i <= rows@.len(),
            all == views(rows@),
            p == (|row: ThoughtRowView| row.id.len() != 16),
            first_where(all.take(i as int), p) is None,
            seen(out@) == changes_of(all.take(i as int)),
        decreases rows.len() - i,
    {
        proof {
            lemma_take_step(all, p, i as int);
        }
        let row: &ThoughtRow = rows[i];
        assert(all[i as int] == row@);
        match uuid_from_blob(&row.id) {
            Ok(id) => {
                let ghost before = out@;
                out.push(
                    ThoughtChange {
                        id,
                        text: row.text.clone(),
                        created_at: row.created_at,
                        updated_at: row.updated_at,
                        settled_at: row.settled_at,
                        deleted_at: row.deleted_at,
                        actioned_at: row.actioned_at,
                    },
                );
                assert(seen(out@) =~= seen(before).push(change_of(row@)));
                assert(seen(out@) =~= changes_of(all.take(i + 1)));
            },
            Err(e) => {
                proof {
                    lemma_first_where_extends(all, p, i + 1);
                }
                return Err(e);
            },
        }
        i += 1;
    }
    assert(all.take(all.len() as int) =~= all);
    Ok(out)
}

// ---- what is listed --------------------------------------------------------

/// The row is older than the position of the cursor.
pub open spec fn past(row: ThoughtRowView, cursor: Cursor) -> bool {
    keyed_less(row.created_at, row.id, cursor.created_at, cursor.id@)
}

/// The live thoughts from a position on, newest first.
pub open spec fn stream_from(rows: Seq<ThoughtRowView>, before: Option<Cursor>) -> Seq<
    ThoughtRowView,
> {
    ranked::<ThoughtRow, NewestFirst>(
        kept(
            rows,
            |row: ThoughtRowView| live(row) && (before matches Some(c) ==> past(row, c)),
        ),
    )
}

/// The live thoughts, newest first.
pub open spec fn stream(rows: Seq<ThoughtRowView>) -> Seq<ThoughtRowView> {
    ranked::<ThoughtRow, NewestFirst>(kept(rows, |row: ThoughtRowView| live(row)))
}

/// How many rows are read for a page: one more than it has, to tell whether
/// another page follows.
pub open spec fn fetched(limit: usize) -> nat {
    (limit + 1) as nat
}

/// The cursor is positioned just past the row.
pub open spec fn at_row(cursor: Option<Cursor>, row: Option<ThoughtRowView>) -> bool {
    match row {
        Some(row) => cursor matches Some(c) && c.created_at == row.created_at && c.id@ == row.id,
        None => cursor is None,
    }
}

/// The identifier of sixteen bytes behind which none comes.
pub open spec fn last_id() -> Seq<u8> {
    Seq::new(16, |i: int| 0xffu8)
}

/// The cursor before every thought, but for one captured at the largest time
/// under the last identifier.
pub open spec fn at_start(cursor: Cursor) -> bool {
    cursor.created_at == i64::MAX && cursor.id@ == last_id()
}

/// `next` is where the stream goes on after a page of `limit` thoughts from
/// `before` on, of which `rest` are the thoughts from there: just past the last
/// one of the page, and where an empty page started. There is none where nothing
/// follows.
pub open spec fn resumes(
    next: Option<Cursor>,
    before: Option<Cursor>,
    rest: Seq<ThoughtRowView>,
    limit: usize,
) -> bool {
    if rest.len() <= limit {
        next is None
    } else if limit > 0 {
        at_row(next, Some(rest[limit - 1]))
    } else {
        match before {
            Some(_) => next == before,
            None => next matches Some(c) && at_start(c),
        }
    }
}

/// The result is the page of `limit` thoughts from `before` on.
pub open spec fn shows_page(
    r: Result<Page>,
    rows: Seq<ThoughtRowView>,
    before: Option<Cursor>,
    limit: usize,
    now: i64,
) -> bool {
    let rest = stream_from(rows, before);
    match unreadable(limited(rest, fetched(limit))) {
        Some(row) => r matches Err(e) && bad_id(e, row.id),
        None => r matches Ok(page) && seen(page.thoughts@) == thoughts_of(
            limited(rest, limit as nat),
            now,
        ) && resumes(page.next_cursor, before, rest, limit),
    }
}

/// The entries of the edit history of a thought, oldest first.
pub open spec fn entries(history: Seq<HistoryRowView>, id: Seq<u8>) -> Seq<HistoryRowView> {
    ranked::<HistoryRow, OldestEntryFirst>(
        kept(history, |row: HistoryRowView| row.thought_id == id),
    )
}

/// The entry that a row of the edit history shows.
pub open spec fn entry_of(row: HistoryRowView) -> EditEntryView {
    EditEntryView { text: row.text, archived_at: row.archived_at }
}

/// The rows that have yet to be pushed, tombstones included, oldest change
/// first.
pub open spec fn outbox(rows: Seq<ThoughtRowView>) -> Seq<ThoughtRowView> {
    ranked::<ThoughtRow, OldestChangeFirst>(kept(rows, |row: ThoughtRowView| row.dirty))
}

/// The row changed after the position of the cursor.
pub open spec fn later(row: ThoughtRowView, cursor: SyncCursor) -> bool {
    keyed_less(cursor.updated_at, cursor.id@, row.updated_at, row.id)
}

/// Every row that changed after a position, tombstones included, oldest change
/// first.
pub open spec fn feed(rows: Seq<ThoughtRowView>, since: Option<SyncCursor>) -> Seq<
    ThoughtRowView,
> {
    ranked::<ThoughtRow, OldestChangeFirst>(
        kept(rows, |row: ThoughtRowView| since matches Some(c) ==> later(row, c)),
    )
}

/// The time before which a thought must have been modified to be stale.
pub open spec fn stale_before(now: i64, older_than_ms: i64) -> int {
    let t = now - older_than_ms;
    if t < i64::MIN {
        i64::MIN as int
    } else if t > i64::MAX {
        i64::MAX as int
    } else {
        t
    }
}

/// The live thoughts that were not dealt with and were last modified before the
/// threshold, oldest change first.
pub open spec fn stale(rows: Seq<ThoughtRowView>, threshold: int) -> Seq<ThoughtRowView> {
    ranked::<ThoughtRow, OldestChangeFirst>(
        kept(
            rows,
            |row: ThoughtRowView|
                live(row) && row.actioned_at is None && row.updated_at < threshold,
        ),
    )
}

/// The names of two tags are the same up to case.
pub open spec fn same_tag(a: Seq<char>, b: Seq<char>) -> bool {
    same_name(a, b) || lowercased(a) == lowercased(b)
}

/// The thought carries the tag, up to case.
pub open spec fn carries_tag(t: TablesView, id: Seq<u8>, name: Seq<char>) -> bool {
    any_where(t.links, |l: LinkRowView| l.thought_id == id && same_tag(l.name, name))
}

/// The live thoughts that carry the tag, newest first.
pub open spec fn tagged(t: TablesView, name: Seq<char>) -> Seq<ThoughtRowView> {
    ranked::<ThoughtRow, NewestFirst>(
        kept(t.thoughts, |row: ThoughtRowView| live(row) && carries_tag(t, row.id, name)),
    )
}

/// How many live thoughts carry the tag stored under that name.
pub open spec fn uses(t: TablesView, name: Seq<char>) -> nat {
    kept(
        t.links,
        |l: LinkRowView| l.name == name && find_live(t.thoughts, l.thought_id) is Some,
    ).len()
}

/// The tags with how often they are used.
pub open spec fn tag_uses(t: TablesView) -> Seq<TagUseView> {
    Seq::new(t.tags.len(), |i: int| TagUseView { name: t.tags[i], uses: uses(t, t.tags[i]) })
}

/// The tags in use whose name starts with `prefix`, up to ASCII case, most used
/// first.
pub open spec fn suggested(t: TablesView, prefix: Seq<char>) -> Seq<TagUseView> {
    ranked::<TagUse, MostUsedFirst>(
        kept(tag_uses(t), |u: TagUseView| u.uses > 0 && has_prefix(u.name, prefix)),
    )
}

/// The result shows the rows as they stand at some time, unless the clock failed.
pub open spec fn shows_some_time(r: Result<Vec<Thought>>, rows: Seq<ThoughtRowView>) -> bool {
    (r matches Err(e) && clock_failed(e)) || exists|now: i64|
        clock_shows(now) && #[trigger] shows(r, rows, now)
}

/// The result is the page of `limit` thoughts from `before` on as they stand at
/// some time, unless the clock failed.
pub open spec fn pages_some_time(
    r: Result<Page>,
    rows: Seq<ThoughtRowView>,
    before: Option<Cursor>,
    limit: usize,
) -> bool {
    (r matches Err(e) && clock_failed(e)) || exists|now: i64|
        clock_shows(now) && #[trigger] shows_page(r, rows, before, limit, now)
}

/// The result shows the thoughts that are stale at some time, unless the clock
/// failed.
pub open spec fn stale_some_time(
    r: Result<Vec<Thought>>,
    rows: Seq<ThoughtRowView>,
    older_than_ms: i64,
    limit: nat,
) -> bool {
    (r matches Err(e) && clock_failed(e)) || exists|now: i64|
        clock_shows(now) && #[trigger] shows(
            r,
            limited(stale(rows, stale_before(now, older_than_ms)), limit),
            now,
        )
}

/// The cursor at which the stream starts.
fn start_cursor() -> (cursor: Cursor)
    ensures
        at_start(cursor),
{
    let bytes: [u8; 16] = [0xffu8; 16];
    assert(bytes@ =~= last_id());
    Cursor { created_at: i64::MAX, id: Uuid { bytes } }
}

impl<E: TextEmbedder> ThoughtStore<E> {
    /// Every thought as it stands at the time `now`, newest first.
    pub fn list_at(&self, now: i64) -> (r: Result<Vec<Thought>>)
        ensures
            shows(r, stream(self@.thoughts), now),
    {
        let keep = |row: &ThoughtRow| -> (r: bool)
            ensures
                r == live(row@),
        {
            row.deleted_at.is_none()
        };
        let found = select(&self.tables.thoughts, keep, Ghost(|row: ThoughtRowView| live(row)));
        let rows = rank::<ThoughtRow, NewestFirst>(&found);
        collect_thought_rows(&rows, now)
    }

    /// Every thought, newest first.
    pub fn list(&self) -> (r: Result<Vec<Thought>>)
        ensures
            shows_some_time(r, stream(self@.thoughts)),
    {
        match now_unix_millis() {
            Ok(now) => self.list_at(now),
            Err(e) => Err(e),
        }
    }

    /// One page of thoughts as they stand at the time `now`, newest first.
    pub fn list_paginated_at(&self, before: Option<Cursor>, limit: usize, now: i64) -> (r: Result<
        Page,
    >)
        ensures
            shows_page(r, self@.thoughts, before, limit, now),
    {
        let fetch: usize = if limit == usize::MAX {
            limit
        } else {
            limit + 1
        };
        let keep = |row: &ThoughtRow| -> (r: bool)
            ensures
                r == (live(row@) && (before matches Some(c) ==> past(row@, c))),
        {
            row.deleted_at.is_none() && match &before {
                Some(c) => keyed_before(
                    row.created_at,
                    row.id.as_slice(),
                    c.created_at,
                    c.id.bytes.as_slice(),
                ),
                None => true,
            }
        };
        let found = select(
            &self.tables.thoughts,
            keep,
            Ghost(|row: ThoughtRowView| live(row) && (before matches Some(c) ==> past(row, c))),
        );
        let mut rows = rank::<ThoughtRow, NewestFirst>(&found);
        let ghost rest = stream_from(self@.thoughts, before);
        assert(rest.len() == rows.len() <= usize::MAX);
        cut(&mut rows, fetch);
        let ghost all = views(rows@);
        assert(all == limited(rest, fetched(limit)));
        let mut thoughts = match collect_thought_rows(&rows, now) {
            Ok(thoughts) => thoughts,
            Err(e) => return Err(e),
        };
        let has_more = thoughts.len() > limit;
        let ghost read = thoughts@;
        assert(seen(read) == thoughts_of(all, now));
        assert(read.len() == all.len()) by {
            assert(seen(read).len() == read.len());
            assert(thoughts_of(all, now).len() == all.len());
        }
        if has_more {
            thoughts.truncate(limit);
        }
        assert(seen(thoughts@) =~= thoughts_of(limited(rest, limit as nat), now)) by {
            assert forall|i: int| 0 <= i < thoughts@.len() implies seen(thoughts@)[i]
                == thoughts_of(limited(rest, limit as nat), now)[i] by {
                assert(seen(read)[i] == thoughts_of(all, now)[i]);
            }
        }
        let next_cursor = if !has_more {
            None
        } else if thoughts.len() > 0 {
            let last = &thoughts[thoughts.len() - 1];
            assert(seen(read)[limit - 1] == thoughts_of(all, now)[limit - 1]);
            Some(Cursor { created_at: last.created_at, id: last.id })
        } else {
            match before {
                Some(cursor) => Some(cursor),
                None => Some(start_cursor()),
            }
        };
        Ok(Page { thoughts, next_cursor })
    }

    /// One page of thoughts of any size, newest first. `before` is the cursor that
    /// the previous page returned, or none to start at the newest.
    pub fn list_paginated(&self, before: Option<Cursor>, limit: usize) -> (r: Result<Page>)
        ensures
            pages_some_time(r, self@.thoughts, before, limit),
    {
        match now_unix_millis() {
            Ok(now) => self.list_paginated_at(before, limit, now),
            Err(e) => Err(e),
        }
    }

    /// The edit history of a thought, oldest entry first.
    pub fn edit_history(&self, id: Uuid) -> (r: Result<Vec<EditEntry>>)
        ensures
            match find_live(self@.thoughts, id@) {
                Some(_) => r matches Ok(out) && seen(out@) == Seq::new(
                    entries(self@.history, id@).len(),
                    |i: int| entry_of(entries(self@.history, id@)[i]),
                ),
                None => r matches Err(e) && not_found(e, id),
            },
    {
        if self.live_row_at(&id).is_none() {
            return Err(Error::NotFound { id });
        }
        let keep = |row: &HistoryRow| -> (r: bool)
            ensures
                r == (row@.thought_id == id@),
        {
            id.is_blob(row.thought_id.as_slice())
        };
        let found = select(
            &self.tables.history,
            keep,
            Ghost(|row: HistoryRowView| row.thought_id == id@),
        );
        let rows = rank::<HistoryRow, OldestEntryFirst>(&found);
        let ghost all = entries(self@.history, id@);
        let mut out: Vec<EditEntry> = Vec::new();
        let mut i: usize = 0;
        while i < rows.len()
            invariant
                i <= rows@.len(),
                all == views(rows@),
                out@.len() == i,
                forall|j: int| 0 <= j < i ==> (#[trigger] out@[j])@ == entry_of(all[j]),
            decreases rows.len() - i,
        {
            let row: &HistoryRow = rows[i];
            assert(all[i as int] == row@);
            out.push(EditEntry { text: row.text.clone(), archived_at: row.archived_at });
            i += 1;
        }
        assert(seen(out@) =~= Seq::new(all.len(), |i: int| entry_of(all[i])));
        Ok(out)
    }

    /// Local changes that have yet to be pushed, oldest first, at most `limit`.
    pub fn pending_changes(&self, limit: usize) -> (r: Result<Vec<ThoughtChange>>)
        ensures
            shows_changes(r, limited(outbox(self@.thoughts), limit as nat)),
    {
        let keep = |row: &ThoughtRow| -> (r: bool)
            ensures
                r == row@.dirty,
        {
            row.dirty
        };
        let found = select(&self.tables.thoughts, keep, Ghost(|row: ThoughtRowView| row.dirty));
        let mut rows = rank::<ThoughtRow, OldestChangeFirst>(&found);
        cut(&mut rows, limit);
        collect_change_rows(&rows)
    }

    /// The change feed: every change after `since`, oldest first, at most
    /// `limit`. Where there are as many, more may remain: the caller resumes
    /// after the last one.
    pub fn changes_since(&self, since: Option<SyncCursor>, limit: usize) -> (r: Result<
        Vec<ThoughtChange>,
    >)
        ensures
            shows_changes(r, limited(feed(self@.thoughts, since), limit as nat)),
    {
        let keep = |row: &ThoughtRow| -> (r: bool)
            ensures
                r == (since matches Some(c) ==> later(row@, c)),
        {
            match &since {
                Some(c) => keyed_before(
                    c.updated_at,
                    c.id.bytes.as_slice(),
                    row.updated_at,
                    row.id.as_slice(),
                ),
                None => true,
            }
        };
        let found = select(
            &self.tables.thoughts,
            keep,
            Ghost(|row: ThoughtRowView| since matches Some(c) ==> later(row, c)),
        );
        let mut rows = rank::<ThoughtRow, OldestChangeFirst>(&found);
        cut(&mut rows, limit);
        collect_change_rows(&rows)
    }

    /// The thoughts that at the time `now` were not dealt with and have not been
    /// modified for `older_than_ms` milliseconds, oldest first.
    pub fn list_stale_at(&self, older_than_ms: i64, limit: usize, now: i64) -> (r: Result<
        Vec<Thought>,
    >)
        ensures
            shows(
                r,
                limited(stale(self@.thoughts, stale_before(now, older_than_ms)), limit as nat),
                now,
            ),
    {
        let wide: i128 = now as i128 - older_than_ms as i128;
        let threshold: i64 = if wide < i64::MIN as i128 {
            i64::MIN
        } else if wide > i64::MAX as i128 {
            i64::MAX
        } else {
            wide as i64
        };
        let keep = |row: &ThoughtRow| -> (r: bool)
            ensures
                r == (live(row@) && row@.actioned_at is None && row@.updated_at < threshold),
        {
            row.deleted_at.is_none() && row.actioned_at.is_none() && row.updated_at < threshold
        };
        let found = select(
            &self.tables.thoughts,
            keep,
            Ghost(
                |row: ThoughtRowView|
                    live(row) && row.actioned_at is None && row.updated_at < stale_before(
                        now,
                        older_than_ms,
                    ),
            ),
        );
        let mut rows = rank::<ThoughtRow, OldestChangeFirst>(&found);
        cut(&mut rows, limit);
        collect_thought_rows(&rows, now)
    }

    /// The stale thoughts.
    pub fn list_stale(&self, older_than_ms: i64, limit: usize) -> (r: Result<Vec<Thought>>)
        ensures
            stale_some_time(r, self@.thoughts, older_than_ms, limit as nat),
    {
        match now_unix_millis() {
            Ok(now) => self.list_stale_at(older_than_ms, limit, now),
            Err(e) => Err(e),
        }
    }

    /// Whether the thought carries the tag.
    fn has_tag(&self, id: &Vec<u8>, name: &str) -> (r: bool)
        ensures
            r == carries_tag(self@, id@, name@),
    {
        let ghost all = self@.links;
        let lower = name.to_lowercase();
        let mut i: usize = 0;
        while i < self.tables.links.len()
            invariant
                i <= self.tables.links@.len(),
                all == self@.links,
                lower@ == lowercased(name@),
                forall|j: int|
                    0 <= j < i ==> !((#[trigger] all[j]).thought_id == id@ && same_tag(
                        all[j].name,
                        name@,
                    )),
            decreases self.tables.links.len() - i,
        {
            let link = &self.tables.links[i];
            assert(all[i as int] == link@);
            if blob_eq(link.thought_id.as_slice(), id.as_slice()) && (name_same(
                link.name.as_str(),
                name,
            ) || link.name.as_str().to_lowercase() == lower) {
                return true;
            }
            i += 1;
        }
        false
    }

    /// The live thoughts that carry the tag `name`, as they stand at the time
    /// `now`, newest first.
    pub fn thoughts_with_tag_at(&self, name: &str, limit: usize, now: i64) -> (r: Result<
        Vec<Thought>,
    >)
        ensures
            shows(r, limited(tagged(self@, name@), limit as nat), now),
    {
        let keep = |row: &ThoughtRow| -> (r: bool)
            ensures
                r == (live(row@) && carries_tag(self@, row@.id, name@)),
        {
            row.deleted_at.is_none() && self.has_tag(&row.id, name)
        };
        let found = select(
            &self.tables.thoughts,
            keep,
            Ghost(|row: ThoughtRowView| live(row) && carries_tag(self@, row.id, name@)),
        );
        let mut rows = rank::<ThoughtRow, NewestFirst>(&found);
        cut(&mut rows, limit);
        collect_thought_rows(&rows, now)
    }

    /// The live thoughts that carry the tag `name`, newest first.
    pub fn thoughts_with_tag(&self, name: &str, limit: usize) -> (r: Result<Vec<Thought>>)
        ensures
            shows_some_time(r, limited(tagged(self@, name@), limit as nat)),
    {
        match now_unix_millis() {
            Ok(now) => self.thoughts_with_tag_at(name, limit, now),
            Err(e) => Err(e),
        }
    }

    /// Whether the blob is the identifier of a live thought.
    fn is_live(&self, id: &Vec<u8>) -> (r: bool)
        ensures
            r == (find_live(self@.thoughts, id@) is Some),
    {
        let ghost all = self@.thoughts;
        let ghost p = |row: ThoughtRowView| row.id == id@ && live(row);
        let mut i: usize = 0;
        while i < self.tables.thoughts.len()
            invariant
                i <= self.tables.thoughts@.len(),
                all == self@.thoughts,
                p == (|row: ThoughtRowView| row.id == id@ && live(row)),
                first_where(all.take(i as int), p) is None,
            decreases self.tables.thoughts.len() - i,
        {
            proof {
                lemma_take_step(all, p, i as int);
            }
            if self.tables.thoughts[i].deleted_at.is_none() && blob_eq(
                self.tables.thoughts[i].id.as_slice(),
                id.as_slice(),
            ) {
                proof {
                    lemma_first_where_extends(all, p, i + 1);
                }
                return true;
            }
            i += 1;
        }
        assert(all.take(all.len() as int) =~= all);
        false
    }

    /// How many live thoughts carry the tag stored under that name.
    fn count_uses(&self, name: &String) -> (n: usize)
        ensures
            n == uses(self@, name@),
    {
        let ghost all = self@.links;
        let ghost p = |l: LinkRowView|
            l.name == name@ && find_live(self@.thoughts, l.thought_id) is Some;
        let mut n: usize = 0;
        let mut i: usize = 0;
        while i < self.tables.links.len()
            invariant
                i <= self.tables.links@.len(),
                all == self@.links,
                p == (|l: LinkRowView|
                    l.name == name@ && find_live(self@.thoughts, l.thought_id) is Some),
                n == kept(all.take(i as int), p).len(),
                n <= i,
            decreases self.tables.links.len() - i,
        {
            proof {
                lemma_take_step(all, p, i as int);
            }
            let link = &self.tables.links[i];
            if link.name == *name && self.is_live(&link.thought_id) {
                n += 1;
            }
            i += 1;
        }
        assert(all.take(all.len() as int) =~= all);
        n
    }

    /// Tag names that begin with `prefix`, ASCII case ignored, most used first:
    /// for autocomplete. Only tags that a live thought carries appear.
    pub fn tags_with_prefix(&self, prefix: &str, limit: usize) -> (r: Result<Vec<String>>)
        ensures
            r matches Ok(names) && seen(names@) == Seq::new(
                limited(suggested(self@, prefix@), limit as nat).len(),
                |i: int| limited(suggested(self@, prefix@), limit as nat)[i].name,
            ),
    {
        let mut pattern = escape_like(prefix);
        pattern.push('%');
        let mut all: Vec<TagUse> = Vec::new();
        let mut i: usize = 0;
        while i < self.tables.tags.len()
            invariant
                i <= self.tables.tags@.len(),
                all@.len() == i,
                forall|j: int| 0 <= j < i ==> (#[trigger] all@[j])@ == tag_uses(self@)[j],
            decreases self.tables.tags.len() - i,
        {
            let name = &self.tables.tags[i];
            all.push(TagUse { name: name.clone(), uses: self.count_uses(name) });
            i += 1;
        }
        assert(seen(all@) =~= tag_uses(self@));
        let keep = |u: &TagUse| -> (r: bool)
            ensures
                r == (u@.uses > 0 && has_prefix(u@.name, prefix@)),
        {
            proof {
                law_escaped_prefix(prefix@, u.name@);
            }
            u.uses > 0 && like_chars(pattern.as_str(), u.name.as_str())
        };
        let found = select(
            &all,
            keep,
            Ghost(|u: TagUseView| u.uses > 0 && has_prefix(u.name, prefix@)),
        );
        let mut rows = rank::<TagUse, MostUsedFirst>(&found);
        cut(&mut rows, limit);
        let ghost wanted = limited(suggested(self@, prefix@), limit as nat);
        let mut names: Vec<String> = Vec::new();
        let mut k: usize = 0;
        while k < rows.len()
            invariant
                k <= rows@.len(),
                wanted == views(rows@),
                names@.len() == k,
                forall|j: int| 0 <= j < k ==> (#[trigger] names@[j])@ == wanted[j].name,
            decreases rows.len() - k,
        {
            let row: &TagUse = rows[k];
            assert(wanted[k as int] == row@);
            names.push(row.name.clone());
            k += 1;
        }
        assert(seen(names@) =~= Seq::new(wanted.len(), |i: int| wanted[i].name));
        Ok(names)
    }

    /// Every saved search, oldest first.
    pub fn list_saved_searches(&self) -> (r: Result<Vec<SavedSearch>>)
        ensures
            shows_saved(r, ranked::<SavedRow, OldestSavedFirst>(self@.saved)),
    {
        let keep = |row: &SavedRow| -> (r: bool)
            ensures
                r,
        {
            true
        };
        let found = select(&self.tables.saved, keep, Ghost(|row: SavedRowView| true));
        proof {
            law_kept_everything(self@.saved);
        }
        let rows = rank::<SavedRow, OldestSavedFirst>(&found);
        let ghost all = ranked::<SavedRow, OldestSavedFirst>(self@.saved);
        let ghost p = |row: SavedRowView| row.id.len() != 16;
        let mut out: Vec<SavedSearch> = Vec::new();
        let mut i: usize = 0;
        while i < rows.len()
            invariant
                i <= rows@.len(),
                all == views(rows@),
                p == (|row: SavedRowView| row.id.len() != 16),
                first_where(all.take(i as int), p) is None,
                out@.len() == i,
                forall|j: int| 0 <= j < i ==> (#[trigger] out@[j])@ == saved_search_of(all[j]),
                all == ranked::<SavedRow, OldestSavedFirst>(self@.saved),
            decreases rows.len() - i,
        {
            proof {
                lemma_take_step(all, p, i as int);
            }
            let row: &SavedRow = rows[i];
            assert(all[i as int] == row@);
            match uuid_from_blob(&row.id) {
                Ok(id) => {
                    out.push(
                        SavedSearch {
                            id,
                            name: row.name.clone(),
                            query: row.query.clone(),
                            created_at: row.created_at,
                        },
                    );
                },
                Err(e) => {
                    proof {
                        lemma_first_where_extends(all, p, i + 1);
                    }
                    return Err(e);
                },
            }
            i += 1;
        }
        assert(all.take(all.len() as int) =~= all);
        assert(seen(out@) =~= Seq::new(all.len(), |i: int| saved_search_of(all[i])));
        Ok(out)
    }
}

/// The result shows the saved searches, or says that the first unreadable one
/// is.
pub open spec fn shows_saved(r: Result<Vec<SavedSearch>>, rows: Seq<SavedRowView>) -> bool {
    match first_where(rows, |row: SavedRowView| row.id.len() != 16) {
        Some(row) => r matches Err(e) && bad_id(e, row.id),
        None => r matches Ok(out) && seen(out@) == Seq::new(
            rows.len(),
            |i: int| saved_search_of(rows[i]),
        ),
    }
}

} // verus!
