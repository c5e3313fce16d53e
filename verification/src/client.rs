//! The desktop client's logic: how times read, which rows of the stream are
//! loaded, what the composer does with a draft, what a key does.

use vstd::prelude::*;
use vstd::string::*;

use crate::clock::{clock_failed, clock_shows, now_unix_millis};
use crate::decimal::{decimal, push_decimal};
use crate::embed::TextEmbedder;
use crate::error::{joined, Error, Result};
use crate::ident::Uuid;
use crate::laws::{law_stream_resumes, law_stream_starts};
use crate::query::{
    at_row, fetched, shows_page, stream, stream_from, thoughts_of, unreadable, Cursor, Page,
    DEFAULT_PAGE_SIZE,
};
use crate::rows::{law_first_where, lemma_first_at, lemma_first_index, limited, seen};
use crate::sound::{ids_distinct, sound};
use crate::store::{create_ended, update_ended, ThoughtStore};
use crate::tables::{bad_id, ThoughtRowView};
use crate::text::{chars_of, string_of, whitespace};
use crate::thought::{Thought, ThoughtView};

verus! {

// ---- times -----------------------------------------------------------------

/// The whole units of that many seconds that make up `seconds`, in words.
pub open spec fn ago(seconds: int, per_unit: int, unit: Seq<char>) -> Seq<char> {
    let value = seconds / per_unit;
    decimal(value) + " "@ + unit + (if value == 1 {
        ""@
    } else {
        "s"@
    }) + " ago"@
}

/// How long ago `created_ms` was at the time `now_ms`, in words. What is yet to
/// come reads as just now.
pub open spec fn relative(created_ms: i64, now_ms: i64) -> Seq<char> {
    let ms = now_ms - created_ms;
    let seconds = ms / 1000;
    if ms < 60_000 {
        "just now"@
    } else if seconds < 3_600 {
        ago(seconds, 60, "minute"@)
    } else if seconds < 86_400 {
        ago(seconds, 3_600, "hour"@)
    } else if seconds < 604_800 {
        ago(seconds, 86_400, "day"@)
    } else if seconds < 2_592_000 {
        ago(seconds, 604_800, "week"@)
    } else if seconds < 31_536_000 {
        ago(seconds, 2_592_000, "month"@)
    } else {
        ago(seconds, 31_536_000, "year"@)
    }
}

/// The whole units of that many seconds that make up `seconds`, in words.
fn spell(seconds: i64, per_unit: i64, unit: &str) -> (out: String)
    requires
        seconds >= 0,
        per_unit > 0,
    ensures
        out@ == ago(seconds as int, per_unit as int, unit@),
{
    let value: i64 = seconds / per_unit;
    let mut out = String::new();
    push_decimal(&mut out, value);
    assert(out@ =~= decimal(value as int));
    out.append(" ");
    out.append(unit);
    let plural = if value == 1 {
        ""
    } else {
        "s"
    };
    out.append(plural);
    out.append(" ago");
    out
}

/// How long ago `created_ms` was at the time `now_ms`, in words.
pub fn format_relative(created_ms: i64, now_ms: i64) -> (out: String)
    ensures
        out@ == relative(created_ms, now_ms),
{
    let ms: i128 = now_ms as i128 - created_ms as i128;
    if ms < 60_000 {
        return "just now".to_owned();
    }
    let seconds: i64 = (ms as u128 / 1000) as i64;
    if seconds < 3_600 {
        spell(seconds, 60, "minute")
    } else if seconds < 86_400 {
        spell(seconds, 3_600, "hour")
    } else if seconds < 604_800 {
        spell(seconds, 86_400, "day")
    } else if seconds < 2_592_000 {
        spell(seconds, 604_800, "week")
    } else if seconds < 31_536_000 {
        spell(seconds, 2_592_000, "month")
    } else {
        spell(seconds, 31_536_000, "year")
    }
}

/// What stands under a thought: how long ago it was captured, with a bullet
/// while it is live.
pub open spec fn caption(thought: ThoughtView, now_ms: i64) -> Seq<char> {
    if thought.is_settled {
        relative(thought.created_at, now_ms)
    } else {
        "\u{2022} "@ + relative(thought.created_at, now_ms)
    }
}

/// What stands under a thought.
pub fn timestamp_text(thought: &Thought, now_ms: i64) -> (out: String)
    ensures
        out@ == caption(thought@, now_ms),
{
    let when = format_relative(thought.created_at, now_ms);
    if thought.is_settled {
        when
    } else {
        joined("\u{2022} ", when.as_str())
    }
}

/// The time for captions: the current one, or the start of 1970 where the clock
/// is out of range.
pub fn caption_time() -> (now: i64)
    ensures
        clock_shows(now) || (now == 0 && clock_failed(Error::Clock)),
{
    match now_unix_millis() {
        Ok(now) => now,
        Err(_) => 0,
    }
}

// ---- the stream ------------------------------------------------------------

/// The loaded part of the stream, newest first, and where to go on.
pub struct Stream {
    pub thoughts: Vec<Thought>,
    pub next_cursor: Option<Cursor>,
}

/// How many thoughts a refresh loads: whole pages, one at least and enough for
/// what was loaded before.
pub open spec fn window(loaded: nat) -> nat {
    if loaded <= DEFAULT_PAGE_SIZE {
        DEFAULT_PAGE_SIZE as nat
    } else {
        ((loaded + DEFAULT_PAGE_SIZE - 1) / DEFAULT_PAGE_SIZE as int * DEFAULT_PAGE_SIZE) as nat
    }
}

/// The row at which the cursor stands after the first `n` of the rows.
pub open spec fn resume_row(rows: Seq<ThoughtRowView>, n: nat) -> Option<ThoughtRowView> {
    if 0 < n < rows.len() {
        Some(rows[n - 1])
    } else {
        None
    }
}

/// How reloading the stream ended at the time `now`: it holds the window's worth of
/// the newest thoughts, and where to go on. One that cannot be read among those,
/// or just behind them, is reported, and leaves the stream as it was.
pub open spec fn refreshed(
    before: Stream,
    after: Stream,
    rows: Seq<ThoughtRowView>,
    now: i64,
    r: Result<()>,
) -> bool {
    let all = stream(rows);
    let n = window(before.thoughts@.len());
    match unreadable(limited(all, n + 1)) {
        Some(row) => r matches Err(e) && bad_id(e, row.id) && after == before,
        None => {
            &&& r is Ok
            &&& seen(after.thoughts@) == thoughts_of(limited(all, n), now)
            &&& at_row(after.next_cursor, resume_row(all, n))
        },
    }
}

/// The cursor from which the page after these is asked for.
pub open spec fn cursor_after(pages: Seq<Page>) -> Option<Cursor> {
    if pages.len() == 0 {
        None
    } else {
        pages.last().next_cursor
    }
}

/// The pages are those that are read one after the other from the newest thought
/// on.
pub open spec fn pages_read(pages: Seq<Page>, rows: Seq<ThoughtRowView>, now: i64) -> bool {
    forall|k: int|
        0 <= k < pages.len() ==> shows_page(
            Ok(#[trigger] pages[k]),
            rows,
            cursor_after(pages.take(k)),
            DEFAULT_PAGE_SIZE,
            now,
        )
}

/// The thoughts of the pages.
pub open spec fn gathered(pages: Seq<Page>) -> Seq<ThoughtView>
    decreases pages.len(),
{
    if pages.len() == 0 {
        Seq::empty()
    } else {
        gathered(pages.drop_last()) + seen(pages.last().thoughts@)
    }
}

/// Another page is wanted: none was read yet, or more follow and there are not
/// as many thoughts as were loaded before, or as a page has.
pub open spec fn unfinished(pages: Seq<Page>, loaded: nat) -> bool {
    pages.len() == 0 || (cursor_after(pages) is Some && (gathered(pages).len() < loaded || gathered(
        pages,
    ).len() < DEFAULT_PAGE_SIZE))
}

/// How reloading the stream ended, whatever the table holds: pages were read while
/// another one was wanted. The stream holds their thoughts, or is as it was where
/// one could not be read.
pub open spec fn reloaded(
    before: Stream,
    after: Stream,
    rows: Seq<ThoughtRowView>,
    now: i64,
    r: Result<()>,
) -> bool {
    exists|pages: Seq<Page>| #[trigger]
        pages_read(pages, rows, now) && (forall|k: int|
            0 <= k < pages.len() ==> unfinished(#[trigger] pages.take(k), before.thoughts@.len()))
            && (match r {
            Ok(_) => {
                &&& !unfinished(pages, before.thoughts@.len())
                &&& seen(after.thoughts@) == gathered(pages)
                &&& after.next_cursor == cursor_after(pages)
            },
            Err(e) => {
                &&& unfinished(pages, before.thoughts@.len())
                &&& shows_page(
                    Err::<Page, Error>(e),
                    rows,
                    cursor_after(pages),
                    DEFAULT_PAGE_SIZE,
                    now,
                )
                &&& after == before
            },
        })
}

proof fn lemma_pages_read(pages: Seq<Page>, page: Page, rows: Seq<ThoughtRowView>, now: i64)
    requires
        pages_read(pages, rows, now),
        shows_page(Ok(page), rows, cursor_after(pages), DEFAULT_PAGE_SIZE, now),
    ensures
        pages_read(pages.push(page), rows, now),
        gathered(pages.push(page)) == gathered(pages) + seen(page.thoughts@),
        cursor_after(pages.push(page)) == page.next_cursor,
{
    let all = pages.push(page);
    assert(all.drop_last() =~= pages);
    assert forall|k: int| 0 <= k < all.len() implies shows_page(
        Ok(#[trigger] all[k]),
        rows,
        cursor_after(all.take(k)),
        DEFAULT_PAGE_SIZE,
        now,
    ) by {
        assert(all.take(k) =~= pages.take(k));
        if k < pages.len() {
            assert(all[k] == pages[k]);
        } else {
            assert(pages.take(k) =~= pages);
        }
    }
}

/// A page of the stream of a table with distinct thoughts.
proof fn lemma_page(
    rows: Seq<ThoughtRowView>,
    before: Option<Cursor>,
    n: int,
    r: Result<Page>,
    now: i64,
)
    requires
        ids_distinct(rows),
        0 <= n,
        n <= stream(rows).len(),
        n == 0 ==> before is None,
        n > 0 ==> at_row(before, Some(stream(rows)[n - 1])),
        shows_page(r, rows, before, DEFAULT_PAGE_SIZE, now),
    ensures
        match unreadable(limited(stream(rows).skip(n), fetched(DEFAULT_PAGE_SIZE))) {
            Some(row) => r matches Err(e) && bad_id(e, row.id),
            None => r matches Ok(page) && seen(page.thoughts@) == thoughts_of(
                limited(stream(rows).skip(n), DEFAULT_PAGE_SIZE as nat),
                now,
            ) && at_row(
                page.next_cursor,
                if n + DEFAULT_PAGE_SIZE < stream(rows).len() {
                    Some(stream(rows)[n + DEFAULT_PAGE_SIZE - 1])
                } else {
                    None
                },
            ),
        },
{
    let all = stream(rows);
    law_stream_starts(rows);
    if n == 0 {
        assert(all.skip(0) =~= all);
    } else {
        law_stream_resumes(rows, None, n - 1, before.unwrap());
    }
}

/// The first row that cannot be read of a page is the first one of all, where
/// those before the page can be.
proof fn lemma_first_unreadable(all: Seq<ThoughtRowView>, n: int, w: nat)
    requires
        0 <= n <= all.len(),
        n + DEFAULT_PAGE_SIZE <= w,
        forall|i: int| 0 <= i < n ==> (#[trigger] all[i]).id.len() == 16,
        unreadable(limited(all.skip(n), fetched(DEFAULT_PAGE_SIZE))) is Some,
    ensures
        unreadable(limited(all, w + 1)) == unreadable(
            limited(all.skip(n), fetched(DEFAULT_PAGE_SIZE)),
        ),
{
    let p = |row: ThoughtRowView| row.id.len() != 16;
    let shown = limited(all.skip(n), fetched(DEFAULT_PAGE_SIZE));
    let k = lemma_first_index(shown, p);
    let some = limited(all, w + 1);
    assert(some[n + k] == shown[k]);
    assert forall|j: int| 0 <= j < n + k implies !p(#[trigger] some[j]) by {
        if j < n {
            assert(some[j] == all[j]);
        } else {
            assert(some[j] == shown[j - n]);
        }
    }
    lemma_first_at(some, p, n + k);
}

impl Stream {
    /// Nothing loaded yet.
    pub fn new() -> (out: Stream)
        ensures
            out.thoughts@.len() == 0,
            out.next_cursor is None,
    {
        Stream { thoughts: Vec::new(), next_cursor: None }
    }

    /// Reloads the stream from the newest thought, as it stands at the time
    /// `now`, to cover at least what was loaded before. An error leaves it as it
    /// was.
    pub fn refresh_at<E: TextEmbedder>(&mut self, store: &ThoughtStore<E>, now: i64) -> (r: Result<
        (),
    >)
        ensures
            reloaded(*old(self), *final(self), store@.thoughts, now, r),
            ids_distinct(store@.thoughts) ==> refreshed(
                *old(self),
                *final(self),
                store@.thoughts,
                now,
                r,
            ),
    {
        let loaded: usize = self.thoughts.len();
        let target: usize = if loaded > DEFAULT_PAGE_SIZE {
            loaded
        } else {
            DEFAULT_PAGE_SIZE
        };
        let ghost rows = store@.thoughts;
        let ghost all = stream(rows);
        let mut thoughts: Vec<Thought> = Vec::new();
        let mut cursor: Option<Cursor> = None;
        let mut more = true;
        let ghost w = window(loaded as nat) as int;
        let ghost mut pages: Seq<Page> = Seq::empty();
        assert(seen(thoughts@) =~= thoughts_of(all.take(0), now));
        while more && thoughts.len() < target
            invariant
                *self == *old(self),
                rows == store@.thoughts,
                all == stream(rows),
                target == (if loaded > DEFAULT_PAGE_SIZE {
                    loaded
                } else {
                    DEFAULT_PAGE_SIZE
                }),
                ids_distinct(rows) ==> {
                    &&& thoughts@.len() <= all.len()
                    &&& seen(thoughts@) == thoughts_of(all.take(thoughts@.len() as int), now)
                    &&& thoughts@.len() <= w
                    &&& more ==> thoughts@.len() % 64 == 0
                    &&& thoughts@.len() > 0 && more ==> at_row(
                        cursor,
                        Some(all[thoughts@.len() - 1]),
                    ) && thoughts@.len() < all.len()
                    &&& thoughts@.len() == 0 && more ==> cursor is None
                    &&& !more ==> cursor is None && thoughts@.len() == all.len()
                    &&& thoughts@.len() > 0 || !more ==> forall|i: int|
                        0 <= i < all.len() && i <= thoughts@.len() ==> (
                        #[trigger] all[i]).id.len() == 16
                },
                loaded == self.thoughts@.len(),
                pages_read(pages, rows, now),
                seen(thoughts@) == gathered(pages),
                cursor == cursor_after(pages),
                more == (pages.len() == 0 || cursor is Some),
                pages.len() == 0 ==> thoughts@.len() == 0,
                forall|k: int|
                    0 <= k < pages.len() ==> unfinished(#[trigger] pages.take(k), loaded as nat),
                w == window(self.thoughts@.len()),
                w % 64 == 0,
                target <= w < target + 64,
            decreases
                    if more && thoughts.len() < target {
                        1 + target - thoughts.len()
                    } else {
                        0
                    },
        {
            let ghost n = thoughts@.len() as int;
            let ghost before = thoughts@;
            let ghost from = cursor;
            assert(unfinished(pages, loaded as nat)) by {
                assert(gathered(pages).len() == thoughts@.len());
            }
            let page = match store.list_paginated_at(cursor, DEFAULT_PAGE_SIZE, now) {
                Ok(page) => page,
                Err(e) => {
                    proof {
                        if ids_distinct(rows) {
                            lemma_page(rows, from, n, Err(e), now);
                            lemma_first_unreadable(all, n, w as nat);
                        }
                    }
                    return Err(e);
                },
            };
            proof {
                if ids_distinct(rows) {
                    lemma_page(rows, from, n, Ok(page), now);
                    let shown = limited(all.skip(n), fetched(DEFAULT_PAGE_SIZE));
                    law_first_where(shown, |row: ThoughtRowView| row.id.len() != 16);
                    assert forall|i: int|
                        0 <= i < all.len() && i <= n + DEFAULT_PAGE_SIZE implies (
                    #[trigger] all[i]).id.len() == 16 by {
                        if i >= n {
                            assert(shown[i - n] == all[i]);
                        }
                    }
                }
            }
            let ghost got = page.thoughts@;
            let ghost done = pages;
            proof {
                lemma_pages_read(done, page, rows, now);
                pages = done.push(page);
                assert forall|k: int| 0 <= k < pages.len() implies unfinished(
                    #[trigger] pages.take(k),
                    loaded as nat,
                ) by {
                    assert(pages.take(k) =~= done.take(k));
                    if k == done.len() {
                        assert(done.take(k) =~= done);
                    }
                }
            }
            cursor = page.next_cursor;
            more = cursor.is_some();
            proof {
                let rest = stream_from(rows, from);
                assert(seen(got).len() == limited(rest, DEFAULT_PAGE_SIZE as nat).len());
            }
            append(&mut thoughts, page.thoughts);
            proof {
                if ids_distinct(rows) {
                    let shown = limited(all.skip(n), DEFAULT_PAGE_SIZE as nat);
                    assert(seen(got).len() == shown.len());
                    assert(seen(thoughts@) =~= thoughts_of(all.take(thoughts@.len() as int), now)) by {
                        assert forall|i: int| 0 <= i < thoughts@.len() implies seen(thoughts@)[i]
                            == thoughts_of(all.take(thoughts@.len() as int), now)[i] by {
                            if i < n {
                                assert(seen(before)[i] == thoughts_of(all.take(n), now)[i]);
                            } else {
                                assert(seen(got)[i - n] == thoughts_of(shown, now)[i - n]);
                            }
                        }
                    }
                }
            }
        }
        proof {
            if ids_distinct(rows) {
                assert(limited(all, w as nat) =~= all.take(thoughts@.len() as int));
                law_first_where(
                    limited(all, (w + 1) as nat),
                    |row: ThoughtRowView| row.id.len() != 16,
                );
            }
        }
        self.thoughts = thoughts;
        self.next_cursor = cursor;
        Ok(())
    }

    /// Reloads the stream from the newest thought.
    pub fn refresh<E: TextEmbedder>(&mut self, store: &ThoughtStore<E>) -> (r: Result<()>)
        ensures
            refreshed_some_time(*old(self), *final(self), store@.thoughts, r),
    {
        match now_unix_millis() {
            Ok(now) => self.refresh_at(store, now),
            Err(e) => Err(e),
        }
    }

    /// Loads the page after the oldest loaded thought, as it stands at the time
    /// `now`. Does nothing where the stream is fully loaded.
    pub fn load_older_at<E: TextEmbedder>(&mut self, store: &ThoughtStore<E>, now: i64) -> (r:
        Result<()>)
        ensures
            older_loaded(*old(self), *final(self), store@.thoughts, now, r),
    {
        let cursor = match self.next_cursor {
            Some(cursor) => cursor,
            None => return Ok(()),
        };
        let found = store.list_paginated_at(Some(cursor), DEFAULT_PAGE_SIZE, now);
        assert(shows_page(found, store@.thoughts, Some(cursor), DEFAULT_PAGE_SIZE, now));
        match found {
            Ok(page) => {
                self.next_cursor = page.next_cursor;
                append(&mut self.thoughts, page.thoughts);
                Ok(())
            },
            Err(e) => Err(e),
        }
    }

    /// Loads the page after the oldest loaded thought.
    pub fn load_older<E: TextEmbedder>(&mut self, store: &ThoughtStore<E>) -> (r: Result<()>)
        ensures
            older_loaded_some_time(*old(self), *final(self), store@.thoughts, r),
    {
        if self.next_cursor.is_none() {
            return Ok(());
        }
        match now_unix_millis() {
            Ok(now) => self.load_older_at(store, now),
            Err(e) => Err(e),
        }
    }
}

/// How reloading the stream ended at some time, unless the clock failed, which
/// leaves it as it was.
pub open spec fn refreshed_some_time(
    before: Stream,
    after: Stream,
    rows: Seq<ThoughtRowView>,
    r: Result<()>,
) -> bool {
    (r matches Err(e) && clock_failed(e) && after == before) || exists|now: i64|
        clock_shows(now) && #[trigger] reloaded(before, after, rows, now, r) && (ids_distinct(rows)
            ==> refreshed(before, after, rows, now, r))
}

/// How loading the page after the oldest loaded thought ended at the time `now`:
/// nothing happens where the stream is fully loaded, else the page is added, or
/// its error leaves the stream as it was.
pub open spec fn older_loaded(
    before: Stream,
    after: Stream,
    rows: Seq<ThoughtRowView>,
    now: i64,
    r: Result<()>,
) -> bool {
    match before.next_cursor {
        None => r is Ok && after == before,
        Some(c) => exists|page: Result<Page>| #[trigger]
            shows_page(page, rows, Some(c), DEFAULT_PAGE_SIZE, now) && (match page {
                Ok(p) => {
                    &&& r is Ok
                    &&& seen(after.thoughts@) == seen(before.thoughts@) + seen(p.thoughts@)
                    &&& after.next_cursor == p.next_cursor
                },
                Err(e) => r == Err::<(), Error>(e) && after == before,
            }),
    }
}

/// How loading the page after the oldest loaded thought ended at some time,
/// unless the clock failed, which it is not asked where the stream is fully
/// loaded.
pub open spec fn older_loaded_some_time(
    before: Stream,
    after: Stream,
    rows: Seq<ThoughtRowView>,
    r: Result<()>,
) -> bool {
    match before.next_cursor {
        None => r is Ok && after == before,
        Some(_) => (r matches Err(e) && clock_failed(e) && after == before) || exists|now: i64|
            clock_shows(now) && #[trigger] older_loaded(before, after, rows, now, r),
    }
}

/// Adds the thoughts of a page to those loaded.
fn append(thoughts: &mut Vec<Thought>, page: Vec<Thought>)
    ensures
        seen(final(thoughts)@) == seen(old(thoughts)@) + seen(page@),
        final(thoughts)@ == old(thoughts)@ + page@,
{
    let ghost start = thoughts@;
    let ghost all = page@;
    for t in it: page.into_iter()
        invariant
            it.seq() == all,
            thoughts@ == start + all.take(it.index() as int),
    {
        thoughts.push(t);
        assert(thoughts@ =~= start + all.take(it.index() + 1));
    }
    assert(all.take(all.len() as int) =~= all);
    assert(seen(thoughts@) =~= seen(start) + seen(all));
}

// ---- the composer ----------------------------------------------------------

/// `s` without the whitespace at its start.
pub open spec fn trim_start(s: Seq<char>) -> Seq<char>
    decreases s.len(),
{
    if s.len() > 0 && whitespace(s[0]) {
        trim_start(s.skip(1))
    } else {
        s
    }
}

/// `s` without the whitespace at its end.
pub open spec fn trim_end(s: Seq<char>) -> Seq<char>
    decreases s.len(),
{
    if s.len() > 0 && whitespace(s.last()) {
        trim_end(s.drop_last())
    } else {
        s
    }
}

/// `s` without the whitespace around it.
pub open spec fn trimmed(s: Seq<char>) -> Seq<char> {
    trim_end(trim_start(s))
}

/// The text without the whitespace around it.
pub fn trim(text: &str) -> (out: String)
    ensures
        out@ == trimmed(text@),
{
    let chars = chars_of(text);
    let ghost s = text@;
    let mut from: usize = 0;
    assert(s.skip(0) =~= s);
    while from < chars.len() && chars[from].is_whitespace()
        invariant
            from <= chars@.len(),
            chars@ == s,
            trim_start(s) == trim_start(s.skip(from as int)),
        ensures
            from <= chars@.len(),
            trim_start(s) == s.skip(from as int),
        decreases chars.len() - from,
    {
        assert(s.skip(from as int).skip(1) =~= s.skip(from + 1));
        from += 1;
    }
    let mut to: usize = chars.len();
    assert(s.subrange(from as int, to as int) =~= s.skip(from as int));
    while to > from && chars[to - 1].is_whitespace()
        invariant
            from <= to <= chars@.len(),
            chars@ == s,
            trim_end(s.skip(from as int)) == trim_end(s.subrange(from as int, to as int)),
        ensures
            from <= to <= chars@.len(),
            trim_end(s.skip(from as int)) == s.subrange(from as int, to as int),
        decreases to,
    {
        assert(s.subrange(from as int, to as int).drop_last() =~= s.subrange(
            from as int,
            to - 1,
        ));
        to -= 1;
    }
    string_of(&chars, from, to)
}

/// The thought being edited, if one is.
pub struct Composer {
    pub editing: Option<Uuid>,
}

/// How committing a draft ended: blank drafts do nothing; others become a new
/// thought, or the text of the one being edited, which is edited no longer then.
/// An error leaves the composer as it was.
pub open spec fn save_draft_ended<E: TextEmbedder>(
    editing: Option<Uuid>,
    after: Option<Uuid>,
    old_store: ThoughtStore<E>,
    new_store: ThoughtStore<E>,
    draft: Seq<char>,
    r: Result<bool>,
) -> bool {
    let text = trimmed(draft);
    if text.len() == 0 {
        r == Ok::<bool, Error>(false) && after == editing && new_store == old_store
    } else {
        exists|saved: Result<Thought>| #[trigger]
            saved_as(saved, editing, old_store, new_store, text) && (match saved {
                Ok(_) => r == Ok::<bool, Error>(true) && after is None,
                Err(e) => r == Err::<bool, Error>(e) && after == editing,
            })
    }
}

/// The text was stored as that of the thought being edited, or as a new one.
pub open spec fn saved_as<E: TextEmbedder>(
    saved: Result<Thought>,
    editing: Option<Uuid>,
    old_store: ThoughtStore<E>,
    new_store: ThoughtStore<E>,
    text: Seq<char>,
) -> bool {
    match editing {
        Some(id) => update_ended(old_store, new_store, id, text, saved),
        None => create_ended(old_store, new_store, text, saved),
    }
}

impl Composer {
    /// Nothing is being edited.
    pub fn new() -> (out: Composer)
        ensures
            out.editing is None,
    {
        Composer { editing: None }
    }

    /// Starts to edit a thought.
    pub fn start_editing(&mut self, id: Uuid)
        ensures
            final(self).editing == Some(id),
    {
        self.editing = Some(id);
    }

    /// Leaves the edit.
    pub fn cancel_editing(&mut self)
        ensures
            final(self).editing is None,
    {
        self.editing = None;
    }

    /// What the button says.
    pub fn button_label(&self) -> (label: &'static str)
        ensures
            label@ == (if self.editing is Some {
                "Update"@
            } else {
                "Save"@
            }),
    {
        if self.editing.is_some() {
            "Update"
        } else {
            "Save"
        }
    }

    /// Commits the draft. Says whether something was stored.
    pub fn save<E: TextEmbedder>(&mut self, store: &mut ThoughtStore<E>, draft: &str) -> (r: Result<
        bool,
    >)
        ensures
            final(store).follows(*old(store)),
            sound(old(store)@) ==> sound(final(store)@),
            save_draft_ended(
                old(self).editing,
                final(self).editing,
                *old(store),
                *final(store),
                draft@,
                r,
            ),
    {
        proof {
            store.lemma_follows_itself();
        }
        let text = trim(draft);
        if text.as_str().is_empty() {
            return Ok(false);
        }
        let saved = match self.editing {
            Some(id) => store.update_thought(id, text.as_str()),
            None => store.create(text.as_str()),
        };
        assert(saved_as(saved, old(self).editing, *old(store), *store, trimmed(draft@)));
        match saved {
            Ok(_) => {
                self.cancel_editing();
                Ok(true)
            },
            Err(e) => Err(e),
        }
    }
}

/// The keys that mean something to the composer.
#[derive(Debug, Clone, Copy, PartialEq, Eq, Structural)]
pub enum Key {
    Escape,
    Return,
    KeypadEnter,
    Other,
}

/// What a key press leads to.
#[derive(Debug, Clone, Copy, PartialEq, Eq, Structural)]
pub enum KeyAction {
    CancelEdit,
    Save,
    /// The text field handles the key as usual.
    Proceed,
}

/// What a key press leads to: escape cancels an edit in progress, return without
/// shift saves.
pub open spec fn key_action(key: Key, shift: bool, editing: bool) -> KeyAction {
    if key is Escape && editing {
        KeyAction::CancelEdit
    } else if (key is Return || key is KeypadEnter) && !shift {
        KeyAction::Save
    } else {
        KeyAction::Proceed
    }
}

/// What a key press leads to.
pub fn on_key(key: Key, shift: bool, editing: bool) -> (action: KeyAction)
    ensures
        action == key_action(key, shift, editing),
{
    match key {
        Key::Escape => if editing {
            KeyAction::CancelEdit
        } else {
            KeyAction::Proceed
        },
        Key::Return => if shift {
            KeyAction::Proceed
        } else {
            KeyAction::Save
        },
        Key::KeypadEnter => if shift {
            KeyAction::Proceed
        } else {
            KeyAction::Save
        },
        Key::Other => KeyAction::Proceed,
    }
}

// ---- where data lies -------------------------------------------------------

/// The parts of the path of the data directory: under the desktop's data
/// directory if one is set, else under the home directory.
pub open spec fn data_path(xdg: Option<Seq<char>>, home: Option<Seq<char>>) -> Option<
    Seq<Seq<char>>,
> {
    match xdg {
        Some(base) => Some(seq![base, "buoy"@]),
        None => match home {
            Some(base) => Some(seq![base, ".local"@, "share"@, "buoy"@]),
            None => None,
        },
    }
}

/// What the string holds, if it is there.
pub open spec fn text_of(s: Option<&str>) -> Option<Seq<char>> {
    match s {
        Some(s) => Some(s@),
        None => None,
    }
}

/// The parts of the path of the data directory, if it can be told.
pub fn data_dir(xdg: Option<&str>, home: Option<&str>) -> (parts: Option<Vec<String>>)
    ensures
        match data_path(text_of(xdg), text_of(home)) {
            Some(path) => parts matches Some(v) && seen(v@) == path,
            None => parts is None,
        },
{
    let mut parts: Vec<String> = Vec::new();
    match xdg {
        Some(base) => {
            parts.push(base.to_owned());
        },
        None => match home {
            Some(base) => {
                parts.push(base.to_owned());
                parts.push(".local".to_owned());
                parts.push("share".to_owned());
            },
            None => return None,
        },
    }
    parts.push("buoy".to_owned());
    assert(seen(parts@) =~= data_path(text_of(xdg), text_of(home)).unwrap());
    Some(parts)
}

// ---- embedding in the background -------------------------------------------

/// How many thoughts are embedded at a time in the background.
pub const EMBED_BATCH: usize = 32;

/// How many seconds pass until the next look for thoughts to embed once there
/// are none.
pub const EMBED_IDLE_SECS: u64 = 30;

/// How many seconds to wait before the next batch: none while thoughts were
/// embedded, the idle time once there were none or embedding failed.
pub fn pause_before_next_batch(embedded: &Result<usize>) -> (seconds: u64)
    ensures
        seconds == (match *embedded {
            Ok(n) => if n == 0 {
                EMBED_IDLE_SECS
            } else {
                0
            },
            Err(_) => EMBED_IDLE_SECS,
        }),
{
    match embedded {
        Ok(n) => if *n == 0 {
            EMBED_IDLE_SECS
        } else {
            0
        },
        Err(_) => EMBED_IDLE_SECS,
    }
}

} // verus!
