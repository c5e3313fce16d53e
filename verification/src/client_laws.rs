//! What the desktop client shows and does.

use vstd::prelude::*;

use crate::client::{
    caption, data_path, key_action, older_loaded, older_loaded_some_time, pause_before_next_batch,
    refreshed, refreshed_some_time, relative, reloaded, save_draft_ended, saved_as, trim, trim_end,
    trim_start, trimmed, window, Composer, Key, KeyAction, Stream,
};
use crate::clock::{clock_failed, clock_shows};
use crate::decimal::decimal;
use crate::embed::TextEmbedder;
use crate::error::{Error, Result};
use crate::ident::Uuid;
use crate::list_laws::{law_page, lemma_clock, reads};
use crate::mirror::tags_consistent;
use crate::query::{shows_page, stream, stream_from, unreadable, Page, DEFAULT_PAGE_SIZE};
use crate::row_laws::{law_create_ended, law_edit_rows, law_update_ended};
use crate::rows::{law_first_where, law_limited, limited, seen};
use crate::sound::ids_distinct;
use crate::store::ThoughtStore;
use crate::tables::ThoughtRowView;
use crate::text::whitespace;
use crate::thought::{Thought, ThoughtView};

verus! {

// ---- times -----------------------------------------------------------------

/// The text says that it was `value` units ago.
pub open spec fn says(text: Seq<char>, value: int, unit: Seq<char>) -> bool {
    text == decimal(value) + " "@ + unit + (if value == 1 {
        ""@
    } else {
        "s"@
    }) + " ago"@
}

/// A time reads in the largest unit of which one has passed, and counts the whole
/// ones that have: minutes from one on, then hours, days, weeks, months of thirty
/// days and years of 365. Less than a minute ago, or yet to come, is just now.
pub proof fn law_relative(created_ms: i64, now_ms: i64) -> (value: int)
    ensures
        ({
            let ms = now_ms - created_ms;
            let text = relative(created_ms, now_ms);
            &&& ms < 60_000 ==> text == "just now"@
            &&& 60_000 <= ms < 3_600_000 ==> says(text, value, "minute"@) && value * 60_000 <= ms
                < (value + 1) * 60_000
            &&& 3_600_000 <= ms < 86_400_000 ==> says(text, value, "hour"@) && value * 3_600_000
                <= ms < (value + 1) * 3_600_000
            &&& 86_400_000 <= ms < 604_800_000 ==> says(text, value, "day"@) && value * 86_400_000
                <= ms < (value + 1) * 86_400_000
            &&& 604_800_000 <= ms < 2_592_000_000 ==> says(text, value, "week"@) && value
                * 604_800_000 <= ms < (value + 1) * 604_800_000
            &&& 2_592_000_000 <= ms < 31_536_000_000 ==> says(text, value, "month"@) && value
                * 2_592_000_000 <= ms < (value + 1) * 2_592_000_000
            &&& 31_536_000_000 <= ms ==> says(text, value, "year"@) && value * 31_536_000_000 <= ms
                < (value + 1) * 31_536_000_000
        }),
{
    let ms = now_ms - created_ms;
    let seconds = ms / 1000;
    if seconds < 3_600 {
        seconds / 60
    } else if seconds < 86_400 {
        seconds / 3_600
    } else if seconds < 604_800 {
        seconds / 86_400
    } else if seconds < 2_592_000 {
        seconds / 604_800
    } else if seconds < 31_536_000 {
        seconds / 2_592_000
    } else {
        seconds / 31_536_000
    }
}

/// A caption is the time of capture in words, behind a bullet while the thought
/// can still change.
pub proof fn law_caption(thought: ThoughtView, now_ms: i64)
    ensures
        thought.is_settled ==> caption(thought, now_ms) == relative(thought.created_at, now_ms),
        !thought.is_settled ==> caption(thought, now_ms) == "\u{2022} "@ + relative(
            thought.created_at,
            now_ms,
        ),
{
}

// ---- the stream ------------------------------------------------------------

/// A refresh loads whole pages of 64, as few as hold what was loaded before, and
/// one at least.
pub proof fn law_window(loaded: nat)
    ensures
        window(loaded) % 64 == 0,
        window(loaded) >= loaded,
        window(loaded) >= 64,
        window(loaded) < loaded + 64 || window(loaded) == 64,
{
}

/// After a refresh the client shows the newest thoughts of the stream, as many as
/// the window holds, and goes on behind the last of them exactly where more
/// follow. It fails exactly where a row that is read has a damaged identifier, and
/// then keeps what it shows.
pub proof fn law_refreshed(
    before: Stream,
    after: Stream,
    rows: Seq<ThoughtRowView>,
    now: i64,
    r: Result<()>,
)
    requires
        refreshed(before, after, rows, now, r),
    ensures
        ({
            let all = stream(rows);
            let size = window(before.thoughts@.len()) as int;
            let n = if all.len() <= size {
                all.len() as int
            } else {
                size
            };
            let read = if all.len() <= size {
                all.len() as int
            } else {
                size + 1
            };
            &&& r is Ok <==> forall|i: int| 0 <= i < read ==> (#[trigger] all[i]).id.len() == 16
            &&& r is Ok ==> after.thoughts@.len() == n && forall|i: int|
                0 <= i < n ==> reads(#[trigger] after.thoughts@[i], all[i], now)
            &&& r is Ok ==> (after.next_cursor is Some <==> all.len() > size)
            &&& r is Ok ==> (after.next_cursor matches Some(c) ==> c.created_at == all[size
                - 1].created_at && c.id@ == all[size - 1].id)
            &&& r is Err ==> after == before
        }),
{
    let all = stream(rows);
    let size = window(before.thoughts@.len());
    let read = limited(all, size + 1);
    let shown = limited(all, size);
    law_window(before.thoughts@.len());
    law_limited(all, size + 1);
    law_limited(all, size);
    let damaged = |row: ThoughtRowView| row.id.len() != 16;
    law_first_where(read, damaged);
    if r is Ok {
        assert(seen(after.thoughts@).len() == shown.len());
        assert forall|i: int| 0 <= i < shown.len() implies reads(
            #[trigger] after.thoughts@[i],
            all[i],
            now,
        ) by {
            assert(seen(after.thoughts@)[i] == after.thoughts@[i]@);
            assert(shown[i] == all[i]);
        }
        assert forall|i: int| 0 <= i < read.len() implies (#[trigger] all[i]).id.len() == 16 by {
            assert(!damaged(read[i]));
        }
    } else {
        let row = unreadable(read).unwrap();
        let i = choose|i: int| 0 <= i < read.len() && read[i] == row;
        assert(all[i].id.len() != 16);
    }
}

/// Loading older thoughts appends those that come next in the stream, a page of 64
/// at most, to what is shown, and moves the cursor on; where there is no cursor, or
/// reading fails, nothing changes.
pub proof fn law_older_loaded(
    before: Stream,
    after: Stream,
    rows: Seq<ThoughtRowView>,
    now: i64,
    r: Result<()>,
)
    requires
        older_loaded(before, after, rows, now, r),
    ensures
        before.next_cursor is None ==> r is Ok && after == before,
        r is Err ==> after == before,
        before.next_cursor is Some && r is Ok ==> {
            let rest = stream_from(rows, before.next_cursor);
            let old = before.thoughts@.len() as int;
            let n = if rest.len() <= 64 {
                rest.len() as int
            } else {
                64
            };
            &&& after.thoughts@.len() == old + n
            &&& forall|i: int|
                0 <= i < old ==> (#[trigger] after.thoughts@[i])@ == before.thoughts@[i]@
            &&& forall|i: int|
                old <= i < old + n ==> reads(#[trigger] after.thoughts@[i], rest[i - old], now)
            &&& after.next_cursor is Some <==> rest.len() > 64
            &&& after.next_cursor matches Some(c) ==> c.created_at == rest[63].created_at && c.id@
                == rest[63].id
        },
{
    if before.next_cursor is Some && r is Ok {
        let c = before.next_cursor.unwrap();
        let page = choose|page: Result<Page>| #[trigger]
            shows_page(page, rows, Some(c), DEFAULT_PAGE_SIZE, now) && (match page {
                Ok(p) => {
                    &&& r is Ok
                    &&& seen(after.thoughts@) == seen(before.thoughts@) + seen(p.thoughts@)
                    &&& after.next_cursor == p.next_cursor
                },
                Err(e) => r == Err::<(), Error>(e) && after == before,
            });
        law_page(page, rows, Some(c), DEFAULT_PAGE_SIZE, now);
        let p = page.unwrap();
        let old = before.thoughts@.len() as int;
        let rest = stream_from(rows, before.next_cursor);
        assert(seen(after.thoughts@).len() == old + p.thoughts@.len());
        assert forall|i: int| 0 <= i < old implies (#[trigger] after.thoughts@[i])@
            == before.thoughts@[i]@ by {
            assert(seen(after.thoughts@)[i] == seen(before.thoughts@)[i]);
        }
        assert forall|i: int| old <= i < old + p.thoughts@.len() implies reads(
            #[trigger] after.thoughts@[i],
            rest[i - old],
            now,
        ) by {
            assert(seen(after.thoughts@)[i] == seen(p.thoughts@)[i - old]);
            assert(reads(p.thoughts@[i - old], rest[i - old], now));
            assert(after.thoughts@[i]@ == p.thoughts@[i - old]@);
        }
    }
}

/// A refresh at the time of the clock is one at some time since 1970; where the
/// clock failed it keeps what it shows. No two thoughts have the same identifier.
pub proof fn law_refreshed_some_time(
    before: Stream,
    after: Stream,
    rows: Seq<ThoughtRowView>,
    r: Result<()>,
)
    requires
        refreshed_some_time(before, after, rows, r),
        forall|i: int, j: int|
            0 <= i < j < rows.len() ==> (#[trigger] rows[i]).id != (#[trigger] rows[j]).id,
    ensures
        (r matches Err(e) && e is Clock && after == before) || exists|now: i64|
            now >= 0 && #[trigger] refreshed(before, after, rows, now, r),
{
    let apart = |a: ThoughtRowView, b: ThoughtRowView| a.id != b.id;
    assert forall|i: int, j: int| 0 <= i < j < rows.len() implies apart(
        #[trigger] rows[i],
        #[trigger] rows[j],
    ) by {
    }
    assert(ids_distinct(rows));
    if !(r matches Err(e) && clock_failed(e) && after == before) {
        let now = choose|now: i64|
            clock_shows(now) && #[trigger] reloaded(before, after, rows, now, r) && (ids_distinct(
                rows,
            ) ==> refreshed(before, after, rows, now, r));
        lemma_clock(now);
    }
}

/// Loading older thoughts at the time of the clock is that at some time since 1970;
/// where the clock failed nothing changes.
pub proof fn law_older_loaded_some_time(
    before: Stream,
    after: Stream,
    rows: Seq<ThoughtRowView>,
    r: Result<()>,
)
    requires
        older_loaded_some_time(before, after, rows, r),
    ensures
        before.next_cursor is None ==> r is Ok && after == before,
        before.next_cursor is Some ==> (r matches Err(e) && e is Clock && after == before)
            || exists|now: i64| now >= 0 && #[trigger] older_loaded(before, after, rows, now, r),
{
    if before.next_cursor is Some && !(r matches Err(e) && clock_failed(e) && after == before) {
        let now = choose|now: i64|
            clock_shows(now) && #[trigger] older_loaded(before, after, rows, now, r);
        lemma_clock(now);
    }
}

// ---- the composer ----------------------------------------------------------

/// A trimmed text is what is left of it without the whitespace at both ends, and
/// nothing else is taken from it.
pub proof fn law_trimmed(s: Seq<char>) -> (ends: (int, int))
    ensures
        0 <= ends.0 <= ends.1 <= s.len(),
        trimmed(s) == s.subrange(ends.0, ends.1),
        forall|i: int| 0 <= i < ends.0 ==> whitespace(#[trigger] s[i]),
        forall|i: int| ends.1 <= i < s.len() ==> whitespace(#[trigger] s[i]),
        ends.0 < ends.1 ==> !whitespace(s[ends.0]) && !whitespace(s[ends.1 - 1]),
{
    let a = lemma_trim_start(s);
    let rest = s.skip(a);
    let b = lemma_trim_end(rest);
    assert(rest.take(b) =~= s.subrange(a, a + b));
    assert forall|i: int| a + b <= i < s.len() implies whitespace(#[trigger] s[i]) by {
        assert(rest[i - a] == s[i]);
    }
    if b > 0 {
        assert(rest[b - 1] == s[a + b - 1]);
    }
    (a, a + b)
}

proof fn lemma_trim_start(s: Seq<char>) -> (a: int)
    ensures
        0 <= a <= s.len(),
        trim_start(s) == s.skip(a),
        forall|i: int| 0 <= i < a ==> whitespace(#[trigger] s[i]),
        a < s.len() ==> !whitespace(s[a]),
    decreases s.len(),
{
    if s.len() > 0 && whitespace(s[0]) {
        let rest = s.skip(1);
        let b = lemma_trim_start(rest);
        assert(rest.skip(b) =~= s.skip(b + 1));
        assert forall|i: int| 0 <= i < b + 1 implies whitespace(#[trigger] s[i]) by {
            if i > 0 {
                assert(rest[i - 1] == s[i]);
            }
        }
        b + 1
    } else {
        assert(s.skip(0) =~= s);
        0
    }
}

proof fn lemma_trim_end(s: Seq<char>) -> (b: int)
    ensures
        0 <= b <= s.len(),
        trim_end(s) == s.take(b),
        forall|i: int| b <= i < s.len() ==> whitespace(#[trigger] s[i]),
        b > 0 ==> !whitespace(s[b - 1]),
    decreases s.len(),
{
    if s.len() > 0 && whitespace(s.last()) {
        let front = s.drop_last();
        let b = lemma_trim_end(front);
        assert(front.take(b) =~= s.take(b));
        assert forall|i: int| b <= i < s.len() implies whitespace(#[trigger] s[i]) by {
            if i < front.len() {
                assert(front[i] == s[i]);
            }
        }
        b
    } else {
        assert(s.take(s.len() as int) =~= s);
        s.len() as int
    }
}

/// A draft without text is not saved. Any other is saved trimmed: as a new thought,
/// or as the new text of the one that is edited, and editing is over. Where that
/// fails the store is as it was, and editing goes on.
pub proof fn law_draft_saved<E: TextEmbedder>(
    editing: Option<Uuid>,
    after: Option<Uuid>,
    old_store: ThoughtStore<E>,
    new_store: ThoughtStore<E>,
    draft: Seq<char>,
    r: Result<bool>,
)
    requires
        save_draft_ended(editing, after, old_store, new_store, draft, r),
        tags_consistent(old_store@),
    ensures
        r matches Ok(saved) ==> (saved <==> exists|i: int|
            0 <= i < draft.len() && !whitespace(#[trigger] draft[i])),
        !(r matches Ok(true)) ==> after == editing && new_store@ == old_store@,
        r matches Ok(true) ==> after is None,
        r matches Ok(true) && editing is None ==> new_store@.thoughts.len()
            == old_store@.thoughts.len() + 1 && new_store@.thoughts.last().text == trimmed(draft)
            && new_store@.thoughts.drop_last() == old_store@.thoughts,
        r matches Ok(true) ==> (editing matches Some(id) ==> forall|i: int|
            0 <= i < new_store@.thoughts.len() && (#[trigger] new_store@.thoughts[i]).id == id@
                ==> new_store@.thoughts[i].text == trimmed(draft)),
{
    let ends = law_trimmed(draft);
    let text = trimmed(draft);
    if text.len() > 0 {
        assert(!whitespace(draft[ends.0]));
        let saved = choose|saved: Result<Thought>| #[trigger]
            saved_as(saved, editing, old_store, new_store, text) && (match saved {
                Ok(_) => r == Ok::<bool, Error>(true) && after is None,
                Err(e) => r == Err::<bool, Error>(e) && after == editing,
            });
        match editing {
            Some(id) => {
                law_update_ended(old_store, new_store, id, text, saved);
                if saved is Ok {
                    let now = saved.unwrap().updated_at;
                    law_edit_rows(old_store@.thoughts, id@, text, now);
                }
            },
            None => {
                law_create_ended(old_store, new_store, text, saved);
                if saved is Ok {
                    assert(new_store@.thoughts.drop_last() =~= old_store@.thoughts);
                }
            },
        }
    } else {
        assert forall|i: int| 0 <= i < draft.len() implies whitespace(#[trigger] draft[i]) by {
        }
    }
}

/// Escape ends an edit. Return, on either part of the keyboard, saves unless shift
/// is held. Every other key goes to the text.
pub proof fn law_keys(key: Key, shift: bool, editing: bool)
    ensures
        key_action(key, shift, editing) == KeyAction::CancelEdit <==> key == Key::Escape && editing,
        key_action(key, shift, editing) == KeyAction::Save <==> !shift && (key == Key::Return || key
            == Key::KeypadEnter),
        key_action(Key::Other, shift, editing) == KeyAction::Proceed,
        key_action(key, true, false) == KeyAction::Proceed,
{
}

/// The data is kept in a directory of its own below the one for data that the
/// environment names, and without that below the one that is usual in the home;
/// without either there is none.
pub proof fn law_data_path(xdg: Option<Seq<char>>, home: Option<Seq<char>>)
    ensures
        xdg matches Some(base) ==> data_path(xdg, home) == Some(seq![base, "buoy"@]),
        xdg is None ==> (home matches Some(base) ==> data_path(xdg, home) == Some(
            seq![base, ".local"@, "share"@, "buoy"@],
        )),
        xdg is None && home is None ==> data_path(xdg, home) is None,
{
}

/// The button says what saving would do.
pub proof fn law_button_label(composer: Composer, label: &'static str)
    requires
        call_ensures(Composer::button_label, (&composer,), label),
    ensures
        composer.editing is Some ==> label@ == "Update"@,
        composer.editing is None ==> label@ == "Save"@,
{
}

/// The next batch follows at once while there was something to embed; otherwise
/// half a minute passes.
pub proof fn law_pause(embedded: &Result<usize>, seconds: u64)
    requires
        call_ensures(pause_before_next_batch, (embedded,), seconds),
    ensures
        seconds == 0 <==> (*embedded matches Ok(n) && n > 0),
        seconds == 0 || seconds == 30,
{
}

/// Trimming takes the whitespace at both ends, and nothing else.
pub proof fn law_trim(text: &str, out: String) -> (ends: (int, int))
    requires
        call_ensures(trim, (text,), out),
    ensures
        0 <= ends.0 <= ends.1 <= text@.len(),
        out@ == text@.subrange(ends.0, ends.1),
        forall|i: int| 0 <= i < ends.0 ==> whitespace(#[trigger] text@[i]),
        forall|i: int| ends.1 <= i < text@.len() ==> whitespace(#[trigger] text@[i]),
        ends.0 < ends.1 ==> !whitespace(text@[ends.0]) && !whitespace(text@[ends.1 - 1]),
{
    law_trimmed(text@)
}

} // verus!
