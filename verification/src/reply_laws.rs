//! What the server and the apps are told: every field of what the store holds, and
//! identifiers as text that reads back as what it stands for.

use vstd::prelude::*;

use crate::api::{
    app_error, change_dto, change_in, cursor_complaint, is_page_dto, match_dto, saved_dto,
    sync_cursor_complaint, thought_dto, AppError, AppErrorView, EditEntryDto, PageDto,
    SavedSearchDto, ThoughtChangeDto, ThoughtChangeDtoView, ThoughtDto, ThoughtMatchDto,
};
use crate::codec::{law_key_round_trips, parsed_key, KeyFault};
use crate::embed::TextEmbedder;
use crate::error::{error_text, Error, Result};
use crate::ffi::{
    ffi_error, ffi_match, ffi_thought, gives_count, gives_matches, gives_nothing, gives_page,
    gives_thought, gives_thoughts, is_ffi_page, points_to, FfiError, FfiErrorView,
};
use crate::ffi_sync::{gives_changes, misnamed, pushed_rows, resumes_at, PushedChangeView};
use crate::ffi_tags::gives_searches;
use crate::ident::{hyphenated, law_uuid_text_round_trips, parsed_uuid};
use crate::list_laws::{carries_row, law_shows_changes};
use crate::query::{feed, Cursor, Page};
use crate::rows::{law_first_where, law_limited, limited, seen};
use crate::saved_search::SavedSearch;
use crate::search::ThoughtMatch;
use crate::service::{
    answers_pull, arrived, created_reply, empty_reply, incoming, is_at, is_sync_at, matches_reply,
    or_else, saved_reply, sync_ended, sync_reply, thought_reply, thoughts_reply, SyncRequest,
    SyncResponse,
};
use crate::store::ThoughtStore;
use crate::sync::{SyncCursor, ThoughtChange};
use crate::tables::{TablesView, ThoughtRowView};
use crate::thought::{EditEntry, Thought};

verus! {

// ---- thoughts --------------------------------------------------------------

/// The reply holds the thought, field by field.
pub open spec fn tells_thought(dto: ThoughtDto, thought: Thought) -> bool {
    &&& dto.id@ == hyphenated(thought.id@) && parsed_uuid(dto.id@) == Some(thought.id@)
    &&& dto.text@ == thought.text@
    &&& dto.created_at == thought.created_at && dto.updated_at == thought.updated_at
    &&& dto.is_settled == thought.is_settled && dto.is_actioned == thought.is_actioned
}

/// A thought is replied with as it is.
pub proof fn law_thought_dto(dto: ThoughtDto, thought: Thought)
    requires
        dto@ == thought_dto(thought@),
    ensures
        tells_thought(dto, thought),
{
    law_uuid_text_round_trips(thought.id);
    assert(thought@.id == thought.id@);
    assert(dto@.id == dto.id@ && dto@.text == dto.text@);
    assert(dto@.created_at == dto.created_at && dto@.updated_at == dto.updated_at);
    assert(dto@.is_settled == dto.is_settled && dto@.is_actioned == dto.is_actioned);
}

/// The reply to a request for a thought is the thought, and the error of the store
/// where there is one: not found where it is that, and otherwise internal.
pub proof fn law_thought_reply(
    out: std::result::Result<ThoughtDto, AppError>,
    r: Result<Thought>,
)
    requires
        thought_reply(out, r),
    ensures
        out is Ok <==> r is Ok,
        r matches Ok(thought) ==> tells_thought(out.unwrap(), thought),
        r matches Err(e) ==> (match out.unwrap_err() {
            AppError::NotFound(m) => e is NotFound && m@ == error_text(e),
            AppError::BadRequest(_) => false,
            AppError::Internal(m) => !(e is NotFound) && m@ == error_text(e),
        }),
{
    if r is Ok {
        law_thought_dto(out.unwrap(), r.unwrap());
    }
}

/// A page is replied with thought by thought, in order, and with a cursor exactly
/// where it has one, which reads back as the same position.
pub proof fn law_page_dto(out: PageDto, page: Page)
    requires
        is_page_dto(out, page),
    ensures
        out.thoughts@.len() == page.thoughts@.len(),
        forall|i: int|
            0 <= i < page.thoughts@.len() ==> tells_thought(
                #[trigger] out.thoughts@[i],
                page.thoughts@[i],
            ),
        out.next_cursor is Some <==> page.next_cursor is Some,
        page.next_cursor matches Some(c) ==> parsed_key(out.next_cursor.unwrap()@) == Ok::<
            (i64, Seq<u8>),
            KeyFault,
        >((c.created_at, c.id@)),
{
    assert(seen(out.thoughts@).len() == seen(page.thoughts@).len());
    assert forall|i: int| 0 <= i < page.thoughts@.len() implies tells_thought(
        #[trigger] out.thoughts@[i],
        page.thoughts@[i],
    ) by {
        assert(seen(out.thoughts@)[i] == thought_dto(seen(page.thoughts@)[i]));
        law_thought_dto(out.thoughts@[i], page.thoughts@[i]);
    }
    if page.next_cursor is Some {
        let c = page.next_cursor.unwrap();
        law_key_round_trips(c.created_at, c.id);
    }
}

/// A match is replied with as it is: the thought, the snippet and each range.
pub proof fn law_match_dto(dto: ThoughtMatchDto, found: ThoughtMatch)
    requires
        dto@ == match_dto(found@),
    ensures
        tells_thought(dto.thought, found.thought),
        dto.snippet@ == found.snippet@,
        dto.ranges@.len() == found.ranges@.len(),
        forall|i: int|
            0 <= i < found.ranges@.len() ==> (#[trigger] dto.ranges@[i]).start
                == found.ranges@[i].start && dto.ranges@[i].len == found.ranges@[i].len,
{
    assert(dto@.thought == dto.thought@ && dto@.snippet == dto.snippet@);
    assert(found@.thought == found.thought@ && found@.snippet == found.snippet@);
    assert(dto@.ranges == dto.ranges@ && found@.ranges == found.ranges@);
    law_thought_dto(dto.thought, found.thought);
}

/// A saved search is replied with as it is.
pub proof fn law_saved_dto(dto: SavedSearchDto, saved: SavedSearch)
    requires
        dto@ == saved_dto(saved@),
    ensures
        dto.id@ == hyphenated(saved.id@) && parsed_uuid(dto.id@) == Some(saved.id@),
        dto.name@ == saved.name@ && dto.query@ == saved.query@,
        dto.created_at == saved.created_at,
{
    law_uuid_text_round_trips(saved.id);
    assert(saved@.id == saved.id@ && saved@.name == saved.name@ && saved@.query == saved.query@);
    assert(dto@.id == dto.id@ && dto@.name == dto.name@ && dto@.query == dto.query@);
    assert(dto@.created_at == dto.created_at);
}

// ---- changes ---------------------------------------------------------------

/// The message holds the change, field by field.
pub open spec fn tells_change(dto: ThoughtChangeDto, change: ThoughtChange) -> bool {
    &&& dto.id@ == hyphenated(change.id@) && parsed_uuid(dto.id@) == Some(change.id@)
    &&& dto.text@ == change.text@
    &&& dto.created_at == change.created_at && dto.updated_at == change.updated_at
    &&& dto.settled_at == change.settled_at && dto.deleted_at == change.deleted_at
    &&& dto.actioned_at == change.actioned_at
}

/// A change is sent as it is.
pub proof fn law_change_dto(dto: ThoughtChangeDto, change: ThoughtChange)
    requires
        dto@ == change_dto(change@),
    ensures
        tells_change(dto, change),
{
    law_uuid_text_round_trips(change.id);
    assert(change@.id == change.id@ && change@.text == change.text@);
    assert(dto@.id == dto.id@ && dto@.text == dto.text@);
    assert(dto@.settled_at == dto.settled_at && dto@.deleted_at == dto.deleted_at);
}

/// A change that comes in is taken as it was sent, and refused exactly where its
/// identifier cannot be read.
pub proof fn law_change_in(d: ThoughtChangeDtoView)
    ensures
        change_in(d) is Some <==> parsed_uuid(d.id) is Some,
        change_in(d) matches Some(c) ==> {
            &&& Some(c.id) == parsed_uuid(d.id) && c.text == d.text
            &&& c.created_at == d.created_at && c.updated_at == d.updated_at
            &&& c.settled_at == d.settled_at && c.deleted_at == d.deleted_at
            &&& c.actioned_at == d.actioned_at
        },
{
}

/// The changes of a request are taken all, in order, or none where one of them
/// cannot be read.
pub proof fn law_incoming(changes: Seq<ThoughtChangeDtoView>)
    ensures
        incoming(changes) is Some <==> forall|i: int|
            0 <= i < changes.len() ==> parsed_uuid((#[trigger] changes[i]).id) is Some,
        incoming(changes) matches Some(taken) ==> taken.len() == changes.len() && forall|i: int|
            0 <= i < changes.len() ==> change_in(changes[i]) == Some(#[trigger] taken[i]),
{
    if forall|i: int| 0 <= i < changes.len() ==> parsed_uuid((#[trigger] changes[i]).id) is Some {
        assert forall|i: int| 0 <= i < changes.len() implies change_in(
            #[trigger] changes[i],
        ) is Some by {
        }
    } else {
        let i = choose|i: int|
            0 <= i < changes.len() && parsed_uuid((#[trigger] changes[i]).id) is None;
        assert(change_in(changes[i]) is None);
    }
}

/// The reply to a pull holds every change that was read, in order, and a cursor
/// that reads back as the last of them; where none was read, the one that was
/// asked with.
pub proof fn law_sync_reply(
    out: std::result::Result<SyncResponse, AppError>,
    r: Result<Vec<ThoughtChange>>,
    since: Option<String>,
)
    requires
        sync_reply(out, r, since),
    ensures
        out is Ok <==> r is Ok,
        r matches Ok(changes) ==> {
            let reply = out.unwrap();
            &&& reply.changes@.len() == changes@.len()
            &&& forall|i: int|
                0 <= i < changes@.len() ==> tells_change(#[trigger] reply.changes@[i], changes@[i])
            &&& changes@.len() > 0 ==> reply.cursor is Some && parsed_key(reply.cursor.unwrap()@)
                == Ok::<(i64, Seq<u8>), KeyFault>(
                (changes@.last().updated_at, changes@.last().id@),
            )
            &&& changes@.len() == 0 ==> (reply.cursor is Some <==> since is Some)
            &&& changes@.len() == 0 && since is Some ==> reply.cursor.unwrap()@ == since.unwrap()@
        },
{
    if r is Ok {
        let changes = r.unwrap();
        let reply = out.unwrap();
        assert(seen(reply.changes@).len() == changes@.len());
        assert forall|i: int| 0 <= i < changes@.len() implies tells_change(
            #[trigger] reply.changes@[i],
            changes@[i],
        ) by {
            assert(seen(reply.changes@)[i] == change_dto(changes@[i]@));
            law_change_dto(reply.changes@[i], changes@[i]);
        }
        if changes@.len() > 0 {
            let last = changes@.last();
            assert(seen(changes@).last() == last@);
            assert(last@.id == last.id@ && last@.updated_at == last.updated_at);
            law_key_round_trips(last.updated_at, last.id);
        }
    }
}

// ---- the apps --------------------------------------------------------------

/// The apps see the thought, field by field.
pub open spec fn app_sees(out: crate::ffi::Thought, thought: Thought) -> bool {
    &&& out.id@ == hyphenated(thought.id@) && parsed_uuid(out.id@) == Some(thought.id@)
    &&& out.text@ == thought.text@
    &&& out.created_at == thought.created_at && out.updated_at == thought.updated_at
    &&& out.is_settled == thought.is_settled && out.is_actioned == thought.is_actioned
}

/// The apps see a thought as it is.
pub proof fn law_app_thought(out: crate::ffi::Thought, thought: Thought)
    requires
        out@ == ffi_thought(thought@),
    ensures
        app_sees(out, thought),
{
    law_uuid_text_round_trips(thought.id);
    assert(thought@.id == thought.id@);
    assert(out@.id == out.id@ && out@.text == out.text@);
    assert(out@.created_at == out.created_at && out@.updated_at == out.updated_at);
    assert(out@.is_settled == out.is_settled && out@.is_actioned == out.is_actioned);
}

/// The apps see a page thought by thought, in order, and its cursor, whose
/// identifier reads back as the same.
pub proof fn law_app_page(out: crate::ffi::Page, page: Page)
    requires
        is_ffi_page(out, page),
    ensures
        out.thoughts@.len() == page.thoughts@.len(),
        forall|i: int|
            0 <= i < page.thoughts@.len() ==> app_sees(
                #[trigger] out.thoughts@[i],
                page.thoughts@[i],
            ),
        out.next_cursor is Some <==> page.next_cursor is Some,
        page.next_cursor matches Some(c) ==> out.next_cursor.unwrap().created_at == c.created_at
            && parsed_uuid(out.next_cursor.unwrap().id@) == Some(c.id@),
{
    assert(seen(out.thoughts@).len() == seen(page.thoughts@).len());
    assert forall|i: int| 0 <= i < page.thoughts@.len() implies app_sees(
        #[trigger] out.thoughts@[i],
        page.thoughts@[i],
    ) by {
        assert(seen(out.thoughts@)[i] == ffi_thought(seen(page.thoughts@)[i]));
        law_app_thought(out.thoughts@[i], page.thoughts@[i]);
    }
    if page.next_cursor is Some {
        law_uuid_text_round_trips(page.next_cursor.unwrap().id);
    }
}

/// The apps see a match as it is: the thought, the snippet and each range.
pub proof fn law_app_match(out: crate::ffi::ThoughtMatch, found: ThoughtMatch)
    requires
        out@ == ffi_match(found@),
    ensures
        app_sees(out.thought, found.thought),
        out.snippet@ == found.snippet@,
        out.ranges@.len() == found.ranges@.len(),
        forall|i: int|
            0 <= i < found.ranges@.len() ==> (#[trigger] out.ranges@[i]).start
                == found.ranges@[i].start && out.ranges@[i].len == found.ranges@[i].len,
{
    assert(out@.thought == out.thought@ && out@.snippet == out.snippet@);
    assert(found@.thought == found.thought@ && found@.snippet == found.snippet@);
    assert(out@.ranges == out.ranges@ && found@.ranges == found.ranges@);
    law_app_thought(out.thought, found.thought);
}

/// The apps are told of a thought that is not there, of trouble with embedding and
/// of trouble with storage apart; the latter two with the text of the error.
pub proof fn law_app_errors(e: Error)
    ensures
        ffi_error(e) is NotFound <==> e is NotFound,
        ffi_error(e) is Embedding <==> e is ModelLoad || e is Embedding || e is NoEmbedder,
        !(ffi_error(e) is InvalidId),
        ffi_error(e) matches FfiErrorView::Embedding { message } ==> message == error_text(e),
        ffi_error(e) matches FfiErrorView::Storage { message } ==> message == error_text(e),
        app_error(e) is NotFound <==> e is NotFound,
        app_error(e) is Internal <==> !(e is NotFound),
        app_error(e) matches AppErrorView::NotFound(m) ==> m == error_text(e),
        app_error(e) matches AppErrorView::Internal(m) ==> m == error_text(e),
{
}

/// The apps get what the store gave, entry by entry and in order, or its error.
pub proof fn law_app_replies(
    one: std::result::Result<crate::ffi::Thought, FfiError>,
    r: Result<Thought>,
    many: std::result::Result<Vec<crate::ffi::Thought>, FfiError>,
    rs: Result<Vec<Thought>>,
    matches: std::result::Result<Vec<crate::ffi::ThoughtMatch>, FfiError>,
    m: Result<Vec<ThoughtMatch>>,
    count: std::result::Result<u32, FfiError>,
    n: Result<usize>,
)
    requires
        gives_thought(one, r),
        gives_thoughts(many, rs),
        gives_matches(matches, m),
        gives_count(count, n),
    ensures
        one is Ok <==> r is Ok,
        r matches Ok(thought) ==> app_sees(one.unwrap(), thought),
        r matches Err(e) ==> one.unwrap_err()@ == ffi_error(e),
        many is Ok <==> rs is Ok,
        rs matches Ok(all) ==> many.unwrap()@.len() == all@.len() && forall|i: int|
            0 <= i < all@.len() ==> app_sees(#[trigger] many.unwrap()@[i], all@[i]),
        rs matches Err(e) ==> many.unwrap_err()@ == ffi_error(e),
        matches is Ok <==> m is Ok,
        m matches Ok(all) ==> matches.unwrap()@.len() == all@.len() && forall|i: int|
            0 <= i < all@.len() ==> (#[trigger] matches.unwrap()@[i])@ == ffi_match(all@[i]@),
        m matches Err(e) ==> matches.unwrap_err()@ == ffi_error(e),
        count is Ok <==> n is Ok,
        n matches Ok(k) ==> count.unwrap() == k,
        n matches Err(e) ==> count.unwrap_err()@ == ffi_error(e),
{
    if r is Ok {
        law_app_thought(one.unwrap(), r.unwrap());
    }
    if rs is Ok {
        let all = rs.unwrap();
        let out = many.unwrap();
        assert(seen(out@).len() == seen(all@).len());
        assert forall|i: int| 0 <= i < all@.len() implies app_sees(#[trigger] out@[i], all@[i]) by {
            assert(seen(out@)[i] == ffi_thought(seen(all@)[i]));
            law_app_thought(out@[i], all@[i]);
        }
    }
    if m is Ok {
        let all = m.unwrap();
        let out = matches.unwrap();
        assert(seen(out@).len() == seen(all@).len());
        assert forall|i: int| 0 <= i < all@.len() implies (#[trigger] out@[i])@ == ffi_match(
            all@[i]@,
        ) by {
            assert(seen(out@)[i] == ffi_match(seen(all@)[i]));
        }
    }
}

/// The apps get pages, changes and saved searches as the store gave them, or its
/// error; and its error too where there is nothing to give.
pub proof fn law_app_lists(
    page: std::result::Result<crate::ffi::Page, FfiError>,
    p: Result<Page>,
    changes: std::result::Result<Vec<crate::ffi_sync::ThoughtChange>, FfiError>,
    c: Result<Vec<ThoughtChange>>,
    searches: std::result::Result<Vec<crate::ffi_tags::SavedSearch>, FfiError>,
    s: Result<Vec<SavedSearch>>,
    done: std::result::Result<(), FfiError>,
    d: Result<()>,
)
    requires
        gives_page(page, p),
        gives_changes(changes, c),
        gives_searches(searches, s),
        gives_nothing(done, d),
    ensures
        page is Ok <==> p is Ok,
        p matches Ok(x) ==> is_ffi_page(page.unwrap(), x),
        p matches Err(e) ==> page.unwrap_err()@ == ffi_error(e),
        changes is Ok <==> c is Ok,
        c matches Ok(all) ==> changes.unwrap()@.len() == all@.len() && forall|i: int|
            0 <= i < all@.len() ==> (#[trigger] changes.unwrap()@[i])@ == change_dto(all@[i]@),
        c matches Err(e) ==> changes.unwrap_err()@ == ffi_error(e),
        searches is Ok <==> s is Ok,
        s matches Ok(all) ==> searches.unwrap()@.len() == all@.len() && forall|i: int|
            0 <= i < all@.len() ==> (#[trigger] searches.unwrap()@[i])@ == saved_dto(all@[i]@),
        s matches Err(e) ==> searches.unwrap_err()@ == ffi_error(e),
        done is Ok <==> d is Ok,
        d matches Err(e) ==> done.unwrap_err()@ == ffi_error(e),
{
    if c is Ok {
        let all = c.unwrap();
        let out = changes.unwrap();
        assert(seen(out@).len() == all@.len());
        assert forall|i: int| 0 <= i < all@.len() implies (#[trigger] out@[i])@ == change_dto(
            all@[i]@,
        ) by {
            assert(seen(out@)[i] == change_dto(all@[i]@));
        }
    }
    if s is Ok {
        let all = s.unwrap();
        let out = searches.unwrap();
        assert(seen(out@).len() == all@.len());
        assert forall|i: int| 0 <= i < all@.len() implies (#[trigger] out@[i])@ == saved_dto(
            all@[i]@,
        ) by {
            assert(seen(out@)[i] == saved_dto(all@[i]@));
        }
    }
}

/// What the apps see of changes and saved searches are their fields.
pub proof fn law_app_fields(
    change: crate::ffi_sync::ThoughtChange,
    saved: crate::ffi_tags::SavedSearch,
    receipt: crate::ffi_sync::PushedChange,
)
    ensures
        change@.id == change.id@ && change@.text == change.text@,
        change@.created_at == change.created_at && change@.updated_at == change.updated_at,
        change@.settled_at == change.settled_at && change@.deleted_at == change.deleted_at,
        change@.actioned_at == change.actioned_at,
        saved@.id == saved.id@ && saved@.name == saved.name@ && saved@.query == saved.query@,
        saved@.created_at == saved.created_at,
        receipt@.id == receipt.id@ && receipt@.updated_at == receipt.updated_at,
{
}

/// A cursor of the apps or of a request stands for one position: its time and its
/// identifier.
pub proof fn law_cursors(
    before: Option<Cursor>,
    cursor: crate::ffi::Cursor,
    since: Option<SyncCursor>,
    sync_cursor: crate::ffi_sync::SyncCursor,
    key: (i64, Seq<u8>),
    id: Seq<u8>,
)
    ensures
        points_to(before, cursor, id) <==> before is Some && before.unwrap().created_at
            == cursor.created_at && before.unwrap().id@ == id,
        resumes_at(since, sync_cursor, id) <==> since is Some && since.unwrap().updated_at
            == sync_cursor.updated_at && since.unwrap().id@ == id,
        is_at(before, key) <==> before is Some && before.unwrap().created_at == key.0
            && before.unwrap().id@ == key.1,
        is_sync_at(since, key) <==> since is Some && since.unwrap().updated_at == key.0
            && since.unwrap().id@ == key.1,
{
}

/// What a client hears back from a sync with a cursor that cannot be read, or a
/// change that cannot be: that it is a bad request, and nothing is changed.
/// Otherwise its changes have arrived, and it hears what was modified behind its
/// cursor, in order, a thousand changes at most, and a cursor to go on from.
pub proof fn law_sync_ended<E: TextEmbedder>(
    before: ThoughtStore<E>,
    after: ThoughtStore<E>,
    req: SyncRequest,
    out: std::result::Result<SyncResponse, AppError>,
)
    requires
        sync_ended(before, after, req, out),
    ensures
        ({
            let unread = req.since matches Some(text) && parsed_key(text@) is Err;
            let unknown = exists|i: int|
                0 <= i < req.changes@.len() && parsed_uuid((#[trigger] req.changes@[i]).id@) is None;
            &&& unread || unknown ==> after == before && out is Err && out.unwrap_err() is BadRequest
            &&& !unread && !unknown ==> incoming(seen(req.changes@)) is Some && arrived(
                before.embedder,
                before@,
                after@,
                incoming(seen(req.changes@)).unwrap(),
            )
            &&& out matches Ok(reply) ==> exists|since: Option<SyncCursor>|
                (match req.since {
                    Some(text) => since matches Some(c) && parsed_key(text@) == Ok::<
                        (i64, Seq<u8>),
                        KeyFault,
                    >((c.updated_at, c.id@)),
                    None => since is None,
                }) && {
                    let all = #[trigger] feed(after@.thoughts, since);
                    let n = if all.len() <= 1000 {
                        all.len() as int
                    } else {
                        1000
                    };
                    &&& reply.changes@.len() == n
                    &&& forall|i: int| 0 <= i < n ==> sends_row(#[trigger] reply.changes@[i], all[i])
                    &&& n > 0 ==> reply.cursor is Some && parsed_key(reply.cursor.unwrap()@)
                        == Ok::<(i64, Seq<u8>), KeyFault>((all[n - 1].updated_at, all[n - 1].id))
                    &&& n == 0 && req.since is Some ==> reply.cursor is Some
                        && reply.cursor.unwrap()@ == req.since.unwrap()@
                }
        }),
{
    law_incoming(seen(req.changes@));
    let unread = req.since matches Some(text) && parsed_key(text@) is Err;
    let unknown = exists|i: int|
        0 <= i < req.changes@.len() && parsed_uuid((#[trigger] req.changes@[i]).id@) is None;
    if unknown {
        let i = choose|i: int|
            0 <= i < req.changes@.len() && parsed_uuid((#[trigger] req.changes@[i]).id@) is None;
        assert(seen(req.changes@)[i].id == req.changes@[i].id@);
    } else {
        assert forall|i: int| 0 <= i < seen(req.changes@).len() implies parsed_uuid(
            (#[trigger] seen(req.changes@)[i]).id,
        ) is Some by {
            assert(seen(req.changes@)[i].id == req.changes@[i].id@);
        }
    }
    if out is Ok && !unread && !unknown {
        if req.since is Some {
            let key = parsed_key(req.since.unwrap()@).unwrap();
            let (r, cursor) = choose|r: Result<Vec<ThoughtChange>>, cursor: Option<SyncCursor>|
                #[trigger] answers_pull(out, r, after@, cursor, req.since) && is_sync_at(
                    cursor,
                    key,
                );
            lemma_pull(out, r, after@, cursor, req.since);
        } else {
            let r = choose|r: Result<Vec<ThoughtChange>>| #[trigger]
                answers_pull(out, r, after@, None, req.since);
            lemma_pull(out, r, after@, None, req.since);
        }
    }
}

/// The message holds every column of the row but whether it has been pushed.
pub open spec fn sends_row(dto: ThoughtChangeDto, row: ThoughtRowView) -> bool {
    &&& dto.id@ == hyphenated(row.id) && parsed_uuid(dto.id@) == Some(row.id)
    &&& dto.text@ == row.text
    &&& dto.created_at == row.created_at && dto.updated_at == row.updated_at
    &&& dto.settled_at == row.settled_at && dto.deleted_at == row.deleted_at
    &&& dto.actioned_at == row.actioned_at
}

proof fn lemma_pull(
    out: std::result::Result<SyncResponse, AppError>,
    r: Result<Vec<ThoughtChange>>,
    t: TablesView,
    cursor: Option<SyncCursor>,
    since: Option<String>,
)
    requires
        answers_pull(out, r, t, cursor, since),
        out is Ok,
    ensures
        ({
            let reply = out.unwrap();
            let all = feed(t.thoughts, cursor);
            let n = if all.len() <= 1000 {
                all.len() as int
            } else {
                1000
            };
            &&& reply.changes@.len() == n
            &&& forall|i: int| 0 <= i < n ==> sends_row(#[trigger] reply.changes@[i], all[i])
            &&& n > 0 ==> reply.cursor is Some && parsed_key(reply.cursor.unwrap()@) == Ok::<
                (i64, Seq<u8>),
                KeyFault,
            >((all[n - 1].updated_at, all[n - 1].id))
            &&& n == 0 && since is Some ==> reply.cursor is Some && reply.cursor.unwrap()@
                == since.unwrap()@
        }),
{
    let reply = out.unwrap();
    let all = feed(t.thoughts, cursor);
    let shown = limited(all, 1000);
    law_sync_reply(out, r, since);
    law_shows_changes(r, shown);
    law_limited(all, 1000);
    let changes = r.unwrap();
    assert forall|i: int| 0 <= i < shown.len() implies sends_row(
        #[trigger] reply.changes@[i],
        all[i],
    ) by {
        assert(tells_change(reply.changes@[i], changes@[i]));
        assert(carries_row(changes@[i], shown[i]));
        assert(shown[i] == all[i]);
    }
    if shown.len() > 0 {
        let last = shown.len() - 1;
        assert(carries_row(changes@[last], shown[last]));
        assert(shown[last] == all[last]);
        assert(changes@.last() == changes@[last]);
    }
}

// ---- statuses and defaults -------------------------------------------------

/// What is created is replied with under the status for that, and what is deleted
/// with nothing under the status for that; trouble of the store is told as it is.
pub proof fn law_statuses(
    made: std::result::Result<(u16, ThoughtDto), AppError>,
    gone: std::result::Result<u16, AppError>,
    r: Result<Thought>,
    d: Result<()>,
)
    requires
        created_reply(made, r),
        empty_reply(gone, d),
    ensures
        made is Ok <==> r is Ok,
        r matches Ok(thought) ==> made.unwrap().0 == 201 && tells_thought(made.unwrap().1, thought),
        r matches Err(e) ==> made.unwrap_err()@ == app_error(e),
        gone is Ok <==> d is Ok,
        d is Ok ==> gone == Ok::<u16, AppError>(204),
        d matches Err(e) ==> gone.unwrap_err()@ == app_error(e),
{
    if r is Ok {
        law_thought_dto(made.unwrap().1, r.unwrap());
    }
}

/// Lists are replied with entry by entry, in order.
pub proof fn law_list_replies(
    thoughts: std::result::Result<Vec<ThoughtDto>, AppError>,
    r: Result<Vec<Thought>>,
    matches: std::result::Result<Vec<ThoughtMatchDto>, AppError>,
    m: Result<Vec<ThoughtMatch>>,
    searches: std::result::Result<Vec<SavedSearchDto>, AppError>,
    s: Result<Vec<SavedSearch>>,
)
    requires
        thoughts_reply(thoughts, r),
        matches_reply(matches, m),
        saved_reply(searches, s),
    ensures
        thoughts is Ok <==> r is Ok,
        r matches Ok(all) ==> thoughts.unwrap()@.len() == all@.len() && forall|i: int|
            0 <= i < all@.len() ==> tells_thought(#[trigger] thoughts.unwrap()@[i], all@[i]),
        r matches Err(e) ==> thoughts.unwrap_err()@ == app_error(e),
        matches is Ok <==> m is Ok,
        m matches Ok(all) ==> matches.unwrap()@.len() == all@.len() && forall|i: int|
            0 <= i < all@.len() ==> (#[trigger] matches.unwrap()@[i])@ == match_dto(all@[i]@),
        m matches Err(e) ==> matches.unwrap_err()@ == app_error(e),
        searches is Ok <==> s is Ok,
        s matches Ok(all) ==> searches.unwrap()@.len() == all@.len() && forall|i: int|
            0 <= i < all@.len() ==> (#[trigger] searches.unwrap()@[i])@ == saved_dto(all@[i]@),
        s matches Err(e) ==> searches.unwrap_err()@ == app_error(e),
{
    if r is Ok {
        let all = r.unwrap();
        let out = thoughts.unwrap();
        assert(seen(out@).len() == seen(all@).len());
        assert forall|i: int| 0 <= i < all@.len() implies tells_thought(
            #[trigger] out@[i],
            all@[i],
        ) by {
            assert(seen(out@)[i] == thought_dto(seen(all@)[i]));
            law_thought_dto(out@[i], all@[i]);
        }
    }
    if m is Ok {
        let all = m.unwrap();
        let out = matches.unwrap();
        assert(seen(out@).len() == seen(all@).len());
        assert forall|i: int| 0 <= i < all@.len() implies (#[trigger] out@[i])@ == match_dto(
            all@[i]@,
        ) by {
            assert(seen(out@)[i] == match_dto(seen(all@)[i]));
        }
    }
    if s is Ok {
        let all = s.unwrap();
        let out = searches.unwrap();
        assert(seen(out@).len() == all@.len());
        assert forall|i: int| 0 <= i < all@.len() implies (#[trigger] out@[i])@ == saved_dto(
            all@[i]@,
        ) by {
            assert(seen(out@)[i] == saved_dto(all@[i]@));
        }
    }
}

/// A number that was asked for is taken as it is, and only without one the default.
pub proof fn law_or_else(asked: Option<usize>, default: usize)
    ensures
        asked matches Some(n) ==> or_else(asked, default) == n,
        asked is None ==> or_else(asked, default) == default,
{
}

/// Receipts for what was pushed name the thoughts and the times that were pushed,
/// one for one.
pub proof fn law_pushed_rows(pushed: Seq<PushedChangeView>)
    ensures
        misnamed(pushed) is None <==> forall|i: int|
            0 <= i < pushed.len() ==> parsed_uuid((#[trigger] pushed[i]).id) is Some,
        pushed_rows(pushed).len() == pushed.len(),
        forall|i: int|
            0 <= i < pushed.len() && parsed_uuid(pushed[i].id) is Some ==> Some(
                (#[trigger] pushed_rows(pushed)[i]).0,
            ) == parsed_uuid(pushed[i].id) && pushed_rows(pushed)[i].1 == pushed[i].updated_at,
{
    let p = |x: PushedChangeView| parsed_uuid(x.id) is None;
    law_first_where(pushed, p);
    if misnamed(pushed) is Some {
        let x = misnamed(pushed).unwrap();
        let i = choose|i: int| 0 <= i < pushed.len() && pushed[i] == x;
        assert(parsed_uuid(pushed[i].id) is None);
    } else {
        assert forall|i: int| 0 <= i < pushed.len() implies parsed_uuid(
            (#[trigger] pushed[i]).id,
        ) is Some by {
            assert(!p(pushed[i]));
        }
    }
}

/// An entry of the edit history is replied with as it is.
pub proof fn law_entry_dto(dto: EditEntryDto, entry: EditEntry)
    requires
        dto@ == entry@,
    ensures
        dto.text@ == entry.text@ && dto.archived_at == entry.archived_at,
{
    assert(dto@.text == dto.text@ && dto@.archived_at == dto.archived_at);
    assert(entry@.text == entry.text@ && entry@.archived_at == entry.archived_at);
}

/// A cursor that cannot be read is told apart by what is wrong with it.
pub proof fn law_complaints()
    ensures
        cursor_complaint(KeyFault::Shape) == "malformed cursor"@,
        cursor_complaint(KeyFault::Time) == "malformed cursor timestamp"@,
        cursor_complaint(KeyFault::Id) == "malformed cursor id"@,
        sync_cursor_complaint(KeyFault::Shape) == "malformed sync cursor"@,
        sync_cursor_complaint(KeyFault::Time) == "malformed sync cursor timestamp"@,
        sync_cursor_complaint(KeyFault::Id) == "malformed sync cursor id"@,
{
}

/// The status of an error is that of its kind.
pub proof fn law_error_status(e: AppError, status: u16)
    requires
        call_ensures(AppError::status, (&e,), status),
    ensures
        status == 404 <==> e is NotFound,
        status == 400 <==> e is BadRequest,
        status == 500 <==> e is Internal,
{
    assert(e@ is NotFound <==> e is NotFound);
    assert(e@ is BadRequest <==> e is BadRequest);
}

/// Errors say what they are of, and name what they are about.
pub proof fn law_error_texts(e: Error)
    ensures
        e matches Error::NotFound { id } ==> error_text(e) == "no thought with id "@ + hyphenated(
            id@,
        ),
        e matches Error::CorruptRow { table, detail } ==> error_text(e) == "corrupt row in `"@
            + table@ + "`: "@ + detail@,
        e matches Error::Storage { message } ==> error_text(e) == "storage error: "@ + message@,
        e matches Error::Embedding { detail } ==> error_text(e) == "embedding failed: "@ + detail@,
        e is NoEmbedder ==> error_text(e) == "no embedder is attached"@,
        e is Clock ==> error_text(e) == "system clock is out of range"@,
{
}

} // verus!
