//! The requests of the HTTP service. Each one takes the store and the data of the
//! request, and gives the data of the reply.

use vstd::prelude::*;
use vstd::string::*;

use crate::api::{
    app_error, change_dto, change_in, cursor_complaint, decode_cursor, decode_sync_cursor,
    encode_sync_cursor, is_page_dto, match_dtos, matches_dto, parse_id, refuses, same_text,
    saved_dto, sync_cursor_complaint, thought_dto, thought_dtos, thoughts_dto, AppError,
    AppErrorView, EditEntryDto, PageDto, SavedSearchDto, ThoughtChangeDto, ThoughtChangeDtoView,
    ThoughtDto, ThoughtMatchDto, CREATED, DEFAULT_DRAFT_SUGGESTIONS, DEFAULT_RELATED,
    DEFAULT_SEARCH_LIMIT, DEFAULT_STALE_MS, DEFAULT_TAGS_LIMIT, NO_CONTENT, SYNC_PAGE_LIMIT,
};
use crate::codec::{key_text, parsed_key};
use crate::embed::TextEmbedder;
use crate::error::{Error, Result as StoreResult};
use crate::ident::{parsed_uuid, Uuid};
use crate::matching::{found_by_both, related_found, related_to_found, IndexHit};
use crate::model::find_live;
use crate::query::{
    entries, entry_of, feed, pages_some_time, shows_changes, shows_saved, shows_some_time,
    stale_some_time, suggested, tagged, Cursor, Page, DEFAULT_PAGE_SIZE,
};
use crate::rank::ranked;
use crate::rows::{limited, seen};
use crate::saved_search::SavedSearch;
use crate::search::ThoughtMatch;
use crate::sorting::OldestSavedFirst;
use crate::sound::sound;
use crate::store::{
    action_ended, arrives, create_ended, delete_ended, save_ended, update_ended, ThoughtStore,
};
use crate::sync::{SyncCursor, ThoughtChange, ThoughtChangeView};
use crate::tables::{saved_besides, SavedRow, TablesView};
use crate::thought::Thought;

verus! {

// ---- requests --------------------------------------------------------------

/// Which page of the stream is asked for.
#[derive(Debug, Clone, PartialEq, Eq)]
pub struct ListQuery {
    pub before: Option<String>,
    pub limit: Option<usize>,
}

/// The text of a thought.
#[derive(Debug, Clone, PartialEq, Eq)]
pub struct TextBody {
    pub text: String,
}

/// What is searched for.
#[derive(Debug, Clone, PartialEq, Eq)]
pub struct SearchQuery {
    pub q: String,
    pub limit: Option<usize>,
}

/// The draft that suggestions are asked for.
#[derive(Debug, Clone, PartialEq, Eq)]
pub struct RelatedDraft {
    pub draft: String,
    pub exclude: Option<String>,
    pub top_k: Option<usize>,
}

/// How many related thoughts are asked for.
#[derive(Debug, Clone, PartialEq, Eq)]
pub struct TopKQuery {
    pub top_k: Option<usize>,
}

/// Which tags are asked for.
#[derive(Debug, Clone, PartialEq, Eq)]
pub struct TagsQuery {
    pub prefix: Option<String>,
    pub limit: Option<usize>,
}

/// How many thoughts are asked for.
#[derive(Debug, Clone, PartialEq, Eq)]
pub struct LimitQuery {
    pub limit: Option<usize>,
}

/// Which stale thoughts are asked for.
#[derive(Debug, Clone, PartialEq, Eq)]
pub struct StaleQuery {
    pub older_than_ms: Option<i64>,
    pub limit: Option<usize>,
}

/// The search to save.
#[derive(Debug, Clone, PartialEq, Eq)]
pub struct SavedSearchBody {
    pub name: String,
    pub query: String,
}

/// What a client sends to synchronise: how far it has read the change feed, and
/// its own changes.
#[derive(Debug, Clone, PartialEq, Eq)]
pub struct SyncRequest {
    pub since: Option<String>,
    pub changes: Vec<ThoughtChangeDto>,
}

/// What a client gets back: the changes it has not read, and how far it has read
/// with them.
#[derive(Debug, Clone, PartialEq, Eq)]
pub struct SyncResponse {
    pub changes: Vec<ThoughtChangeDto>,
    pub cursor: Option<String>,
}

/// The number asked for, or the default.
pub open spec fn or_else(asked: Option<usize>, default: usize) -> usize {
    match asked {
        Some(n) => n,
        None => default,
    }
}

/// The number asked for, or the default.
fn pick(asked: Option<usize>, default: usize) -> (n: usize)
    ensures
        n == or_else(asked, default),
{
    match asked {
        Some(n) => n,
        None => default,
    }
}

// ---- replies ---------------------------------------------------------------

/// The reply to a request for a page.
pub open spec fn page_reply(out: Result<PageDto, AppError>, r: StoreResult<Page>) -> bool {
    match r {
        Ok(page) => out matches Ok(dto) && is_page_dto(dto, page),
        Err(e) => refuses(out, app_error(e)),
    }
}

/// The reply that holds one thought.
pub open spec fn thought_reply(
    out: Result<ThoughtDto, AppError>,
    r: StoreResult<Thought>,
) -> bool {
    match r {
        Ok(thought) => out matches Ok(dto) && dto@ == thought_dto(thought@),
        Err(e) => refuses(out, app_error(e)),
    }
}

/// The reply that holds a new thought.
pub open spec fn created_reply(
    out: Result<(u16, ThoughtDto), AppError>,
    r: StoreResult<Thought>,
) -> bool {
    match r {
        Ok(thought) => out matches Ok(reply) && reply.0 == CREATED && reply.1@ == thought_dto(
            thought@,
        ),
        Err(e) => refuses(out, app_error(e)),
    }
}

/// The reply without content.
pub open spec fn empty_reply(out: Result<u16, AppError>, r: StoreResult<()>) -> bool {
    match r {
        Ok(_) => out == Ok::<u16, AppError>(NO_CONTENT),
        Err(e) => refuses(out, app_error(e)),
    }
}

/// The reply that holds search results.
pub open spec fn matches_reply(
    out: Result<Vec<ThoughtMatchDto>, AppError>,
    r: StoreResult<Vec<ThoughtMatch>>,
) -> bool {
    match r {
        Ok(matches) => out matches Ok(dtos) && seen(dtos@) == match_dtos(seen(matches@)),
        Err(e) => refuses(out, app_error(e)),
    }
}

/// The reply that holds thoughts.
pub open spec fn thoughts_reply(
    out: Result<Vec<ThoughtDto>, AppError>,
    r: StoreResult<Vec<Thought>>,
) -> bool {
    match r {
        Ok(thoughts) => out matches Ok(dtos) && seen(dtos@) == thought_dtos(seen(thoughts@)),
        Err(e) => refuses(out, app_error(e)),
    }
}

/// The reply to a request with an identifier that is none.
pub open spec fn no_id<T>(out: Result<T, AppError>) -> bool {
    refuses(out, AppErrorView::BadRequest("invalid thought id"@))
}

/// The reply with search results for what the store found.
fn reply_matches(r: StoreResult<Vec<ThoughtMatch>>) -> (out: Result<Vec<ThoughtMatchDto>, AppError>)
    ensures
        matches_reply(out, r),
{
    match r {
        Ok(matches) => Ok(matches_dto(&matches)),
        Err(e) => Err(AppError::of(&e)),
    }
}

/// The reply with thoughts for what the store found.
fn reply_thoughts(r: StoreResult<Vec<Thought>>) -> (out: Result<Vec<ThoughtDto>, AppError>)
    ensures
        thoughts_reply(out, r),
{
    match r {
        Ok(thoughts) => Ok(thoughts_dto(&thoughts)),
        Err(e) => Err(AppError::of(&e)),
    }
}

/// The reply with a thought for what the store did.
fn reply_thought(r: StoreResult<Thought>) -> (out: Result<ThoughtDto, AppError>)
    ensures
        thought_reply(out, r),
{
    match r {
        Ok(thought) => Ok(ThoughtDto::of(&thought)),
        Err(e) => Err(AppError::of(&e)),
    }
}

/// The reply without content for what the store did.
fn reply_empty(r: StoreResult<()>) -> (out: Result<u16, AppError>)
    ensures
        empty_reply(out, r),
{
    match r {
        Ok(_) => Ok(NO_CONTENT),
        Err(e) => Err(AppError::of(&e)),
    }
}

// ---- thoughts --------------------------------------------------------------

/// The cursor is where the key points.
pub open spec fn is_at(cursor: Option<Cursor>, key: (i64, Seq<u8>)) -> bool {
    cursor matches Some(c) && c.created_at == key.0 && c.id@ == key.1
}

/// `GET /api/thoughts`: a page of the stream, newest first.
pub fn list_thoughts<E: TextEmbedder>(store: &ThoughtStore<E>, q: &ListQuery) -> (out: Result<
    PageDto,
    AppError,
>)
    ensures
        match q.before {
            None => exists|r: StoreResult<Page>| #[trigger]
                page_reply(out, r) && pages_some_time(
                    r,
                    store@.thoughts,
                    None,
                    or_else(q.limit, DEFAULT_PAGE_SIZE),
                ),
            Some(text) => match parsed_key(text@) {
                Err(fault) => refuses(out, AppErrorView::BadRequest(cursor_complaint(fault))),
                Ok(key) => exists|r: StoreResult<Page>, before: Option<Cursor>|
                    #![trigger page_reply(out, r), is_at(before, key)]
                    is_at(before, key) && page_reply(out, r) && pages_some_time(
                        r,
                        store@.thoughts,
                        before,
                        or_else(q.limit, DEFAULT_PAGE_SIZE),
                    ),
            },
        },
{
    let before = match &q.before {
        Some(text) => match decode_cursor(text.as_str()) {
            Ok(cursor) => Some(cursor),
            Err(e) => return Err(e),
        },
        None => None,
    };
    let limit = pick(q.limit, DEFAULT_PAGE_SIZE);
    let r = store.list_paginated(before, limit);
    let out = match &r {
        Ok(page) => Ok(PageDto::of(page)),
        Err(e) => Err(AppError::of(e)),
    };
    proof {
        assert(page_reply(out, r));
        if q.before is Some {
            assert(is_at(before, parsed_key(q.before.unwrap()@)->Ok_0));
        }
    }
    out
}

/// `POST /api/thoughts`: captures a new thought.
pub fn create_thought<E: TextEmbedder>(store: &mut ThoughtStore<E>, body: &TextBody) -> (out:
    Result<(u16, ThoughtDto), AppError>)
    ensures
        final(store).follows(*old(store)),
        sound(old(store)@) ==> sound(final(store)@),
        exists|r: StoreResult<Thought>| #[trigger]
            created_reply(out, r) && create_ended(*old(store), *final(store), body.text@, r),
{
    let r = store.create(body.text.as_str());
    let out = match &r {
        Ok(thought) => Ok((CREATED, ThoughtDto::of(thought))),
        Err(e) => Err(AppError::of(e)),
    };
    assert(created_reply(out, r));
    out
}

/// `PUT /api/thoughts/{id}`: replaces the text of a thought.
pub fn update_thought<E: TextEmbedder>(
    store: &mut ThoughtStore<E>,
    id: &str,
    body: &TextBody,
) -> (out: Result<ThoughtDto, AppError>)
    ensures
        final(store).follows(*old(store)),
        sound(old(store)@) ==> sound(final(store)@),
        match parsed_uuid(id@) {
            None => no_id(out) && *final(store) == *old(store),
            Some(bytes) => exists|uuid: Uuid, r: StoreResult<Thought>| #[trigger]
                update_ended(*old(store), *final(store), uuid, body.text@, r) && uuid@ == bytes
                    && thought_reply(out, r),
        },
{
    proof {
        store.lemma_follows_itself();
    }
    match parse_id(id) {
        Ok(uuid) => {
            let r = store.update_thought(uuid, body.text.as_str());
            assert(update_ended(*old(store), *store, uuid, body.text@, r));
            reply_thought(r)
        },
        Err(e) => Err(e),
    }
}

/// `DELETE /api/thoughts/{id}`: deletes a thought.
pub fn delete_thought<E: TextEmbedder>(store: &mut ThoughtStore<E>, id: &str) -> (out: Result<
    u16,
    AppError,
>)
    ensures
        final(store).follows(*old(store)),
        sound(old(store)@) ==> sound(final(store)@),
        match parsed_uuid(id@) {
            None => no_id(out) && *final(store) == *old(store),
            Some(bytes) => exists|uuid: Uuid, r: StoreResult<()>| #[trigger]
                delete_ended(*old(store), *final(store), uuid, r) && uuid@ == bytes && empty_reply(
                    out,
                    r,
                ),
        },
{
    proof {
        store.lemma_follows_itself();
    }
    match parse_id(id) {
        Ok(uuid) => {
            let r = store.delete_thought(uuid);
            assert(delete_ended(*old(store), *store, uuid, r));
            reply_empty(r)
        },
        Err(e) => Err(e),
    }
}

/// `POST /api/thoughts/{id}/mark-actioned`: marks a thought as dealt with.
pub fn mark_actioned<E: TextEmbedder>(store: &mut ThoughtStore<E>, id: &str) -> (out: Result<
    ThoughtDto,
    AppError,
>)
    ensures
        final(store).follows(*old(store)),
        sound(old(store)@) ==> sound(final(store)@),
        match parsed_uuid(id@) {
            None => no_id(out) && *final(store) == *old(store),
            Some(bytes) => exists|uuid: Uuid, r: StoreResult<Thought>| #[trigger]
                action_ended(*old(store), *final(store), uuid, true, r) && uuid@ == bytes
                    && thought_reply(out, r),
        },
{
    proof {
        store.lemma_follows_itself();
    }
    match parse_id(id) {
        Ok(uuid) => {
            let r = store.mark_actioned(uuid);
            assert(action_ended(*old(store), *store, uuid, true, r));
            reply_thought(r)
        },
        Err(e) => Err(e),
    }
}

/// `POST /api/thoughts/{id}/unmark-actioned`: clears that mark.
pub fn unmark_actioned<E: TextEmbedder>(store: &mut ThoughtStore<E>, id: &str) -> (out: Result<
    ThoughtDto,
    AppError,
>)
    ensures
        final(store).follows(*old(store)),
        sound(old(store)@) ==> sound(final(store)@),
        match parsed_uuid(id@) {
            None => no_id(out) && *final(store) == *old(store),
            Some(bytes) => exists|uuid: Uuid, r: StoreResult<Thought>| #[trigger]
                action_ended(*old(store), *final(store), uuid, false, r) && uuid@ == bytes
                    && thought_reply(out, r),
        },
{
    proof {
        store.lemma_follows_itself();
    }
    match parse_id(id) {
        Ok(uuid) => {
            let r = store.unmark_actioned(uuid);
            assert(action_ended(*old(store), *store, uuid, false, r));
            reply_thought(r)
        },
        Err(e) => Err(e),
    }
}

/// `GET /api/thoughts/stale`: thoughts that were neither dealt with nor touched
/// for long, oldest first.
pub fn stale_thoughts<E: TextEmbedder>(store: &ThoughtStore<E>, q: &StaleQuery) -> (out: Result<
    Vec<ThoughtDto>,
    AppError,
>)
    ensures
        exists|r: StoreResult<Vec<Thought>>| #[trigger]
            thoughts_reply(out, r) && stale_some_time(
                r,
                store@.thoughts,
                match q.older_than_ms {
                    Some(ms) => ms,
                    None => DEFAULT_STALE_MS,
                },
                or_else(q.limit, DEFAULT_SEARCH_LIMIT) as nat,
            ),
{
    let older_than_ms: i64 = match q.older_than_ms {
        Some(ms) => ms,
        None => DEFAULT_STALE_MS,
    };
    let limit = pick(q.limit, DEFAULT_SEARCH_LIMIT);
    let r = store.list_stale(older_than_ms, limit);
    let out = match &r {
        Ok(thoughts) => Ok(thoughts_dto(thoughts)),
        Err(e) => Err(AppError::of(e)),
    };
    assert(thoughts_reply(out, r));
    out
}

/// `GET /api/thoughts/{id}/history`: the earlier versions of a thought, oldest
/// first.
pub fn history<E: TextEmbedder>(store: &ThoughtStore<E>, id: &str) -> (out: Result<
    Vec<EditEntryDto>,
    AppError,
>)
    ensures
        match parsed_uuid(id@) {
            None => no_id(out),
            Some(bytes) => match find_live(store@.thoughts, bytes) {
                Some(_) => out matches Ok(dtos) && seen(dtos@) == Seq::new(
                    entries(store@.history, bytes).len(),
                    |i: int| entry_of(entries(store@.history, bytes)[i]),
                ),
                None => exists|uuid: Uuid|
                    uuid@ == bytes && #[trigger] refuses(
                        out,
                        app_error(Error::NotFound { id: uuid }),
                    ),
            },
        },
{
    let uuid = match parse_id(id) {
        Ok(uuid) => uuid,
        Err(e) => return Err(e),
    };
    let found = match store.edit_history(uuid) {
        Ok(found) => found,
        Err(e) => {
            let out = Err(AppError::of(&e));
            assert(refuses(out, app_error(Error::NotFound { id: uuid })));
            return out;
        },
    };
    let mut dtos: Vec<EditEntryDto> = Vec::new();
    let mut i: usize = 0;
    while i < found.len()
        invariant
            i <= found@.len(),
            dtos@.len() == i,
            forall|j: int| 0 <= j < i ==> (#[trigger] dtos@[j])@ == found@[j]@,
        decreases found.len() - i,
    {
        dtos.push(EditEntryDto::of(&found[i]));
        i += 1;
    }
    assert(seen(dtos@) =~= seen(found@));
    Ok(dtos)
}

// ---- search ----------------------------------------------------------------

/// `GET /api/search`: search by words and by meaning. `hits` is what the text
/// index matches for the query.
pub fn search<E: TextEmbedder>(
    store: &ThoughtStore<E>,
    q: &SearchQuery,
    hits: &Vec<IndexHit>,
) -> (out: Result<Vec<ThoughtMatchDto>, AppError>)
    ensures
        exists|r: StoreResult<Vec<ThoughtMatch>>| #[trigger]
            matches_reply(out, r) && found_by_both(
                r,
                *store,
                q.q@,
                or_else(q.limit, DEFAULT_SEARCH_LIMIT) as nat,
                seen(hits@),
            ),
{
    let limit = pick(q.limit, DEFAULT_SEARCH_LIMIT);
    reply_matches(store.search_combined(q.q.as_str(), limit, hits))
}

/// `POST /api/related`: thoughts related to a draft.
pub fn related_to_draft<E: TextEmbedder>(store: &ThoughtStore<E>, body: &RelatedDraft) -> (out:
    Result<Vec<ThoughtMatchDto>, AppError>)
    ensures
        match body.exclude {
            Some(text) => match parsed_uuid(text@) {
                None => no_id(out),
                Some(bytes) => exists|r: StoreResult<Vec<ThoughtMatch>>, uuid: Uuid|
                    #![trigger matches_reply(out, r), uuid@]
                    uuid@ == bytes && matches_reply(out, r) && related_found(
                        r,
                        *store,
                        body.draft@,
                        or_else(body.top_k, DEFAULT_DRAFT_SUGGESTIONS) as nat,
                        Some(uuid),
                    ),
            },
            None => exists|r: StoreResult<Vec<ThoughtMatch>>| #[trigger]
                matches_reply(out, r) && related_found(
                    r,
                    *store,
                    body.draft@,
                    or_else(body.top_k, DEFAULT_DRAFT_SUGGESTIONS) as nat,
                    None,
                ),
        },
{
    let exclude = match &body.exclude {
        Some(text) => match parse_id(text.as_str()) {
            Ok(uuid) => Some(uuid),
            Err(e) => return Err(e),
        },
        None => None,
    };
    let top_k = pick(body.top_k, DEFAULT_DRAFT_SUGGESTIONS);
    let r = store.find_related(body.draft.as_str(), top_k, exclude);
    let out = match &r {
        Ok(matches) => Ok(matches_dto(matches)),
        Err(e) => Err(AppError::of(e)),
    };
    proof {
        assert(matches_reply(out, r));
        if exclude is Some {
            assert(exclude.unwrap()@ == parsed_uuid(body.exclude.unwrap()@).unwrap());
        }
    }
    out
}

/// `GET /api/thoughts/{id}/related`: thoughts related to a stored one.
pub fn related_to_thought<E: TextEmbedder>(
    store: &ThoughtStore<E>,
    id: &str,
    q: &TopKQuery,
) -> (out: Result<Vec<ThoughtMatchDto>, AppError>)
    ensures
        match parsed_uuid(id@) {
            None => no_id(out),
            Some(bytes) => exists|r: StoreResult<Vec<ThoughtMatch>>, uuid: Uuid|
                #![trigger related_to_found::<E>(
                    r,
                    store@,
                    uuid,
                    or_else(q.top_k, DEFAULT_RELATED) as nat,
                )]
                uuid@ == bytes && matches_reply(out, r) && related_to_found::<E>(
                    r,
                    store@,
                    uuid,
                    or_else(q.top_k, DEFAULT_RELATED) as nat,
                ),
        },
{
    match parse_id(id) {
        Ok(uuid) => reply_matches(store.find_related_to(uuid, pick(q.top_k, DEFAULT_RELATED))),
        Err(e) => Err(e),
    }
}

// ---- tags and saved searches -----------------------------------------------

/// The prefix asked for, or the empty one.
pub open spec fn prefix_of(prefix: Option<String>) -> Seq<char> {
    match prefix {
        Some(p) => p@,
        None => Seq::empty(),
    }
}

/// `GET /api/tags`: tag names for autocomplete, most used first.
pub fn list_tags<E: TextEmbedder>(store: &ThoughtStore<E>, q: &TagsQuery) -> (out: Result<
    Vec<String>,
    AppError,
>)
    ensures
        ({
            let found = limited(
                suggested(store@, prefix_of(q.prefix)),
                or_else(q.limit, DEFAULT_TAGS_LIMIT) as nat,
            );
            out matches Ok(names) && seen(names@) == Seq::new(
                found.len(),
                |i: int| found[i].name,
            )
        }),
{
    proof {
        reveal_strlit("");
        assert(""@ =~= Seq::<char>::empty());
    }
    let prefix = match &q.prefix {
        Some(prefix) => prefix.as_str(),
        None => "",
    };
    match store.tags_with_prefix(prefix, pick(q.limit, DEFAULT_TAGS_LIMIT)) {
        Ok(names) => Ok(names),
        Err(e) => Err(AppError::of(&e)),
    }
}

/// `GET /api/tags/{name}/thoughts`: live thoughts that carry the tag, newest
/// first.
pub fn thoughts_by_tag<E: TextEmbedder>(
    store: &ThoughtStore<E>,
    name: &str,
    q: &LimitQuery,
) -> (out: Result<Vec<ThoughtDto>, AppError>)
    ensures
        exists|r: StoreResult<Vec<Thought>>| #[trigger]
            thoughts_reply(out, r) && shows_some_time(
                r,
                limited(tagged(store@, name@), or_else(q.limit, DEFAULT_SEARCH_LIMIT) as nat),
            ),
{
    reply_thoughts(store.thoughts_with_tag(name, pick(q.limit, DEFAULT_SEARCH_LIMIT)))
}

/// The reply that holds saved searches.
pub open spec fn saved_reply(
    out: Result<Vec<SavedSearchDto>, AppError>,
    r: StoreResult<Vec<SavedSearch>>,
) -> bool {
    match r {
        Ok(saved) => out matches Ok(dtos) && seen(dtos@) == Seq::new(
            saved@.len(),
            |i: int| saved_dto(saved@[i]@),
        ),
        Err(e) => refuses(out, app_error(e)),
    }
}

/// `GET /api/saved-searches`: the saved searches, oldest first.
pub fn list_saved_searches<E: TextEmbedder>(store: &ThoughtStore<E>) -> (out: Result<
    Vec<SavedSearchDto>,
    AppError,
>)
    ensures
        exists|r: StoreResult<Vec<SavedSearch>>| #[trigger]
            saved_reply(out, r) && shows_saved(
                r,
                ranked::<SavedRow, OldestSavedFirst>(store@.saved),
            ),
{
    let r = store.list_saved_searches();
    let out = match &r {
        Ok(saved) => {
            let mut dtos: Vec<SavedSearchDto> = Vec::new();
            let mut i: usize = 0;
            while i < saved.len()
                invariant
                    i <= saved@.len(),
                    dtos@.len() == i,
                    forall|j: int| 0 <= j < i ==> (#[trigger] dtos@[j])@ == saved_dto(saved@[j]@),
                decreases saved.len() - i,
            {
                dtos.push(SavedSearchDto::of(&saved[i]));
                i += 1;
            }
            assert(seen(dtos@) =~= Seq::new(saved@.len(), |i: int| saved_dto(saved@[i]@)));
            Ok(dtos)
        },
        Err(e) => Err(AppError::of(e)),
    };
    assert(saved_reply(out, r));
    out
}

/// The reply that holds a new saved search.
pub open spec fn search_reply(
    out: Result<(u16, SavedSearchDto), AppError>,
    r: StoreResult<SavedSearch>,
) -> bool {
    match r {
        Ok(saved) => out matches Ok(reply) && reply.0 == CREATED && reply.1@ == saved_dto(saved@),
        Err(e) => refuses(out, app_error(e)),
    }
}

/// `POST /api/saved-searches`: saves a named query.
pub fn create_saved_search<E: TextEmbedder>(
    store: &mut ThoughtStore<E>,
    body: &SavedSearchBody,
) -> (out: Result<(u16, SavedSearchDto), AppError>)
    ensures
        final(store).follows(*old(store)),
        sound(old(store)@) ==> sound(final(store)@),
        exists|r: StoreResult<SavedSearch>| #[trigger]
            search_reply(out, r) && save_ended(
                *old(store),
                *final(store),
                body.name@,
                body.query@,
                r,
            ),
{
    let r = store.create_saved_search(body.name.as_str(), body.query.as_str());
    let out = match &r {
        Ok(saved) => Ok((CREATED, SavedSearchDto::of(saved))),
        Err(e) => Err(AppError::of(e)),
    };
    assert(search_reply(out, r));
    out
}

/// `DELETE /api/saved-searches/{id}`: deletes a saved search, if it is there.
pub fn delete_saved_search<E: TextEmbedder>(store: &mut ThoughtStore<E>, id: &str) -> (out: Result<
    u16,
    AppError,
>)
    ensures
        final(store).follows(*old(store)),
        sound(old(store)@) ==> sound(final(store)@),
        match parsed_uuid(id@) {
            None => no_id(out) && *final(store) == *old(store),
            Some(bytes) => out == Ok::<u16, AppError>(NO_CONTENT) && final(store)@ == (TablesView {
                saved: saved_besides(old(store)@.saved, bytes),
                ..old(store)@
            }),
        },
{
    proof {
        store.lemma_follows_itself();
    }
    match parse_id(id) {
        Ok(uuid) => reply_empty(store.delete_saved_search(uuid)),
        Err(e) => Err(e),
    }
}

// ---- sync ------------------------------------------------------------------

/// The changes that a request brings, if every identifier is one.
pub open spec fn incoming(changes: Seq<ThoughtChangeDtoView>) -> Option<Seq<ThoughtChangeView>> {
    if forall|i: int| 0 <= i < changes.len() ==> change_in(#[trigger] changes[i]) is Some {
        Some(Seq::new(changes.len(), |i: int| change_in(changes[i]).unwrap()))
    } else {
        None
    }
}

/// What the changes make of the tables, one after the other.
pub open spec fn arrived<E: TextEmbedder>(
    embedder: Option<E>,
    before: TablesView,
    after: TablesView,
    changes: Seq<ThoughtChangeView>,
) -> bool
    decreases changes.len(),
{
    if changes.len() == 0 {
        after == before
    } else {
        exists|mid: TablesView|
            arrived(embedder, before, mid, changes.drop_last()) && #[trigger] arrives(
                embedder,
                mid,
                after,
                changes.last(),
            )
    }
}

/// The cursor of the change feed is where the key points.
pub open spec fn is_sync_at(cursor: Option<SyncCursor>, key: (i64, Seq<u8>)) -> bool {
    cursor matches Some(c) && c.updated_at == key.0 && c.id@ == key.1
}

/// How far the client has read with the changes of the reply: up to the last
/// one, or as far as before where there are none.
pub open spec fn read_up_to(
    changes: Seq<ThoughtChangeView>,
    since: Option<String>,
) -> Option<Seq<char>> {
    if changes.len() > 0 {
        Some(key_text(changes.last().updated_at, changes.last().id))
    } else {
        match since {
            Some(text) => Some(text@),
            None => None,
        }
    }
}

/// The reply to a request to synchronise.
pub open spec fn sync_reply(
    out: Result<SyncResponse, AppError>,
    r: StoreResult<Vec<ThoughtChange>>,
    since: Option<String>,
) -> bool {
    match r {
        Ok(changes) => out matches Ok(reply) && seen(reply.changes@) == Seq::new(
            changes@.len(),
            |i: int| change_dto(changes@[i]@),
        ) && same_text(reply.cursor, read_up_to(seen(changes@), since)),
        Err(e) => refuses(out, app_error(e)),
    }
}

/// The changes that a request brings.
fn read_changes(dtos: &Vec<ThoughtChangeDto>) -> (r: Result<Vec<ThoughtChange>, AppError>)
    ensures
        match incoming(seen(dtos@)) {
            Some(changes) => r matches Ok(out) && seen(out@) == changes,
            None => no_id(r),
        },
{
    let ghost all = seen(dtos@);
    let mut out: Vec<ThoughtChange> = Vec::new();
    let mut i: usize = 0;
    while i < dtos.len()
        invariant
            i <= dtos@.len(),
            all == seen(dtos@),
            out@.len() == i,
            forall|j: int|
                0 <= j < i ==> change_in(#[trigger] all[j]) is Some && out@[j]@ == change_in(
                    all[j],
                ).unwrap(),
        decreases dtos.len() - i,
    {
        match dtos[i].to_change() {
            Ok(change) => {
                out.push(change);
            },
            Err(e) => {
                assert(change_in(all[i as int]) is None);
                return Err(e);
            },
        }
        i += 1;
    }
    assert(seen(out@) =~= Seq::new(all.len(), |i: int| change_in(all[i]).unwrap()));
    Ok(out)
}

/// Applies the changes, one after the other.
fn apply_changes<E: TextEmbedder>(store: &mut ThoughtStore<E>, changes: &Vec<ThoughtChange>) -> (r:
    StoreResult<()>)
    ensures
        final(store).follows(*old(store)),
        sound(old(store)@) ==> sound(final(store)@),
        r is Ok,
        arrived(old(store).embedder, old(store)@, final(store)@, seen(changes@)),
{
    let ghost start = *store;
    let ghost all = seen(changes@);
    proof {
        start.lemma_follows_itself();
        assert(all.take(0) =~= Seq::empty());
    }
    let mut i: usize = 0;
    while i < changes.len()
        invariant
            i <= changes@.len(),
            all == seen(changes@),
            store.follows(start),
            sound(start@) ==> sound(store@),
            arrived(start.embedder, start@, store@, all.take(i as int)),
        decreases changes.len() - i,
    {
        let ghost at = *store;
        match store.apply_remote(&changes[i]) {
            Ok(_) => {},
            Err(e) => return Err(e),
        }
        proof {
            ThoughtStore::lemma_follows_on(start, at, *store);
            assert(all.take(i + 1).drop_last() =~= all.take(i as int));
            assert(all.take(i + 1).last() == changes@[i as int]@);
        }
        i += 1;
    }
    assert(all.take(all.len() as int) =~= all);
    Ok(())
}

/// The reply with what the change feed holds.
fn reply_sync(r: &StoreResult<Vec<ThoughtChange>>, since: &Option<String>) -> (out: Result<
    SyncResponse,
    AppError,
>)
    ensures
        sync_reply(out, *r, *since),
{
    let changes = match r {
        Ok(changes) => changes,
        Err(e) => return Err(AppError::of(e)),
    };
    let mut dtos: Vec<ThoughtChangeDto> = Vec::new();
    let mut i: usize = 0;
    while i < changes.len()
        invariant
            i <= changes@.len(),
            dtos@.len() == i,
            forall|j: int| 0 <= j < i ==> (#[trigger] dtos@[j])@ == change_dto(changes@[j]@),
        decreases changes.len() - i,
    {
        dtos.push(ThoughtChangeDto::of(&changes[i]));
        i += 1;
    }
    assert(seen(dtos@) =~= Seq::new(changes@.len(), |i: int| change_dto(changes@[i]@)));
    let cursor = if changes.len() > 0 {
        let last = SyncCursor::after(&changes[changes.len() - 1]);
        assert(seen(changes@).last() == changes@[changes@.len() - 1]@);
        Some(encode_sync_cursor(&last))
    } else {
        match since {
            Some(text) => Some(text.clone()),
            None => None,
        }
    };
    Ok(SyncResponse { changes: dtos, cursor })
}

/// `POST /api/sync`: applies the client's changes, the last writer winning, and
/// returns the changes since the client's cursor.
pub fn sync<E: TextEmbedder>(store: &mut ThoughtStore<E>, req: &SyncRequest) -> (out: Result<
    SyncResponse,
    AppError,
>)
    ensures
        final(store).follows(*old(store)),
        sound(old(store)@) ==> sound(final(store)@),
        sync_ended(*old(store), *final(store), *req, out),
{
    proof {
        store.lemma_follows_itself();
    }
    let since = match &req.since {
        Some(text) => match decode_sync_cursor(text.as_str()) {
            Ok(cursor) => Some(cursor),
            Err(e) => return Err(e),
        },
        None => None,
    };
    let changes = match read_changes(&req.changes) {
        Ok(changes) => changes,
        Err(e) => return Err(e),
    };
    match apply_changes(store, &changes) {
        Ok(_) => {},
        Err(e) => return Err(AppError::of(&e)),
    }
    let r = store.changes_since(since, SYNC_PAGE_LIMIT);
    let out = reply_sync(&r, &req.since);
    assert(answers_pull(out, r, store@, since, req.since));
    out
}

/// The reply holds the changes after the cursor.
pub open spec fn answers_pull(
    out: Result<SyncResponse, AppError>,
    r: StoreResult<Vec<ThoughtChange>>,
    t: TablesView,
    cursor: Option<SyncCursor>,
    since: Option<String>,
) -> bool {
    shows_changes(r, limited(feed(t.thoughts, cursor), SYNC_PAGE_LIMIT as nat)) && sync_reply(
        out,
        r,
        since,
    )
}

/// How a request to synchronise ended. Nothing changed if it is malformed.
pub open spec fn sync_ended<E: TextEmbedder>(
    before: ThoughtStore<E>,
    after: ThoughtStore<E>,
    req: SyncRequest,
    out: Result<SyncResponse, AppError>,
) -> bool {
    match req.since {
        Some(text) => match parsed_key(text@) {
            Err(fault) => refuses(out, AppErrorView::BadRequest(sync_cursor_complaint(fault)))
                && after == before,
            Ok(key) => match incoming(seen(req.changes@)) {
                None => no_id(out) && after == before,
                Some(changes) => {
                    &&& arrived(before.embedder, before@, after@, changes)
                    &&& exists|r: StoreResult<Vec<ThoughtChange>>, cursor: Option<SyncCursor>|
                        #[trigger] answers_pull(out, r, after@, cursor, req.since) && is_sync_at(
                            cursor,
                            key,
                        )
                },
            },
        },
        None => match incoming(seen(req.changes@)) {
            None => no_id(out) && after == before,
            Some(changes) => {
                &&& arrived(before.embedder, before@, after@, changes)
                &&& exists|r: StoreResult<Vec<ThoughtChange>>| #[trigger]
                    answers_pull(out, r, after@, None, req.since)
            },
        },
    }
}

/// `GET /healthz`: the service is alive.
pub fn healthz() -> (out: &'static str)
    ensures
        out@ == "ok"@,
{
    "ok"
}

} // verus!
