//! What the HTTP service answers: each request is a function from the store and
//! the request's data to the reply's.

use vstd::prelude::*;
use vstd::string::*;

use crate::codec::{decode_key, encode_key, key_text, parsed_key, KeyFault};
use crate::error::{error_text, Error};
use crate::ident::{hyphenated, law_uuid_text_round_trips, parsed_uuid, Uuid};
use crate::query::{Cursor, Page};
use crate::rows::seen;
use crate::saved_search::{SavedSearch, SavedSearchView};
use crate::search::{MatchRange, ThoughtMatch, ThoughtMatchView};
use crate::sync::{SyncCursor, ThoughtChange, ThoughtChangeView};
use crate::thought::{EditEntry, EditEntryView, Thought, ThoughtView};

verus! {

/// How many search results there are where the client does not say.
pub const DEFAULT_SEARCH_LIMIT: usize = 50;

/// How many suggestions for a draft there are where the client does not say.
pub const DEFAULT_DRAFT_SUGGESTIONS: usize = 3;

/// How many related thoughts there are where the client does not say.
pub const DEFAULT_RELATED: usize = 5;

/// How many tags are suggested where the client does not say.
pub const DEFAULT_TAGS_LIMIT: usize = 12;

/// How long a thought must have been left alone to be stale where the client does
/// not say: a week, in milliseconds.
pub const DEFAULT_STALE_MS: i64 = 604_800_000;

/// At most how many changes one pull returns.
pub const SYNC_PAGE_LIMIT: usize = 1000;

/// The HTTP status of a reply that holds something new.
pub const CREATED: u16 = 201;

/// The HTTP status of a reply without content.
pub const NO_CONTENT: u16 = 204;

// ---- data ------------------------------------------------------------------

/// A thought in a reply.
#[derive(Debug, Clone, PartialEq, Eq)]
pub struct ThoughtDto {
    pub id: String,
    pub text: String,
    pub created_at: i64,
    pub updated_at: i64,
    pub is_settled: bool,
    pub is_actioned: bool,
}

/// What a `ThoughtDto` holds.
#[verifier::ext_equal]
pub struct ThoughtDtoView {
    pub id: Seq<char>,
    pub text: Seq<char>,
    pub created_at: i64,
    pub updated_at: i64,
    pub is_settled: bool,
    pub is_actioned: bool,
}

impl View for ThoughtDto {
    type V = ThoughtDtoView;

    open spec fn view(&self) -> ThoughtDtoView {
        ThoughtDtoView {
            id: self.id@,
            text: self.text@,
            created_at: self.created_at,
            updated_at: self.updated_at,
            is_settled: self.is_settled,
            is_actioned: self.is_actioned,
        }
    }
}

/// A thought as a reply has it.
pub open spec fn thought_dto(t: ThoughtView) -> ThoughtDtoView {
    ThoughtDtoView {
        id: hyphenated(t.id),
        text: t.text,
        created_at: t.created_at,
        updated_at: t.updated_at,
        is_settled: t.is_settled,
        is_actioned: t.is_actioned,
    }
}

impl ThoughtDto {
    /// The thought as a reply has it.
    pub fn of(t: &Thought) -> (out: ThoughtDto)
        ensures
            out@ == thought_dto(t@),
    {
        ThoughtDto {
            id: t.id.text(),
            text: t.text.clone(),
            created_at: t.created_at,
            updated_at: t.updated_at,
            is_settled: t.is_settled,
            is_actioned: t.is_actioned,
        }
    }
}

/// The thoughts as a reply has them.
pub open spec fn thought_dtos(thoughts: Seq<ThoughtView>) -> Seq<ThoughtDtoView> {
    Seq::new(thoughts.len(), |i: int| thought_dto(thoughts[i]))
}

/// The thoughts as a reply has them.
pub fn thoughts_dto(thoughts: &Vec<Thought>) -> (out: Vec<ThoughtDto>)
    ensures
        seen(out@) == thought_dtos(seen(thoughts@)),
{
    let mut out: Vec<ThoughtDto> = Vec::new();
    let mut i: usize = 0;
    while i < thoughts.len()
        invariant
            i <= thoughts@.len(),
            out@.len() == i,
            forall|j: int| 0 <= j < i ==> (#[trigger] out@[j])@ == thought_dto(thoughts@[j]@),
        decreases thoughts.len() - i,
    {
        out.push(ThoughtDto::of(&thoughts[i]));
        i += 1;
    }
    assert(seen(out@) =~= thought_dtos(seen(thoughts@)));
    out
}

/// A range in a reply.
#[derive(Debug, Clone, Copy, PartialEq, Eq)]
pub struct MatchRangeDto {
    pub start: usize,
    pub len: usize,
}

/// A range as a reply has it.
pub open spec fn range_dto(r: MatchRange) -> MatchRangeDto {
    MatchRangeDto { start: r.start, len: r.len }
}

impl MatchRangeDto {
    /// The range as a reply has it.
    pub fn of(r: &MatchRange) -> (out: MatchRangeDto)
        ensures
            out == range_dto(*r),
    {
        MatchRangeDto { start: r.start, len: r.len }
    }
}

/// A search result in a reply.
#[derive(Debug, Clone, PartialEq, Eq)]
pub struct ThoughtMatchDto {
    pub thought: ThoughtDto,
    pub snippet: String,
    pub ranges: Vec<MatchRangeDto>,
}

/// What a `ThoughtMatchDto` holds.
#[verifier::ext_equal]
pub struct ThoughtMatchDtoView {
    pub thought: ThoughtDtoView,
    pub snippet: Seq<char>,
    pub ranges: Seq<MatchRangeDto>,
}

impl View for ThoughtMatchDto {
    type V = ThoughtMatchDtoView;

    open spec fn view(&self) -> ThoughtMatchDtoView {
        ThoughtMatchDtoView {
            thought: self.thought@,
            snippet: self.snippet@,
            ranges: self.ranges@,
        }
    }
}

/// A search result as a reply has it.
pub open spec fn match_dto(m: ThoughtMatchView) -> ThoughtMatchDtoView {
    ThoughtMatchDtoView {
        thought: thought_dto(m.thought),
        snippet: m.snippet,
        ranges: Seq::new(m.ranges.len(), |i: int| range_dto(m.ranges[i])),
    }
}

impl ThoughtMatchDto {
    /// The search result as a reply has it.
    pub fn of(m: &ThoughtMatch) -> (out: ThoughtMatchDto)
        ensures
            out@ == match_dto(m@),
    {
        let mut ranges: Vec<MatchRangeDto> = Vec::new();
        let mut i: usize = 0;
        while i < m.ranges.len()
            invariant
                i <= m.ranges@.len(),
                ranges@.len() == i,
                forall|j: int| 0 <= j < i ==> #[trigger] ranges@[j] == range_dto(m.ranges@[j]),
            decreases m.ranges.len() - i,
        {
            ranges.push(MatchRangeDto::of(&m.ranges[i]));
            i += 1;
        }
        let out = ThoughtMatchDto {
            thought: ThoughtDto::of(&m.thought),
            snippet: m.snippet.clone(),
            ranges,
        };
        assert(out@ =~= match_dto(m@));
        out
    }
}

/// The search results as a reply has them.
pub open spec fn match_dtos(matches: Seq<ThoughtMatchView>) -> Seq<ThoughtMatchDtoView> {
    Seq::new(matches.len(), |i: int| match_dto(matches[i]))
}

/// The search results as a reply has them.
pub fn matches_dto(matches: &Vec<ThoughtMatch>) -> (out: Vec<ThoughtMatchDto>)
    ensures
        seen(out@) == match_dtos(seen(matches@)),
{
    let mut out: Vec<ThoughtMatchDto> = Vec::new();
    let mut i: usize = 0;
    while i < matches.len()
        invariant
            i <= matches@.len(),
            out@.len() == i,
            forall|j: int| 0 <= j < i ==> (#[trigger] out@[j])@ == match_dto(matches@[j]@),
        decreases matches.len() - i,
    {
        out.push(ThoughtMatchDto::of(&matches[i]));
        i += 1;
    }
    assert(seen(out@) =~= match_dtos(seen(matches@)));
    out
}

/// A page in a reply. `next_cursor` is to be handed back for the next page.
#[derive(Debug, Clone, PartialEq, Eq)]
pub struct PageDto {
    pub thoughts: Vec<ThoughtDto>,
    pub next_cursor: Option<String>,
}

/// The text is there exactly if the other is, and the same.
pub open spec fn same_text(text: Option<String>, other: Option<Seq<char>>) -> bool {
    match other {
        Some(s) => text matches Some(t) && t@ == s,
        None => text is None,
    }
}

/// The text of a cursor, if there is one.
pub open spec fn cursor_text(cursor: Option<Cursor>) -> Option<Seq<char>> {
    match cursor {
        Some(c) => Some(key_text(c.created_at, c.id@)),
        None => None,
    }
}

/// The page as a reply has it.
pub open spec fn is_page_dto(out: PageDto, page: Page) -> bool {
    seen(out.thoughts@) == thought_dtos(seen(page.thoughts@)) && same_text(
        out.next_cursor,
        cursor_text(page.next_cursor),
    )
}

impl PageDto {
    /// The page as a reply has it.
    pub fn of(page: &Page) -> (out: PageDto)
        ensures
            is_page_dto(out, *page),
    {
        PageDto {
            thoughts: thoughts_dto(&page.thoughts),
            next_cursor: match &page.next_cursor {
                Some(c) => Some(encode_cursor(c)),
                None => None,
            },
        }
    }
}

/// An entry of the edit history in a reply.
#[derive(Debug, Clone, PartialEq, Eq)]
pub struct EditEntryDto {
    pub text: String,
    pub archived_at: i64,
}

impl View for EditEntryDto {
    type V = EditEntryView;

    open spec fn view(&self) -> EditEntryView {
        EditEntryView { text: self.text@, archived_at: self.archived_at }
    }
}

impl EditEntryDto {
    /// The entry as a reply has it.
    pub fn of(e: &EditEntry) -> (out: EditEntryDto)
        ensures
            out@ == e@,
    {
        EditEntryDto { text: e.text.clone(), archived_at: e.archived_at }
    }
}

/// A saved search in a reply.
#[derive(Debug, Clone, PartialEq, Eq)]
pub struct SavedSearchDto {
    pub id: String,
    pub name: String,
    pub query: String,
    pub created_at: i64,
}

/// What a `SavedSearchDto` holds.
#[verifier::ext_equal]
pub struct SavedSearchDtoView {
    pub id: Seq<char>,
    pub name: Seq<char>,
    pub query: Seq<char>,
    pub created_at: i64,
}

impl View for SavedSearchDto {
    type V = SavedSearchDtoView;

    open spec fn view(&self) -> SavedSearchDtoView {
        SavedSearchDtoView {
            id: self.id@,
            name: self.name@,
            query: self.query@,
            created_at: self.created_at,
        }
    }
}

/// A saved search as a reply has it.
pub open spec fn saved_dto(s: SavedSearchView) -> SavedSearchDtoView {
    SavedSearchDtoView {
        id: hyphenated(s.id),
        name: s.name,
        query: s.query,
        created_at: s.created_at,
    }
}

impl SavedSearchDto {
    /// The saved search as a reply has it.
    pub fn of(s: &SavedSearch) -> (out: SavedSearchDto)
        ensures
            out@ == saved_dto(s@),
    {
        SavedSearchDto {
            id: s.id.text(),
            name: s.name.clone(),
            query: s.query.clone(),
            created_at: s.created_at,
        }
    }
}

/// A change in a request or a reply, tombstones included.
#[derive(Debug, Clone, PartialEq, Eq)]
pub struct ThoughtChangeDto {
    pub id: String,
    pub text: String,
    pub created_at: i64,
    pub updated_at: i64,
    pub settled_at: Option<i64>,
    pub deleted_at: Option<i64>,
    pub actioned_at: Option<i64>,
}

/// What a `ThoughtChangeDto` holds.
#[verifier::ext_equal]
pub struct ThoughtChangeDtoView {
    pub id: Seq<char>,
    pub text: Seq<char>,
    pub created_at: i64,
    pub updated_at: i64,
    pub settled_at: Option<i64>,
    pub deleted_at: Option<i64>,
    pub actioned_at: Option<i64>,
}

impl View for ThoughtChangeDto {
    type V = ThoughtChangeDtoView;

    open spec fn view(&self) -> ThoughtChangeDtoView {
        ThoughtChangeDtoView {
            id: self.id@,
            text: self.text@,
            created_at: self.created_at,
            updated_at: self.updated_at,
            settled_at: self.settled_at,
            deleted_at: self.deleted_at,
            actioned_at: self.actioned_at,
        }
    }
}

/// A change as a reply has it.
pub open spec fn change_dto(c: ThoughtChangeView) -> ThoughtChangeDtoView {
    ThoughtChangeDtoView {
        id: hyphenated(c.id),
        text: c.text,
        created_at: c.created_at,
        updated_at: c.updated_at,
        settled_at: c.settled_at,
        deleted_at: c.deleted_at,
        actioned_at: c.actioned_at,
    }
}

/// The change that a request brings, if its identifier is one.
pub open spec fn change_in(d: ThoughtChangeDtoView) -> Option<ThoughtChangeView> {
    match parsed_uuid(d.id) {
        Some(id) => Some(
            ThoughtChangeView {
                id,
                text: d.text,
                created_at: d.created_at,
                updated_at: d.updated_at,
                settled_at: d.settled_at,
                deleted_at: d.deleted_at,
                actioned_at: d.actioned_at,
            },
        ),
        None => None,
    }
}

impl ThoughtChangeDto {
    /// The change as a reply has it.
    pub fn of(c: &ThoughtChange) -> (out: ThoughtChangeDto)
        ensures
            out@ == change_dto(c@),
    {
        ThoughtChangeDto {
            id: c.id.text(),
            text: c.text.clone(),
            created_at: c.created_at,
            updated_at: c.updated_at,
            settled_at: c.settled_at,
            deleted_at: c.deleted_at,
            actioned_at: c.actioned_at,
        }
    }

    /// The change that the request brings.
    pub fn to_change(&self) -> (r: Result<ThoughtChange, AppError>)
        ensures
            match change_in(self@) {
                Some(change) => r matches Ok(c) && c@ == change,
                None => refuses(r, AppErrorView::BadRequest("invalid thought id"@)),
            },
    {
        match parse_id(self.id.as_str()) {
            Ok(id) => Ok(
                ThoughtChange {
                    id,
                    text: self.text.clone(),
                    created_at: self.created_at,
                    updated_at: self.updated_at,
                    settled_at: self.settled_at,
                    deleted_at: self.deleted_at,
                    actioned_at: self.actioned_at,
                },
            ),
            Err(e) => Err(e),
        }
    }
}

/// A change that was sent is received as it was.
pub proof fn law_change_round_trips(change: ThoughtChange)
    ensures
        change_in(change_dto(change@)) == Some(change@),
{
    law_uuid_text_round_trips(change.id);
}

// ---- errors ----------------------------------------------------------------

/// An error in a reply.
#[derive(Debug, Clone, PartialEq, Eq)]
pub enum AppError {
    NotFound(String),
    BadRequest(String),
    Internal(String),
}

/// What an `AppError` holds.
#[verifier::ext_equal]
pub enum AppErrorView {
    NotFound(Seq<char>),
    BadRequest(Seq<char>),
    Internal(Seq<char>),
}

impl View for AppError {
    type V = AppErrorView;

    open spec fn view(&self) -> AppErrorView {
        match *self {
            AppError::NotFound(m) => AppErrorView::NotFound(m@),
            AppError::BadRequest(m) => AppErrorView::BadRequest(m@),
            AppError::Internal(m) => AppErrorView::Internal(m@),
        }
    }
}

/// The error that a reply has for one of the store.
pub open spec fn app_error(e: Error) -> AppErrorView {
    match e {
        Error::NotFound { .. } => AppErrorView::NotFound(error_text(e)),
        _ => AppErrorView::Internal(error_text(e)),
    }
}

/// The result is this error.
pub open spec fn refuses<T>(r: Result<T, AppError>, e: AppErrorView) -> bool {
    r matches Err(x) && x@ == e
}

impl AppError {
    /// The error for a request that is wrong.
    pub fn bad_request(msg: &str) -> (e: AppError)
        ensures
            e@ == AppErrorView::BadRequest(msg@),
    {
        AppError::BadRequest(msg.to_owned())
    }

    /// The error for what went wrong here.
    pub fn internal(msg: &str) -> (e: AppError)
        ensures
            e@ == AppErrorView::Internal(msg@),
    {
        AppError::Internal(msg.to_owned())
    }

    /// The error that a reply has for one of the store.
    pub fn of(e: &Error) -> (out: AppError)
        ensures
            out@ == app_error(*e),
    {
        match e {
            Error::NotFound { .. } => AppError::NotFound(e.text()),
            _ => AppError::Internal(e.text()),
        }
    }

    /// The HTTP status of the error.
    pub fn status(&self) -> (status: u16)
        ensures
            status == (match self@ {
                AppErrorView::NotFound(_) => 404int,
                AppErrorView::BadRequest(_) => 400int,
                AppErrorView::Internal(_) => 500int,
            }),
    {
        match self {
            AppError::NotFound(_) => 404,
            AppError::BadRequest(_) => 400,
            AppError::Internal(_) => 500,
        }
    }

    /// The text of the error.
    pub fn message(&self) -> (message: &str)
        ensures
            message@ == (match self@ {
                AppErrorView::NotFound(m) => m,
                AppErrorView::BadRequest(m) => m,
                AppErrorView::Internal(m) => m,
            }),
    {
        match self {
            AppError::NotFound(m) => m.as_str(),
            AppError::BadRequest(m) => m.as_str(),
            AppError::Internal(m) => m.as_str(),
        }
    }
}

// ---- cursors ---------------------------------------------------------------

/// What is said of a text that is no cursor of the stream.
pub open spec fn cursor_complaint(fault: KeyFault) -> Seq<char> {
    match fault {
        KeyFault::Shape => "malformed cursor"@,
        KeyFault::Time => "malformed cursor timestamp"@,
        KeyFault::Id => "malformed cursor id"@,
    }
}

/// What is said of a text that is no cursor of the change feed.
pub open spec fn sync_cursor_complaint(fault: KeyFault) -> Seq<char> {
    match fault {
        KeyFault::Shape => "malformed sync cursor"@,
        KeyFault::Time => "malformed sync cursor timestamp"@,
        KeyFault::Id => "malformed sync cursor id"@,
    }
}

/// The text of a cursor of the stream.
pub fn encode_cursor(c: &Cursor) -> (out: String)
    ensures
        out@ == key_text(c.created_at, c.id@),
{
    encode_key(c.created_at, &c.id)
}

/// The cursor of the stream that a text spells.
pub fn decode_cursor(s: &str) -> (r: Result<Cursor, AppError>)
    ensures
        match parsed_key(s@) {
            Ok((time, id)) => r matches Ok(c) && c.created_at == time && c.id@ == id,
            Err(fault) => refuses(r, AppErrorView::BadRequest(cursor_complaint(fault))),
        },
{
    match decode_key(s) {
        Ok((created_at, id)) => Ok(Cursor { created_at, id }),
        Err(KeyFault::Shape) => Err(AppError::bad_request("malformed cursor")),
        Err(KeyFault::Time) => Err(AppError::bad_request("malformed cursor timestamp")),
        Err(KeyFault::Id) => Err(AppError::bad_request("malformed cursor id")),
    }
}

/// The text of a cursor of the change feed.
pub fn encode_sync_cursor(c: &SyncCursor) -> (out: String)
    ensures
        out@ == key_text(c.updated_at, c.id@),
{
    encode_key(c.updated_at, &c.id)
}

/// The cursor of the change feed that a text spells.
pub fn decode_sync_cursor(s: &str) -> (r: Result<SyncCursor, AppError>)
    ensures
        match parsed_key(s@) {
            Ok((time, id)) => r matches Ok(c) && c.updated_at == time && c.id@ == id,
            Err(fault) => refuses(r, AppErrorView::BadRequest(sync_cursor_complaint(fault))),
        },
{
    match decode_key(s) {
        Ok((updated_at, id)) => Ok(SyncCursor { updated_at, id }),
        Err(KeyFault::Shape) => Err(AppError::bad_request("malformed sync cursor")),
        Err(KeyFault::Time) => Err(AppError::bad_request("malformed sync cursor timestamp")),
        Err(KeyFault::Id) => Err(AppError::bad_request("malformed sync cursor id")),
    }
}

/// The identifier in a request.
pub fn parse_id(raw: &str) -> (r: Result<Uuid, AppError>)
    ensures
        match parsed_uuid(raw@) {
            Some(id) => r matches Ok(x) && x@ == id,
            None => refuses(r, AppErrorView::BadRequest("invalid thought id"@)),
        },
{
    match Uuid::parse_str(raw) {
        Ok(id) => Ok(id),
        Err(_) => Err(AppError::bad_request("invalid thought id")),
    }
}

} // verus!
