//! The store as the native apps see it: identifiers are text, numbers have a
//! fixed width, and errors are few.

use vstd::prelude::*;
use vstd::string::*;

use crate::backfill::embedding_ended;
use crate::embed::TextEmbedder;
use crate::error::{error_text, joined, Error, Result as StoreResult};
use crate::ident::{hyphenated, parsed_uuid, uuid_complaint, Uuid};
use crate::matching::{found_by_both, related_found, related_to_found, IndexHit};
use crate::model::missing;
use crate::query::{
    pages_some_time, shows_some_time, stale_some_time, stream, Cursor as StoreCursor,
    Page as StorePage, DEFAULT_PAGE_SIZE,
};
use crate::rows::{limited, seen};
use crate::search::{
    MatchRange as StoreMatchRange, ThoughtMatch as StoreThoughtMatch, ThoughtMatchView,
};
use crate::sound::sound;
use crate::store::{
    action_ended, create_ended, delete_ended, settle_ended, update_ended,
    ThoughtStore as CoreStore,
};
use crate::thought::{Thought as StoreThought, ThoughtView};

verus! {

/// How many thoughts a page has where an app has no more specific need.
pub fn default_page_size() -> (n: u32)
    ensures
        n == DEFAULT_PAGE_SIZE,
{
    64
}

/// A thought. `id` is the identifier in lower-case hyphenated form; times are
/// milliseconds since 1970-01-01 UTC.
#[derive(Debug, Clone, PartialEq, Eq)]
pub struct Thought {
    pub id: String,
    pub text: String,
    pub created_at: i64,
    pub updated_at: i64,
    /// Whether an edit made now would be kept in the history.
    pub is_settled: bool,
    pub is_actioned: bool,
}

/// What a `Thought` holds.
#[verifier::ext_equal]
pub struct FfiThoughtView {
    pub id: Seq<char>,
    pub text: Seq<char>,
    pub created_at: i64,
    pub updated_at: i64,
    pub is_settled: bool,
    pub is_actioned: bool,
}

impl View for Thought {
    type V = FfiThoughtView;

    open spec fn view(&self) -> FfiThoughtView {
        FfiThoughtView {
            id: self.id@,
            text: self.text@,
            created_at: self.created_at,
            updated_at: self.updated_at,
            is_settled: self.is_settled,
            is_actioned: self.is_actioned,
        }
    }
}

/// A thought as the apps see it.
pub open spec fn ffi_thought(t: ThoughtView) -> FfiThoughtView {
    FfiThoughtView {
        id: hyphenated(t.id),
        text: t.text,
        created_at: t.created_at,
        updated_at: t.updated_at,
        is_settled: t.is_settled,
        is_actioned: t.is_actioned,
    }
}

impl Thought {
    /// The thought as the apps see it.
    pub fn of(t: &StoreThought) -> (out: Thought)
        ensures
            out@ == ffi_thought(t@),
    {
        Thought {
            id: t.id.text(),
            text: t.text.clone(),
            created_at: t.created_at,
            updated_at: t.updated_at,
            is_settled: t.is_settled,
            is_actioned: t.is_actioned,
        }
    }
}

/// The thoughts as the apps see them.
pub open spec fn ffi_thoughts(thoughts: Seq<ThoughtView>) -> Seq<FfiThoughtView> {
    Seq::new(thoughts.len(), |i: int| ffi_thought(thoughts[i]))
}

/// The thoughts as the apps see them.
fn convert_thoughts(thoughts: &Vec<StoreThought>) -> (out: Vec<Thought>)
    ensures
        seen(out@) == ffi_thoughts(seen(thoughts@)),
{
    let mut out: Vec<Thought> = Vec::new();
    let mut i: usize = 0;
    while i < thoughts.len()
        invariant
            i <= thoughts@.len(),
            out@.len() == i,
            forall|j: int| 0 <= j < i ==> (#[trigger] out@[j])@ == ffi_thought(thoughts@[j]@),
        decreases thoughts.len() - i,
    {
        out.push(Thought::of(&thoughts[i]));
        i += 1;
    }
    assert(seen(out@) =~= ffi_thoughts(seen(thoughts@)));
    out
}

/// A position in the stream, to be handed back as it was received.
#[derive(Debug, Clone, PartialEq, Eq)]
pub struct Cursor {
    pub created_at: i64,
    pub id: String,
}

/// The cursor as the apps see it.
pub open spec fn is_ffi_cursor(out: Option<Cursor>, cursor: Option<StoreCursor>) -> bool {
    match cursor {
        Some(c) => out matches Some(x) && x.created_at == c.created_at && x.id@ == hyphenated(c.id@),
        None => out is None,
    }
}

impl Cursor {
    /// The cursor as the apps see it.
    pub fn of(c: &StoreCursor) -> (out: Cursor)
        ensures
            out.created_at == c.created_at,
            out.id@ == hyphenated(c.id@),
    {
        Cursor { created_at: c.created_at, id: c.id.text() }
    }
}

/// One page of thoughts, newest first.
#[derive(Debug, Clone, PartialEq, Eq)]
pub struct Page {
    pub thoughts: Vec<Thought>,
    pub next_cursor: Option<Cursor>,
}

/// The page as the apps see it.
pub open spec fn is_ffi_page(out: Page, page: StorePage) -> bool {
    seen(out.thoughts@) == ffi_thoughts(seen(page.thoughts@)) && is_ffi_cursor(
        out.next_cursor,
        page.next_cursor,
    )
}

impl Page {
    /// The page as the apps see it.
    pub fn of(page: &StorePage) -> (out: Page)
        ensures
            is_ffi_page(out, *page),
    {
        Page {
            thoughts: convert_thoughts(&page.thoughts),
            next_cursor: match &page.next_cursor {
                Some(c) => Some(Cursor::of(c)),
                None => None,
            },
        }
    }
}

/// A half-open byte range (UTF-8 offsets) into a snippet.
#[derive(Debug, Clone, Copy, PartialEq, Eq)]
pub struct MatchRange {
    pub start: u64,
    pub len: u64,
}

/// A range as the apps see it.
pub open spec fn ffi_range(r: StoreMatchRange) -> MatchRange {
    MatchRange { start: r.start as u64, len: r.len as u64 }
}

impl MatchRange {
    /// The range as the apps see it.
    pub fn of(r: &StoreMatchRange) -> (out: MatchRange)
        ensures
            out.start == r.start,
            out.len == r.len,
            out == ffi_range(*r),
    {
        MatchRange { start: r.start as u64, len: r.len as u64 }
    }
}

/// One search result.
#[derive(Debug, Clone, PartialEq, Eq)]
pub struct ThoughtMatch {
    pub thought: Thought,
    pub snippet: String,
    pub ranges: Vec<MatchRange>,
}

/// What a `ThoughtMatch` holds.
#[verifier::ext_equal]
pub struct FfiThoughtMatchView {
    pub thought: FfiThoughtView,
    pub snippet: Seq<char>,
    pub ranges: Seq<MatchRange>,
}

impl View for ThoughtMatch {
    type V = FfiThoughtMatchView;

    open spec fn view(&self) -> FfiThoughtMatchView {
        FfiThoughtMatchView {
            thought: self.thought@,
            snippet: self.snippet@,
            ranges: self.ranges@,
        }
    }
}

/// A search result as the apps see it.
pub open spec fn ffi_match(m: ThoughtMatchView) -> FfiThoughtMatchView {
    FfiThoughtMatchView {
        thought: ffi_thought(m.thought),
        snippet: m.snippet,
        ranges: Seq::new(m.ranges.len(), |i: int| ffi_range(m.ranges[i])),
    }
}

impl ThoughtMatch {
    /// The search result as the apps see it.
    pub fn of(m: &StoreThoughtMatch) -> (out: ThoughtMatch)
        ensures
            out@ == ffi_match(m@),
    {
        let mut ranges: Vec<MatchRange> = Vec::new();
        let mut i: usize = 0;
        while i < m.ranges.len()
            invariant
                i <= m.ranges@.len(),
                ranges@.len() == i,
                forall|j: int| 0 <= j < i ==> #[trigger] ranges@[j] == ffi_range(m.ranges@[j]),
            decreases m.ranges.len() - i,
        {
            ranges.push(MatchRange::of(&m.ranges[i]));
            i += 1;
        }
        let out = ThoughtMatch {
            thought: Thought::of(&m.thought),
            snippet: m.snippet.clone(),
            ranges,
        };
        assert(out@ =~= ffi_match(m@));
        out
    }
}

/// The search results as the apps see them.
pub open spec fn ffi_matches(matches: Seq<ThoughtMatchView>) -> Seq<FfiThoughtMatchView> {
    Seq::new(matches.len(), |i: int| ffi_match(matches[i]))
}

/// The search results as the apps see them.
fn convert_matches(matches: &Vec<StoreThoughtMatch>) -> (out: Vec<ThoughtMatch>)
    ensures
        seen(out@) == ffi_matches(seen(matches@)),
{
    let mut out: Vec<ThoughtMatch> = Vec::new();
    let mut i: usize = 0;
    while i < matches.len()
        invariant
            i <= matches@.len(),
            out@.len() == i,
            forall|j: int| 0 <= j < i ==> (#[trigger] out@[j])@ == ffi_match(matches@[j]@),
        decreases matches.len() - i,
    {
        out.push(ThoughtMatch::of(&matches[i]));
        i += 1;
    }
    assert(seen(out@) =~= ffi_matches(seen(matches@)));
    out
}

/// What the apps are told when something goes wrong.
#[derive(Debug, Clone, PartialEq, Eq)]
pub enum FfiError {
    Storage { message: String },
    InvalidId { message: String },
    NotFound,
    Embedding { message: String },
}

/// What an `FfiError` holds.
#[verifier::ext_equal]
pub enum FfiErrorView {
    Storage { message: Seq<char> },
    InvalidId { message: Seq<char> },
    NotFound,
    Embedding { message: Seq<char> },
}

impl View for FfiError {
    type V = FfiErrorView;

    open spec fn view(&self) -> FfiErrorView {
        match *self {
            FfiError::Storage { message } => FfiErrorView::Storage { message: message@ },
            FfiError::InvalidId { message } => FfiErrorView::InvalidId { message: message@ },
            FfiError::NotFound => FfiErrorView::NotFound,
            FfiError::Embedding { message } => FfiErrorView::Embedding { message: message@ },
        }
    }
}

/// What the apps are told of an error of the store.
pub open spec fn ffi_error(e: Error) -> FfiErrorView {
    match e {
        Error::NotFound { .. } => FfiErrorView::NotFound,
        Error::ModelLoad { .. } => FfiErrorView::Embedding { message: error_text(e) },
        Error::Embedding { .. } => FfiErrorView::Embedding { message: error_text(e) },
        Error::NoEmbedder => FfiErrorView::Embedding { message: error_text(e) },
        _ => FfiErrorView::Storage { message: error_text(e) },
    }
}

/// The text of an error.
pub open spec fn ffi_error_text(e: FfiErrorView) -> Seq<char> {
    match e {
        FfiErrorView::Storage { message } => "storage error: "@ + message,
        FfiErrorView::InvalidId { message } => "invalid id: "@ + message,
        FfiErrorView::NotFound => "not found"@,
        FfiErrorView::Embedding { message } => "embedding error: "@ + message,
    }
}

/// The result is this error.
pub open spec fn tells<T>(r: Result<T, FfiError>, e: FfiErrorView) -> bool {
    r matches Err(x) && x@ == e
}

/// The result says that the text is no identifier.
pub open spec fn no_such_id<T>(r: Result<T, FfiError>, text: Seq<char>) -> bool {
    tells(r, FfiErrorView::InvalidId { message: uuid_complaint(text) })
}

impl FfiError {
    /// What the apps are told of an error of the store.
    pub fn of(e: &Error) -> (out: FfiError)
        ensures
            out@ == ffi_error(*e),
    {
        match e {
            Error::NotFound { .. } => FfiError::NotFound,
            Error::ModelLoad { .. } => FfiError::Embedding { message: e.text() },
            Error::Embedding { .. } => FfiError::Embedding { message: e.text() },
            Error::NoEmbedder => FfiError::Embedding { message: e.text() },
            _ => FfiError::Storage { message: e.text() },
        }
    }

    /// The text of the error.
    pub fn text(&self) -> (out: String)
        ensures
            out@ == ffi_error_text(self@),
    {
        match self {
            FfiError::Storage { message } => joined(
                "storage error: ",
                message.as_str(),
            ),
            FfiError::InvalidId { message } => joined(
                "invalid id: ",
                message.as_str(),
            ),
            FfiError::NotFound => "not found".to_owned(),
            FfiError::Embedding { message } => joined(
                "embedding error: ",
                message.as_str(),
            ),
        }
    }
}

/// The identifier that a text spells.
pub fn parse_id(id: &str) -> (r: Result<Uuid, FfiError>)
    ensures
        match parsed_uuid(id@) {
            Some(bytes) => r matches Ok(uuid) && uuid@ == bytes,
            None => no_such_id(r, id@),
        },
{
    match Uuid::parse_str(id) {
        Ok(uuid) => Ok(uuid),
        Err(message) => Err(FfiError::InvalidId { message }),
    }
}

// ---- what the apps get -----------------------------------------------------

/// The apps get the thought, or are told the error.
pub open spec fn gives_thought(out: Result<Thought, FfiError>, r: StoreResult<StoreThought>) -> bool {
    match r {
        Ok(thought) => out matches Ok(t) && t@ == ffi_thought(thought@),
        Err(e) => tells(out, ffi_error(e)),
    }
}

/// The apps get the thoughts, or are told the error.
pub open spec fn gives_thoughts(
    out: Result<Vec<Thought>, FfiError>,
    r: StoreResult<Vec<StoreThought>>,
) -> bool {
    match r {
        Ok(thoughts) => out matches Ok(t) && seen(t@) == ffi_thoughts(seen(thoughts@)),
        Err(e) => tells(out, ffi_error(e)),
    }
}

/// The apps get the search results, or are told the error.
pub open spec fn gives_matches(
    out: Result<Vec<ThoughtMatch>, FfiError>,
    r: StoreResult<Vec<StoreThoughtMatch>>,
) -> bool {
    match r {
        Ok(matches) => out matches Ok(m) && seen(m@) == ffi_matches(seen(matches@)),
        Err(e) => tells(out, ffi_error(e)),
    }
}

/// The apps get the page, or are told the error.
pub open spec fn gives_page(out: Result<Page, FfiError>, r: StoreResult<StorePage>) -> bool {
    match r {
        Ok(page) => out matches Ok(p) && is_ffi_page(p, page),
        Err(e) => tells(out, ffi_error(e)),
    }
}

/// The apps learn that it is done, or are told the error.
pub open spec fn gives_nothing<T>(out: Result<(), FfiError>, r: StoreResult<T>) -> bool {
    match r {
        Ok(_) => out is Ok,
        Err(e) => tells(out, ffi_error(e)),
    }
}

/// The apps get the number, or are told the error.
pub open spec fn gives_count(out: Result<u32, FfiError>, r: StoreResult<usize>) -> bool {
    match r {
        Ok(n) => out matches Ok(k) && k == n,
        Err(e) => tells(out, ffi_error(e)),
    }
}

fn give_thought(r: StoreResult<StoreThought>) -> (out: Result<Thought, FfiError>)
    ensures
        gives_thought(out, r),
{
    match r {
        Ok(thought) => Ok(Thought::of(&thought)),
        Err(e) => Err(FfiError::of(&e)),
    }
}

pub(crate) fn give_thoughts(r: StoreResult<Vec<StoreThought>>) -> (out: Result<Vec<Thought>, FfiError>)
    ensures
        gives_thoughts(out, r),
{
    match r {
        Ok(thoughts) => Ok(convert_thoughts(&thoughts)),
        Err(e) => Err(FfiError::of(&e)),
    }
}

fn give_matches(r: StoreResult<Vec<StoreThoughtMatch>>) -> (out: Result<
    Vec<ThoughtMatch>,
    FfiError,
>)
    ensures
        gives_matches(out, r),
{
    match r {
        Ok(matches) => Ok(convert_matches(&matches)),
        Err(e) => Err(FfiError::of(&e)),
    }
}

/// The cursor of the store is where that of an app points.
pub open spec fn points_to(before: Option<StoreCursor>, cursor: Cursor, id: Seq<u8>) -> bool {
    before matches Some(c) && c.created_at == cursor.created_at && c.id@ == id
}

/// The store as the apps see it.
pub struct ThoughtStore<E: TextEmbedder> {
    pub inner: CoreStore<E>,
}

impl<E: TextEmbedder> ThoughtStore<E> {
    /// Wraps an opened store.
    pub fn new(inner: CoreStore<E>) -> (out: Self)
        ensures
            out.inner == inner,
    {
        ThoughtStore { inner }
    }

    /// Captures a new thought.
    pub fn create(&mut self, text: &str) -> (out: Result<Thought, FfiError>)
        ensures
            final(self).inner.follows(old(self).inner),
            sound(old(self).inner@) ==> sound(final(self).inner@),
            exists|r: StoreResult<StoreThought>| #[trigger]
                create_ended(old(self).inner, final(self).inner, text@, r) && gives_thought(out, r),
    {
        let r = self.inner.create(text);
        assert(create_ended(old(self).inner, self.inner, text@, r));
        give_thought(r)
    }

    /// Replaces the text of a thought.
    pub fn update(&mut self, id: &str, text: &str) -> (out: Result<Thought, FfiError>)
        ensures
            final(self).inner.follows(old(self).inner),
            sound(old(self).inner@) ==> sound(final(self).inner@),
            match parsed_uuid(id@) {
                None => no_such_id(out, id@) && *final(self) == *old(self),
                Some(bytes) => exists|uuid: Uuid, r: StoreResult<StoreThought>| #[trigger]
                    update_ended(old(self).inner, final(self).inner, uuid, text@, r) && uuid@
                        == bytes && gives_thought(out, r),
            },
    {
        proof {
            self.inner.lemma_follows_itself();
        }
        match parse_id(id) {
            Ok(uuid) => {
                let r = self.inner.update_thought(uuid, text);
                assert(update_ended(old(self).inner, self.inner, uuid, text@, r));
                give_thought(r)
            },
            Err(e) => Err(e),
        }
    }

    /// Deletes a thought.
    pub fn delete(&mut self, id: &str) -> (out: Result<(), FfiError>)
        ensures
            final(self).inner.follows(old(self).inner),
            sound(old(self).inner@) ==> sound(final(self).inner@),
            match parsed_uuid(id@) {
                None => no_such_id(out, id@) && *final(self) == *old(self),
                Some(bytes) => exists|uuid: Uuid, r: StoreResult<()>| #[trigger]
                    delete_ended(old(self).inner, final(self).inner, uuid, r) && uuid@ == bytes
                        && gives_nothing(out, r),
            },
    {
        proof {
            self.inner.lemma_follows_itself();
        }
        match parse_id(id) {
            Ok(uuid) => {
                let r = self.inner.delete_thought(uuid);
                assert(delete_ended(old(self).inner, self.inner, uuid, r));
                match &r {
                    Ok(_) => Ok(()),
                    Err(e) => Err(FfiError::of(e)),
                }
            },
            Err(e) => Err(e),
        }
    }

    /// Settles every live thought.
    pub fn settle_all_live(&mut self) -> (out: Result<(), FfiError>)
        ensures
            final(self).inner.follows(old(self).inner),
            sound(old(self).inner@) ==> sound(final(self).inner@),
            exists|r: StoreResult<usize>| #[trigger]
                settle_ended(old(self).inner, final(self).inner, r) && gives_nothing(out, r),
    {
        let r = self.inner.settle_all_live();
        assert(settle_ended(old(self).inner, self.inner, r));
        match &r {
            Ok(_) => Ok(()),
            Err(e) => Err(FfiError::of(e)),
        }
    }

    /// Every thought, newest first.
    pub fn list(&self) -> (out: Result<Vec<Thought>, FfiError>)
        ensures
            exists|r: StoreResult<Vec<StoreThought>>| #[trigger]
                gives_thoughts(out, r) && shows_some_time(r, stream(self.inner@.thoughts)),
    {
        give_thoughts(self.inner.list())
    }

    /// One page of thoughts, newest first.
    pub fn list_paginated(&self, before: Option<Cursor>, limit: u32) -> (out: Result<
        Page,
        FfiError,
    >)
        ensures
            match before {
                None => exists|r: StoreResult<StorePage>| #[trigger]
                    gives_page(out, r) && pages_some_time(
                        r,
                        self.inner@.thoughts,
                        None,
                        limit as usize,
                    ),
                Some(cursor) => match parsed_uuid(cursor.id@) {
                    None => no_such_id(out, cursor.id@),
                    Some(id) => exists|r: StoreResult<StorePage>, from: Option<StoreCursor>|
                        #![trigger gives_page(out, r), points_to(from, cursor, id)]
                        points_to(from, cursor, id) && gives_page(out, r) && pages_some_time(
                            r,
                            self.inner@.thoughts,
                            from,
                            limit as usize,
                        ),
                },
            },
    {
        let from = match &before {
            Some(cursor) => match parse_id(cursor.id.as_str()) {
                Ok(id) => Some(StoreCursor { created_at: cursor.created_at, id }),
                Err(e) => return Err(e),
            },
            None => None,
        };
        let r = self.inner.list_paginated(from, limit as usize);
        let out = match &r {
            Ok(page) => Ok(Page::of(page)),
            Err(e) => Err(FfiError::of(e)),
        };
        proof {
            assert(gives_page(out, r));
            if before is Some {
                let cursor = before.unwrap();
                assert(points_to(from, cursor, parsed_uuid(cursor.id@).unwrap()));
            }
        }
        out
    }

    /// Search by words and by meaning. `hits` is what the text index matches for
    /// the query.
    pub fn search_combined(&self, query: &str, limit: u32, hits: &Vec<IndexHit>) -> (out: Result<
        Vec<ThoughtMatch>,
        FfiError,
    >)
        ensures
            exists|r: StoreResult<Vec<StoreThoughtMatch>>| #[trigger]
                gives_matches(out, r) && found_by_both(
                    r,
                    self.inner,
                    query@,
                    limit as nat,
                    seen(hits@),
                ),
    {
        give_matches(self.inner.search_combined(query, limit as usize, hits))
    }

    /// Thoughts related to a draft. `exclude_id` is the thought being edited.
    pub fn find_related(&self, draft_text: &str, top_k: u32, exclude_id: Option<String>) -> (out:
        Result<Vec<ThoughtMatch>, FfiError>)
        ensures
            match exclude_id {
                None => exists|r: StoreResult<Vec<StoreThoughtMatch>>| #[trigger]
                    gives_matches(out, r) && related_found(
                        r,
                        self.inner,
                        draft_text@,
                        top_k as nat,
                        None,
                    ),
                Some(text) => match parsed_uuid(text@) {
                    None => no_such_id(out, text@),
                    Some(bytes) => exists|r: StoreResult<Vec<StoreThoughtMatch>>, uuid: Uuid|
                        #![trigger gives_matches(out, r), uuid@]
                        uuid@ == bytes && gives_matches(out, r) && related_found(
                            r,
                            self.inner,
                            draft_text@,
                            top_k as nat,
                            Some(uuid),
                        ),
                },
            },
    {
        let exclude = match &exclude_id {
            Some(text) => match parse_id(text.as_str()) {
                Ok(uuid) => Some(uuid),
                Err(e) => return Err(e),
            },
            None => None,
        };
        let r = self.inner.find_related(draft_text, top_k as usize, exclude);
        let out = match &r {
            Ok(matches) => Ok(convert_matches(matches)),
            Err(e) => Err(FfiError::of(e)),
        };
        proof {
            assert(gives_matches(out, r));
            if exclude is Some {
                assert(exclude.unwrap()@ == parsed_uuid(exclude_id.unwrap()@).unwrap());
            }
        }
        out
    }

    /// Thoughts related to a stored one.
    pub fn find_related_to(&self, id: &str, top_k: u32) -> (out: Result<
        Vec<ThoughtMatch>,
        FfiError,
    >)
        ensures
            match parsed_uuid(id@) {
                None => no_such_id(out, id@),
                Some(bytes) => exists|r: StoreResult<Vec<StoreThoughtMatch>>, uuid: Uuid|
                    #![trigger related_to_found::<E>(r, self.inner@, uuid, top_k as nat)]
                    uuid@ == bytes && gives_matches(out, r) && related_to_found::<E>(
                        r,
                        self.inner@,
                        uuid,
                        top_k as nat,
                    ),
            },
    {
        match parse_id(id) {
            Ok(uuid) => give_matches(self.inner.find_related_to(uuid, top_k as usize)),
            Err(e) => Err(e),
        }
    }

    /// Attaches the embedder, if it could be loaded.
    pub fn attach_embedder(&mut self, loaded: StoreResult<E>) -> (out: Result<(), FfiError>)
        ensures
            final(self).inner@ == old(self).inner@,
            final(self).inner.journal@ == old(self).inner.journal@,
            match loaded {
                Ok(embedder) => out is Ok && final(self).inner.embedder == Some(embedder),
                Err(e) => tells(out, ffi_error(e)) && *final(self) == *old(self),
            },
    {
        match loaded {
            Ok(embedder) => {
                self.inner.set_embedder(embedder);
                Ok(())
            },
            Err(e) => Err(FfiError::of(&e)),
        }
    }

    /// Embeds up to `limit` thoughts that have no stored vector, and says how
    /// many.
    pub fn embed_missing(&mut self, limit: u32) -> (out: Result<u32, FfiError>)
        ensures
            final(self).inner.follows(old(self).inner),
            sound(old(self).inner@) ==> sound(final(self).inner@),
            exists|r: StoreResult<usize>|
                #![trigger gives_count(out, r)]
                gives_count(out, r) && embedding_ended(
                    old(self).inner.embedder,
                    old(self).inner@,
                    final(self).inner@,
                    limited(missing(old(self).inner@), limit as nat),
                    r,
                ),
    {
        let r = self.inner.embed_missing(limit as usize);
        let out = match &r {
            Ok(n) => {
                assert(*n <= limit);
                Ok(*n as u32)
            },
            Err(e) => Err(FfiError::of(e)),
        };
        assert(gives_count(out, r));
        out
    }

    /// Marks a thought as dealt with.
    pub fn mark_actioned(&mut self, id: &str) -> (out: Result<Thought, FfiError>)
        ensures
            final(self).inner.follows(old(self).inner),
            sound(old(self).inner@) ==> sound(final(self).inner@),
            match parsed_uuid(id@) {
                None => no_such_id(out, id@) && *final(self) == *old(self),
                Some(bytes) => exists|uuid: Uuid, r: StoreResult<StoreThought>| #[trigger]
                    action_ended(old(self).inner, final(self).inner, uuid, true, r) && uuid@
                        == bytes && gives_thought(out, r),
            },
    {
        proof {
            self.inner.lemma_follows_itself();
        }
        match parse_id(id) {
            Ok(uuid) => {
                let r = self.inner.mark_actioned(uuid);
                assert(action_ended(old(self).inner, self.inner, uuid, true, r));
                give_thought(r)
            },
            Err(e) => Err(e),
        }
    }

    /// Clears that mark.
    pub fn unmark_actioned(&mut self, id: &str) -> (out: Result<Thought, FfiError>)
        ensures
            final(self).inner.follows(old(self).inner),
            sound(old(self).inner@) ==> sound(final(self).inner@),
            match parsed_uuid(id@) {
                None => no_such_id(out, id@) && *final(self) == *old(self),
                Some(bytes) => exists|uuid: Uuid, r: StoreResult<StoreThought>| #[trigger]
                    action_ended(old(self).inner, final(self).inner, uuid, false, r) && uuid@
                        == bytes && gives_thought(out, r),
            },
    {
        proof {
            self.inner.lemma_follows_itself();
        }
        match parse_id(id) {
            Ok(uuid) => {
                let r = self.inner.unmark_actioned(uuid);
                assert(action_ended(old(self).inner, self.inner, uuid, false, r));
                give_thought(r)
            },
            Err(e) => Err(e),
        }
    }

    /// The stale thoughts, oldest first.
    pub fn list_stale(&self, older_than_ms: i64, limit: u32) -> (out: Result<
        Vec<Thought>,
        FfiError,
    >)
        ensures
            exists|r: StoreResult<Vec<StoreThought>>| #[trigger]
                gives_thoughts(out, r) && stale_some_time(
                    r,
                    self.inner@.thoughts,
                    older_than_ms,
                    limit as nat,
                ),
    {
        give_thoughts(self.inner.list_stale(older_than_ms, limit as usize))
    }
}

} // verus!
