//! Synchronisation as the native apps see it: they push what is pending, say what
//! was pushed, and apply the changes that they pulled.

use vstd::prelude::*;
use vstd::string::*;

use crate::api::{change_dto, change_in, ThoughtChangeDtoView};
use crate::embed::TextEmbedder;
use crate::error::Result as StoreResult;
use crate::ffi::{ffi_error, no_such_id, parse_id, tells, FfiError, ThoughtStore};
use crate::ident::{law_uuid_text_round_trips, parsed_uuid, Uuid};
use crate::model::{acknowledged, wins};
use crate::query::{feed, outbox, shows_changes};
use crate::rows::{
    first_where, law_first_where, lemma_first_where_extends, lemma_take_step, limited, seen,
};
use crate::sound::sound;
use crate::store::{arrives, pushes};
use crate::sync::{SyncCursor as StoreSyncCursor, ThoughtChange as StoreChange};

verus! {

/// The full state of one thought, tombstones included. `id` is the identifier in
/// lower-case hyphenated form.
#[derive(Debug, Clone, PartialEq, Eq)]
pub struct ThoughtChange {
    pub id: String,
    pub text: String,
    pub created_at: i64,
    pub updated_at: i64,
    pub settled_at: Option<i64>,
    pub deleted_at: Option<i64>,
    pub actioned_at: Option<i64>,
}

impl View for ThoughtChange {
    type V = ThoughtChangeDtoView;

    open spec fn view(&self) -> ThoughtChangeDtoView {
        ThoughtChangeDtoView {
            id: self.id@,
            text: self.text@,
            created_at: self.created_at,
            updated_at: self.updated_at,
            settled_at: self.settled_at,
            deleted_at: self.deleted_at,
            actioned_at: self.actioned_at,
        }
    }
}

impl ThoughtChange {
    /// The change as the apps see it.
    pub fn of(c: &StoreChange) -> (out: ThoughtChange)
        ensures
            out@ == change_dto(c@),
    {
        ThoughtChange {
            id: c.id.text(),
            text: c.text.clone(),
            created_at: c.created_at,
            updated_at: c.updated_at,
            settled_at: c.settled_at,
            deleted_at: c.deleted_at,
            actioned_at: c.actioned_at,
        }
    }

    /// The change as the store has it.
    pub fn to_change(&self) -> (r: Result<StoreChange, FfiError>)
        ensures
            match change_in(self@) {
                Some(change) => r matches Ok(c) && c@ == change,
                None => no_such_id(r, self@.id),
            },
    {
        match parse_id(self.id.as_str()) {
            Ok(id) => Ok(
                StoreChange {
                    id,
                    text: self.text.clone(),
                    created_at: self.created_at,
                    updated_at: self.updated_at,
                    settled_at: self.settled_at,
                    deleted_at: self.deleted_at,
                    actioned_at: self.actioned_at,
                },
            ),
            Err(e) => Err(e),
        }
    }
}

/// A position in the change feed, just past one change.
#[derive(Debug, Clone, PartialEq, Eq)]
pub struct SyncCursor {
    pub updated_at: i64,
    pub id: String,
}

impl SyncCursor {
    /// The cursor positioned just past `change`.
    pub fn after(change: &ThoughtChange) -> (cursor: SyncCursor)
        ensures
            cursor.updated_at == change.updated_at,
            cursor.id@ == change.id@,
    {
        SyncCursor { updated_at: change.updated_at, id: change.id.clone() }
    }
}

/// A change that was pushed, as it stood then.
#[derive(Debug, Clone, PartialEq, Eq)]
pub struct PushedChange {
    pub id: String,
    pub updated_at: i64,
}

/// What a `PushedChange` holds.
#[verifier::ext_equal]
pub struct PushedChangeView {
    pub id: Seq<char>,
    pub updated_at: i64,
}

impl View for PushedChange {
    type V = PushedChangeView;

    open spec fn view(&self) -> PushedChangeView {
        PushedChangeView { id: self.id@, updated_at: self.updated_at }
    }
}

/// The first of the pushed changes whose identifier is none.
pub open spec fn misnamed(pushed: Seq<PushedChangeView>) -> Option<PushedChangeView> {
    first_where(pushed, |p: PushedChangeView| parsed_uuid(p.id) is None)
}

/// The pushed changes as the store has them.
pub open spec fn pushed_rows(pushed: Seq<PushedChangeView>) -> Seq<(Seq<u8>, i64)> {
    Seq::new(pushed.len(), |i: int| (parsed_uuid(pushed[i].id).unwrap(), pushed[i].updated_at))
}

/// The apps get the changes, or are told the error.
pub open spec fn gives_changes(
    out: Result<Vec<ThoughtChange>, FfiError>,
    r: StoreResult<Vec<StoreChange>>,
) -> bool {
    match r {
        Ok(changes) => out matches Ok(c) && seen(c@) == Seq::new(
            changes@.len(),
            |i: int| change_dto(changes@[i]@),
        ),
        Err(e) => tells(out, ffi_error(e)),
    }
}

fn give_changes(r: StoreResult<Vec<StoreChange>>) -> (out: Result<Vec<ThoughtChange>, FfiError>)
    ensures
        gives_changes(out, r),
{
    let changes = match r {
        Ok(changes) => changes,
        Err(e) => return Err(FfiError::of(&e)),
    };
    let mut out: Vec<ThoughtChange> = Vec::new();
    let mut i: usize = 0;
    while i < changes.len()
        invariant
            i <= changes@.len(),
            out@.len() == i,
            forall|j: int| 0 <= j < i ==> (#[trigger] out@[j])@ == change_dto(changes@[j]@),
        decreases changes.len() - i,
    {
        out.push(ThoughtChange::of(&changes[i]));
        i += 1;
    }
    assert(seen(out@) =~= Seq::new(changes@.len(), |i: int| change_dto(changes@[i]@)));
    Ok(out)
}

/// The cursor of the store is where that of an app points.
pub open spec fn resumes_at(since: Option<StoreSyncCursor>, cursor: SyncCursor, id: Seq<u8>) -> bool {
    since matches Some(c) && c.updated_at == cursor.updated_at && c.id@ == id
}

/// The pushed changes as the store has them.
fn read_pushed(pushed: &Vec<PushedChange>) -> (r: Result<Vec<(Uuid, i64)>, FfiError>)
    ensures
        match misnamed(seen(pushed@)) {
            Some(p) => no_such_id(r, p.id),
            None => r matches Ok(rows) && pushes(rows@) == pushed_rows(seen(pushed@)),
        },
{
    let ghost all = seen(pushed@);
    let ghost p = |p: PushedChangeView| parsed_uuid(p.id) is None;
    let mut rows: Vec<(Uuid, i64)> = Vec::new();
    let mut i: usize = 0;
    while i < pushed.len()
        invariant
            i <= pushed@.len(),
            all == seen(pushed@),
            p == (|p: PushedChangeView| parsed_uuid(p.id) is None),
            first_where(all.take(i as int), p) is None,
            rows@.len() == i,
            forall|j: int|
                0 <= j < i ==> (#[trigger] rows@[j]).0@ == parsed_uuid(all[j].id).unwrap()
                    && rows@[j].1 == all[j].updated_at,
        decreases pushed.len() - i,
    {
        proof {
            lemma_take_step(all, p, i as int);
        }
        match parse_id(pushed[i].id.as_str()) {
            Ok(id) => {
                rows.push((id, pushed[i].updated_at));
            },
            Err(e) => {
                proof {
                    lemma_first_where_extends(all, p, i + 1);
                }
                return Err(e);
            },
        }
        i += 1;
    }
    assert(all.take(all.len() as int) =~= all);
    assert(pushes(rows@) =~= pushed_rows(all));
    Ok(rows)
}

impl<E: TextEmbedder> ThoughtStore<E> {
    /// Local changes that have yet to be pushed, oldest first, at most `limit`.
    pub fn pending_changes(&self, limit: u32) -> (out: Result<Vec<ThoughtChange>, FfiError>)
        ensures
            exists|r: StoreResult<Vec<StoreChange>>| #[trigger]
                gives_changes(out, r) && shows_changes(
                    r,
                    limited(outbox(self.inner@.thoughts), limit as nat),
                ),
    {
        give_changes(self.inner.pending_changes(limit as usize))
    }

    /// Every change after `since`, oldest first, at most `limit`.
    pub fn changes_since(&self, since: Option<SyncCursor>, limit: u32) -> (out: Result<
        Vec<ThoughtChange>,
        FfiError,
    >)
        ensures
            match since {
                None => exists|r: StoreResult<Vec<StoreChange>>| #[trigger]
                    gives_changes(out, r) && shows_changes(
                        r,
                        limited(feed(self.inner@.thoughts, None), limit as nat),
                    ),
                Some(cursor) => match parsed_uuid(cursor.id@) {
                    None => no_such_id(out, cursor.id@),
                    Some(id) => exists|r: StoreResult<Vec<StoreChange>>, from: Option<StoreSyncCursor>|
                        #![trigger gives_changes(out, r), resumes_at(from, cursor, id)]
                        resumes_at(from, cursor, id) && gives_changes(out, r) && shows_changes(
                            r,
                            limited(feed(self.inner@.thoughts, from), limit as nat),
                        ),
                },
            },
    {
        let from = match &since {
            Some(cursor) => match parse_id(cursor.id.as_str()) {
                Ok(id) => Some(StoreSyncCursor { updated_at: cursor.updated_at, id }),
                Err(e) => return Err(e),
            },
            None => None,
        };
        let r = self.inner.changes_since(from, limit as usize);
        let ghost found = r;
        let out = give_changes(r);
        proof {
            assert(gives_changes(out, found));
            if since is Some {
                let cursor = since.unwrap();
                assert(resumes_at(from, cursor, parsed_uuid(cursor.id@).unwrap()));
            }
        }
        out
    }

    /// Applies a change that was pulled: the last writer wins. Says whether it was
    /// applied.
    pub fn apply_remote(&mut self, change: &ThoughtChange) -> (out: Result<bool, FfiError>)
        ensures
            final(self).inner.follows(old(self).inner),
            sound(old(self).inner@) ==> sound(final(self).inner@),
            match change_in(change@) {
                None => no_such_id(out, change@.id) && *final(self) == *old(self),
                Some(c) => out == Ok::<bool, FfiError>(wins(old(self).inner@, c)) && arrives(
                    old(self).inner.embedder,
                    old(self).inner@,
                    final(self).inner@,
                    c,
                ),
            },
    {
        proof {
            self.inner.lemma_follows_itself();
        }
        match change.to_change() {
            Ok(c) => match self.inner.apply_remote(&c) {
                Ok(applied) => Ok(applied),
                Err(e) => Err(FfiError::of(&e)),
            },
            Err(e) => Err(e),
        }
    }

    /// The changes were pushed: they are no longer pending, unless they have
    /// changed since.
    pub fn mark_synced(&mut self, pushed: &Vec<PushedChange>) -> (out: Result<(), FfiError>)
        ensures
            final(self).inner.follows(old(self).inner),
            sound(old(self).inner@) ==> sound(final(self).inner@),
            match misnamed(seen(pushed@)) {
                Some(p) => no_such_id(out, p.id) && *final(self) == *old(self),
                None => out is Ok && final(self).inner@ == acknowledged(
                    old(self).inner@,
                    pushed_rows(seen(pushed@)),
                ),
            },
    {
        proof {
            self.inner.lemma_follows_itself();
        }
        match read_pushed(pushed) {
            Ok(rows) => match self.inner.mark_synced(&rows) {
                Ok(_) => Ok(()),
                Err(e) => Err(FfiError::of(&e)),
            },
            Err(e) => Err(e),
        }
    }
}

/// What an app hands back of the changes it has pushed.
pub open spec fn receipts(changes: Seq<StoreChange>) -> Seq<PushedChangeView> {
    Seq::new(
        changes.len(),
        |i: int|
            PushedChangeView {
                id: change_dto(changes[i]@).id,
                updated_at: change_dto(changes[i]@).updated_at,
            },
    )
}

/// What an app is handed as pending and hands back as pushed names the same
/// changes.
pub proof fn law_pushed_is_pending(changes: Seq<StoreChange>)
    ensures
        misnamed(receipts(changes)) is None,
        pushed_rows(receipts(changes)) == Seq::new(
            changes.len(),
            |i: int| (changes[i]@.id, changes[i]@.updated_at),
        ),
{
    let all = receipts(changes);
    assert forall|i: int| 0 <= i < all.len() implies parsed_uuid((#[trigger] all[i]).id) == Some(
        changes[i]@.id,
    ) by {
        law_uuid_text_round_trips(changes[i].id);
    }
    law_first_where(all, |p: PushedChangeView| parsed_uuid(p.id) is None);
    assert(pushed_rows(all) =~= Seq::new(
        changes.len(),
        |i: int| (changes[i]@.id, changes[i]@.updated_at),
    ));
}

} // verus!
