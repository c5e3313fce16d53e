//! Tags and saved searches as the native apps see them.

use vstd::prelude::*;
use vstd::string::*;

use crate::api::{saved_dto, SavedSearchDtoView};
use crate::embed::TextEmbedder;
use crate::error::Result as StoreResult;
use crate::ffi::{
    ffi_error, give_thoughts, gives_thoughts, no_such_id, parse_id, tells, FfiError, Thought,
    ThoughtStore,
};
use crate::ident::parsed_uuid;
use crate::query::{shows_saved, shows_some_time, suggested, tagged};
use crate::rank::ranked;
use crate::rows::{limited, seen};
use crate::saved_search::SavedSearch as StoreSavedSearch;
use crate::sorting::OldestSavedFirst;
use crate::sound::sound;
use crate::store::save_ended;
use crate::tables::{saved_besides, SavedRow, TablesView};
use crate::thought::Thought as StoreThought;

verus! {

/// A saved search. `id` is the identifier in lower-case hyphenated form.
#[derive(Debug, Clone, PartialEq, Eq)]
pub struct SavedSearch {
    pub id: String,
    pub name: String,
    pub query: String,
    pub created_at: i64,
}

impl View for SavedSearch {
    type V = SavedSearchDtoView;

    open spec fn view(&self) -> SavedSearchDtoView {
        SavedSearchDtoView {
            id: self.id@,
            name: self.name@,
            query: self.query@,
            created_at: self.created_at,
        }
    }
}

impl SavedSearch {
    /// The saved search as the apps see it.
    pub fn of(s: &StoreSavedSearch) -> (out: SavedSearch)
        ensures
            out@ == saved_dto(s@),
    {
        SavedSearch {
            id: s.id.text(),
            name: s.name.clone(),
            query: s.query.clone(),
            created_at: s.created_at,
        }
    }
}

/// The apps get the saved search, or are told the error.
pub open spec fn gives_search(
    out: Result<SavedSearch, FfiError>,
    r: StoreResult<StoreSavedSearch>,
) -> bool {
    match r {
        Ok(saved) => out matches Ok(s) && s@ == saved_dto(saved@),
        Err(e) => tells(out, ffi_error(e)),
    }
}

/// The apps get the saved searches, or are told the error.
pub open spec fn gives_searches(
    out: Result<Vec<SavedSearch>, FfiError>,
    r: StoreResult<Vec<StoreSavedSearch>>,
) -> bool {
    match r {
        Ok(saved) => out matches Ok(s) && seen(s@) == Seq::new(
            saved@.len(),
            |i: int| saved_dto(saved@[i]@),
        ),
        Err(e) => tells(out, ffi_error(e)),
    }
}

impl<E: TextEmbedder> ThoughtStore<E> {
    /// The tags in use whose name starts with `prefix`, up to ASCII case, most
    /// used first.
    pub fn tags_with_prefix(&self, prefix: &str, limit: u32) -> (out: Result<
        Vec<String>,
        FfiError,
    >)
        ensures
            ({
                let found = limited(suggested(self.inner@, prefix@), limit as nat);
                out matches Ok(names) && seen(names@) == Seq::new(
                    found.len(),
                    |i: int| found[i].name,
                )
            }),
    {
        match self.inner.tags_with_prefix(prefix, limit as usize) {
            Ok(names) => Ok(names),
            Err(e) => Err(FfiError::of(&e)),
        }
    }

    /// The live thoughts that carry the tag, up to case, newest first.
    pub fn thoughts_with_tag(&self, name: &str, limit: u32) -> (out: Result<
        Vec<Thought>,
        FfiError,
    >)
        ensures
            exists|r: StoreResult<Vec<StoreThought>>| #[trigger]
                gives_thoughts(out, r) && shows_some_time(
                    r,
                    limited(tagged(self.inner@, name@), limit as nat),
                ),
    {
        give_thoughts(self.inner.thoughts_with_tag(name, limit as usize))
    }

    /// Saves a named query. `query` is kept as the user typed it.
    pub fn create_saved_search(&mut self, name: &str, query: &str) -> (out: Result<
        SavedSearch,
        FfiError,
    >)
        ensures
            final(self).inner.follows(old(self).inner),
            sound(old(self).inner@) ==> sound(final(self).inner@),
            exists|r: StoreResult<StoreSavedSearch>| #[trigger]
                save_ended(old(self).inner, final(self).inner, name@, query@, r) && gives_search(
                    out,
                    r,
                ),
    {
        let r = self.inner.create_saved_search(name, query);
        assert(save_ended(old(self).inner, self.inner, name@, query@, r));
        match &r {
            Ok(saved) => Ok(SavedSearch::of(saved)),
            Err(e) => Err(FfiError::of(e)),
        }
    }

    /// Every saved search, oldest first.
    pub fn list_saved_searches(&self) -> (out: Result<Vec<SavedSearch>, FfiError>)
        ensures
            exists|r: StoreResult<Vec<StoreSavedSearch>>| #[trigger]
                gives_searches(out, r) && shows_saved(
                    r,
                    ranked::<SavedRow, OldestSavedFirst>(self.inner@.saved),
                ),
    {
        let r = self.inner.list_saved_searches();
        let out = match &r {
            Ok(saved) => {
                let mut list: Vec<SavedSearch> = Vec::new();
                let mut i: usize = 0;
                while i < saved.len()
                    invariant
                        i <= saved@.len(),
                        list@.len() == i,
                        forall|j: int|
                            0 <= j < i ==> (#[trigger] list@[j])@ == saved_dto(saved@[j]@),
                    decreases saved.len() - i,
                {
                    list.push(SavedSearch::of(&saved[i]));
                    i += 1;
                }
                assert(seen(list@) =~= Seq::new(saved@.len(), |i: int| saved_dto(saved@[i]@)));
                Ok(list)
            },
            Err(e) => Err(FfiError::of(e)),
        };
        assert(gives_searches(out, r));
        out
    }

    /// Deletes a saved search. One that is not there is no error.
    pub fn delete_saved_search(&mut self, id: &str) -> (out: Result<(), FfiError>)
        ensures
            final(self).inner.follows(old(self).inner),
            sound(old(self).inner@) ==> sound(final(self).inner@),
            match parsed_uuid(id@) {
                None => no_such_id(out, id@) && *final(self) == *old(self),
                Some(bytes) => out is Ok && final(self).inner@ == (TablesView {
                    saved: saved_besides(old(self).inner@.saved, bytes),
                    ..old(self).inner@
                }),
            },
    {
        proof {
            self.inner.lemma_follows_itself();
        }
        match parse_id(id) {
            Ok(uuid) => match self.inner.delete_saved_search(uuid) {
                Ok(_) => Ok(()),
                Err(e) => Err(FfiError::of(&e)),
            },
            Err(e) => Err(e),
        }
    }
}

} // verus!
