//! The store: what it holds, and the operations that change it.

use vstd::prelude::*;
use vstd::string::*;

use crate::clock::{clock_failed, clock_shows, is_settled_now, now_unix_millis};
use crate::embed::{vector_to_blob, TextEmbedder};
use crate::error::{Error, Result};
use crate::ident::{is_random, Uuid};
use crate::mirror::{reconciled, with_tags_on};
use crate::model::{
    acknowledged, applied, buried, changed, created, edited, find_live, find_row, live, new_row,
    revectored, row_of, thought_of, wins,
};
use crate::rows::{
    any_where, first_where, law_first_where, lemma_first_where_extends, lemma_take_step, seen,
};
use crate::saved_search::{SavedSearch, SavedSearchView};
use crate::sound::{
    law_acknowledged_sound, law_applied_sound, law_buried_sound, law_changed_sound,
    law_created_sound, law_edited_sound, law_saved_sound, law_unsaved_sound, sound,
};
use crate::sync::{ThoughtChange, ThoughtChangeView};
use crate::tables::{
    affected, law_replay_splits, links_besides, no_rows, replay, saved_besides, step, updated,
    EmbeddingRow, HistoryRow, RowChange, RowChangeView, SavedRow, SavedRowView, Statement, Tables,
    TablesView, ThoughtRow, ThoughtRowView,
};
use crate::tags::{parse_tags, tag_list};
use crate::thought::Thought;

verus! {

/// A store of thoughts.
///
/// `tables` is what it holds. `journal` lists the statements that led there
/// since storage last caught up, for storage to execute.
pub struct ThoughtStore<E: TextEmbedder> {
    pub tables: Tables,
    pub journal: Vec<Statement>,
    /// When attached, new and edited thoughts are embedded on write and semantic
    /// search becomes available. The model may not be present on a device;
    /// everything else works without it.
    pub embedder: Option<E>,
}

impl<E: TextEmbedder> View for ThoughtStore<E> {
    type V = TablesView;

    open spec fn view(&self) -> TablesView {
        self.tables@
    }
}

/// What the embedder may answer for a text.
pub open spec fn answers<E: TextEmbedder>(e: E, text: Seq<char>, r: Result<Vec<u32>>) -> bool {
    exists|s: &str| s@ == text && #[trigger] call_ensures(E::embed, (&e, s), r)
}

/// A vector that the store may get for a text: the embedder's, or none where no
/// embedder is attached or it fails.
pub open spec fn embeds<E: TextEmbedder>(
    embedder: Option<E>,
    text: Seq<char>,
    vector: Option<Seq<u32>>,
) -> bool {
    match embedder {
        Some(e) => exists|r: Result<Vec<u32>>|
            #[trigger] answers(e, text, r) && vector == (match r {
                Ok(v) => Some(v@),
                Err(_) => None,
            }),
        None => vector is None,
    }
}

/// The components of a vector, if there is one.
pub open spec fn components(vector: Option<Vec<u32>>) -> Option<Seq<u32>> {
    match vector {
        Some(v) => Some(v@),
        None => None,
    }
}

/// The error for a thought that is not there.
pub open spec fn not_found(e: Error, id: Uuid) -> bool {
    e == (Error::NotFound { id })
}

/// The error for an identifier that is taken.
pub open spec fn taken(e: Error) -> bool {
    e matches Error::Storage { message } && message@ == "UNIQUE constraint failed: thoughts.id"@
}

/// How capturing a text ended: a thought of the current time under a fresh
/// identifier, with the vector that the embedder gave if it did. Nothing was
/// stored if the clock failed or the identifier is taken.
pub open spec fn create_ended<E: TextEmbedder>(
    before: ThoughtStore<E>,
    after: ThoughtStore<E>,
    text: Seq<char>,
    r: Result<Thought>,
) -> bool {
    match r {
        Ok(thought) => {
            let now = thought.created_at;
            &&& clock_shows(now)
            &&& is_random(thought.id@)
            &&& find_row(before@.thoughts, thought.id@) is None
            &&& thought@ == thought_of(new_row(thought.id@, text, now), now)
            &&& exists|vector: Option<Seq<u32>>| #[trigger]
                embeds(before.embedder, text, vector) && after@ == created(
                    before@,
                    thought.id@,
                    text,
                    now,
                    vector,
                )
        },
        Err(e) => {
            &&& clock_failed(e) || (taken(e) && exists|id: Seq<u8>|
                is_random(id) && #[trigger] find_row(before@.thoughts, id) is Some)
            &&& after@ == before@
        },
    }
}

/// The error of an operation on one thought, with nothing stored: the clock
/// failed, or the thought is not there.
pub open spec fn failed<E: TextEmbedder>(
    before: ThoughtStore<E>,
    after: ThoughtStore<E>,
    id: Uuid,
    e: Error,
) -> bool {
    &&& clock_failed(e) || (not_found(e, id) && find_live(before@.thoughts, id@) is None)
    &&& after@ == before@
}

/// How editing a thought ended.
pub open spec fn update_ended<E: TextEmbedder>(
    before: ThoughtStore<E>,
    after: ThoughtStore<E>,
    id: Uuid,
    text: Seq<char>,
    r: Result<Thought>,
) -> bool {
    match r {
        Ok(thought) => {
            let now = thought.updated_at;
            let change = RowChangeView::Edit { id: id@, text, at: now };
            &&& clock_shows(now)
            &&& thought.id == id
            &&& find_live(before@.thoughts, id@) matches Some(row)
            &&& thought@ == thought_of(change.makes(row), now)
            &&& exists|vector: Option<Seq<u32>>| #[trigger]
                embeds(before.embedder, text, vector) && after@ == edited(
                    before@,
                    row,
                    text,
                    now,
                    vector,
                )
        },
        Err(e) => failed(before, after, id, e),
    }
}

/// How deleting a thought ended.
pub open spec fn delete_ended<E: TextEmbedder>(
    before: ThoughtStore<E>,
    after: ThoughtStore<E>,
    id: Uuid,
    r: Result<()>,
) -> bool {
    match r {
        Ok(_) => {
            &&& find_live(before@.thoughts, id@) is Some
            &&& exists|now: i64|
                clock_shows(now) && #[trigger] buried(before@, id@, now) == after@
        },
        Err(e) => failed(before, after, id, e),
    }
}

/// How settling the live thoughts ended: those that were are counted.
pub open spec fn settle_ended<E: TextEmbedder>(
    before: ThoughtStore<E>,
    after: ThoughtStore<E>,
    r: Result<usize>,
) -> bool {
    match r {
        Ok(n) => exists|now: i64|
            #![trigger changed(before@, RowChangeView::Settle { at: now })]
            clock_shows(now) && after@ == changed(before@, RowChangeView::Settle { at: now }) && n == affected(
                before@.thoughts,
                RowChangeView::Settle { at: now },
            ),
        Err(e) => clock_failed(e) && after@ == before@,
    }
}

/// How marking a thought as dealt with, or no longer so, ended.
pub open spec fn action_ended<E: TextEmbedder>(
    before: ThoughtStore<E>,
    after: ThoughtStore<E>,
    id: Uuid,
    done: bool,
    r: Result<Thought>,
) -> bool {
    match r {
        Ok(thought) => {
            let now = thought.updated_at;
            let actioned_at = if done {
                Some(now)
            } else {
                None
            };
            let change = RowChangeView::Action { id: id@, actioned_at, at: now };
            &&& clock_shows(now)
            &&& thought.id == id
            &&& find_live(before@.thoughts, id@) matches Some(row)
            &&& thought@ == thought_of(change.makes(row), now)
            &&& after@ == changed(before@, change)
        },
        Err(e) => failed(before, after, id, e),
    }
}

/// How saving a search ended: it is kept under a fresh identifier with the
/// current time. Nothing was stored if the clock failed or the identifier is
/// taken.
pub open spec fn save_ended<E: TextEmbedder>(
    before: ThoughtStore<E>,
    after: ThoughtStore<E>,
    name: Seq<char>,
    query: Seq<char>,
    r: Result<SavedSearch>,
) -> bool {
    match r {
        Ok(search) => {
            let row = SavedRowView {
                id: search.id@,
                name,
                query,
                created_at: search.created_at,
            };
            &&& clock_shows(search.created_at)
            &&& is_random(search.id@)
            &&& !is_saved(before@.saved, search.id@)
            &&& search@ == saved_search_of(row)
            &&& after@ == (TablesView { saved: before@.saved.push(row), ..before@ })
        },
        Err(e) => {
            &&& clock_failed(e) || (saved_taken(e) && exists|id: Seq<u8>|
                is_random(id) && #[trigger] is_saved(before@.saved, id))
            &&& after@ == before@
        },
    }
}

/// A vector that the store may get for a change: a tombstone has none.
pub open spec fn change_embeds<E: TextEmbedder>(
    embedder: Option<E>,
    change: ThoughtChangeView,
    vector: Option<Seq<u32>>,
) -> bool {
    if change.deleted_at is Some {
        vector is None
    } else {
        embeds(embedder, change.text, vector)
    }
}

/// What a change from another device makes of the tables: it is applied if it
/// wins, with the vector that the embedder gave for live text, and ignored
/// otherwise.
pub open spec fn arrives<E: TextEmbedder>(
    embedder: Option<E>,
    before: TablesView,
    after: TablesView,
    change: ThoughtChangeView,
) -> bool {
    if wins(before, change) {
        exists|vector: Option<Seq<u32>>| #[trigger]
            change_embeds(embedder, change, vector) && after == applied(before, change, vector)
    } else {
        after == before
    }
}

impl<E: TextEmbedder> ThoughtStore<E> {
    /// This store comes from an earlier state of it by the statements that its
    /// journal has more, and has the same embedder.
    pub open spec fn follows(self, earlier: Self) -> bool {
        &&& self.embedder == earlier.embedder
        &&& earlier.journal@.is_prefix_of(self.journal@)
        &&& self@ == replay(earlier@, self.journal@.skip(earlier.journal@.len() as int))
    }

    pub(crate) proof fn lemma_follows_itself(self)
        ensures
            self.follows(self),
    {
        assert(self.journal@.skip(self.journal@.len() as int) =~= Seq::<Statement>::empty());
    }

    pub(crate) proof fn lemma_follows_on(earlier: Self, then: Self, now: Self)
        requires
            then.follows(earlier),
            now.follows(then),
        ensures
            now.follows(earlier),
    {
        let a = earlier.journal@.len() as int;
        let b = then.journal@.len() as int;
        let first = then.journal@.skip(a);
        let rest = now.journal@.skip(b);
        assert(now.journal@.skip(a) =~= first + rest) by {
            assert(now.journal@.take(b) =~= then.journal@);
        }
        law_replay_splits(earlier@, first, rest);
        assert(earlier.journal@.is_prefix_of(now.journal@)) by {
            assert(now.journal@.take(b) =~= then.journal@);
            assert(earlier.journal@ =~= now.journal@.subrange(0, a));
        }
    }

    /// An empty store.
    pub fn open_in_memory() -> (store: Self)
        ensures
            store@ == no_rows(),
            store.journal@ == Seq::<Statement>::empty(),
            store.embedder is None,
    {
        ThoughtStore { tables: Tables::new(), journal: Vec::new(), embedder: None }
    }

    /// A store that holds these tables.
    pub fn from_tables(tables: Tables, embedder: Option<E>) -> (store: Self)
        ensures
            store@ == tables@,
            store.journal@ == Seq::<Statement>::empty(),
            store.embedder == embedder,
    {
        ThoughtStore { tables, journal: Vec::new(), embedder }
    }

    /// Hands out the statements that storage has yet to execute.
    pub fn take_journal(&mut self) -> (statements: Vec<Statement>)
        ensures
            statements@ == old(self).journal@,
            final(self).journal@ == Seq::<Statement>::empty(),
            final(self)@ == old(self)@,
            final(self).embedder == old(self).embedder,
    {
        let mut statements: Vec<Statement> = Vec::new();
        std::mem::swap(&mut statements, &mut self.journal);
        statements
    }

    /// Attaches an embedder. From here on, captures and edits are embedded on
    /// write; `embed_missing` makes up for those before.
    pub fn set_embedder(&mut self, embedder: E)
        ensures
            final(self).embedder == Some(embedder),
            final(self)@ == old(self)@,
            final(self).journal@ == old(self).journal@,
    {
        self.embedder = Some(embedder);
    }

    /// Whether an embedder is attached.
    pub fn has_embedder(&self) -> (r: bool)
        ensures
            r == self.embedder is Some,
    {
        self.embedder.is_some()
    }

    /// Executes a statement and notes it in the journal. Says how many thoughts
    /// an update applied to.
    pub(crate) fn run(&mut self, statement: Statement) -> (n: usize)
        ensures
            final(self)@ == step(old(self)@, statement),
            final(self).follows(*old(self)),
            n == (match statement {
                Statement::UpdateThoughts { change } => affected(old(self)@.thoughts, change@),
                _ => 0,
            }),
    {
        let ghost before = *self;
        let n = self.tables.execute(&statement);
        self.journal.push(statement);
        proof {
            let new = self.journal@.skip(before.journal@.len() as int);
            assert(new =~= seq![statement]);
            assert(new.drop_last() =~= Seq::<Statement>::empty());
            assert(replay(before@, new.drop_last()) == before@);
        }
        n
    }

    /// The place of the row of that thought, be it a tombstone.
    fn row_at(&self, id: &Uuid) -> (r: Option<usize>)
        ensures
            match r {
                Some(i) => i < self.tables.thoughts@.len() && find_row(self@.thoughts, id@)
                    == Some(self.tables.thoughts@[i as int]@),
                None => find_row(self@.thoughts, id@) is None,
            },
    {
        let ghost all = self@.thoughts;
        let ghost p = |row: ThoughtRowView| row.id == id@;
        let mut i: usize = 0;
        while i < self.tables.thoughts.len()
            invariant
                i <= self.tables.thoughts@.len(),
                all == self@.thoughts,
                p == (|row: ThoughtRowView| row.id == id@),
                first_where(all.take(i as int), p) is None,
            decreases self.tables.thoughts.len() - i,
        {
            proof {
                lemma_take_step(all, p, i as int);
            }
            if id.is_blob(self.tables.thoughts[i].id.as_slice()) {
                proof {
                    lemma_first_where_extends(all, p, i + 1);
                }
                return Some(i);
            }
            i += 1;
        }
        assert(all.take(all.len() as int) =~= all);
        None
    }

    /// The place of the row of that thought, unless it is deleted.
    pub(crate) fn live_row_at(&self, id: &Uuid) -> (r: Option<usize>)
        ensures
            match r {
                Some(i) => i < self.tables.thoughts@.len() && find_live(self@.thoughts, id@)
                    == Some(self.tables.thoughts@[i as int]@),
                None => find_live(self@.thoughts, id@) is None,
            },
    {
        let ghost all = self@.thoughts;
        let ghost p = |row: ThoughtRowView| row.id == id@ && live(row);
        let mut i: usize = 0;
        while i < self.tables.thoughts.len()
            invariant
                i <= self.tables.thoughts@.len(),
                all == self@.thoughts,
                p == (|row: ThoughtRowView| row.id == id@ && live(row)),
                first_where(all.take(i as int), p) is None,
            decreases self.tables.thoughts.len() - i,
        {
            proof {
                lemma_take_step(all, p, i as int);
            }
            if self.tables.thoughts[i].deleted_at.is_none() && id.is_blob(
                self.tables.thoughts[i].id.as_slice(),
            ) {
                proof {
                    lemma_first_where_extends(all, p, i + 1);
                }
                return Some(i);
            }
            i += 1;
        }
        assert(all.take(all.len() as int) =~= all);
        None
    }

    /// Embeds `text` if an embedder is attached. Its errors are swallowed:
    /// capture and edit must never fail because the model did. `embed_missing`
    /// picks the thought up later.
    fn try_embed(&self, text: &str) -> (vector: Option<Vec<u32>>)
        ensures
            embeds(self.embedder, text@, components(vector)),
    {
        match &self.embedder {
            Some(embedder) => {
                let r = embedder.embed(text);
                assert(call_ensures(E::embed, (embedder, text), r));
                assert(answers(*embedder, text@, r));
                match r {
                    Ok(vector) => Some(vector),
                    Err(_) => None,
                }
            },
            None => None,
        }
    }

    /// Sets the tags of a thought to those in `text`, and drops any tag that no
    /// thought carries any more, so that autocomplete only ever offers tags in
    /// use. The empty text clears them.
    pub fn reconcile_tags(&mut self, thought_id: &Uuid, text: &str)
        ensures
            final(self)@ == reconciled(old(self)@, thought_id@, text@),
            final(self).follows(*old(self)),
    {
        let ghost start = *self;
        self.run(Statement::DeleteLinks { thought_id: thought_id.to_blob() });
        let names = parse_tags(text);
        let ghost cleared = TablesView {
            links: links_besides(start@.links, thought_id@),
            ..start@
        };
        let ghost all = tag_list(text@);
        let mut i: usize = 0;
        assert(all.take(0) =~= Seq::empty());
        while i < names.len()
            invariant
                i <= names@.len(),
                seen(names@) == all,
                self@ == with_tags_on(cleared, thought_id@, all.take(i as int)),
                self.follows(start),
            decreases names.len() - i,
        {
            let ghost at = *self;
            self.run(Statement::AddTag { name: names[i].clone() });
            let ghost mid = *self;
            self.run(
                Statement::AddLink { thought_id: thought_id.to_blob(), name: names[i].clone() },
            );
            proof {
                Self::lemma_follows_on(start, at, mid);
                Self::lemma_follows_on(start, mid, *self);
                assert(all.take(i + 1).drop_last() =~= all.take(i as int));
                assert(all.take(i + 1).last() == names@[i as int]@);
            }
            i += 1;
        }
        assert(all.take(all.len() as int) =~= all);
        let ghost at = *self;
        self.run(Statement::SweepTags);
        proof {
            Self::lemma_follows_on(start, at, *self);
        }
    }

    /// Captures a thought under the identifier `id` at the time `now`.
    pub fn create_at(&mut self, id: Uuid, text: &str, now: i64, vector: Option<Vec<u32>>) -> (r:
        Result<Thought>)
        ensures
            final(self).follows(*old(self)),
            sound(old(self)@) ==> sound(final(self)@),
            match r {
                Ok(thought) => {
                    &&& find_row(old(self)@.thoughts, id@) is None
                    &&& final(self)@ == created(old(self)@, id@, text@, now, components(vector))
                    &&& thought@ == thought_of(new_row(id@, text@, now), now)
                    &&& thought.id == id
                },
                Err(e) => {
                    &&& find_row(old(self)@.thoughts, id@) is Some
                    &&& taken(e)
                    &&& final(self)@ == old(self)@
                },
            },
    {
        let ghost start = *self;
        proof {
            start.lemma_follows_itself();
        }
        if self.row_at(&id).is_some() {
            return Err(
                Error::Storage { message: "UNIQUE constraint failed: thoughts.id".to_owned() },
            );
        }
        let row = ThoughtRow {
            id: id.to_blob(),
            text: text.to_owned(),
            created_at: now,
            updated_at: now,
            settled_at: None,
            deleted_at: None,
            actioned_at: None,
            dirty: true,
        };
        assert(row@ =~= new_row(id@, text@, now));
        self.run(Statement::InsertThought { row });
        match &vector {
            Some(v) => {
                let ghost at = *self;
                self.run(
                    Statement::PutEmbedding {
                        row: EmbeddingRow { thought_id: id.to_blob(), vector: vector_to_blob(v) },
                    },
                );
                proof {
                    Self::lemma_follows_on(start, at, *self);
                }
            },
            None => {},
        }
        let ghost at = *self;
        self.reconcile_tags(&id, text);
        proof {
            Self::lemma_follows_on(start, at, *self);
            if sound(start@) {
                law_created_sound(start@, id@, text@, now, components(vector));
            }
        }
        Ok(
            Thought {
                id,
                text: text.to_owned(),
                created_at: now,
                updated_at: now,
                is_settled: false,
                is_actioned: false,
            },
        )
    }

    /// Captures a new thought with the current time. Fails if the clock does, or
    /// in the event that the fresh identifier is taken.
    pub fn create(&mut self, text: &str) -> (r: Result<Thought>)
        ensures
            final(self).follows(*old(self)),
            sound(old(self)@) ==> sound(final(self)@),
            create_ended(*old(self), *final(self), text@, r),
    {
        proof {
            self.lemma_follows_itself();
        }
        let now = match now_unix_millis() {
            Ok(now) => now,
            Err(e) => return Err(e),
        };
        let id = Uuid::new_v4();
        let vector = self.try_embed(text);
        self.create_at(id, text, now, vector)
    }

    /// Replaces the text of `id` at the time `now`. If the thought is settled by
    /// then, the text it had is archived; either way it is live again.
    pub fn update_thought_at(
        &mut self,
        id: Uuid,
        new_text: &str,
        now: i64,
        vector: Option<Vec<u32>>,
    ) -> (r: Result<Thought>)
        ensures
            final(self).follows(*old(self)),
            sound(old(self)@) ==> sound(final(self)@),
            match find_live(old(self)@.thoughts, id@) {
                Some(row) => {
                    &&& final(self)@ == edited(
                        old(self)@,
                        row,
                        new_text@,
                        now,
                        components(vector),
                    )
                    &&& r matches Ok(thought) && thought.id == id && thought@ == thought_of(
                        (RowChangeView::Edit { id: id@, text: new_text@, at: now }).makes(row),
                        now,
                    )
                },
                None => r matches Err(e) && not_found(e, id) && final(self)@ == old(self)@,
            },
    {
        let ghost start = *self;
        proof {
            start.lemma_follows_itself();
            law_first_where(
                start@.thoughts,
                |row: ThoughtRowView| row.id == id@ && live(row),
            );
        }
        let i = match self.live_row_at(&id) {
            Some(i) => i,
            None => return Err(Error::NotFound { id }),
        };
        let ghost row = self.tables.thoughts@[i as int]@;
        let prior_text = self.tables.thoughts[i].text.clone();
        let created_at: i64 = self.tables.thoughts[i].created_at;
        let is_actioned = self.tables.thoughts[i].actioned_at.is_some();
        if is_settled_now(
            self.tables.thoughts[i].updated_at,
            self.tables.thoughts[i].settled_at,
            now,
        ) {
            let entry = HistoryRow { thought_id: id.to_blob(), text: prior_text, archived_at: now };
            self.run(Statement::InsertHistory { row: entry });
        }
        let ghost at = *self;
        self.run(
            Statement::UpdateThoughts {
                change: RowChange::Edit { id: id.to_blob(), text: new_text.to_owned(), at: now },
            },
        );
        proof {
            Self::lemma_follows_on(start, at, *self);
        }
        let ghost at = *self;
        self.put_vector(&id, &vector);
        proof {
            Self::lemma_follows_on(start, at, *self);
        }
        let ghost at = *self;
        self.reconcile_tags(&id, new_text);
        proof {
            Self::lemma_follows_on(start, at, *self);
            if sound(start@) {
                law_edited_sound(start@, row, new_text@, now, components(vector));
            }
        }
        Ok(
            Thought {
                id,
                text: new_text.to_owned(),
                created_at,
                updated_at: now,
                is_settled: false,
                is_actioned,
            },
        )
    }

    /// The text of a thought has changed: stores its new vector, or drops the
    /// stale one where there is none.
    fn put_vector(&mut self, id: &Uuid, vector: &Option<Vec<u32>>)
        ensures
            final(self).follows(*old(self)),
            final(self)@ == (TablesView {
                embeddings: revectored(
                    old(self)@.embeddings,
                    id@,
                    components(*vector),
                ),
                ..old(self)@
            }),
    {
        match vector {
            Some(v) => {
                self.run(
                    Statement::PutEmbedding {
                        row: EmbeddingRow { thought_id: id.to_blob(), vector: vector_to_blob(v) },
                    },
                );
            },
            None => {
                self.run(Statement::DeleteEmbedding { thought_id: id.to_blob() });
            },
        }
    }

    /// Replaces the text of `id`. If the thought is settled, the text it had is
    /// archived; either way it is live again.
    pub fn update_thought(&mut self, id: Uuid, new_text: &str) -> (r: Result<Thought>)
        ensures
            final(self).follows(*old(self)),
            sound(old(self)@) ==> sound(final(self)@),
            update_ended(*old(self), *final(self), id, new_text@, r),
    {
        proof {
            self.lemma_follows_itself();
        }
        let now = match now_unix_millis() {
            Ok(now) => now,
            Err(e) => return Err(e),
        };
        let vector = self.try_embed(new_text);
        self.update_thought_at(id, new_text, now, vector)
    }

    /// Deletes the thought at the time `now`. The row stays as a tombstone; the
    /// vector and the tags go, the edit history stays.
    pub fn delete_thought_at(&mut self, id: Uuid, now: i64) -> (r: Result<()>)
        ensures
            final(self).follows(*old(self)),
            sound(old(self)@) ==> sound(final(self)@),
            match find_live(old(self)@.thoughts, id@) {
                Some(_) => r is Ok && final(self)@ == buried(old(self)@, id@, now),
                None => r matches Err(e) && not_found(e, id) && final(self)@ == old(self)@,
            },
    {
        let ghost start = *self;
        proof {
            start.lemma_follows_itself();
            reveal_strlit("");
        }
        if self.live_row_at(&id).is_none() {
            return Err(Error::NotFound { id });
        }
        self.run(
            Statement::UpdateThoughts { change: RowChange::Bury { id: id.to_blob(), at: now } },
        );
        let ghost at = *self;
        self.run(Statement::DeleteEmbedding { thought_id: id.to_blob() });
        proof {
            Self::lemma_follows_on(start, at, *self);
        }
        let ghost at = *self;
        self.reconcile_tags(&id, "");
        proof {
            Self::lemma_follows_on(start, at, *self);
            assert(""@ =~= Seq::<char>::empty());
            if sound(start@) {
                law_buried_sound(start@, id@, now);
            }
        }
        Ok(())
    }

    /// Deletes the thought.
    pub fn delete_thought(&mut self, id: Uuid) -> (r: Result<()>)
        ensures
            final(self).follows(*old(self)),
            sound(old(self)@) ==> sound(final(self)@),
            delete_ended(*old(self), *final(self), id, r),
    {
        proof {
            self.lemma_follows_itself();
        }
        match now_unix_millis() {
            Ok(now) => self.delete_thought_at(id, now),
            Err(e) => Err(e),
        }
    }

    /// Settles every live thought at the time `now`, and says how many those
    /// were.
    pub fn settle_all_live_at(&mut self, now: i64) -> (n: usize)
        ensures
            final(self).follows(*old(self)),
            sound(old(self)@) ==> sound(final(self)@),
            final(self)@ == changed(old(self)@, RowChangeView::Settle { at: now }),
            n == affected(old(self)@.thoughts, RowChangeView::Settle { at: now }),
    {
        proof {
            if sound(self@) {
                law_changed_sound(self@, RowChangeView::Settle { at: now });
            }
        }
        self.run(Statement::UpdateThoughts { change: RowChange::Settle { at: now } })
    }

    /// Settles every live thought. Called when the app goes to the background,
    /// so that the next edit counts as a deliberate modification.
    pub fn settle_all_live(&mut self) -> (r: Result<usize>)
        ensures
            final(self).follows(*old(self)),
            sound(old(self)@) ==> sound(final(self)@),
            settle_ended(*old(self), *final(self), r),
    {
        proof {
            self.lemma_follows_itself();
        }
        match now_unix_millis() {
            Ok(now) => Ok(self.settle_all_live_at(now)),
            Err(e) => Err(e),
        }
    }

    /// Whether a change from another device is later than what is stored.
    fn change_wins(&self, change: &ThoughtChange) -> (r: bool)
        ensures
            r == wins(self@, change@),
    {
        match self.row_at(&change.id) {
            Some(i) => self.tables.thoughts[i].updated_at < change.updated_at,
            None => true,
        }
    }

    /// Applies a change received from another device, given the vector of its
    /// text. The last writer wins: the change is applied if its thought is new
    /// here or was last modified before it. Says whether it was.
    pub fn apply_remote_with(&mut self, change: &ThoughtChange, vector: Option<Vec<u32>>) -> (r:
        bool)
        ensures
            final(self).follows(*old(self)),
            sound(old(self)@) && (change.deleted_at is Some ==> vector is None) ==> sound(
                final(self)@,
            ),
            r == wins(old(self)@, change@),
            final(self)@ == (if r {
                applied(old(self)@, change@, components(vector))
            } else {
                old(self)@
            }),
    {
        let ghost start = *self;
        proof {
            start.lemma_follows_itself();
            reveal_strlit("");
            assert(""@ =~= Seq::<char>::empty());
        }
        if !self.change_wins(change) {
            return false;
        }
        let row = ThoughtRow {
            id: change.id.to_blob(),
            text: change.text.clone(),
            created_at: change.created_at,
            updated_at: change.updated_at,
            settled_at: change.settled_at,
            deleted_at: change.deleted_at,
            actioned_at: change.actioned_at,
            dirty: false,
        };
        assert(row@ =~= row_of(change@));
        if self.row_at(&change.id).is_some() {
            self.run(Statement::UpdateThoughts { change: RowChange::Overwrite { row } });
        } else {
            self.run(Statement::InsertThought { row });
        }
        let ghost at = *self;
        self.put_vector(&change.id, &vector);
        proof {
            Self::lemma_follows_on(start, at, *self);
        }
        let ghost at = *self;
        let tag_text = if change.deleted_at.is_some() {
            ""
        } else {
            change.text.as_str()
        };
        self.reconcile_tags(&change.id, tag_text);
        proof {
            Self::lemma_follows_on(start, at, *self);
            if sound(start@) && (change.deleted_at is Some ==> vector is None) {
                law_applied_sound(start@, change@, components(vector));
            }
        }
        true
    }

    /// Applies a change received from another device: the last writer wins. The
    /// row is clean afterwards, as it came from the peer. Live text is embedded
    /// if it can be, a tombstone never. Says whether the change was applied.
    pub fn apply_remote(&mut self, change: &ThoughtChange) -> (r: Result<bool>)
        ensures
            final(self).follows(*old(self)),
            sound(old(self)@) ==> sound(final(self)@),
            r == Ok::<bool, Error>(wins(old(self)@, change@)),
            arrives(old(self).embedder, old(self)@, final(self)@, change@),
    {
        proof {
            self.lemma_follows_itself();
        }
        if !self.change_wins(change) {
            return Ok(false);
        }
        let vector = if change.deleted_at.is_none() {
            self.try_embed(change.text.as_str())
        } else {
            None
        };
        assert(change_embeds(self.embedder, change@, components(vector)));
        Ok(self.apply_remote_with(change, vector))
    }

    /// Rows that were pushed are no longer dirty, unless they have changed since
    /// they were read: those are pushed again.
    pub fn mark_synced(&mut self, pushed: &Vec<(Uuid, i64)>) -> (r: Result<()>)
        ensures
            final(self).follows(*old(self)),
            sound(old(self)@) ==> sound(final(self)@),
            r is Ok,
            final(self)@ == acknowledged(old(self)@, pushes(pushed@)),
    {
        let ghost start = *self;
        let ghost all = pushes(pushed@);
        proof {
            start.lemma_follows_itself();
            assert(all.take(0) =~= Seq::empty());
        }
        let mut i: usize = 0;
        while i < pushed.len()
            invariant
                i <= pushed@.len(),
                all == pushes(pushed@),
                self.follows(start),
                self@ == acknowledged(start@, all.take(i as int)),
            decreases pushed.len() - i,
        {
            let ghost at = *self;
            self.run(
                Statement::UpdateThoughts {
                    change: RowChange::Acknowledge {
                        id: pushed[i].0.to_blob(),
                        updated_at: pushed[i].1,
                    },
                },
            );
            proof {
                Self::lemma_follows_on(start, at, *self);
                assert(all.take(i + 1).drop_last() =~= all.take(i as int));
                assert(all.take(i + 1).last() == all[i as int]);
            }
            i += 1;
        }
        proof {
            assert(all.take(all.len() as int) =~= all);
            if sound(start@) {
                law_acknowledged_sound(start@, all);
            }
        }
        Ok(())
    }

    /// The thought, as it stands at the time `now`.
    pub fn get_thought(&self, id: Uuid, now: i64) -> (r: Result<Thought>)
        ensures
            match find_live(self@.thoughts, id@) {
                Some(row) => r matches Ok(thought) && thought.id == id && thought@ == thought_of(
                    row,
                    now,
                ),
                None => r matches Err(e) && not_found(e, id),
            },
    {
        proof {
            law_first_where(
                self@.thoughts,
                |row: ThoughtRowView| row.id == id@ && live(row),
            );
        }
        match self.live_row_at(&id) {
            Some(i) => {
                let row = &self.tables.thoughts[i];
                Ok(
                    Thought {
                        id,
                        text: row.text.clone(),
                        created_at: row.created_at,
                        updated_at: row.updated_at,
                        is_settled: is_settled_now(row.updated_at, row.settled_at, now),
                        is_actioned: row.actioned_at.is_some(),
                    },
                )
            },
            None => Err(Error::NotFound { id }),
        }
    }

    /// Sets or clears at the time `now` when the thought was dealt with.
    pub fn set_actioned_at(&mut self, id: Uuid, actioned_at: Option<i64>, now: i64) -> (r: Result<
        Thought,
    >)
        ensures
            final(self).follows(*old(self)),
            sound(old(self)@) ==> sound(final(self)@),
            match find_live(old(self)@.thoughts, id@) {
                Some(row) => {
                    let change = RowChangeView::Action { id: id@, actioned_at, at: now };
                    &&& final(self)@ == changed(old(self)@, change)
                    &&& r matches Ok(thought) && thought.id == id && thought@ == thought_of(
                        change.makes(row),
                        now,
                    )
                },
                None => r matches Err(e) && not_found(e, id) && final(self)@ == old(self)@,
            },
    {
        let ghost start = *self;
        proof {
            start.lemma_follows_itself();
        }
        if self.live_row_at(&id).is_none() {
            return Err(Error::NotFound { id });
        }
        self.run(
            Statement::UpdateThoughts {
                change: RowChange::Action { id: id.to_blob(), actioned_at, at: now },
            },
        );
        proof {
            let change = RowChangeView::Action { id: id@, actioned_at, at: now };
            let p = |row: ThoughtRowView| row.id == id@ && live(row);
            lemma_first_updated(start@.thoughts, change, p);
            law_first_where(start@.thoughts, p);
            if sound(start@) {
                law_changed_sound(start@, change);
            }
        }
        self.get_thought(id, now)
    }

    /// Marks the thought as dealt with.
    pub fn mark_actioned(&mut self, id: Uuid) -> (r: Result<Thought>)
        ensures
            final(self).follows(*old(self)),
            sound(old(self)@) ==> sound(final(self)@),
            action_ended(*old(self), *final(self), id, true, r),
    {
        proof {
            self.lemma_follows_itself();
        }
        match now_unix_millis() {
            Ok(now) => self.set_actioned_at(id, Some(now), now),
            Err(e) => Err(e),
        }
    }

    /// Clears that the thought was dealt with.
    pub fn unmark_actioned(&mut self, id: Uuid) -> (r: Result<Thought>)
        ensures
            final(self).follows(*old(self)),
            sound(old(self)@) ==> sound(final(self)@),
            action_ended(*old(self), *final(self), id, false, r),
    {
        proof {
            self.lemma_follows_itself();
        }
        match now_unix_millis() {
            Ok(now) => self.set_actioned_at(id, None, now),
            Err(e) => Err(e),
        }
    }

    /// Saves a named query under the identifier `id` at the time `now`. Fails if
    /// the identifier is taken.
    pub fn create_saved_search_at(&mut self, id: Uuid, name: &str, query: &str, now: i64) -> (r:
        Result<SavedSearch>)
        ensures
            final(self).follows(*old(self)),
            sound(old(self)@) ==> sound(final(self)@),
            match r {
                Ok(search) => {
                    let row = SavedRowView {
                        id: id@,
                        name: name@,
                        query: query@,
                        created_at: now,
                    };
                    &&& !is_saved(old(self)@.saved, id@)
                    &&& search.id == id
                    &&& search@ == saved_search_of(row)
                    &&& final(self)@ == (TablesView {
                        saved: old(self)@.saved.push(row),
                        ..old(self)@
                    })
                },
                Err(e) => is_saved(old(self)@.saved, id@) && saved_taken(e) && final(self)@ == old(
                    self,
                )@,
            },
    {
        let ghost start = *self;
        proof {
            start.lemma_follows_itself();
        }
        if self.has_saved(&id) {
            return Err(
                Error::Storage {
                    message: "UNIQUE constraint failed: saved_searches.id".to_owned(),
                },
            );
        }
        let row = SavedRow {
            id: id.to_blob(),
            name: name.to_owned(),
            query: query.to_owned(),
            created_at: now,
        };
        proof {
            if sound(start@) {
                law_saved_sound(start@, row@);
            }
        }
        self.run(Statement::InsertSaved { row });
        Ok(SavedSearch { id, name: name.to_owned(), query: query.to_owned(), created_at: now })
    }

    /// Whether a saved search has that identifier.
    fn has_saved(&self, id: &Uuid) -> (r: bool)
        ensures
            r == is_saved(self@.saved, id@),
    {
        let ghost all = self@.saved;
        let mut i: usize = 0;
        while i < self.tables.saved.len()
            invariant
                i <= self.tables.saved@.len(),
                all == self@.saved,
                forall|j: int| 0 <= j < i ==> (#[trigger] all[j]).id != id@,
            decreases self.tables.saved.len() - i,
        {
            if id.is_blob(self.tables.saved[i].id.as_slice()) {
                assert(all[i as int].id == id@);
                return true;
            }
            i += 1;
        }
        false
    }

    /// Saves a named query. `query` is kept as the user typed it.
    pub fn create_saved_search(&mut self, name: &str, query: &str) -> (r: Result<SavedSearch>)
        ensures
            final(self).follows(*old(self)),
            sound(old(self)@) ==> sound(final(self)@),
            save_ended(*old(self), *final(self), name@, query@, r),
    {
        proof {
            self.lemma_follows_itself();
        }
        let id = Uuid::new_v4();
        match now_unix_millis() {
            Ok(now) => self.create_saved_search_at(id, name, query, now),
            Err(e) => Err(e),
        }
    }

    /// Deletes a saved search. One that is not there is no error.
    pub fn delete_saved_search(&mut self, id: Uuid) -> (r: Result<()>)
        ensures
            final(self).follows(*old(self)),
            sound(old(self)@) ==> sound(final(self)@),
            r is Ok,
            final(self)@ == (TablesView {
                saved: saved_besides(old(self)@.saved, id@),
                ..old(self)@
            }),
    {
        proof {
            if sound(self@) {
                law_unsaved_sound(self@, id@);
            }
        }
        self.run(Statement::DeleteSaved { id: id.to_blob() });
        Ok(())
    }
}

/// The pushed rows that are acknowledged.
pub open spec fn pushes(pushed: Seq<(Uuid, i64)>) -> Seq<(Seq<u8>, i64)> {
    Seq::new(pushed.len(), |i: int| (pushed[i].0@, pushed[i].1))
}

/// A saved search has that identifier.
pub open spec fn is_saved(saved: Seq<SavedRowView>, id: Seq<u8>) -> bool {
    any_where(saved, |row: SavedRowView| row.id == id)
}

/// The saved search that a row shows.
pub open spec fn saved_search_of(row: SavedRowView) -> SavedSearchView {
    SavedSearchView { id: row.id, name: row.name, query: row.query, created_at: row.created_at }
}

/// The error for an identifier that another saved search has.
pub open spec fn saved_taken(e: Error) -> bool {
    e matches Error::Storage { message } && message@
        == "UNIQUE constraint failed: saved_searches.id"@
}

/// Where an update does not affect which rows meet a condition, the first one
/// that does is the same row, updated.
pub(crate) proof fn lemma_first_updated(
    rows: Seq<ThoughtRowView>,
    change: RowChangeView,
    p: spec_fn(ThoughtRowView) -> bool,
)
    requires
        forall|row: ThoughtRowView| p(#[trigger] change.on(row)) == p(row),
    ensures
        first_where(updated(rows, change), p) == (match first_where(rows, p) {
            Some(row) => Some(change.on(row)),
            None => None,
        }),
    decreases rows.len(),
{
    if rows.len() > 0 {
        lemma_first_updated(rows.drop_last(), change, p);
        assert(updated(rows, change).drop_last() =~= updated(rows.drop_last(), change));
    }
}

} // verus!
