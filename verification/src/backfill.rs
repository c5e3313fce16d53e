//! Making up for what was not there when a thought was captured: vectors, and
//! the columns and tables of later schema versions.

use vstd::prelude::*;

use crate::embed::{vector_to_blob, TextEmbedder};
use crate::error::{Error, Result};
use crate::laws::law_missing;
use crate::mirror::lemma_reconciled_rows;
use crate::model::{
    changed, find_live, has_vector, live, missing, readable_until, retagged, with_vectors,
};
use crate::order::blob_eq;
use crate::rank::{cut, rank, select, views};
use crate::rows::{
    kept, law_first_where, law_kept_all, law_kept_contains, law_kept_pairwise, lemma_take_step,
    limited,
};
use crate::sorting::LatestFirst;
use crate::sound::{law_migrated_sound, law_vectors_sound, sound, untagged};
use crate::store::{answers, ThoughtStore};
use crate::tables::{
    bad_id, copy_blob, uuid_from_blob, EmbeddingRow, RowChange, RowChangeView, Statement, Tables,
    TablesView, ThoughtRow, ThoughtRowView,
};

verus! {

/// The version of the schema.
pub const SCHEMA_VERSION: i32 = 7;

/// Whether the thought has a stored vector.
pub(crate) fn is_embedded(tables: &Tables, id: &Vec<u8>) -> (r: bool)
    ensures
        r == has_vector(tables@, id@),
{
    let ghost all = tables@.embeddings;
    let mut i: usize = 0;
    while i < tables.embeddings.len()
        invariant
            i <= tables.embeddings@.len(),
            all == tables@.embeddings,
            forall|j: int| 0 <= j < i ==> (#[trigger] all[j]).thought_id != id@,
        decreases tables.embeddings.len() - i,
    {
        if blob_eq(tables.embeddings[i].thought_id.as_slice(), id.as_slice()) {
            assert(all[i as int].thought_id == id@);
            return true;
        }
        i += 1;
    }
    false
}

/// A thought that waits for its vector.
pub struct Pending {
    pub id: Vec<u8>,
    pub text: String,
}

/// The thoughts that have yet to be embedded, latest captured first, at most
/// `limit` of them.
fn pending(tables: &Tables, limit: usize) -> (out: Vec<Pending>)
    ensures
        out@.len() == limited(missing(tables@), limit as nat).len(),
        forall|i: int|
            0 <= i < out@.len() ==> (#[trigger] out@[i]).id@ == limited(
                missing(tables@),
                limit as nat,
            )[i].id && out@[i].text@ == limited(missing(tables@), limit as nat)[i].text,
{
    let keep = |row: &ThoughtRow| -> (r: bool)
        ensures
            r == (live(row@) && !has_vector(tables@, row@.id)),
    {
        row.deleted_at.is_none() && !is_embedded(tables, &row.id)
    };
    let found = select(
        &tables.thoughts,
        keep,
        Ghost(|row: ThoughtRowView| live(row) && !has_vector(tables@, row.id)),
    );
    let mut rows = rank::<ThoughtRow, LatestFirst>(&found);
    cut(&mut rows, limit);
    to_pending(&rows)
}

/// How embedding the thoughts `rows` one after the other ended: the first ones
/// have the vectors `vectors` that the embedder gave; all were embedded, or the
/// next one could not be.
pub open spec fn embedded_so<E: TextEmbedder>(
    e: E,
    before: TablesView,
    after: TablesView,
    rows: Seq<ThoughtRowView>,
    vectors: Seq<Seq<u32>>,
    r: Result<usize>,
) -> bool {
    let n = vectors.len();
    &&& n <= rows.len()
    &&& after == with_vectors(before, rows, vectors)
    &&& forall|i: int|
        0 <= i < n ==> (#[trigger] rows[i]).id.len() == 16 && answered(e, rows[i].text, vectors[i])
    &&& match r {
        Ok(count) => count == n && n == rows.len(),
        Err(error) => n < rows.len() && if rows[n as int].id.len() == 16 {
            answers(e, rows[n as int].text, Err(error))
        } else {
            bad_id(error, rows[n as int].id)
        },
    }
}

/// How embedding the thoughts `rows` ended: it fails without an embedder, and
/// otherwise goes as the embedder answers.
pub open spec fn embedding_ended<E: TextEmbedder>(
    embedder: Option<E>,
    before: TablesView,
    after: TablesView,
    rows: Seq<ThoughtRowView>,
    r: Result<usize>,
) -> bool {
    match embedder {
        Some(e) => exists|vectors: Seq<Seq<u32>>| #[trigger]
            embedded_so(e, before, after, rows, vectors, r),
        None => r matches Err(error) && error is NoEmbedder && after == before,
    }
}

/// The embedder gave this vector for the text.
pub open spec fn answered<E: TextEmbedder>(e: E, text: Seq<char>, vector: Seq<u32>) -> bool {
    exists|v: Vec<u32>| v@ == vector && #[trigger] answers(e, text, Ok(v))
}

proof fn lemma_ended<E: TextEmbedder>(
    e: E,
    before: TablesView,
    after: TablesView,
    rows: Seq<ThoughtRowView>,
    vectors: Seq<Seq<u32>>,
    r: Result<usize>,
)
    requires
        embedded_so(e, before, after, rows, vectors, r),
    ensures
        embedding_ended(Some(e), before, after, rows, r),
{
    let embedder = Some(e);
    assert(embedded_so(embedder.unwrap(), before, after, rows, vectors, r));
}

proof fn lemma_embedded_sound(t: TablesView, limit: nat, vectors: Seq<Seq<u32>>)
    requires
        vectors.len() <= limited(missing(t), limit).len(),
    ensures
        sound(t) ==> sound(with_vectors(t, limited(missing(t), limit), vectors)),
{
    let rows = limited(missing(t), limit);
    assert forall|i: int| 0 <= i < vectors.len() implies find_live(
        t.thoughts,
        (#[trigger] rows[i]).id,
    ) is Some by {
        assert(missing(t).contains(missing(t)[i]));
        law_missing(t, rows[i]);
        let p = |row: ThoughtRowView| row.id == rows[i].id && live(row);
        law_first_where(t.thoughts, p);
        let k = choose|k: int| 0 <= k < t.thoughts.len() && t.thoughts[k] == rows[i];
        assert(p(t.thoughts[k]));
    }
    if sound(t) {
        law_vectors_sound(t, rows, vectors);
    }
}

impl<E: TextEmbedder> ThoughtStore<E> {
    /// Embeds up to `limit` thoughts that have no stored vector, latest captured
    /// first, and says how many. Unlike capture and edit it reports the
    /// embedder's errors; what was embedded before one is kept.
    pub fn embed_missing(&mut self, limit: usize) -> (r: Result<usize>)
        ensures
            final(self).follows(*old(self)),
            sound(old(self)@) ==> sound(final(self)@),
            embedding_ended(
                old(self).embedder,
                old(self)@,
                final(self)@,
                limited(missing(old(self)@), limit as nat),
                r,
            ),
    {
        let ghost start = *self;
        proof {
            start.lemma_follows_itself();
        }
        if self.embedder.is_none() {
            return Err(Error::NoEmbedder);
        }
        let ghost e = self.embedder.unwrap();
        let ghost rows = limited(missing(start@), limit as nat);
        let ghost mut vectors: Seq<Seq<u32>> = Seq::empty();
        let waiting = pending(&self.tables, limit);
        let mut i: usize = 0;
        while i < waiting.len()
            invariant
                i <= waiting@.len(),
                start.embedder == Some(e),
                self.follows(start),
                waiting@.len() == rows.len(),
                forall|j: int|
                    0 <= j < rows.len() ==> (#[trigger] waiting@[j]).id@ == rows[j].id
                        && waiting@[j].text@ == rows[j].text,
                vectors.len() == i,
                self@ == with_vectors(start@, rows, vectors),
                forall|j: int|
                    0 <= j < i ==> (#[trigger] rows[j]).id.len() == 16 && answered(
                        e,
                        rows[j].text,
                        vectors[j],
                    ),
                old(self)@ == start@,
                *old(self) == start,
                rows == limited(missing(start@), limit as nat),
            decreases waiting.len() - i,
        {
            let entry = &waiting[i];
            assert(entry.id@ == rows[i as int].id);
            let id = match uuid_from_blob(&entry.id) {
                Ok(id) => id,
                Err(error) => {
                    let r: Result<usize> = Err(error);
                    proof {
                        lemma_ended(e, start@, self@, rows, vectors, r);
                        lemma_embedded_sound(start@, limit as nat, vectors);
                    }
                    return r;
                },
            };
            let answer = match &self.embedder {
                Some(embedder) => {
                    let text = entry.text.as_str();
                    let answer = embedder.embed(text);
                    assert(call_ensures(E::embed, (embedder, text), answer));
                    assert(answers(e, rows[i as int].text, answer));
                    answer
                },
                None => {
                    let r = Err(Error::NoEmbedder);
                    assert(false);
                    return r;
                },
            };
            let vector = match answer {
                Ok(vector) => vector,
                Err(error) => {
                    let r = Err(error);
                    proof {
                        lemma_ended(e, start@, self@, rows, vectors, r);
                        lemma_embedded_sound(start@, limit as nat, vectors);
                    }
                    return r;
                },
            };
            let ghost at = *self;
            self.run(
                Statement::PutEmbedding {
                    row: EmbeddingRow { thought_id: id.to_blob(), vector: vector_to_blob(&vector) },
                },
            );
            proof {
                Self::lemma_follows_on(start, at, *self);
                assert(answered(e, rows[i as int].text, vector@));
                let longer = vectors.push(vector@);
                assert(longer.drop_last() =~= vectors);
                vectors = longer;
            }
            i += 1;
        }
        let r = Ok(i);
        proof {
            lemma_ended(e, start@, self@, rows, vectors, r);
            lemma_embedded_sound(start@, limit as nat, vectors);
        }
        r
    }

    /// Brings data written under schema version `current` up to date, once the
    /// tables have their columns: times of modification since version 2, the
    /// outbox since version 5, tags since version 6.
    pub fn migrate(&mut self, current: i32) -> (r: Result<()>)
        ensures
            final(self).follows(*old(self)),
            current >= 6 && sound(old(self)@) ==> sound(final(self)@),
            current < 6 && untagged(old(self)@) && r is Ok ==> sound(final(self)@),
            migration_ended(old(self)@, final(self)@, current, r),
    {
        let ghost start = *self;
        proof {
            start.lemma_follows_itself();
        }
        if current < 2 {
            self.run(Statement::UpdateThoughts { change: RowChange::BackfillUpdatedAt });
        }
        if current < 5 {
            let ghost at = *self;
            self.run(Statement::UpdateThoughts { change: RowChange::MarkDirty });
            proof {
                Self::lemma_follows_on(start, at, *self);
            }
        }
        if current >= 6 {
            return Ok(());
        }
        let ghost filled = self@;
        let ghost rows = kept(filled.thoughts, |row: ThoughtRowView| live(row));
        let waiting = live_texts(&self.tables);
        let mut i: usize = 0;
        assert(rows.take(0) =~= Seq::empty());
        while i < waiting.len()
            invariant
                i <= waiting@.len(),
                *old(self) == start,
                self.follows(start),
                filled == with_columns(start@, current),
                current < 6,
                rows == kept(filled.thoughts, |row: ThoughtRowView| live(row)),
                waiting@.len() == rows.len(),
                forall|j: int|
                    0 <= j < rows.len() ==> (#[trigger] waiting@[j]).id@ == rows[j].id
                        && waiting@[j].text@ == rows[j].text,
                self@ == retagged(filled, rows.take(i as int)),
                readable_until(rows, 0) == readable_until(rows, i as int),
            decreases waiting.len() - i,
        {
            let entry = &waiting[i];
            assert(entry.id@ == rows[i as int].id);
            match uuid_from_blob(&entry.id) {
                Ok(id) => {
                    let ghost at = *self;
                    self.reconcile_tags(&id, entry.text.as_str());
                    proof {
                        Self::lemma_follows_on(start, at, *self);
                        assert(rows.take(i + 1).drop_last() =~= rows.take(i as int));
                        assert(rows.take(i + 1).last() == rows[i as int]);
                    }
                },
                Err(error) => {
                    return Err(error);
                },
            }
            i += 1;
        }
        proof {
            assert(rows.take(rows.len() as int) =~= rows);
            if untagged(start@) {
                law_migrated_sound(start@, current);
            }
        }
        Ok(())
    }
}

/// The tables after the columns that version `current` lacks were filled.
pub open spec fn with_columns(t: TablesView, current: i32) -> TablesView {
    let timed = if current < 2 {
        changed(t, RowChangeView::BackfillUpdatedAt)
    } else {
        t
    };
    if current < 5 {
        changed(timed, RowChangeView::MarkDirty)
    } else {
        timed
    }
}

/// How bringing the data of version `current` up to date ended: the columns are
/// filled and the tags set, up to the first thought whose identifier cannot be
/// read.
pub open spec fn migration_ended(
    before: TablesView,
    after: TablesView,
    current: i32,
    r: Result<()>,
) -> bool {
    let filled = with_columns(before, current);
    let rows = kept(filled.thoughts, |row: ThoughtRowView| live(row));
    let n = readable_until(rows, 0);
    if current >= 6 {
        r is Ok && after == filled
    } else {
        &&& after == retagged(filled, rows.take(n))
        &&& match r {
            Ok(_) => n == rows.len(),
            Err(e) => n < rows.len() && bad_id(e, rows[n].id),
        }
    }
}

/// The identifiers and texts of the live thoughts.
fn live_texts(tables: &Tables) -> (out: Vec<Pending>)
    ensures
        out@.len() == kept(tables@.thoughts, |row: ThoughtRowView| live(row)).len(),
        forall|i: int|
            0 <= i < out@.len() ==> (#[trigger] out@[i]).id@ == kept(
                tables@.thoughts,
                |row: ThoughtRowView| live(row),
            )[i].id && out@[i].text@ == kept(
                tables@.thoughts,
                |row: ThoughtRowView| live(row),
            )[i].text,
{
    let keep = |row: &ThoughtRow| -> (r: bool)
        ensures
            r == live(row@),
    {
        row.deleted_at.is_none()
    };
    let rows = select(&tables.thoughts, keep, Ghost(|row: ThoughtRowView| live(row)));
    to_pending(&rows)
}

/// What these rows wait for, in their order.
fn to_pending(rows: &Vec<&ThoughtRow>) -> (out: Vec<Pending>)
    ensures
        out@.len() == rows@.len(),
        forall|i: int|
            0 <= i < out@.len() ==> (#[trigger] out@[i]).id@ == views(rows@)[i].id
                && out@[i].text@ == views(rows@)[i].text,
{
    let ghost wanted = views(rows@);
    let mut out: Vec<Pending> = Vec::new();
    let mut i: usize = 0;
    while i < rows.len()
        invariant
            i <= rows@.len(),
            wanted == views(rows@),
            out@.len() == i,
            forall|j: int|
                0 <= j < out@.len() ==> (#[trigger] out@[j]).id@ == wanted[j].id && out@[j].text@
                    == wanted[j].text,
        decreases rows.len() - i,
    {
        let row: &ThoughtRow = rows[i];
        assert(wanted[i as int] == row@);
        out.push(Pending { id: copy_blob(&row.id), text: row.text.clone() });
        i += 1;
    }
    out
}

/// What brings a database from one version of the schema to the next.
#[derive(Debug, Clone, Copy, PartialEq, Eq)]
pub enum MigrationStep {
    /// Version 1: the thought table.
    CreateThoughts,
    /// Version 2: times of modification and settling, and the edit history.
    TrackEdits,
    /// Version 3: the text index.
    IndexText,
    /// Version 4: the table of vectors.
    StoreVectors,
    /// Version 5: tombstones and the outbox.
    TrackSync,
    /// Version 6: the tag tables and saved searches.
    MirrorTags,
    /// Version 7: when a thought was dealt with.
    TrackActions,
    /// The database is marked with the current version.
    Stamp,
}

impl MigrationStep {
    /// The version that the step leads to.
    pub open spec fn version(self) -> int {
        match self {
            MigrationStep::CreateThoughts => 1,
            MigrationStep::TrackEdits => 2,
            MigrationStep::IndexText => 3,
            MigrationStep::StoreVectors => 4,
            MigrationStep::TrackSync => 5,
            MigrationStep::MirrorTags => 6,
            MigrationStep::TrackActions => 7,
            MigrationStep::Stamp => SCHEMA_VERSION as int,
        }
    }
}

/// The steps of all versions.
pub open spec fn all_steps() -> Seq<MigrationStep> {
    seq![
        MigrationStep::CreateThoughts,
        MigrationStep::TrackEdits,
        MigrationStep::IndexText,
        MigrationStep::StoreVectors,
        MigrationStep::TrackSync,
        MigrationStep::MirrorTags,
        MigrationStep::TrackActions,
    ]
}

/// The steps for a database of version `current`: those of later versions, in
/// order, but for the last one's column where it is there already, and the mark
/// in any case.
pub open spec fn plan(current: i32, has_actioned_at: bool) -> Seq<MigrationStep> {
    kept(
        all_steps(),
        |step: MigrationStep|
            step.version() > current && !(step is TrackActions && has_actioned_at),
    ).push(MigrationStep::Stamp)
}

/// The steps that a database of version `current` needs. `has_actioned_at` says
/// whether the thought table has that column: it may, where a database was
/// marked with an earlier version than it has.
pub fn migration_plan(current: i32, has_actioned_at: bool) -> (steps: Vec<MigrationStep>)
    ensures
        steps@ == plan(current, has_actioned_at),
{
    let mut steps: Vec<MigrationStep> = Vec::new();
    if current < 1 {
        steps.push(MigrationStep::CreateThoughts);
    }
    if current < 2 {
        steps.push(MigrationStep::TrackEdits);
    }
    if current < 3 {
        steps.push(MigrationStep::IndexText);
    }
    if current < 4 {
        steps.push(MigrationStep::StoreVectors);
    }
    if current < 5 {
        steps.push(MigrationStep::TrackSync);
    }
    if current < 6 {
        steps.push(MigrationStep::MirrorTags);
    }
    if current < 7 && !has_actioned_at {
        steps.push(MigrationStep::TrackActions);
    }
    proof {
        let p = |step: MigrationStep|
            step.version() > current && !(step is TrackActions && has_actioned_at);
        let all = all_steps();
        assert(all.take(0) =~= Seq::empty());
        lemma_take_step(all, p, 0);
        lemma_take_step(all, p, 1);
        lemma_take_step(all, p, 2);
        lemma_take_step(all, p, 3);
        lemma_take_step(all, p, 4);
        lemma_take_step(all, p, 5);
        lemma_take_step(all, p, 6);
        assert(all.take(7) =~= all);
        assert(steps@ =~= kept(all, p));
    }
    steps.push(MigrationStep::Stamp);
    steps
}

/// The rows that an older store gets: where it is from before edits were tracked,
/// a row without a time of modification has that of its capture; where it is from
/// before sync was tracked, every row has yet to be pushed. Nothing else changes.
pub proof fn law_columns_filled(t: TablesView, current: i32)
    ensures
        with_columns(t, current).thoughts.len() == t.thoughts.len(),
        with_columns(t, current) == (TablesView {
            thoughts: with_columns(t, current).thoughts,
            ..t
        }),
        forall|i: int|
            0 <= i < t.thoughts.len() ==> {
                let row = t.thoughts[i];
                let new = #[trigger] with_columns(t, current).thoughts[i];
                &&& new.id == row.id && new.text == row.text && new.created_at == row.created_at
                &&& new.updated_at == if current < 2 && row.updated_at == 0 {
                    row.created_at
                } else {
                    row.updated_at
                }
                &&& new.settled_at == row.settled_at && new.deleted_at == row.deleted_at
                &&& new.actioned_at == row.actioned_at
                &&& new.dirty == (row.dirty || current < 5)
            },
{
    if current >= 2 && current >= 5 {
        assert(with_columns(t, current).thoughts =~= t.thoughts);
    }
}

proof fn lemma_retagged_rows(t: TablesView, rows: Seq<ThoughtRowView>)
    ensures
        retagged(t, rows) == (TablesView {
            tags: retagged(t, rows).tags,
            links: retagged(t, rows).links,
            ..t
        }),
    decreases rows.len(),
{
    if rows.len() > 0 {
        let front = rows.drop_last();
        lemma_retagged_rows(t, front);
        lemma_reconciled_rows(retagged(t, front), rows.last().id, rows.last().text);
    }
}

/// A migration fills the columns as `law_columns_filled` says and touches no other
/// column and no other table but those of the tags. From version 6 on it leaves
/// these too. Before that it succeeds exactly where every thought that is no
/// tombstone has an identifier that can be read.
pub proof fn law_migration_ended(
    before: TablesView,
    after: TablesView,
    current: i32,
    r: Result<()>,
)
    requires
        migration_ended(before, after, current, r),
    ensures
        after.thoughts == with_columns(before, current).thoughts,
        after.history == before.history,
        after.embeddings == before.embeddings,
        after.saved == before.saved,
        current >= 6 ==> r is Ok && after.tags == before.tags && after.links == before.links,
        current < 6 ==> (r is Ok <==> forall|i: int|
            0 <= i < before.thoughts.len() && (#[trigger] before.thoughts[i]).deleted_at is None
                ==> before.thoughts[i].id.len() == 16),
{
    let filled = with_columns(before, current);
    let p = |row: ThoughtRowView| live(row);
    let rows = kept(filled.thoughts, p);
    let n = readable_until(rows, 0);
    law_columns_filled(before, current);
    if current < 6 {
        lemma_readable_until(rows, 0);
        lemma_retagged_rows(filled, rows.take(n));
        if r is Ok {
            assert forall|i: int|
                0 <= i < before.thoughts.len() && (
                #[trigger] before.thoughts[i]).deleted_at is None implies before.thoughts[i].id.len()
                == 16 by {
                let row = filled.thoughts[i];
                assert(row.deleted_at is None && row.id == before.thoughts[i].id);
                law_kept_contains(filled.thoughts, p, row);
                assert(filled.thoughts.contains(row));
                let k = choose|k: int| 0 <= k < rows.len() && rows[k] == row;
                assert(rows[k].id.len() == 16);
            }
        } else {
            law_kept_all(filled.thoughts, p);
            assert(p(rows[n]));
            let i = choose|i: int| 0 <= i < filled.thoughts.len() && filled.thoughts[i] == rows[n];
            assert(filled.thoughts[i].deleted_at is None);
            assert(before.thoughts[i].deleted_at is None && before.thoughts[i].id.len() != 16);
        }
    }
}

proof fn lemma_readable_until(rows: Seq<ThoughtRowView>, i: int)
    requires
        0 <= i <= rows.len(),
    ensures
        i <= readable_until(rows, i) <= rows.len(),
        forall|k: int| i <= k < readable_until(rows, i) ==> (#[trigger] rows[k]).id.len() == 16,
        readable_until(rows, i) < rows.len() ==> rows[readable_until(rows, i)].id.len() != 16,
    decreases rows.len() - i,
{
    if i < rows.len() && rows[i].id.len() == 16 {
        lemma_readable_until(rows, i + 1);
    }
}

/// A store is migrated by the steps that are newer than it, oldest first, and
/// then stamped: once each, and nothing else. The column for what was dealt with
/// is not added where it is there already.
pub proof fn law_plan(current: i32, has_actioned_at: bool)
    ensures
        ({
            let steps = plan(current, has_actioned_at);
            &&& steps.len() > 0 && steps.last() is Stamp
            &&& steps.contains(MigrationStep::CreateThoughts) <==> current < 1
            &&& steps.contains(MigrationStep::TrackEdits) <==> current < 2
            &&& steps.contains(MigrationStep::IndexText) <==> current < 3
            &&& steps.contains(MigrationStep::StoreVectors) <==> current < 4
            &&& steps.contains(MigrationStep::TrackSync) <==> current < 5
            &&& steps.contains(MigrationStep::MirrorTags) <==> current < 6
            &&& steps.contains(MigrationStep::TrackActions) <==> current < 7 && !has_actioned_at
            &&& forall|i: int, j: int|
                0 <= i < j < steps.len() ==> earlier_step(#[trigger] steps[i], #[trigger] steps[j])
        }),
{
    let all = all_steps();
    let p = |step: MigrationStep|
        step.version() > current && !(step is TrackActions && has_actioned_at);
    let some = kept(all, p);
    let steps = plan(current, has_actioned_at);
    lemma_planned(some, steps, MigrationStep::CreateThoughts, all, p, 0);
    lemma_planned(some, steps, MigrationStep::TrackEdits, all, p, 1);
    lemma_planned(some, steps, MigrationStep::IndexText, all, p, 2);
    lemma_planned(some, steps, MigrationStep::StoreVectors, all, p, 3);
    lemma_planned(some, steps, MigrationStep::TrackSync, all, p, 4);
    lemma_planned(some, steps, MigrationStep::MirrorTags, all, p, 5);
    lemma_planned(some, steps, MigrationStep::TrackActions, all, p, 6);
    let r = |a: MigrationStep, b: MigrationStep| earlier_step(a, b);
    assert forall|i: int, j: int| 0 <= i < j < all.len() implies r(
        #[trigger] all[i],
        #[trigger] all[j],
    ) by {
    }
    law_kept_pairwise(all, p, r);
    law_kept_all(all, p);
    assert forall|i: int, j: int| 0 <= i < j < steps.len() implies earlier_step(
        #[trigger] steps[i],
        #[trigger] steps[j],
    ) by {
        assert(steps[i] == some[i]);
        if j < some.len() {
            assert(r(some[i], some[j]));
        } else {
            let k = choose|k: int| 0 <= k < all.len() && all[k] == some[i];
            assert(!(all[k] is Stamp));
        }
    }
}

/// The step comes before the other one in every migration.
pub open spec fn earlier_step(a: MigrationStep, b: MigrationStep) -> bool {
    match a {
        MigrationStep::CreateThoughts => !(b is CreateThoughts),
        MigrationStep::TrackEdits => !(b is CreateThoughts || b is TrackEdits),
        MigrationStep::IndexText => b is StoreVectors || b is TrackSync || b is MirrorTags
            || b is TrackActions || b is Stamp,
        MigrationStep::StoreVectors => b is TrackSync || b is MirrorTags || b is TrackActions
            || b is Stamp,
        MigrationStep::TrackSync => b is MirrorTags || b is TrackActions || b is Stamp,
        MigrationStep::MirrorTags => b is TrackActions || b is Stamp,
        MigrationStep::TrackActions => b is Stamp,
        MigrationStep::Stamp => false,
    }
}

proof fn lemma_planned(
    some: Seq<MigrationStep>,
    steps: Seq<MigrationStep>,
    step: MigrationStep,
    all: Seq<MigrationStep>,
    p: spec_fn(MigrationStep) -> bool,
    i: int,
)
    requires
        some == kept(all, p),
        steps == some.push(MigrationStep::Stamp),
        !(step is Stamp),
        0 <= i < all.len(),
        all[i] == step,
    ensures
        steps.contains(step) <==> p(step),
{
    law_kept_contains(all, p, step);
    assert(all.contains(step));
    if p(step) {
        let k = choose|k: int| 0 <= k < some.len() && some[k] == step;
        assert(steps[k] == step);
    }
    if steps.contains(step) {
        let k = choose|k: int| 0 <= k < steps.len() && steps[k] == step;
        assert(some[k] == step);
    }
}

} // verus!
