//! The tables of the store, and the statements that change them.

use vstd::prelude::*;
use vstd::string::*;

use crate::decimal::{decimal, push_count};
use crate::error::{Error, Result};
use crate::ident::Uuid;
use crate::order::{blob_eq, name_same, same_name};
use crate::rows::{
    any_where, first_where, kept, lemma_first_where_extends, lemma_take_step, retain, seen,
};

verus! {

/// A stored thought. Its identifier is kept as the raw column, so that a
/// damaged one shows when it is read.
#[derive(Debug, Clone, PartialEq, Eq)]
pub struct ThoughtRow {
    pub id: Vec<u8>,
    pub text: String,
    pub created_at: i64,
    pub updated_at: i64,
    pub settled_at: Option<i64>,
    /// Set on a tombstone: the row of a deleted thought, which stays so that
    /// the deletion can reach other devices.
    pub deleted_at: Option<i64>,
    pub actioned_at: Option<i64>,
    /// Changed here and not yet pushed.
    pub dirty: bool,
}

/// What a `ThoughtRow` holds.
#[verifier::ext_equal]
pub struct ThoughtRowView {
    pub id: Seq<u8>,
    pub text: Seq<char>,
    pub created_at: i64,
    pub updated_at: i64,
    pub settled_at: Option<i64>,
    pub deleted_at: Option<i64>,
    pub actioned_at: Option<i64>,
    pub dirty: bool,
}

impl View for ThoughtRow {
    type V = ThoughtRowView;

    open spec fn view(&self) -> ThoughtRowView {
        ThoughtRowView {
            id: self.id@,
            text: self.text@,
            created_at: self.created_at,
            updated_at: self.updated_at,
            settled_at: self.settled_at,
            deleted_at: self.deleted_at,
            actioned_at: self.actioned_at,
            dirty: self.dirty,
        }
    }
}

impl ThoughtRow {
    /// The same row once more.
    pub fn duplicate(&self) -> (out: ThoughtRow)
        ensures
            out@ == self@,
    {
        ThoughtRow {
            id: copy_blob(&self.id),
            text: self.text.clone(),
            created_at: self.created_at,
            updated_at: self.updated_at,
            settled_at: self.settled_at,
            deleted_at: self.deleted_at,
            actioned_at: self.actioned_at,
            dirty: self.dirty,
        }
    }
}

/// The same bytes once more.
pub(crate) fn copy_blob(blob: &Vec<u8>) -> (out: Vec<u8>)
    ensures
        out@ == blob@,
{
    let out = blob.clone();
    assert(out@ =~= blob@);
    out
}

/// The error for an identifier column that does not have sixteen bytes.
pub open spec fn bad_id(e: Error, blob: Seq<u8>) -> bool {
    e matches Error::CorruptRow { table, detail } && table@ == "thoughts"@ && detail@
        == "id column had "@ + decimal(blob.len() as int) + " bytes, expected 16"@
}

/// The identifier in an identifier column.
pub fn uuid_from_blob(bytes: &Vec<u8>) -> (r: Result<Uuid>)
    ensures
        match r {
            Ok(id) => bytes@.len() == 16 && id@ == bytes@,
            Err(e) => bytes@.len() != 16 && bad_id(e, bytes@),
        },
{
    match Uuid::from_blob(bytes.as_slice()) {
        Some(id) => Ok(id),
        None => {
            let mut detail = "id column had ".to_owned();
            push_count(&mut detail, bytes.len());
            detail.append(" bytes, expected 16");
            Err(Error::CorruptRow { table: "thoughts", detail })
        },
    }
}

/// The text of a thought before an edit.
#[derive(Debug, Clone, PartialEq, Eq)]
pub struct HistoryRow {
    pub thought_id: Vec<u8>,
    pub text: String,
    pub archived_at: i64,
}

/// What a `HistoryRow` holds.
#[verifier::ext_equal]
pub struct HistoryRowView {
    pub thought_id: Seq<u8>,
    pub text: Seq<char>,
    pub archived_at: i64,
}

impl View for HistoryRow {
    type V = HistoryRowView;

    open spec fn view(&self) -> HistoryRowView {
        HistoryRowView {
            thought_id: self.thought_id@,
            text: self.text@,
            archived_at: self.archived_at,
        }
    }
}

/// The stored vector of a thought.
#[derive(Debug, Clone, PartialEq, Eq)]
pub struct EmbeddingRow {
    pub thought_id: Vec<u8>,
    pub vector: Vec<u8>,
}

/// What an `EmbeddingRow` holds.
#[verifier::ext_equal]
pub struct EmbeddingRowView {
    pub thought_id: Seq<u8>,
    pub vector: Seq<u8>,
}

impl View for EmbeddingRow {
    type V = EmbeddingRowView;

    open spec fn view(&self) -> EmbeddingRowView {
        EmbeddingRowView { thought_id: self.thought_id@, vector: self.vector@ }
    }
}

/// A thought carries a tag. The name is spelled as in the tag table.
#[derive(Debug, Clone, PartialEq, Eq)]
pub struct LinkRow {
    pub thought_id: Vec<u8>,
    pub name: String,
}

/// What a `LinkRow` holds.
#[verifier::ext_equal]
pub struct LinkRowView {
    pub thought_id: Seq<u8>,
    pub name: Seq<char>,
}

impl View for LinkRow {
    type V = LinkRowView;

    open spec fn view(&self) -> LinkRowView {
        LinkRowView { thought_id: self.thought_id@, name: self.name@ }
    }
}

/// A stored saved search.
#[derive(Debug, Clone, PartialEq, Eq)]
pub struct SavedRow {
    pub id: Vec<u8>,
    pub name: String,
    pub query: String,
    pub created_at: i64,
}

/// What a `SavedRow` holds.
#[verifier::ext_equal]
pub struct SavedRowView {
    pub id: Seq<u8>,
    pub name: Seq<char>,
    pub query: Seq<char>,
    pub created_at: i64,
}

impl View for SavedRow {
    type V = SavedRowView;

    open spec fn view(&self) -> SavedRowView {
        SavedRowView {
            id: self.id@,
            name: self.name@,
            query: self.query@,
            created_at: self.created_at,
        }
    }
}

/// The tables, each with its rows in the order in which they were inserted.
#[derive(Debug, Clone, PartialEq, Eq)]
pub struct Tables {
    pub thoughts: Vec<ThoughtRow>,
    pub history: Vec<HistoryRow>,
    pub embeddings: Vec<EmbeddingRow>,
    /// The names of the tags, no two the same up to ASCII case.
    pub tags: Vec<String>,
    pub links: Vec<LinkRow>,
    pub saved: Vec<SavedRow>,
}

/// What the tables hold.
#[verifier::ext_equal]
pub struct TablesView {
    pub thoughts: Seq<ThoughtRowView>,
    pub history: Seq<HistoryRowView>,
    pub embeddings: Seq<EmbeddingRowView>,
    pub tags: Seq<Seq<char>>,
    pub links: Seq<LinkRowView>,
    pub saved: Seq<SavedRowView>,
}

impl View for Tables {
    type V = TablesView;

    open spec fn view(&self) -> TablesView {
        TablesView {
            thoughts: seen(self.thoughts@),
            history: seen(self.history@),
            embeddings: seen(self.embeddings@),
            tags: seen(self.tags@),
            links: seen(self.links@),
            saved: seen(self.saved@),
        }
    }
}

/// Tables without a row.
pub open spec fn no_rows() -> TablesView {
    TablesView {
        thoughts: Seq::empty(),
        history: Seq::empty(),
        embeddings: Seq::empty(),
        tags: Seq::empty(),
        links: Seq::empty(),
        saved: Seq::empty(),
    }
}

// ---- changes to rows -------------------------------------------------------

/// What an update does to the rows of the thought table that it applies to.
#[derive(Debug, Clone, PartialEq, Eq)]
pub enum RowChange {
    /// New text for one thought, which is live again from then on.
    Edit { id: Vec<u8>, text: String, at: i64 },
    /// A thought that is not yet a tombstone becomes one.
    Bury { id: Vec<u8>, at: i64 },
    /// Every live thought settles.
    Settle { at: i64 },
    /// A thought that is no tombstone is dealt with, or no longer so.
    Action { id: Vec<u8>, actioned_at: Option<i64>, at: i64 },
    /// The row of a thought is replaced.
    Overwrite { row: ThoughtRow },
    /// A thought that has not changed since it was pushed is no longer dirty.
    Acknowledge { id: Vec<u8>, updated_at: i64 },
    /// A row without a time of modification gets that of its creation.
    BackfillUpdatedAt,
    /// Every row has yet to be pushed.
    MarkDirty,
}

/// What a `RowChange` holds.
#[verifier::ext_equal]
pub enum RowChangeView {
    Edit { id: Seq<u8>, text: Seq<char>, at: i64 },
    Bury { id: Seq<u8>, at: i64 },
    Settle { at: i64 },
    Action { id: Seq<u8>, actioned_at: Option<i64>, at: i64 },
    Overwrite { row: ThoughtRowView },
    Acknowledge { id: Seq<u8>, updated_at: i64 },
    BackfillUpdatedAt,
    MarkDirty,
}

impl View for RowChange {
    type V = RowChangeView;

    open spec fn view(&self) -> RowChangeView {
        match *self {
            RowChange::Edit { id, text, at } => RowChangeView::Edit { id: id@, text: text@, at },
            RowChange::Bury { id, at } => RowChangeView::Bury { id: id@, at },
            RowChange::Settle { at } => RowChangeView::Settle { at },
            RowChange::Action { id, actioned_at, at } => RowChangeView::Action {
                id: id@,
                actioned_at,
                at,
            },
            RowChange::Overwrite { row } => RowChangeView::Overwrite { row: row@ },
            RowChange::Acknowledge { id, updated_at } => RowChangeView::Acknowledge {
                id: id@,
                updated_at,
            },
            RowChange::BackfillUpdatedAt => RowChangeView::BackfillUpdatedAt,
            RowChange::MarkDirty => RowChangeView::MarkDirty,
        }
    }
}

impl RowChangeView {
    /// Whether the change applies to `row`.
    pub open spec fn hits(self, row: ThoughtRowView) -> bool {
        match self {
            RowChangeView::Edit { id, .. } => row.id == id,
            RowChangeView::Bury { id, .. } => row.id == id && row.deleted_at is None,
            RowChangeView::Settle { .. } => row.settled_at is None && row.deleted_at is None,
            RowChangeView::Action { id, .. } => row.id == id && row.deleted_at is None,
            RowChangeView::Overwrite { row: new } => row.id == new.id,
            RowChangeView::Acknowledge { id, updated_at } => row.id == id && row.updated_at
                == updated_at,
            RowChangeView::BackfillUpdatedAt => row.updated_at == 0,
            RowChangeView::MarkDirty => true,
        }
    }

    /// What the change makes of a row that it applies to.
    pub open spec fn makes(self, row: ThoughtRowView) -> ThoughtRowView {
        match self {
            RowChangeView::Edit { text, at, .. } => ThoughtRowView {
                text,
                updated_at: at,
                settled_at: None,
                dirty: true,
                ..row
            },
            RowChangeView::Bury { at, .. } => ThoughtRowView {
                deleted_at: Some(at),
                updated_at: at,
                dirty: true,
                ..row
            },
            RowChangeView::Settle { at } => ThoughtRowView { settled_at: Some(at), ..row },
            RowChangeView::Action { actioned_at, at, .. } => ThoughtRowView {
                actioned_at,
                updated_at: at,
                dirty: true,
                ..row
            },
            RowChangeView::Overwrite { row: new } => new,
            RowChangeView::Acknowledge { .. } => ThoughtRowView { dirty: false, ..row },
            RowChangeView::BackfillUpdatedAt => ThoughtRowView { updated_at: row.created_at, ..row },
            RowChangeView::MarkDirty => ThoughtRowView { dirty: true, ..row },
        }
    }

    /// The row after the change.
    pub open spec fn on(self, row: ThoughtRowView) -> ThoughtRowView {
        if self.hits(row) {
            self.makes(row)
        } else {
            row
        }
    }
}

impl RowChange {
    /// Whether the change applies to `row`.
    fn applies(&self, row: &ThoughtRow) -> (r: bool)
        ensures
            r == self@.hits(row@),
    {
        match self {
            RowChange::Edit { id, .. } => blob_eq(row.id.as_slice(), id.as_slice()),
            RowChange::Bury { id, .. } => row.deleted_at.is_none() && blob_eq(
                row.id.as_slice(),
                id.as_slice(),
            ),
            RowChange::Settle { .. } => row.settled_at.is_none() && row.deleted_at.is_none(),
            RowChange::Action { id, .. } => row.deleted_at.is_none() && blob_eq(
                row.id.as_slice(),
                id.as_slice(),
            ),
            RowChange::Overwrite { row: new } => blob_eq(row.id.as_slice(), new.id.as_slice()),
            RowChange::Acknowledge { id, updated_at } => row.updated_at == *updated_at && blob_eq(
                row.id.as_slice(),
                id.as_slice(),
            ),
            RowChange::BackfillUpdatedAt => row.updated_at == 0,
            RowChange::MarkDirty => true,
        }
    }

    /// What the change makes of a row that it applies to.
    fn applied(&self, row: &ThoughtRow) -> (out: ThoughtRow)
        ensures
            out@ == self@.makes(row@),
    {
        let mut out = row.duplicate();
        match self {
            RowChange::Edit { text, at, .. } => {
                out.text = text.clone();
                out.updated_at = *at;
                out.settled_at = None;
                out.dirty = true;
            },
            RowChange::Bury { at, .. } => {
                out.deleted_at = Some(*at);
                out.updated_at = *at;
                out.dirty = true;
            },
            RowChange::Settle { at } => {
                out.settled_at = Some(*at);
            },
            RowChange::Action { actioned_at, at, .. } => {
                out.actioned_at = *actioned_at;
                out.updated_at = *at;
                out.dirty = true;
            },
            RowChange::Overwrite { row: new } => {
                out = new.duplicate();
            },
            RowChange::Acknowledge { .. } => {
                out.dirty = false;
            },
            RowChange::BackfillUpdatedAt => {
                out.updated_at = row.created_at;
            },
            RowChange::MarkDirty => {
                out.dirty = true;
            },
        }
        out
    }
}

/// The thought table after an update.
pub open spec fn updated(rows: Seq<ThoughtRowView>, change: RowChangeView) -> Seq<ThoughtRowView> {
    Seq::new(rows.len(), |i: int| change.on(rows[i]))
}

/// How many rows an update applies to.
pub open spec fn affected(rows: Seq<ThoughtRowView>, change: RowChangeView) -> nat {
    kept(rows, |row: ThoughtRowView| change.hits(row)).len()
}

// ---- statements ------------------------------------------------------------

/// A change to the tables, as storage is asked to make it.
#[derive(Debug, Clone, PartialEq, Eq)]
pub enum Statement {
    InsertThought { row: ThoughtRow },
    UpdateThoughts { change: RowChange },
    InsertHistory { row: HistoryRow },
    /// The vector of a thought, in place of the one it had.
    PutEmbedding { row: EmbeddingRow },
    DeleteEmbedding { thought_id: Vec<u8> },
    DeleteLinks { thought_id: Vec<u8> },
    /// A tag, unless one of that name is there.
    AddTag { name: String },
    /// A link to the tag of that name, unless it is there.
    AddLink { thought_id: Vec<u8>, name: String },
    /// The tags that no link points to go.
    SweepTags,
    InsertSaved { row: SavedRow },
    DeleteSaved { id: Vec<u8> },
}

/// The name under which a tag is stored.
pub open spec fn stored_name(tags: Seq<Seq<char>>, name: Seq<char>) -> Option<Seq<char>> {
    first_where(tags, |n: Seq<char>| same_name(n, name))
}

/// The tag table with a tag of that name.
pub open spec fn with_tag(tags: Seq<Seq<char>>, name: Seq<char>) -> Seq<Seq<char>> {
    if stored_name(tags, name) is Some {
        tags
    } else {
        tags.push(name)
    }
}

/// The link table with a link to the tag of that name, if there is one.
pub open spec fn with_link(
    links: Seq<LinkRowView>,
    tags: Seq<Seq<char>>,
    thought_id: Seq<u8>,
    name: Seq<char>,
) -> Seq<LinkRowView> {
    match stored_name(tags, name) {
        Some(stored) => {
            let link = LinkRowView { thought_id, name: stored };
            if links.contains(link) {
                links
            } else {
                links.push(link)
            }
        },
        None => links,
    }
}

/// The links that are not of that thought.
pub open spec fn links_besides(links: Seq<LinkRowView>, thought_id: Seq<u8>) -> Seq<LinkRowView> {
    kept(links, |l: LinkRowView| l.thought_id != thought_id)
}

/// Some link points to the tag of that name.
pub open spec fn linked(links: Seq<LinkRowView>, name: Seq<char>) -> bool {
    any_where(links, |l: LinkRowView| l.name == name)
}

/// The tags that some link points to.
pub open spec fn swept(tags: Seq<Seq<char>>, links: Seq<LinkRowView>) -> Seq<Seq<char>> {
    kept(tags, |n: Seq<char>| linked(links, n))
}

/// The vectors that are not of that thought.
pub open spec fn embeddings_besides(
    embeddings: Seq<EmbeddingRowView>,
    thought_id: Seq<u8>,
) -> Seq<EmbeddingRowView> {
    kept(embeddings, |e: EmbeddingRowView| e.thought_id != thought_id)
}

/// The saved searches that do not have that identifier.
pub open spec fn saved_besides(saved: Seq<SavedRowView>, id: Seq<u8>) -> Seq<SavedRowView> {
    kept(saved, |s: SavedRowView| s.id != id)
}

/// The tables after a statement.
pub open spec fn step(t: TablesView, statement: Statement) -> TablesView {
    match statement {
        Statement::InsertThought { row } => TablesView { thoughts: t.thoughts.push(row@), ..t },
        Statement::UpdateThoughts { change } => TablesView {
            thoughts: updated(t.thoughts, change@),
            ..t
        },
        Statement::InsertHistory { row } => TablesView { history: t.history.push(row@), ..t },
        Statement::PutEmbedding { row } => TablesView {
            embeddings: embeddings_besides(t.embeddings, row.thought_id@).push(row@),
            ..t
        },
        Statement::DeleteEmbedding { thought_id } => TablesView {
            embeddings: embeddings_besides(t.embeddings, thought_id@),
            ..t
        },
        Statement::DeleteLinks { thought_id } => TablesView {
            links: links_besides(t.links, thought_id@),
            ..t
        },
        Statement::AddTag { name } => TablesView { tags: with_tag(t.tags, name@), ..t },
        Statement::AddLink { thought_id, name } => TablesView {
            links: with_link(t.links, t.tags, thought_id@, name@),
            ..t
        },
        Statement::SweepTags => TablesView { tags: swept(t.tags, t.links), ..t },
        Statement::InsertSaved { row } => TablesView { saved: t.saved.push(row@), ..t },
        Statement::DeleteSaved { id } => TablesView { saved: saved_besides(t.saved, id@), ..t },
    }
}

/// The tables after some statements, one after the other.
pub open spec fn replay(t: TablesView, statements: Seq<Statement>) -> TablesView
    decreases statements.len(),
{
    if statements.len() == 0 {
        t
    } else {
        step(replay(t, statements.drop_last()), statements.last())
    }
}

// ---- execution -------------------------------------------------------------

/// Applies an update to the rows and counts those it applied to.
fn update_rows(rows: &mut Vec<ThoughtRow>, change: &RowChange) -> (n: usize)
    ensures
        seen(final(rows)@) == updated(seen(old(rows)@), change@),
        n == affected(seen(old(rows)@), change@),
{
    let ghost before = seen(rows@);
    let ghost p = |row: ThoughtRowView| change@.hits(row);
    let mut n: usize = 0;
    let mut i: usize = 0;
    while i < rows.len()
        invariant
            i <= rows@.len(),
            before.len() == rows@.len(),
            p == (|row: ThoughtRowView| change@.hits(row)),
            n == kept(before.take(i as int), p).len(),
            n <= i,
            forall|j: int| 0 <= j < i ==> #[trigger] rows@[j]@ == change@.on(before[j]),
            forall|j: int| i <= j < before.len() ==> #[trigger] rows@[j]@ == before[j],
        decreases rows.len() - i,
    {
        proof {
            lemma_take_step(before, p, i as int);
        }
        if change.applies(&rows[i]) {
            let row = change.applied(&rows[i]);
            rows[i] = row;
            n += 1;
        }
        i += 1;
    }
    assert(before.take(before.len() as int) =~= before);
    assert(seen(rows@) =~= updated(before, change@));
    n
}

/// The place of the tag of that name.
fn find_tag(tags: &Vec<String>, name: &str) -> (r: Option<usize>)
    ensures
        match r {
            Some(i) => i < tags@.len() && stored_name(seen(tags@), name@) == Some(tags@[i as int]@),
            None => stored_name(seen(tags@), name@) is None,
        },
{
    let ghost all = seen(tags@);
    let ghost p = |n: Seq<char>| same_name(n, name@);
    let mut i: usize = 0;
    while i < tags.len()
        invariant
            i <= tags@.len(),
            all == seen(tags@),
            p == (|n: Seq<char>| same_name(n, name@)),
            first_where(all.take(i as int), p) is None,
        decreases tags.len() - i,
    {
        proof {
            lemma_take_step(all, p, i as int);
        }
        if name_same(tags[i].as_str(), name) {
            proof {
                lemma_first_where_extends(all, p, i + 1);
            }
            return Some(i);
        }
        i += 1;
    }
    assert(all.take(all.len() as int) =~= all);
    None
}

/// Whether the thought has a link to the tag stored under that name.
fn has_link(links: &Vec<LinkRow>, thought_id: &Vec<u8>, name: &String) -> (r: bool)
    ensures
        r == seen(links@).contains(LinkRowView { thought_id: thought_id@, name: name@ }),
{
    let ghost all = seen(links@);
    let ghost link = LinkRowView { thought_id: thought_id@, name: name@ };
    let mut i: usize = 0;
    while i < links.len()
        invariant
            i <= links@.len(),
            all == seen(links@),
            link == (LinkRowView { thought_id: thought_id@, name: name@ }),
            forall|j: int| 0 <= j < i ==> all[j] != link,
        decreases links.len() - i,
    {
        if blob_eq(links[i].thought_id.as_slice(), thought_id.as_slice()) && links[i].name
            == *name {
            assert(all[i as int] == link);
            return true;
        }
        i += 1;
    }
    false
}

/// Whether some link points to the tag stored under that name.
fn is_linked(links: &Vec<LinkRow>, name: &String) -> (r: bool)
    ensures
        r == linked(seen(links@), name@),
{
    let ghost all = seen(links@);
    let mut i: usize = 0;
    while i < links.len()
        invariant
            i <= links@.len(),
            all == seen(links@),
            forall|j: int| 0 <= j < i ==> (#[trigger] all[j]).name != name@,
        decreases links.len() - i,
    {
        if links[i].name == *name {
            assert(all[i as int].name == name@);
            return true;
        }
        i += 1;
    }
    false
}

impl Tables {
    /// Tables without a row.
    pub fn new() -> (out: Tables)
        ensures
            out@ == no_rows(),
    {
        let out = Tables {
            thoughts: Vec::new(),
            history: Vec::new(),
            embeddings: Vec::new(),
            tags: Vec::new(),
            links: Vec::new(),
            saved: Vec::new(),
        };
        assert(out@ =~= no_rows());
        out
    }

    /// Executes a statement. Says how many thoughts an update applied to.
    pub fn execute(&mut self, statement: &Statement) -> (n: usize)
        ensures
            final(self)@ == step(old(self)@, *statement),
            n == (match *statement {
                Statement::UpdateThoughts { change } => affected(old(self)@.thoughts, change@),
                _ => 0,
            }),
    {
        let ghost was = self@;
        let mut n: usize = 0;
        match statement {
            Statement::InsertThought { row } => {
                let ghost rows = self.thoughts@;
                self.thoughts.push(row.duplicate());
                assert(self@.thoughts =~= seen(rows).push(row@));
            },
            Statement::UpdateThoughts { change } => {
                n = update_rows(&mut self.thoughts, change);
            },
            Statement::InsertHistory { row } => {
                let ghost rows = self.history@;
                self.history.push(
                    HistoryRow {
                        thought_id: copy_blob(&row.thought_id),
                        text: row.text.clone(),
                        archived_at: row.archived_at,
                    },
                );
                assert(self@.history =~= seen(rows).push(row@));
            },
            Statement::PutEmbedding { row } => {
                drop_embedding(&mut self.embeddings, &row.thought_id);
                let ghost rows = self.embeddings@;
                self.embeddings.push(
                    EmbeddingRow {
                        thought_id: copy_blob(&row.thought_id),
                        vector: copy_blob(&row.vector),
                    },
                );
                assert(self@.embeddings =~= seen(rows).push(row@));
            },
            Statement::DeleteEmbedding { thought_id } => {
                drop_embedding(&mut self.embeddings, thought_id);
            },
            Statement::DeleteLinks { thought_id } => {
                let keep = |l: &LinkRow| -> (r: bool)
                    ensures
                        r == (l@.thought_id != thought_id@),
                {
                    !blob_eq(l.thought_id.as_slice(), thought_id.as_slice())
                };
                retain(&mut self.links, keep, Ghost(|l: LinkRowView| l.thought_id != thought_id@));
            },
            Statement::AddTag { name } => {
                if find_tag(&self.tags, name.as_str()).is_none() {
                    let ghost rows = self.tags@;
                    self.tags.push(name.clone());
                    assert(self@.tags =~= seen(rows).push(name@));
                }
            },
            Statement::AddLink { thought_id, name } => {
                match find_tag(&self.tags, name.as_str()) {
                    Some(i) => {
                        if !has_link(&self.links, thought_id, &self.tags[i]) {
                            let ghost rows = self.links@;
                            self.links.push(
                                LinkRow {
                                    thought_id: copy_blob(thought_id),
                                    name: self.tags[i].clone(),
                                },
                            );
                            assert(self@.links =~= seen(rows).push(
                                (LinkRowView {
                                    thought_id: thought_id@,
                                    name: self.tags@[i as int]@,
                                }),
                            ));
                        }
                    },
                    None => {},
                }
            },
            Statement::SweepTags => {
                let links = &self.links;
                let keep = |n: &String| -> (r: bool)
                    ensures
                        r == linked(seen(links@), n@),
                {
                    is_linked(links, n)
                };
                retain(&mut self.tags, keep, Ghost(|n: Seq<char>| linked(was.links, n)));
            },
            Statement::InsertSaved { row } => {
                let ghost rows = self.saved@;
                self.saved.push(
                    SavedRow {
                        id: copy_blob(&row.id),
                        name: row.name.clone(),
                        query: row.query.clone(),
                        created_at: row.created_at,
                    },
                );
                assert(self@.saved =~= seen(rows).push(row@));
            },
            Statement::DeleteSaved { id } => {
                let keep = |s: &SavedRow| -> (r: bool)
                    ensures
                        r == (s@.id != id@),
                {
                    !blob_eq(s.id.as_slice(), id.as_slice())
                };
                retain(&mut self.saved, keep, Ghost(|s: SavedRowView| s.id != id@));
            },
        }
        assert(self@ =~= step(was, *statement));
        n
    }
}

/// Drops the vector of a thought.
fn drop_embedding(embeddings: &mut Vec<EmbeddingRow>, thought_id: &Vec<u8>)
    ensures
        seen(final(embeddings)@) == embeddings_besides(seen(old(embeddings)@), thought_id@),
{
    let keep = |e: &EmbeddingRow| -> (r: bool)
        ensures
            r == (e@.thought_id != thought_id@),
    {
        !blob_eq(e.thought_id.as_slice(), thought_id.as_slice())
    };
    retain(embeddings, keep, Ghost(|e: EmbeddingRowView| e.thought_id != thought_id@));
}

/// Statements one after the other are the first ones, then the rest.
pub proof fn law_replay_splits(t: TablesView, first: Seq<Statement>, rest: Seq<Statement>)
    ensures
        replay(t, first + rest) == replay(replay(t, first), rest),
    decreases rest.len(),
{
    if rest.len() == 0 {
        assert(first + rest =~= first);
    } else {
        assert((first + rest).drop_last() =~= first + rest.drop_last());
        law_replay_splits(t, first, rest.drop_last());
    }
}

} // verus!
