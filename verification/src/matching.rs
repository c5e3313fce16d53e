//! Finding thoughts: by their words, by their meaning, and by both.

use vstd::prelude::*;
use vstd::string::*;

use crate::clock::{clock_failed, clock_shows, now_unix_millis};
use crate::decimal::{decimal, push_count};
use crate::embed::{
    bad_vector, blob_to_vector, float_place, place_of, similar_enough, vector_of, TextEmbedder,
    INFINITY_BITS, MIN_SEMANTIC_SIMILARITY_BITS,
};
use crate::error::{Error, Result};
use crate::fusion::{fuse, fused};
use crate::ident::Uuid;
use crate::model::{find_live, live, thought_of};
use crate::order::blob_eq;
use crate::query::into_thought;
use crate::rank::{cut, rank, ranked, select, views, RowOrder};
use crate::rows::{
    first_where, kept, law_first_where, law_kept_all, lemma_first_where_extends, lemma_take_step, limited, seen,
};
use crate::search::{
    build_match_query, extract_ranges, match_query, read_snippet, ThoughtMatch, ThoughtMatchView,
};
use crate::store::{answers, not_found, ThoughtStore};
use crate::tables::{
    bad_id, uuid_from_blob, EmbeddingRowView, Tables, TablesView, ThoughtRow, ThoughtRowView,
};
use crate::text::whitespace;
use crate::thought::{Thought, ThoughtView};

verus! {

// ---- by words --------------------------------------------------------------

/// A match of the text index: the thought, and a snippet of its text with the
/// matched terms marked.
#[derive(Debug, Clone, PartialEq, Eq)]
pub struct IndexHit {
    pub id: Vec<u8>,
    pub marked_snippet: String,
}

/// What an `IndexHit` holds.
#[verifier::ext_equal]
pub struct IndexHitView {
    pub id: Seq<u8>,
    pub marked_snippet: Seq<char>,
}

impl View for IndexHit {
    type V = IndexHitView;

    open spec fn view(&self) -> IndexHitView {
        IndexHitView { id: self.id@, marked_snippet: self.marked_snippet@ }
    }
}

/// The matches of live thoughts.
pub open spec fn live_hits(t: TablesView, hits: Seq<IndexHitView>) -> Seq<IndexHitView> {
    kept(hits, |hit: IndexHitView| find_live(t.thoughts, hit.id) is Some)
}

/// How a match of a live thought is shown.
pub open spec fn hit_match(t: TablesView, hit: IndexHitView, now: i64) -> ThoughtMatchView {
    ThoughtMatchView {
        thought: thought_of(find_live(t.thoughts, hit.id).unwrap(), now),
        snippet: read_snippet(hit.marked_snippet).plain,
        ranges: read_snippet(hit.marked_snippet).ranges,
    }
}

/// The result shows the matches, or says that the first unreadable one is.
pub open spec fn shows_hits(
    r: Result<Vec<ThoughtMatch>>,
    t: TablesView,
    hits: Seq<IndexHitView>,
    now: i64,
) -> bool {
    match first_where(hits, |hit: IndexHitView| hit.id.len() != 16) {
        Some(hit) => r matches Err(e) && bad_id(e, hit.id),
        None => r matches Ok(out) && seen(out@) == Seq::new(
            hits.len(),
            |i: int| hit_match(t, hits[i], now),
        ),
    }
}

/// What a search by words finds, given what the text index matched: nothing for
/// a query without words.
pub open spec fn found_by_words(
    r: Result<Vec<ThoughtMatch>>,
    t: TablesView,
    query: Seq<char>,
    limit: nat,
    hits: Seq<IndexHitView>,
    now: i64,
) -> bool {
    if match_query(query) is None {
        r matches Ok(out) && out@.len() == 0
    } else {
        shows_hits(r, t, limited(live_hits(t, hits), limit), now)
    }
}

// ---- by meaning ------------------------------------------------------------

/// A live thought with its stored vector.
pub struct Candidate<'a> {
    pub row: &'a ThoughtRow,
    pub vector: &'a Vec<u8>,
}

/// What a `Candidate` holds.
#[verifier::ext_equal]
pub struct CandidateView {
    pub row: ThoughtRowView,
    pub vector: Seq<u8>,
}

impl<'a> View for Candidate<'a> {
    type V = CandidateView;

    open spec fn view(&self) -> CandidateView {
        CandidateView { row: self.row@, vector: self.vector@ }
    }
}

/// The live thoughts with a stored vector, in the order of the vectors.
pub open spec fn candidates(
    thoughts: Seq<ThoughtRowView>,
    embeddings: Seq<EmbeddingRowView>,
) -> Seq<CandidateView>
    decreases embeddings.len(),
{
    if embeddings.len() == 0 {
        Seq::empty()
    } else {
        let rest = candidates(thoughts, embeddings.drop_last());
        match find_live(thoughts, embeddings.last().thought_id) {
            Some(row) => rest.push(CandidateView { row, vector: embeddings.last().vector }),
            None => rest,
        }
    }
}

/// The candidate is the thought to leave out.
pub open spec fn left_out(c: CandidateView, exclude: Option<Uuid>) -> bool {
    exclude matches Some(id) && c.row.id == id@
}

/// The candidate cannot be compared with a vector of `dims` components.
pub open spec fn faulty(c: CandidateView, dims: nat, exclude: Option<Uuid>) -> bool {
    c.row.id.len() != 16 || (!left_out(c, exclude) && (match vector_of(c.vector) {
        Some(v) => v.len() != dims,
        None => true,
    }))
}

/// The error for a stored vector that has another length than the query's.
pub open spec fn bad_dims(e: Error, stored: int, dims: int) -> bool {
    e matches Error::CorruptRow { table, detail } && table@ == "embeddings"@ && detail@
        == "stored vector has "@ + decimal(stored) + " dims, query has "@ + decimal(dims)
}

/// The error for a candidate that cannot be compared.
pub open spec fn fault(e: Error, c: CandidateView, dims: nat) -> bool {
    if c.row.id.len() != 16 {
        bad_id(e, c.row.id)
    } else {
        match vector_of(c.vector) {
            Some(v) => bad_dims(e, v.len() as int, dims as int),
            None => bad_vector(e, c.vector),
        }
    }
}

/// What comparing two vectors may give.
pub open spec fn compared<E: TextEmbedder>(a: Seq<u32>, b: Seq<u32>, similarity: u32) -> bool {
    exists|x: &Vec<u32>, y: &Vec<u32>|
        x@ == a && y@ == b && #[trigger] call_ensures(E::dot, (x, y), similarity)
}

/// A thought with its similarity to a query.
pub struct Scored {
    pub similarity: u32,
    pub thought: Thought,
}

/// What a `Scored` holds.
#[verifier::ext_equal]
pub struct ScoredView {
    pub similarity: u32,
    pub thought: ThoughtView,
}

impl View for Scored {
    type V = ScoredView;

    open spec fn view(&self) -> ScoredView {
        ScoredView { similarity: self.similarity, thought: self.thought@ }
    }
}

/// Most similar first.
pub struct MostSimilarFirst;

impl RowOrder<Scored> for MostSimilarFirst {
    open spec fn before(a: ScoredView, b: ScoredView) -> bool {
        float_place(b.similarity) < float_place(a.similarity)
    }

    proof fn asymmetric(a: ScoredView, b: ScoredView) {
    }

    proof fn negatively_transitive(a: ScoredView, b: ScoredView, c: ScoredView) {
    }

    fn is_before(a: &Scored, b: &Scored) -> (r: bool) {
        place_of(b.similarity) < place_of(a.similarity)
    }
}

/// How a thought found by its meaning is shown: its whole text, with nothing to
/// highlight.
pub open spec fn whole_match(thought: ThoughtView) -> ThoughtMatchView {
    ThoughtMatchView { thought, snippet: thought.text, ranges: Seq::empty() }
}

/// The thoughts similar enough, most similar first, at most `top_k`.
pub open spec fn most_similar(scored: Seq<ScoredView>, top_k: nat) -> Seq<ThoughtMatchView> {
    let best = limited(
        ranked::<Scored, MostSimilarFirst>(
            kept(scored, |s: ScoredView| similar_enough(s.similarity)),
        ),
        top_k,
    );
    Seq::new(best.len(), |i: int| whole_match(best[i].thought))
}

/// The candidates to compare with.
pub open spec fn comparable(
    all: Seq<CandidateView>,
    exclude: Option<Uuid>,
) -> Seq<CandidateView> {
    kept(all, |c: CandidateView| !left_out(c, exclude))
}

/// `scored` are the thoughts of the candidates, each with what comparing its
/// vector with the query's gave.
pub open spec fn scored_so<E: TextEmbedder>(
    scored: Seq<ScoredView>,
    rows: Seq<CandidateView>,
    query: Seq<u32>,
    now: i64,
) -> bool {
    &&& scored.len() == rows.len()
    &&& forall|i: int|
        0 <= i < rows.len() ==> (#[trigger] scored[i]).thought == thought_of(rows[i].row, now)
            && vector_of(rows[i].vector) is Some && compared::<E>(
            query,
            vector_of(rows[i].vector).unwrap(),
            scored[i].similarity,
        )
}

/// What ranking the stored vectors against the query's finds.
pub open spec fn found_by_vector<E: TextEmbedder>(
    r: Result<Vec<ThoughtMatch>>,
    t: TablesView,
    query: Seq<u32>,
    top_k: nat,
    exclude: Option<Uuid>,
    now: i64,
) -> bool {
    let all = candidates(t.thoughts, t.embeddings);
    match first_where(all, |c: CandidateView| faulty(c, query.len(), exclude)) {
        Some(c) => r matches Err(e) && fault(e, c, query.len()),
        None => r matches Ok(out) && exists|scored: Seq<ScoredView>| #[trigger]
            scored_so::<E>(scored, comparable(all, exclude), query, now) && seen(out@)
                == most_similar(scored, top_k),
    }
}

/// What a search by the meaning of a text finds, whatever the embedder and the
/// clock answered.
pub open spec fn found_by_meaning<E: TextEmbedder>(
    r: Result<Vec<ThoughtMatch>>,
    e: E,
    t: TablesView,
    text: Seq<char>,
    top_k: nat,
    exclude: Option<Uuid>,
) -> bool {
    exists|answer: Result<Vec<u32>>| #[trigger]
        answers(e, text, answer) && (match answer {
            Ok(v) => ranked_some_time::<E>(r, t, v@, top_k, exclude),
            Err(error) => r == Err::<Vec<ThoughtMatch>, Error>(error),
        })
}

/// The stored vectors were ranked at some time, or the clock failed.
pub open spec fn ranked_some_time<E: TextEmbedder>(
    r: Result<Vec<ThoughtMatch>>,
    t: TablesView,
    query: Seq<u32>,
    top_k: nat,
    exclude: Option<Uuid>,
) -> bool {
    (r matches Err(error) && clock_failed(error)) || exists|now: i64|
        clock_shows(now) && #[trigger] found_by_vector::<E>(r, t, query, top_k, exclude, now)
}

/// The stored vector of a thought.
pub open spec fn find_vector(t: TablesView, id: Seq<u8>) -> Option<EmbeddingRowView> {
    first_where(t.embeddings, |e: EmbeddingRowView| e.thought_id == id)
}

/// A text without anything but whitespace.
pub open spec fn blank(s: Seq<char>) -> bool {
    forall|i: int| 0 <= i < s.len() ==> whitespace(#[trigger] s[i])
}

/// Whether a text holds nothing but whitespace.
pub fn is_blank(text: &str) -> (r: bool)
    ensures
        r == blank(text@),
{
    let ghost s = text@;
    for c in it: text.chars()
        invariant
            it.seq() == s,
            s == text@,
            forall|i: int| 0 <= i < it.index() ==> whitespace(#[trigger] s[i]),
    {
        if !c.is_whitespace() {
            assert(!whitespace(s[it.index() as int]));
            return false;
        }
    }
    true
}

/// Keeps the thoughts similar enough, most similar first, at most `top_k`.
pub fn rank_scored(scored: &Vec<Scored>, top_k: usize) -> (out: Vec<ThoughtMatch>)
    ensures
        seen(out@) == most_similar(seen(scored@), top_k as nat),
{
    let keep = |s: &Scored| -> (r: bool)
        ensures
            r == similar_enough(s@.similarity),
    {
        MIN_SEMANTIC_SIMILARITY_BITS <= s.similarity && s.similarity <= INFINITY_BITS
    };
    let found = select(scored, keep, Ghost(|s: ScoredView| similar_enough(s.similarity)));
    let mut best = rank::<Scored, MostSimilarFirst>(&found);
    cut(&mut best, top_k);
    let ghost wanted = views(best@);
    let mut out: Vec<ThoughtMatch> = Vec::new();
    let mut i: usize = 0;
    while i < best.len()
        invariant
            i <= best@.len(),
            wanted == views(best@),
            out@.len() == i,
            forall|j: int| 0 <= j < i ==> (#[trigger] out@[j])@ == whole_match(wanted[j].thought),
        decreases best.len() - i,
    {
        let s: &Scored = best[i];
        assert(wanted[i as int] == s@);
        let m = ThoughtMatch {
            thought: s.thought.duplicate(),
            snippet: s.thought.text.clone(),
            ranges: Vec::new(),
        };
        assert(m@ =~= whole_match(s@.thought));
        out.push(m);
        i += 1;
    }
    assert(seen(out@) =~= most_similar(seen(scored@), top_k as nat));
    out
}

/// The place of the live row with that identifier.
fn find_live_row(thoughts: &Vec<ThoughtRow>, id: &Vec<u8>) -> (r: Option<usize>)
    ensures
        match r {
            Some(i) => i < thoughts@.len() && find_live(seen(thoughts@), id@) == Some(
                thoughts@[i as int]@,
            ),
            None => find_live(seen(thoughts@), id@) is None,
        },
{
    let ghost all = seen(thoughts@);
    let ghost p = |row: ThoughtRowView| row.id == id@ && live(row);
    let mut i: usize = 0;
    while i < thoughts.len()
        invariant
            i <= thoughts@.len(),
            all == seen(thoughts@),
            p == (|row: ThoughtRowView| row.id == id@ && live(row)),
            first_where(all.take(i as int), p) is None,
        decreases thoughts.len() - i,
    {
        proof {
            lemma_take_step(all, p, i as int);
        }
        if thoughts[i].deleted_at.is_none() && blob_eq(thoughts[i].id.as_slice(), id.as_slice()) {
            proof {
                lemma_first_where_extends(all, p, i + 1);
            }
            return Some(i);
        }
        i += 1;
    }
    assert(all.take(all.len() as int) =~= all);
    None
}

/// The live thoughts with a stored vector.
fn list_candidates<'a>(tables: &'a Tables) -> (out: Vec<Candidate<'a>>)
    ensures
        seen(out@) == candidates(tables@.thoughts, tables@.embeddings),
{
    let ghost all = tables@.embeddings;
    let mut out: Vec<Candidate<'a>> = Vec::new();
    assert(seen(out@) =~= candidates(tables@.thoughts, all.take(0)));
    let mut i: usize = 0;
    while i < tables.embeddings.len()
        invariant
            i <= tables.embeddings@.len(),
            all == tables@.embeddings,
            seen(out@) == candidates(tables@.thoughts, all.take(i as int)),
        decreases tables.embeddings.len() - i,
    {
        proof {
            assert(all.take(i + 1).drop_last() =~= all.take(i as int));
            assert(all.take(i + 1).last() == tables.embeddings@[i as int]@);
        }
        let e = &tables.embeddings[i];
        let ghost before = out@;
        match find_live_row(&tables.thoughts, &e.thought_id) {
            Some(k) => {
                out.push(Candidate { row: &tables.thoughts[k], vector: &e.vector });
                assert(seen(out@) =~= seen(before).push(
                    CandidateView { row: tables.thoughts@[k as int]@, vector: e.vector@ },
                ));
            },
            None => {},
        }
        i += 1;
    }
    assert(all.take(all.len() as int) =~= all);
    out
}

/// The error for a stored vector that has another length than the query's.
fn dims_error(stored: usize, dims: usize) -> (e: Error)
    ensures
        bad_dims(e, stored as int, dims as int),
{
    let mut detail = "stored vector has ".to_owned();
    push_count(&mut detail, stored);
    detail.append(" dims, query has ");
    push_count(&mut detail, dims);
    Error::CorruptRow { table: "embeddings", detail }
}

impl<E: TextEmbedder> ThoughtStore<E> {
    /// Finds thoughts by their words at the time `now`. `hits` is what the text
    /// index matches for `build_match_query(query)`, best first.
    pub fn search_text_at(
        &self,
        query: &str,
        limit: usize,
        hits: &Vec<IndexHit>,
        now: i64,
    ) -> (r: Result<Vec<ThoughtMatch>>)
        ensures
            found_by_words(r, self@, query@, limit as nat, seen(hits@), now),
    {
        if build_match_query(query).is_none() {
            return Ok(Vec::new());
        }
        let keep = |hit: &IndexHit| -> (r: bool)
            ensures
                r == (find_live(self@.thoughts, hit@.id) is Some),
        {
            find_live_row(&self.tables.thoughts, &hit.id).is_some()
        };
        let mut found = select(
            hits,
            keep,
            Ghost(|hit: IndexHitView| find_live(self@.thoughts, hit.id) is Some),
        );
        cut(&mut found, limit);
        let ghost all = limited(live_hits(self@, seen(hits@)), limit as nat);
        proof {
            law_kept_all(
                seen(hits@),
                |hit: IndexHitView| find_live(self@.thoughts, hit.id) is Some,
            );
        }
        assert(all == views(found@));
        assert(forall|i: int|
            0 <= i < all.len() ==> find_live(self@.thoughts, (#[trigger] all[i]).id) is Some);
        let ghost p = |hit: IndexHitView| hit.id.len() != 16;
        let mut out: Vec<ThoughtMatch> = Vec::new();
        let mut i: usize = 0;
        while i < found.len()
            invariant
                i <= found@.len(),
                all == views(found@),
                p == (|hit: IndexHitView| hit.id.len() != 16),
                first_where(all.take(i as int), p) is None,
                forall|i: int|
                    0 <= i < all.len() ==> find_live(self@.thoughts, (#[trigger] all[i]).id) is Some,
                out@.len() == i,
                forall|j: int| 0 <= j < i ==> (#[trigger] out@[j])@ == hit_match(self@, all[j], now),
                match_query(query@) is Some,
                all == limited(live_hits(self@, seen(hits@)), limit as nat),
            decreases found.len() - i,
        {
            proof {
                lemma_take_step(all, p, i as int);
                law_first_where(
                    self@.thoughts,
                    |row: ThoughtRowView| row.id == all[i as int].id && live(row),
                );
            }
            let hit: &IndexHit = found[i];
            assert(all[i as int] == hit@);
            let id = match uuid_from_blob(&hit.id) {
                Ok(id) => id,
                Err(e) => {
                    proof {
                        lemma_first_where_extends(all, p, i + 1);
                    }
                    return Err(e);
                },
            };
            match find_live_row(&self.tables.thoughts, &hit.id) {
                Some(k) => {
                    let (snippet, ranges) = extract_ranges(hit.marked_snippet.as_str());
                    let m = ThoughtMatch {
                        thought: into_thought(&self.tables.thoughts[k], id, now),
                        snippet,
                        ranges,
                    };
                    assert(m@ =~= hit_match(self@, hit@, now));
                    out.push(m);
                },
                None => {},
            }
            i += 1;
        }
        assert(all.take(all.len() as int) =~= all);
        assert(seen(out@) =~= Seq::new(all.len(), |i: int| hit_match(self@, all[i], now)));
        Ok(out)
    }

    /// Finds thoughts by their words, best match first. `query` is raw user
    /// input: literal words, the last one matched as a prefix.
    pub fn search_text(&self, query: &str, limit: usize, hits: &Vec<IndexHit>) -> (r: Result<
        Vec<ThoughtMatch>,
    >)
        ensures
            words_some_time(r, self@, query@, limit as nat, seen(hits@)),
    {
        match now_unix_millis() {
            Ok(now) => self.search_text_at(query, limit, hits, now),
            Err(e) => Err(e),
        }
    }

    /// Compares the query's vector with the stored ones.
    #[verifier::spinoff_prover]
    #[verifier::rlimit(40)]
    fn score_candidates(
        &self,
        query_vector: &Vec<u32>,
        exclude: Option<Uuid>,
        now: i64,
    ) -> (r: Result<Vec<Scored>>)
        ensures
            ({
                let all = candidates(self@.thoughts, self@.embeddings);
                match first_where(
                    all,
                    |c: CandidateView| faulty(c, query_vector@.len(), exclude),
                ) {
                    Some(c) => r matches Err(e) && fault(e, c, query_vector@.len()),
                    None => r matches Ok(scored) && scored_so::<E>(
                        seen(scored@),
                        comparable(all, exclude),
                        query_vector@,
                        now,
                    ),
                }
            }),
    {
        let list = list_candidates(&self.tables);
        let ghost all = candidates(self@.thoughts, self@.embeddings);
        let ghost p = |c: CandidateView| faulty(c, query_vector@.len(), exclude);
        let ghost q = |c: CandidateView| !left_out(c, exclude);
        let mut scored: Vec<Scored> = Vec::new();
        let mut i: usize = 0;
        while i < list.len()
            invariant
                i <= list@.len(),
                all == seen(list@),
                all == candidates(self@.thoughts, self@.embeddings),
                p == (|c: CandidateView| faulty(c, query_vector@.len(), exclude)),
                q == (|c: CandidateView| !left_out(c, exclude)),
                first_where(all.take(i as int), p) is None,
                scored_so::<E>(
                    seen(scored@),
                    kept(all.take(i as int), q),
                    query_vector@,
                    now,
                ),
            decreases list.len() - i,
        {
            proof {
                lemma_take_step(all, p, i as int);
                lemma_take_step(all, q, i as int);
                if p(all[i as int]) {
                    lemma_first_where_extends(all, p, i + 1);
                }
            }
            let c = &list[i];
            assert(all[i as int] == c@);
            let ghost done = kept(all.take(i as int), q);
            let ghost before = scored@;
            let id = match uuid_from_blob(&c.row.id) {
                Ok(id) => id,
                Err(e) => return Err(e),
            };
            let skip = match &exclude {
                Some(left) => left.same(&id),
                None => false,
            };
            if !skip {
                let vector = match blob_to_vector(c.vector) {
                    Ok(vector) => vector,
                    Err(e) => return Err(e),
                };
                if vector.len() != query_vector.len() {
                    return Err(dims_error(vector.len(), query_vector.len()));
                }
                let similarity = E::dot(query_vector, &vector);
                assert(call_ensures(E::dot, (query_vector, &vector), similarity));
                assert(compared::<E>(query_vector@, vector@, similarity));
                scored.push(Scored { similarity, thought: into_thought(c.row, id, now) });
                proof {
                    let s = scored@[scored@.len() - 1]@;
                    assert(seen(scored@) =~= seen(before).push(s));
                    assert(scored_so::<E>(
                        seen(scored@),
                        done.push(c@),
                        query_vector@,
                        now,
                    )) by {
                        assert forall|k: int| 0 <= k < done.len() implies (#[trigger] seen(
                            scored@,
                        )[k]) == seen(before)[k] by {
                        }
                    }
                }
            }
            i += 1;
        }
        assert(all.take(all.len() as int) =~= all);
        Ok(scored)
    }

    /// Ranks the stored vectors against the query's at the time `now`, best
    /// first, without those that are not similar enough and without the thought
    /// to leave out: a thought is always most similar to itself.
    pub fn rank_by_vector(
        &self,
        query_vector: &Vec<u32>,
        top_k: usize,
        exclude: Option<Uuid>,
        now: i64,
    ) -> (r: Result<Vec<ThoughtMatch>>)
        ensures
            found_by_vector::<E>(r, self@, query_vector@, top_k as nat, exclude, now),
    {
        match self.score_candidates(query_vector, exclude, now) {
            Ok(scored) => Ok(rank_scored(&scored, top_k)),
            Err(e) => Err(e),
        }
    }

    /// Ranks the stored vectors against the query's.
    fn rank_by_vector_now(
        &self,
        query_vector: &Vec<u32>,
        top_k: usize,
        exclude: Option<Uuid>,
    ) -> (r: Result<Vec<ThoughtMatch>>)
        ensures
            ranked_some_time::<E>(r, self@, query_vector@, top_k as nat, exclude),
    {
        match now_unix_millis() {
            Ok(now) => self.rank_by_vector(query_vector, top_k, exclude, now),
            Err(e) => Err(e),
        }
    }

    /// Embeds a text and ranks the stored vectors against it.
    fn search_by_meaning(
        &self,
        embedder: &E,
        text: &str,
        top_k: usize,
        exclude: Option<Uuid>,
    ) -> (r: Result<Vec<ThoughtMatch>>)
        ensures
            found_by_meaning::<E>(r, *embedder, self@, text@, top_k as nat, exclude),
    {
        let answer = embedder.embed(text);
        assert(call_ensures(E::embed, (embedder, text), answer));
        assert(answers(*embedder, text@, answer));
        match answer {
            Ok(vector) => self.rank_by_vector_now(&vector, top_k, exclude),
            Err(e) => Err(e),
        }
    }

    /// Finds thoughts by the meaning of `query`, most similar first. Fails where
    /// no embedder is attached.
    pub fn search_semantic(&self, query: &str, top_k: usize) -> (r: Result<Vec<ThoughtMatch>>)
        ensures
            match self.embedder {
                Some(e) => found_by_meaning::<E>(r, e, self@, query@, top_k as nat, None),
                None => r matches Err(error) && error is NoEmbedder,
            },
    {
        match &self.embedder {
            Some(embedder) => self.search_by_meaning(embedder, query, top_k, None),
            None => Err(Error::NoEmbedder),
        }
    }

    /// Thoughts related to a draft that is being typed. `exclude` is the thought
    /// being edited, which should not suggest itself. Without an embedder, or
    /// for a blank draft, there are none: suggestions are an enhancement, never
    /// a failure.
    pub fn find_related(&self, draft_text: &str, top_k: usize, exclude: Option<Uuid>) -> (r: Result<
        Vec<ThoughtMatch>,
    >)
        ensures
            related_found(r, *self, draft_text@, top_k as nat, exclude),
    {
        if is_blank(draft_text) {
            return Ok(Vec::new());
        }
        match &self.embedder {
            Some(embedder) => self.search_by_meaning(embedder, draft_text, top_k, exclude),
            None => Ok(Vec::new()),
        }
    }

    /// The place of the stored vector of a thought.
    fn vector_at(&self, id: &Uuid) -> (r: Option<usize>)
        ensures
            match r {
                Some(i) => i < self.tables.embeddings@.len() && find_vector(self@, id@) == Some(
                    self.tables.embeddings@[i as int]@,
                ),
                None => find_vector(self@, id@) is None,
            },
    {
        let ghost all = self@.embeddings;
        let ghost p = |e: EmbeddingRowView| e.thought_id == id@;
        let mut i: usize = 0;
        while i < self.tables.embeddings.len()
            invariant
                i <= self.tables.embeddings@.len(),
                all == self@.embeddings,
                p == (|e: EmbeddingRowView| e.thought_id == id@),
                first_where(all.take(i as int), p) is None,
            decreases self.tables.embeddings.len() - i,
        {
            proof {
                lemma_take_step(all, p, i as int);
            }
            if id.is_blob(self.tables.embeddings[i].thought_id.as_slice()) {
                proof {
                    lemma_first_where_extends(all, p, i + 1);
                }
                return Some(i);
            }
            i += 1;
        }
        assert(all.take(all.len() as int) =~= all);
        None
    }

    /// Thoughts related to a stored one, by its stored vector: nothing is
    /// embedded, so no embedder is needed. There are none while the thought has
    /// no vector.
    pub fn find_related_to(&self, id: Uuid, top_k: usize) -> (r: Result<Vec<ThoughtMatch>>)
        ensures
            related_to_found::<E>(r, self@, id, top_k as nat),
    {
        if self.live_row_at(&id).is_none() {
            return Err(Error::NotFound { id });
        }
        let i = match self.vector_at(&id) {
            Some(i) => i,
            None => return Ok(Vec::new()),
        };
        match blob_to_vector(&self.tables.embeddings[i].vector) {
            Ok(query_vector) => self.rank_by_vector_now(&query_vector, top_k, Some(id)),
            Err(e) => Err(e),
        }
    }

    /// Finds thoughts by words and by meaning, and merges the two rankings. Goes
    /// by words alone where no embedder is attached.
    pub fn search_combined(&self, query: &str, top_k: usize, hits: &Vec<IndexHit>) -> (r: Result<
        Vec<ThoughtMatch>,
    >)
        ensures
            found_by_both(r, *self, query@, top_k as nat, seen(hits@)),
    {
        let found = self.search_text(query, top_k, hits);
        let keyword = match found {
            Ok(keyword) => keyword,
            Err(e) => {
                let r = Err(e);
                let none: Result<Vec<ThoughtMatch>> = Ok(Vec::new());
                assert(combined(r, found, none, top_k as nat));
                return r;
            },
        };
        let related = if self.has_embedder() {
            self.search_semantic(query, top_k)
        } else {
            Ok(Vec::new())
        };
        let semantic = match related {
            Ok(semantic) => semantic,
            Err(e) => {
                let r = Err(e);
                assert(combined(r, found, related, top_k as nat));
                return r;
            },
        };
        let r = Ok(fuse(keyword, semantic, top_k));
        assert(combined(r, found, related, top_k as nat));
        r
    }
}

/// What a search by words found at some time, unless the clock failed.
pub open spec fn words_some_time(
    r: Result<Vec<ThoughtMatch>>,
    t: TablesView,
    query: Seq<char>,
    limit: nat,
    hits: Seq<IndexHitView>,
) -> bool {
    (r matches Err(e) && clock_failed(e)) || exists|now: i64|
        clock_shows(now) && #[trigger] found_by_words(r, t, query, limit, hits, now)
}

/// What a search by words and by meaning finds: each of the two is done, the
/// second one only after the first succeeded and where an embedder is attached,
/// and what they found is merged.
pub open spec fn found_by_both<E: TextEmbedder>(
    r: Result<Vec<ThoughtMatch>>,
    store: ThoughtStore<E>,
    query: Seq<char>,
    top_k: nat,
    hits: Seq<IndexHitView>,
) -> bool {
    exists|k: Result<Vec<ThoughtMatch>>, s: Result<Vec<ThoughtMatch>>| #[trigger]
        combined(r, k, s, top_k) && words_some_time(k, store@, query, top_k, hits) && (match store.embedder {
            Some(e) => k is Ok ==> found_by_meaning::<E>(s, e, store@, query, top_k, None),
            None => s matches Ok(out) && out@.len() == 0,
        })
}

/// What is related to a draft: nothing where it is blank or no embedder is
/// attached, else what its meaning finds.
pub open spec fn related_found<E: TextEmbedder>(
    r: Result<Vec<ThoughtMatch>>,
    store: ThoughtStore<E>,
    draft: Seq<char>,
    top_k: nat,
    exclude: Option<Uuid>,
) -> bool {
    if blank(draft) || store.embedder is None {
        r matches Ok(out) && out@.len() == 0
    } else {
        found_by_meaning::<E>(r, store.embedder.unwrap(), store@, draft, top_k, exclude)
    }
}

/// What is related to a stored thought: what its stored vector finds besides
/// itself, nothing while it has none, and an error where the thought is not
/// there or its vector cannot be read.
pub open spec fn related_to_found<E: TextEmbedder>(
    r: Result<Vec<ThoughtMatch>>,
    t: TablesView,
    id: Uuid,
    top_k: nat,
) -> bool {
    match find_live(t.thoughts, id@) {
        None => r matches Err(e) && not_found(e, id),
        Some(_) => match find_vector(t, id@) {
            None => r matches Ok(out) && out@.len() == 0,
            Some(row) => match vector_of(row.vector) {
                None => r matches Err(e) && bad_vector(e, row.vector),
                Some(v) => ranked_some_time::<E>(r, t, v, top_k, Some(id)),
            },
        },
    }
}

/// The result merges what was found by words and by meaning, or is the first
/// error.
pub open spec fn combined(
    r: Result<Vec<ThoughtMatch>>,
    keyword: Result<Vec<ThoughtMatch>>,
    semantic: Result<Vec<ThoughtMatch>>,
    top_k: nat,
) -> bool {
    match keyword {
        Err(e) => r == Err::<Vec<ThoughtMatch>, Error>(e),
        Ok(k) => match semantic {
            Err(e) => r == Err::<Vec<ThoughtMatch>, Error>(e),
            Ok(s) => r matches Ok(out) && seen(out@) == fused(seen(k@), seen(s@), top_k),
        },
    }
}

} // verus!
