//! What a search finds: which thoughts, in which order, and how they are shown.

use vstd::prelude::*;

use crate::clock::{clock_failed, clock_shows};
use crate::embed::{similar_enough, vector_of, TextEmbedder};
use crate::error::{Error, Result};
use crate::fusion::fused;
use crate::ident::Uuid;
use crate::list_laws::{law_thought_found, lemma_clock, lives};
use crate::matching::{
    blank, candidates, combined, comparable, faulty, find_vector, found_by_meaning, found_by_vector,
    found_by_words, left_out, live_hits, most_similar, ranked_some_time, related_found,
    related_to_found, scored_so, words_some_time, CandidateView, IndexHit, IndexHitView,
    MostSimilarFirst, Scored, ScoredView,
};
use crate::model::find_live;
use crate::rank::{law_ranked_kept_lists, ranked, RowOrder};
use crate::row_laws::{holds_vector, law_vector_read};
use crate::rows::{
    first_where, kept, law_first_where, law_kept_lists, law_limited, law_lists_alike, limited,
    lists_exactly, seen,
};
use crate::search::{
    law_blank_asks_nothing, law_snippet_drops_marks, read_snippet, without_marks, ThoughtMatch,
    ThoughtMatchView,
};
use crate::store::{answers, embeds, ThoughtStore};
use crate::tables::{EmbeddingRowView, TablesView, ThoughtRowView};
use crate::text::whitespace;
use crate::thought::ThoughtView;

verus! {

/// What readers see of a row at a time.
pub open spec fn seen_as(thought: ThoughtView, row: ThoughtRowView, now: i64) -> bool {
    &&& thought.id == row.id && thought.text == row.text
    &&& thought.created_at == row.created_at && thought.updated_at == row.updated_at
    &&& thought.is_settled <==> row.settled_at is Some || now - row.updated_at > 3_600_000
    &&& thought.is_actioned <==> row.actioned_at is Some
}

// ---- by words --------------------------------------------------------------

/// The hits that count are those of thoughts that are no tombstones, as the index
/// ranked them.
pub proof fn law_live_hits(t: TablesView, hits: Seq<IndexHitView>) -> (at: Seq<int>)
    ensures
        lists_exactly(
            live_hits(t, hits),
            hits,
            |hit: IndexHitView| lives(t.thoughts, hit.id),
            |a: IndexHitView, b: IndexHitView| false,
            at,
        ),
{
    let p = |hit: IndexHitView| find_live(t.thoughts, hit.id) is Some;
    let q = |hit: IndexHitView| lives(t.thoughts, hit.id);
    let none = |a: IndexHitView, b: IndexHitView| false;
    let at = law_kept_lists(hits, p);
    assert forall|i: int| 0 <= i < hits.len() implies p(#[trigger] hits[i]) == q(hits[i]) by {
        law_thought_found(t.thoughts, hits[i].id);
    }
    law_lists_alike(live_hits(t, hits), hits, p, none, q, none, at);
    at
}

/// A hit is shown as the thought that it is of, as readers see it, and as the
/// snippet without its marks, with what was marked as ranges.
pub open spec fn shows_hit(
    found: ThoughtMatchView,
    t: TablesView,
    hit: IndexHitView,
    now: i64,
) -> bool {
    &&& find_live(t.thoughts, hit.id) matches Some(row) && row.id == hit.id && seen_as(
        found.thought,
        row,
        now,
    )
    &&& found.snippet == without_marks(hit.marked_snippet)
    &&& found.ranges == read_snippet(hit.marked_snippet).ranges
}

/// A search by words without a word finds nothing.
pub proof fn law_no_words_find_nothing(
    r: Result<Vec<ThoughtMatch>>,
    t: TablesView,
    query: Seq<char>,
    limit: nat,
    hits: Seq<IndexHitView>,
    now: i64,
)
    requires
        found_by_words(r, t, query, limit, hits, now),
        forall|i: int| 0 <= i < query.len() ==> whitespace(#[trigger] query[i]),
    ensures
        r matches Ok(out) && out@.len() == 0,
{
    law_blank_asks_nothing(query);
}

/// A search by words shows the hits of live thoughts, in the order of the index:
/// as many as the limit allows, and all of them where it allows that. It fails
/// exactly where one of these has a damaged identifier.
pub proof fn law_found_by_words(
    r: Result<Vec<ThoughtMatch>>,
    t: TablesView,
    query: Seq<char>,
    limit: nat,
    hits: Seq<IndexHitView>,
    now: i64,
    word: int,
)
    requires
        found_by_words(r, t, query, limit, hits, now),
        0 <= word < query.len(),
        !whitespace(query[word]),
    ensures
        ({
            let best = live_hits(t, hits);
            let n = if best.len() <= limit {
                best.len()
            } else {
                limit
            };
            &&& r is Ok <==> forall|i: int| 0 <= i < n ==> (#[trigger] best[i]).id.len() == 16
            &&& r matches Ok(out) ==> out@.len() == n && forall|i: int|
                0 <= i < n ==> shows_hit((#[trigger] out@[i])@, t, best[i], now)
        }),
{
    law_blank_asks_nothing(query);
    let best = live_hits(t, hits);
    let shown = limited(best, limit);
    law_limited(best, limit);
    let at = law_live_hits(t, hits);
    let damaged = |hit: IndexHitView| hit.id.len() != 16;
    law_first_where(shown, damaged);
    if r is Ok {
        let out = r.unwrap();
        assert(seen(out@).len() == shown.len());
        assert forall|i: int| 0 <= i < shown.len() implies shows_hit(
            (#[trigger] out@[i])@,
            t,
            best[i],
            now,
        ) by {
            assert(seen(out@)[i] == out@[i]@);
            assert(shown[i] == best[i]);
            assert(lives(t.thoughts, hits[at[i]].id));
            law_thought_found(t.thoughts, best[i].id);
            law_snippet_drops_marks(best[i].marked_snippet);
        }
        assert forall|i: int| 0 <= i < shown.len() implies (#[trigger] best[i]).id.len() == 16 by {
            assert(!damaged(shown[i]));
        }
    } else {
        let hit = first_where(shown, damaged).unwrap();
        let i = choose|i: int| 0 <= i < shown.len() && shown[i] == hit;
        assert(best[i].id.len() != 16);
    }
}

/// A hit of the index is the thought and the snippet that it came with, and a match
/// is what it shows.
pub proof fn law_match_fields(hit: IndexHit, found: ThoughtMatch)
    ensures
        hit@.id == hit.id@ && hit@.marked_snippet == hit.marked_snippet@,
        found@.thought == found.thought@ && found@.snippet == found.snippet@,
        found@.ranges == found.ranges@,
        found.thought@.id == found.thought.id@ && found.thought@.text == found.thought.text@,
{
}

// ---- by meaning ------------------------------------------------------------

/// The candidates are the stored vectors of the thoughts that are no tombstones,
/// each with the row of its thought, as they are stored.
pub proof fn law_candidates(
    thoughts: Seq<ThoughtRowView>,
    embeddings: Seq<EmbeddingRowView>,
) -> (at: Seq<int>)
    ensures
        candidates(thoughts, embeddings).len() == at.len(),
        forall|k: int|
            0 <= k < at.len() ==> {
                let e = embeddings[#[trigger] at[k]];
                let c = candidates(thoughts, embeddings)[k];
                &&& 0 <= at[k] < embeddings.len()
                &&& c.vector == e.vector && find_live(thoughts, e.thought_id) == Some(c.row)
            },
        forall|k: int, m: int| 0 <= k < m < at.len() ==> #[trigger] at[k] < #[trigger] at[m],
        forall|i: int|
            0 <= i < embeddings.len() && lives(thoughts, (#[trigger] embeddings[i]).thought_id)
                ==> at.contains(i),
    decreases embeddings.len(),
{
    if embeddings.len() == 0 {
        Seq::empty()
    } else {
        let front = embeddings.drop_last();
        let was = law_candidates(thoughts, front);
        let n = embeddings.len() - 1;
        law_thought_found(thoughts, embeddings[n].thought_id);
        let at = if find_live(thoughts, embeddings[n].thought_id) is Some {
            was.push(n)
        } else {
            was
        };
        let all = candidates(thoughts, embeddings);
        let rest = candidates(thoughts, front);
        assert forall|k: int| 0 <= k < at.len() implies ({
            let e = embeddings[#[trigger] at[k]];
            let c = all[k];
            &&& 0 <= at[k] < embeddings.len()
            &&& c.vector == e.vector && find_live(thoughts, e.thought_id) == Some(c.row)
        }) by {
            if k < was.len() {
                assert(at[k] == was[k]);
                assert(all[k] == rest[k]);
                assert(front[was[k]] == embeddings[was[k]]);
            }
        }
        assert forall|k: int, m: int| 0 <= k < m < at.len() implies #[trigger] at[k]
            < #[trigger] at[m] by {
            assert(at[k] == was[k]);
            if m < was.len() {
                assert(at[m] == was[m]);
            }
        }
        assert forall|i: int|
            0 <= i < embeddings.len() && lives(
                thoughts,
                (#[trigger] embeddings[i]).thought_id,
            ) implies at.contains(i) by {
            if i < n {
                assert(front[i] == embeddings[i]);
                let k = choose|k: int| 0 <= k < was.len() && was[k] == i;
                assert(at[k] == i);
            } else {
                assert(at[was.len() as int] == n);
            }
        }
        at
    }
}

/// Every candidate but those of the excluded thought is compared.
pub proof fn law_comparable(all: Seq<CandidateView>, exclude: Option<Uuid>) -> (at: Seq<int>)
    ensures
        lists_exactly(
            comparable(all, exclude),
            all,
            |c: CandidateView| exclude matches Some(id) ==> c.row.id != id@,
            |a: CandidateView, b: CandidateView| false,
            at,
        ),
{
    let p = |c: CandidateView| !left_out(c, exclude);
    let none = |a: CandidateView, b: CandidateView| false;
    let at = law_kept_lists(all, p);
    law_lists_alike(
        comparable(all, exclude),
        all,
        p,
        none,
        |c: CandidateView| exclude matches Some(id) ==> c.row.id != id@,
        none,
        at,
    );
    at
}

/// What counts as similar: a similarity from a quarter up to infinity, given by
/// the bits of a float, which grow with the number there.
pub open spec fn counts(s: ScoredView) -> bool {
    0x3e80_0000 <= s.similarity <= 0x7f80_0000
}

/// Of all that was compared, what is similar enough is shown, the most similar
/// first and those alike as they were compared, up to the limit: each with its
/// whole text and nothing highlighted.
pub proof fn law_most_similar(scored: Seq<ScoredView>, top_k: nat) -> (at: Seq<int>)
    ensures
        ({
            let n = if at.len() <= top_k {
                at.len()
            } else {
                top_k
            };
            let out = most_similar(scored, top_k);
            &&& out.len() == n
            &&& forall|k: int|
                0 <= k < n ==> {
                    let thought = scored[at[k]].thought;
                    &&& (#[trigger] out[k]).thought == thought
                    &&& out[k].snippet == thought.text
                    &&& out[k].ranges.len() == 0
                }
        }),
        lists_exactly(
            Seq::new(at.len(), |k: int| scored[at[k]]),
            scored,
            |s: ScoredView| counts(s),
            |a: ScoredView, b: ScoredView| a.similarity > b.similarity,
            at,
        ),
{
    let p = |s: ScoredView| similar_enough(s.similarity);
    let q = |s: ScoredView| counts(s);
    let less = |a: ScoredView, b: ScoredView| MostSimilarFirst::before(a, b);
    let more = |a: ScoredView, b: ScoredView| a.similarity > b.similarity;
    let all = ranked::<Scored, MostSimilarFirst>(kept(scored, p));
    let at = law_ranked_kept_lists::<Scored, MostSimilarFirst>(scored, p);
    law_lists_alike(all, scored, p, less, q, more, at);
    law_limited(all, top_k);
    assert(all =~= Seq::new(at.len(), |k: int| scored[at[k]])) by {
        assert forall|k: int| 0 <= k < at.len() implies all[k] == scored[#[trigger] at[k]] by {
        }
    }
    at
}

/// A search by vector fails exactly where a candidate has a damaged identifier, or
/// one that is to be compared has a vector of another length than the query, or
/// one that is no vector. Otherwise it compares all candidates but those of the
/// excluded thought, and shows the most similar.
pub proof fn law_found_by_vector<E: TextEmbedder>(
    r: Result<Vec<ThoughtMatch>>,
    t: TablesView,
    query: Seq<u32>,
    top_k: nat,
    exclude: Option<Uuid>,
    now: i64,
)
    requires
        found_by_vector::<E>(r, t, query, top_k, exclude, now),
    ensures
        r is Ok <==> forall|i: int|
            0 <= i < candidates(t.thoughts, t.embeddings).len() ==> {
                let c = #[trigger] candidates(t.thoughts, t.embeddings)[i];
                &&& c.row.id.len() == 16
                &&& (exclude matches Some(id) ==> c.row.id != id@) ==> c.vector.len() == 4
                    * query.len()
            },
        r matches Ok(out) ==> exists|scored: Seq<ScoredView>| #[trigger]
            scored_so::<E>(
                scored,
                comparable(candidates(t.thoughts, t.embeddings), exclude),
                query,
                now,
            ) && seen(out@) == most_similar(scored, top_k),
{
    let all = candidates(t.thoughts, t.embeddings);
    let p = |c: CandidateView| faulty(c, query.len(), exclude);
    law_first_where(all, p);
    if r is Ok {
        assert forall|i: int| 0 <= i < all.len() implies ({
            let c = #[trigger] all[i];
            &&& c.row.id.len() == 16
            &&& (exclude matches Some(id) ==> c.row.id != id@) ==> c.vector.len() == 4
                * query.len()
        }) by {
            assert(!p(all[i]));
        }
    } else {
        let c = first_where(all, p).unwrap();
        let i = choose|i: int| 0 <= i < all.len() && all[i] == c;
        assert(p(all[i]));
    }
}

/// What was compared are the candidates one for one: each as readers see its
/// thought, with what the embedder gave for the vector of the query and its own.
pub proof fn law_scored<E: TextEmbedder>(
    scored: Seq<ScoredView>,
    rows: Seq<CandidateView>,
    query: Seq<u32>,
    now: i64,
)
    requires
        scored_so::<E>(scored, rows, query, now),
    ensures
        scored.len() == rows.len(),
        forall|i: int|
            0 <= i < rows.len() ==> seen_as((#[trigger] scored[i]).thought, rows[i].row, now)
                && dotted::<E>(query, rows[i].vector, scored[i].similarity),
{
    assert forall|i: int| 0 <= i < rows.len() implies seen_as(
        (#[trigger] scored[i]).thought,
        rows[i].row,
        now,
    ) && dotted::<E>(query, rows[i].vector, scored[i].similarity) by {
        law_vector_read(rows[i].vector);
        let v = vector_of(rows[i].vector).unwrap();
        let (x, y) = choose|x: &Vec<u32>, y: &Vec<u32>|
            x@ == query && y@ == v && #[trigger] call_ensures(
                E::dot,
                (x, y),
                scored[i].similarity,
            );
        assert(call_ensures(E::dot, (x, y), scored[i].similarity));
    }
}

/// The similarity is what the embedder gave for the query and the stored vector.
pub open spec fn dotted<E: TextEmbedder>(query: Seq<u32>, blob: Seq<u8>, similarity: u32) -> bool {
    exists|x: &Vec<u32>, y: &Vec<u32>|
        x@ == query && holds_vector(blob, y@) && #[trigger] call_ensures(
            E::dot,
            (x, y),
            similarity,
        )
}

/// No search by vector shows the thought that it excludes.
pub proof fn law_excluded<E: TextEmbedder>(
    r: Result<Vec<ThoughtMatch>>,
    t: TablesView,
    query: Seq<u32>,
    top_k: nat,
    id: Uuid,
    now: i64,
)
    requires
        found_by_vector::<E>(r, t, query, top_k, Some(id), now),
    ensures
        r matches Ok(out) ==> out@.len() <= top_k && forall|i: int|
            0 <= i < out@.len() ==> (#[trigger] out@[i])@.thought.id != id@,
{
    if r is Ok {
        let out = r.unwrap();
        let rows = comparable(candidates(t.thoughts, t.embeddings), Some(id));
        law_found_by_vector::<E>(r, t, query, top_k, Some(id), now);
        let scored = choose|scored: Seq<ScoredView>| #[trigger]
            scored_so::<E>(scored, rows, query, now) && seen(out@) == most_similar(scored, top_k);
        let at = law_most_similar(scored, top_k);
        let from = law_comparable(candidates(t.thoughts, t.embeddings), Some(id));
        law_scored::<E>(scored, rows, query, now);
        assert(seen(out@).len() == out@.len());
        assert forall|i: int| 0 <= i < out@.len() implies (#[trigger] out@[i])@.thought.id
            != id@ by {
            assert(seen(out@)[i] == out@[i]@);
            let j = at[i];
            assert(seen_as(scored[j].thought, rows[j].row, now));
            assert(0 <= from[j]);
        }
    }
}

/// Thoughts related to a draft are looked for only where it has text and there is
/// an embedder; otherwise none are found.
pub proof fn law_related<E: TextEmbedder>(
    r: Result<Vec<ThoughtMatch>>,
    store: ThoughtStore<E>,
    draft: Seq<char>,
    top_k: nat,
    exclude: Option<Uuid>,
)
    requires
        related_found(r, store, draft, top_k, exclude),
    ensures
        (forall|i: int| 0 <= i < draft.len() ==> whitespace(#[trigger] draft[i])) ==> (
        r matches Ok(out) && out@.len() == 0),
        store.embedder is None ==> (r matches Ok(out) && out@.len() == 0),
        store.embedder is Some && (exists|i: int|
            0 <= i < draft.len() && !whitespace(#[trigger] draft[i])) ==> found_by_meaning::<E>(
            r,
            store.embedder.unwrap(),
            store@,
            draft,
            top_k,
            exclude,
        ),
{
    if exists|i: int| 0 <= i < draft.len() && !whitespace(#[trigger] draft[i]) {
        let i = choose|i: int| 0 <= i < draft.len() && !whitespace(#[trigger] draft[i]);
        assert(!blank(draft));
    }
}

/// Thoughts related to a thought are looked for by its stored vector: there has to
/// be such a thought, and none are found where it has no vector. It is not among
/// them itself.
pub proof fn law_related_to<E: TextEmbedder>(
    r: Result<Vec<ThoughtMatch>>,
    t: TablesView,
    id: Uuid,
    top_k: nat,
)
    requires
        related_to_found::<E>(r, t, id, top_k),
    ensures
        !lives(t.thoughts, id@) ==> r == Err::<Vec<ThoughtMatch>, Error>(Error::NotFound { id }),
        r matches Err(Error::NotFound { id: missing }) ==> missing == id && !lives(t.thoughts, id@),
        lives(t.thoughts, id@) && (forall|i: int|
            0 <= i < t.embeddings.len() ==> (#[trigger] t.embeddings[i]).thought_id != id@) ==> (
        r matches Ok(out) && out@.len() == 0),
        r matches Ok(out) ==> out@.len() <= top_k && forall|i: int|
            0 <= i < out@.len() ==> (#[trigger] out@[i])@.thought.id != id@,
{
    law_thought_found(t.thoughts, id@);
    let p = |e: EmbeddingRowView| e.thought_id == id@;
    law_first_where(t.embeddings, p);
    if find_live(t.thoughts, id@) is Some && find_vector(t, id@) is Some {
        let row = find_vector(t, id@).unwrap();
        let k = choose|k: int| 0 <= k < t.embeddings.len() && t.embeddings[k] == row;
        assert(t.embeddings[k].thought_id == id@);
        if vector_of(row.vector) is Some {
            let v = vector_of(row.vector).unwrap();
            if !(r matches Err(e) && clock_failed(e)) {
                let now = choose|now: i64|
                    clock_shows(now) && #[trigger] found_by_vector::<E>(
                        r,
                        t,
                        v,
                        top_k,
                        Some(id),
                        now,
                    );
                law_excluded::<E>(r, t, v, top_k, id, now);
            }
        }
    }
}

/// A search by words at the time of the clock is one at some time since 1970, or
/// fails as the clock did.
pub proof fn law_words_some_time(
    r: Result<Vec<ThoughtMatch>>,
    t: TablesView,
    query: Seq<char>,
    limit: nat,
    hits: Seq<IndexHitView>,
)
    requires
        words_some_time(r, t, query, limit, hits),
    ensures
        (r matches Err(e) && e is Clock) || exists|now: i64|
            now >= 0 && #[trigger] found_by_words(r, t, query, limit, hits, now),
{
    if !(r matches Err(e) && clock_failed(e)) {
        let now = choose|now: i64|
            clock_shows(now) && #[trigger] found_by_words(r, t, query, limit, hits, now);
        lemma_clock(now);
    }
}

/// A search by meaning embeds the text that is looked for, and fails as that did;
/// otherwise it is one by the vector, at some time since 1970, unless the clock
/// failed.
pub proof fn law_found_by_meaning<E: TextEmbedder>(
    r: Result<Vec<ThoughtMatch>>,
    e: E,
    t: TablesView,
    text: Seq<char>,
    top_k: nat,
    exclude: Option<Uuid>,
)
    requires
        found_by_meaning::<E>(r, e, t, text, top_k, exclude),
    ensures
        exists|s: &str, answer: Result<Vec<u32>>|
            s@ == text && #[trigger] call_ensures(E::embed, (&e, s), answer) && (match answer {
                Err(error) => r == Err::<Vec<ThoughtMatch>, Error>(error),
                Ok(v) => (r matches Err(error) && error is Clock) || exists|now: i64|
                    now >= 0 && #[trigger] found_by_vector::<E>(r, t, v@, top_k, exclude, now),
            }),
{
    let answer = choose|answer: Result<Vec<u32>>| #[trigger]
        answers(e, text, answer) && (match answer {
            Ok(v) => ranked_some_time::<E>(r, t, v@, top_k, exclude),
            Err(error) => r == Err::<Vec<ThoughtMatch>, Error>(error),
        });
    let s = choose|s: &str| s@ == text && #[trigger] call_ensures(E::embed, (&e, s), answer);
    assert(call_ensures(E::embed, (&e, s), answer));
    if answer is Ok && !(r matches Err(error) && clock_failed(error)) {
        let v = answer.unwrap();
        let now = choose|now: i64|
            clock_shows(now) && #[trigger] found_by_vector::<E>(r, t, v@, top_k, exclude, now);
        lemma_clock(now);
    }
}

/// A search by both fails as the one by words did, or else as the one by meaning
/// did, and otherwise merges what both found.
pub proof fn law_combined(
    r: Result<Vec<ThoughtMatch>>,
    keyword: Result<Vec<ThoughtMatch>>,
    semantic: Result<Vec<ThoughtMatch>>,
    top_k: nat,
)
    requires
        combined(r, keyword, semantic, top_k),
    ensures
        keyword matches Err(e) ==> r == Err::<Vec<ThoughtMatch>, Error>(e),
        keyword is Ok ==> (semantic matches Err(e) ==> r == Err::<Vec<ThoughtMatch>, Error>(e)),
        keyword is Ok && semantic is Ok ==> (r matches Ok(out) && seen(out@) == fused(
            seen(keyword.unwrap()@),
            seen(semantic.unwrap()@),
            top_k,
        )),
{
}

/// What is embedded is the text itself: a vector is what the embedder answered to
/// it, and there is none where it answered with an error, or there is no embedder.
pub proof fn law_embeds<E: TextEmbedder>(
    embedder: Option<E>,
    text: Seq<char>,
    vector: Option<Seq<u32>>,
)
    requires
        embeds(embedder, text, vector),
    ensures
        embedder is None ==> vector is None,
        embedder matches Some(e) ==> exists|s: &str, r: Result<Vec<u32>>|
            s@ == text && #[trigger] call_ensures(E::embed, (&e, s), r) && (match r {
                Ok(v) => vector == Some(v@),
                Err(_) => vector is None,
            }),
{
    if embedder is Some {
        let e = embedder.unwrap();
        let r = choose|r: Result<Vec<u32>>| #[trigger]
            answers(e, text, r) && vector == (match r {
                Ok(v) => Some(v@),
                Err(_) => None,
            });
        let s = choose|s: &str| s@ == text && #[trigger] call_ensures(E::embed, (&e, s), r);
        assert(call_ensures(E::embed, (&e, s), r));
    }
}

} // verus!
