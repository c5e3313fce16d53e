//! What searching by words and by meaning promises together.

use vstd::prelude::*;

use crate::clock::clock_shows;
use crate::embed::{similar_enough, TextEmbedder};
use crate::error::{Error, Result};
use crate::fusion::{
    apart, fused, law_place_scores_fall, lemma_place_found, lemma_ranking_apart, place_of,
    place_score, summed, with_ranking, BestFirst, Fused, FusedView, LAST_PLACE,
};
use crate::ident::Uuid;
use crate::matching::{
    candidates, combined, comparable, found_by_both, found_by_meaning, found_by_vector,
    found_by_words, left_out, live_hits, most_similar, ranked_some_time, scored_so, words_some_time,
    CandidateView, IndexHitView, MostSimilarFirst, Scored, ScoredView,
};
use crate::model::{find_live, live};
use crate::rank::{
    law_ranked_contains, law_ranked_in_order, law_ranked_pairwise, law_ranked_permutes,
    law_ranked_sorted, ranked, RowOrder,
};
use crate::rows::{
    kept, law_first_where, law_kept_all, law_kept_pairwise, limited, pairwise, seen,
};
use crate::search::{ThoughtMatch, ThoughtMatchView};
use crate::sound::{sound, vectors_owned};
use crate::store::{answers, ThoughtStore};
use crate::tables::{EmbeddingRowView, TablesView, ThoughtRowView};

verus! {

// ---- merging two rankings --------------------------------------------------

/// No thought is in the ranking twice.
pub open spec fn each_once(ranking: Seq<ThoughtMatchView>) -> bool {
    forall|i: int, j: int|
        0 <= i < j < ranking.len() ==> (#[trigger] ranking[i]).thought.id != (
        #[trigger] ranking[j]).thought.id
}

/// Where the thought first stands in the ranking, or how many there are in it.
pub open spec fn rank_of(ranking: Seq<ThoughtMatchView>, id: Seq<u8>) -> int
    decreases ranking.len(),
{
    if ranking.len() == 0 {
        0
    } else {
        let front = ranking.drop_last();
        if rank_of(front, id) < front.len() || ranking.last().thought.id == id {
            rank_of(front, id)
        } else {
            ranking.len() as int
        }
    }
}

/// The thought is in the ranking.
pub open spec fn ranks(ranking: Seq<ThoughtMatchView>, id: Seq<u8>) -> bool {
    rank_of(ranking, id) < ranking.len()
}

/// What a thought scores in two rankings together.
pub open spec fn fused_score(
    keyword: Seq<ThoughtMatchView>,
    semantic: Seq<ThoughtMatchView>,
    id: Seq<u8>,
) -> nat {
    let by_words = place_score(rank_of(keyword, id) as nat);
    let by_meaning = place_score(rank_of(semantic, id) as nat);
    if ranks(keyword, id) && ranks(semantic, id) {
        summed(by_words, by_meaning)
    } else if ranks(keyword, id) {
        by_words
    } else {
        by_meaning
    }
}

/// How a thought in either ranking is shown: as it was found by words, unless
/// only by meaning there is something to highlight.
pub open spec fn fused_item(
    keyword: Seq<ThoughtMatchView>,
    semantic: Seq<ThoughtMatchView>,
    id: Seq<u8>,
) -> ThoughtMatchView {
    let by_words = keyword[rank_of(keyword, id)];
    let by_meaning = semantic[rank_of(semantic, id)];
    if !ranks(keyword, id) || (ranks(semantic, id) && by_words.ranges.len() == 0
        && by_meaning.ranges.len() > 0) {
        by_meaning
    } else {
        by_words
    }
}

/// What was found by meaning and not by words.
pub open spec fn unlisted(
    keyword: Seq<ThoughtMatchView>,
    semantic: Seq<ThoughtMatchView>,
) -> Seq<ThoughtMatchView> {
    kept(semantic, |m: ThoughtMatchView| !ranks(keyword, m.thought.id))
}

/// `a` comes before `b` in what two rankings give together: it scores more, or
/// as much and is newer.
pub open spec fn outranks(
    keyword: Seq<ThoughtMatchView>,
    semantic: Seq<ThoughtMatchView>,
    a: ThoughtMatchView,
    b: ThoughtMatchView,
) -> bool {
    let x = fused_score(keyword, semantic, a.thought.id);
    let y = fused_score(keyword, semantic, b.thought.id);
    y < x || (y == x && b.thought.created_at < a.thought.created_at)
}

/// `out` are the `top_k` best of two rankings: each thought once and as it is
/// shown, best score first and then newest first, as many as there are up to
/// `top_k`, and none left out that outranks one of them.
pub open spec fn best_of(
    out: Seq<ThoughtMatchView>,
    keyword: Seq<ThoughtMatchView>,
    semantic: Seq<ThoughtMatchView>,
    top_k: nat,
) -> bool {
    let all = keyword.len() + unlisted(keyword, semantic).len();
    &&& each_once(out)
    &&& out.len() == (if top_k < all {
        top_k
    } else {
        all
    })
    &&& forall|i: int|
        0 <= i < out.len() ==> {
            let id = (#[trigger] out[i]).thought.id;
            (ranks(keyword, id) || ranks(semantic, id)) && out[i] == fused_item(
                keyword,
                semantic,
                id,
            )
        }
    &&& forall|i: int, j: int|
        0 <= i < j < out.len() ==> !outranks(
            keyword,
            semantic,
            #[trigger] out[j],
            #[trigger] out[i],
        )
    &&& forall|id: Seq<u8>, i: int|
        #![trigger ranks(out, id), out[i]]
        (ranks(keyword, id) || ranks(semantic, id)) && !ranks(out, id) && 0 <= i < out.len()
            ==> !outranks(keyword, semantic, fused_item(keyword, semantic, id), out[i])
}

proof fn lemma_rank_found(ranking: Seq<ThoughtMatchView>, id: Seq<u8>)
    ensures
        0 <= rank_of(ranking, id) <= ranking.len(),
        ranks(ranking, id) ==> ranking[rank_of(ranking, id)].thought.id == id,
        forall|i: int|
            0 <= i < rank_of(ranking, id) ==> (#[trigger] ranking[i]).thought.id != id,
    decreases ranking.len(),
{
    if ranking.len() > 0 {
        let front = ranking.drop_last();
        lemma_rank_found(front, id);
        let k = rank_of(ranking, id);
        assert forall|i: int| 0 <= i < k implies (#[trigger] ranking[i]).thought.id != id by {
            if i < front.len() {
                assert(front[i] == ranking[i]);
            }
        }
    }
}

/// A thought that stands in a ranking is in it, and where it stands if no thought
/// is in it twice.
proof fn lemma_ranks(ranking: Seq<ThoughtMatchView>, i: int)
    requires
        0 <= i < ranking.len(),
    ensures
        ranks(ranking, ranking[i].thought.id),
        each_once(ranking) ==> rank_of(ranking, ranking[i].thought.id) == i,
{
    let id = ranking[i].thought.id;
    lemma_rank_found(ranking, id);
    if each_once(ranking) {
        let k = rank_of(ranking, id);
        if k < i {
            assert(ranking[k].thought.id != ranking[i].thought.id);
        }
    }
}

proof fn lemma_front_once(ranking: Seq<ThoughtMatchView>)
    requires
        each_once(ranking),
        ranking.len() > 0,
    ensures
        each_once(ranking.drop_last()),
        !ranks(ranking.drop_last(), ranking.last().thought.id),
{
    let front = ranking.drop_last();
    assert forall|i: int, j: int| 0 <= i < j < front.len() implies (#[trigger] front[i]).thought.id
        != (#[trigger] front[j]).thought.id by {
        assert(ranking[i].thought.id != ranking[j].thought.id);
    }
    let id = ranking.last().thought.id;
    lemma_rank_found(front, id);
    if ranks(front, id) {
        let k = rank_of(front, id);
        assert(front[k] == ranking[k]);
        assert(ranking[k].thought.id != ranking[ranking.len() - 1].thought.id);
    }
}

/// One ranking alone: each of its results scores by its place.
proof fn lemma_one_ranking(ranking: Seq<ThoughtMatchView>)
    requires
        each_once(ranking),
    ensures
        with_ranking(Seq::empty(), ranking).len() == ranking.len(),
        forall|i: int|
            0 <= i < ranking.len() ==> (#[trigger] with_ranking(Seq::empty(), ranking)[i]) == (
            FusedView { score: place_score(i as nat), item: ranking[i] }),
    decreases ranking.len(),
{
    if ranking.len() > 0 {
        let front = ranking.drop_last();
        lemma_front_once(ranking);
        lemma_one_ranking(front);
        let before = with_ranking(Seq::empty(), front);
        let id = ranking.last().thought.id;
        lemma_place_found(before, id);
        let k = place_of(before, id);
        if k < before.len() {
            assert(before[k].item == front[k]);
            assert(ranking[k].thought.id != ranking[ranking.len() - 1].thought.id);
        }
        assert forall|i: int| 0 <= i < ranking.len() implies (#[trigger] with_ranking(
            Seq::empty(),
            ranking,
        )[i]) == (FusedView { score: place_score(i as nat), item: ranking[i] }) by {
            if i < front.len() {
                assert(before[i].item == front[i]);
            }
        }
    }
}

/// What the results are once both rankings are in.
spec fn merged(
    results: Seq<FusedView>,
    keyword: Seq<ThoughtMatchView>,
    semantic: Seq<ThoughtMatchView>,
) -> bool {
    &&& pairwise(results, apart())
    &&& results.len() == keyword.len() + unlisted(keyword, semantic).len()
    &&& forall|i: int|
        0 <= i < results.len() ==> {
            let id = (#[trigger] results[i]).item.thought.id;
            &&& ranks(keyword, id) || ranks(semantic, id)
            &&& results[i].score == fused_score(keyword, semantic, id)
            &&& results[i].item == fused_item(keyword, semantic, id)
        }
    &&& forall|id: Seq<u8>|
        ranks(keyword, id) || ranks(semantic, id) ==> #[trigger] place_of(results, id)
            < results.len()
}

proof fn lemma_merged(keyword: Seq<ThoughtMatchView>, semantic: Seq<ThoughtMatchView>)
    requires
        each_once(keyword),
        each_once(semantic),
    ensures
        merged(
            with_ranking(with_ranking(Seq::empty(), keyword), semantic),
            keyword,
            semantic,
        ),
    decreases semantic.len(),
{
    let first = with_ranking(Seq::empty(), keyword);
    let none: Seq<FusedView> = Seq::empty();
    lemma_ranking_apart(none, keyword);
    lemma_ranking_apart(first, semantic);
    let after = with_ranking(first, semantic);
    if semantic.len() == 0 {
        lemma_one_ranking(keyword);
        assert forall|i: int| 0 <= i < after.len() implies {
            let id = (#[trigger] after[i]).item.thought.id;
            &&& ranks(keyword, id) || ranks(semantic, id)
            &&& after[i].score == fused_score(keyword, semantic, id)
            &&& after[i].item == fused_item(keyword, semantic, id)
        } by {
            lemma_ranks(keyword, i);
        }
        assert forall|id: Seq<u8>|
            ranks(keyword, id) || ranks(semantic, id) implies #[trigger] place_of(after, id)
            < after.len() by {
            lemma_rank_found(keyword, id);
            lemma_place_found(after, id);
            let k = rank_of(keyword, id);
            assert(after[k].item == keyword[k]);
        }
    } else {
        let front = semantic.drop_last();
        let item = semantic.last();
        let own = item.thought.id;
        lemma_front_once(semantic);
        lemma_merged(keyword, front);
        let before = with_ranking(first, front);
        lemma_place_found(before, own);
        let k = place_of(before, own);
        lemma_rank_found(front, own);
        lemma_rank_found(keyword, own);
        assert(rank_of(semantic, own) == front.len());
        assert(k < before.len() <==> ranks(keyword, own)) by {
            if k < before.len() {
                assert(before[k].item.thought.id == own);
            }
        }
        assert forall|i: int| 0 <= i < after.len() implies {
            let id = (#[trigger] after[i]).item.thought.id;
            &&& ranks(keyword, id) || ranks(semantic, id)
            &&& after[i].score == fused_score(keyword, semantic, id)
            &&& after[i].item == fused_item(keyword, semantic, id)
        } by {
            if i == k {
                if k < before.len() {
                    let known = before[k];
                    assert(known.item.thought.id == own);
                    assert(known.item == keyword[rank_of(keyword, own)]);
                    assert(known.score == place_score(rank_of(keyword, own) as nat));
                }
                assert(after[i].item.thought.id == own);
            } else {
                assert(after[i] == before[i]);
                let id = before[i].item.thought.id;
                assert(id != own) by {
                    if i < k {
                    } else {
                        assert(apart()(before[k], before[i]));
                    }
                }
                lemma_rank_found(front, id);
            }
        }
        assert forall|id: Seq<u8>|
            ranks(keyword, id) || ranks(semantic, id) implies #[trigger] place_of(after, id)
            < after.len() by {
            lemma_place_found(after, id);
            lemma_place_found(before, id);
            if id == own {
                assert(after[k].item.thought.id == own);
            } else {
                lemma_rank_found(front, id);
                assert(place_of(before, id) < before.len());
                let j = place_of(before, id);
                assert(after[j].item.thought.id == id);
            }
        }
    }
}

/// Merging gives the best of the two rankings.
pub proof fn law_fused_best(
    keyword: Seq<ThoughtMatchView>,
    semantic: Seq<ThoughtMatchView>,
    top_k: nat,
)
    requires
        each_once(keyword),
        each_once(semantic),
    ensures
        best_of(fused(keyword, semantic, top_k), keyword, semantic, top_k),
{
    let both = with_ranking(with_ranking(Seq::empty(), keyword), semantic);
    lemma_merged(keyword, semantic);
    let all = ranked::<Fused, BestFirst>(both);
    let out = fused(keyword, semantic, top_k);
    law_ranked_permutes::<Fused, BestFirst>(both);
    law_ranked_in_order::<Fused, BestFirst>(both);
    law_ranked_pairwise::<Fused, BestFirst>(both, apart());
    assert forall|i: int| 0 <= i < all.len() implies {
        let id = (#[trigger] all[i]).item.thought.id;
        &&& ranks(keyword, id) || ranks(semantic, id)
        &&& all[i].score == fused_score(keyword, semantic, id)
        &&& all[i].item == fused_item(keyword, semantic, id)
    } by {
        law_ranked_contains::<Fused, BestFirst>(both, all[i]);
        assert(all.contains(all[i]));
        let j = choose|j: int| 0 <= j < both.len() && both[j] == all[i];
        assert(both[j].score == fused_score(keyword, semantic, both[j].item.thought.id));
    }
    assert forall|i: int| 0 <= i < out.len() implies #[trigger] out[i] == all[i].item by {
    }
    assert forall|i: int, j: int| 0 <= i < j < out.len() implies !outranks(
        keyword,
        semantic,
        #[trigger] out[j],
        #[trigger] out[i],
    ) && out[i].thought.id != out[j].thought.id by {
        assert(!BestFirst::before(all[j], all[i]));
        assert(apart()(all[i], all[j]));
    }
    assert forall|id: Seq<u8>, i: int|
        #![trigger ranks(out, id), out[i]]
        (ranks(keyword, id) || ranks(semantic, id)) && !ranks(out, id) && 0 <= i
            < out.len() implies !outranks(
        keyword,
        semantic,
        fused_item(keyword, semantic, id),
        out[i],
    ) by {
        assert(place_of(both, id) < both.len());
        lemma_place_found(both, id);
        let x = both[place_of(both, id)];
        law_ranked_contains::<Fused, BestFirst>(both, x);
        assert(both.contains(x));
        let j = choose|j: int| 0 <= j < all.len() && all[j] == x;
        if j < out.len() {
            lemma_ranks(out, j);
        }
        assert(!BestFirst::before(all[j], all[i]));
    }
}

/// What is found by words stays as it was found, where what is found by meaning
/// has nothing to highlight.
pub proof fn law_fused_keeps_snippets(
    keyword: Seq<ThoughtMatchView>,
    semantic: Seq<ThoughtMatchView>,
    i: int,
)
    requires
        each_once(keyword),
        forall|j: int| 0 <= j < semantic.len() ==> (#[trigger] semantic[j]).ranges.len() == 0,
        0 <= i < keyword.len(),
    ensures
        fused_item(keyword, semantic, keyword[i].thought.id) == keyword[i],
{
    lemma_ranks(keyword, i);
    lemma_rank_found(semantic, keyword[i].thought.id);
}

/// One ranking merged with nothing stays as it is, as far as places are told
/// apart.
pub proof fn law_fused_alone(keyword: Seq<ThoughtMatchView>, top_k: nat)
    requires
        each_once(keyword),
        keyword.len() <= top_k,
        keyword.len() <= LAST_PLACE + 1,
    ensures
        fused(keyword, Seq::empty(), top_k) == keyword,
{
    let results = with_ranking(Seq::empty(), keyword);
    lemma_one_ranking(keyword);
    assert forall|i: int, j: int| 0 <= i < j < results.len() implies !BestFirst::before(
        #[trigger] results[j],
        #[trigger] results[i],
    ) by {
        law_place_scores_fall(i as nat, j as nat);
    }
    law_ranked_sorted::<Fused, BestFirst>(results);
    assert(fused(keyword, Seq::empty(), top_k) =~= keyword);
}

// ---- searching -------------------------------------------------------------

/// The text index has no thought twice.
pub open spec fn hits_once(hits: Seq<IndexHitView>) -> bool {
    pairwise(hits, |a: IndexHitView, b: IndexHitView| a.id != b.id)
}

proof fn lemma_found_row(rows: Seq<ThoughtRowView>, id: Seq<u8>)
    ensures
        find_live(rows, id) matches Some(row) ==> row.id == id,
{
    law_first_where(rows, |row: ThoughtRowView| row.id == id && live(row));
}

/// What is found by words has no thought twice, and no more than were asked for.
proof fn lemma_words_once(
    r: Result<Vec<ThoughtMatch>>,
    t: TablesView,
    query: Seq<char>,
    limit: nat,
    hits: Seq<IndexHitView>,
    now: i64,
)
    requires
        hits_once(hits),
        found_by_words(r, t, query, limit, hits, now),
        r is Ok,
    ensures
        each_once(seen(r.unwrap()@)),
        r.unwrap()@.len() <= limit,
{
    let out = seen(r.unwrap()@);
    let p = |hit: IndexHitView| find_live(t.thoughts, hit.id) is Some;
    let other = |a: IndexHitView, b: IndexHitView| a.id != b.id;
    let found = live_hits(t, hits);
    let shown = limited(found, limit);
    law_kept_pairwise(hits, p, other);
    law_kept_all(hits, p);
    assert(out.len() == r.unwrap()@.len());
    if out.len() > 0 {
        assert(out.len() == shown.len());
        assert forall|i: int, j: int| 0 <= i < j < out.len() implies (#[trigger] out[i]).thought.id
            != (#[trigger] out[j]).thought.id by {
            assert(shown[i] == found[i] && shown[j] == found[j]);
            assert(p(found[i]) && p(found[j]));
            assert(other(found[i], found[j]));
            lemma_found_row(t.thoughts, found[i].id);
            lemma_found_row(t.thoughts, found[j].id);
        }
    }
}

/// No two candidates are of the same thought.
proof fn lemma_candidates_once(rows: Seq<ThoughtRowView>, embeddings: Seq<EmbeddingRowView>)
    requires
        pairwise(
            embeddings,
            |a: EmbeddingRowView, b: EmbeddingRowView| a.thought_id != b.thought_id,
        ),
    ensures
        pairwise(
            candidates(rows, embeddings),
            |a: CandidateView, b: CandidateView| a.row.id != b.row.id,
        ),
        forall|i: int|
            0 <= i < candidates(rows, embeddings).len() ==> exists|k: int|
                0 <= k < embeddings.len() && (#[trigger] candidates(rows, embeddings)[i]).row.id
                    == (#[trigger] embeddings[k]).thought_id,
    decreases embeddings.len(),
{
    if embeddings.len() > 0 {
        let front = embeddings.drop_last();
        let last = embeddings.last();
        let r = |a: EmbeddingRowView, b: EmbeddingRowView| a.thought_id != b.thought_id;
        let q = |a: CandidateView, b: CandidateView| a.row.id != b.row.id;
        assert forall|i: int, j: int| 0 <= i < j < front.len() implies r(
            #[trigger] front[i],
            #[trigger] front[j],
        ) by {
            assert(r(embeddings[i], embeddings[j]));
        }
        lemma_candidates_once(rows, front);
        let rest = candidates(rows, front);
        let all = candidates(rows, embeddings);
        lemma_found_row(rows, last.thought_id);
        assert forall|i: int| 0 <= i < all.len() implies exists|k: int|
            0 <= k < embeddings.len() && (#[trigger] all[i]).row.id == (
            #[trigger] embeddings[k]).thought_id by {
            if i < rest.len() {
                assert(all[i] == rest[i]);
                let k = choose|k: int|
                    0 <= k < front.len() && rest[i].row.id == (#[trigger] front[k]).thought_id;
                assert(embeddings[k] == front[k]);
            } else {
                assert(embeddings[embeddings.len() - 1] == last);
            }
        }
        assert forall|i: int, j: int| 0 <= i < j < all.len() implies q(
            #[trigger] all[i],
            #[trigger] all[j],
        ) by {
            assert(all[i] == rest[i]);
            if j < rest.len() {
                assert(all[j] == rest[j]);
                assert(q(rest[i], rest[j]));
            } else {
                let k = choose|k: int|
                    0 <= k < front.len() && rest[i].row.id == (#[trigger] front[k]).thought_id;
                assert(front[k] == embeddings[k]);
                assert(r(embeddings[k], embeddings[embeddings.len() - 1]));
            }
        }
    }
}

/// What is found by meaning has no thought twice, and nothing to highlight.
proof fn lemma_meaning_once<E: TextEmbedder>(
    r: Result<Vec<ThoughtMatch>>,
    t: TablesView,
    query: Seq<u32>,
    top_k: nat,
    exclude: Option<Uuid>,
    now: i64,
)
    requires
        vectors_owned(t.thoughts, t.embeddings),
        found_by_vector::<E>(r, t, query, top_k, exclude, now),
        r is Ok,
    ensures
        each_once(seen(r.unwrap()@)),
        forall|i: int|
            0 <= i < seen(r.unwrap()@).len() ==> (#[trigger] seen(r.unwrap()@)[i]).ranges.len()
                == 0,
{
    let out = seen(r.unwrap()@);
    let all = candidates(t.thoughts, t.embeddings);
    let q = |a: CandidateView, b: CandidateView| a.row.id != b.row.id;
    lemma_candidates_once(t.thoughts, t.embeddings);
    let some = comparable(all, exclude);
    law_kept_pairwise(all, |c: CandidateView| !left_out(c, exclude), q);
    let scored = choose|scored: Seq<ScoredView>| #[trigger]
        scored_so::<E>(scored, some, query, now) && out == most_similar(scored, top_k);
    let other = |a: ScoredView, b: ScoredView| a.thought.id != b.thought.id;
    assert forall|i: int, j: int| 0 <= i < j < scored.len() implies other(
        #[trigger] scored[i],
        #[trigger] scored[j],
    ) by {
        assert(q(some[i], some[j]));
    }
    let close = |s: ScoredView| similar_enough(s.similarity);
    law_kept_pairwise(scored, close, other);
    law_ranked_pairwise::<Scored, MostSimilarFirst>(kept(scored, close), other);
    let best = ranked::<Scored, MostSimilarFirst>(kept(scored, close));
    assert forall|i: int, j: int| 0 <= i < j < out.len() implies (#[trigger] out[i]).thought.id != (
    #[trigger] out[j]).thought.id by {
        assert(other(best[i], best[j]));
    }
}

/// Without an embedder, searching by words and by meaning finds what searching by
/// words does: the same matches in the same order, with the same snippets, and
/// never fails for want of an embedder.
pub proof fn law_combined_without_embedder<E: TextEmbedder>(
    r: Result<Vec<ThoughtMatch>>,
    store: ThoughtStore<E>,
    query: Seq<char>,
    top_k: nat,
    hits: Seq<IndexHitView>,
)
    requires
        store.embedder is None,
        top_k <= LAST_PLACE + 1,
        hits_once(hits),
        found_by_both(r, store, query, top_k, hits),
    ensures
        words_some_time(r, store@, query, top_k, hits),
        r matches Err(e) ==> !(e is NoEmbedder),
{
    let (k, s) = choose|k: Result<Vec<ThoughtMatch>>, s: Result<Vec<ThoughtMatch>>| #[trigger]
        combined(r, k, s, top_k) && words_some_time(k, store@, query, top_k, hits) && (
        s matches Ok(out) && out@.len() == 0);
    if k is Ok {
        let now = choose|now: i64|
            clock_shows(now) && #[trigger] found_by_words(k, store@, query, top_k, hits, now);
        lemma_words_once(k, store@, query, top_k, hits, now);
        let found = seen(k.unwrap()@);
        assert(seen(s.unwrap()@) =~= Seq::empty());
        law_fused_alone(found, top_k);
        assert(seen(r.unwrap()@) == found);
        assert(r.unwrap()@.len() == found.len());
        assert(found_by_words(r, store@, query, top_k, hits, now));
    }
}

/// With an embedder, searching by words and by meaning finds the best of what the
/// two searches find, and shows what was found by words as it was found.
pub proof fn law_combined_is_best<E: TextEmbedder>(
    r: Result<Vec<ThoughtMatch>>,
    store: ThoughtStore<E>,
    query: Seq<char>,
    top_k: nat,
    hits: Seq<IndexHitView>,
)
    requires
        store.embedder is Some,
        sound(store@),
        hits_once(hits),
        found_by_both(r, store, query, top_k, hits),
        r is Ok,
    ensures
        exists|k: Result<Vec<ThoughtMatch>>, s: Result<Vec<ThoughtMatch>>| #[trigger]
            combined(r, k, s, top_k) && best_found(r, k, s, store, query, top_k, hits),
{
    let e = store.embedder.unwrap();
    let (k, s) = choose|k: Result<Vec<ThoughtMatch>>, s: Result<Vec<ThoughtMatch>>| #[trigger]
        combined(r, k, s, top_k) && words_some_time(k, store@, query, top_k, hits) && (k is Ok
            ==> found_by_meaning::<E>(s, e, store@, query, top_k, None));
    let now = choose|now: i64|
        clock_shows(now) && #[trigger] found_by_words(k, store@, query, top_k, hits, now);
    lemma_words_once(k, store@, query, top_k, hits, now);
    let answer = choose|answer: Result<Vec<u32>>| #[trigger]
        answers(e, query, answer) && (match answer {
            Ok(v) => ranked_some_time::<E>(s, store@, v@, top_k, None),
            Err(error) => s == Err::<Vec<ThoughtMatch>, Error>(error),
        });
    let v = answer.unwrap()@;
    let then = choose|then: i64|
        clock_shows(then) && #[trigger] found_by_vector::<E>(s, store@, v, top_k, None, then);
    lemma_meaning_once::<E>(s, store@, v, top_k, None, then);
    let keyword = seen(k.unwrap()@);
    let semantic = seen(s.unwrap()@);
    law_fused_best(keyword, semantic, top_k);
    assert forall|i: int| 0 <= i < keyword.len() implies fused_item(
        keyword,
        semantic,
        (#[trigger] keyword[i]).thought.id,
    ) == keyword[i] by {
        law_fused_keeps_snippets(keyword, semantic, i);
    }
}

/// `r` are the best of what was found by words and by meaning, each of which the
/// search of its own finds, with no thought twice.
pub open spec fn best_found<E: TextEmbedder>(
    r: Result<Vec<ThoughtMatch>>,
    k: Result<Vec<ThoughtMatch>>,
    s: Result<Vec<ThoughtMatch>>,
    store: ThoughtStore<E>,
    query: Seq<char>,
    top_k: nat,
    hits: Seq<IndexHitView>,
) -> bool {
    let keyword = seen(k.unwrap()@);
    let semantic = seen(s.unwrap()@);
    &&& k is Ok && words_some_time(k, store@, query, top_k, hits) && each_once(keyword)
    &&& s is Ok && found_by_meaning::<E>(
        s,
        store.embedder.unwrap(),
        store@,
        query,
        top_k,
        None,
    ) && each_once(semantic)
    &&& best_of(seen(r.unwrap()@), keyword, semantic, top_k)
    &&& forall|i: int|
        0 <= i < keyword.len() ==> fused_item(
            keyword,
            semantic,
            (#[trigger] keyword[i]).thought.id,
        ) == keyword[i]
}

} // verus!
