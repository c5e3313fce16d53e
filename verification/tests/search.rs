use buoy::backfill::{migration_plan, MigrationStep};
use buoy::embed::TextEmbedder;
use buoy::error::{Error, Result};
use buoy::ident::Uuid;
use buoy::matching::{rank_scored, IndexHit, Scored};
use buoy::search::{
    build_match_query, extract_ranges, MatchRange, ThoughtMatch, MATCH_MARK_END, MATCH_MARK_START,
    SNIPPET_TOKENS,
};
use buoy::store::ThoughtStore;
use buoy::thought::Thought;
use rusqlite::Connection;

/// Deterministic test embedder: one dimension per *concept* (set to 1
/// when the text contains any of the concept's words) plus a small
/// constant bias dimension so no vector is ever zero, then
/// L2-normalized. Synonyms land on the same dimension — "milk" and
/// "cheese" are semantically close while sharing no keyword — and
/// texts sharing no concepts score ~0.06, safely under the similarity
/// floor. A broken one always fails.
struct VocabEmbedder {
    broken: bool,
}

const WORKING: VocabEmbedder = VocabEmbedder { broken: false };
const FAILING: VocabEmbedder = VocabEmbedder { broken: true };

const CONCEPTS: [&[&str]; 3] = [
    &["milk", "cheese"],
    &["boat", "sailing"],
    &["rust", "compiler"],
];

impl TextEmbedder for VocabEmbedder {
    fn embed(&self, text: &str) -> Result<Vec<u32>> {
        if self.broken {
            return Err(Error::Embedding {
                detail: "synthetic failure".into(),
            });
        }
        let lower = text.to_lowercase();
        let mut v = vec![0.0_f32; CONCEPTS.len() + 1];
        for (i, words) in CONCEPTS.iter().enumerate() {
            if words.iter().any(|word| lower.contains(word)) {
                v[i] = 1.0;
            }
        }
        v[CONCEPTS.len()] = 0.25;
        let norm = v.iter().map(|x| x * x).sum::<f32>().sqrt();
        Ok(v.into_iter().map(|x| (x / norm).to_bits()).collect())
    }

    fn dot(a: &Vec<u32>, b: &Vec<u32>) -> u32 {
        a.iter()
            .zip(b)
            .map(|(x, y)| f32::from_bits(*x) * f32::from_bits(*y))
            .sum::<f32>()
            .to_bits()
    }
}

type Store = ThoughtStore<VocabEmbedder>;

fn open_in_memory() -> Store {
    Store::open_in_memory()
}

/// What the text index of storage matches, best first.
fn hits(store: &Store, query: &str) -> Vec<IndexHit> {
    let match_query = match build_match_query(query) {
        Some(match_query) => match_query,
        None => return Vec::new(),
    };
    let conn = Connection::open_in_memory().unwrap();
    conn.execute_batch(
        "CREATE TABLE thoughts (id BLOB PRIMARY KEY NOT NULL, text TEXT NOT NULL);
         CREATE VIRTUAL TABLE thoughts_fts USING fts5(
            text,
            content='thoughts',
            content_rowid='rowid',
            tokenize='unicode61 remove_diacritics 2'
         );",
    )
    .unwrap();
    for row in &store.tables.thoughts {
        conn.execute(
            "INSERT INTO thoughts (id, text) VALUES (?1, ?2)",
            (row.id.as_slice(), row.text.as_str()),
        )
        .unwrap();
    }
    conn.execute_batch(
        "INSERT INTO thoughts_fts (rowid, text) SELECT rowid, text FROM thoughts;",
    )
    .unwrap();
    let mut stmt = conn
        .prepare(
            "SELECT t.id, snippet(thoughts_fts, 0, ?2, ?3, '…', ?4)
             FROM thoughts_fts
             JOIN thoughts t ON t.rowid = thoughts_fts.rowid
             WHERE thoughts_fts MATCH ?1
             ORDER BY rank",
        )
        .unwrap();
    let rows = stmt
        .query_map(
            (
                match_query,
                MATCH_MARK_START.to_string(),
                MATCH_MARK_END.to_string(),
                SNIPPET_TOKENS,
            ),
            |row| {
                Ok(IndexHit {
                    id: row.get(0)?,
                    marked_snippet: row.get(1)?,
                })
            },
        )
        .unwrap();
    rows.map(|hit| hit.unwrap()).collect()
}

fn search_text(store: &Store, query: &str, limit: usize) -> Result<Vec<ThoughtMatch>> {
    store.search_text(query, limit, &hits(store, query))
}

fn search_combined(store: &Store, query: &str, top_k: usize) -> Result<Vec<ThoughtMatch>> {
    store.search_combined(query, top_k, &hits(store, query))
}

#[test]
fn delete_is_a_tombstone_excluded_from_reads() {
    let mut store = open_in_memory();
    let t = store.create("doomed").unwrap();
    store.settle_all_live().unwrap();
    store.update_thought(t.id, "still doomed").unwrap();

    store.delete_thought(t.id).unwrap();
    // Excluded from every read/search path, and not addressable by id.
    assert!(store.list().unwrap().is_empty());
    assert!(store.list_paginated(None, 10).unwrap().thoughts.is_empty());
    assert!(search_text(&store, "doomed", 10).unwrap().is_empty());
    assert!(matches!(
        store.edit_history(t.id),
        Err(Error::NotFound { .. })
    ));
    assert!(matches!(
        store.update_thought(t.id, "zombie"),
        Err(Error::NotFound { .. })
    ));
    // Its stored embedding is gone (a tombstone is never a search candidate).
    assert_eq!(embedding_count(&store), 0);

    // But the row survives as a tombstone so the deletion can propagate.
    let change = store.changes_since(None, 100).unwrap();
    assert_eq!(change.len(), 1);
    assert_eq!(change[0].id, t.id);
    assert!(change[0].deleted_at.is_some());
}

#[test]
fn search_finds_thoughts_by_keyword() {
    let mut store = open_in_memory();
    let groceries = store.create("buy milk and eggs").unwrap();
    store.create("call the dentist").unwrap();

    let matches = search_text(&store, "milk", 10).unwrap();
    assert_eq!(matches.len(), 1);
    assert_eq!(matches[0].thought, groceries);
}

#[test]
fn search_requires_all_words() {
    let mut store = open_in_memory();
    store.create("rust compiler").unwrap();
    store.create("rust on the bumper").unwrap();

    let matches = search_text(&store, "rust compiler", 10).unwrap();
    assert_eq!(matches.len(), 1);
    assert_eq!(matches[0].thought.text, "rust compiler");
}

#[test]
fn search_matches_last_word_as_prefix() {
    let mut store = open_in_memory();
    store.create("banana bread recipe").unwrap();

    assert_eq!(search_text(&store, "ban", 10).unwrap().len(), 1);
    assert_eq!(search_text(&store, "banana rec", 10).unwrap().len(), 1);
    // Only the *last* word is a prefix; earlier words must be whole.
    assert!(search_text(&store, "ban bread", 10).unwrap().is_empty());
}

#[test]
fn search_ranks_higher_term_frequency_first() {
    let mut store = open_in_memory();
    store.create("sailing notes from the lake trip").unwrap();
    store
        .create("sailing sailing and more sailing this weekend")
        .unwrap();

    let matches = search_text(&store, "sailing", 10).unwrap();
    assert_eq!(matches.len(), 2);
    assert_eq!(
        matches[0].thought.text,
        "sailing sailing and more sailing this weekend"
    );
}

#[test]
fn search_special_characters_do_not_error() {
    let mut store = open_in_memory();
    store.create("don't forget the (important) thing*").unwrap();

    for query in [
        "don't",
        "\"quoted\"",
        "(important)",
        "thing*",
        "AND",
        "OR",
        "NEAR",
        "milk OR eggs",
        "—",
        "***",
        "🌊",
    ] {
        // Must never surface an FTS5 syntax error, whatever the input.
        let _ = search_text(&store, query, 10).unwrap();
    }

    assert_eq!(search_text(&store, "don't", 10).unwrap().len(), 1);
    assert_eq!(search_text(&store, "important", 10).unwrap().len(), 1);
}

#[test]
fn search_empty_query_returns_nothing() {
    let mut store = open_in_memory();
    store.create("anything").unwrap();
    assert!(search_text(&store, "", 10).unwrap().is_empty());
    assert!(search_text(&store, "   ", 10).unwrap().is_empty());
}

#[test]
fn search_respects_limit() {
    let mut store = open_in_memory();
    for i in 0..5 {
        store.create(&format!("note number {i}")).unwrap();
    }
    assert_eq!(search_text(&store, "note", 3).unwrap().len(), 3);
}

#[test]
fn search_index_follows_updates_and_deletes() {
    let mut store = open_in_memory();
    let t = store.create("original wording").unwrap();

    store.update_thought(t.id, "revised phrasing").unwrap();
    assert!(search_text(&store, "wording", 10).unwrap().is_empty());
    assert_eq!(search_text(&store, "phrasing", 10).unwrap().len(), 1);

    store.delete_thought(t.id).unwrap();
    assert!(search_text(&store, "phrasing", 10).unwrap().is_empty());
}

#[test]
fn search_snippet_ranges_cover_matched_terms() {
    let mut store = open_in_memory();
    store
        .create("a fairly long thought about the moment the harbor buoy light blinked twice before dawn")
        .unwrap();

    let matches = search_text(&store, "buoy", 10).unwrap();
    assert_eq!(matches.len(), 1);
    let m = &matches[0];
    // The thought is longer than the snippet window, so it truncates.
    assert!(m.snippet.contains('…'));
    assert_eq!(m.ranges.len(), 1);
    let range = m.ranges[0];
    assert_eq!(&m.snippet[range.start..range.start + range.len], "buoy");
}

#[test]
fn search_matches_ignore_diacritics() {
    let mut store = open_in_memory();
    store.create("rendezvous at the café").unwrap();
    assert_eq!(search_text(&store, "cafe", 10).unwrap().len(), 1);
}

#[test]
fn migrating_pre_fts_database_backfills_the_index() {
    let mut store = open_in_memory();
    let id = Uuid::new_v4();
    store
        .create_at(id, "pre-existing searchable row", 1_700_000_000_000, None)
        .unwrap();
    // Storage has yet to make its index, which takes in the rows that are there.
    assert!(migration_plan(1, false).contains(&MigrationStep::IndexText));
    store.migrate(1).unwrap();
    let matches = search_text(&store, "searchable", 10).unwrap();
    assert_eq!(matches.len(), 1);
    assert_eq!(matches[0].thought.text, "pre-existing searchable row");
}

fn embedding_count(store: &Store) -> usize {
    store.tables.embeddings.len()
}

#[test]
fn create_with_embedder_stores_a_vector() {
    let mut store = open_in_memory();
    store.set_embedder(WORKING);
    store.create("milk run").unwrap();
    assert_eq!(embedding_count(&store), 1);
}

#[test]
fn create_without_embedder_stores_no_vector_and_backfill_catches_up() {
    let mut store = open_in_memory();
    store.create("milk run").unwrap();
    store.create("boat trip").unwrap();
    assert_eq!(embedding_count(&store), 0);

    store.set_embedder(WORKING);
    assert_eq!(store.embed_missing(1).unwrap(), 1);
    assert_eq!(store.embed_missing(10).unwrap(), 1);
    assert_eq!(store.embed_missing(10).unwrap(), 0);
    assert_eq!(embedding_count(&store), 2);
}

#[test]
fn embed_missing_without_embedder_errors() {
    let mut store = open_in_memory();
    assert!(matches!(
        store.embed_missing(10).expect_err("should fail"),
        Error::NoEmbedder
    ));
}

#[test]
fn capture_and_edit_survive_a_failing_embedder() {
    let mut store = open_in_memory();
    store.set_embedder(WORKING);
    let t = store.create("milk").unwrap();
    assert_eq!(embedding_count(&store), 1);

    // The embedder breaks; capture and edit must still work, and the
    // edit must drop the now-stale vector rather than keep it.
    store.set_embedder(FAILING);
    store.create("still captured").unwrap();
    store.update_thought(t.id, "boat instead").unwrap();
    assert_eq!(store.list().unwrap().len(), 2);
    assert_eq!(embedding_count(&store), 0);

    // A working embedder later picks both up via backfill.
    store.set_embedder(WORKING);
    assert_eq!(store.embed_missing(10).unwrap(), 2);
}

#[test]
fn update_reembeds_the_new_text() {
    let mut store = open_in_memory();
    store.set_embedder(WORKING);
    let t = store.create("milk and yogurt").unwrap();
    store.update_thought(t.id, "boat maintenance").unwrap();

    let results = store.search_semantic("boat", 10).unwrap();
    assert_eq!(results.len(), 1);
    assert_eq!(results[0].thought.id, t.id);
    assert!(store.search_semantic("milk", 10).unwrap().is_empty());
}

#[test]
fn delete_cascades_the_embedding() {
    let mut store = open_in_memory();
    store.set_embedder(WORKING);
    let t = store.create("milk").unwrap();
    assert_eq!(embedding_count(&store), 1);
    store.delete_thought(t.id).unwrap();
    assert_eq!(embedding_count(&store), 0);
}

#[test]
fn search_semantic_ranks_by_similarity_and_respects_top_k() {
    let mut store = open_in_memory();
    store.set_embedder(WORKING);
    // Two concepts vs one vs none for the query "milk sailing".
    let both = store.create("milk for the sailing trip").unwrap();
    let one = store.create("just milk today").unwrap();
    store.create("rust musings").unwrap();

    let results = store.search_semantic("milk sailing", 10).unwrap();
    assert_eq!(
        results.len(),
        2,
        "rust thought is below the similarity floor"
    );
    assert_eq!(results[0].thought.id, both.id);
    assert_eq!(results[1].thought.id, one.id);
    // Semantic matches carry full text and no highlight ranges.
    assert_eq!(results[0].snippet, results[0].thought.text);
    assert!(results[0].ranges.is_empty());

    assert_eq!(store.search_semantic("milk sailing", 1).unwrap().len(), 1);
}

#[test]
fn search_semantic_without_embedder_errors() {
    let mut store = open_in_memory();
    store.create("anything").unwrap();
    assert!(matches!(
        store
            .search_semantic("anything", 5)
            .expect_err("should fail"),
        Error::NoEmbedder
    ));
}

#[test]
fn search_combined_merges_keyword_and_semantic() {
    let mut store = open_in_memory();
    store.set_embedder(WORKING);
    // Keyword-and-semantic hit ("milk" matches FTS and the vector).
    let both = store.create("milk for the week").unwrap();
    // Semantic-only hit: "cheese" shares the dairy concept dimension
    // with "milk" but has no keyword overlap, so FTS misses it.
    let semantic_only = store.create("cheese platter craving").unwrap();
    store.create("borrow checker woes").unwrap();

    let results = search_combined(&store, "milk", 10).unwrap();
    let ids: Vec<Uuid> = results.iter().map(|m| m.thought.id).collect();
    assert!(ids.contains(&both.id));
    assert!(ids.contains(&semantic_only.id));
    // Appearing in both lists outranks appearing in one.
    assert_eq!(results[0].thought.id, both.id);
    // The keyword representation (with highlights) wins for dual hits.
    assert!(!results[0].ranges.is_empty());
}

#[test]
fn search_combined_degrades_to_keyword_only_without_embedder() {
    let mut store = open_in_memory();
    store.create("plain keyword milk match").unwrap();
    let results = search_combined(&store, "milk", 10).unwrap();
    assert_eq!(results.len(), 1);
    assert!(!results[0].ranges.is_empty());
}

#[test]
fn find_related_ranks_and_excludes_the_edited_thought() {
    let mut store = open_in_memory();
    store.set_embedder(WORKING);
    let dairy = store.create("cheese for the party").unwrap();
    store.create("compiler error archaeology").unwrap();

    // Drafting a related thought surfaces the dairy one.
    let related = store.find_related("milk run tomorrow", 3, None).unwrap();
    assert_eq!(related.len(), 1);
    assert_eq!(related[0].thought.id, dairy.id);

    // While *editing* the dairy thought, it must not suggest itself.
    let related = store
        .find_related("cheese for the party", 3, Some(dairy.id))
        .unwrap();
    assert!(related.is_empty());
}

#[test]
fn find_related_is_empty_without_embedder_or_blank_draft() {
    let mut store = open_in_memory();
    store.create("anything").unwrap();
    assert!(store.find_related("anything", 3, None).unwrap().is_empty());

    store.set_embedder(WORKING);
    assert!(store.find_related("   ", 3, None).unwrap().is_empty());
}

#[test]
fn find_related_to_uses_the_stored_vector_and_excludes_self() {
    let mut store = open_in_memory();
    store.set_embedder(WORKING);
    let milk = store.create("milk for coffee").unwrap();
    let cheese = store.create("cheese board ideas").unwrap();
    store.create("borrow checker woes").unwrap();

    let related = store.find_related_to(milk.id, 3).unwrap();
    assert_eq!(related.len(), 1, "only the dairy-concept thought relates");
    assert_eq!(related[0].thought.id, cheese.id);

    // Works without an embedder — ranking uses stored vectors only.
    let mut fresh = open_in_memory();
    fresh.set_embedder(WORKING);
    let a = fresh.create("milk").unwrap();
    fresh.create("cheese").unwrap();
    let fresh = Store::from_tables(fresh.tables, None);
    let fresh_related = fresh.find_related_to(a.id, 3).unwrap();
    assert_eq!(fresh_related.len(), 1);
}

#[test]
fn find_related_to_without_vector_is_empty_and_unknown_id_errors() {
    let mut store = open_in_memory();
    // No embedder at creation time -> no stored vector.
    let t = store.create("milk").unwrap();
    assert!(store.find_related_to(t.id, 3).unwrap().is_empty());

    assert!(matches!(
        store
            .find_related_to(Uuid::new_v4(), 3)
            .expect_err("should fail"),
        Error::NotFound { .. }
    ));
}

// ── queries and snippets ────────────────────────────────────────────────────

#[test]
fn a_query_quotes_every_word_and_ends_in_a_prefix() {
    assert_eq!(build_match_query("milk").unwrap(), "\"milk\"*");
    assert_eq!(
        build_match_query("  milk \t eggs ").unwrap(),
        "\"milk\" \"eggs\"*"
    );
    assert_eq!(
        build_match_query("say \"hi\"").unwrap(),
        "\"say\" \"\"\"hi\"\"\"*"
    );
    assert!(build_match_query("").is_none());
    assert!(build_match_query(" \u{3000}\n").is_none());
}

#[test]
fn marks_become_byte_ranges() {
    let marked = format!("caf\u{e9} {MATCH_MARK_START}b\u{f6}ot{MATCH_MARK_END} end");
    let (plain, ranges) = extract_ranges(&marked);
    assert_eq!(plain, "caf\u{e9} b\u{f6}ot end");
    assert_eq!(ranges, vec![MatchRange { start: 6, len: 5 }]);
    assert_eq!(&plain[6..11], "b\u{f6}ot");
}

#[test]
fn stray_marks_are_dropped() {
    let marked = format!("a{MATCH_MARK_END}b{MATCH_MARK_START}c");
    let (plain, ranges) = extract_ranges(&marked);
    assert_eq!(plain, "abc");
    assert!(ranges.is_empty());
    let twice = format!("{MATCH_MARK_START}a{MATCH_MARK_START}b{MATCH_MARK_END}c{MATCH_MARK_END}");
    let (plain, ranges) = extract_ranges(&twice);
    assert_eq!(plain, "abc");
    assert_eq!(ranges, vec![MatchRange { start: 1, len: 1 }]);
}

// ── by meaning ──────────────────────────────────────────────────────────────

fn scored(name: &str, similarity: f32) -> Scored {
    Scored {
        similarity: similarity.to_bits(),
        thought: Thought {
            id: Uuid::new_v4(),
            text: name.to_owned(),
            created_at: 0,
            updated_at: 0,
            is_settled: false,
            is_actioned: false,
        },
    }
}

#[test]
fn only_what_is_similar_enough_is_kept_most_similar_first() {
    let list = vec![
        scored("floor", 0.25),
        scored("below", 0.249_999_98),
        scored("nan", f32::NAN),
        scored("negative", -0.9),
        scored("first tie", 0.5),
        scored("best", 1.0),
        scored("second tie", 0.5),
    ];
    let names: Vec<String> = rank_scored(&list, 10)
        .into_iter()
        .map(|m| m.snippet)
        .collect();
    assert_eq!(names, vec!["best", "first tie", "second tie", "floor"]);
    assert_eq!(rank_scored(&list, 2).len(), 2);
}

#[test]
fn a_stored_vector_of_another_length_is_an_error() {
    let mut store = open_in_memory();
    store.set_embedder(WORKING);
    store.create("milk").unwrap();
    store.tables.embeddings[0].vector = vec![0; 8];
    let err = store.search_semantic("milk", 3).expect_err("dims");
    assert_eq!(
        err.text(),
        "corrupt row in `embeddings`: stored vector has 2 dims, query has 4"
    );
    store.tables.embeddings[0].vector = vec![0; 7];
    let err = store.search_semantic("milk", 3).expect_err("length");
    assert_eq!(
        err.text(),
        "corrupt row in `embeddings`: vector column had 7 bytes, not a multiple of 4"
    );
}

#[test]
fn a_failing_embedder_fails_what_asks_for_vectors() {
    let mut store = open_in_memory();
    store.create("milk").unwrap();
    store.create("boat").unwrap();
    store.set_embedder(FAILING);
    let err = store.embed_missing(5).expect_err("fails");
    assert_eq!(err.text(), "embedding failed: synthetic failure");
    assert!(matches!(
        store.search_semantic("milk", 5),
        Err(Error::Embedding { .. })
    ));
    assert!(matches!(
        store.find_related("milk", 5, None),
        Err(Error::Embedding { .. })
    ));
    assert!(matches!(
        search_combined(&store, "milk", 5),
        Err(Error::Embedding { .. })
    ));
}

#[test]
fn the_latest_thoughts_are_embedded_first() {
    let mut store = open_in_memory();
    let old = Uuid::new_v4();
    let new = Uuid::new_v4();
    store.create_at(old, "milk", 1, None).unwrap();
    store.create_at(new, "boat", 2, None).unwrap();
    store.set_embedder(WORKING);
    assert_eq!(store.embed_missing(1).unwrap(), 1);
    assert_eq!(store.tables.embeddings[0].thought_id, new.to_blob());
    // A deleted thought does not wait.
    store.delete_thought_at(old, 3).unwrap();
    assert_eq!(store.embed_missing(1).unwrap(), 0);
}

#[test]
fn embedding_stops_at_an_unreadable_thought() {
    let mut store = open_in_memory();
    store.create_at(Uuid::new_v4(), "milk", 2, None).unwrap();
    store.create_at(Uuid::new_v4(), "boat", 1, None).unwrap();
    store.tables.thoughts[1].id = vec![7];
    store.set_embedder(WORKING);
    assert!(matches!(
        store.embed_missing(10),
        Err(Error::CorruptRow { .. })
    ));
    // What was embedded before is kept.
    assert_eq!(embedding_count(&store), 1);
}

#[test]
fn a_hit_of_a_thought_that_is_gone_is_left_out() {
    let mut store = open_in_memory();
    let kept = Uuid::new_v4();
    let gone = Uuid::new_v4();
    store.create_at(kept, "milk here", 1, None).unwrap();
    store.create_at(gone, "milk gone", 1, None).unwrap();
    let found = hits(&store, "milk");
    assert_eq!(found.len(), 2);
    store.delete_thought_at(gone, 2).unwrap();
    let matches = store.search_text_at("milk", 1, &found, 2).unwrap();
    assert_eq!(matches.len(), 1);
    assert_eq!(matches[0].thought.id, kept);
}
