use buoy::backfill::{migration_plan, MigrationStep};
use buoy::clock::now_unix_millis;
use buoy::embed::TextEmbedder;
use buoy::error::{Error, Result};
use buoy::ident::Uuid;
use buoy::query::Cursor;
use buoy::store::ThoughtStore;
use buoy::sync::{SyncCursor, ThoughtChange};
use buoy::tables::{Tables, ThoughtRow};
use buoy::thought::Thought;

/// No embedder is ever attached.
struct NoModel;

impl TextEmbedder for NoModel {
    fn embed(&self, _text: &str) -> Result<Vec<u32>> {
        Err(Error::NoEmbedder)
    }

    fn dot(_a: &Vec<u32>, _b: &Vec<u32>) -> u32 {
        0
    }
}

type Store = ThoughtStore<NoModel>;

fn open_in_memory() -> Store {
    Store::open_in_memory()
}

/// Waits for a later millisecond.
fn tick() {
    let start = now_unix_millis().unwrap();
    while now_unix_millis().unwrap() <= start + 1 {}
}

fn insert_row(store: &mut Store, id: Vec<u8>, text: &str, at: i64, actioned_at: Option<i64>) {
    store.tables.thoughts.push(ThoughtRow {
        id,
        text: text.to_owned(),
        created_at: at,
        updated_at: at,
        settled_at: None,
        deleted_at: None,
        actioned_at,
        dirty: false,
    });
}

/// What storage holds after it has executed the journal.
fn reopen(before: Tables, store: &mut Store) -> Store {
    let mut tables = before;
    for statement in store.take_journal() {
        tables.execute(&statement);
    }
    Store::from_tables(tables, None)
}

#[test]
fn create_then_list_returns_the_thought() {
    let mut store = open_in_memory();
    let thought = store.create("hello buoy").unwrap();
    assert_eq!(store.list().unwrap(), vec![thought]);
}

#[test]
fn list_returns_newest_first() {
    let mut store = open_in_memory();
    let first = store.create("one").unwrap();
    tick();
    let second = store.create("two").unwrap();
    tick();
    let third = store.create("three").unwrap();
    assert_eq!(store.list().unwrap(), vec![third, second, first]);
}

#[test]
fn created_thought_is_live_with_matching_timestamps() {
    let mut store = open_in_memory();
    let t = store.create("x").unwrap();
    assert!(!t.is_settled);
    assert_eq!(t.created_at, t.updated_at);
}

#[test]
fn unicode_text_round_trips() {
    let mut store = open_in_memory();
    let captured = store.create("水 🌊 思考 — émoji ok").unwrap();
    assert_eq!(store.list().unwrap(), vec![captured]);
}

#[test]
fn ids_are_unique_across_creates() {
    let mut store = open_in_memory();
    let a = store.create("a").unwrap();
    let b = store.create("b").unwrap();
    assert_ne!(a.id, b.id);
}

#[test]
fn thoughts_persist_across_reopen() {
    let mut store = open_in_memory();
    let original = store.create("survives a restart").unwrap();
    let store = reopen(Tables::new(), &mut store);
    assert_eq!(store.list().unwrap(), vec![original]);
}

#[test]
fn migrate_is_idempotent_and_upgrades_v1_to_v2() {
    // A database of the current version needs no step but the mark.
    assert_eq!(migration_plan(7, true), vec![MigrationStep::Stamp]);
    let mut store = open_in_memory();
    store.migrate(0).unwrap();
    store.migrate(7).unwrap();
    store.create("after second open").unwrap();
    assert_eq!(store.list().unwrap().len(), 1);
}

#[test]
fn upgrading_existing_v1_database_backfills_updated_at() {
    let mut store = open_in_memory();
    insert_row(&mut store, Uuid::new_v4().to_blob(), "legacy", 1_700_000_000_000, None);
    store.tables.thoughts[0].updated_at = 0;
    store.migrate(1).unwrap();
    let listed = store.list().unwrap();
    assert_eq!(listed.len(), 1);
    assert_eq!(listed[0].text, "legacy");
    assert_eq!(listed[0].created_at, 1_700_000_000_000);
    assert_eq!(listed[0].updated_at, 1_700_000_000_000);
    // A row that is already old by the time it is opened comes back settled.
    assert!(listed[0].is_settled);
    // It has yet to be pushed.
    assert_eq!(store.pending_changes(10).unwrap().len(), 1);
}

#[test]
fn update_within_window_overwrites_without_history() {
    let mut store = open_in_memory();
    let original = store.create("first draft").unwrap();
    let updated = store.update_thought(original.id, "second draft").unwrap();

    assert_eq!(updated.text, "second draft");
    assert_eq!(updated.created_at, original.created_at);
    assert!(updated.updated_at >= original.updated_at);
    assert!(!updated.is_settled);
    assert!(store.edit_history(original.id).unwrap().is_empty());
}

#[test]
fn update_after_force_settle_archives_prior_text() {
    let mut store = open_in_memory();
    let t = store.create("original").unwrap();
    let settled_count = store.settle_all_live().unwrap();
    assert_eq!(settled_count, 1);

    let updated = store.update_thought(t.id, "revised").unwrap();
    assert_eq!(updated.text, "revised");
    // The edit revived the thought, so it must be live again.
    assert!(!updated.is_settled);

    let history = store.edit_history(t.id).unwrap();
    assert_eq!(history.len(), 1);
    assert_eq!(history[0].text, "original");
}

#[test]
fn multiple_settled_edits_accumulate_history() {
    let mut store = open_in_memory();
    let t = store.create("v1").unwrap();
    store.settle_all_live().unwrap();
    store.update_thought(t.id, "v2").unwrap();
    store.settle_all_live().unwrap();
    store.update_thought(t.id, "v3").unwrap();

    let history = store.edit_history(t.id).unwrap();
    assert_eq!(history.len(), 2);
    assert_eq!(history[0].text, "v1");
    assert_eq!(history[1].text, "v2");
    assert!(history[0].archived_at <= history[1].archived_at);
}

#[test]
fn settle_all_live_only_touches_live_rows() {
    let mut store = open_in_memory();
    store.create("a").unwrap();
    store.create("b").unwrap();
    store.settle_all_live().unwrap();
    // Running it a second time should settle zero rows; everything's
    // already settled.
    assert_eq!(store.settle_all_live().unwrap(), 0);
}

#[test]
fn update_unknown_id_returns_not_found() {
    let mut store = open_in_memory();
    let err = store
        .update_thought(Uuid::new_v4(), "nope")
        .expect_err("should fail");
    assert!(matches!(err, Error::NotFound { .. }));
}

#[test]
fn delete_unknown_id_returns_not_found() {
    let mut store = open_in_memory();
    let err = store
        .delete_thought(Uuid::new_v4())
        .expect_err("should fail");
    assert!(matches!(err, Error::NotFound { .. }));
}

#[test]
fn list_paginated_walks_through_all_rows() {
    let mut store = open_in_memory();
    let mut created = Vec::new();
    for i in 0..7 {
        created.push(store.create(&format!("thought {i}")).unwrap());
        tick();
    }
    // Newest first.
    created.reverse();

    let mut collected = Vec::new();
    let mut cursor: Option<Cursor> = None;
    loop {
        let page = store.list_paginated(cursor, 3).unwrap();
        collected.extend(page.thoughts);
        match page.next_cursor {
            Some(c) => cursor = Some(c),
            None => break,
        }
    }

    assert_eq!(collected, created);
}

#[test]
fn list_paginated_returns_no_cursor_when_exactly_one_page() {
    let mut store = open_in_memory();
    store.create("only one").unwrap();
    let page = store.list_paginated(None, 10).unwrap();
    assert_eq!(page.thoughts.len(), 1);
    assert!(page.next_cursor.is_none());
}

#[test]
fn list_paginated_cursor_is_stable_across_same_millisecond_creates() {
    let mut store = open_in_memory();
    // Insert several rows with identical created_at to exercise the
    // (created_at, id) tiebreaker in the cursor.
    let now = now_unix_millis().unwrap();
    for _ in 0..5 {
        insert_row(&mut store, Uuid::new_v4().to_blob(), "tie", now, None);
    }

    let page1 = store.list_paginated(None, 2).unwrap();
    let page2 = store.list_paginated(page1.next_cursor, 2).unwrap();
    let page3 = store.list_paginated(page2.next_cursor, 2).unwrap();

    let total = page1.thoughts.len() + page2.thoughts.len() + page3.thoughts.len();
    assert_eq!(total, 5);

    // No id should appear twice.
    let mut ids: Vec<Uuid> = page1
        .thoughts
        .iter()
        .chain(page2.thoughts.iter())
        .chain(page3.thoughts.iter())
        .map(|t| t.id)
        .collect();
    ids.sort();
    let mut deduped = ids.clone();
    deduped.dedup();
    assert_eq!(ids, deduped);
}

#[test]
fn edit_history_unknown_id_returns_not_found() {
    let store = open_in_memory();
    let err = store.edit_history(Uuid::new_v4()).expect_err("should fail");
    assert!(matches!(err, Error::NotFound { .. }));
}

#[test]
fn empty_text_is_allowed() {
    let mut store = open_in_memory();
    let captured = store.create("").unwrap();
    assert_eq!(captured.text, "");
    assert_eq!(store.list().unwrap(), vec![captured]);
}

#[test]
fn corrupt_id_blob_surfaces_as_corrupt_row() {
    let mut store = open_in_memory();
    // Insert a row directly with a malformed id (wrong length).
    insert_row(&mut store, vec![0u8, 1, 2], "bad", 0, None);
    let err = store.list().expect_err("list should fail on corrupt row");
    assert!(matches!(
        err,
        Error::CorruptRow {
            table: "thoughts",
            ..
        }
    ));
    assert_eq!(
        err.text(),
        "corrupt row in `thoughts`: id column had 3 bytes, expected 16"
    );
}

// ── sync ────────────────────────────────────────────────────────────────────

fn change_of(t: &Thought) -> ThoughtChange {
    ThoughtChange {
        id: t.id,
        text: t.text.clone(),
        created_at: t.created_at,
        updated_at: t.updated_at,
        settled_at: None,
        deleted_at: None,
        actioned_at: None,
    }
}

#[test]
fn create_and_edit_mark_rows_dirty() {
    let mut store = open_in_memory();
    let a = store.create("alpha").unwrap();
    let b = store.create("beta").unwrap();
    // Both are local changes awaiting push.
    let pending = store.pending_changes(100).unwrap();
    assert_eq!(pending.len(), 2);

    // Marking them synced clears the outbox.
    store
        .mark_synced(&vec![(a.id, a.updated_at), (b.id, b.updated_at)])
        .unwrap();
    assert!(store.pending_changes(100).unwrap().is_empty());

    // A later edit re-dirties just that row.
    let a2 = store.update_thought(a.id, "alpha edited").unwrap();
    let pending = store.pending_changes(100).unwrap();
    assert_eq!(pending.len(), 1);
    assert_eq!(pending[0].id, a.id);
    assert_eq!(pending[0].updated_at, a2.updated_at);
}

#[test]
fn apply_remote_inserts_then_respects_last_writer_wins() {
    let mut store = open_in_memory();
    let id = Uuid::new_v4();
    let remote = ThoughtChange {
        id,
        text: "from another device".into(),
        created_at: 1_000,
        updated_at: 1_000,
        settled_at: None,
        deleted_at: None,
        actioned_at: None,
    };
    // Absent locally → inserted, and it lands clean (not in the outbox).
    assert!(store.apply_remote(&remote).unwrap());
    assert_eq!(store.list().unwrap().len(), 1);
    assert!(store.pending_changes(100).unwrap().is_empty());

    // An older change for the same id is ignored.
    let older = ThoughtChange {
        text: "stale".into(),
        updated_at: 500,
        ..remote.clone()
    };
    assert!(!store.apply_remote(&older).unwrap());
    assert_eq!(store.list().unwrap()[0].text, "from another device");

    // A strictly newer change wins.
    let newer = ThoughtChange {
        text: "newer wins".into(),
        updated_at: 2_000,
        ..remote.clone()
    };
    assert!(store.apply_remote(&newer).unwrap());
    assert_eq!(store.list().unwrap()[0].text, "newer wins");
    // Re-applying it is an idempotent no-op (equal updated_at).
    assert!(!store.apply_remote(&newer).unwrap());
}

#[test]
fn apply_remote_tombstone_deletes_locally() {
    let mut store = open_in_memory();
    let t = store.create("here then gone").unwrap();
    let tombstone = ThoughtChange {
        deleted_at: Some(t.updated_at + 1),
        updated_at: t.updated_at + 1,
        ..change_of(&t)
    };
    assert!(store.apply_remote(&tombstone).unwrap());
    assert!(store.list().unwrap().is_empty());
    // The tombstone is now clean locally (came from the peer).
    assert!(store.pending_changes(100).unwrap().is_empty());
}

#[test]
fn changes_since_is_a_gapless_keyset_feed() {
    let mut store = open_in_memory();
    for i in 0..5 {
        store.create(&format!("t{i}")).unwrap();
    }
    // Page through the whole feed two at a time using the keyset cursor.
    let mut seen = Vec::new();
    let mut cursor = None;
    loop {
        let page = store.changes_since(cursor, 2).unwrap();
        if page.is_empty() {
            break;
        }
        cursor = Some(SyncCursor::after(page.last().unwrap()));
        seen.extend(page.iter().map(|c| c.id));
        if seen.len() >= 5 {
            break;
        }
    }
    seen.sort();
    seen.dedup();
    assert_eq!(seen.len(), 5, "every row seen exactly once, no gaps/dupes");
}

#[test]
fn mark_synced_keeps_a_concurrently_edited_row_dirty() {
    let mut store = open_in_memory();
    let t = store.create("v1").unwrap();
    // The edit must land in a later millisecond than the create so its
    // updated_at differs — that's the whole point of the ack check below.
    tick();
    // Simulate: read the row for push, then it's edited before the ack.
    let edited = store.update_thought(t.id, "v2").unwrap();
    // Ack the OLD version — must not clear the (now newer) dirty row.
    store.mark_synced(&vec![(t.id, t.updated_at)]).unwrap();
    let pending = store.pending_changes(100).unwrap();
    assert_eq!(pending.len(), 1);
    assert_eq!(pending[0].updated_at, edited.updated_at);
}

// ── tags & saved searches ───────────────────────────────────────────────────

fn tag_count(store: &Store) -> usize {
    store.tables.tags.len()
}

#[test]
fn create_mirrors_tags_from_text() {
    let mut store = open_in_memory();
    store.create("ship the #idea and the #plan").unwrap();
    let mut tags = store.tags_with_prefix("", 10).unwrap();
    tags.sort();
    assert_eq!(tags, vec!["idea", "plan"]);
}

#[test]
fn editing_text_adds_and_removes_tags_and_gcs_orphans() {
    let mut store = open_in_memory();
    let t = store.create("first #alpha").unwrap();
    assert_eq!(store.tags_with_prefix("", 10).unwrap(), vec!["alpha"]);

    store.update_thought(t.id, "now #beta only").unwrap();
    // alpha is orphaned and GC'd; beta is present.
    assert_eq!(store.tags_with_prefix("", 10).unwrap(), vec!["beta"]);
    assert_eq!(tag_count(&store), 1);
}

#[test]
fn tags_are_case_folded_across_thoughts() {
    let mut store = open_in_memory();
    let a = store.create("one #Idea").unwrap();
    let b = store.create("two #idea").unwrap();
    // A single tag, first casing kept.
    assert_eq!(store.tags_with_prefix("", 10).unwrap(), vec!["Idea"]);
    // Both thoughts filter under it, case-insensitively.
    let ids: Vec<Uuid> = store
        .thoughts_with_tag("IDEA", 10)
        .unwrap()
        .iter()
        .map(|t| t.id)
        .collect();
    assert!(ids.contains(&a.id) && ids.contains(&b.id));
}

#[test]
fn tags_with_prefix_filters_and_orders_by_use() {
    let mut store = open_in_memory();
    store.create("#work a").unwrap();
    store.create("#work b").unwrap();
    store.create("#worry c").unwrap();
    store.create("#home d").unwrap();
    // Prefix "wo" matches work + worry; work is used twice, so it leads.
    assert_eq!(
        store.tags_with_prefix("wo", 10).unwrap(),
        vec!["work", "worry"]
    );
}

#[test]
fn tags_with_prefix_escapes_underscore_wildcard() {
    let mut store = open_in_memory();
    store.create("#a_b").unwrap();
    store.create("#axb").unwrap();
    // "a_" must match literally (a, underscore), not "a<any>".
    assert_eq!(store.tags_with_prefix("a_", 10).unwrap(), vec!["a_b"]);
}

#[test]
fn thoughts_with_tag_excludes_deleted() {
    let mut store = open_in_memory();
    let keep = store.create("keep #x").unwrap();
    let gone = store.create("drop #x").unwrap();
    store.delete_thought(gone.id).unwrap();
    let hits = store.thoughts_with_tag("x", 10).unwrap();
    assert_eq!(hits.len(), 1);
    assert_eq!(hits[0].id, keep.id);
    // The remaining thought keeps the tag alive.
    assert_eq!(store.tags_with_prefix("", 10).unwrap(), vec!["x"]);
}

#[test]
fn deleting_last_tagged_thought_gcs_the_tag() {
    let mut store = open_in_memory();
    let only = store.create("solo #unique").unwrap();
    assert_eq!(tag_count(&store), 1);
    store.delete_thought(only.id).unwrap();
    assert_eq!(tag_count(&store), 0);
}

#[test]
fn apply_remote_mirrors_tags() {
    let mut store = open_in_memory();
    let remote = ThoughtChange {
        id: Uuid::new_v4(),
        text: "synced #frompeer".into(),
        created_at: 1_000,
        updated_at: 1_000,
        settled_at: None,
        deleted_at: None,
        actioned_at: None,
    };
    store.apply_remote(&remote).unwrap();
    assert_eq!(store.tags_with_prefix("", 10).unwrap(), vec!["frompeer"]);

    // A tombstone clears them.
    let tombstone = ThoughtChange {
        deleted_at: Some(2_000),
        updated_at: 2_000,
        ..remote
    };
    store.apply_remote(&tombstone).unwrap();
    assert!(store.tags_with_prefix("", 10).unwrap().is_empty());
}

#[test]
fn migration_backfills_tags_from_existing_text() {
    let mut store = open_in_memory();
    store.create("legacy #backfilled note").unwrap();
    // Drop the tags, leaving the tagged thought text in place.
    store.tables.tags.clear();
    store.tables.links.clear();
    assert!(store.tags_with_prefix("", 10).unwrap().is_empty());
    store.migrate(5).unwrap();
    assert_eq!(
        store.tags_with_prefix("", 10).unwrap(),
        vec!["backfilled"]
    );
}

#[test]
fn saved_search_crud() {
    let mut store = open_in_memory();
    let a = store.create_saved_search("Work", "#work").unwrap();
    let b = store.create_saved_search("Milk", "milk OR dairy").unwrap();

    let all = store.list_saved_searches().unwrap();
    assert_eq!(all.len(), 2);
    assert!(all.iter().any(|s| *s == a));
    assert!(all.iter().any(|s| s.query == "milk OR dairy"));

    store.delete_saved_search(b.id).unwrap();
    let all = store.list_saved_searches().unwrap();
    assert_eq!(all.len(), 1);
    assert_eq!(all[0].id, a.id);

    // Deleting a missing one is a no-op.
    store.delete_saved_search(Uuid::new_v4()).unwrap();
    assert_eq!(store.list_saved_searches().unwrap().len(), 1);
}

// ── action tracking ─────────────────────────────────────────────────────────

#[test]
fn new_thought_is_unactioned() {
    let mut store = open_in_memory();
    let t = store.create("to do").unwrap();
    assert!(!t.is_actioned);
}

#[test]
fn mark_actioned_sets_flag() {
    let mut store = open_in_memory();
    let t = store.create("to do").unwrap();
    assert!(!t.is_actioned);
    let actioned = store.mark_actioned(t.id).unwrap();
    assert!(actioned.is_actioned);
    assert_eq!(actioned.id, t.id);
    // Persists through list().
    assert!(store.list().unwrap()[0].is_actioned);
}

#[test]
fn unmark_actioned_clears_flag() {
    let mut store = open_in_memory();
    let t = store.create("done").unwrap();
    store.mark_actioned(t.id).unwrap();
    let unactioned = store.unmark_actioned(t.id).unwrap();
    assert!(!unactioned.is_actioned);
    assert!(!store.list().unwrap()[0].is_actioned);
}

#[test]
fn mark_actioned_unknown_id_returns_not_found() {
    let mut store = open_in_memory();
    let err = store.mark_actioned(Uuid::new_v4()).expect_err("should fail");
    assert!(matches!(err, Error::NotFound { .. }));
}

#[test]
fn unmark_actioned_unknown_id_returns_not_found() {
    let mut store = open_in_memory();
    let err = store.unmark_actioned(Uuid::new_v4()).expect_err("should fail");
    assert!(matches!(err, Error::NotFound { .. }));
}

#[test]
fn mark_actioned_marks_row_dirty_for_sync() {
    let mut store = open_in_memory();
    let t = store.create("item").unwrap();
    // Simulate a successful push.
    store.mark_synced(&vec![(t.id, t.updated_at)]).unwrap();
    assert!(store.pending_changes(100).unwrap().is_empty());
    // Marking actioned re-dirties the row.
    store.mark_actioned(t.id).unwrap();
    let pending = store.pending_changes(100).unwrap();
    assert_eq!(pending.len(), 1);
    assert!(pending[0].actioned_at.is_some());
}

#[test]
fn actioned_at_propagates_through_sync() {
    let mut store_a = open_in_memory();
    let mut store_b = open_in_memory();

    let t = store_a.create("shared item").unwrap();
    // Push from A to B.
    let change = store_a.pending_changes(10).unwrap().remove(0);
    store_b.apply_remote(&change).unwrap();
    assert!(!store_b.list().unwrap()[0].is_actioned);

    // A marks it actioned; the change propagates to B.
    tick();
    store_a.mark_actioned(t.id).unwrap();
    let actioned_change = store_a.pending_changes(10).unwrap().remove(0);
    assert!(actioned_change.actioned_at.is_some());
    store_b.apply_remote(&actioned_change).unwrap();
    assert!(store_b.list().unwrap()[0].is_actioned);
}

#[test]
fn list_stale_returns_old_unactioned_thoughts() {
    let mut store = open_in_memory();
    // Insert an "old" row directly to avoid the timing dependency.
    let id = Uuid::new_v4();
    let old_ts = now_unix_millis().unwrap() - 10_000; // 10 seconds ago
    insert_row(&mut store, id.to_blob(), "old item", old_ts, None);

    // Threshold of 5 seconds: the 10s-old row qualifies.
    let stale = store.list_stale(5_000, 10).unwrap();
    assert_eq!(stale.len(), 1);
    assert_eq!(stale[0].id, id);
    assert!(!stale[0].is_actioned);
}

#[test]
fn list_stale_excludes_actioned_thoughts() {
    let mut store = open_in_memory();
    let id = Uuid::new_v4();
    let old_ts = now_unix_millis().unwrap() - 10_000;
    insert_row(&mut store, id.to_blob(), "done", old_ts, Some(old_ts));

    // Actioned thoughts never appear in the stale list regardless of age.
    let stale = store.list_stale(5_000, 10).unwrap();
    assert!(stale.is_empty());
}

#[test]
fn list_stale_excludes_recently_updated_thoughts() {
    let mut store = open_in_memory();
    // A freshly-created thought should not appear (updated_at is now).
    store.create("fresh").unwrap();
    // Threshold of 5 minutes; the fresh thought was updated now.
    let stale = store.list_stale(5 * 60 * 1000, 10).unwrap();
    assert!(stale.is_empty());
}

#[test]
fn update_thought_preserves_actioned_state() {
    let mut store = open_in_memory();
    let t = store.create("todo").unwrap();
    store.mark_actioned(t.id).unwrap();
    // Editing the text should not clear the actioned flag.
    let updated = store.update_thought(t.id, "todo (revised)").unwrap();
    assert!(updated.is_actioned);
    assert!(store.list().unwrap()[0].is_actioned);
}

// ── times that are given ────────────────────────────────────────────────────

#[test]
fn a_thought_settles_after_an_hour() {
    let mut store = open_in_memory();
    let id = Uuid::new_v4();
    store.create_at(id, "v1", 1_000, None).unwrap();
    assert!(!store.get_thought(id, 3_601_000).unwrap().is_settled);
    assert!(store.get_thought(id, 3_601_001).unwrap().is_settled);

    // Within the window an edit overwrites; past it the text is archived.
    store.update_thought_at(id, "v2", 2_000, None).unwrap();
    assert!(store.edit_history(id).unwrap().is_empty());
    store.update_thought_at(id, "v3", 3_602_001, None).unwrap();
    let history = store.edit_history(id).unwrap();
    assert_eq!(history.len(), 1);
    assert_eq!(history[0].text, "v2");
    assert_eq!(history[0].archived_at, 3_602_001);
}

#[test]
fn a_taken_identifier_is_refused() {
    let mut store = open_in_memory();
    let id = Uuid::new_v4();
    store.create_at(id, "first", 1, None).unwrap();
    let before = store.tables.clone();
    let err = store.create_at(id, "second", 2, None).expect_err("taken");
    assert_eq!(err.text(), "storage error: UNIQUE constraint failed: thoughts.id");
    assert_eq!(store.tables, before);

    let saved = Uuid::new_v4();
    store.create_saved_search_at(saved, "n", "q", 1).unwrap();
    let err = store
        .create_saved_search_at(saved, "n2", "q2", 2)
        .expect_err("taken");
    assert_eq!(
        err.text(),
        "storage error: UNIQUE constraint failed: saved_searches.id"
    );
}

#[test]
fn a_page_may_have_any_size() {
    let mut store = open_in_memory();
    let page = store.list_paginated(None, usize::MAX).unwrap();
    assert!(page.thoughts.is_empty() && page.next_cursor.is_none());

    let only = store.create("only one").unwrap();
    for limit in [1, i64::MAX as usize - 1, i64::MAX as usize, usize::MAX] {
        let page = store.list_paginated(None, limit).unwrap();
        assert_eq!(page.thoughts, vec![only.clone()]);
        assert!(page.next_cursor.is_none());
    }
}

#[test]
fn an_empty_page_goes_on_where_it_started() {
    let mut store = open_in_memory();
    let page = store.list_paginated(None, 0).unwrap();
    assert!(page.thoughts.is_empty() && page.next_cursor.is_none());

    for i in 0..3 {
        store.create_at(Uuid::new_v4(), "x", i, None).unwrap();
    }
    let all = store.list_paginated_at(None, 10, 5).unwrap();
    let empty = store.list_paginated_at(None, 0, 5).unwrap();
    assert!(empty.thoughts.is_empty());
    assert_eq!(
        empty.next_cursor,
        Some(Cursor {
            created_at: i64::MAX,
            id: Uuid { bytes: [0xff; 16] },
        })
    );
    let rest = store.list_paginated_at(empty.next_cursor, 10, 5).unwrap();
    assert_eq!(rest, all);

    let first = store.list_paginated_at(None, 1, 5).unwrap();
    let empty = store.list_paginated_at(first.next_cursor, 0, 5).unwrap();
    assert!(empty.thoughts.is_empty());
    assert_eq!(empty.next_cursor, first.next_cursor);

    let last = store.list_paginated_at(None, 3, 5).unwrap();
    assert!(last.next_cursor.is_none());
}

#[test]
fn the_tag_filter_ignores_case_beyond_ascii() {
    let mut store = open_in_memory();
    let summer = store.create("#été").unwrap();
    assert_eq!(store.thoughts_with_tag("ÉTÉ", 10).unwrap(), vec![summer.clone()]);
    assert_eq!(store.thoughts_with_tag("éTé", 10).unwrap(), vec![summer.clone()]);
    assert!(store.thoughts_with_tag("ete", 10).unwrap().is_empty());
    // The two are stored apart, and found together.
    tick();
    let loud = store.create("#ÉTÉ").unwrap();
    assert_eq!(store.thoughts_with_tag("Été", 10).unwrap(), vec![loud, summer]);
}

#[test]
fn the_feed_resumes_behind_any_cursor() {
    let mut store = open_in_memory();
    for i in 0..6 {
        store.create_at(Uuid::new_v4(), "x", i / 2, None).unwrap();
    }
    let all = store.changes_since(None, 100).unwrap();
    for start in 0..all.len() {
        let rest = store.changes_since(Some(SyncCursor::after(&all[start])), 100).unwrap();
        assert_eq!(rest, all[start + 1..].to_vec());
        for (i, change) in rest.iter().enumerate() {
            let then = store.changes_since(Some(SyncCursor::after(change)), 100).unwrap();
            assert_eq!(then, rest[i + 1..].to_vec());
        }
    }
}

#[test]
fn the_stale_threshold_does_not_overflow() {
    let mut store = open_in_memory();
    store.create_at(Uuid::new_v4(), "x", 5, None).unwrap();
    assert_eq!(store.list_stale_at(i64::MIN, 10, 100).unwrap().len(), 1);
    assert!(store.list_stale_at(i64::MAX, 10, -100).unwrap().is_empty());
    assert_eq!(store.list_stale_at(94, 10, 100).unwrap().len(), 1);
    assert!(store.list_stale_at(95, 10, 100).unwrap().is_empty());
}

#[test]
fn the_journal_leads_to_the_same_tables() {
    let mut store = open_in_memory();
    let a = store.create("one #x").unwrap();
    let b = store.create("two #x #y").unwrap();
    store.settle_all_live().unwrap();
    store.update_thought(a.id, "one again #z").unwrap();
    store.delete_thought(b.id).unwrap();
    store.mark_actioned(a.id).unwrap();
    let saved = store.create_saved_search("n", "#z").unwrap();
    store.create_saved_search("m", "#x").unwrap();
    store.delete_saved_search(saved.id).unwrap();
    let tables = store.tables.clone();
    let other = reopen(Tables::new(), &mut store);
    assert_eq!(other.tables, tables);
    assert!(store.journal.is_empty());
    assert_eq!(other.tags_with_prefix("", 10).unwrap(), vec!["z"]);
}

#[test]
fn changes_in_either_order_leave_the_same_thoughts() {
    let id = Uuid::new_v4();
    let change = |text: &str, at: i64, deleted_at: Option<i64>| ThoughtChange {
        id,
        text: text.into(),
        created_at: 1,
        updated_at: at,
        settled_at: None,
        deleted_at,
        actioned_at: None,
    };
    let a = change("edited elsewhere", 10, None);
    let b = change("", 20, Some(20));
    let mut one = open_in_memory();
    one.apply_remote(&a).unwrap();
    one.apply_remote(&b).unwrap();
    let mut two = open_in_memory();
    two.apply_remote(&b).unwrap();
    assert!(!two.apply_remote(&a).unwrap());
    assert_eq!(one.tables.thoughts, two.tables.thoughts);
}

#[test]
fn a_tie_keeps_what_is_stored() {
    let id = Uuid::new_v4();
    let mut store = open_in_memory();
    store.create_at(id, "here", 10, None).unwrap();
    let change = ThoughtChange {
        id,
        text: "there".into(),
        created_at: 10,
        updated_at: 10,
        settled_at: None,
        deleted_at: None,
        actioned_at: None,
    };
    assert!(!store.apply_remote(&change).unwrap());
    assert_eq!(store.list_at(10).unwrap()[0].text, "here");
}

#[test]
fn one_round_of_sync_makes_two_stores_agree() {
    let mut server = open_in_memory();
    let mut client = open_in_memory();
    let shared = Uuid::new_v4();
    server.create_at(shared, "old", 1, None).unwrap();
    for change in server.changes_since(None, 100).unwrap() {
        client.apply_remote(&change).unwrap();
    }
    client.update_thought_at(shared, "newer #client", 5, None).unwrap();
    client.create_at(Uuid::new_v4(), "only client", 6, None).unwrap();
    let gone = Uuid::new_v4();
    server.create_at(gone, "only server", 7, None).unwrap();
    server.delete_thought_at(gone, 8).unwrap();

    for change in client.pending_changes(100).unwrap() {
        server.apply_remote(&change).unwrap();
    }
    for change in server.changes_since(None, 100).unwrap() {
        client.apply_remote(&change).unwrap();
    }
    assert_eq!(
        server.changes_since(None, 100).unwrap(),
        client.changes_since(None, 100).unwrap()
    );
    assert_eq!(client.changes_since(None, 100).unwrap().len(), 3);
    assert_eq!(server.tags_with_prefix("", 10).unwrap(), vec!["client"]);
}

#[test]
fn a_revived_thought_gets_its_tags_back() {
    let id = Uuid::new_v4();
    let mut store = open_in_memory();
    store.create_at(id, "has #tag", 1, None).unwrap();
    store.delete_thought_at(id, 2).unwrap();
    assert!(store.tables.links.is_empty());
    let change = ThoughtChange {
        id,
        text: "has #Tag again".into(),
        created_at: 1,
        updated_at: 3,
        settled_at: Some(2),
        deleted_at: None,
        actioned_at: None,
    };
    assert!(store.apply_remote(&change).unwrap());
    assert_eq!(store.tags_with_prefix("T", 10).unwrap(), vec!["Tag"]);
    assert!(store.get_thought(id, 3).unwrap().is_settled);
}

#[test]
fn a_migration_stops_at_an_unreadable_thought() {
    let mut store = open_in_memory();
    insert_row(&mut store, Uuid::new_v4().to_blob(), "a #one", 1, None);
    insert_row(&mut store, vec![9], "b #two", 2, None);
    let err = store.migrate(5).expect_err("unreadable");
    assert!(matches!(err, Error::CorruptRow { .. }));
    assert_eq!(store.tags_with_prefix("", 10).unwrap(), vec!["one"]);
}

#[test]
fn migration_steps_follow_the_version() {
    assert_eq!(
        migration_plan(0, false),
        vec![
            MigrationStep::CreateThoughts,
            MigrationStep::TrackEdits,
            MigrationStep::IndexText,
            MigrationStep::StoreVectors,
            MigrationStep::TrackSync,
            MigrationStep::MirrorTags,
            MigrationStep::TrackActions,
            MigrationStep::Stamp,
        ]
    );
    assert_eq!(
        migration_plan(5, true),
        vec![MigrationStep::MirrorTags, MigrationStep::Stamp]
    );
    assert_eq!(
        migration_plan(6, false),
        vec![MigrationStep::TrackActions, MigrationStep::Stamp]
    );
    assert_eq!(migration_plan(8, false), vec![MigrationStep::Stamp]);
}

#[test]
fn an_unreadable_saved_search_surfaces() {
    let mut store = open_in_memory();
    store.create_saved_search_at(Uuid::new_v4(), "n", "q", 5).unwrap();
    store.tables.saved[0].id = vec![1, 2];
    let err = store.list_saved_searches().expect_err("unreadable");
    assert_eq!(
        err.text(),
        "corrupt row in `thoughts`: id column had 2 bytes, expected 16"
    );
}

#[test]
fn saved_searches_come_oldest_first() {
    let mut store = open_in_memory();
    store.create_saved_search_at(Uuid::new_v4(), "late", "q", 9).unwrap();
    store.create_saved_search_at(Uuid::new_v4(), "early", "q", 3).unwrap();
    let names: Vec<String> = store
        .list_saved_searches()
        .unwrap()
        .into_iter()
        .map(|s| s.name)
        .collect();
    assert_eq!(names, vec!["early", "late"]);
}

#[test]
fn unmarking_undoes_a_mark() {
    let id = Uuid::new_v4();
    let mut marked = open_in_memory();
    marked.create_at(id, "call the harbour office", 1, None).unwrap();
    let thought = marked.set_actioned_at(id, Some(5), 5).unwrap();
    assert!(thought.is_actioned);
    assert!(marked.list_stale_at(0, 10, 100).unwrap().is_empty());
    let undone = marked.set_actioned_at(id, None, 5).unwrap();
    assert!(!undone.is_actioned);
    assert_eq!(undone.updated_at, 5);
    assert_eq!(marked.list_stale_at(0, 10, 100).unwrap().len(), 1);

    let mut unmarked = open_in_memory();
    unmarked.create_at(id, "call the harbour office", 1, None).unwrap();
    let thought = unmarked.set_actioned_at(id, None, 5).unwrap();
    assert_eq!(thought.text, undone.text);
    assert_eq!(thought.updated_at, undone.updated_at);
    assert_eq!(thought.is_actioned, undone.is_actioned);
}
