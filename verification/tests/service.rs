use buoy::api::{decode_cursor, decode_sync_cursor, AppError, ThoughtChangeDto};
use buoy::embed::TextEmbedder;
use buoy::error::{Error, Result};
use buoy::ffi;
use buoy::ffi_sync::{PushedChange, SyncCursor};
use buoy::ident::Uuid;
use buoy::matching::IndexHit;
use buoy::service::{
    create_saved_search, create_thought, delete_saved_search, delete_thought, healthz, history,
    list_saved_searches, list_tags, list_thoughts, mark_actioned, related_to_draft,
    related_to_thought, search, stale_thoughts, sync, thoughts_by_tag, unmark_actioned,
    update_thought, LimitQuery, ListQuery, RelatedDraft, SavedSearchBody, SearchQuery, StaleQuery,
    SyncRequest, TagsQuery, TextBody, TopKQuery,
};
use buoy::store::ThoughtStore;

/// Every text has the same vector.
struct OneVector;

impl TextEmbedder for OneVector {
    fn embed(&self, _text: &str) -> Result<Vec<u32>> {
        Ok(vec![1.0_f32.to_bits()])
    }

    fn dot(a: &Vec<u32>, b: &Vec<u32>) -> u32 {
        (f32::from_bits(a[0]) * f32::from_bits(b[0])).to_bits()
    }
}

type Store = ThoughtStore<OneVector>;

fn body(text: &str) -> TextBody {
    TextBody { text: text.into() }
}

#[test]
fn thoughts_are_captured_edited_and_deleted() {
    let mut store = Store::open_in_memory();
    let (status, dto) = create_thought(&mut store, &body("hello")).unwrap();
    assert_eq!(status, 201);
    assert_eq!(dto.text, "hello");
    assert!(!dto.is_actioned);
    let edited = update_thought(&mut store, &dto.id, &body("bye")).unwrap();
    assert_eq!(edited.text, "bye");
    assert_eq!(edited.id, dto.id);
    assert!(history(&store, &dto.id).unwrap().is_empty());
    assert!(mark_actioned(&mut store, &dto.id).unwrap().is_actioned);
    assert!(!unmark_actioned(&mut store, &dto.id).unwrap().is_actioned);
    assert_eq!(delete_thought(&mut store, &dto.id).unwrap(), 204);
    let gone = delete_thought(&mut store, &dto.id).expect_err("gone");
    assert_eq!(gone.status(), 404);
    assert_eq!(gone.message(), format!("no thought with id {}", dto.id));
    assert_eq!(history(&store, &dto.id).expect_err("gone").status(), 404);
    let bad = update_thought(&mut store, "nope", &body("x")).expect_err("bad");
    assert_eq!(bad, AppError::BadRequest("invalid thought id".into()));
    assert_eq!(bad.status(), 400);
    assert_eq!(healthz(), "ok");
}

#[test]
fn a_settled_edit_is_in_the_history() {
    let mut store = Store::open_in_memory();
    let (_, dto) = create_thought(&mut store, &body("v1")).unwrap();
    store.settle_all_live().unwrap();
    update_thought(&mut store, &dto.id, &body("v2")).unwrap();
    let entries = history(&store, &dto.id).unwrap();
    assert_eq!(entries.len(), 1);
    assert_eq!(entries[0].text, "v1");
}

#[test]
fn pages_are_walked_by_their_cursors() {
    let mut store = Store::open_in_memory();
    for i in 0..5 {
        store
            .create_at(Uuid::new_v4(), &format!("t{i}"), i, None)
            .unwrap();
    }
    let mut before = None;
    let mut texts = Vec::new();
    loop {
        let page = list_thoughts(&store, &ListQuery { before, limit: Some(2) }).unwrap();
        texts.extend(page.thoughts.into_iter().map(|t| t.text));
        before = page.next_cursor;
        if before.is_none() {
            break;
        }
    }
    assert_eq!(texts, vec!["t4", "t3", "t2", "t1", "t0"]);
    let page = list_thoughts(&store, &ListQuery { before: None, limit: None }).unwrap();
    assert_eq!(page.thoughts.len(), 5);
}

#[test]
fn malformed_cursors_are_refused() {
    let complaint = |s: &str| decode_cursor(s).expect_err("malformed").message().to_owned();
    assert_eq!(complaint("x"), "malformed cursor");
    assert_eq!(complaint("x_y"), "malformed cursor timestamp");
    assert_eq!(complaint("1_y"), "malformed cursor id");
    let complaint = |s: &str| {
        decode_sync_cursor(s)
            .expect_err("malformed")
            .message()
            .to_owned()
    };
    assert_eq!(complaint("x"), "malformed sync cursor");
    assert_eq!(complaint("x_y"), "malformed sync cursor timestamp");
    assert_eq!(complaint("1_y"), "malformed sync cursor id");
    let store = Store::open_in_memory();
    let err = list_thoughts(
        &store,
        &ListQuery { before: Some("x".into()), limit: None },
    )
    .expect_err("malformed");
    assert_eq!(err.status(), 400);
}

#[test]
fn searches_and_relations_are_answered() {
    let mut store = Store::open_in_memory();
    store.set_embedder(OneVector);
    let (_, a) = create_thought(&mut store, &body("one")).unwrap();
    let (_, b) = create_thought(&mut store, &body("two")).unwrap();
    let hits = vec![IndexHit {
        id: Uuid::parse_str(&b.id).unwrap().to_blob(),
        marked_snippet: "\u{2}two\u{3}".into(),
    }];
    let found = search(&store, &SearchQuery { q: "two".into(), limit: None }, &hits).unwrap();
    assert_eq!(found.len(), 2);
    assert_eq!(found[0].thought.id, b.id);
    assert_eq!(found[0].snippet, "two");
    assert_eq!((found[0].ranges[0].start, found[0].ranges[0].len), (0, 3));

    let related = related_to_thought(&store, &a.id, &TopKQuery { top_k: None }).unwrap();
    assert_eq!(related.len(), 1);
    assert_eq!(related[0].thought.id, b.id);
    let draft = |exclude: Option<String>| RelatedDraft {
        draft: "a draft".into(),
        exclude,
        top_k: Some(9),
    };
    assert_eq!(related_to_draft(&store, &draft(None)).unwrap().len(), 2);
    assert_eq!(
        related_to_draft(&store, &draft(Some(a.id))).unwrap().len(),
        1
    );
    let err = related_to_draft(&store, &draft(Some("?".into()))).expect_err("bad");
    assert_eq!(err.status(), 400);
}

#[test]
fn tags_and_saved_searches_are_answered() {
    let mut store = Store::open_in_memory();
    create_thought(&mut store, &body("a #work")).unwrap();
    create_thought(&mut store, &body("b #Work #home")).unwrap();
    let all = list_tags(&store, &TagsQuery { prefix: None, limit: None }).unwrap();
    assert_eq!(all, vec!["work", "home"]);
    let some = list_tags(
        &store,
        &TagsQuery { prefix: Some("H".into()), limit: Some(1) },
    )
    .unwrap();
    assert_eq!(some, vec!["home"]);
    let tagged = thoughts_by_tag(&store, "WORK", &LimitQuery { limit: None }).unwrap();
    assert_eq!(tagged.len(), 2);

    let saved = SavedSearchBody { name: "Work".into(), query: "#work".into() };
    let (status, dto) = create_saved_search(&mut store, &saved).unwrap();
    assert_eq!(status, 201);
    assert_eq!(list_saved_searches(&store).unwrap(), vec![dto.clone()]);
    assert_eq!(delete_saved_search(&mut store, &dto.id).unwrap(), 204);
    assert_eq!(delete_saved_search(&mut store, &dto.id).unwrap(), 204);
    assert!(list_saved_searches(&store).unwrap().is_empty());
    assert!(delete_saved_search(&mut store, "?").is_err());
}

#[test]
fn stale_thoughts_default_to_a_week() {
    let mut store = Store::open_in_memory();
    store.create_at(Uuid::new_v4(), "old", 1, None).unwrap();
    create_thought(&mut store, &body("new")).unwrap();
    let none = StaleQuery { older_than_ms: None, limit: None };
    let stale = stale_thoughts(&store, &none).unwrap();
    assert_eq!(stale.len(), 1);
    assert_eq!(stale[0].text, "old");
    let every = StaleQuery { older_than_ms: Some(-10_000), limit: Some(1) };
    assert_eq!(stale_thoughts(&store, &every).unwrap().len(), 1);
}

fn change(id: &str, text: &str, updated_at: i64) -> ThoughtChangeDto {
    ThoughtChangeDto {
        id: id.into(),
        text: text.into(),
        created_at: 1,
        updated_at,
        settled_at: None,
        deleted_at: None,
        actioned_at: Some(3),
    }
}

#[test]
fn a_sync_pushes_and_pulls() {
    let mut store = Store::open_in_memory();
    let id = Uuid::new_v4();
    store.create_at(id, "mine", 10, None).unwrap();
    let other = Uuid::new_v4().text();
    let reply = sync(
        &mut store,
        &SyncRequest {
            since: None,
            changes: vec![change(&other, "theirs #x", 20), change(&id.text(), "late", 5)],
        },
    )
    .unwrap();
    let texts: Vec<&str> = reply.changes.iter().map(|c| c.text.as_str()).collect();
    assert_eq!(texts, vec!["mine", "theirs #x"]);
    assert_eq!(reply.changes[1], change(&other, "theirs #x", 20));
    assert_eq!(reply.cursor, Some(format!("20_{other}")));

    // From there on nothing is new, and the cursor stays.
    let again = sync(
        &mut store,
        &SyncRequest { since: reply.cursor.clone(), changes: Vec::new() },
    )
    .unwrap();
    assert!(again.changes.is_empty());
    assert_eq!(again.cursor, reply.cursor);

    let before = store.tables.clone();
    let bad = sync(
        &mut store,
        &SyncRequest {
            since: None,
            changes: vec![change(&Uuid::new_v4().text(), "ok", 1), change("?", "bad", 1)],
        },
    )
    .expect_err("bad id");
    assert_eq!(bad.message(), "invalid thought id");
    assert_eq!(store.tables, before);
    let bad = sync(
        &mut store,
        &SyncRequest { since: Some("?".into()), changes: Vec::new() },
    )
    .expect_err("bad cursor");
    assert_eq!(bad.message(), "malformed sync cursor");
}

#[test]
fn errors_of_the_store_become_replies() {
    let e = AppError::of(&Error::NoEmbedder);
    assert_eq!(e, AppError::internal("no embedder is attached"));
    assert_eq!(e.status(), 500);
    assert_eq!(AppError::bad_request("x").status(), 400);
}

// ── native apps ─────────────────────────────────────────────────────────────

#[test]
fn the_apps_see_text_and_fixed_widths() {
    assert_eq!(ffi::default_page_size(), 64);
    let mut store = ffi::ThoughtStore::new(Store::open_in_memory());
    assert!(matches!(
        store.embed_missing(3),
        Err(ffi::FfiError::Embedding { .. })
    ));
    let t = store.create("hello").unwrap();
    let u = store.update(&t.id, "hello again").unwrap();
    assert_eq!(u.id, t.id);
    assert_eq!(store.list().unwrap(), vec![u]);
    store.settle_all_live().unwrap();
    assert!(store.list().unwrap()[0].is_settled);
    store.attach_embedder(Ok(OneVector)).unwrap();
    assert_eq!(store.embed_missing(3).unwrap(), 1);
    let other = store.create("other").unwrap();
    let related = store.find_related_to(&t.id, 5).unwrap();
    assert_eq!(related.len(), 1);
    assert_eq!(related[0].thought.id, other.id);
    let found = store.find_related("draft", 5, Some(t.id.clone())).unwrap();
    assert_eq!(found.len(), 1);
    assert_eq!(store.search_combined("x", 5, &Vec::new()).unwrap().len(), 2);
    assert!(store.mark_actioned(&t.id).unwrap().is_actioned);
    assert!(!store.unmark_actioned(&t.id).unwrap().is_actioned);
    assert_eq!(store.list_stale(-10_000, 9).unwrap().len(), 2);
    store.delete(&t.id).unwrap();
    assert_eq!(store.delete(&t.id), Err(ffi::FfiError::NotFound));
    assert_eq!(ffi::FfiError::NotFound.text(), "not found");
}

#[test]
fn the_apps_walk_pages() {
    let mut inner = Store::open_in_memory();
    for i in 0..3 {
        inner
            .create_at(Uuid::new_v4(), &format!("t{i}"), 7, None)
            .unwrap();
    }
    let store = ffi::ThoughtStore::new(inner);
    let first = store.list_paginated(None, 2).unwrap();
    let second = store.list_paginated(first.next_cursor, 2).unwrap();
    assert_eq!(first.thoughts.len(), 2);
    assert_eq!(second.thoughts.len(), 1);
    assert!(second.next_cursor.is_none());
    let bad = ffi::Cursor { created_at: 7, id: "?".into() };
    let err = store.list_paginated(Some(bad), 2).expect_err("no id");
    assert_eq!(
        err.text(),
        format!("invalid id: {}", uuid::Uuid::parse_str("?").unwrap_err())
    );
}

#[test]
fn a_model_that_cannot_be_loaded_is_an_embedding_error() {
    let mut store = ffi::ThoughtStore::new(Store::open_in_memory());
    let err = store
        .attach_embedder(Err(Error::ModelLoad { detail: "missing".into() }))
        .expect_err("missing");
    assert_eq!(
        err.text(),
        "embedding error: could not load the embedding model: missing"
    );
    assert_eq!(
        ffi::FfiError::of(&Error::Clock).text(),
        "storage error: system clock is out of range"
    );
}

#[test]
fn the_apps_filter_by_tag_and_pin_searches() {
    let mut store = ffi::ThoughtStore::new(Store::open_in_memory());
    let t = store.create("ship it #Idea #soon").unwrap();
    store.create("another #idea").unwrap();
    assert_eq!(store.tags_with_prefix("", 10).unwrap(), vec!["Idea", "soon"]);
    assert_eq!(store.tags_with_prefix("S", 10).unwrap(), vec!["soon"]);
    assert_eq!(store.tags_with_prefix("", 1).unwrap(), vec!["Idea"]);
    assert_eq!(store.thoughts_with_tag("SOON", 10).unwrap(), vec![t]);
    assert_eq!(store.thoughts_with_tag("idea", 1).unwrap().len(), 1);

    let saved = store.create_saved_search("ideas", "#idea").unwrap();
    assert_eq!((saved.name.as_str(), saved.query.as_str()), ("ideas", "#idea"));
    assert_eq!(store.list_saved_searches().unwrap(), vec![saved.clone()]);
    assert!(matches!(
        store.delete_saved_search("?"),
        Err(ffi::FfiError::InvalidId { .. })
    ));
    assert_eq!(store.list_saved_searches().unwrap().len(), 1);
    store.delete_saved_search(&saved.id).unwrap();
    store.delete_saved_search(&saved.id).unwrap();
    assert!(store.list_saved_searches().unwrap().is_empty());
}

#[test]
fn the_apps_synchronise() {
    let mut phone = ffi::ThoughtStore::new(Store::open_in_memory());
    let mut server = ffi::ThoughtStore::new(Store::open_in_memory());
    let t = phone.create("from the phone #x").unwrap();
    let gone = phone.create("gone").unwrap();
    phone.delete(&gone.id).unwrap();

    let pending = phone.pending_changes(10).unwrap();
    assert_eq!(pending.len(), 2);
    assert_eq!(phone.pending_changes(1).unwrap(), pending[..1].to_vec());
    for change in &pending {
        assert!(server.apply_remote(change).unwrap());
        assert!(!server.apply_remote(change).unwrap());
    }
    assert_eq!(server.list().unwrap()[0].id, t.id);
    assert_eq!(server.list().unwrap().len(), 1);

    let mut pushed: Vec<PushedChange> = pending
        .iter()
        .map(|c| PushedChange {
            id: c.id.clone(),
            updated_at: c.updated_at,
        })
        .collect();
    pushed.push(PushedChange {
        id: "?".into(),
        updated_at: 0,
    });
    assert!(matches!(
        phone.mark_synced(&pushed),
        Err(ffi::FfiError::InvalidId { .. })
    ));
    assert_eq!(phone.pending_changes(10).unwrap().len(), 2);
    pushed.pop();
    pushed[0].updated_at -= 1;
    phone.mark_synced(&pushed).unwrap();
    assert_eq!(phone.pending_changes(10).unwrap(), pending[..1].to_vec());

    let feed = server.changes_since(None, 10).unwrap();
    assert_eq!(feed, pending);
    let rest = server
        .changes_since(Some(SyncCursor::after(&feed[0])), 10)
        .unwrap();
    assert_eq!(rest, feed[1..].to_vec());
    let bad = SyncCursor {
        updated_at: 0,
        id: "?".into(),
    };
    assert!(matches!(
        server.changes_since(Some(bad), 10),
        Err(ffi::FfiError::InvalidId { .. })
    ));
    let mut nameless = feed[0].clone();
    nameless.id = "?".into();
    assert!(matches!(
        server.apply_remote(&nameless),
        Err(ffi::FfiError::InvalidId { .. })
    ));
}
