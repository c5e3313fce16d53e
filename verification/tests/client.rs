use buoy::client::{
    data_dir, format_relative, on_key, pause_before_next_batch, timestamp_text, trim, Composer,
    Key, KeyAction, Stream,
};
use buoy::clock::{is_settled_now, now_unix_millis, timestamp};
use buoy::embed::TextEmbedder;
use buoy::error::{Error, Result};
use buoy::ident::Uuid;
use buoy::store::ThoughtStore;
use buoy::thought::Thought;

const SEC: i64 = 1_000;
const MIN: i64 = 60 * SEC;
const HOUR: i64 = 60 * MIN;
const DAY: i64 = 24 * HOUR;
const WEEK: i64 = 7 * DAY;

fn at(now_ms: i64, age_ms: i64) -> String {
    format_relative(now_ms - age_ms, now_ms)
}

#[test]
fn under_a_minute_is_just_now() {
    assert_eq!(at(1_000_000, 0), "just now");
    assert_eq!(at(1_000_000, 30 * SEC), "just now");
    assert_eq!(at(1_000_000, 59 * SEC), "just now");
}

#[test]
fn minutes_hours_days_weeks_months_years() {
    assert_eq!(at(1_000_000_000, MIN), "1 minute ago");
    assert_eq!(at(1_000_000_000, 5 * MIN), "5 minutes ago");
    assert_eq!(at(1_000_000_000, HOUR), "1 hour ago");
    assert_eq!(at(1_000_000_000, 3 * HOUR), "3 hours ago");
    assert_eq!(at(1_000_000_000, DAY), "1 day ago");
    assert_eq!(at(1_000_000_000, 3 * DAY), "3 days ago");
    assert_eq!(at(1_000_000_000, WEEK), "1 week ago");
    assert_eq!(at(1_000_000_000, 2 * WEEK), "2 weeks ago");
    assert_eq!(at(1_000_000_000, 45 * DAY), "1 month ago");
    assert_eq!(at(10_000_000_000, 400 * DAY), "1 year ago");
}

#[test]
fn future_timestamps_render_as_just_now() {
    assert_eq!(at(1_000_000, -(5 * MIN)), "just now");
}

#[test]
fn times_far_apart_do_not_overflow() {
    assert_eq!(format_relative(i64::MAX, i64::MIN), "just now");
    assert_eq!(
        format_relative(i64::MIN, i64::MAX),
        "584942417 years ago"
    );
    assert!(is_settled_now(i64::MIN, None, i64::MAX));
    assert!(!is_settled_now(i64::MAX, None, i64::MIN));
    assert!(is_settled_now(i64::MAX, Some(1), 0));
}

#[test]
fn timestamps_must_fit() {
    assert_eq!(timestamp(Some(5)).unwrap(), 5);
    assert!(matches!(timestamp(None), Err(Error::Clock)));
    assert!(matches!(timestamp(Some(1 << 63)), Err(Error::Clock)));
    assert!(now_unix_millis().unwrap() > 1_600_000_000_000);
}

fn thought(is_settled: bool) -> Thought {
    Thought {
        id: Uuid::new_v4(),
        text: "x".into(),
        created_at: 0,
        updated_at: 0,
        is_settled,
        is_actioned: false,
    }
}

#[test]
fn live_thoughts_have_a_bullet() {
    assert_eq!(timestamp_text(&thought(false), 5 * MIN), "• 5 minutes ago");
    assert_eq!(timestamp_text(&thought(true), 5 * MIN), "5 minutes ago");
}

#[test]
fn drafts_are_trimmed_as_the_standard_library_does() {
    for text in ["", " ", "a", " a b \n", "\u{3000}x\u{a0}", "\t\r\n", "no"] {
        assert_eq!(trim(text), text.trim());
    }
}

/// An embedder that nothing here attaches.
struct NoModel;

impl TextEmbedder for NoModel {
    fn embed(&self, _text: &str) -> Result<Vec<u32>> {
        Err(Error::NoEmbedder)
    }

    fn dot(_a: &Vec<u32>, _b: &Vec<u32>) -> u32 {
        0
    }
}

type Store = ThoughtStore<NoModel>;

fn filled(n: i64) -> Store {
    let mut store = Store::open_in_memory();
    for i in 0..n {
        store
            .create_at(Uuid::new_v4(), &format!("t{i}"), i / 2, None)
            .unwrap();
    }
    store
}

#[test]
fn a_refresh_covers_what_was_loaded() {
    let store = filled(200);
    let all = store.list_at(0).unwrap();
    let mut stream = Stream::new();
    stream.refresh_at(&store, 0).unwrap();
    assert_eq!(stream.thoughts, all[..64]);
    stream.load_older_at(&store, 0).unwrap();
    assert_eq!(stream.thoughts, all[..128]);
    assert!(stream.next_cursor.is_some());
    stream.refresh_at(&store, 0).unwrap();
    assert_eq!(stream.thoughts, all[..128]);
    stream.load_older_at(&store, 0).unwrap();
    stream.load_older_at(&store, 0).unwrap();
    assert_eq!(stream.thoughts, all);
    assert!(stream.next_cursor.is_none());
    // Fully loaded: nothing more to do.
    stream.load_older(&store).unwrap();
    assert_eq!(stream.thoughts.len(), 200);
    stream.refresh(&store).unwrap();
    assert_eq!(stream.thoughts.len(), 200);
}

#[test]
fn a_failed_refresh_leaves_the_stream() {
    let mut store = filled(3);
    let mut stream = Stream::new();
    stream.refresh_at(&store, 0).unwrap();
    store.tables.thoughts[1].id = vec![1];
    assert!(stream.refresh_at(&store, 0).is_err());
    assert_eq!(stream.thoughts.len(), 3);
}

#[test]
fn a_draft_becomes_a_thought_or_an_edit() {
    let mut store = Store::open_in_memory();
    let mut composer = Composer::new();
    assert_eq!(composer.button_label(), "Save");
    assert!(!composer.save(&mut store, "  \n").unwrap());
    assert!(store.list().unwrap().is_empty());

    assert!(composer.save(&mut store, "  first  ").unwrap());
    let listed = store.list().unwrap();
    assert_eq!(listed[0].text, "first");

    composer.start_editing(listed[0].id);
    assert_eq!(composer.button_label(), "Update");
    assert!(composer.save(&mut store, "second").unwrap());
    assert!(composer.editing.is_none());
    let listed = store.list().unwrap();
    assert_eq!(listed.len(), 1);
    assert_eq!(listed[0].text, "second");

    // An edit that fails goes on.
    let gone = Uuid::new_v4();
    composer.start_editing(gone);
    assert!(composer.save(&mut store, "third").is_err());
    assert_eq!(composer.editing, Some(gone));
    composer.cancel_editing();
    assert!(composer.editing.is_none());
}

#[test]
fn keys_lead_to_actions() {
    assert_eq!(on_key(Key::Escape, false, true), KeyAction::CancelEdit);
    assert_eq!(on_key(Key::Escape, false, false), KeyAction::Proceed);
    assert_eq!(on_key(Key::Return, false, true), KeyAction::Save);
    assert_eq!(on_key(Key::Return, true, false), KeyAction::Proceed);
    assert_eq!(on_key(Key::KeypadEnter, false, false), KeyAction::Save);
    assert_eq!(on_key(Key::Other, false, true), KeyAction::Proceed);
}

#[test]
fn the_data_directory_follows_the_environment() {
    assert_eq!(
        data_dir(Some("/data"), Some("/home/me")).unwrap(),
        vec!["/data", "buoy"]
    );
    assert_eq!(
        data_dir(None, Some("/home/me")).unwrap(),
        vec!["/home/me", ".local", "share", "buoy"]
    );
    assert!(data_dir(None, None).is_none());
}

#[test]
fn embedding_idles_once_it_has_caught_up() {
    assert_eq!(pause_before_next_batch(&Ok(0)), 30);
    assert_eq!(pause_before_next_batch(&Ok(32)), 0);
    assert_eq!(pause_before_next_batch(&Err(Error::NoEmbedder)), 30);
}

#[test]
fn a_refresh_reports_the_first_thought_that_cannot_be_read() {
    let filled = |bad: usize, total: usize| {
        let mut store = Store::open_in_memory();
        for i in 0..total {
            let id = Uuid::new_v4();
            store.create_at(id, "x", -(i as i64), None).unwrap();
            if i == bad {
                store.tables.thoughts[i].id = vec![1, 2, 3];
            }
        }
        store
    };
    // A page is read with one thought more, which tells whether another follows.
    for bad in [0, 5, 63, 64] {
        let mut stream = Stream::new();
        let r = stream.refresh_at(&filled(bad, 200), 0);
        assert!(matches!(r, Err(Error::CorruptRow { .. })));
        assert!(stream.thoughts.is_empty() && stream.next_cursor.is_none());
    }
    let store = filled(65, 200);
    let mut stream = Stream::new();
    stream.refresh_at(&store, 0).unwrap();
    assert_eq!(stream.thoughts.len(), 64);
    // With more loaded, the same thought is reached.
    let mut longer = Stream::new();
    let whole = filled(1000, 200);
    longer.refresh_at(&whole, 0).unwrap();
    longer.load_older_at(&whole, 0).unwrap();
    assert_eq!(longer.thoughts.len(), 128);
    assert!(longer.refresh_at(&store, 0).is_err());
    assert_eq!(longer.thoughts.len(), 128);
}
