use buoy::codec::{decode_key, encode_key, KeyFault};
use buoy::decimal::{parse_i64, push_decimal};
use buoy::embed::{blob_to_vector, place_of, vector_to_blob};
use buoy::error::Error;
use buoy::fusion::{fuse, score_at, sum_scores};
use buoy::ident::Uuid;
use buoy::like::{escape_like, like_chars};
use buoy::matching::is_blank;
use buoy::search::{MatchRange, ThoughtMatch};
use buoy::thought::Thought;

// ── scores ──────────────────────────────────────────────────────────────────

/// A score as a floating-point number.
fn as_float(score: u64) -> f64 {
    score as f64 / 1_099_511_627_776.0
}

fn float_score(place: usize) -> f32 {
    let rank_f = f32::from(u16::try_from(place).unwrap_or(u16::MAX));
    1.0 / (60.0 + rank_f + 1.0)
}

#[test]
fn scores_are_those_of_single_precision() {
    for place in 0..70_000 {
        assert_eq!(
            as_float(score_at(place)),
            f64::from(float_score(place)),
            "place {place}"
        );
    }
    assert_eq!(score_at(usize::MAX), score_at(65_535));
    // 1 / 61, rounded to 24 bits.
    assert_eq!(score_at(0), 18_024_779_776);
}

#[test]
fn sums_of_scores_are_those_of_single_precision() {
    for i in 0..400 {
        for j in 0..400 {
            let sum = sum_scores(score_at(i), score_at(j));
            let float = float_score(i) + float_score(j);
            assert_eq!(as_float(sum), f64::from(float), "places {i} and {j}");
        }
    }
    // Many sums, one after the other.
    let mut sum = score_at(0);
    let mut float = float_score(0);
    for i in 0..100_000 {
        sum = sum_scores(sum, score_at(i % 777));
        float += float_score(i % 777);
        assert_eq!(as_float(sum), f64::from(float), "step {i}");
    }
}

#[test]
fn a_result_of_both_rankings_scores_more() {
    for i in 0..200 {
        for j in 0..200 {
            let sum = sum_scores(score_at(i), score_at(j));
            assert!(sum > score_at(i) && sum > score_at(j));
        }
    }
}

fn result(n: u8, created_at: i64, ranges: Vec<MatchRange>) -> ThoughtMatch {
    ThoughtMatch {
        thought: Thought {
            id: Uuid { bytes: [n; 16] },
            text: format!("thought {n}"),
            created_at,
            updated_at: created_at,
            is_settled: false,
            is_actioned: false,
        },
        snippet: format!("snippet {n}"),
        ranges,
    }
}

#[test]
fn fused_results_are_ordered_by_score_and_then_newest_first() {
    let range = vec![MatchRange { start: 0, len: 1 }];
    let keyword = vec![result(1, 10, range.clone()), result(2, 10, range.clone())];
    let semantic = vec![result(3, 20, Vec::new()), result(2, 10, Vec::new())];
    let fused = fuse(keyword, semantic, 10);
    let order: Vec<u8> = fused.iter().map(|m| m.thought.id.bytes[0]).collect();
    // The one in both rankings leads; the two best of one each tie, and the
    // newer comes first.
    assert_eq!(order, vec![2, 3, 1]);
    assert_eq!(fused[0].ranges, range);

    let highlighted = fuse(
        vec![result(1, 1, Vec::new())],
        vec![result(1, 1, range.clone())],
        10,
    );
    assert_eq!(highlighted.len(), 1);
    assert_eq!(highlighted[0].ranges, range);
    assert_eq!(fuse(vec![result(1, 1, range)], Vec::new(), 0).len(), 0);
}

#[test]
fn the_best_are_kept_and_nothing_better_is_left_out() {
    let keyword: Vec<ThoughtMatch> = (0..6)
        .map(|n| result(n, i64::from(n), vec![MatchRange { start: 0, len: 1 }]))
        .collect();
    let semantic: Vec<ThoughtMatch> = (3..9)
        .rev()
        .map(|n| result(n, i64::from(n), Vec::new()))
        .collect();
    let score = |n: u8| {
        let words = keyword.iter().position(|m| m.thought.id.bytes[0] == n);
        let meaning = semantic.iter().position(|m| m.thought.id.bytes[0] == n);
        match (words, meaning) {
            (Some(i), Some(j)) => sum_scores(score_at(i), score_at(j)),
            (Some(i), None) => score_at(i),
            (None, Some(j)) => score_at(j),
            (None, None) => 0,
        }
    };
    let everything = fuse(keyword.clone(), semantic.clone(), 100);
    assert_eq!(everything.len(), 9);
    for top_k in 0..12 {
        let out = fuse(keyword.clone(), semantic.clone(), top_k);
        assert_eq!(out, everything[..top_k.min(9)].to_vec());
    }
    for pair in everything.windows(2) {
        let (a, b) = (&pair[0].thought, &pair[1].thought);
        let (x, y) = (score(a.id.bytes[0]), score(b.id.bytes[0]));
        assert!(y < x || (y == x && b.created_at <= a.created_at));
    }
    for m in &everything {
        if m.thought.id.bytes[0] < 6 {
            assert_eq!(m.ranges.len(), 1);
        }
    }
}

#[test]
fn one_ranking_alone_stays_as_it_is() {
    // The later ones are newer, and still come later.
    let keyword: Vec<ThoughtMatch> = (0..200)
        .map(|n| result(n, i64::from(n), Vec::new()))
        .collect();
    assert_eq!(fuse(keyword.clone(), Vec::new(), 200), keyword);
    for place in [0, 1, 2, 3, 67, 68, 1000, 16000, 65475, 65534] {
        assert!(score_at(place) > score_at(place + 1));
    }
    assert_eq!(score_at(65535), score_at(65536));
}

// ── characters ──────────────────────────────────────────────────────────────

#[test]
fn whitespace_is_what_unicode_lists() {
    for c in '\u{0}'..=char::MAX {
        let listed = matches!(
            c,
            '\u{9}'..='\u{d}'
                | ' '
                | '\u{85}'
                | '\u{a0}'
                | '\u{1680}'
                | '\u{2000}'..='\u{200a}'
                | '\u{2028}'
                | '\u{2029}'
                | '\u{202f}'
                | '\u{205f}'
                | '\u{3000}'
        );
        assert_eq!(c.is_whitespace(), listed);
        assert!(!listed || !c.is_alphanumeric());
        if c.is_ascii() {
            assert_eq!(c.is_alphanumeric(), c.is_ascii_alphanumeric());
            assert_eq!(
                c.to_string().to_lowercase(),
                c.to_ascii_lowercase().to_string()
            );
        }
        assert_eq!(is_blank(&c.to_string()), listed);
    }
}

// ── vectors ─────────────────────────────────────────────────────────────────

#[test]
fn vectors_are_stored_with_the_low_byte_first() {
    let vector = vec![1.0_f32.to_bits(), (-0.25_f32).to_bits(), 0x0403_0201];
    let blob = vector_to_blob(&vector);
    let mut expected = Vec::new();
    expected.extend_from_slice(&1.0_f32.to_le_bytes());
    expected.extend_from_slice(&(-0.25_f32).to_le_bytes());
    expected.extend_from_slice(&[1, 2, 3, 4]);
    assert_eq!(blob, expected);
    assert_eq!(blob_to_vector(&blob).unwrap(), vector);
    assert!(blob_to_vector(&Vec::new()).unwrap().is_empty());
    assert!(matches!(
        blob_to_vector(&vec![1, 2, 3]),
        Err(Error::CorruptRow {
            table: "embeddings",
            ..
        })
    ));
}

#[test]
fn places_follow_the_total_order_of_floats() {
    let numbers = [
        -f32::NAN,
        f32::NEG_INFINITY,
        -1.5,
        -1.0e-45,
        -0.0,
        0.0,
        1.0e-45,
        0.25,
        1.0,
        f32::INFINITY,
        f32::NAN,
    ];
    for a in numbers {
        for b in numbers {
            assert_eq!(
                place_of(a.to_bits()) < place_of(b.to_bits()),
                a.total_cmp(&b).is_lt()
            );
        }
    }
}

// ── texts ───────────────────────────────────────────────────────────────────

#[test]
fn numbers_are_read_as_the_standard_library_does() {
    for text in [
        "0",
        "-0",
        "+7",
        "007",
        "-12",
        "9223372036854775807",
        "-9223372036854775808",
        "9223372036854775808",
        "-9223372036854775809",
        "99999999999999999999999",
        "",
        "-",
        "+",
        " 1",
        "1 ",
        "1_000",
        "0x1",
        "\u{661}",
        "--1",
    ] {
        assert_eq!(parse_i64(text), text.parse::<i64>().ok(), "{text:?}");
    }
}

#[test]
fn numbers_are_written_as_the_standard_library_does() {
    for n in [0, 1, -1, 9, 10, -10, 1_234_567, i64::MAX, i64::MIN] {
        let mut out = String::from("n=");
        push_decimal(&mut out, n);
        assert_eq!(out, format!("n={n}"));
    }
}

#[test]
fn identifiers_are_read_and_written() {
    let id = Uuid::parse_str("67e55044-10b1-426f-9247-bb680e5fe0c8").unwrap();
    assert_eq!(id.text(), "67e55044-10b1-426f-9247-bb680e5fe0c8");
    for text in [
        "67E5504410B1426F9247BB680E5FE0C8",
        "{67e55044-10b1-426f-9247-bb680e5fe0c8}",
        "urn:uuid:67e55044-10b1-426f-9247-bb680e5fe0c8",
    ] {
        assert_eq!(Uuid::parse_str(text).unwrap(), id);
    }
    for text in [
        "",
        "67e55044",
        "67e55044-10b1-426f-9247-bb680e5fe0cg",
        "67e5504410b1-426f-9247-bb680e5fe0c8",
        "(67e55044-10b1-426f-9247-bb680e5fe0c8)",
    ] {
        let complaint = Uuid::parse_str(text).expect_err("no identifier");
        assert_eq!(
            complaint,
            uuid::Uuid::parse_str(text).unwrap_err().to_string()
        );
    }
    assert_eq!(Uuid::from_blob(&id.to_blob()), Some(id));
    assert_eq!(Uuid::from_blob(&[1, 2, 3]), None);
}

#[test]
fn fresh_identifiers_are_random_ones() {
    let a = Uuid::new_v4();
    let b = Uuid::new_v4();
    assert_ne!(a, b);
    assert_eq!(a.bytes[6] / 16, 4);
    assert_eq!(a.bytes[8] / 64, 2);
}

#[test]
fn keys_are_read_back() {
    let id = Uuid::new_v4();
    for time in [0, -5, 1_700_000_000_000, i64::MIN, i64::MAX] {
        let text = encode_key(time, &id);
        assert_eq!(text, format!("{}_{}", time, id.text()));
        assert_eq!(decode_key(&text), Ok((time, id)));
    }
    assert_eq!(decode_key("nonsense"), Err(KeyFault::Shape));
    assert_eq!(decode_key("x_y"), Err(KeyFault::Time));
    assert_eq!(decode_key("12_y"), Err(KeyFault::Id));
}

#[test]
fn patterns_escape_what_is_special() {
    assert_eq!(escape_like("a_b%c\\d"), "a\\_b\\%c\\\\d");
    assert!(like_chars("a\\_%", "A_tail"));
    assert!(!like_chars("a\\_%", "axtail"));
    assert!(like_chars("a_%", "axtail"));
    assert!(like_chars("%", ""));
    assert!(!like_chars("_", ""));
    assert!(!like_chars("a\\", "a\\"));
    assert!(like_chars("%b%d", "aBcD"));
}

#[test]
fn errors_have_texts() {
    let id = Uuid::parse_str("67e55044-10b1-426f-9247-bb680e5fe0c8").unwrap();
    assert_eq!(
        Error::NotFound { id }.text(),
        "no thought with id 67e55044-10b1-426f-9247-bb680e5fe0c8"
    );
    assert_eq!(Error::NoEmbedder.text(), "no embedder is attached");
    assert_eq!(Error::Clock.text(), "system clock is out of range");
    assert_eq!(
        Error::ModelLoad { detail: "x".into() }.text(),
        "could not load the embedding model: x"
    );
    assert_eq!(
        Error::OpenDatabase { path: "p".into(), message: "m".into() }.text(),
        "could not open database at p: m"
    );
}
