use buoy::tags::parse_tags;

#[test]
fn extracts_simple_tags() {
    assert_eq!(parse_tags("ship the #idea today #soon"), vec!["idea", "soon"]);
}

#[test]
fn tag_at_start_of_text() {
    assert_eq!(parse_tags("#todo buy milk"), vec!["todo"]);
}

#[test]
fn no_tag_mid_word() {
    // A `#` not on a word boundary is not a tag (URLs, `a#b`).
    assert!(parse_tags("see issue gh#42 or foo#bar").is_empty());
}

#[test]
fn double_hash_is_not_a_tag() {
    assert!(parse_tags("## heading").is_empty());
    assert!(parse_tags("##notag").is_empty());
}

#[test]
fn bare_hash_and_lead_hyphen_rejected() {
    assert!(parse_tags("a # b").is_empty());
    assert!(parse_tags("#- #-foo").is_empty());
}

#[test]
fn allows_hyphen_underscore_digits_unicode() {
    assert_eq!(
        parse_tags("#my-tag #snake_case #2026 #思考"),
        vec!["my-tag", "snake_case", "2026", "思考"],
    );
}

#[test]
fn trailing_hyphen_trimmed() {
    assert_eq!(parse_tags("#tag- end"), vec!["tag"]);
}

#[test]
fn dedupes_case_insensitively_keeping_first_casing() {
    assert_eq!(parse_tags("#Idea and again #idea and #IDEA"), vec!["Idea"]);
}

#[test]
fn punctuation_terminates_a_tag() {
    assert_eq!(parse_tags("done (#work), next #home."), vec!["work", "home"]);
}

#[test]
fn a_tag_stops_at_a_second_hash() {
    assert_eq!(parse_tags("#one#two #three"), vec!["one", "three"]);
}

#[test]
fn an_underscore_or_letter_before_the_hash_blocks_it() {
    assert!(parse_tags("_#a b#c").is_empty());
    assert_eq!(parse_tags("-#a (#b)"), vec!["a", "b"]);
}

#[test]
fn tags_fold_case_beyond_ascii() {
    assert_eq!(parse_tags("#\u{c9}t\u{e9} #\u{e9}T\u{c9}"), vec!["\u{c9}t\u{e9}"]);
}

#[test]
fn text_without_tags_has_none() {
    assert!(parse_tags("").is_empty());
    assert!(parse_tags("nothing here").is_empty());
    assert!(parse_tags("ends with #").is_empty());
}

#[test]
fn texts_put_together_have_the_tags_of_both() {
    let texts = ["", "#a", "#A #b-", "x#no #été", "##", "#", "#_1, (#c)"];
    for a in texts {
        for b in texts {
            let first = parse_tags(a);
            let mut expected = first.clone();
            for name in parse_tags(b) {
                if !first.iter().any(|m| m.to_lowercase() == name.to_lowercase()) {
                    expected.push(name);
                }
            }
            for w in [' ', '\t', '\n', '\u{a0}', '\u{3000}'] {
                assert_eq!(parse_tags(&format!("{a}{w}{b}")), expected);
            }
        }
    }
}

#[test]
fn tags_written_out_are_read_back() {
    for text in ["", "none", "#a", "(#B) #b #c-d- #été #_x #9", "##no #yes"] {
        let names = parse_tags(text);
        let hashed: Vec<String> = names.iter().map(|n| format!("#{n}")).collect();
        assert_eq!(parse_tags(&hashed.join(" ")), names);
    }
}
