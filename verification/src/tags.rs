//! Inline `#tag` parsing.
//!
//! Tags live in the thought text itself, the single source of truth. The store
//! mirrors them into its tag tables for autocomplete and filtering; this is the
//! extractor that keeps the mirror in step.

use vstd::prelude::*;

use crate::rows::{kept, law_kept_all, law_kept_contains, seen};
use crate::text::{
    alphanumeric, chars_of, lowercased, string_of, unicode_alphanumeric, whitespace,
};

verus! {

/// No tag starts right behind such a character.
pub open spec fn blocks_tag(c: char) -> bool {
    alphanumeric(c) || c == '_' || c == '#'
}

/// A character that can stand in a tag.
pub open spec fn tag_char(c: char) -> bool {
    alphanumeric(c) || c == '_' || c == '-'
}

/// Where the run of tag characters that starts at `i` ends.
pub open spec fn run_end(s: Seq<char>, i: int) -> int
    decreases s.len() - i,
{
    if 0 <= i < s.len() && tag_char(s[i]) {
        run_end(s, i + 1)
    } else {
        i
    }
}

/// `s` without the hyphens at its end.
pub open spec fn trimmed(s: Seq<char>) -> Seq<char>
    decreases s.len(),
{
    if s.len() > 0 && s.last() == '-' {
        trimmed(s.drop_last())
    } else {
        s
    }
}

/// A name that a tag can have: it begins with a letter, a digit or `_`.
pub open spec fn tag_name(name: Seq<char>) -> bool {
    name.len() > 0 && (alphanumeric(name[0]) || name[0] == '_')
}

/// The tag that starts at position `i`: a `#` at the start of the text or behind
/// a character that is no letter, digit, `_` or `#`, then a run of tag
/// characters, less the hyphens at its end.
pub open spec fn tag_at(s: Seq<char>, i: int) -> Option<Seq<char>> {
    let name = trimmed(s.subrange(i + 1, run_end(s, i + 1)));
    if s[i] == '#' && (i == 0 || !blocks_tag(s[i - 1])) && tag_name(name) {
        Some(name)
    } else {
        None
    }
}

/// The tags that start before position `n`, in order.
pub open spec fn tags_before(s: Seq<char>, n: int) -> Seq<Seq<char>>
    decreases n,
{
    if n <= 0 {
        Seq::empty()
    } else {
        match tag_at(s, n - 1) {
            Some(name) => tags_before(s, n - 1).push(name),
            None => tags_before(s, n - 1),
        }
    }
}

/// `name` is among `names`, up to case.
pub open spec fn named(names: Seq<Seq<char>>, name: Seq<char>) -> bool {
    exists|i: int| 0 <= i < names.len() && lowercased(#[trigger] names[i]) == lowercased(name)
}

/// The first of the names that are the same up to case, in order.
pub open spec fn distinct(names: Seq<Seq<char>>) -> Seq<Seq<char>>
    decreases names.len(),
{
    if names.len() == 0 {
        Seq::empty()
    } else {
        let rest = distinct(names.drop_last());
        if named(rest, names.last()) {
            rest
        } else {
            rest.push(names.last())
        }
    }
}

/// The distinct tags of a text, each with the case and at the place of its
/// first occurrence.
pub open spec fn tag_list(s: Seq<char>) -> Seq<Seq<char>> {
    distinct(tags_before(s, s.len() as int))
}

proof fn lemma_run_end(s: Seq<char>, i: int, j: int)
    requires
        0 <= i <= j <= s.len(),
        forall|k: int| i <= k < j ==> tag_char(#[trigger] s[k]),
        j < s.len() ==> !tag_char(s[j]),
    ensures
        run_end(s, i) == j,
    decreases j - i,
{
    if i < j {
        assert(tag_char(s[i]));
        lemma_run_end(s, i + 1, j);
    }
}

proof fn lemma_no_hash_no_tag(s: Seq<char>, i: int, j: int)
    requires
        0 <= i <= j <= s.len(),
        forall|k: int| i <= k < j ==> #[trigger] s[k] != '#',
    ensures
        tags_before(s, j) == tags_before(s, i),
    decreases j - i,
{
    if i < j {
        assert(s[j - 1] != '#');
        lemma_no_hash_no_tag(s, i, j - 1);
    }
}

/// The end of `chars[from..to]` less its trailing hyphens.
fn trim_end(chars: &Vec<char>, from: usize, to: usize) -> (end: usize)
    requires
        from <= to <= chars@.len(),
    ensures
        from <= end <= to,
        chars@.subrange(from as int, end as int) == trimmed(
            chars@.subrange(from as int, to as int),
        ),
{
    let mut end: usize = to;
    while end > from && chars[end - 1] == '-'
        invariant
            from <= end <= to <= chars@.len(),
            trimmed(chars@.subrange(from as int, end as int)) == trimmed(
                chars@.subrange(from as int, to as int),
            ),
        decreases end,
    {
        assert(chars@.subrange(from as int, end as int).drop_last() =~= chars@.subrange(
            from as int,
            end - 1,
        ));
        end -= 1;
    }
    end
}

/// Whether `name` is among `names`, of which `lower` holds the lower case.
fn is_named(
    lower: &Vec<String>,
    name_lower: &String,
    Ghost(names): Ghost<Seq<Seq<char>>>,
    Ghost(name): Ghost<Seq<char>>,
) -> (r: bool)
    requires
        lower@.len() == names.len(),
        forall|i: int| 0 <= i < names.len() ==> #[trigger] lower@[i]@ == lowercased(names[i]),
        name_lower@ == lowercased(name),
    ensures
        r == named(names, name),
{
    let mut i: usize = 0;
    while i < lower.len()
        invariant
            i <= lower@.len(),
            lower@.len() == names.len(),
            forall|i: int| 0 <= i < names.len() ==> #[trigger] lower@[i]@ == lowercased(names[i]),
            name_lower@ == lowercased(name),
            forall|j: int| 0 <= j < i ==> lowercased(#[trigger] names[j]) != lowercased(name),
        decreases lower.len() - i,
    {
        if lower[i] == *name_lower {
            assert(lowercased(names[i as int]) == lowercased(name));
            return true;
        }
        assert(lower@[i as int]@ == lowercased(names[i as int]));
        i += 1;
    }
    false
}

/// Extracts the distinct `#tag` names from `text`.
///
/// A tag is a `#` on a word boundary -- at the start of the text or behind a
/// character that is no letter, digit, `_` or `#` -- then a run of letters,
/// digits, `_` or `-` that begins with a letter, a digit or `_`, with any
/// trailing `-` trimmed. Names are de-duplicated case-insensitively, keeping the
/// case and order of the first occurrence.
#[must_use]
pub fn parse_tags(text: &str) -> (tags: Vec<String>)
    ensures
        seen(tags@) == tag_list(text@),
{
    let chars = chars_of(text);
    let ghost s = text@;
    let mut tags: Vec<String> = Vec::new();
    let mut lower: Vec<String> = Vec::new();
    let mut i: usize = 0;
    assert(seen(tags@) =~= distinct(tags_before(s, 0)));
    while i < chars.len()
        invariant
            i <= chars@.len(),
            chars@ == s,
            seen(tags@) == distinct(tags_before(s, i as int)),
            lower@.len() == tags@.len(),
            forall|k: int| 0 <= k < tags@.len() ==> #[trigger] lower@[k]@ == lowercased(tags@[k]@),
        decreases chars.len() - i,
    {
        let at_boundary = i == 0 || !(chars[i - 1].is_alphanumeric() || chars[i - 1] == '_'
            || chars[i - 1] == '#');
        if chars[i] != '#' || !at_boundary {
            assert(tag_at(s, i as int) is None);
            i += 1;
        } else {
            let mut end: usize = i + 1;
            while end < chars.len() && (chars[end].is_alphanumeric() || chars[end] == '_'
                || chars[end] == '-')
                invariant
                    i < end <= chars@.len(),
                    chars@ == s,
                    forall|k: int| i < k < end ==> tag_char(#[trigger] s[k]),
                    forall|k: int| i < k < end ==> #[trigger] s[k] != '#',
                decreases chars.len() - end,
            {
                end += 1;
            }
            let stop = trim_end(&chars, i + 1, end);
            let ghost name = s.subrange(i + 1, stop as int);
            let ghost known = seen(tags@);
            proof {
                lemma_run_end(s, i + 1, end as int);
                lemma_no_hash_no_tag(s, i + 1, end as int);
                assert(name == trimmed(s.subrange(i + 1, run_end(s, i + 1))));
            }
            if i + 1 < stop && (chars[i + 1].is_alphanumeric() || chars[i + 1] == '_') {
                let tag = string_of(&chars, i + 1, stop);
                let tag_lower = tag.as_str().to_lowercase();
                assert(name[0] == s[i + 1]);
                assert(tag_at(s, i as int) == Some(name));
                proof {
                    let all = tags_before(s, i + 1);
                    assert(all.drop_last() =~= tags_before(s, i as int));
                    assert(all.last() == name);
                }
                if !is_named(&lower, &tag_lower, Ghost(known), Ghost(name)) {
                    let ghost tags_were = tags@;
                    tags.push(tag);
                    lower.push(tag_lower);
                    assert(seen(tags@) =~= seen(tags_were).push(name));
                }
            } else {
                assert(tag_at(s, i as int) is None) by {
                    if name.len() > 0 {
                        assert(name[0] == s[i + 1]);
                    }
                }
            }
            i = end;
        }
    }
    tags
}

/// No two tags of a text are the same up to case.
pub proof fn law_tags_distinct(s: Seq<char>)
    ensures
        forall|i: int, j: int|
            0 <= i < j < tag_list(s).len() ==> lowercased(#[trigger] tag_list(s)[i]) != lowercased(
                #[trigger] tag_list(s)[j],
            ),
{
    lemma_distinct(tags_before(s, s.len() as int));
}

proof fn lemma_distinct(names: Seq<Seq<char>>)
    ensures
        forall|i: int, j: int|
            0 <= i < j < distinct(names).len() ==> lowercased(#[trigger] distinct(names)[i])
                != lowercased(#[trigger] distinct(names)[j]),
        forall|i: int| 0 <= i < distinct(names).len() ==> names.contains(#[trigger] distinct(names)[i]),
        forall|i: int| 0 <= i < names.len() ==> named(distinct(names), #[trigger] names[i]),
    decreases names.len(),
{
    if names.len() > 0 {
        let front = names.drop_last();
        let rest = distinct(front);
        lemma_distinct(front);
        let out = distinct(names);
        assert forall|i: int, j: int| 0 <= i < j < out.len() implies lowercased(#[trigger] out[i])
            != lowercased(#[trigger] out[j]) by {
            if !named(rest, names.last()) {
                assert(out[i] == rest[i]);
                if j < rest.len() {
                    assert(out[j] == rest[j]);
                }
            }
        }
        assert forall|i: int| 0 <= i < out.len() implies names.contains(#[trigger] out[i]) by {
            if i < rest.len() {
                assert(out[i] == rest[i]);
                assert(front.contains(rest[i]));
                let k = choose|k: int| 0 <= k < front.len() && front[k] == rest[i];
                assert(names[k] == out[i]);
            } else {
                assert(names[names.len() - 1] == out[i]);
            }
        }
        assert forall|i: int| 0 <= i < names.len() implies named(out, #[trigger] names[i]) by {
            if i < front.len() {
                assert(front[i] == names[i]);
                assert(named(rest, front[i]));
                let k = choose|k: int|
                    0 <= k < rest.len() && lowercased(#[trigger] rest[k]) == lowercased(front[i]);
                assert(out[k] == rest[k]);
            } else if named(rest, names.last()) {
            } else {
                assert(out[out.len() - 1] == names[i]);
            }
        }
    }
}

/// Every tag of a text stands in it behind a `#` on a word boundary, and every
/// such name is in the list, up to case.
pub proof fn law_tags_are_those_in_the_text(s: Seq<char>)
    ensures
        forall|i: int|
            0 <= i < tag_list(s).len() ==> exists|k: int|
                0 <= k < s.len() && tag_at(s, k) == Some(#[trigger] tag_list(s)[i]),
        forall|k: int|
            0 <= k < s.len() && #[trigger] tag_at(s, k) is Some ==> named(
                tag_list(s),
                tag_at(s, k).unwrap(),
            ),
{
    let n = s.len() as int;
    let all = tags_before(s, n);
    lemma_distinct(all);
    assert forall|i: int| 0 <= i < tag_list(s).len() implies exists|k: int|
        0 <= k < s.len() && tag_at(s, k) == Some(#[trigger] tag_list(s)[i]) by {
        assert(all.contains(tag_list(s)[i]));
        lemma_tags_before(s, n);
    }
    assert forall|k: int| 0 <= k < s.len() && #[trigger] tag_at(s, k) is Some implies named(
        tag_list(s),
        tag_at(s, k).unwrap(),
    ) by {
        lemma_tags_before(s, n);
        assert(all.contains(tag_at(s, k).unwrap()));
        let j = choose|j: int| 0 <= j < all.len() && all[j] == tag_at(s, k).unwrap();
        assert(named(distinct(all), all[j]));
    }
}

proof fn lemma_tags_before(s: Seq<char>, n: int)
    requires
        0 <= n <= s.len(),
    ensures
        forall|i: int|
            0 <= i < tags_before(s, n).len() ==> exists|k: int|
                0 <= k < n && tag_at(s, k) == Some(#[trigger] tags_before(s, n)[i]),
        forall|k: int|
            0 <= k < n && #[trigger] tag_at(s, k) is Some ==> tags_before(s, n).contains(
                tag_at(s, k).unwrap(),
            ),
    decreases n,
{
    if n > 0 {
        lemma_tags_before(s, n - 1);
        let rest = tags_before(s, n - 1);
        let all = tags_before(s, n);
        assert forall|i: int| 0 <= i < all.len() implies exists|k: int|
            0 <= k < n && tag_at(s, k) == Some(#[trigger] all[i]) by {
            if i < rest.len() {
                assert(all[i] == rest[i]);
                let k = choose|k: int| 0 <= k < n - 1 && tag_at(s, k) == Some(rest[i]);
                assert(0 <= k < n && tag_at(s, k) == Some(all[i]));
            } else {
                assert(tag_at(s, n - 1) == Some(all[i]));
            }
        }
        assert forall|k: int| 0 <= k < n && #[trigger] tag_at(s, k) is Some implies all.contains(
            tag_at(s, k).unwrap(),
        ) by {
            if k < n - 1 {
                let name = tag_at(s, k).unwrap();
                assert(rest.contains(name));
                let j = choose|j: int| 0 <= j < rest.len() && rest[j] == name;
                assert(all[j] == name);
            } else {
                assert(all[all.len() - 1] == tag_at(s, k).unwrap());
            }
        }
    }
}

// ---- texts put together ----------------------------------------------------

/// A character that ends any tag before it and keeps none behind it from
/// starting, and is no tag's hash itself.
spec fn separates(c: char) -> bool {
    !tag_char(c) && !blocks_tag(c)
}

proof fn lemma_run_end_reaches(s: Seq<char>, i: int)
    requires
        0 <= i <= s.len(),
    ensures
        i <= run_end(s, i) <= s.len(),
        forall|k: int| i <= k < run_end(s, i) ==> tag_char(#[trigger] s[k]),
        run_end(s, i) < s.len() ==> !tag_char(s[run_end(s, i)]),
    decreases s.len() - i,
{
    if i < s.len() && tag_char(s[i]) {
        lemma_run_end_reaches(s, i + 1);
    }
}

/// In a text in three parts, of which the middle one separates, the tags of the
/// first and of the last part start where they do there.
proof fn lemma_tag_at_joined(a: Seq<char>, w: char, b: Seq<char>, i: int)
    requires
        separates(w),
        0 <= i <= a.len() + b.len(),
    ensures
        i < a.len() ==> tag_at(a + seq![w] + b, i) == tag_at(a, i),
        i == a.len() ==> tag_at(a + seq![w] + b, i) is None,
        i > a.len() ==> tag_at(a + seq![w] + b, i) == tag_at(b, i - a.len() - 1),
{
    let s = a + seq![w] + b;
    let n = a.len() as int;
    assert(s[n] == w);
    if i < n {
        lemma_run_end_reaches(a, i + 1);
        let e = run_end(a, i + 1);
        assert forall|k: int| i + 1 <= k < e implies tag_char(#[trigger] s[k]) by {
            assert(s[k] == a[k]);
        }
        assert(s[e] == if e < n {
            a[e]
        } else {
            w
        });
        lemma_run_end(s, i + 1, e);
        assert(s.subrange(i + 1, e) =~= a.subrange(i + 1, e));
    } else if i > n {
        let j = i - n - 1;
        lemma_run_end_reaches(b, j + 1);
        let e = run_end(b, j + 1);
        assert forall|k: int| i + 1 <= k < e + n + 1 implies tag_char(#[trigger] s[k]) by {
            assert(s[k] == b[k - n - 1]);
        }
        if e < b.len() {
            assert(s[e + n + 1] == b[e]);
        }
        lemma_run_end(s, i + 1, e + n + 1);
        assert(s.subrange(i + 1, e + n + 1) =~= b.subrange(j + 1, e));
        assert(s[i - 1] == if j == 0 {
            w
        } else {
            b[j - 1]
        });
    }
}

proof fn lemma_tags_before_joined(a: Seq<char>, w: char, b: Seq<char>, n: int)
    requires
        separates(w),
        0 <= n <= a.len() + 1 + b.len(),
    ensures
        tags_before(a + seq![w] + b, n) == (if n <= a.len() {
            tags_before(a, n)
        } else {
            tags_before(a, a.len() as int) + tags_before(b, n - a.len() - 1)
        }),
    decreases n,
{
    if n > 0 {
        lemma_tags_before_joined(a, w, b, n - 1);
        lemma_tag_at_joined(a, w, b, n - 1);
        if n > a.len() {
            assert(tags_before(a + seq![w] + b, n) =~= tags_before(a, a.len() as int)
                + tags_before(b, n - a.len() - 1));
        }
    }
}

/// The names that are not among `known`, up to case.
pub open spec fn new_names(known: Seq<Seq<char>>, names: Seq<Seq<char>>) -> Seq<Seq<char>> {
    kept(names, |name: Seq<char>| !named(known, name))
}

proof fn lemma_distinct_joined(a: Seq<Seq<char>>, b: Seq<Seq<char>>)
    ensures
        distinct(a + b) == distinct(a) + new_names(distinct(a), distinct(b)),
    decreases b.len(),
{
    let known = distinct(a);
    let p = |name: Seq<char>| !named(known, name);
    if b.len() == 0 {
        assert(a + b =~= a);
        assert(known + new_names(known, distinct(b)) =~= known);
    } else {
        let front = b.drop_last();
        let name = b.last();
        lemma_distinct_joined(a, front);
        assert((a + b).drop_last() =~= a + front);
        let rest = distinct(a + front);
        let more = new_names(known, distinct(front));
        assert(rest == known + more);
        law_kept_all(distinct(front), p);
        if named(known, name) {
            let k = choose|k: int|
                0 <= k < known.len() && lowercased(#[trigger] known[k]) == lowercased(name);
            assert(rest[k] == known[k]);
            assert(named(rest, name));
        } else if named(distinct(front), name) {
            let d = distinct(front);
            let k = choose|k: int|
                0 <= k < d.len() && lowercased(#[trigger] d[k]) == lowercased(name);
            assert(p(d[k])) by {
                if named(known, d[k]) {
                    let j = choose|j: int|
                        0 <= j < known.len() && lowercased(#[trigger] known[j]) == lowercased(d[k]);
                    assert(lowercased(known[j]) == lowercased(name));
                }
            }
            law_kept_contains(d, p, d[k]);
            let j = choose|j: int| 0 <= j < more.len() && more[j] == d[k];
            assert(rest[known.len() + j] == d[k]);
            assert(named(rest, name));
        } else {
            assert(!named(rest, name)) by {
                if named(rest, name) {
                    let k = choose|k: int|
                        0 <= k < rest.len() && lowercased(#[trigger] rest[k]) == lowercased(name);
                    if k < known.len() {
                        assert(rest[k] == known[k]);
                    } else {
                        let x = more[k - known.len()];
                        assert(rest[k] == x);
                        assert(distinct(front).contains(x));
                        let j = choose|j: int|
                            0 <= j < distinct(front).len() && distinct(front)[j] == x;
                        assert(lowercased(distinct(front)[j]) == lowercased(name));
                    }
                }
            }
        }
        if !named(distinct(front), name) {
            assert(distinct(b) == distinct(front).push(name));
            assert(distinct(b).drop_last() =~= distinct(front));
        }
        assert(distinct(a + b) =~= known + new_names(known, distinct(b)));
    }
}

/// The tags of two texts with whitespace between them are those of the first,
/// then those of the second that the first does not have, up to case.
pub proof fn law_tags_joined(a: Seq<char>, w: char, b: Seq<char>)
    requires
        whitespace(w),
    ensures
        tag_list(a + seq![w] + b) == tag_list(a) + new_names(tag_list(a), tag_list(b)),
{
    let s = a + seq![w] + b;
    lemma_tags_before_joined(a, w, b, s.len() as int);
    lemma_distinct_joined(tags_before(a, a.len() as int), tags_before(b, b.len() as int));
}

/// The tags one after the other, each behind a hash, with a space between them.
pub open spec fn written(names: Seq<Seq<char>>) -> Seq<char>
    decreases names.len(),
{
    if names.len() == 0 {
        Seq::empty()
    } else if names.len() == 1 {
        seq!['#'] + names[0]
    } else {
        written(names.drop_last()) + seq![' '] + (seq!['#'] + names.last())
    }
}

/// A name that stands in a text as a tag: of tag characters alone, with neither
/// a hyphen at its start nor at its end.
spec fn proper(name: Seq<char>) -> bool {
    &&& tag_name(name)
    &&& name.last() != '-'
    &&& forall|i: int| 0 <= i < name.len() ==> tag_char(#[trigger] name[i])
}

proof fn lemma_trimmed(s: Seq<char>)
    ensures
        trimmed(s).len() <= s.len(),
        trimmed(s) == s.take(trimmed(s).len() as int),
        trimmed(s).len() > 0 ==> trimmed(s).last() != '-',
    decreases s.len(),
{
    if s.len() > 0 && s.last() == '-' {
        lemma_trimmed(s.drop_last());
        let n = trimmed(s).len() as int;
        assert(s.drop_last().take(n) =~= s.take(n));
    } else {
        assert(s.take(s.len() as int) =~= s);
    }
}

proof fn lemma_tag_is_proper(s: Seq<char>, i: int)
    requires
        0 <= i < s.len(),
        tag_at(s, i) is Some,
    ensures
        proper(tag_at(s, i).unwrap()),
{
    lemma_run_end_reaches(s, i + 1);
    let run = s.subrange(i + 1, run_end(s, i + 1));
    lemma_trimmed(run);
    let name = trimmed(run);
    assert forall|k: int| 0 <= k < name.len() implies tag_char(#[trigger] name[k]) by {
        assert(name[k] == run[k]);
        assert(run[k] == s[i + 1 + k]);
    }
}

proof fn lemma_one_tag(name: Seq<char>)
    requires
        proper(name),
    ensures
        tag_list(seq!['#'] + name) == seq![name],
{
    let s = seq!['#'] + name;
    let n = s.len() as int;
    assert forall|k: int| 1 <= k < n implies tag_char(#[trigger] s[k]) && s[k] != '#' by {
        assert(s[k] == name[k - 1]);
        assert(tag_char(name[k - 1]));
    }
    lemma_run_end(s, 1, n);
    lemma_no_hash_no_tag(s, 1, n);
    assert(s.subrange(1, n) =~= name);
    assert(tag_at(s, 0) == Some(name));
    assert(tags_before(s, 0) =~= Seq::empty());
    assert(tags_before(s, 1) =~= seq![name]);
    let all = seq![name];
    assert(all.drop_last() =~= Seq::empty());
    let none = distinct(all.drop_last());
    assert(none =~= Seq::empty());
    assert(!named(none, name));
    assert(distinct(all) =~= all);
}

/// Writing the tags of a text out again, each behind a hash, and reading them
/// gives the same tags.
pub proof fn law_tags_written_back(s: Seq<char>)
    ensures
        tag_list(written(tag_list(s))) == tag_list(s),
{
    let names = tag_list(s);
    law_tags_distinct(s);
    law_tags_are_those_in_the_text(s);
    assert forall|i: int| 0 <= i < names.len() implies proper(#[trigger] names[i]) by {
        let k = choose|k: int| 0 <= k < s.len() && tag_at(s, k) == Some(names[i]);
        lemma_tag_is_proper(s, k);
    }
    lemma_written_back(names);
}

proof fn lemma_written_back(names: Seq<Seq<char>>)
    requires
        forall|i: int| 0 <= i < names.len() ==> proper(#[trigger] names[i]),
        forall|i: int, j: int|
            0 <= i < j < names.len() ==> lowercased(#[trigger] names[i]) != lowercased(
                #[trigger] names[j],
            ),
    ensures
        tag_list(written(names)) == names,
    decreases names.len(),
{
    if names.len() == 0 {
        assert(tag_list(written(names)) =~= names);
    } else {
        let name = names.last();
        lemma_one_tag(name);
        if names.len() == 1 {
            assert(names =~= seq![name]);
        } else {
            let front = names.drop_last();
            assert forall|i: int| 0 <= i < front.len() implies proper(#[trigger] front[i]) by {
                assert(front[i] == names[i]);
            }
            assert forall|i: int, j: int| 0 <= i < j < front.len() implies lowercased(
                #[trigger] front[i],
            ) != lowercased(#[trigger] front[j]) by {
                assert(front[i] == names[i] && front[j] == names[j]);
            }
            lemma_written_back(front);
            law_tags_joined(written(front), ' ', seq!['#'] + name);
            assert(!named(front, name)) by {
                if named(front, name) {
                    let k = choose|k: int|
                        0 <= k < front.len() && lowercased(#[trigger] front[k]) == lowercased(name);
                    assert(names[k] == front[k]);
                    assert(names[names.len() - 1] == name);
                }
            }
            let one = seq![name];
            assert(one.drop_last() =~= Seq::empty());
            let p = |name: Seq<char>| !named(front, name);
            assert(kept(one.drop_last(), p) =~= Seq::empty());
            assert(one.last() == name);
            assert(new_names(front, one) =~= one);
            assert(front + one =~= names);
        }
    }
}

// ---- where the tags stand --------------------------------------------------

/// A letter, a digit or `_`.
pub open spec fn letter_digit_or_underscore(c: char) -> bool {
    ||| '0' <= c && c <= '9'
    ||| 'A' <= c && c <= 'Z'
    ||| 'a' <= c && c <= 'z'
    ||| c == '_'
    ||| c > '\u{7f}' && !whitespace(c) && unicode_alphanumeric(c)
}

/// At position `i` of the text a hash stands on a word boundary and behind it
/// `name`, of letters, digits, `_` and `-` alone, without a hyphen at either end;
/// up to the first other character, or the end of the text, only hyphens follow.
pub open spec fn stands(s: Seq<char>, i: int, name: Seq<char>) -> bool {
    let end = i + 1 + name.len();
    &&& 0 <= i && end <= s.len()
    &&& s[i] == '#'
    &&& i > 0 ==> s[i - 1] != '#' && !letter_digit_or_underscore(s[i - 1])
    &&& name.len() > 0
    &&& name == s.subrange(i + 1, end)
    &&& forall|k: int|
        0 <= k < name.len() ==> letter_digit_or_underscore(#[trigger] name[k]) || name[k] == '-'
    &&& name[0] != '-' && name.last() != '-'
    &&& exists|stop: int| #[trigger] hyphens_up_to(s, end, stop)
}

/// From `i` up to `stop` there are only hyphens, and `stop` is the end of the
/// text or the place of a character that no tag has.
pub open spec fn hyphens_up_to(s: Seq<char>, i: int, stop: int) -> bool {
    &&& i <= stop <= s.len()
    &&& forall|k: int| i <= k < stop ==> #[trigger] s[k] == '-'
    &&& stop < s.len() ==> s[stop] != '-' && !letter_digit_or_underscore(s[stop])
}

proof fn lemma_trimmed_hyphens(name: Seq<char>, s: Seq<char>)
    requires
        name.len() > 0,
        name.last() != '-',
        name.len() <= s.len(),
        name == s.take(name.len() as int),
        forall|k: int| name.len() <= k < s.len() ==> #[trigger] s[k] == '-',
    ensures
        trimmed(s) == name,
    decreases s.len(),
{
    if s.len() == name.len() {
        assert(s.take(s.len() as int) =~= s);
    } else {
        assert(s[s.len() - 1] == '-');
        assert(s.drop_last().take(name.len() as int) =~= s.take(name.len() as int));
        lemma_trimmed_hyphens(name, s.drop_last());
    }
}

proof fn lemma_trimmed_rest(s: Seq<char>)
    ensures
        forall|k: int| trimmed(s).len() <= k < s.len() ==> #[trigger] s[k] == '-',
    decreases s.len(),
{
    if s.len() > 0 && s.last() == '-' {
        let front = s.drop_last();
        lemma_trimmed_rest(front);
        assert forall|k: int| trimmed(s).len() <= k < s.len() implies #[trigger] s[k] == '-' by {
            if k < front.len() {
                assert(front[k] == s[k]);
            }
        }
    }
}

proof fn lemma_stands(s: Seq<char>, i: int)
    requires
        0 <= i < s.len(),
    ensures
        tag_at(s, i) matches Some(name) ==> stands(s, i, name),
        forall|name: Seq<char>| #[trigger] stands(s, i, name) ==> tag_at(s, i) == Some(name),
{
    if tag_at(s, i) is Some {
        let name = tag_at(s, i).unwrap();
        let stop = run_end(s, i + 1);
        let run = s.subrange(i + 1, stop);
        lemma_run_end_reaches(s, i + 1);
        lemma_trimmed(run);
        lemma_trimmed_rest(run);
        lemma_tag_is_proper(s, i);
        let end = i + 1 + name.len();
        assert(name =~= s.subrange(i + 1, end));
        assert forall|k: int|
            0 <= k < name.len() implies letter_digit_or_underscore(#[trigger] name[k]) || name[k]
            == '-' by {
            assert(tag_char(name[k]));
        }
        assert forall|k: int| end <= k < stop implies #[trigger] s[k] == '-' by {
            assert(run[k - i - 1] == s[k]);
        }
        assert(hyphens_up_to(s, end, stop));
        assert(stands(s, i, name));
    }
    assert forall|name: Seq<char>| #[trigger] stands(s, i, name) implies tag_at(s, i) == Some(
        name,
    ) by {
        let end = i + 1 + name.len();
        let stop = choose|stop: int| #[trigger] hyphens_up_to(s, end, stop);
        assert forall|k: int| i + 1 <= k < stop implies tag_char(#[trigger] s[k]) by {
            if k < end {
                assert(name[k - i - 1] == s[k]);
            } else {
                assert(s[k] == '-');
            }
        }
        lemma_run_end(s, i + 1, stop);
        let run = s.subrange(i + 1, stop);
        assert(run.take(name.len() as int) =~= name);
        assert forall|k: int| name.len() <= k < run.len() implies #[trigger] run[k] == '-' by {
            assert(run[k] == s[k + i + 1]);
        }
        lemma_trimmed_hyphens(name, run);
        assert(letter_digit_or_underscore(name[0]) || name[0] == '-');
    }
}

proof fn lemma_first_places(s: Seq<char>, n: int) -> (at: Seq<int>)
    requires
        0 <= n <= s.len(),
    ensures
        at.len() == distinct(tags_before(s, n)).len(),
        forall|k: int|
            0 <= k < at.len() ==> 0 <= #[trigger] at[k] < n && tag_at(s, at[k]) == Some(
                distinct(tags_before(s, n))[k],
            ),
        forall|k: int, m: int| 0 <= k < m < at.len() ==> #[trigger] at[k] < #[trigger] at[m],
        forall|k: int, i: int|
            0 <= k < at.len() && 0 <= i < #[trigger] at[k] && (#[trigger] tag_at(s, i)) is Some
                ==> lowercased(tag_at(s, i).unwrap()) != lowercased(
                distinct(tags_before(s, n))[k],
            ),
    decreases n,
{
    if n == 0 {
        Seq::empty()
    } else {
        let was = lemma_first_places(s, n - 1);
        match tag_at(s, n - 1) {
            None => was,
            Some(name) => {
                let all = tags_before(s, n - 1);
                let rest = distinct(all);
                assert(tags_before(s, n).drop_last() =~= all);
                if named(rest, name) {
                    was
                } else {
                    let at = was.push(n - 1);
                    let out = distinct(tags_before(s, n));
                    assert(out == rest.push(name));
                    assert forall|k: int, i: int|
                        0 <= k < at.len() && 0 <= i < #[trigger] at[k] && (#[trigger] tag_at(
                            s,
                            i,
                        )) is Some implies lowercased(tag_at(s, i).unwrap()) != lowercased(
                        out[k],
                    ) by {
                        if k < was.len() {
                            assert(at[k] == was[k]);
                            assert(out[k] == rest[k]);
                        } else {
                            lemma_tags_before(s, n - 1);
                            lemma_distinct(all);
                            let other = tag_at(s, i).unwrap();
                            assert(all.contains(other));
                            let j = choose|j: int| 0 <= j < all.len() && all[j] == other;
                            assert(named(rest, all[j]));
                            let m = choose|m: int|
                                0 <= m < rest.len() && lowercased(#[trigger] rest[m])
                                    == lowercased(other);
                            assert(lowercased(rest[m]) != lowercased(name));
                        }
                    }
                    at
                }
            },
        }
    }
}

/// The tags of a text are the names that stand in it as tags: each with the case
/// and at the place of its first occurrence up to case, in the order of these
/// places, and none is left out. A tag consists of letters, digits, `_` and `-`
/// alone, and ends at the first other character.
pub proof fn law_tags_stand_in_the_text(s: Seq<char>) -> (at: Seq<int>)
    ensures
        at.len() == tag_list(s).len(),
        forall|k: int| 0 <= k < at.len() ==> stands(s, #[trigger] at[k], tag_list(s)[k]),
        forall|k: int, m: int| 0 <= k < m < at.len() ==> #[trigger] at[k] < #[trigger] at[m],
        forall|k: int, i: int, name: Seq<char>|
            0 <= k < at.len() && i < #[trigger] at[k] && #[trigger] stands(s, i, name)
                ==> lowercased(name) != lowercased(tag_list(s)[k]),
        forall|i: int, name: Seq<char>| #[trigger]
            stands(s, i, name) ==> exists|k: int|
                0 <= k < at.len() && lowercased(#[trigger] tag_list(s)[k]) == lowercased(name),
{
    let at = lemma_first_places(s, s.len() as int);
    law_tags_are_those_in_the_text(s);
    assert forall|k: int| 0 <= k < at.len() implies stands(s, #[trigger] at[k], tag_list(s)[k]) by {
        lemma_stands(s, at[k]);
    }
    assert forall|k: int, i: int, name: Seq<char>|
        0 <= k < at.len() && i < #[trigger] at[k] && #[trigger] stands(
            s,
            i,
            name,
        ) implies lowercased(name) != lowercased(tag_list(s)[k]) by {
        lemma_stands(s, i);
    }
    assert forall|i: int, name: Seq<char>| #[trigger] stands(s, i, name) implies exists|k: int|
        0 <= k < at.len() && lowercased(#[trigger] tag_list(s)[k]) == lowercased(name) by {
        lemma_stands(s, i);
        assert(named(tag_list(s), name));
    }
    at
}

/// Every character of every tag is a letter, a digit, `_` or `-`.
pub proof fn law_tag_characters(s: Seq<char>, k: int, i: int)
    requires
        0 <= k < tag_list(s).len(),
        0 <= i < tag_list(s)[k].len(),
    ensures
        ({
            let c = tag_list(s)[k][i];
            ||| '0' <= c && c <= '9'
            ||| 'A' <= c && c <= 'Z'
            ||| 'a' <= c && c <= 'z'
            ||| c == '_'
            ||| c == '-'
            ||| c > '\u{7f}' && !whitespace(c) && unicode_alphanumeric(c)
        }),
{
    let at = law_tags_stand_in_the_text(s);
    assert(stands(s, at[k], tag_list(s)[k]));
}

} // verus!
