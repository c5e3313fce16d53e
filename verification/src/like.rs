//! `LIKE` patterns, as the query language of storage has them.

use vstd::prelude::*;

use crate::list_laws::same_letter;
use crate::order::{folded, folded_code, has_prefix};
use crate::text::chars_of;

verus! {

/// The character that makes the one behind it in a pattern literal.
pub const ESCAPE: char = '\\';

/// A character with a meaning of its own in a pattern.
pub open spec fn special(c: char) -> bool {
    c == ESCAPE || c == '%' || c == '_'
}

/// `s` as a pattern that matches just `s`: special characters escaped.
pub open spec fn escaped(s: Seq<char>) -> Seq<char>
    decreases s.len(),
{
    if s.len() == 0 {
        Seq::empty()
    } else if special(s.last()) {
        escaped(s.drop_last()).push(ESCAPE).push(s.last())
    } else {
        escaped(s.drop_last()).push(s.last())
    }
}

/// `s` matches the pattern: `%` stands for any characters, `_` for any one, an
/// escaped character and every other for itself up to ASCII case.
pub open spec fn like(pattern: Seq<char>, s: Seq<char>) -> bool
    decreases pattern.len(), s.len(),
{
    if pattern.len() == 0 {
        s.len() == 0
    } else if pattern[0] == '%' {
        like(pattern.skip(1), s) || (s.len() > 0 && like(pattern, s.skip(1)))
    } else if pattern[0] == '_' {
        s.len() > 0 && like(pattern.skip(1), s.skip(1))
    } else if pattern[0] == ESCAPE {
        pattern.len() > 1 && s.len() > 0 && folded_code(pattern[1]) == folded_code(s[0]) && like(
            pattern.skip(2),
            s.skip(1),
        )
    } else {
        s.len() > 0 && folded_code(pattern[0]) == folded_code(s[0]) && like(
            pattern.skip(1),
            s.skip(1),
        )
    }
}

/// Escapes what has a meaning of its own in a pattern, so that a literal prefix
/// matches literally: a tag may well hold `_`.
pub fn escape_like(s: &str) -> (out: String)
    ensures
        out@ == escaped(s@),
{
    let mut out = String::new();
    let ghost all = s@;
    assert(out@ =~= escaped(all.take(0)));
    for c in it: s.chars()
        invariant
            it.seq() == all,
            out@ == escaped(all.take(it.index() as int)),
    {
        proof {
            assert(all.take(it.index() + 1).drop_last() =~= all.take(it.index() as int));
            assert(all.take(it.index() + 1).last() == c);
        }
        if c == ESCAPE || c == '%' || c == '_' {
            out.push(ESCAPE);
        }
        out.push(c);
    }
    assert(all.take(all.len() as int) =~= all);
    out
}

/// The number by which a character is compared when ASCII case is ignored.
fn fold(c: char) -> (r: u32)
    ensures
        r == folded_code(c),
{
    if 'A' <= c && c <= 'Z' {
        c as u32 + 32
    } else {
        c as u32
    }
}

/// Whether the rest of the characters matches the rest of the pattern.
fn like_from(pattern: &Vec<char>, i: usize, s: &Vec<char>, j: usize) -> (r: bool)
    requires
        i <= pattern@.len(),
        j <= s@.len(),
    ensures
        r == like(pattern@.skip(i as int), s@.skip(j as int)),
    decreases pattern@.len() - i, s@.len() - j,
{
    proof {
        let p = pattern@.skip(i as int);
        let t = s@.skip(j as int);
        if i < pattern@.len() {
            assert(p.skip(1) =~= pattern@.skip(i + 1));
        }
        if i + 1 < pattern@.len() {
            assert(p.skip(2) =~= pattern@.skip(i + 2));
        }
        if j < s@.len() {
            assert(t.skip(1) =~= s@.skip(j + 1));
        }
    }
    if i == pattern.len() {
        return j == s.len();
    }
    let c = pattern[i];
    if c == '%' {
        like_from(pattern, i + 1, s, j) || (j < s.len() && like_from(pattern, i, s, j + 1))
    } else if c == '_' {
        j < s.len() && like_from(pattern, i + 1, s, j + 1)
    } else if c == ESCAPE {
        i < pattern.len() - 1 && j < s.len() && fold(pattern[i + 1]) == fold(s[j]) && like_from(
            pattern,
            i + 2,
            s,
            j + 1,
        )
    } else {
        j < s.len() && fold(c) == fold(s[j]) && like_from(pattern, i + 1, s, j + 1)
    }
}

/// Whether `s` matches the pattern.
pub fn like_chars(pattern: &str, s: &str) -> (r: bool)
    ensures
        r == like(pattern@, s@),
{
    let p = chars_of(pattern);
    let t = chars_of(s);
    assert(p@.skip(0) =~= p@);
    assert(t@.skip(0) =~= t@);
    like_from(&p, 0, &t, 0)
}

proof fn lemma_anything(s: Seq<char>)
    ensures
        like(seq!['%'], s),
    decreases s.len(),
{
    assert(seq!['%'].skip(1) =~= Seq::<char>::empty());
    if s.len() > 0 {
        lemma_anything(s.skip(1));
    } else {
        assert(like(Seq::<char>::empty(), s));
    }
}

proof fn lemma_escaped_front(s: Seq<char>)
    requires
        s.len() > 0,
    ensures
        escaped(s) == (if special(s[0]) {
            seq![ESCAPE, s[0]]
        } else {
            seq![s[0]]
        }) + escaped(s.skip(1)),
    decreases s.len(),
{
    if s.len() == 1 {
        assert(s.drop_last() =~= Seq::empty());
        assert(s.skip(1) =~= Seq::empty());
        assert(escaped(s.drop_last()) =~= Seq::empty());
        assert(escaped(s) =~= (if special(s[0]) {
            seq![ESCAPE, s[0]]
        } else {
            seq![s[0]]
        }) + escaped(s.skip(1)));
    } else {
        lemma_escaped_front(s.drop_last());
        assert(s.drop_last().skip(1) =~= s.skip(1).drop_last());
        assert(s.skip(1).last() == s.last());
        assert(escaped(s) =~= (if special(s[0]) {
            seq![ESCAPE, s[0]]
        } else {
            seq![s[0]]
        }) + escaped(s.skip(1)));
    }
}

/// What matches an escaped prefix and then anything are the names that start
/// with the prefix, up to ASCII case.
pub proof fn law_escaped_prefix(prefix: Seq<char>, name: Seq<char>)
    ensures
        like(escaped(prefix).push('%'), name) == has_prefix(name, prefix),
    decreases prefix.len(),
{
    let pattern = escaped(prefix).push('%');
    if prefix.len() == 0 {
        assert(pattern =~= seq!['%']);
        lemma_anything(name);
        assert(folded(name.take(0)) =~= folded(prefix));
    } else {
        let rest = prefix.skip(1);
        lemma_escaped_front(prefix);
        let width: int = if special(prefix[0]) {
            2
        } else {
            1
        };
        assert(pattern.skip(width) =~= escaped(rest).push('%'));
        if name.len() > 0 {
            law_escaped_prefix(rest, name.skip(1));
            if prefix.len() <= name.len() {
                let head = name.take(prefix.len() as int);
                let tail = name.skip(1).take(rest.len() as int);
                assert(folded(head).len() == prefix.len() && folded(prefix).len() == prefix.len());
                assert forall|i: int| 0 <= i < rest.len() implies folded(tail)[i] == folded(
                    head,
                )[i + 1] && folded(rest)[i] == folded(prefix)[i + 1] by {
                }
                if folded_code(prefix[0]) == folded_code(name[0]) && folded(tail) == folded(rest) {
                    assert forall|i: int| 0 <= i < prefix.len() implies folded(head)[i] == folded(
                        prefix,
                    )[i] by {
                        if i > 0 {
                            assert(folded(tail)[i - 1] == folded(rest)[i - 1]);
                        }
                    }
                    assert(folded(head) =~= folded(prefix));
                }
                if folded(head) == folded(prefix) {
                    assert(folded(head)[0] == folded(prefix)[0]);
                    assert(folded(tail) =~= folded(rest));
                }
            }
        }
    }
}

/// A pattern is matched part by part: `%` by any characters, none among them; `_`
/// by any one; a backslash with the character behind it, and every other character
/// but these three, by the same letter up to ASCII case. At its end the text ends.
pub proof fn law_like_parts(c: char, pattern: Seq<char>, s: Seq<char>)
    ensures
        like(Seq::empty(), s) <==> s.len() == 0,
        like(seq!['%'] + pattern, s) <==> exists|k: int|
            0 <= k <= s.len() && like(pattern, #[trigger] s.skip(k)),
        like(seq!['_'] + pattern, s) <==> s.len() > 0 && like(pattern, s.skip(1)),
        like(seq!['\\', c] + pattern, s) <==> s.len() > 0 && same_letter(c, s[0]) && like(
            pattern,
            s.skip(1),
        ),
        c != '%' && c != '_' && c != '\\' ==> (like(seq![c] + pattern, s) <==> s.len() > 0
            && same_letter(c, s[0]) && like(pattern, s.skip(1))),
        !like(seq!['\\'], s),
{
    lemma_like_any(pattern, s);
    assert((seq!['_'] + pattern).skip(1) =~= pattern);
    assert((seq!['\\', c] + pattern).skip(2) =~= pattern);
    assert((seq![c] + pattern).skip(1) =~= pattern);
}

proof fn lemma_like_any(pattern: Seq<char>, s: Seq<char>)
    ensures
        like(seq!['%'] + pattern, s) <==> exists|k: int|
            0 <= k <= s.len() && like(pattern, #[trigger] s.skip(k)),
    decreases s.len(),
{
    let whole = seq!['%'] + pattern;
    assert(whole.skip(1) =~= pattern);
    assert(s.skip(0) =~= s);
    if s.len() > 0 {
        let rest = s.skip(1);
        lemma_like_any(pattern, rest);
        if like(whole, rest) {
            let k = choose|k: int| 0 <= k <= rest.len() && like(pattern, #[trigger] rest.skip(k));
            assert(rest.skip(k) =~= s.skip(k + 1));
        }
        if exists|k: int| 0 <= k <= s.len() && like(pattern, #[trigger] s.skip(k)) {
            let k = choose|k: int| 0 <= k <= s.len() && like(pattern, #[trigger] s.skip(k));
            if k > 0 {
                assert(rest.skip(k - 1) =~= s.skip(k));
            }
        }
    } else if exists|k: int| 0 <= k <= s.len() && like(pattern, #[trigger] s.skip(k)) {
        let k = choose|k: int| 0 <= k <= s.len() && like(pattern, #[trigger] s.skip(k));
        assert(k == 0);
    }
}

/// Escaping puts a backslash before each `%`, `_` and backslash, and changes
/// nothing else.
pub proof fn law_escaped_parts(s: Seq<char>, c: char)
    ensures
        escaped(Seq::empty()) == Seq::<char>::empty(),
        c == '%' || c == '_' || c == '\\' ==> escaped(s.push(c)) == escaped(s) + seq!['\\', c],
        c != '%' && c != '_' && c != '\\' ==> escaped(s.push(c)) == escaped(s).push(c),
{
    assert(s.push(c).drop_last() =~= s);
    assert(escaped(s).push('\\').push(c) =~= escaped(s) + seq!['\\', c]);
}

} // verus!
