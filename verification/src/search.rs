//! Full-text queries, highlighted snippets, and the fusion of two rankings.

use vstd::prelude::*;
use vstd::string::*;
use vstd::utf8::*;

use crate::rows::{kept, seen};
use crate::text::{chars_of, whitespace};
use crate::thought::{Thought, ThoughtView};

verus! {

/// The character that the text index puts before a matched term.
pub const MATCH_MARK_START: char = '\u{2}';

/// The character that the text index puts behind a matched term.
pub const MATCH_MARK_END: char = '\u{3}';

/// At most how many tokens a snippet has.
pub const SNIPPET_TOKENS: i64 = 12;

/// A half-open byte range (UTF-8 offsets) into a snippet, covering one match.
#[derive(Debug, Clone, Copy, PartialEq, Eq)]
pub struct MatchRange {
    pub start: usize,
    pub len: usize,
}

/// One search result: the thought, a snippet of its text, and what to highlight
/// in the snippet.
#[derive(Debug, Clone, PartialEq, Eq)]
pub struct ThoughtMatch {
    pub thought: Thought,
    pub snippet: String,
    pub ranges: Vec<MatchRange>,
}

/// What a `ThoughtMatch` holds.
#[verifier::ext_equal]
pub struct ThoughtMatchView {
    pub thought: ThoughtView,
    pub snippet: Seq<char>,
    pub ranges: Seq<MatchRange>,
}

impl View for ThoughtMatch {
    type V = ThoughtMatchView;

    open spec fn view(&self) -> ThoughtMatchView {
        ThoughtMatchView {
            thought: self.thought@,
            snippet: self.snippet@,
            ranges: self.ranges@,
        }
    }
}

impl ThoughtMatch {
    /// The same result once more.
    pub fn duplicate(&self) -> (out: ThoughtMatch)
        ensures
            out@ == self@,
    {
        let mut ranges: Vec<MatchRange> = Vec::new();
        let mut i: usize = 0;
        while i < self.ranges.len()
            invariant
                i <= self.ranges@.len(),
                ranges@ == self.ranges@.take(i as int),
            decreases self.ranges.len() - i,
        {
            ranges.push(self.ranges[i]);
            i += 1;
            assert(ranges@ =~= self.ranges@.take(i as int));
        }
        assert(ranges@ =~= self.ranges@);
        ThoughtMatch {
            thought: self.thought.duplicate(),
            snippet: self.snippet.clone(),
            ranges,
        }
    }
}

// ---- queries ---------------------------------------------------------------

/// The words of a text: its longest runs without whitespace.
pub open spec fn words(s: Seq<char>) -> Seq<Seq<char>>
    decreases s.len(),
{
    if s.len() == 0 {
        Seq::empty()
    } else {
        let front = s.drop_last();
        let rest = words(front);
        if whitespace(s.last()) {
            rest
        } else if front.len() == 0 || whitespace(front.last()) {
            rest.push(seq![s.last()])
        } else {
            rest.drop_last().push(rest.last().push(s.last()))
        }
    }
}

/// `s` with every double quote doubled.
pub open spec fn quotes_doubled(s: Seq<char>) -> Seq<char>
    decreases s.len(),
{
    if s.len() == 0 {
        Seq::empty()
    } else if s.last() == '"' {
        quotes_doubled(s.drop_last()).push('"').push('"')
    } else {
        quotes_doubled(s.drop_last()).push(s.last())
    }
}

/// A word as a string literal of the query language.
pub open spec fn quoted(word: Seq<char>) -> Seq<char> {
    seq!['"'] + quotes_doubled(word) + seq!['"']
}

/// The words as string literals, a space between each two.
pub open spec fn quoted_words(ws: Seq<Seq<char>>) -> Seq<char>
    decreases ws.len(),
{
    if ws.len() == 0 {
        Seq::empty()
    } else if ws.len() == 1 {
        quoted(ws[0])
    } else {
        quoted_words(ws.drop_last()).push(' ') + quoted(ws.last())
    }
}

/// The query that asks for every word of `s`, the last as a prefix; none if `s`
/// has no words.
pub open spec fn match_query(s: Seq<char>) -> Option<Seq<char>> {
    if words(s).len() == 0 {
        None
    } else {
        Some(quoted_words(words(s)).push('*'))
    }
}

proof fn lemma_words_open(s: Seq<char>)
    ensures
        s.len() > 0 && !whitespace(s.last()) ==> words(s).len() > 0,
    decreases s.len(),
{
    if s.len() > 0 && !whitespace(s.last()) {
        let front = s.drop_last();
        if front.len() > 0 && !whitespace(front.last()) {
            lemma_words_open(front);
        }
    }
}

/// The words of a text.
pub fn split_words(text: &str) -> (out: Vec<String>)
    ensures
        seen(out@) == words(text@),
{
    let chars = chars_of(text);
    let ghost s = text@;
    let mut out: Vec<String> = Vec::new();
    let mut i: usize = 0;
    assert(seen(out@) =~= words(s.take(0)));
    while i < chars.len()
        invariant
            i <= chars@.len(),
            chars@ == s,
            seen(out@) == words(s.take(i as int)),
        decreases chars.len() - i,
    {
        let c = chars[i];
        let ghost front = s.take(i as int);
        let ghost was = out@;
        proof {
            assert(s.take(i + 1).drop_last() =~= front);
            assert(s.take(i + 1).last() == c);
            lemma_words_open(front);
            if i > 0 {
                assert(front.last() == s[i - 1]);
            }
        }
        if !c.is_whitespace() {
            if i == 0 || chars[i - 1].is_whitespace() {
                let mut word = String::new();
                word.push(c);
                out.push(word);
                assert(word@ =~= seq![c]);
                assert(seen(out@) =~= seen(was).push(seq![c]));
            } else {
                assert(seen(was).len() > 0);
                match out.pop() {
                    Some(mut word) => {
                        assert(seen(out@) =~= seen(was).drop_last());
                        assert(word@ == seen(was).last());
                        word.push(c);
                        let ghost shorter = out@;
                        out.push(word);
                        assert(seen(out@) =~= seen(shorter).push(word@));
                    },
                    None => {},
                }
            }
        }
        i += 1;
    }
    assert(s.take(s.len() as int) =~= s);
    out
}

/// Appends a word as a string literal of the query language.
fn push_quoted(out: &mut String, word: &str)
    ensures
        final(out)@ == old(out)@ + quoted(word@),
{
    let ghost start = out@;
    out.push('"');
    let ghost s = word@;
    assert(out@ =~= start.push('"') + quotes_doubled(s.take(0)));
    for c in it: word.chars()
        invariant
            it.seq() == s,
            s == word@,
            out@ == start.push('"') + quotes_doubled(s.take(it.index() as int)),
    {
        let ghost k = it.index() as int;
        proof {
            assert(s.take(k + 1).drop_last() =~= s.take(k));
            assert(s.take(k + 1).last() == c);
        }
        if c == '"' {
            out.push('"');
        }
        out.push(c);
        assert(out@ =~= start.push('"') + quotes_doubled(s.take(k + 1)));
    }
    assert(s.take(s.len() as int) =~= s);
    out.push('"');
    assert(out@ =~= start + quoted(s));
}

/// Builds the text index's query from raw user input: every word literal, the
/// last as a prefix so that results stay useful mid-keystroke. Input without
/// any word asks nothing.
pub fn build_match_query(query: &str) -> (r: Option<String>)
    ensures
        match r {
            Some(q) => match_query(query@) == Some(q@),
            None => match_query(query@) is None,
        },
{
    let ws = split_words(query);
    if ws.len() == 0 {
        return None;
    }
    let ghost w = seen(ws@);
    let mut out = String::new();
    push_quoted(&mut out, ws[0].as_str());
    assert(out@ =~= quoted_words(w.take(1))) by {
        assert(w.take(1)[0] == w[0]);
    }
    let mut i: usize = 1;
    while i < ws.len()
        invariant
            1 <= i <= ws@.len(),
            w == seen(ws@),
            out@ == quoted_words(w.take(i as int)),
        decreases ws.len() - i,
    {
        proof {
            assert(w.take(i + 1).drop_last() =~= w.take(i as int));
            assert(w.take(i + 1).last() == w[i as int]);
        }
        out.push(' ');
        push_quoted(&mut out, ws[i].as_str());
        i += 1;
    }
    assert(w.take(w.len() as int) =~= w);
    out.push('*');
    Some(out)
}

/// A query is asked for unless the text is blank.
pub proof fn law_blank_asks_nothing(s: Seq<char>)
    ensures
        match_query(s) is None <==> forall|i: int| 0 <= i < s.len() ==> whitespace(#[trigger] s[i]),
    decreases s.len(),
{
    if s.len() > 0 {
        let front = s.drop_last();
        law_blank_asks_nothing(front);
        lemma_words_open(s);
        if whitespace(s.last()) {
            assert(words(s) == words(front));
            if forall|i: int| 0 <= i < front.len() ==> whitespace(#[trigger] front[i]) {
                assert forall|i: int| 0 <= i < s.len() implies whitespace(#[trigger] s[i]) by {
                    if i < front.len() {
                        assert(whitespace(front[i]));
                    }
                }
            } else {
                let i = choose|i: int| 0 <= i < front.len() && !whitespace(#[trigger] front[i]);
                assert(!whitespace(s[i]));
            }
        } else {
            assert(!whitespace(s[s.len() - 1]));
        }
    }
}

/// The stretches `at` of a text are its words: they stand in order and apart from
/// each other, hold no whitespace, and leave nothing but whitespace out.
pub open spec fn runs_of(s: Seq<char>, at: Seq<(int, int)>) -> bool {
    &&& forall|k: int|
        0 <= k < at.len() ==> 0 <= (#[trigger] at[k]).0 && at[k].0 < at[k].1 && at[k].1 <= s.len()
    &&& forall|k: int, m: int|
        0 <= k < m < at.len() ==> (#[trigger] at[k]).1 < (#[trigger] at[m]).0
    &&& forall|k: int, i: int|
        0 <= k < at.len() && (#[trigger] at[k]).0 <= i < at[k].1 ==> !whitespace(#[trigger] s[i])
    &&& forall|i: int|
        0 <= i < s.len() && !whitespace(#[trigger] s[i]) ==> exists|k: int|
            0 <= k < at.len() && (#[trigger] at[k]).0 <= i < at[k].1
}

/// The stretches when a text grows by a character that goes on with the last one.
proof fn lemma_run_grows(front: Seq<char>, c: char, was: Seq<(int, int)>)
    requires
        runs_of(front, was),
        !whitespace(c),
        front.len() > 0,
        !whitespace(front.last()),
    ensures
        was.len() > 0,
        was.last().1 == front.len(),
        runs_of(front.push(c), was.drop_last().push((was.last().0, (front.len() + 1) as int))),
{
    let n = front.len() as int;
    let s = front.push(c);
    assert(front[n - 1] == front.last());
    let k = choose|k: int| 0 <= k < was.len() && (#[trigger] was[k]).0 <= n - 1 < was[k].1;
    let last = was.len() - 1;
    if k < last {
        assert(was[k].1 < was[last].0);
    }
    let at = was.drop_last().push((was.last().0, n + 1));
    assert forall|k: int, m: int| 0 <= k < m < at.len() implies (#[trigger] at[k]).1 < (
    #[trigger] at[m]).0 by {
        assert(was[k].1 < was[m].0);
    }
    assert forall|k: int, i: int|
        0 <= k < at.len() && (#[trigger] at[k]).0 <= i < at[k].1 implies !whitespace(
        #[trigger] s[i],
    ) by {
        if i < n {
            assert(was[k].0 <= i < was[k].1);
            assert(s[i] == front[i]);
        }
    }
    assert forall|i: int| 0 <= i < s.len() && !whitespace(#[trigger] s[i]) implies exists|k: int|
        0 <= k < at.len() && (#[trigger] at[k]).0 <= i < at[k].1 by {
        if i < n {
            assert(!whitespace(front[i]));
            let k = choose|k: int| 0 <= k < was.len() && (#[trigger] was[k]).0 <= i < was[k].1;
            assert(at[k].0 <= i < at[k].1);
        } else {
            assert(at[last].0 <= i < at[last].1);
        }
    }
}

/// The stretches when a text grows by a character that stands apart.
proof fn lemma_run_starts(front: Seq<char>, c: char, was: Seq<(int, int)>)
    requires
        runs_of(front, was),
        !whitespace(c),
        front.len() == 0 || whitespace(front.last()),
    ensures
        runs_of(front.push(c), was.push((front.len() as int, (front.len() + 1) as int))),
{
    let n = front.len() as int;
    let s = front.push(c);
    let at = was.push((n, n + 1));
    assert forall|k: int, m: int| 0 <= k < m < at.len() implies (#[trigger] at[k]).1 < (
    #[trigger] at[m]).0 by {
        assert(at[k] == was[k]);
        if m < was.len() {
            assert(at[m] == was[m]);
        } else if was[k].1 == n {
            assert(!whitespace(front[n - 1]));
        }
    }
    assert forall|k: int, i: int|
        0 <= k < at.len() && (#[trigger] at[k]).0 <= i < at[k].1 implies !whitespace(
        #[trigger] s[i],
    ) by {
        if k < was.len() {
            assert(was[k].0 <= i < was[k].1);
            assert(s[i] == front[i]);
        }
    }
    assert forall|i: int| 0 <= i < s.len() && !whitespace(#[trigger] s[i]) implies exists|k: int|
        0 <= k < at.len() && (#[trigger] at[k]).0 <= i < at[k].1 by {
        if i < n {
            assert(!whitespace(front[i]));
            let k = choose|k: int| 0 <= k < was.len() && (#[trigger] was[k]).0 <= i < was[k].1;
            assert(at[k].0 <= i < at[k].1);
        } else {
            assert(at[was.len() as int].0 <= i < at[was.len() as int].1);
        }
    }
}

/// The stretches when a text grows by whitespace.
proof fn lemma_run_stays(front: Seq<char>, c: char, at: Seq<(int, int)>)
    requires
        runs_of(front, at),
        whitespace(c),
    ensures
        runs_of(front.push(c), at),
{
    let s = front.push(c);
    assert forall|k: int, i: int|
        0 <= k < at.len() && (#[trigger] at[k]).0 <= i < at[k].1 implies !whitespace(
        #[trigger] s[i],
    ) by {
        assert(s[i] == front[i]);
    }
    assert forall|i: int| 0 <= i < s.len() && !whitespace(#[trigger] s[i]) implies exists|k: int|
        0 <= k < at.len() && (#[trigger] at[k]).0 <= i < at[k].1 by {
        assert(!whitespace(front[i]));
    }
}

/// The words of a text are its stretches without whitespace, each as long as can
/// be, in order, and nothing else of the text but whitespace is left out.
pub proof fn law_words_are_runs(s: Seq<char>) -> (at: Seq<(int, int)>)
    ensures
        runs_of(s, at),
        words(s).len() == at.len(),
        forall|k: int|
            0 <= k < at.len() ==> #[trigger] words(s)[k] == s.subrange(at[k].0, at[k].1),
    decreases s.len(),
{
    if s.len() == 0 {
        Seq::empty()
    } else {
        let front = s.drop_last();
        let n = s.len() as int;
        let c = s.last();
        let was = law_words_are_runs(front);
        assert(front.push(c) =~= s);
        let at = if whitespace(c) {
            lemma_run_stays(front, c, was);
            was
        } else if front.len() == 0 || whitespace(front.last()) {
            lemma_run_starts(front, c, was);
            was.push((n - 1, n))
        } else {
            lemma_run_grows(front, c, was);
            was.drop_last().push((was.last().0, n))
        };
        assert(words(s).len() == at.len());
        assert forall|k: int| 0 <= k < at.len() implies #[trigger] words(s)[k] == s.subrange(
            at[k].0,
            at[k].1,
        ) by {
            if k < was.len() {
                assert(words(front)[k] == front.subrange(was[k].0, was[k].1));
                if at[k] == was[k] {
                    assert(front.subrange(was[k].0, was[k].1) =~= s.subrange(at[k].0, at[k].1));
                } else {
                    assert(front.subrange(was[k].0, was[k].1).push(c) =~= s.subrange(
                        at[k].0,
                        at[k].1,
                    ));
                }
            } else {
                assert(seq![c] =~= s.subrange(n - 1, n));
            }
        }
        at
    }
}

/// What the text index makes of a query, read up to some place: the phrases that
/// are complete, and what it is in the middle of.
#[verifier::ext_equal]
pub enum QueryRead {
    /// Between phrases.
    Between { phrases: Seq<Seq<char>> },
    /// In a phrase, of which `open` was read.
    Within { phrases: Seq<Seq<char>>, open: Seq<char> },
    /// Behind a quote in a phrase, which ends it unless another one follows.
    Quote { phrases: Seq<Seq<char>>, open: Seq<char> },
    /// Behind the star that makes the last phrase a prefix.
    Prefix { phrases: Seq<Seq<char>> },
    /// This is no such query.
    Malformed,
}

/// Reads one character more of a query.
pub open spec fn read_on(state: QueryRead, c: char) -> QueryRead {
    match state {
        QueryRead::Between { phrases } => if c == '"' {
            QueryRead::Within { phrases, open: Seq::empty() }
        } else if c == ' ' {
            state
        } else {
            QueryRead::Malformed
        },
        QueryRead::Within { phrases, open } => if c == '"' {
            QueryRead::Quote { phrases, open }
        } else {
            QueryRead::Within { phrases, open: open.push(c) }
        },
        QueryRead::Quote { phrases, open } => if c == '"' {
            QueryRead::Within { phrases, open: open.push('"') }
        } else if c == ' ' {
            QueryRead::Between { phrases: phrases.push(open) }
        } else if c == '*' {
            QueryRead::Prefix { phrases: phrases.push(open) }
        } else {
            QueryRead::Malformed
        },
        _ => QueryRead::Malformed,
    }
}

/// Reads on with the characters of `q`.
pub open spec fn read_query(state: QueryRead, q: Seq<char>) -> QueryRead
    decreases q.len(),
{
    if q.len() == 0 {
        state
    } else {
        read_on(read_query(state, q.drop_last()), q.last())
    }
}

proof fn lemma_read_split(state: QueryRead, a: Seq<char>, b: Seq<char>)
    ensures
        read_query(state, a + b) == read_query(read_query(state, a), b),
    decreases b.len(),
{
    if b.len() == 0 {
        assert(a + b =~= a);
    } else {
        assert((a + b).drop_last() =~= a + b.drop_last());
        lemma_read_split(state, a, b.drop_last());
    }
}

proof fn lemma_read_one(state: QueryRead, c: char)
    ensures
        read_query(state, seq![c]) == read_on(state, c),
{
    assert(seq![c].drop_last() =~= Seq::<char>::empty());
    assert(read_query(state, seq![c].drop_last()) == state);
    assert(seq![c].last() == c);
}

proof fn lemma_read_doubled(phrases: Seq<Seq<char>>, word: Seq<char>)
    ensures
        read_query(
            QueryRead::Within { phrases, open: Seq::empty() },
            quotes_doubled(word),
        ) == (QueryRead::Within { phrases, open: word }),
    decreases word.len(),
{
    let start = QueryRead::Within { phrases, open: Seq::empty() };
    if word.len() > 0 {
        let front = word.drop_last();
        let c = word.last();
        lemma_read_doubled(phrases, front);
        let d = quotes_doubled(front);
        assert(front.push(c) =~= word);
        if c == '"' {
            let half = d.push('"');
            assert(half.drop_last() =~= d);
            assert(read_query(start, half) == (QueryRead::Quote { phrases, open: front }));
            assert(half.push('"').drop_last() =~= half);
            assert(read_query(start, half.push('"')) == (QueryRead::Within {
                phrases,
                open: front.push('"'),
            }));
            assert(quotes_doubled(word) =~= half.push('"'));
        } else {
            assert(d.push(c).drop_last() =~= d);
        }
    } else {
        assert(word =~= Seq::<char>::empty());
    }
}

proof fn lemma_read_quoted(phrases: Seq<Seq<char>>, word: Seq<char>)
    ensures
        read_query(QueryRead::Between { phrases }, quoted(word)) == (QueryRead::Quote {
            phrases,
            open: word,
        }),
{
    let state = QueryRead::Between { phrases };
    let d = quotes_doubled(word);
    lemma_read_split(state, seq!['"'] + d, seq!['"']);
    lemma_read_split(state, seq!['"'], d);
    lemma_read_one(state, '"');
    lemma_read_doubled(phrases, word);
    lemma_read_one(QueryRead::Within { phrases, open: word }, '"');
}

proof fn lemma_read_words(ws: Seq<Seq<char>>)
    requires
        ws.len() > 0,
    ensures
        read_query(QueryRead::Between { phrases: Seq::empty() }, quoted_words(ws)) == (
        QueryRead::Quote { phrases: ws.drop_last(), open: ws.last() }),
    decreases ws.len(),
{
    let start = QueryRead::Between { phrases: Seq::<Seq<char>>::empty() };
    if ws.len() == 1 {
        lemma_read_quoted(Seq::empty(), ws[0]);
        assert(ws.drop_last() =~= Seq::empty());
    } else {
        let front = ws.drop_last();
        lemma_read_words(front);
        let head = quoted_words(front);
        assert(head.push(' ').drop_last() =~= head);
        lemma_read_split(start, head.push(' '), quoted(ws.last()));
        assert(front.drop_last().push(front.last()) =~= front);
        lemma_read_quoted(front, ws.last());
    }
}

/// Reading a query back gives exactly the words of the text it was built from,
/// each as a phrase of its own and in order, the last one a prefix: every word is
/// asked for, literally.
pub proof fn law_query_reads_back(s: Seq<char>)
    requires
        match_query(s) is Some,
    ensures
        read_query(
            QueryRead::Between { phrases: Seq::empty() },
            match_query(s).unwrap(),
        ) == (QueryRead::Prefix { phrases: words(s) }),
{
    let ws = words(s);
    lemma_read_words(ws);
    let q = quoted_words(ws);
    assert(q.push('*').drop_last() =~= q);
    assert(ws.drop_last().push(ws.last()) =~= ws);
}

// ---- snippets --------------------------------------------------------------

/// A snippet being read: its text without marks, the ranges found, and where
/// the term that is open began.
#[verifier::ext_equal]
pub struct SnippetView {
    pub plain: Seq<char>,
    pub ranges: Seq<MatchRange>,
    pub open: Option<int>,
}

/// How many bytes a text takes.
pub open spec fn byte_len(s: Seq<char>) -> int {
    encode_utf8(s).len() as int
}

/// Reads a marked snippet: each mark is dropped, and a start mark with the next
/// end mark gives the byte range of the text between them.
pub open spec fn read_snippet(s: Seq<char>) -> SnippetView
    decreases s.len(),
{
    if s.len() == 0 {
        SnippetView { plain: Seq::empty(), ranges: Seq::empty(), open: None }
    } else {
        let so_far = read_snippet(s.drop_last());
        let c = s.last();
        if c == MATCH_MARK_START {
            SnippetView { open: Some(byte_len(so_far.plain)), ..so_far }
        } else if c == MATCH_MARK_END {
            match so_far.open {
                Some(start) => SnippetView {
                    ranges: so_far.ranges.push(
                        MatchRange {
                            start: start as usize,
                            len: (byte_len(so_far.plain) - start) as usize,
                        },
                    ),
                    open: None,
                    ..so_far
                },
                None => so_far,
            }
        } else {
            SnippetView { plain: so_far.plain.push(c), ..so_far }
        }
    }
}

/// How many bytes a character takes.
pub open spec fn char_bytes(c: char) -> int {
    if (c as u32) < 0x80 {
        1
    } else if (c as u32) < 0x800 {
        2
    } else if (c as u32) < 0x10000 {
        3
    } else {
        4
    }
}

proof fn lemma_byte_len_push(s: Seq<char>, c: char)
    ensures
        byte_len(s.push(c)) == byte_len(s) + char_bytes(c),
    decreases s.len(),
{
    broadcast use char_is_scalar;

    if s.len() == 0 {
        assert(s.push(c).drop_first() =~= Seq::<char>::empty());
        assert(s.push(c)[0] == c);
        reveal_with_fuel(encode_utf8, 2);
        assert(encode_utf8(s.push(c)) =~= encode_scalar(c as u32));
    } else {
        assert(s.push(c).drop_first() =~= s.drop_first().push(c));
        assert(s.push(c)[0] == s[0]);
        lemma_byte_len_push(s.drop_first(), c);
    }
}

proof fn lemma_snippet_bounds(s: Seq<char>)
    ensures
        byte_len(read_snippet(s).plain) <= byte_len(s),
        read_snippet(s).open matches Some(start) ==> 0 <= start <= byte_len(read_snippet(s).plain),
    decreases s.len(),
{
    if s.len() > 0 {
        lemma_snippet_bounds(s.drop_last());
        lemma_byte_len_push(s.drop_last(), s.last());
        assert(s.drop_last().push(s.last()) =~= s);
        lemma_byte_len_push(read_snippet(s.drop_last()).plain, s.last());
    }
}

proof fn lemma_byte_len_take(s: Seq<char>, k: int)
    requires
        0 <= k <= s.len(),
    ensures
        0 <= byte_len(s.take(k)) <= byte_len(s),
    decreases s.len() - k,
{
    if k < s.len() {
        assert(s.take(k + 1) =~= s.take(k).push(s[k]));
        lemma_byte_len_push(s.take(k), s[k]);
        lemma_byte_len_take(s, k + 1);
    } else {
        assert(s.take(k) =~= s);
    }
}

/// How many bytes a character takes.
fn count_bytes(c: char) -> (n: usize)
    ensures
        n == char_bytes(c),
{
    let code = c as u32;
    if code < 0x80 {
        1
    } else if code < 0x800 {
        2
    } else if code < 0x10000 {
        3
    } else {
        4
    }
}

/// Takes the marks out of a snippet of the text index and says what they
/// enclosed.
pub fn extract_ranges(marked: &str) -> (r: (String, Vec<MatchRange>))
    ensures
        r.0@ == read_snippet(marked@).plain,
        r.1@ == read_snippet(marked@).ranges,
{
    let ghost s = marked@;
    let all_bytes = marked.as_bytes();
    let total: usize = all_bytes.len();
    let mut plain = String::new();
    let mut ranges: Vec<MatchRange> = Vec::new();
    let mut open: Option<usize> = None;
    let mut at: usize = 0;
    assert(byte_len(Seq::<char>::empty()) == 0);
    for c in it: marked.chars()
        invariant
            it.seq() == s,
            total == byte_len(s),
            plain@ == read_snippet(s.take(it.index() as int)).plain,
            ranges@ == read_snippet(s.take(it.index() as int)).ranges,
            match read_snippet(s.take(it.index() as int)).open {
                Some(start) => open == Some(start as usize) && start <= usize::MAX,
                None => open is None,
            },
            at == byte_len(plain@),
    {
        let ghost k = it.index() as int;
        proof {
            let next = s.take(k + 1);
            assert(next.drop_last() =~= s.take(k));
            assert(next.last() == c);
            lemma_snippet_bounds(s.take(k));
            lemma_snippet_bounds(next);
            lemma_byte_len_take(s, k + 1);
            lemma_byte_len_push(plain@, c);
        }
        if c == MATCH_MARK_START {
            open = Some(at);
        } else if c == MATCH_MARK_END {
            match open {
                Some(start) => {
                    ranges.push(MatchRange { start, len: at - start });
                    open = None;
                },
                None => {},
            }
        } else {
            plain.push(c);
            at += count_bytes(c);
        }
    }
    assert(s.take(s.len() as int) =~= s);
    (plain, ranges)
}

/// Every range lies in the snippet it belongs to.
pub proof fn law_ranges_lie_in_the_snippet(s: Seq<char>)
    requires
        byte_len(s) <= usize::MAX,
    ensures
        forall|i: int|
            0 <= i < read_snippet(s).ranges.len() ==> {
                let r = #[trigger] read_snippet(s).ranges[i];
                r.start + r.len <= byte_len(read_snippet(s).plain)
            },
    decreases s.len(),
{
    if s.len() > 0 {
        let front = s.drop_last();
        lemma_byte_len_push(front, s.last());
        assert(front.push(s.last()) =~= s);
        law_ranges_lie_in_the_snippet(front);
        lemma_snippet_bounds(front);
        lemma_byte_len_push(read_snippet(front).plain, s.last());
        let was = read_snippet(front).ranges;
        let now = read_snippet(s).ranges;
        assert forall|i: int| 0 <= i < now.len() implies ({
            let r = #[trigger] now[i];
            r.start + r.len <= byte_len(read_snippet(s).plain)
        }) by {
            if i < was.len() {
                assert(now[i] == was[i]);
            }
        }
    }
}

/// A snippet with `terms` marked in it: each stands behind the text that comes
/// before it, and `tail` behind them all.
pub open spec fn marked(terms: Seq<(Seq<char>, Seq<char>)>, tail: Seq<char>) -> Seq<char>
    decreases terms.len(),
{
    if terms.len() == 0 {
        tail
    } else {
        marked(
            terms.drop_last(),
            terms.last().0 + seq![MATCH_MARK_START] + terms.last().1 + seq![MATCH_MARK_END] + tail,
        )
    }
}

/// The same text without marks.
pub open spec fn unmarked(terms: Seq<(Seq<char>, Seq<char>)>) -> Seq<char>
    decreases terms.len(),
{
    if terms.len() == 0 {
        Seq::empty()
    } else {
        unmarked(terms.drop_last()) + terms.last().0 + terms.last().1
    }
}

/// The text has no mark.
pub open spec fn markless(s: Seq<char>) -> bool {
    forall|i: int|
        0 <= i < s.len() ==> #[trigger] s[i] != MATCH_MARK_START && s[i] != MATCH_MARK_END
}

proof fn lemma_read_plain(a: Seq<char>, b: Seq<char>)
    requires
        markless(b),
    ensures
        read_snippet(a + b) == (SnippetView {
            plain: read_snippet(a).plain + b,
            ..read_snippet(a)
        }),
    decreases b.len(),
{
    if b.len() == 0 {
        assert(a + b =~= a);
        assert(read_snippet(a).plain + b =~= read_snippet(a).plain);
    } else {
        let front = b.drop_last();
        assert((a + b).drop_last() =~= a + front);
        assert(b[b.len() - 1] != MATCH_MARK_START);
        assert forall|i: int| 0 <= i < front.len() implies #[trigger] front[i] != MATCH_MARK_START
            && front[i] != MATCH_MARK_END by {
            assert(front[i] == b[i]);
        }
        lemma_read_plain(a, front);
        assert((read_snippet(a).plain + front).push(b.last()) =~= read_snippet(a).plain + b);
    }
}

proof fn lemma_utf8_split(a: Seq<char>, b: Seq<char>)
    ensures
        encode_utf8(a + b) == encode_utf8(a) + encode_utf8(b),
    decreases a.len(),
{
    if a.len() == 0 {
        assert(a + b =~= b);
        assert(encode_utf8(a) + encode_utf8(b) =~= encode_utf8(b));
    } else {
        assert((a + b).drop_first() =~= a.drop_first() + b);
        assert((a + b)[0] == a[0]);
        lemma_utf8_split(a.drop_first(), b);
        assert(encode_utf8(a + b) =~= encode_utf8(a) + encode_utf8(b));
    }
}

/// What was read of a snippet with these terms, before what comes behind them.
proof fn lemma_read_terms(terms: Seq<(Seq<char>, Seq<char>)>, tail: Seq<char>)
    requires
        markless(tail),
        forall|k: int|
            0 <= k < terms.len() ==> markless((#[trigger] terms[k]).0) && markless(terms[k].1),
    ensures
        exists|head: Seq<char>|
            marked(terms, tail) == head + tail && (#[trigger] read_snippet(head)).plain == unmarked(
                terms,
            ) && read_snippet(head).open is None && read_snippet(head).ranges == Seq::new(
                terms.len(),
                |k: int|
                    MatchRange {
                        start: encode_utf8(unmarked(terms.take(k)) + terms[k].0).len() as usize,
                        len: (encode_utf8(unmarked(terms.take(k)) + terms[k].0 + terms[k].1).len()
                            - encode_utf8(
                            unmarked(terms.take(k)) + terms[k].0,
                        ).len()) as usize,
                    },
            ),
    decreases terms.len(),
{
    let ranges = Seq::new(
        terms.len(),
        |k: int|
            MatchRange {
                start: encode_utf8(unmarked(terms.take(k)) + terms[k].0).len() as usize,
                len: (encode_utf8(unmarked(terms.take(k)) + terms[k].0 + terms[k].1).len()
                    - encode_utf8(unmarked(terms.take(k)) + terms[k].0).len()) as usize,
            },
    );
    if terms.len() == 0 {
        let head = Seq::<char>::empty();
        assert(head + tail =~= tail);
        assert(read_snippet(head).ranges =~= ranges);
        assert(read_snippet(head).plain =~= unmarked(terms));
    } else {
        let front = terms.drop_last();
        let n = terms.len() - 1;
        let (before, term) = terms[n];
        assert forall|k: int| 0 <= k < front.len() implies markless((#[trigger] front[k]).0)
            && markless(front[k].1) by {
            assert(front[k] == terms[k]);
        }
        lemma_read_terms(front, Seq::empty());
        let h = choose|h: Seq<char>|
            marked(front, Seq::empty()) == h + Seq::<char>::empty() && (#[trigger] read_snippet(
                h,
            )).plain == unmarked(front) && read_snippet(h).open is None && read_snippet(h).ranges
                == Seq::new(
                front.len(),
                |k: int|
                    MatchRange {
                        start: encode_utf8(unmarked(front.take(k)) + front[k].0).len() as usize,
                        len: (encode_utf8(unmarked(front.take(k)) + front[k].0 + front[k].1).len()
                            - encode_utf8(
                            unmarked(front.take(k)) + front[k].0,
                        ).len()) as usize,
                    },
            );
        assert(h + Seq::<char>::empty() =~= h);
        let a = h + before;
        let b = a.push(MATCH_MARK_START);
        let c = b + term;
        let head = c.push(MATCH_MARK_END);
        lemma_read_plain(h, before);
        assert(b.drop_last() =~= a);
        lemma_read_plain(b, term);
        assert(head.drop_last() =~= c);
        assert(head.last() == MATCH_MARK_END);
        assert(read_snippet(head).plain =~= unmarked(terms));
        let rest = before + seq![MATCH_MARK_START] + term + seq![MATCH_MARK_END] + tail;
        lemma_marked_split(front, rest);
        assert(marked(terms, tail) == h + rest);
        assert(h + rest =~= head + tail);
        assert(terms.take(n) =~= front);
        assert forall|k: int| 0 <= k < n implies read_snippet(h).ranges[k] == ranges[k] by {
            assert(front.take(k) =~= terms.take(k));
            assert(front[k] == terms[k]);
        }
        lemma_utf8_split(unmarked(front) + before, term);
        assert(read_snippet(head).ranges =~= ranges);
    }
}

proof fn lemma_marked_split(terms: Seq<(Seq<char>, Seq<char>)>, tail: Seq<char>)
    ensures
        marked(terms, tail) == marked(terms, Seq::empty()) + tail,
    decreases terms.len(),
{
    if terms.len() == 0 {
        assert(Seq::<char>::empty() + tail =~= tail);
    } else {
        let front = terms.drop_last();
        let piece = terms.last().0 + seq![MATCH_MARK_START] + terms.last().1 + seq![MATCH_MARK_END];
        lemma_marked_split(front, piece + tail);
        lemma_marked_split(front, piece + Seq::<char>::empty());
        assert(marked(front, Seq::empty()) + (piece + tail) =~= (marked(front, Seq::empty()) + (
        piece + Seq::<char>::empty())) + tail);
    }
}

/// Every term that is marked in a snippet is highlighted: there is one range for
/// each, in order, and it covers exactly the bytes of its term in the snippet,
/// which is the text without marks.
pub proof fn law_marked_terms_are_highlighted(
    terms: Seq<(Seq<char>, Seq<char>)>,
    tail: Seq<char>,
)
    requires
        markless(tail),
        forall|k: int|
            0 <= k < terms.len() ==> markless((#[trigger] terms[k]).0) && markless(terms[k].1),
        encode_utf8(unmarked(terms)).len() <= usize::MAX,
    ensures
        read_snippet(marked(terms, tail)).plain == unmarked(terms) + tail,
        read_snippet(marked(terms, tail)).ranges.len() == terms.len(),
        forall|k: int|
            0 <= k < terms.len() ==> {
                let r = #[trigger] read_snippet(marked(terms, tail)).ranges[k];
                let bytes = encode_utf8(unmarked(terms) + tail);
                &&& r.start == encode_utf8(unmarked(terms.take(k)) + terms[k].0).len()
                &&& r.len == encode_utf8(terms[k].1).len()
                &&& r.start + r.len <= bytes.len()
                &&& bytes.subrange(r.start as int, r.start + r.len) == encode_utf8(terms[k].1)
            },
{
    lemma_read_terms(terms, tail);
    let head = choose|head: Seq<char>|
        marked(terms, tail) == head + tail && (#[trigger] read_snippet(head)).plain == unmarked(
            terms,
        ) && read_snippet(head).open is None && read_snippet(head).ranges == Seq::new(
            terms.len(),
            |k: int|
                MatchRange {
                    start: encode_utf8(unmarked(terms.take(k)) + terms[k].0).len() as usize,
                    len: (encode_utf8(unmarked(terms.take(k)) + terms[k].0 + terms[k].1).len()
                        - encode_utf8(unmarked(terms.take(k)) + terms[k].0).len()) as usize,
                },
        );
    lemma_read_plain(head, tail);
    assert forall|k: int| 0 <= k < terms.len() implies ({
        let r = #[trigger] read_snippet(marked(terms, tail)).ranges[k];
        let bytes = encode_utf8(unmarked(terms) + tail);
        &&& r.start == encode_utf8(unmarked(terms.take(k)) + terms[k].0).len()
        &&& r.len == encode_utf8(terms[k].1).len()
        &&& r.start + r.len <= bytes.len()
        &&& bytes.subrange(r.start as int, r.start + r.len) == encode_utf8(terms[k].1)
    }) by {
        let before = unmarked(terms.take(k)) + terms[k].0;
        let rest = lemma_unmarked_from(terms, k);
        lemma_utf8_split(before, terms[k].1);
        lemma_utf8_split(before + terms[k].1, rest);
        lemma_utf8_split(unmarked(terms), tail);
        let bytes = encode_utf8(unmarked(terms) + tail);
        let n = encode_utf8(before).len() as int;
        let m = encode_utf8(terms[k].1).len() as int;
        assert(bytes.subrange(n, n + m) =~= encode_utf8(terms[k].1));
    }
}

/// The text behind a term.
proof fn lemma_unmarked_from(terms: Seq<(Seq<char>, Seq<char>)>, k: int) -> (rest: Seq<char>)
    requires
        0 <= k < terms.len(),
    ensures
        unmarked(terms) == unmarked(terms.take(k)) + terms[k].0 + terms[k].1 + rest,
    decreases terms.len(),
{
    let front = terms.drop_last();
    if k == terms.len() - 1 {
        assert(terms.take(k) =~= front);
        let rest = Seq::<char>::empty();
        assert(unmarked(terms) =~= unmarked(terms.take(k)) + terms[k].0 + terms[k].1 + rest);
        rest
    } else {
        let r = lemma_unmarked_from(front, k);
        assert(front.take(k) =~= terms.take(k));
        let rest = r + terms.last().0 + terms.last().1;
        assert(unmarked(terms) =~= unmarked(terms.take(k)) + terms[k].0 + terms[k].1 + rest);
        rest
    }
}

/// The text without its marks.
pub open spec fn without_marks(s: Seq<char>) -> Seq<char> {
    kept(s, |c: char| c != MATCH_MARK_START && c != MATCH_MARK_END)
}

/// Whatever its marks, a snippet shows the text without them.
pub proof fn law_snippet_drops_marks(s: Seq<char>)
    ensures
        read_snippet(s).plain == without_marks(s),
    decreases s.len(),
{
    if s.len() > 0 {
        law_snippet_drops_marks(s.drop_last());
    }
}

/// At `m` a start mark and at `e` an end mark stand, and none between them.
pub open spec fn marks_at(s: Seq<char>, m: int, e: int) -> bool {
    &&& 0 <= m < e < s.len()
    &&& s[m] == MATCH_MARK_START && s[e] == MATCH_MARK_END
    &&& forall|i: int|
        m < i < e ==> #[trigger] s[i] != MATCH_MARK_START && s[i] != MATCH_MARK_END
}

/// The last mark of the text is a start mark, at `m`.
spec fn opened_at(s: Seq<char>, m: int) -> bool {
    &&& 0 <= m < s.len()
    &&& s[m] == MATCH_MARK_START
    &&& forall|i: int|
        m < i < s.len() ==> #[trigger] s[i] != MATCH_MARK_START && s[i] != MATCH_MARK_END
}

/// The range between two marks, in bytes of the text without marks.
pub open spec fn range_between(s: Seq<char>, r: MatchRange, m: int, e: int) -> bool {
    &&& r.start == encode_utf8(without_marks(s.take(m))).len()
    &&& r.start + r.len == encode_utf8(without_marks(s.take(e))).len()
}

proof fn lemma_marks_read(s: Seq<char>) -> (at: Seq<(int, int)>)
    requires
        byte_len(s) <= usize::MAX,
    ensures
        at.len() == read_snippet(s).ranges.len(),
        forall|k: int|
            0 <= k < at.len() ==> marks_at(s, (#[trigger] at[k]).0, at[k].1) && range_between(
                s,
                read_snippet(s).ranges[k],
                at[k].0,
                at[k].1,
            ),
        forall|k: int, m: int|
            0 <= k < m < at.len() ==> (#[trigger] at[k]).1 < (#[trigger] at[m]).0,
        forall|m: int, e: int| #[trigger] marks_at(s, m, e) ==> at.contains((m, e)),
        read_snippet(s).open is Some <==> exists|m: int| #[trigger] opened_at(s, m),
        forall|m: int| #[trigger]
            opened_at(s, m) ==> read_snippet(s).open == Some(byte_len(without_marks(s.take(m))))
                && (forall|k: int| 0 <= k < at.len() ==> (#[trigger] at[k]).1 < m),
        read_snippet(s).plain == without_marks(s),
    decreases s.len(),
{
    law_snippet_drops_marks(s);
    if s.len() == 0 {
        Seq::empty()
    } else {
        let front = s.drop_last();
        let n = s.len() - 1;
        let c = s.last();
        assert(front.push(c) =~= s);
        lemma_byte_len_push(front, c);
        let was = lemma_marks_read(front);
        assert forall|i: int| 0 <= i < n implies #[trigger] s[i] == front[i] by {
        }
        assert forall|i: int| 0 <= i <= n implies #[trigger] s.take(i) == front.take(i) by {
            assert(s.take(i) =~= front.take(i));
        }
        assert(front.take(n) =~= front);
        assert forall|m: int, e: int| 0 <= e < n implies marks_at(s, m, e) == #[trigger] marks_at(
            front,
            m,
            e,
        ) by {
            if marks_at(s, m, e) {
                assert forall|i: int| m < i < e implies #[trigger] front[i] != MATCH_MARK_START
                    && front[i] != MATCH_MARK_END by {
                    assert(s[i] == front[i]);
                }
            }
            if marks_at(front, m, e) {
                assert forall|i: int| m < i < e implies #[trigger] s[i] != MATCH_MARK_START && s[i]
                    != MATCH_MARK_END by {
                    assert(s[i] == front[i]);
                }
            }
        }
        assert forall|m: int| c == MATCH_MARK_END implies marks_at(s, m, n) == #[trigger] opened_at(
            front,
            m,
        ) by {
            if marks_at(s, m, n) {
                assert forall|i: int| m < i < n implies #[trigger] front[i] != MATCH_MARK_START
                    && front[i] != MATCH_MARK_END by {
                    assert(s[i] == front[i]);
                }
            }
            if opened_at(front, m) {
                assert forall|i: int| m < i < n implies #[trigger] s[i] != MATCH_MARK_START && s[i]
                    != MATCH_MARK_END by {
                    assert(s[i] == front[i]);
                }
            }
        }
        assert forall|m: int|
            c != MATCH_MARK_START && c != MATCH_MARK_END implies #[trigger] opened_at(s, m)
            == opened_at(front, m) by {
            if opened_at(s, m) {
                assert forall|i: int| m < i < n implies #[trigger] front[i] != MATCH_MARK_START
                    && front[i] != MATCH_MARK_END by {
                    assert(s[i] == front[i]);
                }
            }
        }
        let old = read_snippet(front);
        if c == MATCH_MARK_END && old.open is Some {
            let m = choose|m: int| #[trigger] opened_at(front, m);
            let at = was.push((m, n));
            lemma_marks_closed(s, front, was, m);
            at
        } else if c == MATCH_MARK_START {
            assert(opened_at(s, n));
            assert forall|m: int| #[trigger] opened_at(s, m) implies m == n by {
                if m < n {
                    assert(s[n] == MATCH_MARK_START);
                }
            }
            assert forall|k: int| 0 <= k < was.len() implies marks_at(
                s,
                (#[trigger] was[k]).0,
                was[k].1,
            ) && range_between(s, read_snippet(s).ranges[k], was[k].0, was[k].1) by {
                assert(marks_at(front, was[k].0, was[k].1));
                assert(s.take(was[k].0) == front.take(was[k].0));
                assert(s.take(was[k].1) == front.take(was[k].1));
            }
            assert forall|m: int, e: int| #[trigger] marks_at(s, m, e) implies was.contains(
                (m, e),
            ) by {
                assert(e < n);
                assert(marks_at(front, m, e));
            }
            was
        } else {
            assert forall|k: int| 0 <= k < was.len() implies marks_at(
                s,
                (#[trigger] was[k]).0,
                was[k].1,
            ) && range_between(s, read_snippet(s).ranges[k], was[k].0, was[k].1) by {
                assert(marks_at(front, was[k].0, was[k].1));
                assert(s.take(was[k].0) == front.take(was[k].0));
                assert(s.take(was[k].1) == front.take(was[k].1));
            }
            assert forall|m: int, e: int| #[trigger] marks_at(s, m, e) implies was.contains(
                (m, e),
            ) by {
                if e == n {
                    assert(opened_at(front, m));
                }
                assert(marks_at(front, m, e));
            }
            if c == MATCH_MARK_END {
                assert forall|m: int| !#[trigger] opened_at(s, m) by {
                    if opened_at(s, m) {
                        assert(s[n] == MATCH_MARK_END);
                    }
                }
            } else {
                assert forall|m: int| #[trigger] opened_at(s, m) implies read_snippet(s).open
                    == Some(byte_len(without_marks(s.take(m)))) && (forall|k: int|
                    0 <= k < was.len() ==> (#[trigger] was[k]).1 < m) by {
                    assert(opened_at(front, m));
                    assert(s.take(m) == front.take(m));
                }
                if old.open is Some {
                    let m = choose|m: int| #[trigger] opened_at(front, m);
                    assert(opened_at(s, m));
                }
            }
            was
        }
    }
}

proof fn lemma_marks_closed(s: Seq<char>, front: Seq<char>, was: Seq<(int, int)>, m: int)
    requires
        s.len() > 0,
        front == s.drop_last(),
        s.last() == MATCH_MARK_END,
        byte_len(s) <= usize::MAX,
        byte_len(front) <= usize::MAX,
        opened_at(front, m),
        marks_at(s, m, s.len() - 1),
        read_snippet(front).open == Some(byte_len(without_marks(front.take(m)))),
        read_snippet(front).plain == without_marks(front),
        was.len() == read_snippet(front).ranges.len(),
        forall|k: int|
            0 <= k < was.len() ==> marks_at(front, (#[trigger] was[k]).0, was[k].1)
                && range_between(front, read_snippet(front).ranges[k], was[k].0, was[k].1),
        forall|k: int, j: int|
            0 <= k < j < was.len() ==> (#[trigger] was[k]).1 < (#[trigger] was[j]).0,
        forall|k: int| 0 <= k < was.len() ==> (#[trigger] was[k]).1 < m,
        forall|x: int, e: int| #[trigger] marks_at(front, x, e) ==> was.contains((x, e)),
        forall|x: int, e: int|
            0 <= e < s.len() - 1 ==> marks_at(s, x, e) == #[trigger] marks_at(front, x, e),
        forall|i: int| 0 <= i < s.len() ==> #[trigger] s.take(i) == front.take(i),
    ensures
        ({
            let at = was.push((m, s.len() - 1));
            &&& at.len() == read_snippet(s).ranges.len()
            &&& forall|k: int|
                0 <= k < at.len() ==> marks_at(s, (#[trigger] at[k]).0, at[k].1) && range_between(
                    s,
                    read_snippet(s).ranges[k],
                    at[k].0,
                    at[k].1,
                )
            &&& forall|k: int, j: int|
                0 <= k < j < at.len() ==> (#[trigger] at[k]).1 < (#[trigger] at[j]).0
            &&& forall|x: int, e: int| #[trigger] marks_at(s, x, e) ==> at.contains((x, e))
            &&& read_snippet(s).open is None
            &&& forall|x: int| !#[trigger] opened_at(s, x)
        }),
{
    let n = s.len() - 1;
    let at = was.push((m, n));
    let all = read_snippet(s).ranges;
    let old = read_snippet(front);
    assert(front.take(n) =~= front);
    assert(s.take(n) == front);
    lemma_snippet_bounds(front);
    assert forall|k: int| 0 <= k < at.len() implies marks_at(s, (#[trigger] at[k]).0, at[k].1)
        && range_between(s, all[k], at[k].0, at[k].1) by {
        if k < was.len() {
            assert(at[k] == was[k]);
            assert(marks_at(front, was[k].0, was[k].1));
            assert(all[k] == old.ranges[k]);
            assert(s.take(was[k].0) == front.take(was[k].0));
            assert(s.take(was[k].1) == front.take(was[k].1));
        } else {
            assert(s.take(m) == front.take(m));
        }
    }
    assert forall|x: int, e: int| #[trigger] marks_at(s, x, e) implies at.contains((x, e)) by {
        if e < n {
            assert(marks_at(front, x, e));
            let k = choose|k: int| 0 <= k < was.len() && was[k] == (x, e);
            assert(at[k] == (x, e));
        } else {
            if x < m {
                assert(s[m] == MATCH_MARK_START);
            } else if x > m {
                assert(front[x] == s[x]);
            }
            assert(at[was.len() as int] == (m, n));
        }
    }
    assert forall|x: int| !#[trigger] opened_at(s, x) by {
        if opened_at(s, x) {
            assert(s[n] == MATCH_MARK_END);
        }
    }
}

/// In any snippet, a start mark and an end mark with none between them highlight
/// the text between them, and nothing else is highlighted: there is one range for
/// each such pair, in order, which covers the bytes between its marks.
pub proof fn law_marks_highlight(s: Seq<char>) -> (at: Seq<(int, int)>)
    requires
        encode_utf8(s).len() <= usize::MAX,
    ensures
        at.len() == read_snippet(s).ranges.len(),
        forall|k: int|
            0 <= k < at.len() ==> marks_at(s, (#[trigger] at[k]).0, at[k].1) && range_between(
                s,
                read_snippet(s).ranges[k],
                at[k].0,
                at[k].1,
            ),
        forall|k: int, m: int|
            0 <= k < m < at.len() ==> (#[trigger] at[k]).1 < (#[trigger] at[m]).0,
        forall|m: int, e: int| #[trigger] marks_at(s, m, e) ==> at.contains((m, e)),
{
    lemma_marks_read(s)
}

} // verus!
