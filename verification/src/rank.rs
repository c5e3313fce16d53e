//! Stable sorting of rows by an order on what they hold.

use vstd::prelude::*;

use crate::rows::{
    kept, law_kept_all, law_kept_lists, law_kept_split, lemma_take_step, limited, lists_exactly,
    pairwise, seen,
};

verus! {

/// An order on the rows of a table. `before` is a strict weak order: rows of
/// which neither comes before the other are tied.
pub trait RowOrder<T: View> {
    spec fn before(a: T::V, b: T::V) -> bool;

    proof fn asymmetric(a: T::V, b: T::V)
        ensures
            !(Self::before(a, b) && Self::before(b, a)),
    ;

    proof fn negatively_transitive(a: T::V, b: T::V, c: T::V)
        ensures
            Self::before(a, c) ==> Self::before(a, b) || Self::before(b, c),
    ;

    fn is_before(a: &T, b: &T) -> (r: bool)
        ensures
            r == Self::before(a@, b@),
    ;
}

/// What the rows behind the references hold.
pub open spec fn views<T: View>(rows: Seq<&T>) -> Seq<T::V> {
    Seq::new(rows.len(), |i: int| rows[i]@)
}

/// No row stands before one that must come before it.
pub open spec fn in_order<T: View, O: RowOrder<T>>(s: Seq<T::V>) -> bool {
    forall|i: int, j: int| 0 <= i < j < s.len() ==> !O::before(#[trigger] s[j], #[trigger] s[i])
}

/// Where `x` goes among the rows of `s`: behind every row that it need not
/// precede.
pub open spec fn slot<T: View, O: RowOrder<T>>(s: Seq<T::V>, x: T::V) -> int
    decreases s.len(),
{
    if s.len() == 0 {
        0
    } else if O::before(x, s.last()) {
        slot::<T, O>(s.drop_last(), x)
    } else {
        s.len() as int
    }
}

/// The rows of `s` in the order `O`, tied rows as they came.
pub open spec fn ranked<T: View, O: RowOrder<T>>(s: Seq<T::V>) -> Seq<T::V>
    decreases s.len(),
{
    if s.len() == 0 {
        Seq::empty()
    } else {
        let rest = ranked::<T, O>(s.drop_last());
        rest.insert(slot::<T, O>(rest, s.last()), s.last())
    }
}

proof fn lemma_slot<T: View, O: RowOrder<T>>(s: Seq<T::V>, x: T::V)
    ensures
        0 <= slot::<T, O>(s, x) <= s.len(),
        slot::<T, O>(s, x) > 0 ==> !O::before(x, s[slot::<T, O>(s, x) - 1]),
        forall|i: int| slot::<T, O>(s, x) <= i < s.len() ==> O::before(x, #[trigger] s[i]),
    decreases s.len(),
{
    if s.len() > 0 && O::before(x, s.last()) {
        lemma_slot::<T, O>(s.drop_last(), x);
        assert forall|i: int| slot::<T, O>(s, x) <= i < s.len() implies O::before(
            x,
            #[trigger] s[i],
        ) by {
            if i < s.len() - 1 {
                assert(s.drop_last()[i] == s[i]);
            }
        }
    }
}

/// Sorting puts the rows in order.
pub proof fn law_ranked_in_order<T: View, O: RowOrder<T>>(s: Seq<T::V>)
    ensures
        in_order::<T, O>(ranked::<T, O>(s)),
    decreases s.len(),
{
    if s.len() > 0 {
        let rest = ranked::<T, O>(s.drop_last());
        let x = s.last();
        let p = slot::<T, O>(rest, x);
        law_ranked_in_order::<T, O>(s.drop_last());
        lemma_slot::<T, O>(rest, x);
        let out = rest.insert(p, x);
        assert forall|i: int, j: int| 0 <= i < j < out.len() implies !O::before(
            #[trigger] out[j],
            #[trigger] out[i],
        ) by {
            if j < p {
                assert(out[j] == rest[j] && out[i] == rest[i]);
            } else if j == p {
                // `x` is not before `rest[p - 1]`, which is not before `rest[i]`.
                O::negatively_transitive(x, rest[p - 1], rest[i]);
            } else if i == p {
                O::asymmetric(x, rest[j - 1]);
            } else if i < p {
                assert(out[j] == rest[j - 1] && out[i] == rest[i]);
            } else {
                assert(out[j] == rest[j - 1] && out[i] == rest[i - 1]);
            }
        }
    }
}

/// Sorting keeps every row, as often as it was there, and adds none.
pub proof fn law_ranked_permutes<T: View, O: RowOrder<T>>(s: Seq<T::V>)
    ensures
        ranked::<T, O>(s).len() == s.len(),
        ranked::<T, O>(s).to_multiset() == s.to_multiset(),
    decreases s.len(),
{
    broadcast use vstd::seq_lib::group_to_multiset_ensures;

    if s.len() > 0 {
        let rest = ranked::<T, O>(s.drop_last());
        law_ranked_permutes::<T, O>(s.drop_last());
        lemma_slot::<T, O>(rest, s.last());
        vstd::seq_lib::to_multiset_insert(rest, slot::<T, O>(rest, s.last()), s.last());
        assert(s =~= s.drop_last().push(s.last()));
    }
}

/// A row is among the sorted rows if and only if it was among the rows.
pub proof fn law_ranked_contains<T: View, O: RowOrder<T>>(s: Seq<T::V>, x: T::V)
    ensures
        ranked::<T, O>(s).contains(x) == s.contains(x),
{
    broadcast use vstd::seq_lib::group_to_multiset_ensures;

    law_ranked_permutes::<T, O>(s);
    assert(ranked::<T, O>(s).contains(x) == (ranked::<T, O>(s).to_multiset().count(x) > 0));
    assert(s.contains(x) == (s.to_multiset().count(x) > 0));
}

/// Sorting leaves rows that are in order as they are.
pub proof fn law_ranked_sorted<T: View, O: RowOrder<T>>(s: Seq<T::V>)
    requires
        in_order::<T, O>(s),
    ensures
        ranked::<T, O>(s) == s,
    decreases s.len(),
{
    if s.len() > 0 {
        let front = s.drop_last();
        assert forall|i: int, j: int| 0 <= i < j < front.len() implies !O::before(
            #[trigger] front[j],
            #[trigger] front[i],
        ) by {
            assert(!O::before(s[j], s[i]));
        }
        law_ranked_sorted::<T, O>(front);
        if front.len() > 0 {
            assert(front.last() == s[s.len() - 2]);
            assert(!O::before(s[s.len() - 1], s[s.len() - 2]));
        }
        assert(front.insert(front.len() as int, s.last()) =~= s);
    }
}

proof fn lemma_slot_found<T: View, O: RowOrder<T>>(s: Seq<T::V>, x: T::V, p: int)
    requires
        0 <= p <= s.len(),
        p > 0 ==> !O::before(x, s[p - 1]),
        forall|i: int| p <= i < s.len() ==> O::before(x, #[trigger] s[i]),
    ensures
        slot::<T, O>(s, x) == p,
{
    lemma_slot::<T, O>(s, x);
    let q = slot::<T, O>(s, x);
    if q < p {
        assert(O::before(x, s[p - 1]));
    }
    if p < q {
        assert(O::before(x, s[q - 1]));
    }
}

/// Where to put `x` among the sorted rows `rows`.
fn find_slot<T: View, O: RowOrder<T>>(rows: &Vec<&T>, x: &T) -> (p: usize)
    requires
        in_order::<T, O>(views(rows@)),
    ensures
        p == slot::<T, O>(views(rows@), x@),
        p <= rows@.len(),
{
    let ghost s = views(rows@);
    let mut lo: usize = 0;
    let mut hi: usize = rows.len();
    while lo < hi
        invariant
            s == views(rows@),
            in_order::<T, O>(s),
            0 <= lo <= hi <= rows@.len(),
            lo > 0 ==> !O::before(x@, s[lo - 1]),
            forall|i: int| hi <= i < s.len() ==> O::before(x@, #[trigger] s[i]),
        decreases hi - lo,
    {
        let mid: usize = lo + (hi - lo) / 2;
        let earlier = O::is_before(x, rows[mid]);
        assert(s[mid as int] == rows@[mid as int]@);
        if earlier {
            proof {
                assert forall|i: int| mid <= i < s.len() implies O::before(x@, #[trigger] s[i]) by {
                    if i > mid {
                        O::negatively_transitive(x@, s[i], s[mid as int]);
                    }
                }
            }
            hi = mid;
        } else {
            lo = mid + 1;
        }
    }
    proof {
        lemma_slot_found::<T, O>(s, x@, lo as int);
    }
    lo
}

/// Sorts the rows stably.
pub fn rank<'a, T: View, O: RowOrder<T>>(rows: &Vec<&'a T>) -> (out: Vec<&'a T>)
    ensures
        out@.len() == rows@.len(),
        views(out@) == ranked::<T, O>(views(rows@)),
{
    let mut out: Vec<&'a T> = Vec::new();
    let mut i: usize = 0;
    let ghost s = views(rows@);
    assert(views(out@) =~= ranked::<T, O>(s.take(0)));
    while i < rows.len()
        invariant
            0 <= i <= rows@.len(),
            s == views(rows@),
            out@.len() == i,
            views(out@) == ranked::<T, O>(s.take(i as int)),
        decreases rows.len() - i,
    {
        proof {
            law_ranked_in_order::<T, O>(s.take(i as int));
        }
        let p = find_slot::<T, O>(&out, rows[i]);
        let ghost before = out@;
        out.insert(p, rows[i]);
        proof {
            let done = s.take(i + 1);
            assert(done.drop_last() =~= s.take(i as int));
            assert(done.last() == rows@[i as int]@);
            assert(views(out@) =~= views(before).insert(p as int, rows@[i as int]@));
        }
        i += 1;
    }
    assert(s.take(rows@.len() as int) =~= s);
    out
}

/// What holds between any two rows, whichever comes first, holds between the
/// sorted rows.
pub proof fn law_ranked_pairwise<T: View, O: RowOrder<T>>(
    s: Seq<T::V>,
    r: spec_fn(T::V, T::V) -> bool,
)
    requires
        pairwise(s, r),
        forall|a: T::V, b: T::V| #[trigger] r(a, b) == r(b, a),
    ensures
        pairwise(ranked::<T, O>(s), r),
    decreases s.len(),
{
    if s.len() > 0 {
        let front = s.drop_last();
        let rest = ranked::<T, O>(front);
        let x = s.last();
        assert forall|i: int, j: int| 0 <= i < j < front.len() implies r(
            #[trigger] front[i],
            #[trigger] front[j],
        ) by {
            assert(r(s[i], s[j]));
        }
        law_ranked_pairwise::<T, O>(front, r);
        law_ranked_permutes::<T, O>(front);
        let p = slot::<T, O>(rest, x);
        lemma_slot::<T, O>(rest, x);
        let out = rest.insert(p, x);
        assert forall|k: int| 0 <= k < rest.len() implies r(#[trigger] rest[k], x) by {
            law_ranked_contains::<T, O>(front, rest[k]);
            assert(rest.contains(rest[k]));
            let i = choose|i: int| 0 <= i < front.len() && front[i] == rest[k];
            assert(r(s[i], s[s.len() - 1]));
        }
        assert forall|i: int, j: int| 0 <= i < j < out.len() implies r(
            #[trigger] out[i],
            #[trigger] out[j],
        ) by {
            if j < p {
                assert(r(rest[i], rest[j]));
            } else if j == p {
                assert(r(rest[i], x));
            } else if i == p {
                assert(r(rest[j - 1], x));
                assert(r(x, rest[j - 1]) == r(rest[j - 1], x));
            } else if i < p {
                assert(r(rest[i], rest[j - 1]));
            } else {
                assert(r(rest[i - 1], rest[j - 1]));
            }
        }
    }
}

/// Sorting and dropping rows can be done in either order.
pub proof fn law_ranked_kept<T: View, O: RowOrder<T>>(s: Seq<T::V>, q: spec_fn(T::V) -> bool)
    ensures
        kept(ranked::<T, O>(s), q) == ranked::<T, O>(kept(s, q)),
    decreases s.len(),
{
    if s.len() > 0 {
        let front = s.drop_last();
        let rest = ranked::<T, O>(front);
        let x = s.last();
        law_ranked_kept::<T, O>(front, q);
        law_ranked_in_order::<T, O>(front);
        lemma_slot::<T, O>(rest, x);
        let p = slot::<T, O>(rest, x);
        let a = rest.take(p);
        let b = rest.skip(p);
        assert(rest =~= a + b);
        assert(rest.insert(p, x) =~= (a + seq![x]) + b);
        law_kept_split(a, b, q);
        law_kept_split(a + seq![x], b, q);
        law_kept_split(a, seq![x], q);
        let one = seq![x];
        assert(one.drop_last() =~= Seq::empty());
        assert(kept(one.drop_last(), q) == Seq::<T::V>::empty());
        assert(one.last() == x);
        assert(kept(one, q) =~= (if q(x) {
            one
        } else {
            Seq::empty()
        }));
        let ka = kept(a, q);
        let kb = kept(b, q);
        if q(x) {
            let k = ka + kb;
            law_kept_all(a, q);
            law_kept_all(b, q);
            if ka.len() > 0 {
                let e = ka[ka.len() - 1];
                let i = choose|i: int| 0 <= i < a.len() && a[i] == e;
                if i < p - 1 {
                    O::negatively_transitive(x, rest[p - 1], rest[i]);
                }
            }
            assert forall|i: int| ka.len() <= i < k.len() implies O::before(x, #[trigger] k[i]) by {
                let e = kb[i - ka.len()];
                let m = choose|m: int| 0 <= m < b.len() && b[m] == e;
                assert(rest[p + m] == e);
            }
            lemma_slot_found::<T, O>(k, x, ka.len() as int);
            assert(kept(rest.insert(p, x), q) =~= k.insert(ka.len() as int, x));
            assert(kept(s, q).drop_last() =~= kept(front, q));
        } else {
            assert(kept(rest.insert(p, x), q) =~= ka + kb);
        }
    }
}

/// The rows that meet the condition, in their order. `keep` decides it for a
/// row, `p` states it.
pub(crate) fn select<'a, T: View, F: Fn(&T) -> bool>(
    rows: &'a Vec<T>,
    keep: F,
    Ghost(p): Ghost<spec_fn(T::V) -> bool>,
) -> (out: Vec<&'a T>)
    requires
        forall|x: &T| #[trigger] keep.requires((x,)),
        forall|x: &T, r: bool| #[trigger] keep.ensures((x,), r) ==> r == p(x@),
    ensures
        views(out@) == kept(seen(rows@), p),
{
    let ghost all = seen(rows@);
    let mut out: Vec<&'a T> = Vec::new();
    assert(views(out@) =~= kept(all.take(0), p));
    let mut i: usize = 0;
    while i < rows.len()
        invariant
            i <= rows@.len(),
            all == seen(rows@),
            views(out@) == kept(all.take(i as int), p),
            forall|x: &T| #[trigger] keep.requires((x,)),
            forall|x: &T, r: bool| #[trigger] keep.ensures((x,), r) ==> r == p(x@),
        decreases rows.len() - i,
    {
        proof {
            lemma_take_step(all, p, i as int);
        }
        let ghost before = out@;
        if keep(&rows[i]) {
            out.push(&rows[i]);
            assert(views(out@) =~= views(before).push(rows@[i as int]@));
        }
        i += 1;
    }
    assert(all.take(all.len() as int) =~= all);
    out
}

/// Keeps at most the first `limit` rows.
pub(crate) fn cut<'a, T: View>(rows: &mut Vec<&'a T>, limit: usize)
    ensures
        views(final(rows)@) == limited(views(old(rows)@), limit as nat),
{
    let ghost before = rows@;
    if limit < rows.len() {
        rows.truncate(limit);
        assert(views(rows@) =~= views(before).take(limit as int));
    }
}

/// Ranking lists every row once, in order, and those of which neither comes
/// before the other as they stand.
pub proof fn law_ranked_lists<T: View, O: RowOrder<T>>(s: Seq<T::V>) -> (at: Seq<int>)
    ensures
        lists_exactly(
            ranked::<T, O>(s),
            s,
            |row: T::V| true,
            |a: T::V, b: T::V| O::before(a, b),
            at,
        ),
    decreases s.len(),
{
    let all = |row: T::V| true;
    let before = |a: T::V, b: T::V| O::before(a, b);
    if s.len() == 0 {
        let at = Seq::<int>::empty();
        assert(lists_exactly(ranked::<T, O>(s), s, all, before, at));
        at
    } else {
        let front = s.drop_last();
        let rest = ranked::<T, O>(front);
        let x = s.last();
        let n = s.len() - 1;
        let was = law_ranked_lists::<T, O>(front);
        let p = slot::<T, O>(rest, x);
        lemma_slot::<T, O>(rest, x);
        law_ranked_in_order::<T, O>(s);
        let out = rest.insert(p, x);
        let at = was.insert(p, n);
        assert forall|k: int| 0 <= k < at.len() implies 0 <= #[trigger] at[k] < s.len() && out[k]
            == s[at[k]] by {
            if k < p {
                assert(at[k] == was[k]);
            } else if k > p {
                assert(at[k] == was[k - 1]);
            }
        }
        assert forall|i: int| 0 <= i < s.len() && all(#[trigger] s[i]) implies at.contains(i) by {
            if i < n {
                assert(all(front[i]));
                let k = choose|k: int| 0 <= k < was.len() && was[k] == i;
                if k < p {
                    assert(at[k] == i);
                } else {
                    assert(at[k + 1] == i);
                }
            } else {
                assert(at[p] == n);
            }
        }
        assert forall|k: int, m: int| 0 <= k < m < at.len() implies #[trigger] at[k]
            != #[trigger] at[m] && (before(out[k], out[m]) || (!before(out[m], out[k]) && at[k]
            < at[m])) by {
            assert(!O::before(out[m], out[k]));
            let k1 = if k < p {
                k
            } else {
                k - 1
            };
            let m1 = if m < p {
                m
            } else {
                m - 1
            };
            if k == p {
                assert(at[m] == was[m1]);
                assert(O::before(x, rest[m1]));
            } else if m == p {
                assert(at[k] == was[k]);
            } else {
                assert(at[k] == was[k1] && at[m] == was[m1]);
                assert(was[k1] != was[m1]);
            }
        }
        at
    }
}

/// Ranking what is kept lists exactly the rows that meet the condition, in order.
pub proof fn law_ranked_kept_lists<T: View, O: RowOrder<T>>(
    rows: Seq<T::V>,
    p: spec_fn(T::V) -> bool,
) -> (at: Seq<int>)
    ensures
        lists_exactly(
            ranked::<T, O>(kept(rows, p)),
            rows,
            p,
            |a: T::V, b: T::V| O::before(a, b),
            at,
        ),
{
    let before = |a: T::V, b: T::V| O::before(a, b);
    let some = kept(rows, p);
    let all = |row: T::V| true;
    let from = law_kept_lists(rows, p);
    let to = law_ranked_lists::<T, O>(some);
    let out = ranked::<T, O>(some);
    let at = Seq::new(to.len(), |k: int| from[to[k]]);
    assert forall|k: int| 0 <= k < at.len() implies 0 <= #[trigger] at[k] < rows.len() && out[k]
        == rows[at[k]] && p(rows[at[k]]) by {
        assert(0 <= to[k] < some.len());
        assert(0 <= from[to[k]] < rows.len());
    }
    assert forall|i: int| 0 <= i < rows.len() && p(#[trigger] rows[i]) implies at.contains(i) by {
        let j = choose|j: int| 0 <= j < from.len() && from[j] == i;
        assert(all(some[j]));
        let k = choose|k: int| 0 <= k < to.len() && to[k] == j;
        assert(at[k] == i);
    }
    assert forall|k: int, m: int| 0 <= k < m < at.len() implies #[trigger] at[k] != #[trigger] at[m]
        && (before(out[k], out[m]) || (!before(out[m], out[k]) && at[k] < at[m])) by {
        assert(to[k] != to[m]);
        assert(0 <= to[k] < some.len() && 0 <= to[m] < some.len());
        if to[k] < to[m] {
            assert(from[to[k]] != from[to[m]] && from[to[k]] < from[to[m]]);
        } else {
            assert(from[to[m]] != from[to[k]]);
        }
    }
    at
}

} // verus!
