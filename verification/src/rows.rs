//! Tables as sequences of rows: what a row that meets a condition is, how many
//! there are, and which are left when those that fail it go.

use vstd::prelude::*;

verus! {

/// What the rows of a table hold.
pub open spec fn seen<T: View>(rows: Seq<T>) -> Seq<T::V> {
    Seq::new(rows.len(), |i: int| rows[i]@)
}

/// The first row that meets the condition.
pub open spec fn first_where<V>(rows: Seq<V>, p: spec_fn(V) -> bool) -> Option<V>
    decreases rows.len(),
{
    if rows.len() == 0 {
        None
    } else {
        match first_where(rows.drop_last(), p) {
            Some(row) => Some(row),
            None => if p(rows.last()) {
                Some(rows.last())
            } else {
                None
            },
        }
    }
}

/// Some row meets the condition.
pub open spec fn any_where<V>(rows: Seq<V>, p: spec_fn(V) -> bool) -> bool {
    exists|i: int| 0 <= i < rows.len() && p(#[trigger] rows[i])
}

/// The rows that meet the condition, in their order.
pub open spec fn kept<V>(rows: Seq<V>, p: spec_fn(V) -> bool) -> Seq<V>
    decreases rows.len(),
{
    if rows.len() == 0 {
        Seq::empty()
    } else if p(rows.last()) {
        kept(rows.drop_last(), p).push(rows.last())
    } else {
        kept(rows.drop_last(), p)
    }
}

/// At most the first `limit` rows.
pub open spec fn limited<V>(rows: Seq<V>, limit: nat) -> Seq<V> {
    if limit < rows.len() {
        rows.take(limit as int)
    } else {
        rows
    }
}

/// What the first row that meets a condition is, and when there is none.
pub proof fn law_first_where<V>(rows: Seq<V>, p: spec_fn(V) -> bool)
    ensures
        match first_where(rows, p) {
            Some(row) => p(row) && rows.contains(row),
            None => forall|i: int| 0 <= i < rows.len() ==> !p(#[trigger] rows[i]),
        },
        first_where(rows, p) is Some <==> any_where(rows, p),
    decreases rows.len(),
{
    if rows.len() > 0 {
        law_first_where(rows.drop_last(), p);
        match first_where(rows.drop_last(), p) {
            Some(row) => {
                let i = choose|i: int|
                    0 <= i < rows.drop_last().len() && rows.drop_last()[i] == row;
                assert(rows[i] == row);
            },
            None => {
                assert forall|i: int| 0 <= i < rows.len() - 1 implies !p(#[trigger] rows[i]) by {
                    assert(rows.drop_last()[i] == rows[i]);
                }
            },
        }
    }
}

/// A row is kept if and only if it is there and meets the condition.
pub proof fn law_kept_contains<V>(rows: Seq<V>, p: spec_fn(V) -> bool, x: V)
    ensures
        kept(rows, p).contains(x) <==> rows.contains(x) && p(x),
    decreases rows.len(),
{
    if rows.len() > 0 {
        let rest = rows.drop_last();
        law_kept_contains(rest, p, x);
        assert(rows =~= rest.push(rows.last()));
        assert(rows.contains(x) <==> rest.contains(x) || x == rows.last()) by {
            if rest.contains(x) {
                let i = choose|i: int| 0 <= i < rest.len() && rest[i] == x;
                assert(rows[i] == x);
            }
            if x == rows.last() {
                assert(rows[rows.len() - 1] == x);
            }
            if rows.contains(x) {
                let i = choose|i: int| 0 <= i < rows.len() && rows[i] == x;
                if i < rest.len() {
                    assert(rest[i] == x);
                }
            }
        }
        if p(rows.last()) {
            let k = kept(rest, p);
            let out = k.push(rows.last());
            if k.contains(x) {
                let i = choose|i: int| 0 <= i < k.len() && k[i] == x;
                assert(out[i] == x);
            }
            assert(out[out.len() - 1] == rows.last());
            if out.contains(x) {
                let i = choose|i: int| 0 <= i < out.len() && out[i] == x;
                if i < k.len() {
                    assert(k[i] == x);
                }
            }
        }
    }
}

/// No more rows are kept than there are.
pub proof fn law_kept_len<V>(rows: Seq<V>, p: spec_fn(V) -> bool)
    ensures
        kept(rows, p).len() <= rows.len(),
    decreases rows.len(),
{
    if rows.len() > 0 {
        law_kept_len(rows.drop_last(), p);
    }
}

/// Where each kept row stood.
pub proof fn law_kept_all<V>(rows: Seq<V>, p: spec_fn(V) -> bool)
    ensures
        forall|i: int|
            0 <= i < kept(rows, p).len() ==> p(#[trigger] kept(rows, p)[i]) && rows.contains(
                kept(rows, p)[i],
            ),
{
    assert forall|i: int| 0 <= i < kept(rows, p).len() implies p(#[trigger] kept(rows, p)[i])
        && rows.contains(kept(rows, p)[i]) by {
        law_kept_contains(rows, p, kept(rows, p)[i]);
    }
}

/// A condition that holds of every row keeps them all.
pub proof fn law_kept_everything<V>(rows: Seq<V>)
    ensures
        kept(rows, |row: V| true) == rows,
    decreases rows.len(),
{
    if rows.len() > 0 {
        law_kept_everything(rows.drop_last());
        assert(rows =~= rows.drop_last().push(rows.last()));
    }
}

/// The rows kept of two stretches are those kept of the one, then of the other.
pub proof fn law_kept_split<V>(a: Seq<V>, b: Seq<V>, p: spec_fn(V) -> bool)
    ensures
        kept(a + b, p) == kept(a, p) + kept(b, p),
    decreases b.len(),
{
    if b.len() == 0 {
        assert(a + b =~= a);
        assert(kept(a, p) + kept(b, p) =~= kept(a, p));
    } else {
        assert((a + b).drop_last() =~= a + b.drop_last());
        law_kept_split(a, b.drop_last(), p);
        assert(kept(a + b, p) =~= kept(a, p) + kept(b, p));
    }
}

/// A condition on a condition.
pub proof fn law_kept_both<V>(rows: Seq<V>, p: spec_fn(V) -> bool, q: spec_fn(V) -> bool)
    ensures
        kept(kept(rows, p), q) == kept(rows, |row: V| p(row) && q(row)),
    decreases rows.len(),
{
    if rows.len() > 0 {
        law_kept_both(rows.drop_last(), p, q);
        if p(rows.last()) {
            let k = kept(rows.drop_last(), p);
            assert(k.push(rows.last()).drop_last() =~= k);
        }
    }
}

/// Conditions that agree on every row keep the same rows.
pub proof fn law_kept_alike<V>(rows: Seq<V>, p: spec_fn(V) -> bool, q: spec_fn(V) -> bool)
    requires
        forall|i: int| 0 <= i < rows.len() ==> p(#[trigger] rows[i]) == q(rows[i]),
    ensures
        kept(rows, p) == kept(rows, q),
    decreases rows.len(),
{
    if rows.len() > 0 {
        let rest = rows.drop_last();
        assert forall|i: int| 0 <= i < rest.len() implies p(#[trigger] rest[i]) == q(rest[i]) by {
            assert(p(rows[i]) == q(rows[i]));
        }
        law_kept_alike(rest, p, q);
        assert(p(rows[rows.len() - 1]) == q(rows[rows.len() - 1]));
    }
}

/// A condition that fails for the first `n` rows and holds from there on keeps
/// the rest.
pub proof fn law_kept_rest<V>(rows: Seq<V>, p: spec_fn(V) -> bool, n: int)
    requires
        0 <= n <= rows.len(),
        forall|i: int| 0 <= i < rows.len() ==> p(#[trigger] rows[i]) == (i >= n),
    ensures
        kept(rows, p) == rows.skip(n),
    decreases rows.len(),
{
    if rows.len() > 0 {
        let rest = rows.drop_last();
        let last = rows.len() - 1;
        assert(p(rows[last]) == (last >= n));
        let m = if n <= last {
            n
        } else {
            last
        };
        assert forall|i: int| 0 <= i < rest.len() implies p(#[trigger] rest[i]) == (i >= m) by {
            assert(p(rows[i]) == (i >= n));
        }
        law_kept_rest(rest, p, m);
        assert(kept(rows, p) =~= rows.skip(n));
    } else {
        assert(kept(rows, p) =~= rows.skip(n));
    }
}

/// The relation holds of every row and each later one.
pub open spec fn pairwise<V>(rows: Seq<V>, r: spec_fn(V, V) -> bool) -> bool {
    forall|i: int, j: int| 0 <= i < j < rows.len() ==> r(#[trigger] rows[i], #[trigger] rows[j])
}

/// What holds between rows holds between those of them that are kept.
pub proof fn law_kept_pairwise<V>(rows: Seq<V>, p: spec_fn(V) -> bool, r: spec_fn(V, V) -> bool)
    requires
        pairwise(rows, r),
    ensures
        pairwise(kept(rows, p), r),
    decreases rows.len(),
{
    if rows.len() > 0 {
        let rest = rows.drop_last();
        assert forall|i: int, j: int| 0 <= i < j < rest.len() implies r(
            #[trigger] rest[i],
            #[trigger] rest[j],
        ) by {
            assert(r(rows[i], rows[j]));
        }
        law_kept_pairwise(rest, p, r);
        law_kept_all(rest, p);
        let out = kept(rows, p);
        let front = kept(rest, p);
        assert forall|i: int, j: int| 0 <= i < j < out.len() implies r(
            #[trigger] out[i],
            #[trigger] out[j],
        ) by {
            if j < front.len() {
                assert(r(front[i], front[j]));
            } else {
                assert(rest.contains(front[i]));
                let k = choose|k: int| 0 <= k < rest.len() && rest[k] == front[i];
                assert(r(rows[k], rows[rows.len() - 1]));
            }
        }
    }
}

/// `out` lists the rows that meet `p`, each as often as it is there and no other:
/// its `k`-th entry is the row at `at[k]`. Where `before` holds between two, it
/// says which comes first; where it does not, they stand as in `rows`.
pub open spec fn lists_exactly<V>(
    out: Seq<V>,
    rows: Seq<V>,
    p: spec_fn(V) -> bool,
    before: spec_fn(V, V) -> bool,
    at: Seq<int>,
) -> bool {
    &&& out.len() == at.len()
    &&& forall|k: int|
        0 <= k < at.len() ==> 0 <= #[trigger] at[k] < rows.len() && out[k] == rows[at[k]] && p(
            rows[at[k]],
        )
    &&& forall|i: int| 0 <= i < rows.len() && p(#[trigger] rows[i]) ==> at.contains(i)
    &&& forall|k: int, m: int|
        0 <= k < m < at.len() ==> #[trigger] at[k] != #[trigger] at[m] && (before(out[k], out[m])
            || (!before(out[m], out[k]) && at[k] < at[m]))
}

/// What is kept are the rows that meet the condition, as they stand.
pub proof fn law_kept_lists<V>(rows: Seq<V>, p: spec_fn(V) -> bool) -> (at: Seq<int>)
    ensures
        lists_exactly(kept(rows, p), rows, p, |a: V, b: V| false, at),
    decreases rows.len(),
{
    let none = |a: V, b: V| false;
    if rows.len() == 0 {
        let at = Seq::<int>::empty();
        assert(lists_exactly(kept(rows, p), rows, p, none, at));
        at
    } else {
        let front = rows.drop_last();
        let was = law_kept_lists(front, p);
        let n = rows.len() - 1;
        let at = if p(rows[n]) {
            was.push(n)
        } else {
            was
        };
        let out = kept(rows, p);
        assert forall|k: int| 0 <= k < at.len() implies 0 <= #[trigger] at[k] < rows.len()
            && out[k] == rows[at[k]] && p(rows[at[k]]) by {
            if k < was.len() {
                assert(at[k] == was[k]);
                assert(rows[was[k]] == front[was[k]]);
            }
        }
        assert forall|k: int, m: int| 0 <= k < m < at.len() implies #[trigger] at[k] < #[trigger] at[m] by {
            assert(at[k] == was[k]);
            if m < was.len() {
                assert(at[m] == was[m]);
            }
        }
        assert forall|i: int| 0 <= i < rows.len() && p(#[trigger] rows[i]) implies at.contains(i) by {
            if i < n {
                assert(p(front[i]));
                let k = choose|k: int| 0 <= k < was.len() && was[k] == i;
                assert(at[k] == i);
            } else {
                assert(at[was.len() as int] == n);
            }
        }
        at
    }
}

/// A list by one condition and order is one by another that says the same.
pub proof fn law_lists_alike<V>(
    out: Seq<V>,
    rows: Seq<V>,
    p: spec_fn(V) -> bool,
    before: spec_fn(V, V) -> bool,
    q: spec_fn(V) -> bool,
    sooner: spec_fn(V, V) -> bool,
    at: Seq<int>,
)
    requires
        lists_exactly(out, rows, p, before, at),
        forall|i: int| 0 <= i < rows.len() ==> p(#[trigger] rows[i]) == q(rows[i]),
        forall|a: V, b: V| p(a) && p(b) ==> #[trigger] before(a, b) == sooner(a, b),
    ensures
        lists_exactly(out, rows, q, sooner, at),
{
    assert forall|k: int| 0 <= k < at.len() implies 0 <= #[trigger] at[k] < rows.len() && out[k]
        == rows[at[k]] && q(rows[at[k]]) by {
        assert(p(rows[at[k]]));
    }
    assert forall|k: int, m: int| 0 <= k < m < at.len() implies #[trigger] at[k] != #[trigger] at[m]
        && (sooner(out[k], out[m]) || (!sooner(out[m], out[k]) && at[k] < at[m])) by {
        assert(p(rows[at[k]]) && p(rows[at[m]]));
        assert(before(out[k], out[m]) == sooner(out[k], out[m]));
        assert(before(out[m], out[k]) == sooner(out[m], out[k]));
    }
}

/// A list of rows has as many entries as there are rows that meet the condition,
/// and holds each as often as they do.
pub proof fn law_lists_count<V>(
    out: Seq<V>,
    rows: Seq<V>,
    p: spec_fn(V) -> bool,
    before: spec_fn(V, V) -> bool,
    at: Seq<int>,
)
    requires
        lists_exactly(out, rows, p, before, at),
    ensures
        out.len() == kept(rows, p).len(),
        out.to_multiset() == rows.to_multiset().filter(p),
    decreases rows.len(),
{
    broadcast use vstd::seq_lib::group_to_multiset_ensures;

    if rows.len() == 0 {
        if at.len() > 0 {
            assert(0 <= at[0] < rows.len());
        }
        assert(out =~= Seq::empty());
        assert(rows =~= Seq::empty());
        assert(out.to_multiset() =~= rows.to_multiset().filter(p));
    } else {
        let front = rows.drop_last();
        let n = rows.len() - 1;
        assert(rows =~= front.push(rows[n]));
        if p(rows[n]) {
            let j = choose|j: int| 0 <= j < at.len() && at[j] == n;
            let at1 = at.remove(j);
            let out1 = out.remove(j);
            assert forall|k: int| 0 <= k < at1.len() implies 0 <= #[trigger] at1[k] < front.len()
                && out1[k] == front[at1[k]] && p(front[at1[k]]) by {
                let m = if k < j {
                    k
                } else {
                    k + 1
                };
                assert(at1[k] == at[m]);
                if m < j {
                    assert(at[m] != at[j]);
                } else {
                    assert(at[j] != at[m]);
                }
            }
            assert forall|k: int, m: int| 0 <= k < m < at1.len() implies #[trigger] at1[k]
                != #[trigger] at1[m] && (before(out1[k], out1[m]) || (!before(out1[m], out1[k])
                && at1[k] < at1[m])) by {
                let k1 = if k < j {
                    k
                } else {
                    k + 1
                };
                let m1 = if m < j {
                    m
                } else {
                    m + 1
                };
                assert(at[k1] != at[m1]);
            }
            assert forall|i: int| 0 <= i < front.len() && p(#[trigger] front[i]) implies at1.contains(
                i,
            ) by {
                assert(p(rows[i]));
                let k = choose|k: int| 0 <= k < at.len() && at[k] == i;
                if k < j {
                    assert(at1[k] == i);
                } else {
                    assert(at1[k - 1] == i);
                }
            }
            law_lists_count(out1, front, p, before, at1);
            assert(out =~= out1.insert(j, rows[n]));
            vstd::seq_lib::to_multiset_insert(out1, j, rows[n]);
            assert(out.to_multiset() =~= rows.to_multiset().filter(p));
        } else {
            assert forall|k: int| 0 <= k < at.len() implies 0 <= #[trigger] at[k] < front.len()
                && out[k] == front[at[k]] && p(front[at[k]]) by {
                assert(p(rows[at[k]]));
            }
            assert forall|i: int| 0 <= i < front.len() && p(#[trigger] front[i]) implies at.contains(
                i,
            ) by {
                assert(p(rows[i]));
            }
            law_lists_count(out, front, p, before, at);
            assert(out.to_multiset() =~= rows.to_multiset().filter(p));
        }
    }
}

/// Of a list that is cut at a limit the first entries stay: as many as the limit
/// allows, and all of them where it allows that.
pub proof fn law_limited<V>(rows: Seq<V>, limit: nat)
    ensures
        rows.len() <= limit ==> limited(rows, limit) == rows,
        limit <= rows.len() ==> limited(rows, limit).len() == limit,
        forall|i: int| 0 <= i < limited(rows, limit).len() ==> #[trigger] limited(rows, limit)[i] == rows[i],
{
    if limit == rows.len() {
        assert(rows.take(limit as int) =~= rows);
    }
}

/// One more row, looked at last.
pub(crate) proof fn lemma_take_step<V>(rows: Seq<V>, p: spec_fn(V) -> bool, i: int)
    requires
        0 <= i < rows.len(),
    ensures
        rows.take(i + 1).drop_last() == rows.take(i),
        rows.take(i + 1).last() == rows[i],
        kept(rows.take(i + 1), p) == (if p(rows[i]) {
            kept(rows.take(i), p).push(rows[i])
        } else {
            kept(rows.take(i), p)
        }),
        first_where(rows.take(i + 1), p) == (match first_where(rows.take(i), p) {
            Some(row) => Some(row),
            None => if p(rows[i]) {
                Some(rows[i])
            } else {
                None
            },
        }),
{
    assert(rows.take(i + 1).drop_last() =~= rows.take(i));
}

/// Once found, a first row stays the first.
pub(crate) proof fn lemma_first_where_extends<V>(rows: Seq<V>, p: spec_fn(V) -> bool, i: int)
    requires
        0 <= i <= rows.len(),
        first_where(rows.take(i), p) is Some,
    ensures
        first_where(rows, p) == first_where(rows.take(i), p),
    decreases rows.len() - i,
{
    if i < rows.len() {
        lemma_take_step(rows, p, i);
        lemma_first_where_extends(rows, p, i + 1);
    } else {
        assert(rows.take(i) =~= rows);
    }
}

/// Where the first row that meets the condition stands.
pub(crate) proof fn lemma_first_index<V>(rows: Seq<V>, p: spec_fn(V) -> bool) -> (i: int)
    requires
        first_where(rows, p) is Some,
    ensures
        0 <= i < rows.len(),
        first_where(rows, p) == Some(rows[i]),
        p(rows[i]),
        forall|j: int| 0 <= j < i ==> !p(#[trigger] rows[j]),
    decreases rows.len(),
{
    let front = rows.drop_last();
    law_first_where(front, p);
    if first_where(front, p) is Some {
        let i = lemma_first_index(front, p);
        assert forall|j: int| 0 <= j < i implies !p(#[trigger] rows[j]) by {
            assert(!p(front[j]));
        }
        i
    } else {
        assert forall|j: int| 0 <= j < rows.len() - 1 implies !p(#[trigger] rows[j]) by {
            assert(!p(front[j]));
        }
        rows.len() - 1
    }
}

/// The row that meets the condition and has none before it is the first.
pub(crate) proof fn lemma_first_at<V>(rows: Seq<V>, p: spec_fn(V) -> bool, i: int)
    requires
        0 <= i < rows.len(),
        p(rows[i]),
        forall|j: int| 0 <= j < i ==> !p(#[trigger] rows[j]),
    ensures
        first_where(rows, p) == Some(rows[i]),
{
    law_first_where(rows, p);
    let k = lemma_first_index(rows, p);
    if k < i {
        assert(!p(rows[k]));
    }
}

/// Drops the rows that fail the condition. `keep` decides it for a row, `p`
/// states it.
pub(crate) fn retain<T: View, F: Fn(&T) -> bool>(
    rows: &mut Vec<T>,
    keep: F,
    Ghost(p): Ghost<spec_fn(T::V) -> bool>,
)
    requires
        forall|x: &T| #[trigger] keep.requires((x,)),
        forall|x: &T, r: bool| #[trigger] keep.ensures((x,), r) ==> r == p(x@),
    ensures
        seen(final(rows)@) == kept(seen(old(rows)@), p),
{
    let ghost all = seen(rows@);
    let mut rest: Vec<T> = Vec::new();
    std::mem::swap(&mut rest, rows);
    let ghost start = rest@;
    let mut out: Vec<T> = Vec::new();
    assert(seen(out@) =~= kept(all.take(0), p));
    for x in it: rest.into_iter()
        invariant
            it.seq() == start,
            all == seen(start),
            seen(out@) == kept(all.take(it.index() as int), p),
            forall|x: &T| #[trigger] keep.requires((x,)),
            forall|x: &T, r: bool| #[trigger] keep.ensures((x,), r) ==> r == p(x@),
    {
        proof {
            lemma_take_step(all, p, it.index() as int);
        }
        let ghost before = out@;
        if keep(&x) {
            out.push(x);
            assert(seen(out@) =~= seen(before).push(x@));
        }
    }
    assert(all.take(all.len() as int) =~= all);
    *rows = out;
}

} // verus!
