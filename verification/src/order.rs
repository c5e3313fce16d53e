//! Lexicographic order, of blobs and of names compared without regard to
//! ASCII case.

use vstd::prelude::*;

verus! {

/// `a` and `b` part at position `k`: they agree before it, and there `a` ends
/// first or holds the smaller number.
pub open spec fn parts_at(a: Seq<int>, b: Seq<int>, k: int) -> bool {
    &&& 0 <= k <= a.len()
    &&& k < b.len()
    &&& forall|i: int| 0 <= i < k ==> a[i] == b[i]
    &&& k < a.len() ==> a[k] < b[k]
}

/// `a` comes before `b` in lexicographic order; a proper prefix comes first.
pub open spec fn lex_less(a: Seq<int>, b: Seq<int>) -> bool {
    exists|k: int| parts_at(a, b, k)
}

/// The bytes of a blob as numbers.
pub open spec fn codes(blob: Seq<u8>) -> Seq<int> {
    Seq::new(blob.len(), |i: int| blob[i] as int)
}

/// Blob `a` comes before blob `b`: byte by byte, a proper prefix first.
pub open spec fn blob_less(a: Seq<u8>, b: Seq<u8>) -> bool {
    lex_less(codes(a), codes(b))
}

/// The number by which a character is compared when ASCII case is ignored:
/// its code point, or that of its lower case within ASCII.
pub open spec fn folded_code(c: char) -> int {
    if 'A' <= c && c <= 'Z' {
        c as int + 32
    } else {
        c as int
    }
}

/// The numbers by which a name is compared when ASCII case is ignored.
pub open spec fn folded(name: Seq<char>) -> Seq<int> {
    Seq::new(name.len(), |i: int| folded_code(name[i]))
}

/// Two names are the same up to ASCII case.
pub open spec fn same_name(a: Seq<char>, b: Seq<char>) -> bool {
    folded(a) == folded(b)
}

/// `name` starts with `prefix`, up to ASCII case.
pub open spec fn has_prefix(name: Seq<char>, prefix: Seq<char>) -> bool {
    prefix.len() <= name.len() && folded(name.take(prefix.len() as int)) == folded(prefix)
}

/// Nothing comes before itself, nor do two sequences come before one another.
pub proof fn law_lex_asymmetric(a: Seq<int>, b: Seq<int>)
    ensures
        !(lex_less(a, b) && lex_less(b, a)),
{
    if lex_less(a, b) && lex_less(b, a) {
        let k = choose|k: int| parts_at(a, b, k);
        let m = choose|m: int| parts_at(b, a, m);
        if k < m {
            assert(b[k] == a[k]);
        } else if m < k {
            assert(a[m] == b[m]);
        }
    }
}

/// What comes before `c` comes before `b`, or `b` comes before `c`.
pub proof fn law_lex_negatively_transitive(a: Seq<int>, b: Seq<int>, c: Seq<int>)
    ensures
        lex_less(a, c) ==> lex_less(a, b) || lex_less(b, c),
{
    if lex_less(a, c) {
        law_lex_total(a, b);
        if !lex_less(a, b) {
            if a == b {
            } else {
                let k = choose|k: int| parts_at(a, c, k);
                let m = choose|m: int| parts_at(b, a, m);
                let n = if k < m { k } else { m };
                assert(parts_at(b, c, n));
            }
        }
    }
}

/// Of two sequences that differ, one comes before the other.
pub proof fn law_lex_total(a: Seq<int>, b: Seq<int>)
    ensures
        a == b || lex_less(a, b) || lex_less(b, a),
{
    lemma_lex_total_from(a, b, 0);
}

proof fn lemma_lex_total_from(a: Seq<int>, b: Seq<int>, k: int)
    requires
        0 <= k <= a.len(),
        k <= b.len(),
        forall|i: int| 0 <= i < k ==> a[i] == b[i],
    ensures
        a == b || lex_less(a, b) || lex_less(b, a),
    decreases a.len() - k,
{
    if k == a.len() && k == b.len() {
        assert(a =~= b);
    } else if k == a.len() {
        assert(parts_at(a, b, k));
    } else if k == b.len() {
        assert(parts_at(b, a, k));
    } else if a[k] < b[k] {
        assert(parts_at(a, b, k));
    } else if b[k] < a[k] {
        assert(parts_at(b, a, k));
    } else {
        lemma_lex_total_from(a, b, k + 1);
    }
}

/// Blobs with the same numbers are the same blob.
pub proof fn law_codes_injective(a: Seq<u8>, b: Seq<u8>)
    requires
        codes(a) == codes(b),
    ensures
        a == b,
{
    assert(codes(a).len() == a.len() && codes(b).len() == b.len());
    assert forall|i: int| 0 <= i < a.len() implies a[i] == b[i] by {
        assert(codes(a)[i] == a[i] as int);
        assert(codes(b)[i] == b[i] as int);
    }
    assert(a =~= b);
}

/// Of two blobs that differ, one comes before the other.
pub proof fn law_blob_total(a: Seq<u8>, b: Seq<u8>)
    ensures
        a == b || blob_less(a, b) || blob_less(b, a),
        !(blob_less(a, b) && blob_less(b, a)),
        !blob_less(a, a),
{
    law_lex_total(codes(a), codes(b));
    law_lex_asymmetric(codes(a), codes(b));
    law_lex_asymmetric(codes(a), codes(a));
    if codes(a) == codes(b) {
        law_codes_injective(a, b);
    }
}

/// Whether blob `a` comes before blob `b`.
pub fn blob_before(a: &[u8], b: &[u8]) -> (r: bool)
    ensures
        r == blob_less(a@, b@),
{
    let ghost x = codes(a@);
    let ghost y = codes(b@);
    let mut k: usize = 0;
    while k < a.len() && k < b.len()
        invariant
            x == codes(a@),
            y == codes(b@),
            k <= a@.len(),
            k <= b@.len(),
            forall|i: int| 0 <= i < k ==> x[i] == y[i],
        decreases a.len() - k,
    {
        if a[k] < b[k] {
            assert(parts_at(x, y, k as int));
            return true;
        }
        if b[k] < a[k] {
            assert(parts_at(y, x, k as int));
            proof {
                law_lex_asymmetric(x, y);
            }
            return false;
        }
        k += 1;
    }
    if k < b.len() {
        assert(parts_at(x, y, k as int));
        true
    } else {
        proof {
            if k < a@.len() {
                assert(parts_at(y, x, k as int));
            } else {
                assert(x =~= y);
            }
            law_lex_asymmetric(x, y);
        }
        false
    }
}

/// Whether two blobs hold the same bytes.
pub fn blob_eq(a: &[u8], b: &[u8]) -> (r: bool)
    ensures
        r == (a@ == b@),
{
    if a.len() != b.len() {
        return false;
    }
    let mut k: usize = 0;
    while k < a.len()
        invariant
            a@.len() == b@.len(),
            k <= a@.len(),
            forall|i: int| 0 <= i < k ==> a@[i] == b@[i],
        decreases a.len() - k,
    {
        if a[k] != b[k] {
            return false;
        }
        k += 1;
    }
    assert(a@ =~= b@);
    true
}

/// The number by which `c` is compared when ASCII case is ignored.
fn fold_code(c: char) -> (r: u32)
    ensures
        r == folded_code(c),
{
    if 'A' <= c && c <= 'Z' {
        c as u32 + 32
    } else {
        c as u32
    }
}

/// The numbers by which `name` is compared when ASCII case is ignored.
pub fn fold_name(name: &str) -> (out: Vec<u32>)
    ensures
        out@.len() == name@.len(),
        forall|i: int| 0 <= i < name@.len() ==> #[trigger] out@[i] == folded_code(name@[i]),
{
    let mut out: Vec<u32> = Vec::new();
    for c in it: name.chars()
        invariant
            it.seq() == name@,
            out@.len() == it.index(),
            forall|i: int|
                0 <= i < out@.len() ==> #[trigger] out@[i] == folded_code(name@[i]),
    {
        out.push(fold_code(c));
    }
    out
}

/// Whether name `a` comes before name `b`, ASCII case ignored.
pub fn name_before(a: &str, b: &str) -> (r: bool)
    ensures
        r == lex_less(folded(a@), folded(b@)),
{
    let p = fold_name(a);
    let q = fold_name(b);
    let ghost x = folded(a@);
    let ghost y = folded(b@);
    let mut k: usize = 0;
    while k < p.len() && k < q.len()
        invariant
            x.len() == p@.len(),
            y.len() == q@.len(),
            forall|i: int| 0 <= i < x.len() ==> x[i] == #[trigger] p@[i],
            forall|i: int| 0 <= i < y.len() ==> y[i] == #[trigger] q@[i],
            k <= p@.len(),
            k <= q@.len(),
            forall|i: int| 0 <= i < k ==> x[i] == y[i],
            x == folded(a@),
            y == folded(b@),
        decreases p.len() - k,
    {
        if p[k] < q[k] {
            assert(parts_at(x, y, k as int));
            return true;
        }
        if q[k] < p[k] {
            assert(parts_at(y, x, k as int));
            proof {
                law_lex_asymmetric(x, y);
            }
            return false;
        }
        k += 1;
    }
    if k < q.len() {
        assert(parts_at(x, y, k as int));
        true
    } else {
        proof {
            if k < p@.len() {
                assert(parts_at(y, x, k as int));
            } else {
                assert(x =~= y);
            }
            law_lex_asymmetric(x, y);
        }
        false
    }
}

/// Whether `name` starts with `prefix`, ASCII case ignored.
pub fn name_has_prefix(name: &str, prefix: &str) -> (r: bool)
    ensures
        r == has_prefix(name@, prefix@),
{
    let p = fold_name(name);
    let q = fold_name(prefix);
    if p.len() < q.len() {
        return false;
    }
    let ghost head = folded(name@.take(prefix@.len() as int));
    let mut k: usize = 0;
    while k < q.len()
        invariant
            q@.len() == prefix@.len(),
            p@.len() == name@.len(),
            q@.len() <= p@.len(),
            forall|i: int| 0 <= i < name@.len() ==> #[trigger] p@[i] == folded_code(name@[i]),
            forall|i: int| 0 <= i < prefix@.len() ==> #[trigger] q@[i] == folded_code(prefix@[i]),
            k <= q@.len(),
            head == folded(name@.take(prefix@.len() as int)),
            forall|i: int| 0 <= i < k ==> head[i] == #[trigger] folded(prefix@)[i],
        decreases q.len() - k,
    {
        if p[k] != q[k] {
            assert(head[k as int] != folded(prefix@)[k as int]);
            return false;
        }
        k += 1;
    }
    assert(head =~= folded(prefix@));
    true
}

/// Whether two names are the same up to ASCII case.
pub fn name_same(a: &str, b: &str) -> (r: bool)
    ensures
        r == same_name(a@, b@),
{
    let p = fold_name(a);
    let q = fold_name(b);
    if p.len() != q.len() {
        assert(folded(a@).len() != folded(b@).len());
        return false;
    }
    let r = name_has_prefix(a, b);
    assert(a@.take(b@.len() as int) =~= a@);
    r
}

} // verus!
