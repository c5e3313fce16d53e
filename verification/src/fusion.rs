//! Reciprocal-rank fusion of two rankings.
//!
//! A result at place `r` of a ranking, counted from 0, scores `1 / (60 + r + 1)`,
//! and what stands in both rankings the sum of its scores. Scores are
//! single-precision floating-point numbers: each quotient and each sum is
//! rounded to 24 significant bits, to the nearest, ties to even. They are held
//! here as whole multiples of two to the power of -40, which all of them are.

use vstd::arithmetic::power2::{lemma_pow2_adds, lemma_pow2_unfold, pow2};
use vstd::prelude::*;

use crate::rank::{cut, law_ranked_pairwise, rank, ranked, select, views, RowOrder};
use crate::rows::{law_kept_everything, limited, pairwise, seen};
use crate::search::{ThoughtMatch, ThoughtMatchView};

verus! {

/// The constant in the scores.
pub const RRF_K: u64 = 60;

/// Places from this one on score alike.
pub const LAST_PLACE: u64 = 65535;

/// One, as a multiple of the unit of scores.
pub const ONE: u64 = 0x100_0000_0000;

/// How many values 24 bits have.
pub const MANTISSA: u64 = 0x100_0000;

/// The whole number nearest to `n / d`, of two that are as near the even one.
pub open spec fn rounded(n: nat, d: nat) -> nat {
    let q = n / d;
    let r = n % d;
    if 2 * r < d || (2 * r == d && q % 2 == 0) {
        q
    } else {
        q + 1
    }
}

/// The weight of the last bit of a quotient `1 / n`, for an `n` from 33 on:
/// 2048 up to 64, and half as much up to each double of that.
pub open spec fn quotient_weight(n: nat, bound: nat, weight: nat) -> nat
    decreases weight,
{
    if n <= bound || weight <= 1 {
        weight
    } else {
        quotient_weight(n, 2 * bound, weight / 2)
    }
}

/// `1 / n`, rounded.
pub open spec fn reciprocal(n: nat) -> nat {
    let weight = quotient_weight(n, 64, 2048);
    rounded(ONE as nat / weight, n) * weight
}

/// The divisor of the score of a place.
pub open spec fn divisor(place: nat) -> nat {
    (RRF_K + 1 + (if place < LAST_PLACE {
        place
    } else {
        LAST_PLACE as nat
    })) as nat
}

/// What a result at the place `place` of a ranking scores.
pub open spec fn place_score(place: nat) -> nat {
    reciprocal(divisor(place))
}

/// The weight of the last bit of a sum: the least double of `weight` with which
/// 24 bits hold it.
pub open spec fn sum_weight(x: nat, weight: nat) -> nat
    decreases x - weight,
{
    if x < MANTISSA * weight || weight == 0 {
        weight
    } else {
        sum_weight(x, 2 * weight)
    }
}

/// `a + b`, rounded.
pub open spec fn summed(a: nat, b: nat) -> nat {
    let weight = sum_weight(a + b, 1);
    rounded(a + b, weight) * weight
}

/// The largest score that a sum can reach.
pub const SCORE_LIMIT: u64 = 0x1000_0000_0000_0000;

/// The largest score of one place.
pub const PLACE_LIMIT: u64 = 0x8_0000_0000;

/// The whole number nearest to `n / d`.
fn divide(n: u64, d: u64) -> (r: u64)
    requires
        0 < d < 0x8000_0000_0000_0000,
        n < 0x8000_0000_0000_0000,
    ensures
        r == rounded(n as nat, d as nat),
{
    let q: u64 = n / d;
    let r: u64 = n % d;
    assert(q <= n) by (nonlinear_arith)
        requires
            q == n / d,
            0 < d,
            0 <= n,
    ;
    if 2 * r < d || (2 * r == d && q % 2 == 0) {
        q
    } else {
        q + 1
    }
}

proof fn lemma_quotient(n: nat, bound: nat, weight: nat)
    requires
        bound * weight == 0x2_0000,
        bound < 2 * n,
        n <= bound,
        0 < weight <= 2048,
        0 < n,
    ensures
        ONE as nat / weight == 0x80_0000 * bound,
        0 < rounded(ONE as nat / weight, n) * weight <= PLACE_LIMIT,
        rounded(ONE as nat / weight, n) >= 0x80_0000,
{
    let m = (0x80_0000 * bound) as nat;
    assert(ONE as nat == m * weight) by (nonlinear_arith)
        requires
            m == 0x80_0000 * bound,
            bound * weight == 0x2_0000,
            ONE == 0x100_0000_0000u64,
    ;
    vstd::arithmetic::div_mod::lemma_div_by_multiple(m as int, weight as int);
    let q = m / n;
    assert(0x80_0000 <= q && q + 1 <= 0x100_0000) by (nonlinear_arith)
        requires
            q == m / n,
            m == 0x80_0000 * bound,
            bound < 2 * n,
            n <= bound,
            0 < n,
    ;
    let k = rounded(m, n);
    assert(0 < k * weight <= PLACE_LIMIT) by (nonlinear_arith)
        requires
            0x80_0000 <= k <= 0x100_0000,
            0 < weight <= 2048,
            PLACE_LIMIT == 0x8_0000_0000u64,
    ;
}

proof fn lemma_weight(n: nat) -> (bound: nat)
    requires
        61 <= n <= 65596,
    ensures
        bound * quotient_weight(n, 64, 2048) == 0x2_0000,
        n <= bound < 2 * n,
        1 <= quotient_weight(n, 64, 2048) <= 2048,
{
    reveal_with_fuel(quotient_weight, 12);
    let weight = quotient_weight(n, 64, 2048);
    if n <= 64 {
        assert(weight == 2048);
        64
    } else if n <= 128 {
        assert(weight == 1024);
        128
    } else if n <= 256 {
        assert(weight == 512);
        256
    } else if n <= 512 {
        assert(weight == 256);
        512
    } else if n <= 1024 {
        assert(weight == 128);
        1024
    } else if n <= 2048 {
        assert(weight == 64);
        2048
    } else if n <= 4096 {
        assert(weight == 32);
        4096
    } else if n <= 8192 {
        assert(weight == 16);
        8192
    } else if n <= 16384 {
        assert(weight == 8);
        16384
    } else if n <= 32768 {
        assert(weight == 4);
        32768
    } else if n <= 65536 {
        assert(weight == 2);
        65536
    } else {
        assert(weight == 1);
        131072
    }
}

/// The weight of the last bit of `1 / n`.
fn weigh(n: u64) -> (weight: u64)
    requires
        61 <= n <= 65596,
    ensures
        weight == quotient_weight(n as nat, 64, 2048),
{
    proof {
        reveal_with_fuel(quotient_weight, 12);
    }
    if n <= 64 {
        2048
    } else if n <= 128 {
        1024
    } else if n <= 256 {
        512
    } else if n <= 512 {
        256
    } else if n <= 1024 {
        128
    } else if n <= 2048 {
        64
    } else if n <= 4096 {
        32
    } else if n <= 8192 {
        16
    } else if n <= 16384 {
        8
    } else if n <= 32768 {
        4
    } else if n <= 65536 {
        2
    } else {
        1
    }
}

/// What a result at a place of a ranking scores.
pub fn score_at(place: usize) -> (score: u64)
    ensures
        score == place_score(place as nat),
        0 < score <= PLACE_LIMIT,
{
    let capped: u64 = if (place as u64) < LAST_PLACE {
        place as u64
    } else {
        LAST_PLACE
    };
    let n: u64 = RRF_K + 1 + capped;
    let weight = weigh(n);
    proof {
        let bound = lemma_weight(n as nat);
        lemma_quotient(n as nat, bound, weight as nat);
    }
    let k = divide(ONE / weight, n);
    assert(k * weight <= PLACE_LIMIT);
    k * weight
}

proof fn lemma_sum_weight(x: nat, j: nat)
    requires
        x < pow2(61),
        j <= 37,
        j > 0 ==> x >= MANTISSA * pow2((j - 1) as nat),
    ensures
        exists|k: nat|
            j <= k <= 37 && sum_weight(x, pow2(j)) == #[trigger] pow2(k) && x < MANTISSA * pow2(k)
                && (k > 0 ==> x >= MANTISSA * pow2((k - 1) as nat)),
    decreases 37 - j,
{
    vstd::arithmetic::power2::lemma_pow2_pos(j);
    vstd::arithmetic::power2::lemma2_to64();
    if x < MANTISSA * pow2(j) {
        assert(sum_weight(x, pow2(j)) == pow2(j));
    } else {
        lemma_pow2_adds(24, j);
        if j == 37 {
            assert(pow2(61) == MANTISSA * pow2(37));
        } else {
            lemma_pow2_unfold(j + 1);
            lemma_sum_weight(x, j + 1);
        }
    }
}

proof fn lemma_round_bounds(x: nat, weight: nat)
    requires
        weight > 0,
    ensures
        rounded(x, weight) * weight <= x + weight,
        rounded(x, weight) * weight + weight > x,
        weight == 1 ==> rounded(x, weight) == x,
{
    let q = x / weight;
    let r = x % weight;
    vstd::arithmetic::div_mod::lemma_fundamental_div_mod(x as int, weight as int);
    assert((q + 1) * weight == q * weight + weight) by (nonlinear_arith);
    assert(weight * q == q * weight) by (nonlinear_arith);
}

proof fn lemma_sum_limit(x: nat)
    requires
        x <= SCORE_LIMIT + PLACE_LIMIT,
    ensures
        sum_weight(x, 1) > 0,
        sum_weight(x, 1) <= 0x20_0000_0000,
        rounded(x, sum_weight(x, 1)) * sum_weight(x, 1) <= SCORE_LIMIT,
        sum_weight(x, 1) == 1 || MANTISSA * sum_weight(x, 1) <= 2 * x,
{
    vstd::arithmetic::power2::lemma2_to64();
    vstd::arithmetic::power2::lemma2_to64_rest();
    lemma_sum_weight(x, 0);
    let k = choose|k: nat|
        0 <= k <= 37 && sum_weight(x, pow2(0)) == #[trigger] pow2(k) && x < MANTISSA * pow2(k) && (k
            > 0 ==> x >= MANTISSA * pow2((k - 1) as nat));
    let w = pow2(k);
    vstd::arithmetic::power2::lemma_pow2_pos(k);
    if k > 0 {
        lemma_pow2_unfold(k);
    }
    if k < 37 {
        vstd::arithmetic::power2::lemma_pow2_strictly_increases(k, 37);
    }
    let room = pow2((60 - k) as nat);
    lemma_pow2_adds(k, (60 - k) as nat);
    assert(w * room == SCORE_LIMIT);
    let q = x / w;
    let r = x % w;
    vstd::arithmetic::div_mod::lemma_fundamental_div_mod(x as int, w as int);
    if x < SCORE_LIMIT {
        assert(q < room) by (nonlinear_arith)
            requires
                x == w * q + r,
                0 <= r,
                x < w * room,
                w > 0,
        ;
        assert((q + 1) * w <= room * w) by (nonlinear_arith)
            requires
                q < room,
                w > 0,
        ;
        assert(q * w <= (q + 1) * w) by (nonlinear_arith)
            requires
                w > 0,
        ;
        assert(room * w == w * room) by (nonlinear_arith);
    } else {
        let d = x - SCORE_LIMIT;
        assert(2 * d < w);
        assert(q == room && r == d) by {
            assert(room * w == w * room) by (nonlinear_arith);
            vstd::arithmetic::div_mod::lemma_fundamental_div_mod_converse(
                x as int,
                w as int,
                room as int,
                d as int,
            );
        }
        assert(q * w == w * room) by (nonlinear_arith)
            requires
                q == room,
        ;
    }
}

/// The weight of the last bit of a sum.
fn weigh_sum(x: u64) -> (weight: u64)
    requires
        x <= SCORE_LIMIT + PLACE_LIMIT,
    ensures
        weight == sum_weight(x as nat, 1),
{
    let mut weight: u64 = 1;
    while x / MANTISSA >= weight
        invariant
            x <= SCORE_LIMIT + PLACE_LIMIT,
            0 < weight <= 0x20_0000_1000,
            sum_weight(x as nat, 1) == sum_weight(x as nat, weight as nat),
        decreases 0x40_0000_0000 - weight,
    {
        weight = 2 * weight;
    }
    weight
}

/// The sum of two scores.
pub fn sum_scores(a: u64, b: u64) -> (score: u64)
    requires
        a <= SCORE_LIMIT,
        b <= PLACE_LIMIT,
    ensures
        score == summed(a as nat, b as nat),
        score <= SCORE_LIMIT,
{
    let x: u64 = a + b;
    let weight = weigh_sum(x);
    proof {
        lemma_sum_limit(x as nat);
    }
    let k = divide(x, weight);
    k * weight
}

/// What stands in both rankings scores more than it does in either alone.
pub proof fn law_both_score_higher(a: nat, b: nat)
    ensures
        summed(place_score(a), place_score(b)) > place_score(a),
        summed(place_score(a), place_score(b)) > place_score(b),
{
    lemma_place_score(a);
    lemma_place_score(b);
    let x = place_score(a) + place_score(b);
    lemma_sum_limit(x);
    lemma_round_bounds(x, sum_weight(x, 1));
}

proof fn lemma_place_score(place: nat)
    ensures
        0x80_0000 <= place_score(place) <= PLACE_LIMIT,
{
    let n = divisor(place);
    let weight = quotient_weight(n, 64, 2048);
    let bound = lemma_weight(n);
    lemma_quotient(n, bound, weight);
    let k = rounded(ONE as nat / weight, n);
    assert(k * weight >= k) by (nonlinear_arith)
        requires
            weight >= 1,
    ;
}

proof fn lemma_rounded(n: nat, d: nat)
    requires
        d > 0,
    ensures
        2 * n <= 2 * (rounded(n, d) * d) + d,
        2 * (rounded(n, d) * d) <= 2 * n + d,
{
    let q = n / d;
    vstd::arithmetic::div_mod::lemma_fundamental_div_mod(n as int, d as int);
    assert((q + 1) * d == q * d + d) by (nonlinear_arith);
    assert(d * q == q * d) by (nonlinear_arith);
}

/// The score of a place is one divided by its divisor, but for the rounding to 24
/// significant bits: times the divisor it is one, give or take a unit of two to
/// the power of -24.
pub proof fn law_place_score_rounds(place: nat)
    ensures
        2 * ONE <= 2 * (place_score(place) * divisor(place)) + 0x2_0000,
        2 * (place_score(place) * divisor(place)) <= 2 * ONE + 0x2_0000,
{
    let n = divisor(place);
    let w = quotient_weight(n, 64, 2048);
    let bound = lemma_weight(n);
    lemma_quotient(n, bound, w);
    let m = ONE as nat / w;
    let k = rounded(m, n);
    lemma_rounded(m, n);
    assert(m * w == ONE) by (nonlinear_arith)
        requires
            m == 0x80_0000 * bound,
            bound * w == 0x2_0000,
            ONE == 0x100_0000_0000u64,
    ;
    assert(n * w <= 0x2_0000) by (nonlinear_arith)
        requires
            n <= bound,
            bound * w == 0x2_0000,
    ;
    assert(2 * (m * w) <= 2 * ((k * w) * n) + n * w && 2 * ((k * w) * n) <= 2 * (m * w) + n * w)
        by (nonlinear_arith)
        requires
            2 * m <= 2 * (k * n) + n,
            2 * (k * n) <= 2 * m + n,
            w >= 0,
    ;
}

/// The divisor of a place is sixty-one for the first and one more for each that
/// follows, as far as places are told apart.
pub proof fn law_divisor(place: nat)
    ensures
        place <= 65535 ==> divisor(place) == 61 + place,
        place > 65535 ==> divisor(place) == 65596,
        ONE == 0x100_0000_0000u64,
{
}

/// A result further down a ranking scores less, as far as places are told apart.
pub proof fn law_place_scores_fall(a: nat, b: nat)
    requires
        a < b <= LAST_PLACE,
    ensures
        place_score(a) > place_score(b),
{
    law_place_score_rounds(a);
    law_place_score_rounds(b);
    lemma_place_score(a);
    let x = place_score(a);
    let y = place_score(b);
    let n = divisor(a);
    let m = divisor(b);
    if x <= y {
        assert(2 * (x * n) + 2 * x <= 2 * (y * m)) by (nonlinear_arith)
            requires
                x <= y,
                n + 1 <= m,
        ;
    }
}

/// The sum of two scores is exact but for the rounding to 24 significant bits.
pub proof fn law_sum_rounds(a: nat, b: nat)
    requires
        a + b <= SCORE_LIMIT + PLACE_LIMIT,
    ensures
        MANTISSA * summed(a, b) <= MANTISSA * (a + b) + (a + b),
        MANTISSA * (a + b) <= MANTISSA * summed(a, b) + (a + b),
{
    let x = a + b;
    let w = sum_weight(x, 1);
    lemma_sum_limit(x);
    lemma_round_bounds(x, w);
    lemma_rounded(x, w);
    let y = rounded(x, w) * w;
    if w == 1 {
        assert(y == x);
    }
}

proof fn lemma_rounded_even(n: nat, d: nat)
    requires
        d > 0,
    ensures
        2 * (rounded(n, d) * d) == 2 * n + d ==> rounded(n, d) % 2 == 0,
        2 * (rounded(n, d) * d) + d == 2 * n ==> rounded(n, d) % 2 == 0,
{
    let q = n / d;
    vstd::arithmetic::div_mod::lemma_fundamental_div_mod(n as int, d as int);
    assert((q + 1) * d == q * d + d) by (nonlinear_arith);
    assert(d * q == q * d) by (nonlinear_arith);
}

/// The sum of two scores is the nearest number with a significand of 24 bits, `k`
/// times a power of two, and of two that are as near the one with an even `k`.
pub proof fn law_sum_nearest(a: nat, b: nat) -> (parts: (nat, nat))
    requires
        a + b <= SCORE_LIMIT + PLACE_LIMIT,
    ensures
        ({
            let (k, e) = parts;
            let x = a + b;
            let unit = pow2(e);
            &&& summed(a, b) == k * unit
            &&& x < 0x100_0000 * unit
            &&& e > 0 ==> x >= 0x80_0000 * unit
            &&& 2 * x <= 2 * (k * unit) + unit && 2 * (k * unit) <= 2 * x + unit
            &&& 2 * x == 2 * (k * unit) + unit || 2 * (k * unit) == 2 * x + unit ==> k % 2 == 0
        }),
{
    let x = a + b;
    vstd::arithmetic::power2::lemma2_to64();
    vstd::arithmetic::power2::lemma2_to64_rest();
    lemma_sum_weight(x, 0);
    let e = choose|e: nat|
        0 <= e <= 37 && sum_weight(x, pow2(0)) == #[trigger] pow2(e) && x < MANTISSA * pow2(e) && (e
            > 0 ==> x >= MANTISSA * pow2((e - 1) as nat));
    let unit = pow2(e);
    vstd::arithmetic::power2::lemma_pow2_pos(e);
    if e > 0 {
        lemma_pow2_unfold(e);
    }
    let k = rounded(x, unit);
    lemma_rounded(x, unit);
    lemma_rounded_even(x, unit);
    (k, e)
}

/// The score of a place is one, of which 2 to the power of 40 make up a whole,
/// divided by its divisor and rounded to the nearest number with a significand `k`
/// of 24 bits; of two that are as near it is the one with an even `k`.
pub proof fn law_place_score_nearest(place: nat) -> (parts: (nat, nat))
    ensures
        ({
            let (k, unit) = parts;
            let n = divisor(place);
            let units = 0x100_0000_0000nat / unit;
            &&& unit > 0 && units * unit == 0x100_0000_0000
            &&& place_score(place) == k * unit
            &&& 0x80_0000 <= k <= 0x100_0000
            &&& 2 * units <= 2 * (k * n) + n && 2 * (k * n) <= 2 * units + n
            &&& 2 * units == 2 * (k * n) + n || 2 * (k * n) == 2 * units + n ==> k % 2 == 0
        }),
{
    let n = divisor(place);
    let w = quotient_weight(n, 64, 2048);
    let bound = lemma_weight(n);
    lemma_quotient(n, bound, w);
    let m = ONE as nat / w;
    let k = rounded(m, n);
    lemma_rounded(m, n);
    lemma_rounded_even(m, n);
    assert(m * w == ONE) by (nonlinear_arith)
        requires
            m == 0x80_0000 * bound,
            bound * w == 0x2_0000,
            ONE == 0x100_0000_0000u64,
    ;
    assert(k <= 0x100_0000) by {
        let q = m / n;
        assert(q + 1 <= 0x100_0000) by (nonlinear_arith)
            requires
                m == 0x80_0000 * bound,
                bound < 2 * n,
                n > 0,
                q == m / n,
        ;
    }
    (k, w)
}

/// A result with its score.
pub struct Fused {
    pub score: u64,
    pub item: ThoughtMatch,
}

/// What a `Fused` holds.
#[verifier::ext_equal]
pub struct FusedView {
    pub score: nat,
    pub item: ThoughtMatchView,
}

impl View for Fused {
    type V = FusedView;

    open spec fn view(&self) -> FusedView {
        FusedView { score: self.score as nat, item: self.item@ }
    }
}

/// Best score first, then newest thought first.
pub struct BestFirst;

impl RowOrder<Fused> for BestFirst {
    open spec fn before(a: FusedView, b: FusedView) -> bool {
        b.score < a.score || (b.score == a.score && b.item.thought.created_at
            < a.item.thought.created_at)
    }

    proof fn asymmetric(a: FusedView, b: FusedView) {
    }

    proof fn negatively_transitive(a: FusedView, b: FusedView, c: FusedView) {
    }

    fn is_before(a: &Fused, b: &Fused) -> (r: bool) {
        b.score < a.score || (b.score == a.score && b.item.thought.created_at
            < a.item.thought.created_at)
    }
}

/// Where the first result for the thought stands, or how many there are.
pub open spec fn place_of(results: Seq<FusedView>, id: Seq<u8>) -> int
    decreases results.len(),
{
    if results.len() == 0 {
        0
    } else {
        let front = results.drop_last();
        if place_of(front, id) < front.len() || results.last().item.thought.id == id {
            place_of(front, id)
        } else {
            results.len() as int
        }
    }
}

/// The results with one more, from the place `place` of its ranking. A thought
/// that is there already scores more, and keeps how it is shown unless only the
/// new result has something to highlight.
pub open spec fn with_result(
    results: Seq<FusedView>,
    item: ThoughtMatchView,
    place: nat,
) -> Seq<FusedView> {
    let i = place_of(results, item.thought.id);
    if i < results.len() {
        let known = results[i];
        results.update(
            i,
            FusedView {
                score: summed(known.score, place_score(place)),
                item: if known.item.ranges.len() == 0 && item.ranges.len() > 0 {
                    item
                } else {
                    known.item
                },
            },
        )
    } else {
        results.push(FusedView { score: place_score(place), item })
    }
}

/// The results with those of one ranking.
pub open spec fn with_ranking(results: Seq<FusedView>, ranking: Seq<ThoughtMatchView>) -> Seq<
    FusedView,
>
    decreases ranking.len(),
{
    if ranking.len() == 0 {
        results
    } else {
        with_result(
            with_ranking(results, ranking.drop_last()),
            ranking.last(),
            (ranking.len() - 1) as nat,
        )
    }
}

/// The fused results, best first.
pub open spec fn fused(
    keyword: Seq<ThoughtMatchView>,
    semantic: Seq<ThoughtMatchView>,
    top_k: nat,
) -> Seq<ThoughtMatchView> {
    let results = limited(
        ranked::<Fused, BestFirst>(with_ranking(with_ranking(Seq::empty(), keyword), semantic)),
        top_k,
    );
    Seq::new(results.len(), |i: int| results[i].item)
}

proof fn lemma_place_of(results: Seq<FusedView>, id: Seq<u8>, i: int)
    requires
        0 <= i <= results.len(),
        forall|j: int| 0 <= j < i ==> (#[trigger] results[j]).item.thought.id != id,
        i < results.len() ==> results[i].item.thought.id == id,
    ensures
        place_of(results, id) == i,
    decreases results.len(),
{
    if results.len() > 0 {
        let front = results.drop_last();
        let k = if i < front.len() {
            i
        } else {
            front.len() as int
        };
        lemma_place_of(front, id, k);
    }
}

/// The place of the first result for the thought.
fn find_result(results: &Vec<Fused>, item: &ThoughtMatch) -> (i: usize)
    ensures
        i <= results@.len(),
        i == place_of(seen(results@), item@.thought.id),
{
    let ghost all = seen(results@);
    let mut i: usize = 0;
    while i < results.len()
        invariant
            i <= results@.len(),
            all == seen(results@),
            forall|j: int| 0 <= j < i ==> (#[trigger] all[j]).item.thought.id != item@.thought.id,
        decreases results.len() - i,
    {
        if results[i].item.thought.id.same(&item.thought.id) {
            proof {
                lemma_place_of(all, item@.thought.id, i as int);
            }
            return i;
        }
        i += 1;
    }
    proof {
        lemma_place_of(all, item@.thought.id, i as int);
    }
    i
}

/// Adds the results of one ranking.
fn add_ranking(results: &mut Vec<Fused>, ranking: Vec<ThoughtMatch>)
    requires
        forall|i: int| 0 <= i < old(results)@.len() ==> old(results)@[i].score <= SCORE_LIMIT,
    ensures
        seen(final(results)@) == with_ranking(seen(old(results)@), seen(ranking@)),
        forall|i: int| 0 <= i < final(results)@.len() ==> final(results)@[i].score <= SCORE_LIMIT,
{
    let ghost start = seen(results@);
    let ghost all = ranking@;
    let ghost list = seen(ranking@);
    let len: usize = ranking.len();
    let mut place: usize = 0;
    assert(list.take(0) =~= Seq::empty());
    for item in it: ranking.into_iter()
        invariant
            it.seq() == all,
            list == seen(all),
            place == it.index(),
            all.len() == len,
            seen(results@) == with_ranking(start, list.take(it.index() as int)),
            forall|i: int| 0 <= i < results@.len() ==> results@[i].score <= SCORE_LIMIT,
    {
        let ghost k = it.index() as int;
        proof {
            assert(list.take(k + 1).drop_last() =~= list.take(k));
            assert(list.take(k + 1).last() == item@);
        }
        let ghost before = results@;
        let score = score_at(place);
        let i = find_result(results, &item);
        if i < results.len() {
            let sum = sum_scores(results[i].score, score);
            results[i].score = sum;
            if results[i].item.ranges.len() == 0 && item.ranges.len() > 0 {
                results[i].item = item;
            }
            assert(seen(results@) =~= with_result(seen(before), item@, k as nat));
        } else {
            results.push(Fused { score, item });
            assert(seen(results@) =~= with_result(seen(before), item@, k as nat));
        }
        place += 1;
    }
    assert(list.take(list.len() as int) =~= list);
}

/// Merges a keyword ranking and a semantic one, and keeps the `top_k` best.
pub fn fuse(keyword: Vec<ThoughtMatch>, semantic: Vec<ThoughtMatch>, top_k: usize) -> (out: Vec<
    ThoughtMatch,
>)
    ensures
        seen(out@) == fused(seen(keyword@), seen(semantic@), top_k as nat),
{
    let ghost a = seen(keyword@);
    let ghost b = seen(semantic@);
    let mut results: Vec<Fused> = Vec::new();
    assert(seen(results@) =~= Seq::empty());
    add_ranking(&mut results, keyword);
    add_ranking(&mut results, semantic);
    let keep = |x: &Fused| -> (r: bool)
        ensures
            r,
    {
        true
    };
    let found = select(&results, keep, Ghost(|x: FusedView| true));
    proof {
        law_kept_everything(seen(results@));
    }
    let mut best = rank::<Fused, BestFirst>(&found);
    cut(&mut best, top_k);
    let ghost wanted = limited(
        ranked::<Fused, BestFirst>(with_ranking(with_ranking(Seq::empty(), a), b)),
        top_k as nat,
    );
    let mut out: Vec<ThoughtMatch> = Vec::new();
    let mut i: usize = 0;
    while i < best.len()
        invariant
            i <= best@.len(),
            wanted == views(best@),
            out@.len() == i,
            forall|j: int| 0 <= j < i ==> (#[trigger] out@[j])@ == wanted[j].item,
        decreases best.len() - i,
    {
        let result: &Fused = best[i];
        assert(wanted[i as int] == result@);
        out.push(result.item.duplicate());
        i += 1;
    }
    assert(seen(out@) =~= fused(a, b, top_k as nat));
    out
}

pub(crate) proof fn lemma_place_found(results: Seq<FusedView>, id: Seq<u8>)
    ensures
        0 <= place_of(results, id) <= results.len(),
        place_of(results, id) < results.len() ==> results[place_of(
            results,
            id,
        )].item.thought.id == id,
        forall|i: int|
            0 <= i < place_of(results, id) ==> (#[trigger] results[i]).item.thought.id != id,
    decreases results.len(),
{
    if results.len() > 0 {
        let front = results.drop_last();
        lemma_place_found(front, id);
        let k = place_of(results, id);
        assert forall|i: int| 0 <= i < k implies (#[trigger] results[i]).item.thought.id != id by {
            if i < front.len() {
                assert(front[i] == results[i]);
            }
        }
    }
}

/// The relation by which no two results are of the same thought.
pub(crate) open spec fn apart() -> spec_fn(FusedView, FusedView) -> bool {
    |a: FusedView, b: FusedView| a.item.thought.id != b.item.thought.id
}

pub(crate) proof fn lemma_ranking_apart(results: Seq<FusedView>, ranking: Seq<ThoughtMatchView>)
    requires
        pairwise(results, apart()),
    ensures
        pairwise(with_ranking(results, ranking), apart()),
    decreases ranking.len(),
{
    if ranking.len() > 0 {
        let before = with_ranking(results, ranking.drop_last());
        let after = with_ranking(results, ranking);
        let item = ranking.last();
        lemma_ranking_apart(results, ranking.drop_last());
        lemma_place_found(before, item.thought.id);
        let k = place_of(before, item.thought.id);
        assert forall|i: int, j: int| 0 <= i < j < after.len() implies apart()(
            #[trigger] after[i],
            #[trigger] after[j],
        ) by {
            if j < before.len() {
                assert(apart()(before[i], before[j]));
            } else {
                assert(before[i].item.thought.id != item.thought.id);
            }
        }
    }
}

/// Every thought is among the fused results at most once.
pub proof fn law_fused_once(
    keyword: Seq<ThoughtMatchView>,
    semantic: Seq<ThoughtMatchView>,
    top_k: nat,
)
    ensures
        forall|i: int, j: int|
            0 <= i < j < fused(keyword, semantic, top_k).len() ==> (#[trigger] fused(
                keyword,
                semantic,
                top_k,
            )[i]).thought.id != (#[trigger] fused(keyword, semantic, top_k)[j]).thought.id,
{
    let none: Seq<FusedView> = Seq::empty();
    lemma_ranking_apart(none, keyword);
    let first = with_ranking(none, keyword);
    lemma_ranking_apart(first, semantic);
    let both = with_ranking(first, semantic);
    law_ranked_pairwise::<Fused, BestFirst>(both, apart());
    let all = ranked::<Fused, BestFirst>(both);
    let out = fused(keyword, semantic, top_k);
    assert forall|i: int, j: int| 0 <= i < j < out.len() implies (#[trigger] out[i]).thought.id
        != (#[trigger] out[j]).thought.id by {
        assert(apart()(all[i], all[j]));
    }
}

} // verus!
