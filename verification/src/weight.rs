//! Fixed-point weights and the arithmetic of waves.
//!
//! A weight is a `u32` that stands for the real number `w / UNIT`. A wave is
//! seen here as the sequence of its weights.

use crate::roots::{lemma_root, lemma_root_of_square, root};
use vstd::prelude::*;

verus! {

/// The integer that stands for the weight 1.
pub const UNIT: u32 = 65536;

/// The sum of the weights.
pub open spec fn total(w: Seq<u32>) -> nat
    decreases w.len(),
{
    if w.len() == 0 {
        0
    } else {
        total(w.drop_last()) + w.last() as nat
    }
}

/// The largest weight, 0 for an empty wave.
pub open spec fn peak(w: Seq<u32>) -> nat
    decreases w.len(),
{
    if w.len() == 0 {
        0
    } else if peak(w.drop_last()) >= w.last() {
        peak(w.drop_last())
    } else {
        w.last() as nat
    }
}

/// `k` is the first position that holds the largest weight.
pub open spec fn is_first_max(w: Seq<u32>, k: int) -> bool {
    &&& 0 <= k < w.len()
    &&& forall|j: int| 0 <= j < w.len() ==> w[j] <= w[k]
    &&& forall|j: int| 0 <= j < k ==> w[j] < w[k]
}

/// The first position that holds the largest weight.
pub open spec fn first_max(w: Seq<u32>) -> int {
    choose|k: int| is_first_max(w, k)
}

/// The wave of length `len` with weight 1 at `k` and 0 elsewhere.
pub open spec fn one_hot(len: nat, k: int) -> Seq<u32> {
    Seq::new(len, |j: int| if j == k { UNIT } else { 0u32 })
}

/// No state is left: every weight is 0.
pub open spec fn is_contradiction(w: Seq<u32>) -> bool {
    forall|k: int| 0 <= k < w.len() ==> w[k] == 0
}

/// Exactly one weight is not 0.
pub open spec fn is_resolved(w: Seq<u32>) -> bool {
    exists|k: int| is_only_state(w, k)
}

/// The weight at `k` is the only one that is not 0.
pub open spec fn is_only_state(w: Seq<u32>, k: int) -> bool {
    &&& 0 <= k < w.len()
    &&& w[k] > 0
    &&& forall|j: int| 0 <= j < w.len() && j != k ==> w[j] == 0
}

/// At least two weights are not 0.
pub open spec fn is_undecided(w: Seq<u32>) -> bool {
    exists|a: int, b: int| two_states(w, a, b)
}

/// `a` and `b` are two different states of positive weight.
pub open spec fn two_states(w: Seq<u32>, a: int, b: int) -> bool {
    0 <= a < b < w.len() && w[a] > 0 && w[b] > 0
}

/// `a / b`, rounded up.
pub open spec fn ceil_div(a: nat, b: nat) -> nat {
    ((a + b - 1) / (b as int)) as nat
}

/// The square root of a sum of weights, as a weight: rounded down.
pub open spec fn scale_root(sum: nat) -> nat {
    root(sum * UNIT as nat)
}

/// The weight `w` of a wave whose weights sum to `sum`, after normalization:
/// `w` divided by the square root of the sum. The root is rounded down and
/// the quotient up, so that a positive weight stays positive.
pub open spec fn scaled(w: u32, sum: nat) -> nat {
    ceil_div(w as nat * UNIT as nat, scale_root(sum))
}

/// The wave after normalization: every weight divided by the square root of
/// the sum of all of them.
pub open spec fn normalized(w: Seq<u32>) -> Seq<u32> {
    Seq::new(w.len(), |k: int| scaled(w[k], total(w)) as u32)
}

/// The entropy of a wave: 1 minus the largest weight over the sum, rounded
/// up; 0 for a contradiction.
pub open spec fn entropy_of(w: Seq<u32>) -> nat {
    if total(w) == 0 {
        0
    } else {
        ceil_div(((total(w) - peak(w)) * UNIT) as nat, total(w))
    }
}

/// No weight exceeds the peak, the peak does not exceed the sum, and the sum
/// of `n` weights is below `n * 2^32`.
pub proof fn lemma_weight_bounds(w: Seq<u32>)
    ensures
        peak(w) <= total(w),
        total(w) <= w.len() * 0xffff_ffff,
        forall|k: int| 0 <= k < w.len() ==> w[k] <= peak(w),
    decreases w.len(),
{
    if w.len() > 0 {
        let v = w.drop_last();
        lemma_weight_bounds(v);
        assert forall|k: int| 0 <= k < w.len() implies w[k] <= peak(w) by {
            if k < w.len() - 1 {
                assert(v[k] == w[k]);
            }
        }
        assert((w.len() - 1) * 0xffff_ffff + 0xffff_ffff == w.len() * 0xffff_ffff)
            by (nonlinear_arith);
    }
}

/// The sum is 0 exactly when every weight is.
pub proof fn lemma_total_zero(w: Seq<u32>)
    ensures
        total(w) == 0 <==> is_contradiction(w),
    decreases w.len(),
{
    if w.len() > 0 {
        let v = w.drop_last();
        lemma_total_zero(v);
        if total(w) == 0 {
            assert forall|k: int| 0 <= k < w.len() implies w[k] == 0 by {
                if k < w.len() - 1 {
                    assert(v[k] == w[k]);
                }
            }
        }
        if is_contradiction(w) {
            assert forall|k: int| 0 <= k < v.len() implies v[k] == 0 by {
                assert(v[k] == w[k]);
            }
            assert(w.last() == w[w.len() - 1]);
        }
    }
}

/// A wave that is not empty has a first largest weight, and it is the peak.
pub proof fn lemma_first_max(w: Seq<u32>)
    requires
        w.len() > 0,
    ensures
        is_first_max(w, first_max(w)),
        w[first_max(w)] == peak(w),
    decreases w.len(),
{
    let v = w.drop_last();
    let last = w.len() - 1;
    lemma_weight_bounds(w);
    if w.len() == 1 {
        assert(peak(v) == 0);
        assert(is_first_max(w, 0));
    } else {
        lemma_first_max(v);
        lemma_weight_bounds(v);
        let b = first_max(v);
        assert(v[b] == w[b]);
        if peak(v) >= w.last() {
            assert forall|j: int| 0 <= j < w.len() implies w[j] <= w[b] by {
                if j < last {
                    assert(v[j] == w[j]);
                }
            }
            assert forall|j: int| 0 <= j < b implies w[j] < w[b] by {
                assert(v[j] == w[j]);
            }
            assert(is_first_max(w, b));
        } else {
            assert forall|j: int| 0 <= j < last implies w[j] < w[last] by {
                assert(v[j] == w[j]);
            }
            assert(is_first_max(w, last));
        }
    }
    let k = first_max(w);
    assert(w[k] <= peak(w));
    assert(exists|j: int| 0 <= j < w.len() && w[j] == peak(w)) by {
        lemma_peak_attained(w);
    }
}

/// The peak of a wave that is not empty is one of its weights.
pub proof fn lemma_peak_attained(w: Seq<u32>)
    requires
        w.len() > 0,
    ensures
        exists|j: int| 0 <= j < w.len() && w[j] == peak(w),
    decreases w.len(),
{
    let v = w.drop_last();
    let last = w.len() - 1;
    if w.len() == 1 || peak(v) < w.last() {
        if w.len() == 1 {
            assert(peak(v) == 0);
        }
        assert(w[last] == peak(w));
    } else {
        lemma_peak_attained(v);
        let j = choose|j: int| 0 <= j < v.len() && v[j] == peak(v);
        assert(w[j] == peak(w));
    }
}

/// At most one position is the first largest weight.
pub proof fn lemma_first_max_unique(w: Seq<u32>, a: int, b: int)
    requires
        is_first_max(w, a),
        is_first_max(w, b),
    ensures
        a == b,
{
    if a < b {
        assert(w[a] < w[b]);
        assert(w[b] <= w[a]);
    } else if b < a {
        assert(w[b] < w[a]);
        assert(w[a] <= w[b]);
    }
}

/// The sum equals the peak exactly when at most one weight is not 0.
pub proof fn lemma_total_is_peak(w: Seq<u32>)
    ensures
        total(w) == peak(w) <==> !is_undecided(w),
    decreases w.len(),
{
    if w.len() > 0 {
        let v = w.drop_last();
        let last = w.len() - 1;
        lemma_total_is_peak(v);
        lemma_total_zero(v);
        lemma_weight_bounds(v);
        assert(forall|j: int| 0 <= j < v.len() ==> v[j] == w[j]);
        if w.last() == 0 {
            if is_undecided(w) {
                let (a, b) = choose|a: int, b: int| two_states(w, a, b);
                assert(two_states(v, a, b));
            }
            if is_undecided(v) {
                let (a, b) = choose|a: int, b: int| two_states(v, a, b);
                assert(two_states(w, a, b));
            }
        } else {
            if total(v) == 0 {
                if is_undecided(w) {
                    let (a, b) = choose|a: int, b: int| two_states(w, a, b);
                    assert(v[a] == 0);
                }
            } else {
                let a = choose|a: int| 0 <= a < v.len() && v[a] != 0;
                assert(two_states(w, a, last));
            }
        }
    } else {
        if is_undecided(w) {
            let (a, b) = choose|a: int, b: int| two_states(w, a, b);
        }
    }
}

/// A wave with a positive sum is either resolved or undecided.
pub proof fn lemma_resolved_or_undecided(w: Seq<u32>)
    requires
        total(w) > 0,
    ensures
        is_resolved(w) <==> !is_undecided(w),
{
    lemma_total_zero(w);
    let k = choose|k: int| 0 <= k < w.len() && w[k] != 0;
    if is_resolved(w) {
        let r = choose|r: int| is_only_state(w, r);
        if is_undecided(w) {
            let (a, b) = choose|a: int, b: int| two_states(w, a, b);
            assert(a == r && b == r);
        }
    }
    if !is_undecided(w) {
        assert forall|j: int| 0 <= j < w.len() && j != k implies w[j] == 0 by {
            if w[j] != 0 {
                if j < k {
                    assert(two_states(w, j, k));
                } else {
                    assert(two_states(w, k, j));
                }
            }
        }
        assert(is_only_state(w, k));
    }
}

/// Rounding up gives the least multiple that reaches the dividend.
pub proof fn lemma_ceil_div(a: nat, b: nat)
    requires
        b > 0,
    ensures
        a <= ceil_div(a, b) * b < a + b,
        ceil_div(a, b) == 0 <==> a == 0,
{
    let n = (a + b - 1) as int;
    let d = b as int;
    vstd::arithmetic::div_mod::lemma_fundamental_div_mod(n, d);
    vstd::arithmetic::div_mod::lemma_mod_bound(n, d);
    vstd::arithmetic::div_mod::lemma_div_pos_is_pos(n, d);
    let q = n / d;
    assert(d * q == q * d) by (nonlinear_arith);
    assert(ceil_div(a, b) == q);
    if a == 0 {
        assert(q == 0) by (nonlinear_arith)
            requires
                0 <= q * d < d,
                d > 0,
        ;
    } else {
        assert(q != 0) by (nonlinear_arith)
            requires
                q * d >= 1,
        ;
    }
}

/// A quotient rounded up stays at or below `q` when the dividend stays at or below `q * b`.
pub proof fn lemma_ceil_div_at_most(a: nat, b: nat, q: nat)
    requires
        b > 0,
        a <= q * b,
    ensures
        ceil_div(a, b) <= q,
{
    lemma_ceil_div(a, b);
    let c = ceil_div(a, b);
    assert(c <= q) by (nonlinear_arith)
        requires
            c * b < a + b,
            a <= q * b,
            b > 0,
    ;
}

/// A quotient rounded up exceeds `q` when the dividend exceeds `q * b`.
pub proof fn lemma_ceil_div_above(a: nat, b: nat, q: nat)
    requires
        b > 0,
        a > q * b,
    ensures
        ceil_div(a, b) > q,
{
    lemma_ceil_div(a, b);
    let c = ceil_div(a, b);
    assert(c > q) by (nonlinear_arith)
        requires
            a <= c * b,
            a > q * b,
            b > 0,
    ;
}

/// The root by which a wave of positive sum is divided: at least 1, at least
/// `UNIT` when the sum is at least 1, and between the sum and `UNIT` otherwise.
pub proof fn lemma_scale_root(sum: nat)
    requires
        sum > 0,
    ensures
        scale_root(sum) >= 1,
        sum >= UNIT ==> scale_root(sum) >= UNIT,
        sum < UNIT ==> sum <= scale_root(sum) < UNIT,
{
    let n = sum * UNIT as nat;
    let r = root(n);
    let u = UNIT as nat;
    lemma_root(n);
    assert(n >= 1) by (nonlinear_arith)
        requires
            n == sum * u,
            sum >= 1,
            u == 65536,
    ;
    if r == 0 {
        assert((r + 1) * (r + 1) == 1) by (nonlinear_arith)
            requires
                r == 0,
        ;
    }
    if sum >= u && r < u {
        assert((r + 1) * (r + 1) <= sum * u) by (nonlinear_arith)
            requires
                r + 1 <= u,
                u <= sum,
        ;
    }
    if sum < u {
        if r >= u {
            assert(r * r > sum * u) by (nonlinear_arith)
                requires
                    r >= u,
                    u > sum,
                    sum > 0,
            ;
        }
        if r < sum {
            assert((r + 1) * (r + 1) <= sum * u) by (nonlinear_arith)
                requires
                    r + 1 <= sum,
                    sum < u,
            ;
        }
    }
}

/// What normalization does to one weight of a wave with a positive sum: the
/// weight stays positive or stays 0, it fits a `u32`, it does not grow when
/// the sum is at least 1, and it grows when the sum is below 1.
pub proof fn lemma_scaled(w: u32, sum: nat)
    requires
        0 < sum,
        w <= sum,
    ensures
        scaled(w, sum) > 0 <==> w > 0,
        scaled(w, sum) <= 0xffff_ffff,
        sum >= UNIT ==> scaled(w, sum) <= w,
        sum < UNIT ==> scaled(w, sum) <= UNIT,
        sum < UNIT && w > 0 ==> scaled(w, sum) > w,
{
    let u = UNIT as nat;
    let r = root(sum * u);
    let a = w as nat * u;
    lemma_scale_root(sum);
    lemma_ceil_div(a, r);
    assert(a == 0 <==> w == 0) by (nonlinear_arith)
        requires
            a == w as nat * u,
            u == 65536,
    ;
    if sum >= u {
        assert(a <= w as nat * r) by (nonlinear_arith)
            requires
                a == w as nat * u,
                u <= r,
        ;
        lemma_ceil_div_at_most(a, r, w as nat);
    } else {
        assert(a <= u * r) by (nonlinear_arith)
            requires
                a == w as nat * u,
                w <= r,
        ;
        lemma_ceil_div_at_most(a, r, u);
        if w > 0 {
            assert(a > w as nat * r) by (nonlinear_arith)
                requires
                    a == w as nat * u,
                    r < u,
                    w > 0,
            ;
            lemma_ceil_div_above(a, r, w as nat);
        }
    }
}

/// Normalization keeps the order of the weights.
pub proof fn lemma_scaled_monotonic(a: u32, b: u32, sum: nat)
    requires
        0 < sum,
        a <= b,
    ensures
        scaled(a, sum) <= scaled(b, sum),
{
    let u = UNIT as nat;
    let r = root(sum * u);
    lemma_scale_root(sum);
    assert(a as nat * u <= b as nat * u) by (nonlinear_arith)
        requires
            a <= b,
    ;
    vstd::arithmetic::div_mod::lemma_div_is_ordered(
        (a as nat * u + r - 1) as int,
        (b as nat * u + r - 1) as int,
        r as int,
    );
}

/// Normalization of a wave with a positive sum: the length stays, every
/// weight is scaled without truncation, and a weight is 0 after it exactly
/// when it was 0 before. So the wave stays resolved or undecided as it was,
/// and its sum stays positive.
pub proof fn lemma_normalized(w: Seq<u32>)
    requires
        total(w) > 0,
    ensures
        normalized(w).len() == w.len(),
        forall|k: int| 0 <= k < w.len() ==> normalized(w)[k] == scaled(w[k], total(w)),
        forall|k: int| 0 <= k < w.len() ==> (normalized(w)[k] > 0 <==> w[k] > 0),
        total(normalized(w)) > 0,
        is_undecided(normalized(w)) <==> is_undecided(w),
        is_resolved(normalized(w)) <==> is_resolved(w),
{
    let n = normalized(w);
    lemma_weight_bounds(w);
    assert forall|k: int| 0 <= k < w.len() implies n[k] == scaled(w[k], total(w)) && (n[k] > 0
        <==> w[k] > 0) by {
        lemma_scaled(w[k], total(w));
    }
    lemma_total_zero(w);
    lemma_total_zero(n);
    let p = choose|k: int| 0 <= k < w.len() && w[k] != 0;
    assert(n[p] > 0);
    if is_undecided(w) {
        let (a, b) = choose|a: int, b: int| two_states(w, a, b);
        assert(two_states(n, a, b));
    }
    if is_undecided(n) {
        let (a, b) = choose|a: int, b: int| two_states(n, a, b);
        assert(two_states(w, a, b));
    }
    lemma_resolved_or_undecided(w);
    lemma_resolved_or_undecided(n);
}

/// The entropy is at most 1, and positive exactly for an undecided wave.
pub proof fn lemma_entropy(w: Seq<u32>)
    ensures
        entropy_of(w) <= UNIT,
        entropy_of(w) > 0 <==> is_undecided(w),
{
    let t = total(w);
    let p = peak(w);
    let u = UNIT as nat;
    lemma_weight_bounds(w);
    lemma_total_is_peak(w);
    if t > 0 {
        let a = ((t - p) * u) as nat;
        lemma_ceil_div(a, t);
        assert(a <= u * t) by (nonlinear_arith)
            requires
                a == (t - p) * u,
                p <= t,
        ;
        lemma_ceil_div_at_most(a, t, u);
        assert(a == 0 <==> t == p) by (nonlinear_arith)
            requires
                a == (t - p) * u,
                p <= t,
                u == 65536,
        ;
    }
}

/// A one-hot wave: its sum and its peak are 1, its only state is `k`,
/// normalization leaves it as it is, and its entropy is 0.
pub proof fn lemma_one_hot(len: nat, k: int)
    requires
        0 <= k < len,
    ensures
        total(one_hot(len, k)) == UNIT,
        peak(one_hot(len, k)) == UNIT,
        is_only_state(one_hot(len, k), k),
        is_first_max(one_hot(len, k), k),
        normalized(one_hot(len, k)) == one_hot(len, k),
        entropy_of(one_hot(len, k)) == 0,
{
    let w = one_hot(len, k);
    let u = UNIT as nat;
    assert(is_only_state(w, k));
    if is_undecided(w) {
        let (a, b) = choose|a: int, b: int| two_states(w, a, b);
        assert(a == k && b == k);
    }
    lemma_total_is_peak(w);
    lemma_weight_bounds(w);
    lemma_peak_attained(w);
    assert(w[k] <= peak(w));
    lemma_entropy(w);
    lemma_root_of_square(u);
    assert(root(total(w) * u) == u);
    assert forall|j: int| 0 <= j < len implies normalized(w)[j] == w[j] by {
        if j == k {
            lemma_ceil_div(u * u, u);
            lemma_ceil_div_at_most(u * u, u, u);
            lemma_ceil_div_above(u * u, u, (u - 1) as nat);
        } else {
            lemma_ceil_div(0, u);
            assert(0 * u == 0);
        }
    }
    assert(normalized(w) =~= w);
}

} // verus!
