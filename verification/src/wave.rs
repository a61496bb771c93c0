//! Waves: one weight per base state.

use crate::adjacency::Adjacency;
use crate::engine::{entropies_of, first_dead, lemma_first_dead_is, masked};
use crate::error::{CollapseError, Contradiction};
use crate::random::gen_range;
use crate::roots::{integer_sqrt, lemma_root};
use crate::weight::{
    entropy_of, first_max, is_first_max, lemma_ceil_div, lemma_entropy, lemma_first_max,
    lemma_first_max_unique, lemma_normalized, lemma_scale_root, lemma_scaled,
    lemma_weight_bounds, normalized, one_hot, peak, scale_root, scaled, total, UNIT,
};
use rand::rngs::StdRng;
use vstd::prelude::*;

verus! {

/// The weights of one cell, one per base state.
#[derive(Debug)]
pub struct Wave {
    c: Vec<u32>,
}

impl View for Wave {
    type V = Seq<u32>;

    closed spec fn view(&self) -> Seq<u32> {
        self.c@
    }
}

/// The weights of each wave of a sequence.
pub open spec fn weights_of(waves: Seq<Wave>) -> Seq<Seq<u32>> {
    Seq::new(waves.len(), |i: int| waves[i]@)
}

/// Every weight is positive and below 1.
pub open spec fn is_fresh(w: Seq<u32>) -> bool {
    forall|k: int| 0 <= k < w.len() ==> 1 <= #[trigger] w[k] < UNIT
}

impl Wave {
    /// The wave with the given weights.
    pub fn from_weights(c: Vec<u32>) -> (wave: Wave)
        ensures
            wave@ == c@,
    {
        Wave { c }
    }

    /// The weights, in the order of the states.
    pub fn weights(&self) -> (c: &Vec<u32>)
        ensures
            c@ == self@,
    {
        &self.c
    }

    /// The number of states.
    pub fn len(&self) -> (n: usize)
        ensures
            n == self@.len(),
    {
        self.c.len()
    }

    /// A wave of `dimensions` random weights, each positive and below 1.
    pub fn new(dimensions: usize, rng: &mut StdRng) -> (wave: Wave)
        ensures
            wave@.len() == dimensions,
            is_fresh(wave@),
    {
        let mut c: Vec<u32> = Vec::new();
        let mut k: usize = 0;
        while k < dimensions
            invariant
                k <= dimensions,
                c.len() == k,
                is_fresh(c@),
            decreases dimensions - k,
        {
            let w: u32 = gen_range(rng, 1, UNIT);
            c.push(w);
            k += 1;
        }
        Wave { c }
    }

    /// `size` waves of `dimensions` random weights each.
    pub fn vec(dimensions: usize, size: usize, rng: &mut StdRng) -> (waves: Vec<Wave>)
        ensures
            waves.len() == size,
            forall|i: int| 0 <= i < size ==> (#[trigger] waves[i])@.len() == dimensions,
            forall|i: int| 0 <= i < size ==> is_fresh((#[trigger] waves[i])@),
    {
        let mut waves: Vec<Wave> = Vec::new();
        let mut i: usize = 0;
        while i < size
            invariant
                i <= size,
                waves.len() == i,
                forall|j: int| 0 <= j < i ==> (#[trigger] waves[j])@.len() == dimensions,
                forall|j: int| 0 <= j < i ==> is_fresh((#[trigger] waves[j])@),
            decreases size - i,
        {
            let wave = Wave::new(dimensions, rng);
            waves.push(wave);
            i += 1;
        }
        waves
    }

    /// The wave of `len` states with weight 1 at `k` and 0 elsewhere.
    pub fn one_hot(len: usize, k: usize) -> (wave: Wave)
        ensures
            wave@ == one_hot(len as nat, k as int),
    {
        let mut c: Vec<u32> = Vec::new();
        let mut j: usize = 0;
        while j < len
            invariant
                j <= len,
                c.len() == j,
                forall|i: int| 0 <= i < j ==> c[i] == (if i == k { UNIT } else { 0u32 }),
            decreases len - j,
        {
            c.push(if j == k { UNIT } else { 0 });
            j += 1;
        }
        assert(c@ =~= one_hot(len as nat, k as int));
        Wave { c }
    }

    /// The sum of the weights.
    pub fn sum(&self) -> (sum: u128)
        ensures
            sum == total(self@),
    {
        let mut sum: u128 = 0;
        let mut k: usize = 0;
        while k < self.c.len()
            invariant
                k <= self.c.len(),
                sum == total(self.c@.take(k as int)),
                sum <= k * 0xffff_ffff,
            decreases self.c.len() - k,
        {
            proof {
                let next = self.c@.take(k + 1);
                assert(next.drop_last() =~= self.c@.take(k as int));
                assert(next.last() == self.c[k as int]);
                assert((k + 1) * 0xffff_ffff == k * 0xffff_ffff + 0xffff_ffff) by (nonlinear_arith);
                assert(k * 0xffff_ffff <= 0xffff_ffff_ffff_ffff * 0xffff_ffff) by (nonlinear_arith)
                    requires
                        k <= 0xffff_ffff_ffff_ffff,
                ;
            }
            sum = sum + self.c[k] as u128;
            k += 1;
        }
        assert(self.c@.take(k as int) =~= self.c@);
        sum
    }

    /// The largest weight, 0 for an empty wave.
    pub fn largest(&self) -> (largest: u32)
        ensures
            largest == peak(self@),
    {
        let mut largest: u32 = 0;
        let mut k: usize = 0;
        while k < self.c.len()
            invariant
                k <= self.c.len(),
                largest == peak(self.c@.take(k as int)),
            decreases self.c.len() - k,
        {
            proof {
                let next = self.c@.take(k + 1);
                assert(next.drop_last() =~= self.c@.take(k as int));
                assert(next.last() == self.c[k as int]);
            }
            if self.c[k] > largest {
                largest = self.c[k];
            }
            k += 1;
        }
        assert(self.c@.take(k as int) =~= self.c@);
        largest
    }

    /// The entropy of this wave: 1 minus the largest weight over the sum,
    /// rounded up; 0 for a contradiction.
    pub fn entropy(&self) -> (e: u32)
        ensures
            e == entropy_of(self@),
    {
        let sum: u128 = self.sum();
        if sum == 0 {
            return 0;
        }
        let largest: u32 = self.largest();
        proof {
            lemma_weight_bounds(self@);
            lemma_entropy(self@);
            let len = self.c.len();
            assert(len * 0xffff_ffff <= 0xffff_ffff_ffff_ffff * 0xffff_ffff) by (nonlinear_arith)
                requires
                    len <= 0xffff_ffff_ffff_ffff,
            ;
            assert((sum - largest) * UNIT <= sum * UNIT) by (nonlinear_arith)
                requires
                    largest <= sum,
            ;
            lemma_ceil_div(((sum - largest) * UNIT) as nat, sum as nat);
        }
        let rest: u128 = (sum - largest as u128) * (UNIT as u128);
        let e: u128 = (rest + sum - 1) / sum;
        e as u32
    }

    /// This wave with every state removed that may not stand next to `state`.
    pub fn masked(&self, rule: &Adjacency, state: usize) -> (wave: Wave)
        ensures
            wave@ == masked(self@, *rule, state as int),
    {
        let mut c: Vec<u32> = Vec::new();
        let mut k: usize = 0;
        while k < self.c.len()
            invariant
                k <= self.c.len(),
                c.len() == k,
                forall|j: int|
                    0 <= j < k ==> c[j] == (if rule.allows(state as int, j) {
                        self.c[j]
                    } else {
                        0u32
                    }),
            decreases self.c.len() - k,
        {
            let w: u32 = if rule.compatible(state, k) {
                self.c[k]
            } else {
                0
            };
            c.push(w);
            k += 1;
        }
        assert(c@ =~= masked(self@, *rule, state as int));
        Wave { c }
    }

    /// The state of the largest weight, the first of them where several
    /// weights are the largest; none for an empty wave.
    pub fn heaviest(&self) -> (state: Option<usize>)
        ensures
            state is None <==> self@.len() == 0,
            state matches Some(k) ==> is_first_max(self@, k as int) && k == first_max(self@),
    {
        if self.c.len() == 0 {
            return None;
        }
        let mut best: usize = 0;
        let mut k: usize = 1;
        while k < self.c.len()
            invariant
                1 <= k <= self.c.len(),
                best < k,
                forall|j: int| 0 <= j < k ==> self.c[j] <= self.c[best as int],
                forall|j: int| 0 <= j < best ==> self.c[j] < self.c[best as int],
            decreases self.c.len() - k,
        {
            if self.c[k] > self.c[best] {
                best = k;
            }
            k += 1;
        }
        proof {
            assert(is_first_max(self@, best as int));
            lemma_first_max(self@);
            lemma_first_max_unique(self@, best as int, first_max(self@));
        }
        Some(best)
    }
}

/// The wave with every weight divided by the square root of the sum of all
/// of them, or a contradiction where that sum is 0.
pub fn normalize(wave: &Wave) -> (res: Result<Wave, Contradiction>)
    ensures
        res is Err <==> total(wave@) == 0,
        res matches Ok(n) ==> n@ == normalized(wave@),
{
    let sum: u128 = wave.sum();
    if sum == 0 {
        return Err(Contradiction {});
    }
    proof {
        lemma_weight_bounds(wave@);
        lemma_scale_root(sum as nat);
        let len = wave.c.len();
        assert(len * 0xffff_ffff <= 0xffff_ffff_ffff_ffff * 0xffff_ffff) by (nonlinear_arith)
            requires
                len <= 0xffff_ffff_ffff_ffff,
        ;
    }
    let r: u128 = integer_sqrt(sum * (UNIT as u128));
    let mut c: Vec<u32> = Vec::new();
    let mut k: usize = 0;
    while k < wave.c.len()
        invariant
            k <= wave.c.len(),
            c.len() == k,
            sum == total(wave@),
            sum > 0,
            r == scale_root(sum as nat),
            r >= 1,
            forall|j: int| 0 <= j < k ==> c[j] == scaled(wave@[j], sum as nat),
        decreases wave.c.len() - k,
    {
        let w: u32 = wave.c[k];
        proof {
            lemma_weight_bounds(wave@);
            lemma_scaled(w, sum as nat);
            lemma_ceil_div(w as nat * UNIT as nat, r as nat);
            assert(w as nat * UNIT as nat <= 0xffff_ffff * 65536) by (nonlinear_arith)
                requires
                    w <= 0xffff_ffff,
            ;
            assert(r <= sum * UNIT) by {
                lemma_root(sum as nat * UNIT as nat);
                assert(r * r >= r) by (nonlinear_arith)
                    requires
                        r >= 1,
                ;
            }
        }
        let q: u128 = ((w as u128) * (UNIT as u128) + r - 1) / r;
        c.push(q as u32);
        k += 1;
    }
    proof {
        lemma_normalized(wave@);
        assert(c@ =~= normalized(wave@));
    }
    Ok(Wave { c })
}

/// The entropy of a wave, or a contradiction where its weights sum to 0.
pub fn calculate_entropy(wave: &Wave) -> (res: Result<u32, Contradiction>)
    ensures
        res is Err <==> total(wave@) == 0,
        res matches Ok(e) ==> e == entropy_of(wave@),
{
    if wave.sum() == 0 {
        Err(Contradiction {})
    } else {
        Ok(wave.entropy())
    }
}

/// The entropy of each wave, or the first wave whose weights sum to 0 as a
/// contradiction.
pub fn calculate_entropies(waves: &Vec<Wave>) -> (res: Result<Vec<u32>, CollapseError>)
    ensures
        res is Err <==> first_dead(weights_of(waves@)) < waves.len(),
        res matches Err(e) ==> e matches CollapseError::Contradiction { cell } && cell
            == first_dead(weights_of(waves@)),
        res matches Ok(e) ==> e@ == entropies_of(weights_of(waves@)),
{
    let ghost all = weights_of(waves@);
    let mut e: Vec<u32> = Vec::with_capacity(waves.len());
    let mut k: usize = 0;
    while k < waves.len()
        invariant
            k <= waves.len(),
            all == weights_of(waves@),
            e.len() == k,
            forall|j: int| 0 <= j < k ==> total(#[trigger] all[j]) > 0,
            forall|j: int| 0 <= j < k ==> e[j] == entropy_of(all[j]),
        decreases waves.len() - k,
    {
        assert(all[k as int] == waves[k as int]@);
        match calculate_entropy(&waves[k]) {
            Err(_) => {
                proof {
                    lemma_first_dead_is(all, k as int);
                }
                return Err(CollapseError::Contradiction { cell: k });
            },
            Ok(entropy) => {
                e.push(entropy);
            },
        }
        k += 1;
    }
    proof {
        lemma_first_dead_is(all, all.len() as int);
        assert(e@ =~= entropies_of(all));
    }
    Ok(e)
}

} // verus!
