//! Categorical sampling from a discrete weighted distribution.
//!
//! A sampler keeps the running totals of its weights. A draw `d` below the
//! total weight selects the one index `i` whose share of the number line,
//! `[weight_before(i), weight_before(i + 1))`, contains `d`; the lookup is a
//! binary search over the running totals.

use crate::random::draw_range;
use rand::StdRng;
use vstd::prelude::*;

verus! {

/// The sum of all weights in `weights`.
pub open spec fn total_weight(weights: Seq<u32>) -> nat
    decreases weights.len(),
{
    if weights.len() == 0 {
        0
    } else {
        total_weight(weights.drop_last()) + weights.last() as nat
    }
}

/// The sum of the first `n` weights.
pub open spec fn weight_before(weights: Seq<u32>, n: int) -> nat {
    total_weight(weights.take(n))
}

/// Whether a draw of `draw` selects index `index`: the draw falls in the
/// stretch of the number line that belongs to that index.
pub open spec fn selects(weights: Seq<u32>, draw: nat, index: int) -> bool {
    &&& 0 <= index < weights.len()
    &&& weight_before(weights, index) <= draw < weight_before(weights, index + 1)
}

/// Adding one more weight to a prefix adds exactly that weight.
pub proof fn lemma_weight_before_step(weights: Seq<u32>, n: int)
    requires
        0 <= n < weights.len(),
    ensures
        weight_before(weights, n + 1) == weight_before(weights, n) + weights[n] as nat,
{
    assert(weights.take(n + 1).drop_last() =~= weights.take(n));
}

/// Running totals never decrease.
pub proof fn lemma_weight_before_monotonic(weights: Seq<u32>, m: int, n: int)
    requires
        0 <= m <= n <= weights.len(),
    ensures
        weight_before(weights, m) <= weight_before(weights, n),
    decreases n - m,
{
    if m < n {
        lemma_weight_before_step(weights, n - 1);
        lemma_weight_before_monotonic(weights, m, n - 1);
    }
}

/// The whole sequence is its own longest prefix.
pub proof fn lemma_weight_before_all(weights: Seq<u32>)
    ensures
        weight_before(weights, weights.len() as int) == total_weight(weights),
{
    assert(weights.take(weights.len() as int) =~= weights);
}

/// A draw selects at most one index, and that index has a positive weight.
pub proof fn lemma_selection_unique(weights: Seq<u32>, draw: nat, i: int, j: int)
    requires
        selects(weights, draw, i),
        selects(weights, draw, j),
    ensures
        i == j,
        weights[i] > 0,
{
    lemma_weight_before_step(weights, i);
    if i < j {
        lemma_weight_before_monotonic(weights, i + 1, j);
    } else if j < i {
        lemma_weight_before_monotonic(weights, j + 1, i);
    }
}

/// Taking one weight out of a sequence lowers the total by that weight.
pub proof fn lemma_total_weight_remove(weights: Seq<u32>, i: int)
    requires
        0 <= i < weights.len(),
    ensures
        total_weight(weights) == total_weight(weights.remove(i)) + weights[i] as nat,
    decreases weights.len(),
{
    if i == weights.len() - 1 {
        assert(weights.remove(i) =~= weights.drop_last());
    } else {
        lemma_total_weight_remove(weights.drop_last(), i);
        assert(weights.remove(i).drop_last() =~= weights.drop_last().remove(i));
        assert(weights.remove(i).last() == weights.last());
    }
}

/// The total weight does not depend on the order of the weights: two
/// sequences that hold the same values equally often have the same total.
pub proof fn lemma_total_weight_reordered(a: Seq<u32>, b: Seq<u32>)
    requires
        a.to_multiset() == b.to_multiset(),
    ensures
        total_weight(a) == total_weight(b),
        a.len() == b.len(),
    decreases a.len(),
{
    a.to_multiset_ensures();
    b.to_multiset_ensures();
    if a.len() == 0 {
        assert(b.len() == 0);
    } else {
        let x = a.last();
        assert(a.contains(x));
        assert(b.to_multiset().count(x) > 0);
        assert(b.contains(x));
        let j = choose|j: int| 0 <= j < b.len() && b[j] == x;
        let a_rest = a.remove(a.len() - 1);
        assert(a_rest =~= a.drop_last());
        let b_rest = b.remove(j);
        assert(a_rest.to_multiset() =~= b_rest.to_multiset());
        lemma_total_weight_reordered(a_rest, b_rest);
        lemma_total_weight_remove(b, j);
    }
}

/// A sequence with a positive weight somewhere has a positive total.
pub proof fn lemma_total_weight_positive(weights: Seq<u32>, i: int)
    requires
        0 <= i < weights.len(),
        weights[i] > 0,
    ensures
        total_weight(weights) > 0,
{
    lemma_total_weight_remove(weights, i);
}

/// If no weight exceeds `bound`, the total is at most `bound` per entry.
pub proof fn lemma_total_weight_bounded(weights: Seq<u32>, bound: nat)
    requires
        forall|i: int| 0 <= i < weights.len() ==> weights[i] as nat <= bound,
    ensures
        total_weight(weights) <= weights.len() * bound,
    decreases weights.len(),
{
    if weights.len() > 0 {
        lemma_total_weight_bounded(weights.drop_last(), bound);
        assert(weights.last() as nat <= bound);
        assert((weights.len() - 1) * bound + bound == weights.len() * bound)
            by (nonlinear_arith);
    }
}

/// The reason a distribution is refused: its weights sum to zero (an empty
/// list included), or to more than a `u32` can hold.
#[derive(Debug, Clone, Copy, PartialEq, Eq)]
pub struct InvalidDistribution;

/// A fixed weighted distribution over the indices `0..len`.
pub struct WeightedSampler {
    weights: Vec<u32>,
    running: Vec<u32>,
}

impl View for WeightedSampler {
    type V = Seq<u32>;

    /// The weights the sampler was built from, in order.
    closed spec fn view(&self) -> Seq<u32> {
        self.weights@
    }
}

impl WeightedSampler {
    /// The table of running totals matches the weights, and the total weight
    /// is positive and fits a `u32`.
    pub closed spec fn wf(&self) -> bool {
        &&& self.running@.len() == self.weights@.len()
        &&& forall|i: int|
            0 <= i < self.running@.len() ==> #[trigger] self.running@[i] as nat == weight_before(
                self.weights@,
                i + 1,
            )
        &&& 0 < total_weight(self.weights@) <= u32::MAX
    }

    /// Builds the sampler for `weights`, or refuses them when their sum is
    /// zero or exceeds `u32::MAX`.
    pub fn new(weights: Vec<u32>) -> (made: Result<WeightedSampler, InvalidDistribution>)
        ensures
            made is Ok <==> 0 < total_weight(weights@) <= u32::MAX,
            made matches Ok(sampler) ==> sampler.wf() && sampler@ == weights@,
    {
        let mut running: Vec<u32> = Vec::new();
        let mut so_far: u32 = 0;
        let mut i: usize = 0;
        proof {
            assert(weights@.take(0) =~= Seq::<u32>::empty());
        }
        while i < weights.len()
            invariant
                0 <= i <= weights@.len(),
                running@.len() == i,
                so_far as nat == weight_before(weights@, i as int),
                forall|j: int|
                    0 <= j < i ==> #[trigger] running@[j] as nat == weight_before(weights@, j + 1),
            decreases weights@.len() - i,
        {
            proof {
                lemma_weight_before_step(weights@, i as int);
            }
            match so_far.checked_add(weights[i]) {
                Some(next) => {
                    so_far = next;
                },
                None => {
                    proof {
                        lemma_weight_before_monotonic(
                            weights@,
                            i as int + 1,
                            weights@.len() as int,
                        );
                        lemma_weight_before_all(weights@);
                    }
                    return Err(InvalidDistribution);
                },
            }
            running.push(so_far);
            i = i + 1;
        }
        proof {
            lemma_weight_before_all(weights@);
        }
        if so_far == 0 {
            return Err(InvalidDistribution);
        }
        Ok(WeightedSampler { weights, running })
    }

    /// The number of entries.
    pub fn len(&self) -> (n: usize)
        ensures
            n == self@.len(),
    {
        self.weights.len()
    }

    /// The weight of entry `index`.
    pub fn weight(&self, index: usize) -> (w: u32)
        requires
            index < self@.len(),
        ensures
            w == self@[index as int],
    {
        self.weights[index]
    }

    /// The sum of all weights.
    pub fn total(&self) -> (t: u32)
        requires
            self.wf(),
        ensures
            t as nat == total_weight(self@),
            t > 0,
    {
        proof {
            lemma_weight_before_all(self.weights@);
            if self.weights@.len() == 0 {
                assert(total_weight(self.weights@) == 0);
            }
        }
        self.running[self.running.len() - 1]
    }

    /// The index that the draw `draw` selects.
    ///
    /// The search halves the candidate range on every step, so a lookup costs
    /// `O(log n)` comparisons.
    pub fn pick(&self, draw: u32) -> (index: usize)
        requires
            self.wf(),
            (draw as nat) < total_weight(self@),
        ensures
            selects(self@, draw as nat, index as int),
            self@[index as int] > 0,
    {
        proof {
            lemma_weight_before_all(self.weights@);
            assert(self.weights@.take(0) =~= Seq::<u32>::empty());
            if self.weights@.len() == 0 {
                assert(total_weight(self.weights@) == 0);
            }
        }
        let mut low: usize = 0;
        let mut high: usize = self.running.len() - 1;
        while low < high
            invariant
                self.wf(),
                0 <= low <= high < self.running@.len(),
                weight_before(self.weights@, low as int) <= draw as nat,
                (draw as nat) < weight_before(self.weights@, high as int + 1),
            decreases high - low,
        {
            let mid: usize = low + (high - low) / 2;
            if self.running[mid] > draw {
                high = mid;
            } else {
                low = mid + 1;
            }
        }
        proof {
            lemma_selection_unique(self.weights@, draw as nat, low as int, low as int);
        }
        low
    }

    /// Draws an index at random, each with probability proportional to its
    /// weight.
    ///
    /// Whatever the random source yields, the index is in range and has a
    /// positive weight: an entry of weight zero is never drawn.
    pub fn sample(&self, rng: &mut StdRng) -> (index: usize)
        requires
            self.wf(),
        ensures
            index < self@.len(),
            self@[index as int] > 0,
    {
        let total: u32 = self.total();
        let draw: u32 = draw_range(rng, 0, total);
        self.pick(draw)
    }
}

} // verus!
