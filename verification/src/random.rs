use rand::rngs::StdRng;
use rand::seq::SliceRandom;
use rand::Rng;
use crate::build_plan::Index;
use crate::build_plan::TraversalSelector;
use vstd::prelude::*;

verus! {

/// Declares `rand::rngs::StdRng` to Verus as an opaque type: nothing is
/// known of its state, it is only carried into the sampling calls below.
#[verifier::external_type_specification]
#[verifier::external_body]
pub struct ExStdRng(StdRng);

/// A choice and how much it weighs.
#[derive(Clone, Copy, Debug)]
pub struct Weighted {
    pub key: usize,
    pub weight: usize,
}

/// The sum of the weights of `items`.
pub open spec fn weight_sum(items: Seq<Weighted>) -> int
    decreases items.len(),
{
    if items.len() == 0 {
        0
    } else {
        weight_sum(items.drop_last()) + items.last().weight
    }
}

/// Some item of `items` weighs more than nothing.
pub open spec fn some_weight(items: Seq<Weighted>) -> bool {
    exists|k: int| 0 <= k < items.len() && (#[trigger] items[k]).weight > 0
}

/// Some item of `items` with the key `x` weighs more than nothing.
pub open spec fn weighs_key(items: Seq<Weighted>, x: usize) -> bool {
    exists|k: int| 0 <= k < items.len() && (#[trigger] items[k]).key == x && items[k].weight > 0
}

/// Calls `Rng::gen_range` on the range `0..n`: a number below `n`. The
/// call panics on an empty range.
#[verifier::external_body]
pub(crate) fn gen_index(rng: &mut StdRng, n: usize) -> (r: usize)
    requires
        n > 0,
    ensures
        r < n,
{
    rng.gen_range(0..n)
}

/// Calls `SliceRandom::choose` on `items`: one of them, where there is
/// any. Which one is left to chance.
#[verifier::external_body]
pub(crate) fn choose_from(rng: &mut StdRng, items: &[usize]) -> (r: Option<usize>)
    ensures
        r is Some <==> items@.len() > 0,
        r matches Some(x) ==> items@.contains(x),
{
    items.choose(rng).copied()
}

/// Calls `SliceRandom::choose_weighted` on `items`, each weighed by its
/// weight, and gives the key of the one chosen: `None` where
/// no weight is above zero (the call's error), else an item whose weight is
/// above zero. Which one is left to chance. The weights are added up in a
/// `usize`, so their sum must fit in one.
#[verifier::external_body]
pub(crate) fn choose_weighted_key(rng: &mut StdRng, items: &[Weighted]) -> (r: Option<usize>)
    requires
        weight_sum(items@) <= usize::MAX,
    ensures
        r is Some <==> some_weight(items@),
        r matches Some(x) ==> weighs_key(items@, x),
{
    items.choose_weighted(rng, |item| item.weight).ok().map(|item| item.key)
}

/// The positions below `n`, in order.
pub(crate) fn positions_below(n: usize) -> (r: Vec<usize>)
    ensures
        r@.len() == n,
        forall|k: int| 0 <= k < n ==> #[trigger] r@[k] == k,
{
    let mut r: Vec<usize> = Vec::new();
    for i in 0..n
        invariant
            r@.len() == i,
            forall|k: int| 0 <= k < i ==> #[trigger] r@[k] == k,
    {
        r.push(i);
    }
    r
}

/// The sum of the numbers of `w`.
pub open spec fn usize_sum(w: Seq<usize>) -> int
    decreases w.len(),
{
    if w.len() == 0 {
        0
    } else {
        usize_sum(w.drop_last()) + w.last()
    }
}

/// A sum over a prefix is no more than the sum over the whole.
proof fn lemma_usize_sum_prefix(w: Seq<usize>, k: int)
    requires
        0 <= k <= w.len(),
    ensures
        usize_sum(w.subrange(0, k)) <= usize_sum(w),
    decreases w.len() - k,
{
    if k < w.len() {
        lemma_usize_sum_prefix(w, k + 1);
        assert(w.subrange(0, k + 1).drop_last() =~= w.subrange(0, k));
    } else {
        assert(w.subrange(0, k) =~= w);
    }
}

/// The weights of `w` keyed by position: `None` exactly where their sum
/// does not fit in a `usize`.
pub(crate) fn keyed(w: &Vec<usize>) -> (r: Option<Vec<Weighted>>)
    ensures
        r is Some <==> usize_sum(w@) <= usize::MAX,
        r matches Some(items) ==> items@.len() == w@.len() && weight_sum(items@) <= usize::MAX && forall|k: int|
            0 <= k < w@.len() ==> (#[trigger] items@[k]).key == k && items@[k].weight == w@[k],
{
    let mut items: Vec<Weighted> = Vec::new();
    let mut total: usize = 0;
    let mut k: usize = 0;
    while k < w.len()
        invariant
            k <= w@.len(),
            items@.len() == k,
            total == weight_sum(items@),
            total == usize_sum(w@.subrange(0, k as int)),
            forall|m: int| 0 <= m < k ==> (#[trigger] items@[m]).key == m && items@[m].weight == w@[m],
        decreases w@.len() - k,
    {
        proof {
            assert(w@.subrange(0, k + 1).drop_last() =~= w@.subrange(0, k as int));
        }
        match total.checked_add(w[k]) {
            Some(t) => {
                total = t;
            },
            None => {
                proof {
                    lemma_usize_sum_prefix(w@, k + 1);
                }
                return None;
            },
        }
        let ghost before = items@;
        items.push(Weighted { key: k, weight: w[k] });
        proof {
            assert(items@.drop_last() =~= before);
        }
        k = k + 1;
    }
    proof {
        assert(w@.subrange(0, k as int) =~= w@);
    }
    Some(items)
}

/// Picks the position that a build sequence closes next, at random, each
/// open position weighing as much as the steps that depend on it.
pub struct WeightedTraversal {
    rng: StdRng,
    weights: Vec<usize>,
}

impl WeightedTraversal {
    /// How much each position weighs, by position.
    pub closed spec fn weights(self) -> Seq<usize> {
        self.weights@
    }

    /// A selector that draws from `rng`, each position weighing as much as
    /// `weights` says.
    pub fn with_weights(rng: StdRng, weights: Vec<usize>) -> (r: Self)
        ensures
            r.weights() == weights@,
    {
        WeightedTraversal { rng, weights }
    }
}

impl WeightedTraversal {
    /// The weight of each open position, nothing for a position beyond
    /// the weights.
    pub open spec fn open_weights(self, open: Seq<Index>) -> Seq<usize> {
        Seq::new(
            open.len(),
            |k: int|
                if open[k].0 < self.weights().len() {
                    self.weights()[open[k].0 as int]
                } else {
                    0
                },
        )
    }
}

impl TraversalSelector for WeightedTraversal {
    /// An open position; where the open positions' weights add up within
    /// a `usize` and some weighs something, one that weighs something.
    open spec fn picks(&self, open: Seq<Index>, r: Index) -> bool {
        &&& open.contains(r)
        &&& (usize_sum(self.open_weights(open)) <= usize::MAX && exists|k: int|
            0 <= k < open.len() && #[trigger] self.open_weights(open)[k] > 0) ==> exists|k: int|
            0 <= k < open.len() && open[k] == r && #[trigger] self.open_weights(open)[k] > 0
    }

    fn select_traversal(&mut self, open: &[Index]) -> (r: Index) {
        let ghost ow = self.open_weights(open@);
        let mut w: Vec<usize> = Vec::new();
        for k in 0..open.len()
            invariant
                w@.len() == k,
                ow == self.open_weights(open@),
                forall|m: int| 0 <= m < k ==> #[trigger] w@[m] == ow[m],
        {
            let x = open[k].0;
            if x < self.weights.len() {
                w.push(self.weights[x]);
            } else {
                w.push(0);
            }
        }
        proof {
            assert(w@ =~= ow);
        }
        match keyed(&w) {
            Some(items) => {
                proof {
                    if exists|k: int| 0 <= k < open@.len() && #[trigger] ow[k] > 0 {
                        let k = choose|k: int| 0 <= k < open@.len() && #[trigger] ow[k] > 0;
                        assert(items@[k].weight > 0);
                    }
                }
                match choose_weighted_key(&mut self.rng, items.as_slice()) {
                    Some(j) => {
                        proof {
                            let m = choose|m: int| 0 <= m < items@.len() && (#[trigger] items@[m]).key == j && items@[m].weight > 0;
                            assert(m == j);
                            assert(open@[m] == open@[j as int]);
                        }
                        open[j]
                    },
                    None => open[0],
                }
            },
            None => open[0],
        }
    }
}

} // verus!
