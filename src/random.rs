//! Weighted random choice and uniform picks, drawing from a seeded generator.

use vstd::prelude::*;
use rand::rngs::StdRng;

verus! {

#[verifier::external_type_specification]
#[verifier::external_body]
pub struct ExStdRng(rand::rngs::StdRng);

/// Relies on rand's `Rng::gen_range`: a value drawn from `0..n`. It panics
/// on an empty range, which `requires` rules out.
#[verifier::external_body]
pub(crate) fn random_below(rng: &mut StdRng, n: u64) -> (r: u64)
    requires
        n > 0,
    ensures
        r < n,
{
    rand::Rng::gen_range(rng, 0..n)
}

/// A value drawn from `lo..hi`.
pub(crate) fn random_in(rng: &mut StdRng, lo: i32, hi: i32) -> (r: i32)
    requires
        lo < hi,
    ensures
        lo <= r < hi,
{
    let span = (hi as i64 - lo as i64) as u64;
    (lo as i64 + random_below(rng, span) as i64) as i32
}

/// Relies on rand's `SliceRandom::shuffle`: the items are permuted in place.
#[verifier::external_body]
pub(crate) fn shuffle<T>(rng: &mut StdRng, v: &mut Vec<T>)
    ensures
        final(v)@.len() == old(v)@.len(),
        final(v)@.to_multiset() == old(v)@.to_multiset(),
{
    rand::seq::SliceRandom::shuffle(v.as_mut_slice(), rng)
}

/// The sum of the first `k` weights.
pub open spec fn weight_sum(ws: Seq<int>, k: int) -> int
    decreases k,
{
    if k <= 0 || k > ws.len() {
        0
    } else {
        weight_sum(ws, k - 1) + ws[k - 1]
    }
}

proof fn lemma_weight_sum_mono(ws: Seq<int>, j: int, k: int)
    requires
        0 <= j <= k <= ws.len(),
        forall|i: int| 0 <= i < ws.len() ==> ws[i] > 0,
    ensures
        weight_sum(ws, j) <= weight_sum(ws, k),
        j < k ==> weight_sum(ws, j) < weight_sum(ws, k),
    decreases k - j,
{
    if j < k {
        lemma_weight_sum_mono(ws, j, k - 1);
    }
}

/// The weights of the given entries, as integers.
pub open spec fn weights_of<T>(entries: Seq<(T, u32)>) -> Seq<int> {
    Seq::new(entries.len(), |k: int| entries[k].1 as int)
}

/// The items of the given entries.
pub open spec fn items_of<T>(entries: Seq<(T, u32)>) -> Seq<T> {
    Seq::new(entries.len(), |k: int| entries[k].0)
}

/// A table that picks one of its items at random, each with probability in
/// proportion to its weight. Entry `k` owns the draws
/// `weight_sum(k) .. weight_sum(k + 1)` of `0 .. total`.
pub struct RandomTable<T> {
    table: Vec<(T, (u32, u32))>,
    max: u32,
}

impl<T> RandomTable<T> {
    /// The items, in insertion order.
    pub closed spec fn items(&self) -> Seq<T> {
        Seq::new(self.table@.len(), |k: int| self.table@[k].0)
    }

    /// The weights, in insertion order.
    pub closed spec fn weights(&self) -> Seq<int> {
        Seq::new(self.table@.len(), |k: int| self.table@[k].1.1 - self.table@[k].1.0 + 1)
    }

    /// The sum of all weights: draws are taken from `0 .. total`.
    pub closed spec fn total(&self) -> int {
        self.max as int
    }

    /// Entry `k` owns `draw`.
    pub open spec fn owns(&self, k: int, draw: int) -> bool {
        &&& 0 <= k < self.items().len()
        &&& weight_sum(self.weights(), k) <= draw < weight_sum(self.weights(), k + 1)
    }

    #[verifier::type_invariant]
    spec fn well_formed(&self) -> bool {
        let ws = self.weights();
        &&& self.table@.len() > 0
        &&& forall|k: int| 0 <= k < self.table@.len() ==> {
            &&& (#[trigger] self.table@[k]).1.0 <= self.table@[k].1.1
            &&& self.table@[k].1.0 == weight_sum(ws, k)
        }
        &&& self.max == weight_sum(ws, ws.len() as int)
    }

    /// A table over the given items and weights, in that order.
    pub fn new(items_with_weights: Vec<(T, u32)>) -> (r: Self)
        requires
            items_with_weights@.len() > 0,
            forall|k: int| 0 <= k < items_with_weights@.len() ==> #[trigger] items_with_weights@[k].1 > 0,
            weight_sum(weights_of(items_with_weights@), items_with_weights@.len() as int) <= u32::MAX,
        ensures
            r.items() == items_of(items_with_weights@),
            r.weights() == weights_of(items_with_weights@),
            r.total() == weight_sum(r.weights(), r.weights().len() as int),
    {
        let ghost orig = items_with_weights@;
        let ghost ws = weights_of(orig);
        let ghost n = orig.len() as int;
        let mut rest = items_with_weights;
        let mut sum: u32 = 0;
        let mut table: Vec<(T, (u32, u32))> = Vec::new();
        while rest.len() > 0
            invariant
                n == orig.len(),
                ws == weights_of(orig),
                forall|k: int| 0 <= k < n ==> #[trigger] orig[k].1 > 0,
                weight_sum(ws, n) <= u32::MAX,
                table@.len() + rest@.len() == n,
                rest@ == orig.subrange(table@.len() as int, n),
                sum == weight_sum(ws, table@.len() as int),
                forall|k: int| 0 <= k < table@.len() ==> {
                    &&& (#[trigger] table@[k]).0 == orig[k].0
                    &&& table@[k].1.0 == weight_sum(ws, k)
                    &&& table@[k].1.1 == weight_sum(ws, k + 1) - 1
                },
            decreases rest@.len(),
        {
            let ghost k = table@.len() as int;
            let (item, weight) = rest.remove(0);
            assert(orig[k].1 == weight);
            proof {
                lemma_weight_sum_mono(ws, k + 1, n);
            }
            table.push((item, (sum, sum + weight - 1)));
            sum = sum + weight;
            assert(rest@ =~= orig.subrange(table@.len() as int, n));
        }
        let ghost tws = Seq::new(table@.len(), |k: int| table@[k].1.1 - table@[k].1.0 + 1);
        assert(tws =~= ws);
        let r = RandomTable { table: table, max: sum };
        assert(r.items() =~= items_of(orig));
        r
    }

    /// The item whose share of `0 .. total` holds `draw`.
    pub fn pick(&self, draw: u32) -> (r: &T)
        requires
            draw < self.total(),
        ensures
            exists|k: int| self.owns(k, draw as int) && *r == self.items()[k],
    {
        proof {
            use_type_invariant(self);
        }
        let ghost ws = self.weights();
        let n = self.table.len();
        let mut k: usize = 0;
        while k + 1 < n
            invariant
                n == self.table@.len(),
                ws == self.weights(),
                self.well_formed(),
                k < n,
                weight_sum(ws, k as int) <= draw,
            decreases n - k,
        {
            if draw <= (self.table[k].1).1 {
                assert(self.owns(k as int, draw as int));
                return &self.table[k].0;
            }
            k = k + 1;
        }
        assert(self.owns(k as int, draw as int));
        &self.table[k].0
    }

    /// An item drawn at random, each with probability in proportion to its weight.
    pub fn generate(&self, rng: &mut StdRng) -> (r: &T)
        ensures
            exists|k: int, draw: int| 0 <= draw < self.total() && self.owns(k, draw) && *r == self.items()[k],
    {
        proof {
            use_type_invariant(self);
        }
        assert(self.table@[0].1.0 <= self.table@[0].1.1);
        let draw = random_below(rng, self.max as u64);
        self.pick(draw as u32)
    }
}

/// Uniform choice of one element.
pub trait IterRandomExt<T> {
    /// The elements to choose among.
    spec fn choices(&self) -> Seq<T>;

    /// One of the elements, drawn uniformly at random.
    fn random(&self, rng: &mut StdRng) -> (r: T)
        requires
            self.choices().len() > 0,
        ensures
            self.choices().contains(r);
}

impl<T: Copy> IterRandomExt<T> for Vec<T> {
    open spec fn choices(&self) -> Seq<T> {
        self@
    }

    fn random(&self, rng: &mut StdRng) -> (r: T) {
        let i = random_below(rng, self.len() as u64) as usize;
        let r = self[i];
        assert(self@[i as int] == r);
        r
    }
}

} // verus!
