//! Weighted sampling without replacement.
//!
//! Given candidates paired with positive weights, the sampler selects
//! `k` distinct candidates; a candidate with a higher weight is
//! proportionally more likely to be selected in each round. Selection
//! draws one bounded value from the generator per selected item, so a
//! request for zero items consumes no randomness at all, and the number
//! of draws depends only on `k` — never on the outcome of earlier
//! draws, which keeps whole pipelines replayable from a seed.

use vstd::prelude::*;
use vstd::seq_lib::*;
use vstd::set_lib::*;
use crate::affix::WEIGHT_SCALE;
use crate::glitch_ops::GlitchOpError;
use crate::rng::{DeterministicRng, spec_advance};

verus! {

/// The total of the weights of `items`.
pub open spec fn weight_total(items: Seq<(usize, u64)>) -> int
    decreases items.len(),
{
    if items.len() == 0 {
        0
    } else {
        weight_total(items.drop_last()) + items.last().1
    }
}

/// Bounds on a weight total whose weights all lie in `[1, bound]`.
proof fn lemma_weight_total_bounds(items: Seq<(usize, u64)>, bound: int)
    requires
        forall|i: int| 0 <= i < items.len() ==> 1 <= (#[trigger] items[i]).1 <= bound,
    ensures
        items.len() <= weight_total(items) <= items.len() * bound,
    decreases items.len(),
{
    if items.len() > 0 {
        lemma_weight_total_bounds(items.drop_last(), bound);
        assert((items.len() - 1) * bound + bound == items.len() * bound) by (nonlinear_arith);
    }
}

/// A weight-prefix total never exceeds the whole total.
proof fn lemma_weight_total_take(items: Seq<(usize, u64)>, i: int)
    requires
        0 <= i <= items.len(),
        forall|k: int| 0 <= k < items.len() ==> (#[trigger] items[k]).1 >= 1,
    ensures
        weight_total(items.take(i)) <= weight_total(items),
        weight_total(items.take(i)) + items.skip(i).len() <= weight_total(items),
    decreases items.len() - i,
{
    if i == items.len() {
        assert(items.take(i) =~= items);
    } else {
        lemma_weight_total_take(items, i + 1);
        assert(items.take(i + 1).drop_last() =~= items.take(i));
        assert(items.take(i + 1).last() == items[i]);
    }
}

/// A distinct sequence of `n` values drawn from `[0, n)` hits every
/// value in that range: when a sample is as large as the population,
/// nothing is left out.
pub proof fn lemma_full_sample_hits_all(positions: Seq<int>, n: int)
    requires
        positions.len() == n,
        forall|i: int| 0 <= i < positions.len() ==> 0 <= #[trigger] positions[i] < n,
        forall|i: int, j: int| 0 <= i < j < positions.len() ==> positions[i] != positions[j],
    ensures
        forall|v: int| 0 <= v < n ==> positions.contains(v),
{
    let found = positions.to_set();
    positions.unique_seq_to_set();
    let range = set_int_range(0, n);
    lemma_int_range(0, n);
    assert(found.subset_of(range));
    lemma_subset_equality(found, range);
    assert forall|v: int| 0 <= v < n implies positions.contains(v) by {
        assert(range.contains(v));
        assert(found.contains(v));
    }
}

/// Selects `k` distinct candidates from `items`. Each candidate gets
/// one uniform draw, scaled down by its weight into a race key, and
/// the `k` candidates with the smallest keys win: a heavier weight
/// shrinks the key, so heavier candidates are proportionally more
/// likely to be selected. Weights outside `[1, WEIGHT_SCALE]` are
/// clamped into that range, so no weight value causes failure. Fails
/// if and only if `k` exceeds the number of candidates; a failed call,
/// and a call with `k == 0`, consume no randomness, and otherwise
/// exactly one draw per candidate is consumed, independent of `k` and
/// of every draw's outcome — the cadence that keeps later steps
/// replayable whatever this one selects. The result holds the first
/// components of the selected items; `positions` of the postcondition
/// are the distinct item positions selected.
pub fn weighted_sample_without_replacement(
    rng: &mut DeterministicRng,
    items: &Vec<(usize, u64)>,
    k: usize,
) -> (r: Result<Vec<usize>, GlitchOpError>)
    ensures
        r is Err <==> k > items@.len(),
        r is Err ==> r == Result::<Vec<usize>, GlitchOpError>::Err(
            GlitchOpError::ExcessiveRedaction { requested: k, available: items@.len() as usize },
        ) && final(rng)@ == old(rng)@,
        r matches Ok(v) ==> v@.len() == k && final(rng)@ == (if k == 0 {
            old(rng)@
        } else {
            spec_advance(old(rng)@, items@.len() as nat)
        }) && exists|positions: Seq<int>|
            {
                &&& positions.len() == k
                &&& (forall|i: int| 0 <= i < positions.len() ==> 0 <= #[trigger] positions[i]
                    < items@.len())
                &&& (forall|i: int, j: int|
                    0 <= i < j < positions.len() ==> positions[i] != positions[j])
                &&& (forall|i: int|
                    0 <= i < positions.len() ==> #[trigger] v@[i] == items@[positions[i]].0)
            },
        k == 0 ==> (r matches Ok(v) && v@.len() == 0),
{
    let n: usize = items.len();
    if k > n {
        return Err(GlitchOpError::ExcessiveRedaction { requested: k, available: n });
    }
    if k == 0 {
        let empty: Vec<usize> = Vec::new();
        proof {
            let positions = Seq::<int>::empty();
            assert(positions.len() == 0);
        }
        return Ok(empty);
    }
    // Race keys: one uniform draw per candidate, divided by the
    // clamped weight.
    let mut remaining: Vec<(usize, u64)> = Vec::new();
    let mut fill: usize = 0;
    while fill < n
        invariant
            fill <= n,
            n == items@.len(),
            remaining@.len() == fill,
            forall|i: int| 0 <= i < fill ==> (#[trigger] remaining@[i]).0 == i,
            rng@ == spec_advance(old(rng)@, fill as nat),
        decreases n - fill,
    {
        let w: u64 = items[fill].1;
        let clamped: u64 = if w < 1 {
            1
        } else if w > WEIGHT_SCALE {
            WEIGHT_SCALE
        } else {
            w
        };
        let ghost pre: u64 = rng@;
        let draw: u32 = rng.random_unit();
        let key: u64 = ((draw as u64) * WEIGHT_SCALE) / clamped;
        remaining.push((fill, key));
        proof {
            assert(rng@ == crate::rng::spec_step(spec_advance(old(rng)@, fill as nat)));
            assert(rng@ == spec_advance(old(rng)@, (fill + 1) as nat));
        }
        fill = fill + 1;
    }
    // Select the k smallest keys, first-come on ties.
    let mut out: Vec<usize> = Vec::new();
    let ghost mut taken: Seq<int> = Seq::empty();
    let mut round: usize = 0;
    while round < k
        invariant
            round <= k,
            k <= n,
            n == items@.len(),
            remaining@.len() == n - round,
            forall|i: int| 0 <= i < remaining@.len() ==> 0 <= (#[trigger] remaining@[i]).0 < n,
            forall|i: int, j: int|
                0 <= i < j < remaining@.len() ==> (#[trigger] remaining@[i]).0 != (
                #[trigger] remaining@[j]).0,
            out@.len() == round,
            taken.len() == round,
            forall|i: int| 0 <= i < taken.len() ==> 0 <= #[trigger] taken[i] < n,
            forall|i: int, j: int| 0 <= i < j < taken.len() ==> taken[i] != taken[j],
            forall|i: int| 0 <= i < taken.len() ==> #[trigger] out@[i] == items@[taken[i]].0,
            forall|i: int, j: int|
                0 <= i < taken.len() && 0 <= j < remaining@.len() ==> #[trigger] taken[i] != (
                #[trigger] remaining@[j]).0 as int,
            rng@ == spec_advance(old(rng)@, n as nat),
        decreases k - round,
    {
        let m: usize = remaining.len();
        let mut best: usize = 0;
        let mut j: usize = 1;
        while j < m
            invariant
                m == remaining@.len(),
                m >= 1,
                best < m,
                j <= m,
            decreases m - j,
        {
            if remaining[j].1 < remaining[best].1 {
                best = j;
            }
            j = j + 1;
        }
        let picked: (usize, u64) = remaining.remove(best);
        let chosen_value: usize = items[picked.0].0;
        out.push(chosen_value);
        proof {
            taken = taken.push(picked.0 as int);
        }
        round = round + 1;
    }
    proof {
        assert(taken.len() == k);
    }
    Ok(out)
}

} // verus!
