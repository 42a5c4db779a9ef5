//! Deterministic pseudo-random generator.
//!
//! Every stochastic decision in the crate funnels through
//! [`DeterministicRng`]. The generator is a pure function of its 64-bit
//! state, so the same seed always yields the same sequence of draws, on
//! every machine and in every process. The contracts below pin each draw
//! and each state transition exactly, which is what makes replaying a
//! pipeline run from a seed a provable property rather than a convention.

use vstd::prelude::*;
use vstd::wrapping::u64_specs;

verus! {

/// Fixed-point scale for uniform draws: a draw is an integer in
/// `[0, UNIT_ONE)`, standing for a fraction of one. Rates and
/// probabilities use the same scale.
pub const UNIT_ONE: u32 = 0x100000;

/// Errors produced by the deterministic generator.
#[derive(Debug, Clone, Copy, PartialEq, Eq, Structural)]
pub enum RngError {
    /// An index was requested from an empty range.
    EmptyRange,
    /// A sample of more elements than the population holds was requested.
    SampleTooLarge { requested: usize, population: usize },
}

/// The state transition of one draw.
pub open spec fn spec_step(s: u64) -> u64 {
    u64_specs::wrapping_add(s, 0x9E3779B97F4A7C15)
}

/// The 64-bit output of the draw made from state `s`.
pub open spec fn spec_output(s: u64) -> u64 {
    let z0 = spec_step(s);
    let z1 = u64_specs::wrapping_mul(z0 ^ (z0 >> 30u64), 0xBF58476D1CE4E5B9);
    let z2 = u64_specs::wrapping_mul(z1 ^ (z1 >> 27u64), 0x94D049BB133111EB);
    z2 ^ (z2 >> 31u64)
}

/// The state after `n` consecutive draws from state `s`.
pub open spec fn spec_advance(s: u64, n: nat) -> u64
    decreases n,
{
    if n == 0 {
        s
    } else {
        spec_step(spec_advance(s, (n - 1) as nat))
    }
}

/// Relies on `rand::random` to draw a fresh seed from the thread's
/// generator; nothing is promised of the value.
#[verifier::external_body]
fn fresh_random_seed() -> u64 {
    rand::random()
}

/// The seed a run uses: the explicit one when given, else a fresh
/// random seed.
pub fn resolve_seed(seed: Option<u64>) -> (r: u64)
    ensures
        seed matches Some(s) ==> r == s,
{
    match seed {
        Some(s) => s,
        None => fresh_random_seed(),
    }
}

/// Determinism: the generator's next output and next state are
/// functions of its state alone, so two generators started from one
/// seed replay the same draw sequence forever, on any machine — the
/// property every pipeline run rests on.
pub proof fn lemma_generator_deterministic(s1: u64, s2: u64)
    requires
        s1 == s2,
    ensures
        spec_output(s1) == spec_output(s2),
        spec_step(s1) == spec_step(s2),
{
}

/// Seeded generator with a single 64-bit word of state.
pub struct DeterministicRng {
    state: u64,
}

impl DeterministicRng {
    /// The abstract state of the generator.
    pub closed spec fn view(&self) -> u64 {
        self.state
    }

    /// Creates a generator whose first draw is determined by `seed` alone.
    pub fn new(seed: u64) -> (r: Self)
        ensures
            r@ == seed,
    {
        DeterministicRng { state: seed }
    }

    /// One raw 64-bit draw.
    fn next_u64(&mut self) -> (r: u64)
        ensures
            final(self)@ == spec_step(old(self)@),
            r == spec_output(old(self)@),
    {
        self.state = self.state.wrapping_add(0x9E3779B97F4A7C15);
        let z0: u64 = self.state;
        let z1: u64 = (z0 ^ (z0 >> 30u64)).wrapping_mul(0xBF58476D1CE4E5B9);
        let z2: u64 = (z1 ^ (z1 >> 27u64)).wrapping_mul(0x94D049BB133111EB);
        z2 ^ (z2 >> 31u64)
    }

    /// Uniform fixed-point draw in `[0, UNIT_ONE)`, the integer analogue of
    /// a uniform draw from the unit interval.
    pub fn random_unit(&mut self) -> (r: u32)
        ensures
            final(self)@ == spec_step(old(self)@),
            r == spec_output(old(self)@) % (UNIT_ONE as u64),
            r < UNIT_ONE,
    {
        let raw: u64 = self.next_u64();
        let reduced: u64 = raw % (UNIT_ONE as u64);
        reduced as u32
    }

    /// Uniform index draw in `[0, upper)`; fails if and only if the range
    /// is empty. A failed call consumes no randomness.
    pub fn rand_index(&mut self, upper: usize) -> (r: Result<usize, RngError>)
        ensures
            r is Err <==> upper == 0,
            r is Err ==> r == Result::<usize, RngError>::Err(RngError::EmptyRange)
                && final(self)@ == old(self)@,
            r is Ok ==> r == Result::<usize, RngError>::Ok(
                (spec_output(old(self)@) % (upper as u64)) as usize,
            ) && final(self)@ == spec_step(old(self)@),
            r matches Ok(i) ==> i < upper,
    {
        if upper == 0 {
            return Err(RngError::EmptyRange);
        }
        let raw: u64 = self.next_u64();
        let reduced: u64 = raw % (upper as u64);
        Ok(reduced as usize)
    }

    /// Uniform draw in `[0, upper)` over the full 64-bit output.
    pub fn rand_below_u64(&mut self, upper: u64) -> (r: u64)
        requires
            upper > 0,
        ensures
            final(self)@ == spec_step(old(self)@),
            r == spec_output(old(self)@) % upper,
            r < upper,
    {
        let raw: u64 = self.next_u64();
        raw % upper
    }

    /// Draws `k` distinct indices in `[0, population)` without replacement.
    /// Fails if and only if `k > population`; a failed call, and a call
    /// with `k == 0`, consume no randomness; otherwise exactly `k` draws
    /// are consumed.
    pub fn sample_indices(&mut self, population: usize, k: usize) -> (r: Result<
        Vec<usize>,
        RngError,
    >)
        ensures
            r is Err <==> k > population,
            r is Err ==> r == Result::<Vec<usize>, RngError>::Err(
                RngError::SampleTooLarge { requested: k, population: population },
            ) && final(self)@ == old(self)@,
            r matches Ok(v) ==> v@.len() == k
                && (forall|i: int| 0 <= i < v@.len() ==> #[trigger] v@[i] < population)
                && (forall|i: int, j: int| 0 <= i < j < v@.len() ==> v@[i] != v@[j])
                && final(self)@ == spec_advance(old(self)@, k as nat),
    {
        if k > population {
            return Err(RngError::SampleTooLarge { requested: k, population });
        }
        if k == 0 {
            return Ok(Vec::new());
        }
        let mut pool: Vec<usize> = Vec::new();
        let mut fill: usize = 0;
        while fill < population
            invariant
                fill <= population,
                pool@.len() == fill,
                forall|i: int| 0 <= i < fill ==> #[trigger] pool@[i] == i,
            decreases population - fill,
        {
            pool.push(fill);
            fill = fill + 1;
        }
        assert(forall|i: int, j: int|
            0 <= i < j < pool@.len() ==> #[trigger] pool@[i] != #[trigger] pool@[j]);
        let mut chosen: usize = 0;
        while chosen < k
            invariant
                chosen <= k,
                k <= population,
                pool@.len() == population,
                forall|i: int| 0 <= i < pool@.len() ==> #[trigger] pool@[i] < population,
                forall|i: int, j: int|
                    0 <= i < j < pool@.len() ==> #[trigger] pool@[i] != #[trigger] pool@[j],
                self@ == spec_advance(old(self)@, chosen as nat),
            decreases k - chosen,
        {
            let remaining: usize = population - chosen;
            let ghost pre: u64 = self@;
            let draw: usize = match self.rand_index(remaining) {
                Ok(value) => value,
                Err(_) => {
                    proof {
                        assert(false);
                    }
                    0
                },
            };
            let target: usize = chosen + draw;
            let left: usize = pool[chosen];
            let right: usize = pool[target];
            pool.set(chosen, right);
            pool.set(target, left);
            proof {
                assert(self@ == spec_step(pre));
                assert(spec_step(spec_advance(old(self)@, chosen as nat)) == spec_advance(
                    old(self)@,
                    (chosen + 1) as nat,
                ));
            }
            chosen = chosen + 1;
        }
        let mut out: Vec<usize> = Vec::new();
        let mut take: usize = 0;
        while take < k
            invariant
                take <= k,
                k <= pool@.len(),
                out@.len() == take,
                forall|i: int| 0 <= i < take ==> #[trigger] out@[i] == pool@[i],
                forall|i: int| 0 <= i < pool@.len() ==> #[trigger] pool@[i] < pool@.len(),
                forall|i: int, j: int|
                    0 <= i < j < pool@.len() ==> #[trigger] pool@[i] != #[trigger] pool@[j],
            decreases k - take,
        {
            out.push(pool[take]);
            take = take + 1;
        }
        proof {
            assert(forall|i: int| 0 <= i < out@.len() ==> #[trigger] out@[i] < population);
            assert(forall|i: int, j: int| 0 <= i < j < out@.len() ==> out@[i] != out@[j]);
        }
        Ok(out)
    }
}

} // verus!
