//! Pipeline assembly, seed derivation and sequential execution.
//!
//! A pipeline is an ordered list of named, seeded steps compiled once
//! and run against many texts. Per-step seeds are derived from one
//! master seed as a function of the step's own name, scope and order
//! alone, so adding, removing or filtering other steps never perturbs
//! a step's seed — the property that makes runs replayable under
//! filtering.

use vstd::prelude::*;
use vstd::wrapping::u64_specs;
use crate::glitch_ops::{
    apply_delete_checked, apply_duplicate_checked, apply_redact_checked, apply_swap_checked,
    delete_applied, delete_fits, duplicate_applied, duplicate_fits, redact_fits, redact_outcome,
    swap_applied, swap_fits, DeleteRandomWordsOp, GlitchOpError, RedactWordsOp,
    ReduplicateWordsOp, RushmoreComboOp, SwapAdjacentWordsOp,
};
use crate::rng::DeterministicRng;
use crate::text_buffer::{byte_len, TextBuffer};

verus! {

/// One corruption algorithm behind the shared step interface. The set
/// is a closed union, so dispatch is an exhaustive match and adding a
/// step kind is a compile-time-checked change.
#[derive(Debug, Clone)]
pub enum GlitchOperation {
    Reduplicate(ReduplicateWordsOp),
    Delete(DeleteRandomWordsOp),
    SwapAdjacent(SwapAdjacentWordsOp),
    RushmoreCombo(RushmoreComboOp),
    Redact(RedactWordsOp),
}

/// What one dispatched step guarantees of the buffer it ran on: a
/// buffer past the machine's size limits is left untouched, and
/// otherwise the step's own outcome relation holds. The combined step
/// promises only well-formedness: its sub-steps chain internally.
pub open spec fn op_applied(
    op: GlitchOperation,
    before: TextBuffer,
    after: TextBuffer,
    r: Result<(), GlitchOpError>,
) -> bool {
    match op {
        GlitchOperation::Reduplicate(o) => (!duplicate_fits(before) ==> after == before) && (
        duplicate_fits(before) ==> r is Ok && duplicate_applied(o.rate, before, after)),
        GlitchOperation::Delete(o) => (!delete_fits(before) ==> after == before) && (delete_fits(
            before,
        ) ==> r is Ok && delete_applied(o.rate, before, after)),
        GlitchOperation::SwapAdjacent(o) => (!swap_fits(before) ==> after == before) && (
        swap_fits(before) ==> r is Ok && swap_applied(o.rate, before, after)),
        GlitchOperation::RushmoreCombo(_) => after.wf(),
        GlitchOperation::Redact(o) => (!redact_fits(o.replacement_char@, before) ==> after
            == before) && (redact_fits(o.replacement_char@, before) ==> redact_outcome(
            o.replacement_char@,
            o.rate,
            o.merge_adjacent,
            before,
            after,
            r,
        )),
    }
}

impl GlitchOperation {
    /// Whether the operation's own configuration fits machine limits.
    pub open spec fn tokens_fit(&self) -> bool {
        match self {
            GlitchOperation::Redact(op) => byte_len(op.replacement_char@) <= usize::MAX,
            _ => true,
        }
    }

    /// Applies the step to the buffer, all randomness drawn from the
    /// given generator. Buffer sizes beyond the machine's limits are
    /// reported as buffer errors before any mutation.
    pub fn apply(&self, buffer: &mut TextBuffer, rng: &mut DeterministicRng) -> (r: Result<
        (),
        GlitchOpError,
    >)
        requires
            old(buffer).wf(),
            self.tokens_fit(),
        ensures
            final(buffer).wf(),
            op_applied(*self, *old(buffer), *final(buffer), r),
    {
        match self {
            GlitchOperation::Reduplicate(op) => apply_duplicate_checked(op, buffer, rng),
            GlitchOperation::Delete(op) => apply_delete_checked(op, buffer, rng),
            GlitchOperation::SwapAdjacent(op) => apply_swap_checked(op, buffer, rng),
            GlitchOperation::RushmoreCombo(op) => op.apply(buffer, rng),
            GlitchOperation::Redact(op) => apply_redact_checked(op, buffer, rng),
        }
    }
}

/// A named, independently seeded step of a pipeline.
#[derive(Debug)]
pub struct GlitchDescriptor {
    /// The step's name, used for filtering.
    pub name: String,
    /// The seed for the step's own generator.
    pub seed: u64,
    /// The step's configured operation.
    pub operation: GlitchOperation,
}

/// One round of folding a character into the running hash.
pub open spec fn spec_mix(h: u64, v: u64) -> u64 {
    u64_specs::wrapping_mul(h ^ v, 0x100000001B3)
}

/// The hash after folding every character of `s` into `h`.
pub open spec fn spec_fold_chars(h: u64, s: Seq<char>) -> u64
    decreases s.len(),
{
    if s.len() == 0 {
        h
    } else {
        spec_fold_chars(spec_mix(h, s[0] as u64), s.drop_first())
    }
}

/// The seed assigned to a step: a function of the master seed and the
/// step's own name, scope and order — of nothing else.
pub open spec fn spec_derive_seed(master: u128, name: Seq<char>, scope: i32, order: i32) -> u64 {
    let lo = (master % 0x1_0000_0000_0000_0000u128) as u64;
    let hi = (master >> 64u128) as u64;
    let h0 = spec_mix(0xcbf29ce484222325u64, lo);
    let h1 = spec_mix(h0, hi);
    let h2 = spec_fold_chars(h1, name);
    let h3 = spec_mix(h2, scope as u64);
    spec_mix(h3, order as u64)
}

/// Seed stability under filtering: the derived seed is a congruence in
/// the master seed and the step's own name, scope and order, so two
/// plans that agree on those four values assign the step the same
/// seed, whatever other steps stand beside it in either plan.
pub proof fn lemma_seed_stable_under_filtering(
    master: u128,
    name1: Seq<char>,
    scope1: i32,
    order1: i32,
    name2: Seq<char>,
    scope2: i32,
    order2: i32,
)
    requires
        name1 == name2,
        scope1 == scope2,
        order1 == order2,
    ensures
        spec_derive_seed(master, name1, scope1, order1) == spec_derive_seed(
            master,
            name2,
            scope2,
            order2,
        ),
{
}

/// Executable seed derivation, exactly [`spec_derive_seed`].
pub fn derive_seed(master: u128, name: &str, scope: i32, order: i32) -> (r: u64)
    ensures
        r == spec_derive_seed(master, name@, scope, order),
{
    let lo: u64 = (master % 0x1_0000_0000_0000_0000u128) as u64;
    let hi: u64 = (master >> 64u128) as u64;
    let mut h: u64 = mix(0xcbf29ce484222325u64, lo);
    h = mix(h, hi);
    let n: usize = name.unicode_len();
    let mut i: usize = 0;
    proof {
        assert(name@.skip(0) =~= name@);
    }
    while i < n
        invariant
            n == name@.len(),
            i <= n,
            spec_fold_chars(h, name@.skip(i as int)) == spec_fold_chars(
                spec_mix(spec_mix(0xcbf29ce484222325u64, lo), hi),
                name@,
            ),
        decreases n - i,
    {
        let c: char = name.get_char(i);
        proof {
            assert(name@.skip(i as int)[0] == name@[i as int]);
            assert(name@.skip(i as int).drop_first() =~= name@.skip(i as int + 1));
        }
        h = mix(h, c as u64);
        i = i + 1;
    }
    proof {
        assert(name@.skip(n as int) =~= Seq::<char>::empty());
    }
    h = mix(h, scope as u64);
    mix(h, order as u64)
}

/// One executable mixing round, exactly [`spec_mix`].
fn mix(h: u64, v: u64) -> (r: u64)
    ensures
        r == spec_mix(h, v),
{
    (h ^ v).wrapping_mul(0x100000001B3)
}

/// A planning request: an item's position and seed-derivation fields.
#[derive(Debug, Clone)]
pub struct GagglePlanInput {
    pub index: usize,
    pub name: String,
    pub scope: i32,
    pub order: i32,
}

/// One planned entry: the item's position and its derived seed.
#[derive(Debug, Clone, Copy, PartialEq, Eq, Structural)]
pub struct GagglePlanEntry {
    pub index: usize,
    pub seed: u64,
}

/// Computes the `(index, seed)` pairs for a list of named items,
/// without running any mutation. Each entry's seed depends on the
/// master seed and that item's own fields alone.
pub fn plan_gaggle(items: Vec<GagglePlanInput>, master_seed: u128) -> (r: Vec<GagglePlanEntry>)
    ensures
        r@.len() == items@.len(),
        forall|i: int|
            0 <= i < r@.len() ==> (#[trigger] r@[i]).index == items@[i].index && r@[i].seed
                == spec_derive_seed(
                master_seed,
                items@[i].name@,
                items@[i].scope,
                items@[i].order,
            ),
{
    let mut out: Vec<GagglePlanEntry> = Vec::new();
    let n: usize = items.len();
    let mut i: usize = 0;
    while i < n
        invariant
            n == items@.len(),
            i <= n,
            out@.len() == i,
            forall|k: int|
                0 <= k < i ==> (#[trigger] out@[k]).index == items@[k].index && out@[k].seed
                    == spec_derive_seed(
                    master_seed,
                    items@[k].name@,
                    items@[k].scope,
                    items@[k].order,
                ),
        decreases n - i,
    {
        let seed: u64 = derive_seed(
            master_seed,
            items[i].name.as_str(),
            items[i].scope,
            items[i].order,
        );
        out.push(GagglePlanEntry { index: items[i].index, seed });
        i = i + 1;
    }
    out
}

/// Whether `name` matches `pattern`: either exactly, or by prefix when
/// the pattern ends with an asterisk.
pub open spec fn spec_name_matches(name: Seq<char>, pattern: Seq<char>) -> bool {
    pattern == name || (pattern.len() > 0 && pattern.last() == '*' && name.len() >= pattern.len()
        - 1 && name.take(pattern.len() - 1) == pattern.take(pattern.len() - 1))
}

/// Executable form of [`spec_name_matches`].
fn name_matches(name: &str, pattern: &str) -> (r: bool)
    ensures
        r == spec_name_matches(name@, pattern@),
{
    let nl: usize = name.unicode_len();
    let pl: usize = pattern.unicode_len();
    if nl == pl {
        let exact: bool = chars_equal(name, 0, pattern, 0, nl);
        proof {
            if exact {
                assert forall|q: int| 0 <= q < nl implies name@[q] == pattern@[q] by {
                    assert(name@[0 + q] == pattern@[0 + q]);
                }
                assert(pattern@ =~= name@);
            } else {
                if pattern@ == name@ {
                    assert forall|q: int| 0 <= q < nl implies name@[0 + q] == #[trigger] pattern@[
                        0 + q
                    ] by {
                        assert(name@[q] == pattern@[q]);
                    }
                    assert(false);
                }
            }
        }
        if exact {
            return true;
        }
    }
    if pl > 0 && pattern.get_char(pl - 1) == '*' && nl >= pl - 1 {
        let prefix_ok: bool = chars_equal(name, 0, pattern, 0, pl - 1);
        proof {
            if prefix_ok {
                assert forall|q: int| 0 <= q < pl - 1 implies name@.take(pl - 1)[q]
                    == #[trigger] pattern@.take(pl - 1)[q] by {
                    assert(name@[0 + q] == pattern@[0 + q]);
                }
                assert(name@.take(pl - 1) =~= pattern@.take(pl - 1));
            } else {
                if name@.take(pl - 1) == pattern@.take(pl - 1) {
                    assert forall|q: int| 0 <= q < pl - 1 implies name@[0 + q] == #[trigger] pattern@[
                        0 + q
                    ] by {
                        assert(name@.take(pl - 1)[q] == pattern@.take(pl - 1)[q]);
                    }
                    assert(false);
                }
                if pattern@ == name@ {
                    assert(false);
                }
            }
        }
        return prefix_ok;
    }
    proof {
        if pattern@ == name@ {
            assert(false);
        }
    }
    false
}

/// Compares `count` characters of two strings from the given offsets.
fn chars_equal(a: &str, a_from: usize, b: &str, b_from: usize, count: usize) -> (r: bool)
    requires
        a_from + count <= a@.len(),
        b_from + count <= b@.len(),
        a_from + count <= usize::MAX,
        b_from + count <= usize::MAX,
    ensures
        r == (forall|k: int| 0 <= k < count ==> a@[a_from + k] == #[trigger] b@[b_from + k]),
{
    let mut k: usize = 0;
    while k < count
        invariant
            a_from + count <= a@.len(),
            b_from + count <= b@.len(),
            a_from + count <= usize::MAX,
            b_from + count <= usize::MAX,
            k <= count,
            forall|q: int| 0 <= q < k ==> a@[a_from + q] == #[trigger] b@[b_from + q],
        decreases count - k,
    {
        if a.get_char(a_from + k) != b.get_char(b_from + k) {
            return false;
        }
        k = k + 1;
    }
    true
}

/// Whether any pattern of the list matches the name.
pub open spec fn spec_any_match(name: Seq<char>, patterns: Seq<Seq<char>>) -> bool {
    exists|i: int| 0 <= i < patterns.len() && spec_name_matches(name, #[trigger] patterns[i])
}

fn any_match(name: &str, patterns: &Vec<String>) -> (r: bool)
    ensures
        r == spec_any_match(name@, patterns@.map_values(|p: String| p@)),
{
    let ghost views = patterns@.map_values(|p: String| p@);
    let n: usize = patterns.len();
    let mut i: usize = 0;
    while i < n
        invariant
            n == patterns@.len(),
            views == patterns@.map_values(|p: String| p@),
            i <= n,
            forall|k: int| 0 <= k < i ==> !spec_name_matches(name@, #[trigger] views[k]),
        decreases n - i,
    {
        if name_matches(name, patterns[i].as_str()) {
            proof {
                assert(views[i as int] == patterns@[i as int]@);
            }
            return true;
        }
        i = i + 1;
    }
    false
}

/// Whether a step with this name passes the filters: an empty
/// admit-list admits everything, and exclusion wins.
pub open spec fn spec_included(
    name: Seq<char>,
    admit_list: Seq<Seq<char>>,
    exclude: Seq<Seq<char>>,
) -> bool {
    (admit_list.len() == 0 || spec_any_match(name, admit_list)) && !spec_any_match(name, exclude)
}

/// The descriptors that survive the filters, in order.
pub open spec fn spec_filtered(
    steps: Seq<GlitchDescriptor>,
    admit_list: Seq<Seq<char>>,
    exclude: Seq<Seq<char>>,
) -> Seq<GlitchDescriptor>
    decreases steps.len(),
{
    if steps.len() == 0 {
        steps
    } else {
        let rest = spec_filtered(steps.drop_last(), admit_list, exclude);
        if spec_included(steps.last().name@, admit_list, exclude) {
            rest.push(steps.last())
        } else {
            rest
        }
    }
}

/// A step to be compiled under a master seed: its seed is not given
/// but derived from the step's own name, scope and order.
#[derive(Debug)]
pub struct PlannedStep {
    /// The step's name, used for filtering and seed derivation.
    pub name: String,
    /// The step's seed-derivation scope.
    pub scope: i32,
    /// The step's seed-derivation order.
    pub order: i32,
    /// The step's configured operation.
    pub operation: GlitchOperation,
}

/// An ordered, seeded, filtered sequence of mutation steps, compiled
/// once and reused across runs.
#[derive(Debug)]
pub struct Pipeline {
    steps: Vec<GlitchDescriptor>,
}

impl Pipeline {
    /// The compiled steps.
    pub closed spec fn spec_steps(&self) -> Seq<GlitchDescriptor> {
        self.steps@
    }

    /// Whether every compiled step's configuration fits machine limits.
    pub open spec fn wf(&self) -> bool {
        forall|i: int|
            0 <= i < self.spec_steps().len() ==> (#[trigger] self.spec_steps()[i]).operation.tokens_fit()
    }

    /// Compiles a pipeline: the descriptors that pass the include and
    /// exclude name filters are kept, in their given order, with their
    /// given seeds. A descriptor's seed is either explicit or comes
    /// from [`derive_seed`] — [`plan_gaggle`] computes the
    /// filter-stable assignment from one master seed — so filtering
    /// here never perturbs another step's seed.
    pub fn compile(
        descriptors: Vec<GlitchDescriptor>,
        include_patterns: Vec<String>,
        exclude_patterns: Vec<String>,
    ) -> (r: Pipeline)
        ensures
            r.spec_steps() == spec_filtered(
                descriptors@,
                include_patterns@.map_values(|p: String| p@),
                exclude_patterns@.map_values(|p: String| p@),
            ),
    {
        let ghost all = descriptors@;
        let ghost inc = include_patterns@.map_values(|p: String| p@);
        let ghost exc = exclude_patterns@.map_values(|p: String| p@);
        let mut remaining = descriptors;
        let mut kept: Vec<GlitchDescriptor> = Vec::new();
        let ghost mut i: int = 0;
        proof {
            assert(all.take(0) =~= Seq::<GlitchDescriptor>::empty());
            assert(remaining@ =~= all.skip(0));
        }
        while remaining.len() > 0
            invariant
                0 <= i <= all.len(),
                remaining@ == all.skip(i),
                inc == include_patterns@.map_values(|p: String| p@),
                exc == exclude_patterns@.map_values(|p: String| p@),
                kept@ == spec_filtered(all.take(i), inc, exc),
            decreases remaining@.len(),
        {
            let step: GlitchDescriptor = remaining.remove(0);
            proof {
                assert(all.skip(i)[0] == all[i]);
                assert(step == all[i]);
                assert(remaining@ =~= all.skip(i + 1));
            }
            let included: bool = {
                let inc_empty: bool = include_patterns.len() == 0;
                let name: &str = step.name.as_str();
                (inc_empty || any_match(name, &include_patterns)) && !any_match(
                    name,
                    &exclude_patterns,
                )
            };
            proof {
                assert(included == spec_included(all[i].name@, inc, exc));
                assert(all.take(i + 1).drop_last() =~= all.take(i));
                assert(all.take(i + 1).last() == all[i]);
            }
            if included {
                kept.push(step);
                proof {
                    assert(kept@ =~= spec_filtered(all.take(i), inc, exc).push(all[i]));
                }
            }
            proof {
                i = i + 1;
            }
        }
        proof {
            assert(all.take(i) =~= all);
        }
        Pipeline { steps: kept }
    }

    /// Compiles a pipeline from one master seed: every step is
    /// assigned the seed derived from the master seed and the step's
    /// own name, scope and order — stable whatever other steps are
    /// present or later filtered out — and the name filters are then
    /// applied as in [`Pipeline::compile`].
    pub fn compile_with_master(
        master_seed: u128,
        steps: Vec<PlannedStep>,
        include_patterns: Vec<String>,
        exclude_patterns: Vec<String>,
    ) -> (r: Pipeline)
        ensures
            exists|descriptors: Seq<GlitchDescriptor>|
                #![trigger descriptors.len()]
                {
                    &&& descriptors.len() == steps@.len()
                    &&& (forall|i: int|
                        0 <= i < steps@.len() ==> (#[trigger] descriptors[i]).name@
                            == (#[trigger] steps@[i]).name@ && descriptors[i].operation
                            == steps@[i].operation && descriptors[i].seed == spec_derive_seed(
                            master_seed,
                            steps@[i].name@,
                            steps@[i].scope,
                            steps@[i].order,
                        ))
                    &&& r.spec_steps() == spec_filtered(
                        descriptors,
                        include_patterns@.map_values(|p: String| p@),
                        exclude_patterns@.map_values(|p: String| p@),
                    )
                },
    {
        let ghost all = steps@;
        let mut remaining = steps;
        let mut seeded: Vec<GlitchDescriptor> = Vec::new();
        let ghost mut i: int = 0;
        proof {
            assert(remaining@ =~= all.skip(0));
        }
        while remaining.len() > 0
            invariant
                0 <= i <= all.len(),
                remaining@ == all.skip(i),
                seeded@.len() == i,
                forall|k: int|
                    0 <= k < i ==> (#[trigger] seeded@[k]).name@ == all[k].name@ && seeded@[k].operation
                        == all[k].operation && seeded@[k].seed == spec_derive_seed(
                        master_seed,
                        all[k].name@,
                        all[k].scope,
                        all[k].order,
                    ),
            decreases remaining@.len(),
        {
            let step: PlannedStep = remaining.remove(0);
            proof {
                assert(all.skip(i)[0] == all[i]);
                assert(step == all[i]);
                assert(remaining@ =~= all.skip(i + 1));
            }
            let seed: u64 = derive_seed(master_seed, step.name.as_str(), step.scope, step.order);
            seeded.push(GlitchDescriptor { name: step.name, seed, operation: step.operation });
            proof {
                i = i + 1;
            }
        }
        Pipeline::compile(seeded, include_patterns, exclude_patterns)
    }

    /// Runs the compiled steps in order against one buffer built from
    /// `text`, each step with a fresh generator seeded from its own
    /// seed, and returns the final text. The first failing step aborts
    /// the run. On success there is a chain of buffers from the
    /// tokenised input to the output, one per step, each link related
    /// to the next by its step's outcome under a generator seeded from
    /// that step's own seed alone.
    #[verifier::rlimit(100)]
    pub fn run(&self, text: &str) -> (r: Result<String, GlitchOpError>)
        requires
            self.wf(),
            byte_len(text@) <= usize::MAX,
        ensures
            self.spec_steps().len() == 0 ==> (r matches Ok(out) && out@ == text@),
            r matches Ok(out) ==> exists|chain: Seq<TextBuffer>|
                {
                    &&& chain.len() == self.spec_steps().len() + 1
                    &&& chain[0].wf()
                    &&& chain[0].text() == text@
                    &&& crate::text_buffer::well_tokenised(chain[0].segs())
                    &&& (forall|i: int|
                        0 <= i < self.spec_steps().len() ==> op_applied(
                            (#[trigger] self.spec_steps()[i]).operation,
                            chain[i],
                            chain[i + 1],
                            Ok(()),
                        ))
                    &&& out@ == chain.last().text()
                },
    {
        let mut buffer = TextBuffer::from_str(text);
        let ghost mut chain: Seq<TextBuffer> = seq![buffer];
        let count: usize = self.steps.len();
        let mut i: usize = 0;
        while i < count
            invariant
                count == self.spec_steps().len(),
                i <= count,
                buffer.wf(),
                self.wf(),
                chain.len() == i + 1,
                chain[0].wf(),
                chain[0].text() == text@,
                crate::text_buffer::well_tokenised(chain[0].segs()),
                count == 0 ==> buffer.text() == text@,
                chain.last() == buffer,
                forall|k: int|
                    0 <= k < i ==> op_applied(
                        (#[trigger] self.spec_steps()[k]).operation,
                        chain[k],
                        chain[k + 1],
                        Ok(()),
                    ),
            decreases count - i,
        {
            let mut rng = DeterministicRng::new(self.steps[i].seed);
            let outcome = self.steps[i].operation.apply(&mut buffer, &mut rng);
            match outcome {
                Ok(unit_value) => {
                    proof {
                        assert(unit_value == ());
                        assert(outcome == Result::<(), GlitchOpError>::Ok(()));
                        chain = chain.push(buffer);
                    }
                },
                Err(error) => {
                    return Err(error);
                },
            }
            i = i + 1;
        }
        let out = buffer.to_string();
        proof {
            assert(out@ == chain.last().text());
        }
        Ok(out)
    }
}

} // verus!
