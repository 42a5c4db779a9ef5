//! Mutation steps over the text buffer.
//!
//! Each step's `apply` takes the buffer and a deterministic generator
//! and mutates the buffer in place; all stochastic choices go through
//! the generator, so one seed replays one outcome. A step whose rate is
//! zero leaves the buffer untouched, bit for bit.

use vstd::prelude::*;
use crate::affix::{
    affix_bounds, core_end, core_start, cross_core, has_alnum, lemma_core_bounds,
    lemma_cross_core_bytes, split_affixes, WEIGHT_SCALE,
};
use crate::rng::{DeterministicRng, RngError, UNIT_ONE};
use crate::text_buffer::{
    apply_word_updates, bytes_before, byte_len, lemma_apply_word_updates_bytes,
    lemma_apply_word_updates_pointwise, lemma_bytes_before_mono, lemma_merged_segs_bytes,
    lemma_repl_bytes_push, lemma_word_indices_props, merged_segs, repeat_seq, repl_bytes,
    word_indices, SegView, SegmentKind, TextBuffer, TextBufferError,
};
use crate::sampler::weighted_sample_without_replacement;

verus! {

/// Errors produced while applying a mutation step.
#[derive(Debug, Clone, Copy, PartialEq, Eq, Structural)]
pub enum GlitchOpError {
    /// A buffer index was invalid: a caller bug.
    Buffer(TextBufferError),
    /// Redaction was asked of text with no redactable words.
    NoRedactableWords,
    /// A sample of more items than there are candidates was requested.
    ExcessiveRedaction { requested: usize, available: usize },
    /// The generator was asked for an index from an empty range.
    Rng(RngError),
    /// The buffer has outgrown the machine limits a step's arithmetic
    /// needs; nothing was mutated.
    OversizedBuffer { bytes: usize },
}

impl GlitchOpError {
    /// A human-readable description of the error.
    pub fn describe(&self) -> String {
        match self {
            GlitchOpError::Buffer(inner) => inner.describe(),
            GlitchOpError::NoRedactableWords => {
                let mut message = String::new();
                message.append(
                    "Cannot redact words because the input text contains no redactable words.",
                );
                message
            },
            GlitchOpError::ExcessiveRedaction { .. } => {
                let mut message = String::new();
                message.append("Cannot redact more words than available in text");
                message
            },
            GlitchOpError::Rng(..) => {
                let mut message = String::new();
                message.append("random index requested from an empty range");
                message
            },
            GlitchOpError::OversizedBuffer { .. } => {
                let mut message = String::new();
                message.append("the buffer is too large for this step on this machine");
                message
            },
        }
    }
}

/// Builds the cross-core pair for two word texts, or nothing when
/// either core is empty. The results are bounded by the two words'
/// combined size.
fn swapped_pair(left_text: &str, right_text: &str) -> (r: Option<(String, String)>)
    ensures
        r is Some <==> (has_alnum(left_text@) && has_alnum(right_text@)),
        r matches Some(pair) ==> pair.0@ == cross_core(left_text@, right_text@) && pair.1@
            == cross_core(right_text@, left_text@) && byte_len(pair.0@) <= byte_len(left_text@)
            + byte_len(right_text@) && byte_len(pair.1@) <= byte_len(left_text@) + byte_len(
            right_text@,
        ),
{
    let (left_prefix, left_core, left_suffix) = split_affixes(left_text);
    let (right_prefix, right_core, right_suffix) = split_affixes(right_text);
    if left_core.as_str().is_empty() || right_core.as_str().is_empty() {
        proof {
            if left_core@.len() == 0 && has_alnum(left_text@) {
                lemma_core_bounds(left_text@);
            }
            if right_core@.len() == 0 && has_alnum(right_text@) {
                lemma_core_bounds(right_text@);
            }
        }
        return None;
    }
    proof {
        if !has_alnum(left_text@) {
            assert(left_core@.len() == 0);
        }
        if !has_alnum(right_text@) {
            assert(right_core@.len() == 0);
        }
        lemma_core_bounds(left_text@);
        lemma_core_bounds(right_text@);
    }
    let mut left_new: String = left_prefix;
    left_new.append(right_core.as_str());
    left_new.append(left_suffix.as_str());
    let mut right_new: String = right_prefix;
    right_new.append(left_core.as_str());
    right_new.append(right_suffix.as_str());
    proof {
        assert(left_new@ =~= cross_core(left_text@, right_text@));
        assert(right_new@ =~= cross_core(right_text@, left_text@));
        lemma_cross_core_bytes(left_text@, right_text@);
        lemma_cross_core_bytes(right_text@, left_text@);
    }
    Some((left_new, right_new))
}

/// A sound adjacent-swap replacement batch: word indices are sorted,
/// in range, and each entry rewrites its word with its own affixes
/// around the adjacent pair word's core (the pair word is the next
/// word for an even index, the previous for an odd one).
pub open spec fn swap_batch_ok(osegs: Seq<SegView>, rs: Seq<(usize, Seq<char>)>, pairs: int) -> bool {
    let owi = word_indices(osegs);
    &&& (forall|k: int| 0 <= k < rs.len() ==> (#[trigger] rs[k]).0 < 2 * pairs)
    &&& (forall|k1: int, k2: int| 0 <= k1 < k2 < rs.len() ==> (rs[k1]).0 < (rs[k2]).0)
    &&& (forall|k: int|
        0 <= k < rs.len() ==> ((#[trigger] rs[k]).0 % 2 == 0 ==> (rs[k]).1 == cross_core(
            osegs[owi[(rs[k]).0 as int]].text,
            osegs[owi[(rs[k]).0 as int + 1]].text,
        )) && ((rs[k]).0 % 2 == 1 ==> (rs[k]).1 == cross_core(
            osegs[owi[(rs[k]).0 as int]].text,
            osegs[owi[(rs[k]).0 as int - 1]].text,
        )))
}

/// A saturated swap batch: every adjacent pair whose two cores are
/// both non-empty has both of its rewrites in the batch — nothing
/// eligible is passed over.
pub open spec fn swap_batch_full(osegs: Seq<SegView>, rs: Seq<(usize, Seq<char>)>, pairs: int) -> bool {
    let owi = word_indices(osegs);
    forall|q: int|
        0 <= q < pairs && has_alnum(osegs[owi[2 * q]].text) && has_alnum(
            #[trigger] osegs[owi[2 * q + 1]].text,
        ) ==> (exists|kk: int| 0 <= kk < rs.len() && (#[trigger] rs[kk]).0 == 2 * q) && (exists|
        kk: int|
            0 <= kk < rs.len() && (#[trigger] rs[kk]).0 == 2 * q + 1)
}

/// The adjacent swap's outcome: the new segments are the old ones
/// under a sound swap batch, lengths and kinds untouched, and at a
/// full rate the batch reaches every eligible pair.
pub open spec fn swap_applied(rate: u32, before: TextBuffer, after: TextBuffer) -> bool {
    &&& after.segs().len() == before.segs().len()
    &&& (forall|x: int|
        0 <= x < before.segs().len() ==> (#[trigger] after.segs()[x]).kind
            == before.segs()[x].kind)
    &&& exists|rs: Seq<(usize, Seq<char>)>|
        swap_batch_ok(before.segs(), rs, before.spec_word_count() / 2) && after.segs()
            == apply_word_updates(before.segs(), word_indices(before.segs()), rs) && (rate
            >= UNIT_ONE ==> swap_batch_full(before.segs(), rs, before.spec_word_count() / 2))
}

/// Recording both rewrites of pair `p` keeps a saturated batch
/// saturated one pair further.
proof fn lemma_swap_saturation_step(
    osegs: Seq<SegView>,
    owi: Seq<int>,
    p: int,
    rs_before: Seq<(usize, Seq<char>)>,
    rs: Seq<(usize, Seq<char>)>,
)
    requires
        owi == word_indices(osegs),
        0 <= p,
        2 * p + 1 < owi.len(),
        rs.len() == rs_before.len() + 2,
        forall|k: int| 0 <= k < rs_before.len() ==> #[trigger] rs[k] == rs_before[k],
        (rs[rs.len() - 2]).0 == 2 * p,
        (rs[rs.len() - 1]).0 == 2 * p + 1,
        forall|q: int|
            0 <= q < p && has_alnum(osegs[owi[2 * q]].text) && has_alnum(
                #[trigger] osegs[owi[2 * q + 1]].text,
            ) ==> (exists|kk: int| 0 <= kk < rs_before.len() && (#[trigger] rs_before[kk]).0 == 2
                * q) && (exists|kk: int|
                0 <= kk < rs_before.len() && (#[trigger] rs_before[kk]).0 == 2 * q + 1),
    ensures
        forall|q: int|
            0 <= q < p + 1 && has_alnum(osegs[owi[2 * q]].text) && has_alnum(
                #[trigger] osegs[owi[2 * q + 1]].text,
            ) ==> (exists|kk: int| 0 <= kk < rs.len() && (#[trigger] rs[kk]).0 == 2 * q) && (
            exists|kk: int|
                0 <= kk < rs.len() && (#[trigger] rs[kk]).0 == 2 * q + 1),
{
    assert forall|q: int|
        0 <= q < p + 1 && has_alnum(osegs[owi[2 * q]].text) && has_alnum(
            #[trigger] osegs[owi[2 * q + 1]].text,
        ) implies (exists|kk: int| 0 <= kk < rs.len() && (#[trigger] rs[kk]).0 == 2 * q) && (
    exists|kk: int|
        0 <= kk < rs.len() && (#[trigger] rs[kk]).0 == 2 * q + 1) by {
        if q < p {
            let k1 = choose|kk: int|
                0 <= kk < rs_before.len() && (#[trigger] rs_before[kk]).0 == 2 * q;
            assert(rs[k1] == rs_before[k1]);
            let k2 = choose|kk: int|
                0 <= kk < rs_before.len() && (#[trigger] rs_before[kk]).0 == 2 * q + 1;
            assert(rs[k2] == rs_before[k2]);
        } else {
            assert((rs[rs.len() - 2]).0 == 2 * q);
            assert((rs[rs.len() - 1]).0 == 2 * q + 1);
        }
    }
}

/// Swaps the cores of adjacent word pairs while keeping punctuation
/// and spacing intact.
#[derive(Debug, Clone, Copy)]
pub struct SwapAdjacentWordsOp {
    /// Probability of swapping each pair, as a fraction of
    /// [`UNIT_ONE`]; values above one full unit are clamped.
    pub rate: u32,
}

impl SwapAdjacentWordsOp {
    /// Walks the words in adjacent pairs and, for each pair whose two
    /// cores are non-empty, swaps the cores with probability `rate`
    /// (one uniform draw per such pair, none once the rate is full).
    /// At rate zero nothing is touched, generator included; whatever
    /// the draws, the result is the old segments with some sound swap
    /// batch applied, so only cross-core rewrites of paired words can
    /// ever appear.
    #[verifier::rlimit(100)]
    pub fn apply(&self, buffer: &mut TextBuffer, rng: &mut DeterministicRng) -> (r: Result<
        (),
        GlitchOpError,
    >)
        requires
            old(buffer).wf(),
            3 * old(buffer).spec_bytes() <= usize::MAX,
        ensures
            r is Ok,
            final(buffer).wf(),
            self.rate == 0 ==> *final(buffer) == *old(buffer) && *final(rng) == *old(rng),
            swap_applied(self.rate, *old(buffer), *final(buffer)),
    {
        let ghost osegs = old(buffer).segs();
        let ghost owi = word_indices(osegs);
        proof {
            lemma_word_indices_props(osegs);
        }
        let word_count: usize = buffer.word_count();
        let npairs: usize = word_count / 2;
        if word_count < 2 {
            proof {
                let w: Seq<(usize, Seq<char>)> = Seq::empty();
                assert(swap_batch_ok(osegs, w, osegs.len() as int / 2));
                assert(apply_word_updates(osegs, owi, w) == osegs);
            }
            return Ok(());
        }
        let clamped: u32 = if self.rate > UNIT_ONE {
            UNIT_ONE
        } else {
            self.rate
        };
        if clamped == 0 {
            proof {
                let w: Seq<(usize, Seq<char>)> = Seq::empty();
                assert(apply_word_updates(osegs, owi, w) == osegs);
            }
            return Ok(());
        }
        let mut replacements: Vec<(usize, String)> = Vec::new();
        let ghost mut rs: Seq<(usize, Seq<char>)> = Seq::empty();
        let ghost mut frontier: int = 0;
        let mut p: usize = 0;
        proof {
            assert(rs =~= replacements@.map_values(|x: (usize, String)| (x.0, x.1@)));
        }
        while p < npairs
            invariant
                *buffer == *old(buffer),
                buffer.wf(),
                osegs == buffer.segs(),
                owi == word_indices(osegs),
                word_count == owi.len(),
                npairs == word_count / 2,
                2 * npairs <= word_count,
                p <= npairs,
                rs == replacements@.map_values(|x: (usize, String)| (x.0, x.1@)),
                forall|j: int| 0 <= j < owi.len() ==> 0 <= #[trigger] owi[j] < osegs.len(),
                forall|j1: int, j2: int| 0 <= j1 < j2 < owi.len() ==> owi[j1] < owi[j2],
                forall|k: int| 0 <= k < rs.len() ==> (#[trigger] rs[k]).0 < 2 * p,
                forall|k1: int, k2: int| 0 <= k1 < k2 < rs.len() ==> (rs[k1]).0 < (rs[k2]).0,
                forall|k: int|
                    0 <= k < rs.len() ==> ((#[trigger] rs[k]).0 % 2 == 0 ==> (rs[k]).1
                        == cross_core(
                        osegs[owi[(rs[k]).0 as int]].text,
                        osegs[owi[(rs[k]).0 as int + 1]].text,
                    )) && ((rs[k]).0 % 2 == 1 ==> (rs[k]).1 == cross_core(
                        osegs[owi[(rs[k]).0 as int]].text,
                        osegs[owi[(rs[k]).0 as int - 1]].text,
                    )),
                0 <= frontier <= osegs.len(),
                p < npairs ==> frontier <= owi[2 * p],
                repl_bytes(rs) <= 2 * bytes_before(osegs, frontier),
                self.rate >= UNIT_ONE ==> clamped == UNIT_ONE,
                self.rate >= UNIT_ONE ==> forall|q: int|
                    0 <= q < p && has_alnum(osegs[owi[2 * q]].text) && has_alnum(
                        #[trigger] osegs[owi[2 * q + 1]].text,
                    ) ==> (exists|kk: int| 0 <= kk < rs.len() && (#[trigger] rs[kk]).0 == 2 * q)
                        && (exists|kk: int|
                        0 <= kk < rs.len() && (#[trigger] rs[kk]).0 == 2 * q + 1),
            decreases npairs - p,
        {
            let ghost rs_before = rs;
            let left_index: usize = 2 * p;
            let right_index: usize = left_index + 1;
            let left_text: String = match buffer.word_segment(left_index) {
                Some(seg) => seg.text().to_owned(),
                None => {
                    proof {
                        assert(false);
                    }
                    String::new()
                },
            };
            let right_text: String = match buffer.word_segment(right_index) {
                Some(seg) => seg.text().to_owned(),
                None => {
                    proof {
                        assert(false);
                    }
                    String::new()
                },
            };
            proof {
                assert(left_text@ == osegs[owi[left_index as int]].text);
                assert(right_text@ == osegs[owi[right_index as int]].text);
            }
            let pair = swapped_pair(left_text.as_str(), right_text.as_str());
            match pair {
                Some((left_new, right_new)) => {
                    let should_swap: bool = if clamped >= UNIT_ONE {
                        true
                    } else {
                        rng.random_unit() < clamped
                    };
                    if should_swap {
                        let ghost s1 = owi[left_index as int];
                        let ghost s2 = owi[right_index as int];
                        let ghost lv = left_new@;
                        let ghost rv = right_new@;
                        replacements.push((left_index, left_new));
                        replacements.push((right_index, right_new));
                        proof {
                            let rs_mid = rs_before.push((left_index, lv));
                            rs = rs_mid.push((right_index, rv));
                            assert(replacements@.map_values(|x: (usize, String)| (x.0, x.1@))
                                =~= rs);
                            assert(forall|k: int|
                                0 <= k < rs_before.len() ==> #[trigger] rs[k] == rs_before[k]);
                            assert(rs[rs_before.len() as int] == (left_index, lv));
                            assert(rs[rs_before.len() as int + 1] == (right_index, rv));
                            lemma_repl_bytes_push(rs_before, (left_index, lv));
                            lemma_repl_bytes_push(rs_mid, (right_index, rv));
                            lemma_bytes_before_mono(osegs, frontier, s1);
                            assert(bytes_before(osegs, s1 + 1) == bytes_before(osegs, s1)
                                + byte_len(osegs[s1].text));
                            assert(bytes_before(osegs, s2 + 1) == bytes_before(osegs, s2)
                                + byte_len(osegs[s2].text));
                            lemma_bytes_before_mono(osegs, s1 + 1, s2);
                            frontier = s2 + 1;
                            if self.rate >= UNIT_ONE {
                                lemma_swap_saturation_step(osegs, owi, p as int, rs_before, rs);
                            }
                        }
                    } else {
                        proof {
                            if self.rate >= UNIT_ONE {
                                assert(clamped == UNIT_ONE);
                                assert(false);
                            }
                        }
                    }
                },
                None => {
                    proof {
                        if self.rate >= UNIT_ONE {
                            assert(!(has_alnum(osegs[owi[2 * (p as int)]].text) && has_alnum(
                                osegs[owi[2 * (p as int) + 1]].text,
                            )));
                        }
                    }
                },
            }
            proof {
                if p + 1 < npairs {
                    assert(owi[2 * p] < owi[2 * p + 1]);
                    assert(owi[2 * p + 1] < owi[2 * (p + 1)]);
                }
            }
            p = p + 1;
        }
        proof {
            lemma_bytes_before_mono(osegs, frontier, osegs.len() as int);
            lemma_apply_word_updates_bytes(osegs, owi, rs);
            lemma_apply_word_updates_pointwise(osegs, owi, rs);
            assert forall|k: int| 0 <= k < replacements@.len() implies (
            #[trigger] replacements@[k]).0 < old(buffer).spec_word_count() by {
                assert(rs[k].0 == replacements@[k].0);
                assert(rs[k].0 < 2 * npairs);
            }
        }
        let bulk = buffer.replace_words_bulk(replacements);
        proof {
            assert(bulk is Ok);
            let nsegs = buffer.segs();
            assert(nsegs == apply_word_updates(osegs, owi, rs));
            assert(swap_batch_ok(osegs, rs, owi.len() as int / 2));
            assert forall|x: int| 0 <= x < osegs.len() implies (#[trigger] nsegs[x]).kind
                == osegs[x].kind by {
                if exists|k: int| 0 <= k < rs.len() && owi[(#[trigger] rs[k]).0 as int] == x {
                    let k = choose|k: int|
                        0 <= k < rs.len() && owi[(#[trigger] rs[k]).0 as int] == x;
                    assert(nsegs[owi[(rs[k]).0 as int]] == (SegView {
                        kind: SegmentKind::Word,
                        text: rs[k].1,
                    }));
                    assert(osegs[x].kind is Word);
                } else {
                    assert(forall|k: int|
                        0 <= k < rs.len() ==> owi[(#[trigger] rs[k]).0 as int] != x);
                    assert(nsegs[x] == osegs[x]);
                }
            }
        }
        Ok(())
    }
}

/// Whether word `w` of `segs` can be redacted: its text has a
/// non-empty alphanumeric core.
pub open spec fn redactable(segs: Seq<SegView>, w: int) -> bool {
    has_alnum(segs[word_indices(segs)[w]].text)
}

/// The word indices of the redaction candidates among the first `upto`
/// words, in increasing order.
pub open spec fn candidate_words(segs: Seq<SegView>, upto: int) -> Seq<int>
    decreases upto,
{
    if upto <= 0 {
        Seq::empty()
    } else if redactable(segs, upto - 1) {
        candidate_words(segs, upto - 1).push(upto - 1)
    } else {
        candidate_words(segs, upto - 1)
    }
}

/// `candidate_words` lists exactly the redactable word indices, in
/// strictly increasing order.
pub proof fn lemma_candidate_words_props(segs: Seq<SegView>, upto: int)
    ensures
        forall|i: int|
            0 <= i < candidate_words(segs, upto).len() ==> 0 <= #[trigger] candidate_words(
                segs,
                upto,
            )[i] < upto && redactable(segs, candidate_words(segs, upto)[i]),
        forall|i: int, j: int|
            0 <= i < j < candidate_words(segs, upto).len() ==> candidate_words(segs, upto)[i]
                < candidate_words(segs, upto)[j],
        forall|w: int|
            0 <= w < upto && redactable(segs, w) ==> candidate_words(segs, upto).contains(w),
    decreases upto,
{
    if upto > 0 {
        lemma_candidate_words_props(segs, upto - 1);
        let prev = candidate_words(segs, upto - 1);
        let cur = candidate_words(segs, upto);
        assert forall|w: int|
            0 <= w < upto && redactable(segs, w) implies cur.contains(w) by {
            if w < upto - 1 {
                assert(prev.contains(w));
                let i = choose|i: int| 0 <= i < prev.len() && prev[i] == w;
                assert(cur[i] == w);
            } else {
                assert(redactable(segs, upto - 1));
                assert(cur.last() == w);
            }
        }
    }
}

/// There are at most `upto` candidates among the first `upto` words.
pub proof fn lemma_candidate_words_len(segs: Seq<SegView>, upto: int)
    ensures
        candidate_words(segs, upto).len() <= (if upto < 0 {
            0int
        } else {
            upto
        }),
    decreases upto,
{
    if upto > 0 {
        lemma_candidate_words_len(segs, upto - 1);
    }
}

/// The number of words redacted at a given rate: the floor of the
/// candidate count scaled by the rate, but at least one.
pub open spec fn spec_redact_count(candidates: int, rate: u32) -> int {
    let scaled = candidates * rate / (UNIT_ONE as int);
    if scaled < 1 {
        1
    } else {
        scaled
    }
}

/// A word's text once redacted: the core is replaced by the token
/// repeated once per core character, the affixes stay.
pub open spec fn redacted_text(t: Seq<char>, tok: Seq<char>) -> Seq<char> {
    t.take(core_start(t)) + repeat_seq(tok, core_end(t) - core_start(t)) + t.skip(core_end(t))
}

/// A sound redaction batch: strictly increasing word indices, each a
/// redaction candidate, each rewritten to its redacted text.
pub open spec fn redact_batch_ok(segs: Seq<SegView>, rs: Seq<(usize, Seq<char>)>, tok: Seq<char>) -> bool {
    &&& (forall|k: int|
        0 <= k < rs.len() ==> 0 <= (#[trigger] rs[k]).0 < word_indices(segs).len() && redactable(
            segs,
            (rs[k]).0 as int,
        ))
    &&& (forall|k1: int, k2: int| 0 <= k1 < k2 < rs.len() ==> (rs[k1]).0 < (rs[k2]).0)
    &&& (forall|k: int|
        0 <= k < rs.len() ==> (#[trigger] rs[k]).1 == redacted_text(
            segs[word_indices(segs)[(rs[k]).0 as int]].text,
            tok,
        ))
}

/// Repeating a token `n` times takes `n` times its bytes.
pub proof fn lemma_repeat_bytes(tok: Seq<char>, n: int)
    ensures
        byte_len(repeat_seq(tok, n)) == (if n <= 0 {
            0
        } else {
            n * byte_len(tok)
        }),
    decreases n,
{
    reveal(crate::text_buffer::byte_len);
    if n <= 0 {
        assert(repeat_seq(tok, n) =~= Seq::<char>::empty());
        assert(byte_len(repeat_seq(tok, n)) == 0);
    } else {
        lemma_repeat_bytes(tok, n - 1);
        crate::text_buffer::lemma_encode_concat(repeat_seq(tok, n - 1), tok);
        assert(byte_len(repeat_seq(tok, n)) == byte_len(repeat_seq(tok, n - 1)) + byte_len(tok));
        if n == 1 {
            assert(byte_len(repeat_seq(tok, n)) == byte_len(tok));
            assert(1 * byte_len(tok) == byte_len(tok)) by (nonlinear_arith);
        } else {
            assert((n - 1) * byte_len(tok) + byte_len(tok) == n * byte_len(tok))
                by (nonlinear_arith);
        }
    }
}

/// Bytes of a redacted word, bounded by the word's own size scaled by
/// one more than the token's size.
pub proof fn lemma_redacted_text_bytes(t: Seq<char>, tok: Seq<char>)
    requires
        0 <= core_start(t) <= core_end(t) <= t.len(),
    ensures
        byte_len(redacted_text(t, tok)) <= byte_len(t) * (1 + byte_len(tok)),
{
    reveal(crate::text_buffer::byte_len);
    crate::affix::lemma_byte_len_parts(t, core_start(t), core_end(t));
    crate::text_buffer::lemma_encode_concat(
        t.take(core_start(t)),
        repeat_seq(tok, core_end(t) - core_start(t)),
    );
    crate::text_buffer::lemma_encode_concat(
        t.take(core_start(t)) + repeat_seq(tok, core_end(t) - core_start(t)),
        t.skip(core_end(t)),
    );
    lemma_repeat_bytes(tok, core_end(t) - core_start(t));
    crate::text_buffer::lemma_byte_len_nonneg(tok);
    crate::text_buffer::lemma_byte_len_nonneg(t);
    let n = core_end(t) - core_start(t);
    assert(n <= t.len());
    crate::text_buffer::lemma_byte_len_ge_char_len(t);
    assert(n <= byte_len(t));
    let wb = byte_len(t);
    let tb = byte_len(tok);
    assert(byte_len(redacted_text(t, tok)) == byte_len(t.take(core_start(t))) + byte_len(
        repeat_seq(tok, n),
    ) + byte_len(t.skip(core_end(t))));
    assert(byte_len(t.take(core_start(t))) + byte_len(t.skip(core_end(t))) <= wb);
    if n > 0 {
        assert(byte_len(repeat_seq(tok, n)) == n * tb);
        assert(n * tb <= wb * tb) by (nonlinear_arith)
            requires
                0 <= n <= wb,
                0 <= tb,
        ;
    } else {
        assert(byte_len(repeat_seq(tok, n)) == 0);
        assert(0 <= wb * tb) by (nonlinear_arith)
            requires
                0 <= wb,
                0 <= tb,
        ;
    }
    assert(wb + wb * tb == wb * (1 + tb)) by (nonlinear_arith);
}

/// How many entries of `v` lie in `allowed`, occurrences counted.
pub open spec fn count_in(v: Seq<usize>, allowed: Seq<int>) -> int
    decreases v.len(),
{
    if v.len() == 0 {
        0
    } else {
        count_in(v.drop_last(), allowed) + if allowed.contains(v.last() as int) {
            1int
        } else {
            0int
        }
    }
}

/// Extending the allowed set by one fresh value raises the count by
/// one exactly when the distinct sample holds that value.
proof fn lemma_count_in_extend(v: Seq<usize>, allowed: Seq<int>, x: int)
    requires
        0 <= x <= usize::MAX,
        !allowed.contains(x),
        forall|i: int, j: int| 0 <= i < j < v.len() ==> v[i] != v[j],
    ensures
        count_in(v, allowed.push(x)) == count_in(v, allowed) + if v.contains((x as usize)) {
            1int
        } else {
            0int
        },
    decreases v.len(),
{
    if v.len() > 0 {
        assert(forall|i: int, j: int|
            0 <= i < j < v.drop_last().len() ==> v.drop_last()[i] != v.drop_last()[j]);
        lemma_count_in_extend(v.drop_last(), allowed, x);
        let grown = allowed.push(x);
        assert(grown.contains(v.last() as int) == (allowed.contains(v.last() as int) || v.last() as int == x)) by {
            if grown.contains(v.last() as int) {
                let i = choose|i: int| 0 <= i < grown.len() && grown[i] == v.last() as int;
                if i < allowed.len() {
                    assert(allowed[i] == v.last() as int);
                }
            }
            if allowed.contains(v.last() as int) {
                let i = choose|i: int| 0 <= i < allowed.len() && allowed[i] == v.last() as int;
                assert(grown[i] == v.last() as int);
            }
            if v.last() as int == x {
                assert(grown[grown.len() - 1] == x);
            }
        }
        assert((x as usize) as int == x);
        if v.last() as int == x {
            assert(v.last() == (x as usize));
            assert(v.contains((x as usize))) by {
                assert(v[v.len() - 1] == (x as usize));
            }
            assert(!v.drop_last().contains((x as usize))) by {
                if v.drop_last().contains((x as usize)) {
                    let i = choose|i: int|
                        0 <= i < v.drop_last().len() && v.drop_last()[i] == (x as usize);
                    assert(v[i] == v[v.len() - 1]);
                }
            }
        } else {
            assert(v.last() != (x as usize));
            assert(v.contains((x as usize)) == v.drop_last().contains((x as usize))) by {
                if v.contains((x as usize)) {
                    let i = choose|i: int| 0 <= i < v.len() && v[i] == (x as usize);
                    assert(v[v.len() - 1] != (x as usize));
                    assert(i < v.len() - 1);
                    assert(v.drop_last()[i] == (x as usize));
                }
                if v.drop_last().contains((x as usize)) {
                    let i = choose|i: int|
                        0 <= i < v.drop_last().len() && v.drop_last()[i] == (x as usize);
                    assert(v[i] == (x as usize));
                }
            }
        }
    }
}

/// When every sampled value is allowed, the count is the sample size.
proof fn lemma_count_in_all(v: Seq<usize>, allowed: Seq<int>)
    requires
        forall|j: int| 0 <= j < v.len() ==> allowed.contains((#[trigger] v[j]) as int),
    ensures
        count_in(v, allowed) == v.len(),
    decreases v.len(),
{
    if v.len() > 0 {
        assert(forall|j: int|
            0 <= j < v.drop_last().len() ==> allowed.contains((#[trigger] v.drop_last()[j]) as int))
            by {
            assert(forall|j: int|
                0 <= j < v.drop_last().len() ==> v.drop_last()[j] == v[j]);
        }
        lemma_count_in_all(v.drop_last(), allowed);
        assert(allowed.contains(v.last() as int)) by {
            assert(v[v.len() - 1] == v.last());
        }
    }
}

/// A full redaction batch reaches every candidate: when as many
/// distinct candidates are redacted as exist, no candidate is left
/// out. This is the saturation law for redaction at a full rate.
pub proof fn lemma_redact_batch_full(segs: Seq<SegView>, rs: Seq<(usize, Seq<char>)>, tok: Seq<char>, wc: int)
    requires
        redact_batch_ok(segs, rs, tok),
        wc == word_indices(segs).len(),
        rs.len() == candidate_words(segs, wc).len(),
    ensures
        forall|w: int|
            0 <= w < wc && redactable(segs, w) ==> exists|j: int|
                0 <= j < rs.len() && (#[trigger] rs[j]).0 == w,
{
    let cands = candidate_words(segs, wc);
    lemma_candidate_words_props(segs, wc);
    let vals = Seq::new(rs.len(), |k: int| (rs[k]).0 as int);
    assert(forall|i: int, j: int| 0 <= i < j < vals.len() ==> vals[i] != vals[j]);
    vals.unique_seq_to_set();
    cands.unique_seq_to_set();
    assert forall|k: int| 0 <= k < vals.len() implies cands.to_set().contains(#[trigger] vals[k]) by {
        assert(redactable(segs, (rs[k]).0 as int));
        assert(cands.contains((rs[k]).0 as int));
    }
    assert(vals.to_set().subset_of(cands.to_set()));
    vstd::set_lib::lemma_subset_equality(vals.to_set(), cands.to_set());
    assert forall|w: int|
        0 <= w < wc && redactable(segs, w) implies exists|j: int|
        0 <= j < rs.len() && (#[trigger] rs[j]).0 == w by {
        assert(cands.contains(w));
        assert(cands.to_set().contains(w));
        assert(vals.to_set().contains(w));
        assert(vals.contains(w));
        let j = choose|j: int| 0 <= j < vals.len() && vals[j] == w;
        assert((rs[j]).0 == w);
    }
}

/// Linear membership scan.
fn contains_value(v: &Vec<usize>, x: usize) -> (r: bool)
    ensures
        r == v@.contains(x),
{
    let mut i: usize = 0;
    let n: usize = v.len();
    while i < n
        invariant
            n == v@.len(),
            i <= n,
            forall|j: int| 0 <= j < i ==> v@[j] != x,
        decreases n - i,
    {
        if v[i] == x {
            return true;
        }
        i = i + 1;
    }
    false
}

/// Builds the redacted form of one word: affixes kept, core replaced
/// by the token repeated once per core character.
fn build_redacted(text: &str, token: &str) -> (r: Option<String>)
    ensures
        r is Some <==> has_alnum(text@),
        r matches Some(out) ==> out@ == redacted_text(text@, token@) && byte_len(out@) <= byte_len(
            text@,
        ) * (1 + byte_len(token@)),
{
    let n: usize = text.unicode_len();
    match affix_bounds(text) {
        Some((start, end)) => {
            proof {
                lemma_core_bounds(text@);
            }
            let mut out: String = text.substring_char(0, start).to_owned();
            proof {
                assert(out@ =~= text@.take(core_start(text@)));
                assert(out@ + repeat_seq(token@, 0) =~= out@);
            }
            let core_len: usize = end - start;
            let mut i: usize = 0;
            while i < core_len
                invariant
                    i <= core_len,
                    out@ == text@.take(core_start(text@)) + repeat_seq(token@, i as int),
                decreases core_len - i,
            {
                out.append(token);
                proof {
                    assert(out@ =~= text@.take(core_start(text@)) + repeat_seq(
                        token@,
                        i as int + 1,
                    ));
                }
                i = i + 1;
            }
            let suffix: &str = text.substring_char(end, n);
            out.append(suffix);
            proof {
                assert(suffix@ =~= text@.skip(core_end(text@)));
                assert(out@ =~= redacted_text(text@, token@));
                lemma_redacted_text_bytes(text@, token@);
            }
            Some(out)
        },
        None => None,
    }
}

/// Redaction's outcome: the two failure conditions are exact, a
/// failure leaves the buffer untouched, and success applies a sound
/// redaction batch of exactly the computed size, then merges if asked.
pub open spec fn redact_outcome(
    token: Seq<char>,
    rate: u32,
    merge: bool,
    before: TextBuffer,
    after: TextBuffer,
    r: Result<(), GlitchOpError>,
) -> bool {
    let osegs = before.segs();
    let cands = candidate_words(osegs, before.spec_word_count());
    let k = spec_redact_count(cands.len() as int, rate);
    &&& (r == Result::<(), GlitchOpError>::Err(GlitchOpError::NoRedactableWords) <==> cands.len()
        == 0)
    &&& (cands.len() > 0 && k > cands.len() ==> r == Result::<(), GlitchOpError>::Err(
        GlitchOpError::ExcessiveRedaction {
            requested: k as usize,
            available: cands.len() as usize,
        },
    ))
    &&& (r is Err ==> after == before)
    &&& (r is Ok <==> cands.len() > 0 && k <= cands.len())
    &&& (r is Ok ==> after.wf() && exists|rs: Seq<(usize, Seq<char>)>|
        redact_batch_ok(osegs, rs, token) && rs.len() == k && after.segs() == (if merge {
            merged_segs(apply_word_updates(osegs, word_indices(osegs), rs), token)
        } else {
            apply_word_updates(osegs, word_indices(osegs), rs)
        }))
}

/// Redacts words by replacing their core characters with a replacement
/// token, using exact-size weighted sampling over the candidates.
#[derive(Debug, Clone)]
pub struct RedactWordsOp {
    /// The token that replaces each core character.
    pub replacement_char: String,
    /// Fraction of the candidates to redact, scaled by [`UNIT_ONE`];
    /// at least one word is always redacted, and a rate above one full
    /// unit asks for more words than exist and fails.
    pub rate: u32,
    /// Whether to merge adjacent redacted words afterwards.
    pub merge_adjacent: bool,
    /// Flatten all weights to one instead of direct-length weighting.
    pub unweighted: bool,
}

impl RedactWordsOp {
    /// Redacts `max(1, floor(candidates * rate))` words chosen by
    /// weighted sampling without replacement. Fails with
    /// `NoRedactableWords` exactly when no word has a core, and with
    /// `ExcessiveRedaction` exactly when the computed count exceeds the
    /// candidate count. On success the result is the old segments with
    /// a sound redaction batch of exactly that size applied, then
    /// optionally merged.
    #[verifier::rlimit(100)]
    pub fn apply(&self, buffer: &mut TextBuffer, rng: &mut DeterministicRng) -> (r: Result<
        (),
        GlitchOpError,
    >)
        requires
            old(buffer).wf(),
            old(buffer).spec_bytes() * (2 + byte_len(self.replacement_char@)) <= usize::MAX,
            old(buffer).segs().len() * (WEIGHT_SCALE as int) <= u64::MAX,
            old(buffer).segs().len() * 0x1000 <= usize::MAX,
        ensures
            redact_outcome(
                self.replacement_char@,
                self.rate,
                self.merge_adjacent,
                *old(buffer),
                *final(buffer),
                r,
            ),
    {
        let ghost osegs = old(buffer).segs();
        let ghost owi = word_indices(osegs);
        let ghost tok = self.replacement_char@;
        proof {
            lemma_word_indices_props(osegs);
            lemma_candidate_words_props(osegs, owi.len() as int);
        }
        let word_count: usize = buffer.word_count();
        // Candidate collection: word index and sampling weight.
        let mut items: Vec<(usize, u64)> = Vec::new();
        let mut w: usize = 0;
        while w < word_count
            invariant
                *buffer == *old(buffer),
                buffer.wf(),
                osegs == buffer.segs(),
                owi == word_indices(osegs),
                word_count == owi.len(),
                w <= word_count,
                items@.len() == candidate_words(osegs, w as int).len(),
                forall|i: int|
                    0 <= i < items@.len() ==> (#[trigger] items@[i]).0 as int == candidate_words(
                        osegs,
                        w as int,
                    )[i],
                forall|i: int|
                    0 <= i < items@.len() ==> 1 <= (#[trigger] items@[i]).1 <= WEIGHT_SCALE,
            decreases word_count - w,
        {
            let ghost cands_before = candidate_words(osegs, w as int);
            let eligible: bool;
            let mut weight: u64 = 1;
            match buffer.word_segment(w) {
                Some(seg) => {
                    match affix_bounds(seg.text()) {
                        Some((cs, ce)) => {
                            eligible = true;
                            if !self.unweighted {
                                let core_chars: usize = ce - cs;
                                weight = if core_chars as u64 > WEIGHT_SCALE {
                                    WEIGHT_SCALE
                                } else if core_chars == 0 {
                                    1
                                } else {
                                    core_chars as u64
                                };
                            }
                        },
                        None => {
                            eligible = false;
                        },
                    }
                },
                None => {
                    proof {
                        assert(false);
                    }
                    eligible = false;
                },
            }
            proof {
                assert(eligible == redactable(osegs, w as int));
                assert(candidate_words(osegs, w as int + 1) == (if redactable(osegs, w as int) {
                    cands_before.push(w as int)
                } else {
                    cands_before
                }));
            }
            if eligible {
                items.push((w, weight));
            }
            w = w + 1;
        }
        let candidate_count: usize = items.len();
        let ghost cands = candidate_words(osegs, owi.len() as int);
        if candidate_count == 0 {
            return Err(GlitchOpError::NoRedactableWords);
        }
        // The number of words to redact.
        let cand_wide: u128 = candidate_count as u128;
        let rate_wide: u128 = self.rate as u128;
        proof {
            assert(cand_wide <= 0xFFFF_FFFF_FFFF_FFFFu128);
            assert(rate_wide <= 0xFFFF_FFFFu128);
            assert(cand_wide * rate_wide <= 0xFFFF_FFFF_FFFF_FFFFu128 * 0xFFFF_FFFFu128)
                by (nonlinear_arith)
                requires
                    0 <= cand_wide <= 0xFFFF_FFFF_FFFF_FFFFu128,
                    0 <= rate_wide <= 0xFFFF_FFFFu128,
            ;
        }
        let scaled: u128 = cand_wide * rate_wide / (UNIT_ONE as u128);
        let num_to_redact: usize = if scaled < 1 {
            1
        } else {
            proof {
                lemma_candidate_words_len(osegs, owi.len() as int);
                crate::text_buffer::lemma_word_indices_len(osegs);
                assert(candidate_count as int <= osegs.len());
                assert((candidate_count as int) * (self.rate as int) / (UNIT_ONE as int)
                    <= (candidate_count as int) * 0x1000) by (nonlinear_arith)
                    requires
                        candidate_count as int >= 0,
                        self.rate as int <= 0x1000 * (UNIT_ONE as int),
                        UNIT_ONE > 0,
                ;
                assert((candidate_count as int) * 0x1000 <= osegs.len() * 0x1000)
                    by (nonlinear_arith)
                    requires
                        0 <= candidate_count as int <= osegs.len(),
                ;
            }
            scaled as usize
        };
        proof {
            assert(num_to_redact as int == spec_redact_count(cands.len() as int, self.rate));
        }
        if num_to_redact > candidate_count {
            return Err(GlitchOpError::ExcessiveRedaction {
                requested: num_to_redact,
                available: candidate_count,
            });
        }
        proof {
            lemma_candidate_words_len(osegs, owi.len() as int);
            crate::text_buffer::lemma_word_indices_len(osegs);
            assert(osegs.len() * (WEIGHT_SCALE as int) <= u64::MAX);
            assert(items@.len() * (WEIGHT_SCALE as int) <= osegs.len() * (WEIGHT_SCALE as int))
                by (nonlinear_arith)
                requires
                    0 <= items@.len() <= osegs.len(),
                    WEIGHT_SCALE > 0,
            ;
        }
        let selected: Vec<usize> = match weighted_sample_without_replacement(
            rng,
            &items,
            num_to_redact,
        ) {
            Ok(v) => v,
            Err(_) => {
                proof {
                    assert(false);
                }
                Vec::new()
            },
        };
        proof {
            // Selected values are distinct candidates.
            let positions = choose|positions: Seq<int>|
                {
                    &&& positions.len() == num_to_redact
                    &&& (forall|i: int| 0 <= i < positions.len() ==> 0 <= #[trigger] positions[i]
                        < items@.len())
                    &&& (forall|i: int, j: int|
                        0 <= i < j < positions.len() ==> positions[i] != positions[j])
                    &&& (forall|i: int|
                        0 <= i < positions.len() ==> #[trigger] selected@[i] == items@[positions[i]].0)
                };
            assert forall|i: int, j: int|
                0 <= i < j < selected@.len() implies selected@[i] != selected@[j] by {
                assert(selected@[i] == items@[positions[i]].0);
                assert(selected@[j] == items@[positions[j]].0);
                assert(cands[positions[i]] != cands[positions[j]]);
            }
            assert forall|j: int| 0 <= j < selected@.len() implies cands.contains(
                (#[trigger] selected@[j]) as int,
            ) by {
                assert(selected@[j] == items@[positions[j]].0);
                assert(items@[positions[j]].0 as int == cands[positions[j]]);
            }
        }
        // Build replacements in ascending word order.
        let mut replacements: Vec<(usize, String)> = Vec::new();
        let ghost mut rs: Seq<(usize, Seq<char>)> = Seq::empty();
        let ghost mut frontier: int = 0;
        let ghost factor = 1 + byte_len(tok);
        let mut c: usize = 0;
        proof {
            assert(rs =~= replacements@.map_values(|x: (usize, String)| (x.0, x.1@)));
            assert(cands.take(0) =~= Seq::<int>::empty());
            assert(count_in(selected@, Seq::<int>::empty()) == 0) by {
                lemma_count_in_all(Seq::<usize>::empty(), Seq::<int>::empty());
                assert(count_in(selected@, Seq::<int>::empty()) >= 0) by {
                    lemma_count_in_nonneg(selected@, Seq::<int>::empty());
                }
                lemma_count_in_empty(selected@);
            }
            crate::text_buffer::lemma_byte_len_nonneg(tok);
        }
        while c < candidate_count
            invariant
                *buffer == *old(buffer),
                buffer.wf(),
                osegs == buffer.segs(),
                owi == word_indices(osegs),
                word_count == owi.len(),
                cands == candidate_words(osegs, owi.len() as int),
                candidate_count == cands.len(),
                items@.len() == candidate_count,
                c <= candidate_count,
                factor == 1 + byte_len(tok),
                factor >= 1,
                tok == self.replacement_char@,
                forall|i: int|
                    0 <= i < items@.len() ==> (#[trigger] items@[i]).0 as int == cands[i],
                forall|i: int, j: int|
                    0 <= i < j < selected@.len() ==> selected@[i] != selected@[j],
                forall|j: int|
                    0 <= j < selected@.len() ==> cands.contains((#[trigger] selected@[j]) as int),
                forall|i: int|
                    0 <= i < cands.len() ==> 0 <= #[trigger] cands[i] < owi.len() && redactable(
                        osegs,
                        cands[i],
                    ),
                forall|i: int, j: int| 0 <= i < j < cands.len() ==> cands[i] < cands[j],
                forall|j: int| 0 <= j < owi.len() ==> 0 <= #[trigger] owi[j] < osegs.len(),
                forall|j1: int, j2: int| 0 <= j1 < j2 < owi.len() ==> owi[j1] < owi[j2],
                rs == replacements@.map_values(|x: (usize, String)| (x.0, x.1@)),
                rs.len() == count_in(selected@, cands.take(c as int)),
                forall|k: int|
                    0 <= k < rs.len() ==> 0 <= (#[trigger] rs[k]).0 < owi.len() && redactable(
                        osegs,
                        (rs[k]).0 as int,
                    ),
                forall|k1: int, k2: int| 0 <= k1 < k2 < rs.len() ==> (rs[k1]).0 < (rs[k2]).0,
                forall|k: int|
                    0 <= k < rs.len() ==> (#[trigger] rs[k]).1 == redacted_text(
                        osegs[owi[(rs[k]).0 as int]].text,
                        tok,
                    ),
                forall|k: int| 0 <= k < rs.len() ==> c > 0 && (#[trigger] rs[k]).0 as int <= cands[c as int - 1],
                0 <= frontier <= osegs.len(),
                c < candidate_count ==> frontier <= owi[cands[c as int]],
                repl_bytes(rs) <= factor * bytes_before(osegs, frontier),
            decreases candidate_count - c,
        {
            let ghost rs_before = rs;
            let word_index: usize = items[c].0;
            proof {
                assert(word_index as int == cands[c as int]);
                assert(cands.take(c as int + 1).drop_last() =~= cands.take(c as int));
                assert(cands.take(c as int + 1).last() == cands[c as int]);
                assert(!cands.take(c as int).contains(cands[c as int])) by {
                    if cands.take(c as int).contains(cands[c as int]) {
                        let i = choose|i: int|
                            0 <= i < c && cands.take(c as int)[i] == cands[c as int];
                        assert(cands[i] == cands[c as int]);
                    }
                }
                lemma_count_in_extend(selected@, cands.take(c as int), cands[c as int]);
                assert(cands.take(c as int + 1) =~= cands.take(c as int).push(cands[c as int]));
                assert((cands[c as int] as usize) == word_index);
            }
            if contains_value(&selected, word_index) {
                let text: String = match buffer.word_segment(word_index) {
                    Some(seg) => seg.text().to_owned(),
                    None => {
                        proof {
                            assert(false);
                        }
                        String::new()
                    },
                };
                proof {
                    assert(text@ == osegs[owi[word_index as int]].text);
                }
                let redacted: String = match build_redacted(text.as_str(), self.replacement_char.as_str()) {
                    Some(s) => s,
                    None => {
                        proof {
                            assert(false);
                        }
                        String::new()
                    },
                };
                let ghost rv = redacted@;
                let ghost s1 = owi[word_index as int];
                replacements.push((word_index, redacted));
                proof {
                    rs = rs_before.push((word_index, rv));
                    assert(replacements@.map_values(|x: (usize, String)| (x.0, x.1@)) =~= rs);
                    assert(forall|k: int|
                        0 <= k < rs_before.len() ==> #[trigger] rs[k] == rs_before[k]);
                    assert(rs[rs.len() - 1] == (word_index, rv));
                    lemma_repl_bytes_push(rs_before, (word_index, rv));
                    lemma_bytes_before_mono(osegs, frontier, s1);
                    assert(bytes_before(osegs, s1 + 1) == bytes_before(osegs, s1) + byte_len(
                        osegs[s1].text,
                    ));
                    assert(byte_len(rv) <= byte_len(osegs[s1].text) * factor);
                    assert(factor * bytes_before(osegs, frontier) + byte_len(osegs[s1].text)
                        * factor <= factor * bytes_before(osegs, s1 + 1)) by (nonlinear_arith)
                        requires
                            factor >= 1,
                            bytes_before(osegs, frontier) <= bytes_before(osegs, s1),
                            bytes_before(osegs, s1 + 1) == bytes_before(osegs, s1) + byte_len(
                                osegs[s1].text,
                            ),
                    ;
                    frontier = s1 + 1;
                }
            }
            proof {
                if c + 1 < candidate_count {
                    assert(cands[c as int] < cands[c as int + 1]);
                    assert(owi[cands[c as int]] < owi[cands[c as int + 1]]);
                    assert(frontier <= owi[cands[c as int + 1]]);
                }
            }
            c = c + 1;
        }
        proof {
            assert(cands.take(candidate_count as int) =~= cands);
            lemma_count_in_all(selected@, cands);
            assert(rs.len() == selected@.len());
            assert(rs.len() == num_to_redact);
            lemma_bytes_before_mono(osegs, frontier, osegs.len() as int);
            assert(factor * bytes_before(osegs, frontier) <= factor * bytes_before(
                osegs,
                osegs.len() as int,
            )) by (nonlinear_arith)
                requires
                    factor >= 0,
                    bytes_before(osegs, frontier) <= bytes_before(osegs, osegs.len() as int),
            ;
            lemma_apply_word_updates_bytes(osegs, owi, rs);
            lemma_apply_word_updates_pointwise(osegs, owi, rs);
            let ghost ob = old(buffer).spec_bytes();
            let ghost tb = byte_len(tok);
            lemma_bytes_before_mono(osegs, 0, osegs.len() as int);
            assert(ob >= 0);
            crate::text_buffer::lemma_byte_len_nonneg(tok);
            assert(repl_bytes(rs) <= factor * bytes_before(osegs, osegs.len() as int));
            assert(bytes_before(apply_word_updates(osegs, owi, rs), osegs.len() as int) <= ob
                + factor * ob);
            assert(ob + factor * ob <= ob * (2 + tb)) by (nonlinear_arith)
                requires
                    factor == 1 + tb,
                    ob >= 0,
                    tb >= 0,
            ;
            assert forall|k: int| 0 <= k < replacements@.len() implies (
            #[trigger] replacements@[k]).0 < old(buffer).spec_word_count() by {
                assert(rs[k].0 == replacements@[k].0);
            }
        }
        let bulk = buffer.replace_words_bulk(replacements);
        proof {
            assert(bulk is Ok);
            assert(buffer.segs() == apply_word_updates(osegs, owi, rs));
            assert(redact_batch_ok(osegs, rs, tok));
        }
        if self.merge_adjacent {
            let ghost pre_merge = buffer.segs();
            proof {
                lemma_merged_segs_bytes(buffer.segs(), tok);
                assert(pre_merge == apply_word_updates(osegs, owi, rs));
            }
            buffer.merge_repeated_char_words(self.replacement_char.as_str());
            proof {
                if tok.len() == 0 {
                    assert(tok =~= Seq::<char>::empty());
                    lemma_merged_segs_empty_tok(apply_word_updates(osegs, owi, rs));
                    assert(buffer.segs() == pre_merge);
                } else {
                    assert(buffer.segs() == merged_segs(pre_merge, tok));
                }
                assert(buffer.segs() == merged_segs(apply_word_updates(osegs, owi, rs), tok));
            }
        }
        proof {
            let cands_post = candidate_words(osegs, old(buffer).spec_word_count());
            assert(cands_post == cands);
            assert(redact_batch_ok(osegs, rs, tok));
            assert(rs.len() == spec_redact_count(cands.len() as int, self.rate));
            assert(buffer.wf());
        }
        Ok(())
    }
}

/// With an empty token nothing is a token run, so merging changes
/// nothing.
proof fn lemma_merged_segs_empty_tok(segs: Seq<SegView>)
    ensures
        merged_segs(segs, Seq::<char>::empty()) == segs,
    decreases segs.len(),
{
    if segs.len() > 0 {
        lemma_merged_segs_empty_tok(segs.drop_first());
        assert(merged_segs(segs, Seq::<char>::empty()) =~= seq![segs[0]] + segs.drop_first());
        assert(seq![segs[0]] + segs.drop_first() =~= segs);
    }
}

/// Whether word `w` of `segs` is a deletion candidate: every word but
/// the first with some non-whitespace content.
pub open spec fn delete_eligible(segs: Seq<SegView>, w: int) -> bool {
    let t = segs[word_indices(segs)[w]].text;
    w >= 1 && t.len() > 0 && !crate::text_buffer::is_space_seq(t)
}

/// The word indices of the deletion candidates among the first `upto`
/// words, in increasing order.
pub open spec fn delete_candidates(segs: Seq<SegView>, upto: int) -> Seq<int>
    decreases upto,
{
    if upto <= 0 {
        Seq::empty()
    } else if delete_eligible(segs, upto - 1) {
        delete_candidates(segs, upto - 1).push(upto - 1)
    } else {
        delete_candidates(segs, upto - 1)
    }
}

/// `delete_candidates` lists exactly the eligible word indices, in
/// strictly increasing order, and there are at most `upto` of them.
pub proof fn lemma_delete_candidates_props(segs: Seq<SegView>, upto: int)
    ensures
        forall|i: int|
            0 <= i < delete_candidates(segs, upto).len() ==> 0 <= #[trigger] delete_candidates(
                segs,
                upto,
            )[i] < upto && delete_eligible(segs, delete_candidates(segs, upto)[i]),
        forall|i: int, j: int|
            0 <= i < j < delete_candidates(segs, upto).len() ==> delete_candidates(segs, upto)[i]
                < delete_candidates(segs, upto)[j],
        forall|w: int|
            0 <= w < upto && delete_eligible(segs, w) ==> delete_candidates(segs, upto).contains(
                w,
            ),
        delete_candidates(segs, upto).len() <= (if upto < 0 {
            0int
        } else {
            upto
        }),
    decreases upto,
{
    if upto > 0 {
        lemma_delete_candidates_props(segs, upto - 1);
        let prev = delete_candidates(segs, upto - 1);
        let cur = delete_candidates(segs, upto);
        assert forall|w: int| 0 <= w < upto && delete_eligible(segs, w) implies cur.contains(
            w,
        ) by {
            if w < upto - 1 {
                assert(prev.contains(w));
                let i = choose|i: int| 0 <= i < prev.len() && prev[i] == w;
                assert(cur[i] == w);
            } else {
                assert(delete_eligible(segs, upto - 1));
                assert(cur.last() == w);
            }
        }
    }
}

/// What a deleted word leaves behind: its punctuation affixes, each
/// shorn of whitespace.
pub open spec fn delete_residue(t: Seq<char>) -> Seq<char> {
    if has_alnum(t) {
        crate::affix::trimmed(t.take(core_start(t))) + crate::affix::trimmed(t.skip(core_end(t)))
    } else {
        crate::affix::trimmed(t)
    }
}

/// Whether a separator re-arms the pending-space flag: it does when it
/// holds any non-whitespace character or a newline.
pub open spec fn sep_triggers(t: Seq<char>) -> bool {
    (t.len() > 0 && !crate::text_buffer::is_space_seq(t)) || (exists|j: int|
        0 <= j < t.len() && t[j] == '\n')
}

/// The text after deletion: walking the segments in order, a surviving
/// word (or a deleted word's non-empty residue) is emitted with a
/// single leading space when one is pending, it is not the first
/// emission, and it does not start with glued punctuation. `i` is the
/// next segment, `w` the next word index, `sep` whether a space is
/// pending, `started` whether anything was emitted yet.
pub open spec fn delete_rebuild_from(
    segs: Seq<SegView>,
    del: Seq<bool>,
    i: int,
    w: int,
    sep: bool,
    started: bool,
) -> Seq<char>
    decreases segs.len() - i,
{
    if i < 0 || i >= segs.len() {
        Seq::empty()
    } else if segs[i].kind is Word {
        let deleted = 0 <= w < del.len() && del[w];
        let piece = if deleted {
            delete_residue(segs[i].text)
        } else {
            segs[i].text
        };
        if piece.len() == 0 {
            delete_rebuild_from(segs, del, i + 1, w + 1, sep, started)
        } else {
            let lead: Seq<char> = if sep && started && !crate::text_buffer::starts_glued(piece) {
                seq![' ']
            } else {
                Seq::empty()
            };
            lead + piece + delete_rebuild_from(segs, del, i + 1, w + 1, true, true)
        }
    } else {
        delete_rebuild_from(segs, del, i + 1, w, sep || sep_triggers(segs[i].text), started)
    }
}

/// How many flags of `del` are set.
pub open spec fn count_true(del: Seq<bool>) -> int
    decreases del.len(),
{
    if del.len() == 0 {
        0
    } else {
        count_true(del.drop_last()) + if del.last() {
            1int
        } else {
            0int
        }
    }
}

/// Setting a clear flag raises the count by one.
proof fn lemma_count_true_set(del: Seq<bool>, x: int)
    requires
        0 <= x < del.len(),
        !del[x],
    ensures
        count_true(del.update(x, true)) == count_true(del) + 1,
    decreases del.len(),
{
    if x == del.len() - 1 {
        assert(del.update(x, true).drop_last() =~= del.drop_last());
    } else {
        lemma_count_true_set(del.drop_last(), x);
        assert(del.update(x, true).drop_last() =~= del.drop_last().update(x, true));
        assert(del.update(x, true).last() == del.last());
    }
}

/// An all-clear flag vector counts zero.
proof fn lemma_count_true_clear(del: Seq<bool>)
    requires
        forall|x: int| 0 <= x < del.len() ==> !del[x],
    ensures
        count_true(del) == 0,
    decreases del.len(),
{
    if del.len() > 0 {
        lemma_count_true_clear(del.drop_last());
    }
}

/// The deletions a given rate allows: the candidate count scaled by
/// the clamped rate, rounded down.
pub open spec fn spec_delete_allowed(candidates: int, rate: u32) -> int {
    let clamped: int = if rate > UNIT_ONE {
        UNIT_ONE as int
    } else {
        rate as int
    };
    candidates * clamped / (UNIT_ONE as int)
}

/// Deletion's outcome: when fewer than two words exist, no candidate
/// exists, or the allowed count is zero, the buffer is untouched;
/// otherwise some flag assignment over the words — set only on
/// candidates, at most the allowed count of them, and on every
/// candidate at a full rate — yields the new text by the rebuild walk.
pub open spec fn delete_applied(rate: u32, before: TextBuffer, after: TextBuffer) -> bool {
    let wc = before.spec_word_count();
    let cands = delete_candidates(before.segs(), wc);
    let allowed = spec_delete_allowed(cands.len() as int, rate);
    if wc <= 1 || cands.len() == 0 || allowed == 0 {
        after == before
    } else {
        exists|del: Seq<bool>|
            {
                &&& del.len() == wc
                &&& (forall|w: int|
                    0 <= w < del.len() && del[w] ==> delete_eligible(before.segs(), w))
                &&& count_true(del) <= allowed
                &&& after.text() == delete_rebuild_from(before.segs(), del, 0, 0, false, false)
                &&& (rate >= UNIT_ONE ==> forall|w: int|
                    0 <= w < del.len() && delete_eligible(before.segs(), w) ==> del[w])
            }
    }
}

/// Deletes randomly chosen words, then rebuilds the text with single
/// spaces between the survivors and no space before glued punctuation.
#[derive(Debug, Clone, Copy)]
pub struct DeleteRandomWordsOp {
    /// Fraction of the candidates allowed to be deleted, scaled by
    /// [`UNIT_ONE`]; values above one full unit are clamped.
    pub rate: u32,
    /// Flatten all weights to one instead of inverse-length weighting.
    pub unweighted: bool,
}

impl DeleteRandomWordsOp {
    /// For each deletable word (every word but the first with any
    /// non-whitespace content), one draw accepts it with probability
    /// proportional to the rate and its inverse-length weight, until
    /// `floor(candidates * rate)` deletions are reached; the buffer is
    /// then rebuilt without the deleted words, survivors joined by
    /// single spaces with no space before glued punctuation. At rate
    /// zero, or with at most one word, nothing is touched, generator
    /// included; at a full rate every candidate is deleted.
    #[verifier::rlimit(100)]
    pub fn apply(&self, buffer: &mut TextBuffer, rng: &mut DeterministicRng) -> (r: Result<
        (),
        GlitchOpError,
    >)
        requires
            old(buffer).wf(),
            old(buffer).spec_bytes() + old(buffer).segs().len() + 1 <= usize::MAX,
            old(buffer).segs().len() * (WEIGHT_SCALE as int) <= u64::MAX,
        ensures
            r is Ok,
            final(buffer).wf(),
            self.rate == 0 ==> *final(buffer) == *old(buffer) && *final(rng) == *old(rng),
            delete_applied(self.rate, *old(buffer), *final(buffer)),
    {
        let ghost osegs = old(buffer).segs();
        proof {
            lemma_word_indices_props(osegs);
            crate::text_buffer::lemma_word_indices_len(osegs);
        }
        let word_count: usize = buffer.word_count();
        if word_count <= 1 {
            return Ok(());
        }
        let clamped: u32 = if self.rate > UNIT_ONE {
            UNIT_ONE
        } else {
            self.rate
        };
        if clamped == 0 {
            proof {
                let cn = delete_candidates(osegs, word_count as int).len() as int;
                assert(cn * 0 == 0) by (nonlinear_arith);
                assert(spec_delete_allowed(cn, self.rate) == 0);
            }
            return Ok(());
        }
        // Candidates: every word but the first that has content.
        let mut candidates: Vec<(usize, u64)> = Vec::new();
        let mut w: usize = 1;
        proof {
            assert(delete_candidates(osegs, 0) =~= Seq::<int>::empty());
            assert(!delete_eligible(osegs, 0));
            assert(delete_candidates(osegs, 1) =~= Seq::<int>::empty());
        }
        while w < word_count
            invariant
                *buffer == *old(buffer),
                buffer.wf(),
                osegs == buffer.segs(),
                word_count == old(buffer).spec_word_count(),
                1 <= w <= word_count,
                candidates@.len() == delete_candidates(osegs, w as int).len(),
                forall|i: int|
                    0 <= i < candidates@.len() ==> (#[trigger] candidates@[i]).0 as int
                        == delete_candidates(osegs, w as int)[i],
                forall|i: int|
                    0 <= i < candidates@.len() ==> 1 <= (#[trigger] candidates@[i]).1
                        <= WEIGHT_SCALE,
                forall|i: int|
                    0 <= i < candidates@.len() ==> (#[trigger] candidates@[i]).0 < word_count,
            decreases word_count - w,
        {
            let ghost cands_before = delete_candidates(osegs, w as int);
            let eligible: bool;
            let mut weight: u64 = 1;
            match buffer.word_segment(w) {
                Some(seg) => {
                    if crate::affix::has_nonspace(seg.text()) {
                        eligible = true;
                        if !self.unweighted {
                            let (_, core, _) = split_affixes(seg.text());
                            weight = crate::affix::inverse_length_weight(core.as_str(), seg.text());
                        }
                    } else {
                        eligible = false;
                    }
                },
                None => {
                    proof {
                        assert(false);
                    }
                    eligible = false;
                },
            }
            proof {
                assert(eligible == delete_eligible(osegs, w as int));
                assert(delete_candidates(osegs, w as int + 1) == (if delete_eligible(
                    osegs,
                    w as int,
                ) {
                    cands_before.push(w as int)
                } else {
                    cands_before
                }));
            }
            if eligible {
                candidates.push((w, weight));
            }
            w = w + 1;
        }
        let n: usize = candidates.len();
        if n == 0 {
            return Ok(());
        }
        proof {
            assert((n as u128) * (clamped as u128) <= (0xFFFF_FFFF_FFFF_FFFFu128) * (
            0x100000u128)) by (nonlinear_arith)
                requires
                    0 <= (n as u128) <= 0xFFFF_FFFF_FFFF_FFFFu128,
                    0 <= (clamped as u128) <= 0x100000u128,
            ;
            assert((n as int) * (clamped as int) / (UNIT_ONE as int) <= n as int)
                by (nonlinear_arith)
                requires
                    0 <= n as int,
                    0 <= clamped as int <= UNIT_ONE as int,
                    UNIT_ONE > 0,
            ;
        }
        let allowed_wide: u128 = (n as u128) * (clamped as u128) / (UNIT_ONE as u128);
        let allowed: usize = allowed_wide as usize;
        proof {
            assert(allowed as int == spec_delete_allowed(
                delete_candidates(osegs, word_count as int).len() as int,
                self.rate,
            ));
        }
        if allowed == 0 {
            return Ok(());
        }
        // Mean weight for the acceptance probabilities.
        let mut total_weight: u64 = 0;
        let mut i: usize = 0;
        proof {
            lemma_delete_candidates_props(osegs, word_count as int);
            crate::text_buffer::lemma_word_indices_len(osegs);
            assert((n as int) * (WEIGHT_SCALE as int) <= u64::MAX) by (nonlinear_arith)
                requires
                    0 <= n as int <= osegs.len(),
                    osegs.len() * (WEIGHT_SCALE as int) <= u64::MAX,
                    WEIGHT_SCALE > 0,
            ;
        }
        while i < n
            invariant
                n == candidates@.len(),
                i <= n,
                forall|q: int|
                    0 <= q < candidates@.len() ==> 1 <= (#[trigger] candidates@[q]).1
                        <= WEIGHT_SCALE,
                total_weight <= (i as u64) * (WEIGHT_SCALE as u64),
                (n as int) * (WEIGHT_SCALE as int) <= u64::MAX,
            decreases n - i,
        {
            proof {
                assert((i as int + 1) * (WEIGHT_SCALE as int) <= (n as int) * (
                WEIGHT_SCALE as int)) by (nonlinear_arith)
                    requires
                        i as int + 1 <= n as int,
                        WEIGHT_SCALE > 0,
                ;
                assert((i as int) * (WEIGHT_SCALE as int) + WEIGHT_SCALE as int == (i as int + 1)
                    * (WEIGHT_SCALE as int)) by (nonlinear_arith);
            }
            total_weight = total_weight + candidates[i].1;
            i = i + 1;
        }
        let mean: u64 = {
            let m: u64 = total_weight / (n as u64);
            if m == 0 {
                1
            } else {
                m
            }
        };
        // Acceptance draws, stopping at the allowed count.
        let mut deleted: Vec<bool> = alloc_flags(word_count);
        let mut deletions: usize = 0;
        let mut c: usize = 0;
        proof {
            lemma_count_true_clear(deleted@);
        }
        while c < n
            invariant
                n == candidates@.len(),
                c <= n,
                deletions <= allowed,
                deletions <= c,
                allowed <= n,
                deleted@.len() == word_count,
                mean >= 1,
                *buffer == *old(buffer),
                buffer.wf(),
                osegs == buffer.segs(),
                word_count == old(buffer).spec_word_count(),
                self.rate >= UNIT_ONE ==> clamped == UNIT_ONE,
                allowed as int == spec_delete_allowed(
                    delete_candidates(osegs, word_count as int).len() as int,
                    self.rate,
                ),
                candidates@.len() == delete_candidates(osegs, word_count as int).len(),
                forall|q: int|
                    0 <= q < candidates@.len() ==> (#[trigger] candidates@[q]).0 as int
                        == delete_candidates(osegs, word_count as int)[q],
                forall|q: int|
                    0 <= q < candidates@.len() ==> (#[trigger] candidates@[q]).0 < word_count,
                forall|q: int|
                    0 <= q < candidates@.len() ==> 1 <= (#[trigger] candidates@[q]).1
                        <= WEIGHT_SCALE,
                forall|x: int|
                    0 <= x < deleted@.len() && deleted@[x] ==> delete_eligible(osegs, x),
                deletions as int == count_true(deleted@),
                forall|q: int|
                    c <= q < candidates@.len() ==> !deleted@[(#[trigger] candidates@[q]).0 as int],
                self.rate >= UNIT_ONE ==> forall|q: int|
                    0 <= q < c ==> deleted@[(#[trigger] candidates@[q]).0 as int],
            decreases n - c,
        {
            if deletions >= allowed {
                proof {
                    if self.rate >= UNIT_ONE {
                        assert(delete_candidates(osegs, word_count as int).len() == n as int);
                        assert((n as int) * (UNIT_ONE as int) / (UNIT_ONE as int) == n as int)
                            by (nonlinear_arith)
                            requires
                                UNIT_ONE > 0,
                        ;
                        assert(allowed == n);
                        assert(false);
                    }
                }
                c = n;
            } else {
                let probability: u32 = if clamped >= UNIT_ONE {
                    UNIT_ONE
                } else {
                    let weight_c: u64 = candidates[c].1;
                    proof {
                        assert((clamped as u128) * (weight_c as u128) <= (0x100000u128) * (
                        0x100000u128)) by (nonlinear_arith)
                            requires
                                0 <= (clamped as u128) <= 0x100000u128,
                                0 <= (weight_c as u128) <= 0x100000u128,
                        ;
                    }
                    let scaled: u128 = (clamped as u128) * (weight_c as u128) / (mean as u128);
                    if scaled >= UNIT_ONE as u128 {
                        UNIT_ONE
                    } else {
                        scaled as u32
                    }
                };
                let draw: u32 = rng.random_unit();
                let accept: bool = draw < probability;
                if accept {
                    let word_index: usize = candidates[c].0;
                    proof {
                        lemma_delete_candidates_props(osegs, word_count as int);
                        assert((word_index as int) == delete_candidates(
                            osegs,
                            word_count as int,
                        )[c as int]);
                        assert(delete_eligible(osegs, word_index as int));
                        assert(!deleted@[word_index as int]);
                        lemma_count_true_set(deleted@, word_index as int);
                    }
                    deleted.set(word_index, true);
                    deletions = deletions + 1;
                }
                proof {
                    if self.rate >= UNIT_ONE {
                        assert(probability == UNIT_ONE);
                        assert(accept);
                    }
                }
                c = c + 1;
            }
        }
        proof {
            lemma_delete_candidates_props(osegs, word_count as int);
        }
        let ghost flags = deleted@;
        let ghost pre_rebuild = *buffer;
        rebuild_without_deleted(buffer, &deleted);
        proof {
            assert(pre_rebuild.segs() == osegs);
            assert(buffer.text() == delete_rebuild_from(
                pre_rebuild.segs(),
                flags,
                0,
                0,
                false,
                false,
            ));
            assert(buffer.text() == delete_rebuild_from(osegs, flags, 0, 0, false, false));
            if self.rate >= UNIT_ONE {
                assert forall|x: int|
                    0 <= x < flags.len() && delete_eligible(osegs, x) implies flags[x] by {
                    assert(delete_candidates(osegs, word_count as int).contains(x));
                    let q = choose|q: int|
                        0 <= q < delete_candidates(osegs, word_count as int).len()
                            && delete_candidates(osegs, word_count as int)[q] == x;
                    assert((candidates@[q]).0 as int == x);
                    assert(flags[(candidates@[q]).0 as int]);
                }
            }
            assert(delete_applied(self.rate, *old(buffer), *buffer));
        }
        Ok(())
    }
}


/// A vector of `n` cleared flags.
fn alloc_flags(n: usize) -> (r: Vec<bool>)
    ensures
        r@.len() == n,
        forall|i: int| 0 <= i < n ==> !(#[trigger] r@[i]),
{
    let mut out: Vec<bool> = Vec::new();
    let mut i: usize = 0;
    while i < n
        invariant
            i <= n,
            out@.len() == i,
            forall|k: int| 0 <= k < i ==> !(#[trigger] out@[k]),
        decreases n - i,
    {
        out.push(false);
        i = i + 1;
    }
    out
}

/// One space is one byte.
proof fn lemma_space_byte()
    ensures
        byte_len((" ")@) == 1,
{
    reveal(crate::text_buffer::byte_len);
    reveal_strlit(" ");
    let sp = (" ")@;
    assert(sp.len() == 1);
    assert(sp.drop_first() =~= Seq::<char>::empty());
    assert(vstd::utf8::encode_utf8(sp.drop_first()).len() == 0);
    assert(vstd::utf8::has_width_1_encoding(sp[0] as u32));
    assert(vstd::utf8::encode_scalar(sp[0] as u32).len() == 1);
    assert(vstd::utf8::encode_utf8(sp).len() == 1);
}

/// Concatenation shifts brackets freely.
proof fn lemma_concat_rotate(a: Seq<char>, b: Seq<char>, c: Seq<char>, r: Seq<char>)
    ensures
        (a + b + c) + r == a + (b + c + r),
{
    assert((a + b + c) + r =~= a + (b + c + r));
}

/// Rebuilds the buffer's text without the flagged words, exactly the
/// rebuild walk of the deletion model: survivors are joined by single
/// spaces, no space lands before glued punctuation, and a deleted word
/// leaves only its whitespace-trimmed punctuation affixes behind.
#[verifier::rlimit(100)]
#[verifier::spinoff_prover]
fn rebuild_without_deleted(buffer: &mut TextBuffer, deleted: &Vec<bool>)
    requires
        old(buffer).wf(),
        old(buffer).spec_bytes() + old(buffer).segs().len() + 1 <= usize::MAX,
        deleted@.len() == old(buffer).spec_word_count(),
    ensures
        final(buffer).wf(),
        final(buffer).text() == delete_rebuild_from(
            old(buffer).segs(),
            deleted@,
            0,
            0,
            false,
            false,
        ),
{
    let ghost osegs = old(buffer).segs();
    let ghost flags = deleted@;
    proof {
        crate::text_buffer::lemma_word_indices_len(osegs);
        lemma_bytes_before_mono(osegs, 0, osegs.len() as int);
    }
    let entries = buffer.segments_with_word_indices();
    let mut acc: String = String::new();
    let mut needs_sep: bool = false;
    let mut i: usize = 0;
    let n: usize = entries.len();
    proof {
        reveal(crate::text_buffer::byte_len);
        assert(byte_len(acc@) == 0);
        assert(osegs.take(0) =~= Seq::<SegView>::empty());
        assert(acc@ + delete_rebuild_from(osegs, flags, 0, 0, false, false)
            =~= delete_rebuild_from(osegs, flags, 0, 0, false, false));
    }
    while i < n
        invariant
            *buffer == *old(buffer),
            buffer.wf(),
            osegs == buffer.segs(),
            n == entries@.len(),
            n == osegs.len(),
            i <= n,
            flags == deleted@,
            deleted@.len() == old(buffer).spec_word_count(),
            forall|k: int|
                0 <= k < entries@.len() ==> (#[trigger] entries@[k]).0 == k && entries@[k].1@
                    == osegs[k] && (entries@[k]).2 == (if osegs[k].kind is Word {
                    Some(word_indices(osegs.take(k)).len() as usize)
                } else {
                    None::<usize>
                }),
            byte_len(acc@) <= bytes_before(osegs, i as int) + i,
            delete_rebuild_from(osegs, flags, 0, 0, false, false) == acc@ + delete_rebuild_from(
                osegs,
                flags,
                i as int,
                word_indices(osegs.take(i as int)).len() as int,
                needs_sep,
                acc@.len() > 0,
            ),
        decreases n - i,
    {
        let ghost acc_before = acc@;
        let ghost wcnt = word_indices(osegs.take(i as int)).len() as int;
        proof {
            assert(bytes_before(osegs, i as int + 1) == bytes_before(osegs, i as int) + byte_len(
                osegs[i as int].text,
            ));
            crate::text_buffer::lemma_byte_len_nonneg(osegs[i as int].text);
            lemma_bytes_before_mono(osegs, i as int + 1, osegs.len() as int);
            crate::text_buffer::lemma_word_indices_len(osegs.take(i as int));
            let t = osegs.take(i as int + 1);
            assert(t.drop_last() =~= osegs.take(i as int));
            assert(t.last() == osegs[i as int]);
        }
        let kind = entries[i].1.kind();
        if matches!(kind, SegmentKind::Word) {
            let word_index: Option<usize> = entries[i].2;
            let text: &str = entries[i].1.text();
            let is_deleted: bool = match word_index {
                Some(wx) => {
                    if wx < deleted.len() {
                        deleted[wx]
                    } else {
                        false
                    }
                },
                None => false,
            };
            proof {
                assert(is_deleted == (0 <= wcnt < flags.len() && flags[wcnt]));
            }
            let piece: String = if is_deleted {
                let (prefix, _, suffix) = split_affixes(text);
                let mut combined = crate::affix::trim_spaces(prefix.as_str());
                let suffix_trimmed = crate::affix::trim_spaces(suffix.as_str());
                combined.append(suffix_trimmed.as_str());
                proof {
                    if has_alnum(text@) {
                        assert(combined@ =~= delete_residue(text@));
                    } else {
                        assert(crate::affix::trimmed(suffix@) =~= Seq::<char>::empty());
                        assert(combined@ =~= crate::affix::trimmed(text@));
                        assert(combined@ =~= delete_residue(text@));
                    }
                    crate::affix::lemma_trimmed_bytes(prefix@);
                    crate::affix::lemma_trimmed_bytes(suffix@);
                    reveal(crate::text_buffer::byte_len);
                    crate::text_buffer::lemma_encode_concat(
                        crate::affix::trimmed(prefix@),
                        crate::affix::trimmed(suffix@),
                    );
                    if has_alnum(text@) {
                        lemma_core_bounds(text@);
                        crate::affix::lemma_byte_len_parts(
                            text@,
                            core_start(text@),
                            core_end(text@),
                        );
                        assert(byte_len(combined@) <= byte_len(text@));
                    } else {
                        crate::text_buffer::lemma_byte_len_nonneg(text@);
                        assert(byte_len(combined@) <= byte_len(text@));
                    }
                }
                combined
            } else {
                text.to_owned()
            };
            if !piece.as_str().is_empty() {
                let glued: bool = {
                    let c0: char = piece.as_str().get_char(0);
                    c0 == '.' || c0 == ',' || c0 == ':' || c0 == ';'
                };
                proof {
                    assert(glued == crate::text_buffer::starts_glued(piece@));
                }
                let emit_space: bool = needs_sep && !acc.as_str().is_empty() && !glued;
                if emit_space {
                    acc.append(" ");
                    proof {
                        crate::text_buffer::lemma_encode_concat(acc_before, (" ")@);
                        lemma_space_byte();
                        reveal(crate::text_buffer::byte_len);
                        assert(byte_len(acc@) <= byte_len(acc_before) + 1);
                    }
                }
                let ghost acc_mid = acc@;
                acc.append(piece.as_str());
                proof {
                    reveal(crate::text_buffer::byte_len);
                    crate::text_buffer::lemma_encode_concat(acc_mid, piece@);
                    assert(byte_len(acc@) == byte_len(acc_mid) + byte_len(piece@));
                    let lead: Seq<char> = if needs_sep && acc_before.len() > 0
                        && !crate::text_buffer::starts_glued(piece@) {
                        seq![' ']
                    } else {
                        Seq::<char>::empty()
                    };
                    assert((" ")@ =~= seq![' ']) by {
                        reveal_strlit(" ");
                    }
                    assert(acc@ =~= acc_before + lead + piece@);
                    assert(acc@.len() > 0);
                    lemma_concat_rotate(
                        acc_before,
                        lead,
                        piece@,
                        delete_rebuild_from(osegs, flags, i as int + 1, wcnt + 1, true, true),
                    );
                }
                needs_sep = true;
            } else {
                proof {
                    assert(piece@.len() == 0);
                }
            }
        } else {
            let sep_text: &str = entries[i].1.text();
            let triggers: bool = crate::affix::has_nonspace(sep_text) || has_newline(sep_text);
            proof {
                assert(triggers == sep_triggers(osegs[i as int].text));
            }
            if triggers {
                needs_sep = true;
            }
        }
        i = i + 1;
    }
    proof {
        assert(byte_len(acc@) <= bytes_before(osegs, osegs.len() as int) + osegs.len());
        assert(delete_rebuild_from(
            osegs,
            flags,
            n as int,
            word_indices(osegs.take(n as int)).len() as int,
            needs_sep,
            acc@.len() > 0,
        ) =~= Seq::<char>::empty());
        assert(delete_rebuild_from(osegs, flags, 0, 0, false, false) =~= acc@);
    }
    let rebuilt = TextBuffer::from_owned(acc);
    *buffer = rebuilt;
}


/// Whether the text holds a newline.
fn has_newline(s: &str) -> (r: bool)
    ensures
        r == (exists|i: int| 0 <= i < s@.len() && s@[i] == '\n'),
{
    let n: usize = s.unicode_len();
    let mut i: usize = 0;
    while i < n
        invariant
            n == s@.len(),
            i <= n,
            forall|k: int| 0 <= k < i ==> s@[k] != '\n',
        decreases n - i,
    {
        if s.get_char(i) == '\n' {
            return true;
        }
        i = i + 1;
    }
    false
}

/// The reduplicated form of a word's text: its core doubled around a
/// single space, the punctuation affixes kept at the outer ends. A
/// word with no core doubles as itself and a trailing space.
pub open spec fn redup_text(t: Seq<char>) -> Seq<char> {
    if has_alnum(t) {
        t.take(core_start(t)) + t.subrange(core_start(t), core_end(t)) + seq![' '] + t.subrange(
            core_start(t),
            core_end(t),
        ) + t.skip(core_end(t))
    } else {
        t + seq![' ']
    }
}

/// Whether word `w` of `segs` is a reduplication candidate: its text
/// has some non-whitespace content.
pub open spec fn redup_eligible(segs: Seq<SegView>, w: int) -> bool {
    let t = segs[word_indices(segs)[w]].text;
    t.len() > 0 && !crate::text_buffer::is_space_seq(t)
}

/// The word indices of the reduplication candidates among the first
/// `upto` words, in increasing order.
pub open spec fn redup_candidates(segs: Seq<SegView>, upto: int) -> Seq<int>
    decreases upto,
{
    if upto <= 0 {
        Seq::empty()
    } else if redup_eligible(segs, upto - 1) {
        redup_candidates(segs, upto - 1).push(upto - 1)
    } else {
        redup_candidates(segs, upto - 1)
    }
}

/// `redup_candidates` lists exactly the eligible word indices, in
/// strictly increasing order.
pub proof fn lemma_redup_candidates_props(segs: Seq<SegView>, upto: int)
    ensures
        forall|i: int|
            0 <= i < redup_candidates(segs, upto).len() ==> 0 <= #[trigger] redup_candidates(
                segs,
                upto,
            )[i] < upto && redup_eligible(segs, redup_candidates(segs, upto)[i]),
        forall|i: int, j: int|
            0 <= i < j < redup_candidates(segs, upto).len() ==> redup_candidates(segs, upto)[i]
                < redup_candidates(segs, upto)[j],
        forall|w: int|
            0 <= w < upto && redup_eligible(segs, w) ==> redup_candidates(segs, upto).contains(w),
    decreases upto,
{
    if upto > 0 {
        lemma_redup_candidates_props(segs, upto - 1);
        let prev = redup_candidates(segs, upto - 1);
        let cur = redup_candidates(segs, upto);
        assert forall|w: int| 0 <= w < upto && redup_eligible(segs, w) implies cur.contains(w) by {
            if w < upto - 1 {
                assert(prev.contains(w));
                let i = choose|i: int| 0 <= i < prev.len() && prev[i] == w;
                assert(cur[i] == w);
            } else {
                assert(redup_eligible(segs, upto - 1));
                assert(cur.last() == w);
            }
        }
    }
}

/// There are at most `upto` candidates among the first `upto` words.
pub proof fn lemma_redup_candidates_len(segs: Seq<SegView>, upto: int)
    ensures
        redup_candidates(segs, upto).len() <= (if upto < 0 {
            0int
        } else {
            upto
        }),
    decreases upto,
{
    if upto > 0 {
        lemma_redup_candidates_len(segs, upto - 1);
    }
}

/// The text after reduplication: walking the segments in order, a
/// separator passes through, a word doubles when its flag is set.
/// `i` is the next segment, `w` the next word index.
pub open spec fn redup_rebuild_from(segs: Seq<SegView>, acc: Seq<bool>, i: int, w: int) -> Seq<
    char,
>
    decreases segs.len() - i,
{
    if i < 0 || i >= segs.len() {
        Seq::empty()
    } else if segs[i].kind is Word {
        let piece = if 0 <= w < acc.len() && acc[w] {
            redup_text(segs[i].text)
        } else {
            segs[i].text
        };
        piece + redup_rebuild_from(segs, acc, i + 1, w + 1)
    } else {
        segs[i].text + redup_rebuild_from(segs, acc, i + 1, w)
    }
}

/// With no flag set, the rebuild is the unchanged text.
pub proof fn lemma_redup_rebuild_unset(segs: Seq<SegView>, acc: Seq<bool>, i: int, w: int)
    requires
        0 <= i <= segs.len(),
        forall|x: int| 0 <= x < acc.len() ==> !acc[x],
    ensures
        redup_rebuild_from(segs, acc, i, w) == crate::text_buffer::text_of(segs.skip(i)),
    decreases segs.len() - i,
{
    if i == segs.len() {
        assert(segs.skip(i) =~= Seq::<SegView>::empty());
    } else {
        lemma_redup_rebuild_unset(segs, acc, i + 1, w + 1);
        lemma_redup_rebuild_unset(segs, acc, i + 1, w);
        crate::text_buffer::lemma_text_of_head(segs.skip(i));
        assert(segs.skip(i).drop_first() =~= segs.skip(i + 1));
        assert(segs.skip(i)[0] == segs[i]);
    }
}

/// Reduplication's outcome: some flag assignment over the words, set
/// only on candidates — and on every candidate at a full rate — yields
/// the new text by doubling exactly the flagged words.
pub open spec fn duplicate_applied(rate: u32, before: TextBuffer, after: TextBuffer) -> bool {
    exists|acc: Seq<bool>|
        {
            &&& acc.len() == before.spec_word_count()
            &&& (forall|w: int|
                0 <= w < acc.len() && acc[w] ==> redup_eligible(before.segs(), w))
            &&& after.text() == redup_rebuild_from(before.segs(), acc, 0, 0)
            &&& (rate >= UNIT_ONE ==> forall|w: int|
                0 <= w < acc.len() && redup_eligible(before.segs(), w) ==> acc[w])
        }
}

/// An untouched buffer satisfies the reduplication outcome when
/// nothing was eligible or the rate never forced an acceptance.
proof fn lemma_duplicate_unchanged(rate: u32, before: TextBuffer, after: TextBuffer)
    requires
        after == before,
        rate >= UNIT_ONE ==> forall|w: int|
            0 <= w < before.spec_word_count() ==> !redup_eligible(before.segs(), w),
    ensures
        duplicate_applied(rate, before, after),
{
    let acc0 = Seq::<bool>::new(before.spec_word_count() as nat, |x: int| false);
    assert(forall|x: int| 0 <= x < acc0.len() ==> !acc0[x]);
    lemma_redup_rebuild_unset(before.segs(), acc0, 0, 0);
    assert(before.segs().skip(0) =~= before.segs());
    assert(after.text() == redup_rebuild_from(before.segs(), acc0, 0, 0));
}

/// The reduplicated form of a word: the word with its core repeated,
/// as `prefix core  core suffix` joined by one space. Its size is
/// bounded by twice the word plus the space.
fn redup_piece(text: &str) -> (r: String)
    ensures
        r@ == redup_text(text@),
        byte_len(r@) <= 2 * byte_len(text@) + 1,
{
    let (prefix, core, suffix) = split_affixes(text);
    let mut piece: String = prefix;
    piece.append(core.as_str());
    piece.append(" ");
    piece.append(core.as_str());
    piece.append(suffix.as_str());
    proof {
        reveal(crate::text_buffer::byte_len);
        reveal_strlit(" ");
        if has_alnum(text@) {
            lemma_core_bounds(text@);
            crate::affix::lemma_byte_len_parts(text@, core_start(text@), core_end(text@));
        }
        let a = if has_alnum(text@) {
            text@.take(core_start(text@))
        } else {
            text@
        };
        let b = if has_alnum(text@) {
            text@.subrange(core_start(text@), core_end(text@))
        } else {
            Seq::<char>::empty()
        };
        let c = if has_alnum(text@) {
            text@.skip(core_end(text@))
        } else {
            Seq::<char>::empty()
        };
        assert(piece@ =~= a + b + (" ")@ + b + c);
        assert((" ")@ =~= seq![' ']);
        if has_alnum(text@) {
            assert(piece@ =~= redup_text(text@));
        } else {
            assert(piece@ =~= text@ + seq![' ']);
            assert(piece@ =~= redup_text(text@));
        }
        crate::text_buffer::lemma_encode_concat(a, b);
        crate::text_buffer::lemma_encode_concat(a + b, (" ")@);
        crate::text_buffer::lemma_encode_concat(a + b + (" ")@, b);
        crate::text_buffer::lemma_encode_concat(a + b + (" ")@ + b, c);
        assert(byte_len((" ")@) == 1) by {
            reveal(crate::text_buffer::byte_len);
            reveal_strlit(" ");
            let sp = (" ")@;
            assert(sp.len() == 1);
            assert(sp.drop_first() =~= Seq::<char>::empty());
            assert(vstd::utf8::encode_utf8(sp.drop_first()).len() == 0);
            assert(vstd::utf8::has_width_1_encoding(sp[0] as u32));
            assert(vstd::utf8::encode_scalar(sp[0] as u32).len() == 1);
            assert(vstd::utf8::encode_utf8(sp).len() == 1);
        }
        if has_alnum(text@) {
            assert(byte_len(a) + byte_len(b) + byte_len(c) == byte_len(text@));
            crate::text_buffer::lemma_byte_len_nonneg(b);
            crate::text_buffer::lemma_byte_len_nonneg(a);
            crate::text_buffer::lemma_byte_len_nonneg(c);
        } else {
            assert(a =~= text@);
            assert(vstd::utf8::encode_utf8(b).len() == 0);
            assert(vstd::utf8::encode_utf8(c).len() == 0);
            crate::text_buffer::lemma_byte_len_nonneg(text@);
        }
    }
    piece
}

/// Repeats words to simulate stuttered speech: a chosen word appears
/// twice, separated by one space, with its punctuation affixes kept at
/// the outer ends.
#[derive(Debug, Clone, Copy)]
pub struct ReduplicateWordsOp {
    /// Probability weight of duplicating each candidate, scaled by
    /// [`UNIT_ONE`]; values above one full unit are clamped.
    pub rate: u32,
    /// Flatten all weights to one instead of inverse-length weighting.
    pub unweighted: bool,
}

impl ReduplicateWordsOp {
    /// For each word with any non-whitespace content, one draw accepts
    /// it with probability proportional to the rate and its
    /// inverse-length weight (certain at a full rate); accepted words
    /// are doubled in place. At rate zero, or with no candidates,
    /// nothing is touched, generator included.
    #[verifier::rlimit(100)]
    pub fn apply(&self, buffer: &mut TextBuffer, rng: &mut DeterministicRng) -> (r: Result<
        (),
        GlitchOpError,
    >)
        requires
            old(buffer).wf(),
            2 * old(buffer).spec_bytes() + 2 * old(buffer).segs().len() + 2 <= usize::MAX,
            old(buffer).segs().len() * (WEIGHT_SCALE as int) <= u64::MAX,
        ensures
            r is Ok,
            final(buffer).wf(),
            self.rate == 0 ==> *final(buffer) == *old(buffer) && *final(rng) == *old(rng),
            duplicate_applied(self.rate, *old(buffer), *final(buffer)),
    {
        let ghost osegs = old(buffer).segs();
        proof {
            lemma_word_indices_props(osegs);
            crate::text_buffer::lemma_word_indices_len(osegs);
        }
        let word_count: usize = buffer.word_count();
        if word_count == 0 {
            proof {
                lemma_duplicate_unchanged(self.rate, *old(buffer), *buffer);
            }
            return Ok(());
        }
        let clamped: u32 = if self.rate > UNIT_ONE {
            UNIT_ONE
        } else {
            self.rate
        };
        if clamped == 0 {
            proof {
                lemma_duplicate_unchanged(self.rate, *old(buffer), *buffer);
            }
            return Ok(());
        }
        // Candidates: every word with non-whitespace content.
        let mut candidates: Vec<(usize, u64)> = Vec::new();
        let mut w: usize = 0;
        while w < word_count
            invariant
                *buffer == *old(buffer),
                buffer.wf(),
                osegs == buffer.segs(),
                word_count == old(buffer).spec_word_count(),
                w <= word_count,
                candidates@.len() == redup_candidates(osegs, w as int).len(),
                forall|i: int|
                    0 <= i < candidates@.len() ==> (#[trigger] candidates@[i]).0 as int
                        == redup_candidates(osegs, w as int)[i],
                forall|i: int|
                    0 <= i < candidates@.len() ==> 1 <= (#[trigger] candidates@[i]).1
                        <= WEIGHT_SCALE,
                forall|i: int|
                    0 <= i < candidates@.len() ==> (#[trigger] candidates@[i]).0 < word_count,
            decreases word_count - w,
        {
            let ghost cands_before = redup_candidates(osegs, w as int);
            let eligible: bool;
            let mut weight: u64 = 1;
            match buffer.word_segment(w) {
                Some(seg) => {
                    if crate::affix::has_nonspace(seg.text()) {
                        eligible = true;
                        if !self.unweighted {
                            let (_, core, _) = split_affixes(seg.text());
                            weight = crate::affix::inverse_length_weight(core.as_str(), seg.text());
                        }
                    } else {
                        eligible = false;
                    }
                },
                None => {
                    proof {
                        assert(false);
                    }
                    eligible = false;
                },
            }
            proof {
                assert(eligible == redup_eligible(osegs, w as int));
                assert(redup_candidates(osegs, w as int + 1) == (if redup_eligible(
                    osegs,
                    w as int,
                ) {
                    cands_before.push(w as int)
                } else {
                    cands_before
                }));
            }
            if eligible {
                candidates.push((w, weight));
            }
            w = w + 1;
        }
        let n: usize = candidates.len();
        if n == 0 {
            proof {
                lemma_redup_candidates_props(osegs, word_count as int);
                assert forall|x: int|
                    0 <= x < word_count && redup_eligible(osegs, x) implies false by {
                    assert(redup_candidates(osegs, word_count as int).contains(x));
                }
                lemma_duplicate_unchanged(self.rate, *old(buffer), *buffer);
            }
            return Ok(());
        }
        // Mean weight for the acceptance probabilities.
        let mut total_weight: u64 = 0;
        let mut i: usize = 0;
        proof {
            lemma_redup_candidates_len(osegs, word_count as int);
            crate::text_buffer::lemma_word_indices_len(osegs);
            assert((n as int) * (WEIGHT_SCALE as int) <= u64::MAX) by (nonlinear_arith)
                requires
                    0 <= n as int <= osegs.len(),
                    osegs.len() * (WEIGHT_SCALE as int) <= u64::MAX,
                    WEIGHT_SCALE > 0,
            ;
        }
        while i < n
            invariant
                n == candidates@.len(),
                i <= n,
                forall|q: int|
                    0 <= q < candidates@.len() ==> 1 <= (#[trigger] candidates@[q]).1
                        <= WEIGHT_SCALE,
                total_weight <= (i as u64) * (WEIGHT_SCALE as u64),
                (n as int) * (WEIGHT_SCALE as int) <= u64::MAX,
            decreases n - i,
        {
            proof {
                assert((i as int + 1) * (WEIGHT_SCALE as int) <= (n as int) * (
                WEIGHT_SCALE as int)) by (nonlinear_arith)
                    requires
                        i as int + 1 <= n as int,
                        WEIGHT_SCALE > 0,
                ;
                assert((i as int) * (WEIGHT_SCALE as int) + WEIGHT_SCALE as int == (i as int + 1)
                    * (WEIGHT_SCALE as int)) by (nonlinear_arith);
            }
            total_weight = total_weight + candidates[i].1;
            i = i + 1;
        }
        let mean: u64 = {
            let m: u64 = total_weight / (n as u64);
            if m == 0 {
                1
            } else {
                m
            }
        };
        // Acceptance draws: one per candidate.
        proof {
            lemma_redup_candidates_props(osegs, word_count as int);
        }
        let mut accepted: Vec<bool> = alloc_flags(word_count);
        let mut c: usize = 0;
        while c < n
            invariant
                n == candidates@.len(),
                c <= n,
                accepted@.len() == word_count,
                mean >= 1,
                osegs == buffer.segs(),
                word_count == old(buffer).spec_word_count(),
                self.rate >= UNIT_ONE ==> clamped == UNIT_ONE,
                candidates@.len() == redup_candidates(osegs, word_count as int).len(),
                forall|q: int|
                    0 <= q < candidates@.len() ==> (#[trigger] candidates@[q]).0 as int
                        == redup_candidates(osegs, word_count as int)[q],
                forall|q: int|
                    0 <= q < candidates@.len() ==> (#[trigger] candidates@[q]).0 < word_count,
                forall|q: int|
                    0 <= q < candidates@.len() ==> 1 <= (#[trigger] candidates@[q]).1
                        <= WEIGHT_SCALE,
                forall|x: int|
                    0 <= x < accepted@.len() && accepted@[x] ==> redup_eligible(osegs, x),
                self.rate >= UNIT_ONE ==> forall|q: int|
                    0 <= q < c ==> accepted@[(#[trigger] candidates@[q]).0 as int],
            decreases n - c,
        {
            let probability: u32 = if clamped >= UNIT_ONE {
                UNIT_ONE
            } else {
                let weight_c: u64 = candidates[c].1;
                proof {
                    assert((clamped as u128) * (weight_c as u128) <= (0x100000u128) * (
                    0x100000u128)) by (nonlinear_arith)
                        requires
                            0 <= (clamped as u128) <= 0x100000u128,
                            0 <= (weight_c as u128) <= 0x100000u128,
                    ;
                }
                let scaled: u128 = (clamped as u128) * (weight_c as u128) / (mean as u128);
                if scaled >= UNIT_ONE as u128 {
                    UNIT_ONE
                } else {
                    scaled as u32
                }
            };
            let draw: u32 = rng.random_unit();
            let accept: bool = draw < probability;
            let ghost accepted_before = accepted@;
            if accept {
                let word_index: usize = candidates[c].0;
                proof {
                    lemma_redup_candidates_props(osegs, word_count as int);
                    assert((word_index as int) == redup_candidates(osegs, word_count as int)[
                        c as int
                    ]);
                    assert(redup_eligible(osegs, word_index as int));
                }
                accepted.set(word_index, true);
            }
            proof {
                if self.rate >= UNIT_ONE {
                    assert(probability == UNIT_ONE);
                    assert(accept);
                }
            }
            c = c + 1;
        }
        // Rebuild with accepted words doubled.
        let entries = buffer.segments_with_word_indices();
        let mut acc: String = String::new();
        let mut k: usize = 0;
        let m: usize = entries.len();
        let ghost flags = accepted@;
        proof {
            reveal(crate::text_buffer::byte_len);
            assert(byte_len(acc@) == 0);
            lemma_bytes_before_mono(osegs, 0, osegs.len() as int);
            assert(osegs.take(0) =~= Seq::<SegView>::empty());
            assert(acc@ + redup_rebuild_from(osegs, flags, 0, 0) =~= redup_rebuild_from(
                osegs,
                flags,
                0,
                0,
            ));
        }
        while k < m
            invariant
                *buffer == *old(buffer),
                buffer.wf(),
                osegs == buffer.segs(),
                m == entries@.len(),
                m == osegs.len(),
                k <= m,
                flags == accepted@,
                accepted@.len() == old(buffer).spec_word_count(),
                forall|q: int|
                    0 <= q < entries@.len() ==> (#[trigger] entries@[q]).0 == q && entries@[q].1@
                        == osegs[q] && (entries@[q]).2 == (if osegs[q].kind is Word {
                        Some(word_indices(osegs.take(q)).len() as usize)
                    } else {
                        None::<usize>
                    }),
                byte_len(acc@) <= 2 * bytes_before(osegs, k as int) + 2 * k,
                redup_rebuild_from(osegs, flags, 0, 0) == acc@ + redup_rebuild_from(
                    osegs,
                    flags,
                    k as int,
                    word_indices(osegs.take(k as int)).len() as int,
                ),
            decreases m - k,
        {
            let ghost acc_before = acc@;
            let ghost wcnt = word_indices(osegs.take(k as int)).len() as int;
            proof {
                assert(bytes_before(osegs, k as int + 1) == bytes_before(osegs, k as int)
                    + byte_len(osegs[k as int].text));
                crate::text_buffer::lemma_byte_len_nonneg(osegs[k as int].text);
                lemma_bytes_before_mono(osegs, k as int + 1, osegs.len() as int);
                crate::text_buffer::lemma_word_indices_len(osegs.take(k as int));
                let t = osegs.take(k as int + 1);
                assert(t.drop_last() =~= osegs.take(k as int));
                assert(t.last() == osegs[k as int]);
            }
            let kind = entries[k].1.kind();
            let text: &str = entries[k].1.text();
            let doubled: bool = if matches!(kind, SegmentKind::Word) {
                match entries[k].2 {
                    Some(wx) => if wx < accepted.len() {
                        accepted[wx]
                    } else {
                        false
                    },
                    None => false,
                }
            } else {
                false
            };
            proof {
                if osegs[k as int].kind is Word {
                    assert(doubled == (0 <= wcnt < flags.len() && flags[wcnt]));
                }
            }
            if doubled {
                let piece: String = redup_piece(text);
                acc.append(piece.as_str());
                proof {
                    reveal(crate::text_buffer::byte_len);
                    crate::text_buffer::lemma_encode_concat(acc_before, piece@);
                    assert(byte_len(acc@) == byte_len(acc_before) + byte_len(piece@));
                    assert(acc@ + redup_rebuild_from(osegs, flags, k as int + 1, wcnt + 1)
                        =~= acc_before + (piece@ + redup_rebuild_from(
                        osegs,
                        flags,
                        k as int + 1,
                        wcnt + 1,
                    )));
                }
            } else {
                acc.append(text);
                proof {
                    reveal(crate::text_buffer::byte_len);
                    crate::text_buffer::lemma_encode_concat(acc_before, text@);
                    assert(byte_len(acc@) == byte_len(acc_before) + byte_len(text@));
                    if osegs[k as int].kind is Word {
                        assert(acc@ + redup_rebuild_from(osegs, flags, k as int + 1, wcnt + 1)
                            =~= acc_before + (text@ + redup_rebuild_from(
                            osegs,
                            flags,
                            k as int + 1,
                            wcnt + 1,
                        )));
                    } else {
                        assert(acc@ + redup_rebuild_from(osegs, flags, k as int + 1, wcnt)
                            =~= acc_before + (text@ + redup_rebuild_from(
                            osegs,
                            flags,
                            k as int + 1,
                            wcnt,
                        )));
                    }
                }
            }
            k = k + 1;
        }
        proof {
            assert(byte_len(acc@) <= 2 * bytes_before(osegs, osegs.len() as int) + 2
                * osegs.len());
            assert(redup_rebuild_from(
                osegs,
                flags,
                m as int,
                word_indices(osegs.take(m as int)).len() as int,
            ) =~= Seq::<char>::empty());
            assert(redup_rebuild_from(osegs, flags, 0, 0) =~= acc@);
        }
        let rebuilt = TextBuffer::from_owned(acc);
        *buffer = rebuilt;
        proof {
            assert(buffer.text() == redup_rebuild_from(osegs, flags, 0, 0));
            if self.rate >= UNIT_ONE {
                assert forall|x: int|
                    0 <= x < flags.len() && redup_eligible(osegs, x) implies flags[x] by {
                    lemma_redup_candidates_props(osegs, word_count as int);
                    assert(redup_candidates(osegs, word_count as int).contains(x));
                    let q = choose|q: int|
                        0 <= q < redup_candidates(osegs, word_count as int).len()
                            && redup_candidates(osegs, word_count as int)[q] == x;
                    assert((candidates@[q]).0 as int == x);
                    assert(flags[(candidates@[q]).0 as int]);
                }
            }
            assert(duplicate_applied(self.rate, *old(buffer), *buffer));
        }
        Ok(())
    }
}

/// The modes a combined word-level step can run, in order.
#[derive(Debug, Clone, Copy, PartialEq, Eq, Structural)]
pub enum RushmoreComboMode {
    Delete,
    Duplicate,
    Swap,
}

/// Runs a configurable sequence of the three word-level steps against
/// one buffer, in the order the modes list them.
#[derive(Debug, Clone)]
pub struct RushmoreComboOp {
    pub modes: Vec<RushmoreComboMode>,
    pub delete: Option<DeleteRandomWordsOp>,
    pub duplicate: Option<ReduplicateWordsOp>,
    pub swap: Option<SwapAdjacentWordsOp>,
}

/// What one mode of the combined step guarantees: an unconfigured
/// mode leaves the buffer as it was; a configured one behaves as its
/// checked step does, oversize guard included.
pub open spec fn combo_step_applied(
    op: RushmoreComboOp,
    mode: RushmoreComboMode,
    before: TextBuffer,
    after: TextBuffer,
) -> bool {
    match mode {
        RushmoreComboMode::Delete => match op.delete {
            Some(o) => (!delete_fits(before) ==> after == before) && (delete_fits(before)
                ==> delete_applied(o.rate, before, after)),
            None => after == before,
        },
        RushmoreComboMode::Duplicate => match op.duplicate {
            Some(o) => (!duplicate_fits(before) ==> after == before) && (duplicate_fits(before)
                ==> duplicate_applied(o.rate, before, after)),
            None => after == before,
        },
        RushmoreComboMode::Swap => match op.swap {
            Some(o) => (!swap_fits(before) ==> after == before) && (swap_fits(before)
                ==> swap_applied(o.rate, before, after)),
            None => after == before,
        },
    }
}

impl RushmoreComboOp {
    /// Assembles a combined step.
    pub fn new(
        modes: Vec<RushmoreComboMode>,
        delete: Option<DeleteRandomWordsOp>,
        duplicate: Option<ReduplicateWordsOp>,
        swap: Option<SwapAdjacentWordsOp>,
    ) -> (r: Self)
        ensures
            r.modes == modes,
            r.delete == delete,
            r.duplicate == duplicate,
            r.swap == swap,
    {
        RushmoreComboOp { modes, delete, duplicate, swap }
    }

    /// Applies the configured steps in mode order. Each constituent
    /// step runs against the buffer left by the one before; the size
    /// bound is re-checked before each, and a buffer grown past the
    /// machine's limits stops the run with the oversize error. On
    /// success there is a chain of buffers through the modes, each
    /// link related to the next by its mode's outcome.
    pub fn apply(&self, buffer: &mut TextBuffer, rng: &mut DeterministicRng) -> (r: Result<
        (),
        GlitchOpError,
    >)
        requires
            old(buffer).wf(),
        ensures
            final(buffer).wf(),
            r is Ok ==> exists|chain: Seq<TextBuffer>|
                #![trigger chain.len()]
                {
                    &&& chain.len() == self.modes@.len() + 1
                    &&& chain[0] == *old(buffer)
                    &&& (forall|i: int|
                        0 <= i < self.modes@.len() ==> combo_step_applied(
                            *self,
                            #[trigger] self.modes@[i],
                            chain[i],
                            chain[i + 1],
                        ))
                    &&& *final(buffer) == chain.last()
                },
    {
        let count: usize = self.modes.len();
        let mut i: usize = 0;
        let ghost mut chain: Seq<TextBuffer> = seq![*old(buffer)];
        while i < count
            invariant
                count == self.modes@.len(),
                i <= count,
                buffer.wf(),
                chain.len() == i + 1,
                chain[0] == *old(buffer),
                chain.last() == *buffer,
                forall|k: int|
                    0 <= k < i ==> combo_step_applied(
                        *self,
                        #[trigger] self.modes@[k],
                        chain[k],
                        chain[k + 1],
                    ),
            decreases count - i,
        {
            let mode = self.modes[i];
            let step: Result<(), GlitchOpError> = match mode {
                RushmoreComboMode::Delete => {
                    match &self.delete {
                        Some(op) => apply_delete_checked(op, buffer, rng),
                        None => Ok(()),
                    }
                },
                RushmoreComboMode::Duplicate => {
                    match &self.duplicate {
                        Some(op) => apply_duplicate_checked(op, buffer, rng),
                        None => Ok(()),
                    }
                },
                RushmoreComboMode::Swap => {
                    match &self.swap {
                        Some(op) => apply_swap_checked(op, buffer, rng),
                        None => Ok(()),
                    }
                },
            };
            if step.is_err() {
                return step;
            }
            proof {
                chain = chain.push(*buffer);
            }
            i = i + 1;
        }
        Ok(())
    }
}

/// Whether the buffer is small enough for deletion's arithmetic.
pub open spec fn delete_fits(b: TextBuffer) -> bool {
    b.spec_bytes() + b.segs().len() + 1 <= usize::MAX && b.segs().len() * (WEIGHT_SCALE as int)
        <= u64::MAX
}

/// Whether the buffer is small enough for reduplication's arithmetic.
pub open spec fn duplicate_fits(b: TextBuffer) -> bool {
    2 * b.spec_bytes() + 2 * b.segs().len() + 2 <= usize::MAX && b.segs().len() * (
    WEIGHT_SCALE as int) <= u64::MAX
}

/// Whether the buffer is small enough for the adjacent swap's
/// arithmetic.
pub open spec fn swap_fits(b: TextBuffer) -> bool {
    3 * b.spec_bytes() <= usize::MAX
}

/// Whether the buffer is small enough for redaction's arithmetic with
/// this replacement token.
pub open spec fn redact_fits(token: Seq<char>, b: TextBuffer) -> bool {
    b.spec_bytes() * (2 + byte_len(token)) <= usize::MAX && b.segs().len() * (
    WEIGHT_SCALE as int) <= u64::MAX && b.segs().len() * 0x1000 <= usize::MAX
}

/// Runs deletion after checking the machine-size bounds it needs: the
/// oversize error comes exactly when the buffer fails those bounds,
/// and nothing is mutated then.
pub fn apply_delete_checked(
    op: &DeleteRandomWordsOp,
    buffer: &mut TextBuffer,
    rng: &mut DeterministicRng,
) -> (r: Result<(), GlitchOpError>)
    requires
        old(buffer).wf(),
    ensures
        final(buffer).wf(),
        r == Result::<(), GlitchOpError>::Err(
            GlitchOpError::OversizedBuffer { bytes: (old(buffer).spec_bytes() as usize) },
        ) <==> !delete_fits(*old(buffer)),
        !delete_fits(*old(buffer)) ==> *final(buffer) == *old(buffer) && *final(rng) == *old(rng),
        delete_fits(*old(buffer)) ==> r is Ok && delete_applied(
            op.rate,
            *old(buffer),
            *final(buffer),
        ) && (op.rate == 0 ==> *final(buffer) == *old(buffer) && *final(rng) == *old(rng)),
{
    let bytes: usize = buffer.byte_count();
    let segs: usize = buffer.seg_count();
    if (bytes as u128) + (segs as u128) + 1 > usize::MAX as u128 || (segs as u128) * (
    WEIGHT_SCALE as u128) > u64::MAX as u128 {
        return Err(GlitchOpError::OversizedBuffer { bytes });
    }
    op.apply(buffer, rng)
}

/// Runs reduplication after checking the machine-size bounds it
/// needs: the oversize error comes exactly when the buffer fails those
/// bounds, and nothing is mutated then.
pub fn apply_duplicate_checked(
    op: &ReduplicateWordsOp,
    buffer: &mut TextBuffer,
    rng: &mut DeterministicRng,
) -> (r: Result<(), GlitchOpError>)
    requires
        old(buffer).wf(),
    ensures
        final(buffer).wf(),
        r == Result::<(), GlitchOpError>::Err(
            GlitchOpError::OversizedBuffer { bytes: (old(buffer).spec_bytes() as usize) },
        ) <==> !duplicate_fits(*old(buffer)),
        !duplicate_fits(*old(buffer)) ==> *final(buffer) == *old(buffer) && *final(rng) == *old(
            rng,
        ),
        duplicate_fits(*old(buffer)) ==> r is Ok && duplicate_applied(
            op.rate,
            *old(buffer),
            *final(buffer),
        ) && (op.rate == 0 ==> *final(buffer) == *old(buffer) && *final(rng) == *old(rng)),
{
    let bytes: usize = buffer.byte_count();
    let segs: usize = buffer.seg_count();
    if 2 * (bytes as u128) + 2 * (segs as u128) + 2 > usize::MAX as u128 || (segs as u128) * (
    WEIGHT_SCALE as u128) > u64::MAX as u128 {
        return Err(GlitchOpError::OversizedBuffer { bytes });
    }
    op.apply(buffer, rng)
}

/// Runs the adjacent swap after checking the machine-size bound it
/// needs: the oversize error comes exactly when the buffer fails that
/// bound, and nothing is mutated then; otherwise the swap's own
/// outcome holds.
pub fn apply_swap_checked(
    op: &SwapAdjacentWordsOp,
    buffer: &mut TextBuffer,
    rng: &mut DeterministicRng,
) -> (r: Result<(), GlitchOpError>)
    requires
        old(buffer).wf(),
    ensures
        final(buffer).wf(),
        r == Result::<(), GlitchOpError>::Err(
            GlitchOpError::OversizedBuffer { bytes: (old(buffer).spec_bytes() as usize) },
        ) <==> !swap_fits(*old(buffer)),
        !swap_fits(*old(buffer)) ==> *final(buffer) == *old(buffer) && *final(rng) == *old(rng),
        swap_fits(*old(buffer)) ==> r is Ok && swap_applied(
            op.rate,
            *old(buffer),
            *final(buffer),
        ) && (op.rate == 0 ==> *final(buffer) == *old(buffer) && *final(rng) == *old(rng)),
{
    let bytes: usize = buffer.byte_count();
    if 3 * (bytes as u128) > usize::MAX as u128 {
        return Err(GlitchOpError::OversizedBuffer { bytes });
    }
    let outcome = op.apply(buffer, rng);
    outcome
}

/// Runs redaction after checking the machine-size bounds it needs:
/// the oversize error comes exactly when the buffer fails those
/// bounds, and nothing is mutated then; otherwise redaction's own
/// outcome holds.
pub fn apply_redact_checked(
    op: &RedactWordsOp,
    buffer: &mut TextBuffer,
    rng: &mut DeterministicRng,
) -> (r: Result<(), GlitchOpError>)
    requires
        old(buffer).wf(),
        byte_len(op.replacement_char@) <= usize::MAX,
    ensures
        final(buffer).wf(),
        r == Result::<(), GlitchOpError>::Err(
            GlitchOpError::OversizedBuffer { bytes: (old(buffer).spec_bytes() as usize) },
        ) <==> !redact_fits(op.replacement_char@, *old(buffer)),
        !redact_fits(op.replacement_char@, *old(buffer)) ==> *final(buffer) == *old(buffer)
            && *final(rng) == *old(rng),
        redact_fits(op.replacement_char@, *old(buffer)) ==> redact_outcome(
            op.replacement_char@,
            op.rate,
            op.merge_adjacent,
            *old(buffer),
            *final(buffer),
            r,
        ),
{
    let bytes: usize = buffer.byte_count();
    let segs: usize = buffer.seg_count();
    let token_bytes: usize = op.replacement_char.as_str().len();
    proof {
        reveal(crate::text_buffer::byte_len);
        assert(token_bytes as int == byte_len(op.replacement_char@));
        assert((bytes as u128) * (2 + token_bytes as u128) <= u128::MAX) by (nonlinear_arith)
            requires
                0 <= (bytes as u128) <= 0xFFFF_FFFF_FFFF_FFFFu128,
                0 <= (token_bytes as u128) <= 0xFFFF_FFFF_FFFF_FFFFu128,
        ;
    }
    if (bytes as u128) * (2 + token_bytes as u128) > usize::MAX as u128 || (segs as u128) * (
    WEIGHT_SCALE as u128) > u64::MAX as u128 || (segs as u128) * 0x1000 > usize::MAX as u128 {
        return Err(GlitchOpError::OversizedBuffer { bytes });
    }
    op.apply(buffer, rng)
}

/// Occurrence counts are never negative.
proof fn lemma_count_in_nonneg(v: Seq<usize>, allowed: Seq<int>)
    ensures
        count_in(v, allowed) >= 0,
    decreases v.len(),
{
    if v.len() > 0 {
        lemma_count_in_nonneg(v.drop_last(), allowed);
    }
}

/// Nothing is contained in an empty allowed set.
proof fn lemma_count_in_empty(v: Seq<usize>)
    ensures
        count_in(v, Seq::<int>::empty()) == 0,
    decreases v.len(),
{
    if v.len() > 0 {
        lemma_count_in_empty(v.drop_last());
    }
}

} // verus!
