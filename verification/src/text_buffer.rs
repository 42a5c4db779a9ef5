//! Segment-indexed text buffer.
//!
//! A [`TextBuffer`] owns a tokenised representation of text as an ordered
//! sequence of [`TextSegment`]s (word or separator runs), together with
//! derived position metadata: per-segment character and byte ranges
//! ([`TextSpan`]) and a dense word-index to segment-index mapping. The
//! buffer's invariant ties all the derived data to the segment sequence:
//! concatenating the segment texts in order reproduces the buffer's
//! contents, and the spans partition the character and byte ranges of the
//! whole text with no gaps or overlaps.

use vstd::prelude::*;
use vstd::utf8::encode_utf8;
use vstd::string::StrSliceExecFns;
use core::ops::Range;

verus! {

/// The role of a segment inside a [`TextBuffer`].
#[derive(Debug, Clone, Copy, PartialEq, Eq, Structural)]
pub enum SegmentKind {
    /// A token that contains at least one non-whitespace character.
    Word,
    /// A run of whitespace characters separating words.
    Separator,
}

/// The abstract value of one segment: its kind and its character content.
pub struct SegView {
    pub kind: SegmentKind,
    pub text: Seq<char>,
}

/// A contiguous slice of text tracked by the [`TextBuffer`].
#[derive(Debug)]
pub struct TextSegment {
    kind: SegmentKind,
    text: String,
}

impl View for TextSegment {
    type V = SegView;

    closed spec fn view(&self) -> SegView {
        SegView { kind: self.kind, text: self.text@ }
    }
}

impl Clone for TextSegment {
    fn clone(&self) -> (r: Self)
        ensures
            r@ == self@,
    {
        TextSegment { kind: self.kind, text: self.text.clone() }
    }
}

impl TextSegment {
    fn new(text: String, kind: SegmentKind) -> (r: Self)
        ensures
            r@ == (SegView { kind, text: text@ }),
    {
        TextSegment { kind, text }
    }

    /// Returns the segment's text content.
    pub fn text(&self) -> (r: &str)
        ensures
            r@ == self@.text,
    {
        self.text.as_str()
    }

    /// Returns the classification of the segment.
    pub fn kind(&self) -> (r: SegmentKind)
        ensures
            r == self@.kind,
    {
        self.kind
    }
}

/// Whether `c` carries the Unicode `White_Space` property.
#[verifier::opaque]
pub open spec fn is_space_char(c: char) -> bool {
    let u = c as u32;
    (9 <= u && u <= 13) || u == 0x20 || u == 0x85 || u == 0xA0 || u == 0x1680 || (0x2000 <= u
        && u <= 0x200A) || u == 0x2028 || u == 0x2029 || u == 0x202F || u == 0x205F || u == 0x3000
}

/// Whether every character of `s` is whitespace.
pub open spec fn is_space_seq(s: Seq<char>) -> bool {
    forall|i: int| 0 <= i < s.len() ==> is_space_char(#[trigger] s[i])
}

/// Executable check for [`is_space_char`].
pub fn space_char(c: char) -> (r: bool)
    ensures
        r == is_space_char(c),
{
    proof {
        reveal(is_space_char);
    }
    let u: u32 = c as u32;
    (9 <= u && u <= 13) || u == 0x20 || u == 0x85 || u == 0xA0 || u == 0x1680 || (0x2000 <= u
        && u <= 0x200A) || u == 0x2028 || u == 0x2029 || u == 0x202F || u == 0x205F || u == 0x3000
}

/// The concatenation of the texts of `segs`, in order.
pub open spec fn text_of(segs: Seq<SegView>) -> Seq<char>
    decreases segs.len(),
{
    if segs.len() == 0 {
        Seq::empty()
    } else {
        text_of(segs.drop_last()) + segs.last().text
    }
}

/// The number of characters in the first `i` segments.
pub open spec fn chars_before(segs: Seq<SegView>, i: int) -> int
    decreases i,
{
    if i <= 0 {
        0
    } else {
        chars_before(segs, i - 1) + segs[i - 1].text.len()
    }
}

/// The UTF-8 byte length of a character sequence.
#[verifier::opaque]
pub open spec fn byte_len(s: Seq<char>) -> int {
    encode_utf8(s).len() as int
}

/// The number of UTF-8 bytes in the first `i` segments.
pub open spec fn bytes_before(segs: Seq<SegView>, i: int) -> int
    decreases i,
{
    if i <= 0 {
        0
    } else {
        bytes_before(segs, i - 1) + byte_len(segs[i - 1].text)
    }
}

/// Whether a buffer made of `segs` fits the machine's address space.
pub open spec fn fits_usize(segs: Seq<SegView>) -> bool {
    bytes_before(segs, segs.len() as int) <= usize::MAX
}

/// The segment indices of the word segments of `segs`, in order.
pub open spec fn word_indices(segs: Seq<SegView>) -> Seq<int>
    decreases segs.len(),
{
    if segs.len() == 0 {
        Seq::empty()
    } else {
        let init = word_indices(segs.drop_last());
        if segs.last().kind is Word {
            init.push(segs.len() - 1)
        } else {
            init
        }
    }
}

/// The effect of a bulk word replacement: each pair in turn replaces
/// the text of the addressed word segment, keeping it a word segment.
pub open spec fn apply_word_updates(
    segs: Seq<SegView>,
    wi: Seq<int>,
    rs: Seq<(usize, Seq<char>)>,
) -> Seq<SegView>
    decreases rs.len(),
{
    if rs.len() == 0 {
        segs
    } else {
        let p = rs.first();
        apply_word_updates(
            segs.update(wi[p.0 as int], SegView { kind: SegmentKind::Word, text: p.1 }),
            wi,
            rs.drop_first(),
        )
    }
}

/// The effect of a bulk segment replacement: each in-range pair in turn
/// replaces the text of the addressed segment, keeping its kind;
/// out-of-range pairs do nothing.
pub open spec fn apply_seg_updates(segs: Seq<SegView>, rs: Seq<(usize, Seq<char>)>) -> Seq<SegView>
    decreases rs.len(),
{
    if rs.len() == 0 {
        segs
    } else {
        let p = rs.first();
        let next = if (p.0 as int) < segs.len() {
            segs.update(p.0 as int, SegView { kind: segs[p.0 as int].kind, text: p.1 })
        } else {
            segs
        };
        apply_seg_updates(next, rs.drop_first())
    }
}

/// The segments after inserting a word (and an optional non-empty
/// separator) directly after segment `si`.
pub open spec fn inserted_word_segs(
    segs: Seq<SegView>,
    si: int,
    word: Seq<char>,
    separator: Option<Seq<char>>,
) -> Seq<SegView> {
    let word_seg = SegView { kind: SegmentKind::Word, text: word };
    match separator {
        Some(s) => if s.len() > 0 {
            segs.insert(si + 1, SegView { kind: SegmentKind::Separator, text: s }).insert(
                si + 2,
                word_seg,
            )
        } else {
            segs.insert(si + 1, word_seg)
        },
        None => segs.insert(si + 1, word_seg),
    }
}

/// A single-space separator segment.
pub open spec fn space_sep() -> SegView {
    SegView { kind: SegmentKind::Separator, text: seq![' '] }
}

/// Whether a word begins with punctuation that glues to the preceding
/// word, taking no space before it.
pub open spec fn starts_glued(t: Seq<char>) -> bool {
    t.len() > 0 && (t[0] == '.' || t[0] == ',' || t[0] == ':' || t[0] == ';')
}

/// The effect of whitespace normalisation: separator runs collapse to a
/// single space between words, no space is placed before glued
/// punctuation or before the first word, and leading and trailing
/// whitespace disappears. `pending` records whether separator text was
/// seen since the last word; `leading` whether no word was kept yet.
pub open spec fn normalized_segs(segs: Seq<SegView>, pending: bool, leading: bool) -> Seq<SegView>
    decreases segs.len(),
{
    if segs.len() == 0 {
        Seq::empty()
    } else {
        let first = segs.first();
        if first.kind is Separator {
            normalized_segs(segs.drop_first(), true, leading)
        } else {
            let rest = normalized_segs(segs.drop_first(), false, false);
            if pending && !leading && !starts_glued(first.text) {
                seq![space_sep(), first] + rest
            } else {
                seq![first] + rest
            }
        }
    }
}

/// Whether `t` is one or more whole repetitions of `tok`.
pub open spec fn is_token_run(t: Seq<char>, tok: Seq<char>) -> bool {
    t.len() > 0 && tok.len() > 0 && t.len() % tok.len() == 0 && forall|k: int|
        0 <= k < t.len() ==> t[k] == tok[k % tok.len() as int]
}

/// Whether the run that starts at `segs[0]` continues across a
/// separator into another token-run word.
pub open spec fn run_continues(segs: Seq<SegView>, tok: Seq<char>) -> bool {
    segs.len() >= 3 && segs[1].kind is Separator && segs[2].kind is Word && is_token_run(
        segs[2].text,
        tok,
    )
}

/// The text of the merged word: the texts of the run's words, joined.
pub open spec fn run_text(segs: Seq<SegView>, tok: Seq<char>) -> Seq<char>
    decreases segs.len(),
{
    if segs.len() == 0 {
        Seq::empty()
    } else if run_continues(segs, tok) {
        segs[0].text + run_text(segs.skip(2), tok)
    } else {
        segs[0].text
    }
}

/// What remains of the run's text after its first word.
pub open spec fn run_rest(segs: Seq<SegView>, tok: Seq<char>) -> Seq<char> {
    if run_continues(segs, tok) {
        run_text(segs.skip(2), tok)
    } else {
        Seq::empty()
    }
}

/// How many segments the run spans: the first word, then one
/// separator/word pair per continuation.
pub open spec fn run_extent(segs: Seq<SegView>, tok: Seq<char>) -> int
    decreases segs.len(),
{
    if run_continues(segs, tok) {
        2 + run_extent(segs.skip(2), tok)
    } else {
        1
    }
}

/// The run always spans at least one and at most all segments.
pub proof fn lemma_run_extent_bounds(segs: Seq<SegView>, tok: Seq<char>)
    requires
        segs.len() >= 1,
    ensures
        1 <= run_extent(segs, tok) <= segs.len(),
    decreases segs.len(),
{
    if run_continues(segs, tok) {
        lemma_run_extent_bounds(segs.skip(2), tok);
    }
}

/// The run's text always begins with the first word's text.
pub proof fn lemma_run_text_head(segs: Seq<SegView>, tok: Seq<char>)
    requires
        segs.len() >= 1,
    ensures
        run_text(segs, tok) == segs[0].text + run_rest(segs, tok),
{
    if !run_continues(segs, tok) {
        assert(segs[0].text + run_rest(segs, tok) =~= segs[0].text);
    }
}

/// A run's joined text occupies at most the bytes of the segments it
/// spans.
pub proof fn lemma_run_text_bytes(segs: Seq<SegView>, tok: Seq<char>)
    requires
        segs.len() >= 1,
    ensures
        byte_len(run_text(segs, tok)) <= bytes_before(segs, run_extent(segs, tok)),
    decreases segs.len(),
{
    reveal(byte_len);
    assert(bytes_before(segs, 0) == 0);
    assert(bytes_before(segs, 1) == byte_len(segs[0].text));
    if run_continues(segs, tok) {
        lemma_run_text_bytes(segs.skip(2), tok);
        lemma_encode_concat(segs[0].text, run_text(segs.skip(2), tok));
        assert(byte_len(run_text(segs, tok)) == byte_len(segs[0].text) + byte_len(
            run_text(segs.skip(2), tok),
        ));
        lemma_run_extent_bounds(segs.skip(2), tok);
        let e2 = run_extent(segs.skip(2), tok);
        lemma_bytes_before_skip(segs, 2, e2);
        assert(bytes_before(segs, 2) == bytes_before(segs, 1) + byte_len(segs[1].text));
        lemma_byte_len_nonneg(segs[1].text);
        assert(run_extent(segs, tok) == 2 + e2);
        assert(byte_len(run_text(segs.skip(2), tok)) <= bytes_before(segs, 2 + e2)
            - bytes_before(segs, 2));
    } else {
        lemma_byte_len_nonneg(segs[0].text);
        assert(run_text(segs, tok) == segs[0].text);
        assert(run_extent(segs, tok) == 1);
    }
}

/// Byte prefix sums over a shifted view.
pub proof fn lemma_bytes_before_skip(segs: Seq<SegView>, off: int, i: int)
    requires
        0 <= off,
        0 <= i,
        off + i <= segs.len(),
    ensures
        bytes_before(segs.skip(off), i) == bytes_before(segs, off + i) - bytes_before(segs, off),
    decreases i,
{
    if i > 0 {
        lemma_bytes_before_skip(segs, off, i - 1);
        assert(segs.skip(off)[i - 1] == segs[off + i - 1]);
    }
}

/// Merging repeated-token runs never grows the buffer.
pub proof fn lemma_merged_segs_bytes(segs: Seq<SegView>, tok: Seq<char>)
    ensures
        bytes_before(merged_segs(segs, tok), merged_segs(segs, tok).len() as int) <= bytes_before(
            segs,
            segs.len() as int,
        ),
    decreases segs.len(),
{
    reveal(byte_len);
    if segs.len() == 0 {
    } else if segs[0].kind is Word && is_token_run(segs[0].text, tok) {
        lemma_run_extent_bounds(segs, tok);
        let ext = run_extent(segs, tok);
        lemma_merged_segs_bytes(segs.skip(ext), tok);
        lemma_run_text_bytes(segs, tok);
        let m = merged_segs(segs, tok);
        let head = seq![SegView { kind: SegmentKind::Word, text: run_text(segs, tok) }];
        let rest = merged_segs(segs.skip(ext), tok);
        assert(m == head + rest);
        lemma_bytes_before_concat(head, rest);
        assert(bytes_before(head, 0) == 0);
        assert(bytes_before(head, 1) == byte_len(run_text(segs, tok)));
        lemma_bytes_before_skip_total(segs, ext);
        assert(bytes_before(rest, rest.len() as int) <= bytes_before(segs, segs.len() as int)
            - bytes_before(segs, ext));
        lemma_bytes_before_mono(segs, ext, segs.len() as int);
        assert(byte_len(run_text(segs, tok)) <= bytes_before(segs, ext));
    } else {
        lemma_merged_segs_bytes(segs.drop_first(), tok);
        let m = merged_segs(segs, tok);
        let head = seq![segs[0]];
        let rest = merged_segs(segs.drop_first(), tok);
        assert(m == head + rest);
        lemma_bytes_before_concat(head, rest);
        assert(bytes_before(head, 0) == 0);
        assert(bytes_before(head, 1) == byte_len(segs[0].text));
        lemma_bytes_before_skip_total(segs, 1);
        assert(segs.skip(1) =~= segs.drop_first());
        assert(bytes_before(segs, 0) == 0);
        assert(bytes_before(segs, 1) == byte_len(segs[0].text));
        lemma_bytes_before_mono(segs, 1, segs.len() as int);
    }
}

/// The bytes of a whole shifted view.
pub proof fn lemma_bytes_before_skip_total(segs: Seq<SegView>, off: int)
    requires
        0 <= off <= segs.len(),
    ensures
        bytes_before(segs.skip(off), segs.len() - off) == bytes_before(segs, segs.len() as int)
            - bytes_before(segs, off),
{
    lemma_bytes_before_skip(segs, off, segs.len() - off);
}

/// Byte prefix sums split over a concatenation.
pub proof fn lemma_bytes_before_concat(a: Seq<SegView>, b: Seq<SegView>)
    ensures
        bytes_before(a + b, (a + b).len() as int) == bytes_before(a, a.len() as int)
            + bytes_before(b, b.len() as int),
    decreases b.len(),
{
    if b.len() == 0 {
        assert(a + b =~= a);
    } else {
        assert((a + b.drop_last()) =~= (a + b).drop_last());
        lemma_bytes_before_concat(a, b.drop_last());
        assert((a + b)[(a + b).len() - 1] == b.last());
        assert(bytes_before(a + b, (a + b).len() as int) == bytes_before(
            (a + b),
            (a + b).len() - 1,
        ) + byte_len(b.last().text));
        lemma_bytes_before_prefix_agree(a + b, (a + b).drop_last(), (a + b).len() - 1);
        assert(bytes_before(b, b.len() as int) == bytes_before(b, b.len() - 1) + byte_len(
            b.last().text,
        ));
        lemma_bytes_before_prefix_agree(b, b.drop_last(), b.len() - 1);
    }
}

/// The effect of merging adjacent repeated-token words: each maximal
/// run of token-run words joined only by separators collapses into one
/// word holding the runs' texts end to end.
pub open spec fn merged_segs(segs: Seq<SegView>, tok: Seq<char>) -> Seq<SegView>
    decreases segs.len(),
{
    if segs.len() == 0 {
        segs
    } else if segs[0].kind is Word && is_token_run(segs[0].text, tok) {
        proof {
            lemma_run_extent_bounds(segs, tok);
        }
        seq![SegView { kind: SegmentKind::Word, text: run_text(segs, tok) }] + merged_segs(
            segs.skip(run_extent(segs, tok)),
            tok,
        )
    } else {
        seq![segs[0]] + merged_segs(segs.drop_first(), tok)
    }
}

/// The total byte length of a batch of replacement texts.
pub open spec fn repl_bytes(rs: Seq<(usize, Seq<char>)>) -> int
    decreases rs.len(),
{
    if rs.len() == 0 {
        0
    } else {
        byte_len(rs.first().1) + repl_bytes(rs.drop_first())
    }
}

/// `tok` repeated `n` times.
pub open spec fn repeat_seq(tok: Seq<char>, n: int) -> Seq<char>
    decreases n,
{
    if n <= 0 {
        Seq::empty()
    } else {
        repeat_seq(tok, n - 1) + tok
    }
}

/// The whole text read head-first: the first segment's text, then the
/// rest.
pub proof fn lemma_text_of_head(segs: Seq<SegView>)
    requires
        segs.len() > 0,
    ensures
        text_of(segs) == segs[0].text + text_of(segs.drop_first()),
    decreases segs.len(),
{
    if segs.len() == 1 {
        assert(segs.drop_last() =~= Seq::<SegView>::empty());
        assert(segs.drop_first() =~= Seq::<SegView>::empty());
        assert(segs[0].text + text_of(segs.drop_first()) =~= segs[0].text);
    } else {
        lemma_text_of_head(segs.drop_last());
        assert(segs.drop_last()[0] == segs[0]);
        assert(segs.drop_last().drop_first() =~= segs.drop_first().drop_last());
        assert(segs.drop_first().last() == segs.last());
        assert(segs[0].text + (text_of(segs.drop_first().drop_last()) + segs.last().text) =~= (
        segs[0].text + text_of(segs.drop_first().drop_last())) + segs.last().text);
    }
}

pub proof fn lemma_text_of_push(segs: Seq<SegView>, s: SegView)
    ensures
        text_of(segs.push(s)) == text_of(segs) + s.text,
{
    assert(segs.push(s).drop_last() =~= segs);
    assert(segs.push(s).last() == s);
}

/// Encoding a concatenation concatenates the encodings.
pub proof fn lemma_encode_concat(a: Seq<char>, b: Seq<char>)
    ensures
        encode_utf8(a + b) == encode_utf8(a) + encode_utf8(b),
    decreases a.len(),
{
    if a.len() == 0 {
        assert(a + b =~= b);
        assert(encode_utf8(a) + encode_utf8(b) =~= encode_utf8(b));
    } else {
        assert((a + b).len() > 0);
        assert((a + b)[0] == a[0]);
        assert((a + b).drop_first() =~= a.drop_first() + b);
        lemma_encode_concat(a.drop_first(), b);
        assert(encode_utf8(a + b) =~= encode_utf8(a) + encode_utf8(b));
    }
}

/// Each character encodes to at least one byte.
pub proof fn lemma_byte_len_ge_char_len(s: Seq<char>)
    ensures
        byte_len(s) >= s.len(),
    decreases s.len(),
{
    reveal(byte_len);
    if s.len() > 0 {
        lemma_byte_len_ge_char_len(s.drop_first());
    }
}

/// `chars_before` is monotone in the prefix length.
pub proof fn lemma_chars_before_mono(segs: Seq<SegView>, i: int, j: int)
    requires
        0 <= i <= j,
    ensures
        chars_before(segs, i) <= chars_before(segs, j),
    decreases j - i,
{
    if i < j {
        lemma_chars_before_mono(segs, i, j - 1);
    }
}

/// `bytes_before` is monotone in the prefix length.
pub proof fn lemma_bytes_before_mono(segs: Seq<SegView>, i: int, j: int)
    requires
        0 <= i <= j,
    ensures
        bytes_before(segs, i) <= bytes_before(segs, j),
    decreases j - i,
{
    reveal(byte_len);
    if i < j {
        lemma_bytes_before_mono(segs, i, j - 1);
    }
}

/// The character count of the whole text equals the last character cursor.
pub proof fn lemma_chars_before_is_text_len(segs: Seq<SegView>)
    ensures
        chars_before(segs, segs.len() as int) == text_of(segs).len(),
    decreases segs.len(),
{
    if segs.len() > 0 {
        lemma_chars_before_is_text_len(segs.drop_last());
        assert(chars_before(segs, segs.len() - 1) == chars_before(segs.drop_last(), segs.drop_last().len() as int)) by {
            lemma_chars_before_prefix_agree(segs, segs.drop_last(), segs.len() - 1);
        }
    }
}

/// The byte count of the whole text equals the last byte cursor.
pub proof fn lemma_bytes_before_is_byte_len(segs: Seq<SegView>)
    ensures
        bytes_before(segs, segs.len() as int) == byte_len(text_of(segs)),
    decreases segs.len(),
{
    reveal(byte_len);
    if segs.len() == 0 {
        assert(encode_utf8(text_of(segs)).len() == 0);
    } else {
        lemma_bytes_before_is_byte_len(segs.drop_last());
        assert(bytes_before(segs, segs.len() - 1) == bytes_before(segs.drop_last(), segs.drop_last().len() as int)) by {
            lemma_bytes_before_prefix_agree(segs, segs.drop_last(), segs.len() - 1);
        }
        lemma_encode_concat(text_of(segs.drop_last()), segs.last().text);
    }
}

/// `chars_before` only reads the first `i` segments.
pub proof fn lemma_chars_before_prefix_agree(a: Seq<SegView>, b: Seq<SegView>, i: int)
    requires
        0 <= i <= a.len(),
        i <= b.len(),
        forall|j: int| 0 <= j < i ==> a[j] == b[j],
    ensures
        chars_before(a, i) == chars_before(b, i),
    decreases i,
{
    if i > 0 {
        lemma_chars_before_prefix_agree(a, b, i - 1);
    }
}

/// `bytes_before` only reads the first `i` segments.
pub proof fn lemma_bytes_before_prefix_agree(a: Seq<SegView>, b: Seq<SegView>, i: int)
    requires
        0 <= i <= a.len(),
        i <= b.len(),
        forall|j: int| 0 <= j < i ==> a[j] == b[j],
    ensures
        bytes_before(a, i) == bytes_before(b, i),
    decreases i,
{
    if i > 0 {
        lemma_bytes_before_prefix_agree(a, b, i - 1);
    }
}

/// `word_indices` lists, strictly in order, exactly the indices of the
/// word segments.
pub proof fn lemma_word_indices_props(segs: Seq<SegView>)
    ensures
        forall|j: int|
            0 <= j < word_indices(segs).len() ==> 0 <= #[trigger] word_indices(segs)[j]
                < segs.len() && segs[word_indices(segs)[j]].kind is Word,
        forall|j1: int, j2: int|
            0 <= j1 < j2 < word_indices(segs).len() ==> word_indices(segs)[j1] < word_indices(
                segs,
            )[j2],
        forall|i: int|
            0 <= i < segs.len() && segs[i].kind is Word ==> word_indices(segs).contains(i),
    decreases segs.len(),
{
    if segs.len() > 0 {
        lemma_word_indices_props(segs.drop_last());
        let init = word_indices(segs.drop_last());
        assert(forall|j: int|
            0 <= j < init.len() ==> 0 <= #[trigger] init[j] < segs.len() - 1
                && segs.drop_last()[init[j]].kind is Word);
        assert(forall|j: int| 0 <= j < init.len() ==> segs[#[trigger] init[j]].kind is Word);
        assert forall|i: int|
            0 <= i < segs.len() && segs[i].kind is Word implies word_indices(segs).contains(
            i,
        ) by {
            if i < segs.len() - 1 {
                assert(segs.drop_last()[i].kind is Word);
                assert(init.contains(i));
                let j = choose|j: int| 0 <= j < init.len() && init[j] == i;
                assert(word_indices(segs)[j] == i);
            } else {
                assert(segs.last().kind is Word);
                assert(word_indices(segs).last() == i);
            }
        }
    }
}

/// There are at most as many words as segments.
pub proof fn lemma_word_indices_len(segs: Seq<SegView>)
    ensures
        word_indices(segs).len() <= segs.len(),
    decreases segs.len(),
{
    if segs.len() > 0 {
        lemma_word_indices_len(segs.drop_last());
    }
}

/// `word_indices` depends only on the segment kinds.
pub proof fn lemma_word_indices_same_kinds(a: Seq<SegView>, b: Seq<SegView>)
    requires
        a.len() == b.len(),
        forall|i: int| 0 <= i < a.len() ==> a[i].kind == b[i].kind,
    ensures
        word_indices(a) == word_indices(b),
    decreases a.len(),
{
    if a.len() > 0 {
        lemma_word_indices_same_kinds(a.drop_last(), b.drop_last());
        assert(word_indices(a) =~= word_indices(b));
    }
}

/// Position metadata for one segment: where it sits in the buffer, by
/// character offset and by byte offset.
#[derive(Debug)]
pub struct TextSpan {
    pub segment_index: usize,
    pub kind: SegmentKind,
    pub char_range: Range<usize>,
    pub byte_range: Range<usize>,
}

/// Errors produced by [`TextBuffer`] mutation helpers.
#[derive(Debug, Clone, Copy, PartialEq, Eq, Structural)]
pub enum TextBufferError {
    InvalidWordIndex { index: usize },
    InvalidCharRange { start: usize, end: usize, max: usize },
}

impl TextBufferError {
    /// A human-readable description of the error.
    pub fn describe(&self) -> String {
        match self {
            TextBufferError::InvalidWordIndex { .. } => {
                let mut message = String::new();
                message.append("invalid word index");
                message
            },
            TextBufferError::InvalidCharRange { .. } => {
                let mut message = String::new();
                message.append("invalid character range; out of buffer bounds");
                message
            },
        }
    }
}

/// The kind a run of characters tokenises to.
pub open spec fn kind_of_run(space: bool) -> SegmentKind {
    if space {
        SegmentKind::Separator
    } else {
        SegmentKind::Word
    }
}

/// One token of a tokenisation: non-empty; a separator is a run of
/// whitespace and nothing else, a word a run of non-whitespace and
/// nothing else. Together with the alternation of kinds this pins the
/// split of a text uniquely.
#[verifier::opaque]
pub open spec fn token_ok(s: SegView) -> bool {
    s.text.len() > 0 && (if s.kind is Separator {
        is_space_seq(s.text)
    } else {
        forall|i: int| 0 <= i < s.text.len() ==> !is_space_char(#[trigger] s.text[i])
    })
}

/// What it means for a segment sequence to be a tokenisation: every
/// token is sound and adjacent segments alternate in kind (so runs are
/// maximal).
pub open spec fn well_tokenised(segs: Seq<SegView>) -> bool {
    &&& forall|i: int| 0 <= i < segs.len() ==> token_ok(#[trigger] segs[i])
    &&& forall|i: int| 0 <= i < segs.len() - 1 ==> (#[trigger] segs[i]).kind != segs[i + 1].kind
}

/// Every token of an extended tokenisation is still sound.
#[verifier::rlimit(100)]
#[verifier::spinoff_prover]
proof fn lemma_token_ok_push(views: Seq<SegView>, s: SegView)
    requires
        forall|i: int| 0 <= i < views.len() ==> token_ok(#[trigger] views[i]),
        token_ok(s),
    ensures
        forall|i: int| 0 <= i < views.push(s).len() ==> token_ok(#[trigger] views.push(s)[i]),
{
    let pushed = views.push(s);
    assert forall|i: int| 0 <= i < pushed.len() implies token_ok(#[trigger] pushed[i]) by {
        if i < views.len() {
            assert(pushed[i] == views[i]);
        } else {
            assert(pushed[i] == s);
        }
    }
}

/// Kinds still alternate after pushing a run of the other kind.
#[verifier::rlimit(100)]
#[verifier::spinoff_prover]
proof fn lemma_alternation_push(views: Seq<SegView>, s: SegView)
    requires
        forall|i: int| 0 <= i < views.len() - 1 ==> (#[trigger] views[i]).kind != views[i + 1].kind,
        views.len() > 0 ==> views.last().kind != s.kind,
    ensures
        forall|i: int|
            0 <= i < views.push(s).len() - 1 ==> (#[trigger] views.push(s)[i]).kind != views.push(
                s,
            )[i + 1].kind,
{
    let pushed = views.push(s);
    assert forall|i: int| 0 <= i < pushed.len() - 1 implies (#[trigger] pushed[i]).kind != pushed[
        i + 1
    ].kind by {
        if i + 1 < views.len() {
            assert(pushed[i] == views[i] && pushed[i + 1] == views[i + 1]);
        } else {
            assert(pushed[i] == views.last() && pushed[i + 1] == s);
        }
    }
}

/// Extending a tokenisation with one maximal run keeps it a tokenisation.
#[verifier::rlimit(100)]
#[verifier::spinoff_prover]
proof fn lemma_well_tokenised_push(views: Seq<SegView>, s: SegView)
    requires
        well_tokenised(views),
        token_ok(s),
        views.len() > 0 ==> views.last().kind != s.kind,
    ensures
        well_tokenised(views.push(s)),
{
    lemma_token_ok_push(views, s);
    lemma_alternation_push(views, s);
}

/// Appends the run `text[start..end)` as one segment.
#[verifier::rlimit(100)]
#[verifier::spinoff_prover]
fn push_token(segs: &mut Vec<TextSegment>, text: &str, start: usize, end: usize, run_space: bool)
    requires
        start < end <= text@.len(),
        forall|k: int| start <= k < end ==> is_space_char(#[trigger] text@[k]) == run_space,
        well_tokenised(old(segs)@.map_values(|s: TextSegment| s@)),
        old(segs)@.len() > 0 ==> old(segs)@.map_values(|s: TextSegment| s@).last().kind
            != kind_of_run(run_space),
        text_of(old(segs)@.map_values(|s: TextSegment| s@)) == text@.take(start as int),
    ensures
        final(segs)@.len() == old(segs)@.len() + 1,
        well_tokenised(final(segs)@.map_values(|s: TextSegment| s@)),
        final(segs)@.map_values(|s: TextSegment| s@).last().kind == kind_of_run(run_space),
        text_of(final(segs)@.map_values(|s: TextSegment| s@)) == text@.take(end as int),
{
    let ghost old_views = segs@.map_values(|s: TextSegment| s@);
    let kind = if run_space {
        SegmentKind::Separator
    } else {
        SegmentKind::Word
    };
    let token: String = text.substring_char(start, end).to_owned();
    let seg = TextSegment::new(token, kind);
    proof {
        assert(seg@.text =~= text@.subrange(start as int, end as int));
        assert(seg@.text.len() > 0);
        assert forall|k: int| 0 <= k < seg@.text.len() implies is_space_char(
            #[trigger] seg@.text[k],
        ) == run_space by {
            assert(seg@.text[k] == text@[start + k]);
        }
        assert(seg@.kind == kind_of_run(run_space));
        assert(token_ok(seg@)) by {
            reveal(token_ok);
        }
        lemma_well_tokenised_push(old_views, seg@);
        lemma_text_of_push(old_views, seg@);
    }
    segs.push(seg);
    proof {
        let new_views = segs@.map_values(|s: TextSegment| s@);
        assert(new_views =~= old_views.push(seg@));
        assert(text@.take(start as int) + text@.subrange(start as int, end as int) =~= text@.take(
            end as int,
        ));
    }
}

/// Splits text into maximal runs of whitespace and non-whitespace.
#[verifier::rlimit(100)]
fn tokenise(text: &str) -> (r: Vec<TextSegment>)
    ensures
        text_of(r@.map_values(|s: TextSegment| s@)) == text@,
        well_tokenised(r@.map_values(|s: TextSegment| s@)),
{
    let n: usize = text.unicode_len();
    let mut segs: Vec<TextSegment> = Vec::new();
    let mut start: usize = 0;
    let mut i: usize = 0;
    let mut run_space: bool = false;
    while i < n
        invariant
            0 <= start <= i <= n,
            n == text@.len(),
            text_of(segs@.map_values(|s: TextSegment| s@)) == text@.take(start as int),
            well_tokenised(segs@.map_values(|s: TextSegment| s@)),
            start == i ==> i == 0 && segs@.len() == 0,
            start < i ==> forall|k: int|
                start <= k < i ==> is_space_char(#[trigger] text@[k]) == run_space,
            start < i && segs@.len() > 0 ==> segs@.map_values(|s: TextSegment| s@).last().kind
                != kind_of_run(run_space),
        decreases n - i,
    {
        let c: char = text.get_char(i);
        let sp: bool = space_char(c);
        if i == start {
            run_space = sp;
        } else if sp != run_space {
            push_token(&mut segs, text, start, i, run_space);
            start = i;
            run_space = sp;
        }
        i = i + 1;
    }
    if start < n {
        push_token(&mut segs, text, start, n, run_space);
        proof {
            assert(text@.take(n as int) =~= text@);
        }
    } else {
        proof {
            assert(text@.take(start as int) =~= text@);
        }
    }
    segs
}

/// Tokenised text with derived per-segment metadata, kept consistent
/// through every mutation so corruption steps can address words and
/// characters without re-tokenising after each edit.
pub struct TextBuffer {
    segments: Vec<TextSegment>,
    spans: Vec<TextSpan>,
    word_segment_indices: Vec<usize>,
    total_chars: usize,
    total_bytes: usize,
}

impl TextBuffer {
    /// The abstract segment sequence.
    pub closed spec fn segs(&self) -> Seq<SegView> {
        self.segments@.map_values(|s: TextSegment| s@)
    }

    /// The buffer's whole text.
    pub open spec fn text(&self) -> Seq<char> {
        text_of(self.segs())
    }

    /// The recorded spans, for stating metadata properties.
    pub closed spec fn spans_seq(&self) -> Seq<TextSpan> {
        self.spans@
    }

    /// The abstract word-index to segment-index mapping.
    pub open spec fn spec_word_count(&self) -> int {
        word_indices(self.segs()).len() as int
    }

    /// The segment index that word `w` resolves to.
    pub open spec fn word_seg(&self, w: int) -> int {
        word_indices(self.segs())[w]
    }

    /// Well-formedness: the derived metadata matches the segments.
    pub closed spec fn wf(&self) -> bool {
        &&& self.spans@.len() == self.segments@.len()
        &&& forall|i: int|
            0 <= i < self.spans@.len() ==> (#[trigger] self.spans@[i]).segment_index == i
                && self.spans@[i].kind == self.segs()[i].kind
                && self.spans@[i].char_range.start == chars_before(self.segs(), i)
                && self.spans@[i].char_range.end == chars_before(self.segs(), i + 1)
                && self.spans@[i].byte_range.start == bytes_before(self.segs(), i)
                && self.spans@[i].byte_range.end == bytes_before(self.segs(), i + 1)
        &&& self.word_segment_indices@.map_values(|x: usize| x as int) == word_indices(self.segs())
        &&& self.total_chars == chars_before(self.segs(), self.segs().len() as int)
        &&& self.total_bytes == bytes_before(self.segs(), self.segs().len() as int)
    }

    /// Recomputes spans, word indices and totals from the segments.
    fn reindex(&mut self)
        requires
            fits_usize(old(self).segs()),
        ensures
            final(self).segments@ == old(self).segments@,
            final(self).wf(),
    {
        self.spans.clear();
        self.word_segment_indices.clear();
        let mut char_cursor: usize = 0;
        let mut byte_cursor: usize = 0;
        let mut i: usize = 0;
        let n: usize = self.segments.len();
        proof {
            lemma_byte_len_ge_char_len_all(self.segs());
        }
        while i < n
            invariant
                n == self.segments@.len(),
                self.segments@ == old(self).segments@,
                i <= n,
                fits_usize(self.segs()),
                forall|k: int|
                    0 <= k < self.segs().len() ==> byte_len((#[trigger] self.segs()[k]).text)
                        >= self.segs()[k].text.len(),
                self.spans@.len() == i as int,
                forall|k: int|
                    0 <= k < i ==> (#[trigger] self.spans@[k]).segment_index == k
                        && self.spans@[k].kind == self.segs()[k].kind
                        && self.spans@[k].char_range.start == chars_before(self.segs(), k)
                        && self.spans@[k].char_range.end == chars_before(self.segs(), k + 1)
                        && self.spans@[k].byte_range.start == bytes_before(self.segs(), k)
                        && self.spans@[k].byte_range.end == bytes_before(self.segs(), k + 1),
                self.word_segment_indices@.map_values(|x: usize| x as int) == word_indices(
                    self.segs().take(i as int),
                ),
                char_cursor == chars_before(self.segs(), i as int),
                byte_cursor == bytes_before(self.segs(), i as int),
            decreases n - i,
        {
            let ghost segs = self.segs();
            let char_len: usize = self.segments[i].text.as_str().unicode_len();
            let byte_len_e: usize = self.segments[i].text.as_str().len();
            let kind = self.segments[i].kind;
            proof {
                assert(segs[i as int] == self.segments@[i as int]@);
                assert(char_len == segs[i as int].text.len());
                reveal(byte_len);
                lemma_bytes_before_mono(segs, i + 1, segs.len() as int);
                assert(bytes_before(segs, i + 1) == bytes_before(segs, i as int) + byte_len(
                    segs[i as int].text,
                ));
                assert(byte_len(segs[i as int].text) <= usize::MAX);
                assert(byte_len_e == byte_len(segs[i as int].text));
                lemma_chars_bounded_by_bytes(segs, i + 1);
                assert(bytes_before(segs, i + 1) == byte_cursor + byte_len_e);
                assert(chars_before(segs, i + 1) == char_cursor + char_len);
            }
            let span = TextSpan {
                segment_index: i,
                kind,
                char_range: char_cursor..(char_cursor + char_len),
                byte_range: byte_cursor..(byte_cursor + byte_len_e),
            };
            self.spans.push(span);
            if matches!(kind, SegmentKind::Word) {
                self.word_segment_indices.push(i);
            }
            proof {
                let t = self.segs().take(i + 1);
                assert(t.drop_last() =~= self.segs().take(i as int));
                assert(t.last() == self.segs()[i as int]);
                assert(self.word_segment_indices@.map_values(|x: usize| x as int)
                    =~= word_indices(t));
            }
            char_cursor = char_cursor + char_len;
            byte_cursor = byte_cursor + byte_len_e;
            i = i + 1;
        }
        proof {
            assert(self.segs().take(n as int) =~= self.segs());
        }
        self.total_chars = char_cursor;
        self.total_bytes = byte_cursor;
    }
}

impl TextBuffer {
    /// Constructs a buffer from an owned `String`. The buffer's text is
    /// exactly the input, tokenised into maximal word and separator runs.
    pub fn from_owned(text: String) -> (r: Self)
        requires
            byte_len(text@) <= usize::MAX,
        ensures
            r.wf(),
            r.text() == text@,
            well_tokenised(r.segs()),
    {
        let segments = tokenise(text.as_str());
        let mut buffer = TextBuffer {
            segments,
            spans: Vec::new(),
            word_segment_indices: Vec::new(),
            total_chars: 0,
            total_bytes: 0,
        };
        proof {
            lemma_bytes_before_is_byte_len(buffer.segs());
        }
        buffer.reindex();
        buffer
    }

    /// Constructs a buffer from a borrowed `&str`.
    #[verifier::rlimit(100)]
    pub fn from_str(text: &str) -> (r: Self)
        requires
            byte_len(text@) <= usize::MAX,
        ensures
            r.wf(),
            r.text() == text@,
            well_tokenised(r.segs()),
    {
        TextBuffer::from_owned(text.to_owned())
    }

    /// Returns all tracked segments.
    pub fn segments(&self) -> (r: &[TextSegment])
        ensures
            r@.len() == self.segs().len(),
            forall|i: int| 0 <= i < r@.len() ==> #[trigger] r@[i]@ == self.segs()[i],
    {
        let slice: &[TextSegment] = self.segments.as_slice();
        proof {
            assert(forall|i: int|
                0 <= i < slice@.len() ==> #[trigger] slice@[i]@ == self.segs()[i]);
        }
        slice
    }

    /// Returns metadata spans describing segment positions.
    pub fn spans(&self) -> (r: &[TextSpan])
        ensures
            r@ == self.spans_seq(),
    {
        self.spans.as_slice()
    }

    /// Returns the number of UTF-8 bytes across the entire buffer.
    pub fn byte_count(&self) -> (r: usize)
        requires
            self.wf(),
        ensures
            r == self.spec_bytes(),
    {
        self.total_bytes
    }

    /// Returns the number of segments tracked by the buffer.
    pub fn seg_count(&self) -> (r: usize)
        ensures
            r == self.segs().len(),
    {
        self.segments.len()
    }

    /// Returns the number of characters across the entire buffer.
    pub fn char_len(&self) -> (r: usize)
        requires
            self.wf(),
        ensures
            r == self.text().len(),
    {
        proof {
            lemma_chars_before_is_text_len(self.segs());
        }
        self.total_chars
    }

    /// Returns the number of word segments tracked by the buffer.
    pub fn word_count(&self) -> (r: usize)
        requires
            self.wf(),
        ensures
            r == self.spec_word_count(),
    {
        self.word_segment_indices.len()
    }

    /// Returns the segment corresponding to the requested word index.
    pub fn word_segment(&self, word_index: usize) -> (r: Option<&TextSegment>)
        requires
            self.wf(),
        ensures
            word_index < self.spec_word_count() ==> (r matches Some(s) && s@ == self.segs()[
                self.word_seg(word_index as int)
            ] && s@.kind is Word),
            word_index >= self.spec_word_count() ==> r is None,
    {
        proof {
            lemma_word_indices_props(self.segs());
        }
        if word_index < self.word_segment_indices.len() {
            let seg_index: usize = self.word_segment_indices[word_index];
            proof {
                assert(self.word_segment_indices@.map_values(|x: usize| x as int)[
                    word_index as int
                ] == seg_index as int);
            }
            Some(&self.segments[seg_index])
        } else {
            None
        }
    }

    /// Returns every segment paired with its index and, for word
    /// segments, the word index it answers to.
    pub fn segments_with_word_indices(&self) -> (r: Vec<(usize, TextSegment, Option<usize>)>)
        requires
            self.wf(),
        ensures
            r@.len() == self.segs().len(),
            forall|i: int|
                0 <= i < r@.len() ==> (#[trigger] r@[i]).0 == i && r@[i].1@ == self.segs()[i]
                    && r@[i].2 == (if self.segs()[i].kind is Word {
                    Some(word_indices(self.segs().take(i)).len() as usize)
                } else {
                    None::<usize>
                }),
    {
        let mut out: Vec<(usize, TextSegment, Option<usize>)> = Vec::new();
        let mut words_seen: usize = 0;
        let mut i: usize = 0;
        let n: usize = self.segments.len();
        while i < n
            invariant
                self.wf(),
                n == self.segs().len(),
                i <= n,
                out@.len() == i as int,
                words_seen == word_indices(self.segs().take(i as int)).len(),
                forall|k: int|
                    0 <= k < i ==> (#[trigger] out@[k]).0 == k && out@[k].1@ == self.segs()[k]
                        && out@[k].2 == (if self.segs()[k].kind is Word {
                        Some(word_indices(self.segs().take(k)).len() as usize)
                    } else {
                        None::<usize>
                    }),
            decreases n - i,
        {
            let seg = self.segments[i].clone();
            let ghost t = self.segs().take(i + 1);
            proof {
                assert(t.drop_last() =~= self.segs().take(i as int));
                assert(t.last() == self.segs()[i as int]);
                lemma_word_indices_len(self.segs().take(i as int));
                assert(word_indices(self.segs().take(i as int)).len() <= i as int);
            }
            if matches!(seg.kind(), SegmentKind::Word) {
                out.push((i, seg, Some(words_seen)));
                words_seen = words_seen + 1;
            } else {
                out.push((i, seg, None));
            }
            i = i + 1;
        }
        proof {
            assert(self.segs().take(n as int) =~= self.segs());
        }
        out
    }

    /// Returns the full text represented by the buffer.
    pub fn to_string(&self) -> (r: String)
        ensures
            r@ == self.text(),
    {
        let mut out = String::new();
        let mut i: usize = 0;
        let n: usize = self.segments.len();
        while i < n
            invariant
                n == self.segs().len(),
                i <= n,
                out@ == text_of(self.segs().take(i as int)),
            decreases n - i,
        {
            let ghost t = self.segs().take(i + 1);
            proof {
                assert(t.drop_last() =~= self.segs().take(i as int));
                assert(t.last() == self.segs()[i as int]);
            }
            out.append(self.segments[i].text.as_str());
            i = i + 1;
        }
        proof {
            assert(self.segs().take(n as int) =~= self.segs());
        }
        out
    }

    /// The recorded spans tile the buffer: they are contiguous, start at
    /// zero, and together cover exactly the character and byte extent of
    /// the buffer's text.
    pub proof fn lemma_spans_partition(&self)
        requires
            self.wf(),
        ensures
            self.spans_seq().len() == self.segs().len(),
            forall|i: int|
                0 <= i < self.spans_seq().len() ==> (#[trigger] self.spans_seq()[i]).char_range.start
                    == (if i == 0 {
                    0
                } else {
                    self.spans_seq()[i - 1].char_range.end as int
                }) && self.spans_seq()[i].char_range.start <= self.spans_seq()[i].char_range.end,
            forall|i: int|
                0 <= i < self.spans_seq().len() ==> (#[trigger] self.spans_seq()[i]).byte_range.start
                    == (if i == 0 {
                    0
                } else {
                    self.spans_seq()[i - 1].byte_range.end as int
                }) && self.spans_seq()[i].byte_range.start <= self.spans_seq()[i].byte_range.end,
            self.spans_seq().len() > 0 ==> self.spans_seq().last().char_range.end == self.text().len(),
            self.spans_seq().len() > 0 ==> self.spans_seq().last().byte_range.end == byte_len(
                self.text(),
            ),
    {
        lemma_chars_before_is_text_len(self.segs());
        lemma_bytes_before_is_byte_len(self.segs());
        assert forall|i: int|
            0 <= i < self.spans_seq().len() implies (
        #[trigger] self.spans_seq()[i]).char_range.start <= self.spans_seq()[i].char_range.end
            && self.spans_seq()[i].byte_range.start <= self.spans_seq()[i].byte_range.end by {
            lemma_chars_before_mono(self.segs(), i, i + 1);
            lemma_bytes_before_mono(self.segs(), i, i + 1);
        }
    }
}

/// Collects the characters of a string slice.
fn str_chars(s: &str) -> (r: Vec<char>)
    ensures
        r@ == s@,
{
    let n: usize = s.unicode_len();
    let mut out: Vec<char> = Vec::new();
    let mut i: usize = 0;
    while i < n
        invariant
            n == s@.len(),
            i <= n,
            out@ == s@.take(i as int),
        decreases n - i,
    {
        out.push(s.get_char(i));
        proof {
            assert(out@ =~= s@.take(i as int + 1));
        }
        i = i + 1;
    }
    proof {
        assert(s@.take(n as int) =~= s@);
    }
    out
}

/// Executable check for [`is_token_run`].
fn token_run(text: &str, tok: &Vec<char>) -> (r: bool)
    requires
        tok@.len() > 0,
    ensures
        r == is_token_run(text@, tok@),
{
    let n: usize = text.unicode_len();
    let m: usize = tok.len();
    if n == 0 {
        return false;
    }
    if n % m != 0 {
        return false;
    }
    let mut k: usize = 0;
    while k < n
        invariant
            n == text@.len(),
            m == tok@.len(),
            m > 0,
            k <= n,
            forall|q: int| 0 <= q < k ==> text@[q] == tok@[q % m as int],
        decreases n - k,
    {
        let c: char = text.get_char(k);
        if c != tok[k % m] {
            return false;
        }
        k = k + 1;
    }
    true
}

/// Every segment's byte length is at least its character length.
proof fn lemma_byte_len_ge_char_len_all(segs: Seq<SegView>)
    ensures
        forall|k: int|
            0 <= k < segs.len() ==> byte_len((#[trigger] segs[k]).text) >= segs[k].text.len(),
{
    assert forall|k: int|
        0 <= k < segs.len() implies byte_len((#[trigger] segs[k]).text) >= segs[k].text.len() by {
        lemma_byte_len_ge_char_len(segs[k].text);
    }
}

/// A prefix's character count is bounded by its byte count.
proof fn lemma_chars_bounded_by_bytes(segs: Seq<SegView>, i: int)
    requires
        0 <= i <= segs.len(),
    ensures
        chars_before(segs, i) <= bytes_before(segs, i),
    decreases i,
{
    if i > 0 {
        lemma_chars_bounded_by_bytes(segs, i - 1);
        lemma_byte_len_ge_char_len(segs[i - 1].text);
    }
}

/// The byte total of a sequence extended by one segment.
pub proof fn lemma_bytes_before_push(segs: Seq<SegView>, s: SegView)
    ensures
        bytes_before(segs.push(s), segs.len() as int + 1) == bytes_before(segs, segs.len() as int)
            + byte_len(s.text),
{
    lemma_bytes_before_prefix_agree(segs.push(s), segs, segs.len() as int);
}

/// Removing a segment removes exactly its bytes from the total.
pub proof fn lemma_bytes_before_remove(segs: Seq<SegView>, i: int)
    requires
        0 <= i < segs.len(),
    ensures
        bytes_before(segs.remove(i), segs.len() - 1) == bytes_before(segs, segs.len() as int)
            - byte_len(segs[i].text),
    decreases segs.len(),
{
    if i == segs.len() - 1 {
        assert(segs.remove(i) =~= segs.drop_last());
        lemma_bytes_before_prefix_agree(segs, segs.drop_last(), segs.len() - 1);
    } else {
        lemma_bytes_before_remove(segs.drop_last(), i);
        assert(segs.remove(i) =~= segs.drop_last().remove(i).push(segs.last()));
        lemma_bytes_before_push(segs.drop_last().remove(i), segs.last());
        lemma_bytes_before_prefix_agree(segs, segs.drop_last(), segs.len() - 1);
    }
}

/// Replacing a segment's text replaces exactly its bytes in the total.
pub proof fn lemma_bytes_before_update(segs: Seq<SegView>, i: int, s: SegView)
    requires
        0 <= i < segs.len(),
    ensures
        bytes_before(segs.update(i, s), segs.len() as int) == bytes_before(
            segs,
            segs.len() as int,
        ) - byte_len(segs[i].text) + byte_len(s.text),
    decreases segs.len(),
{
    if i == segs.len() - 1 {
        lemma_bytes_before_prefix_agree(segs.update(i, s), segs, segs.len() - 1);
    } else {
        lemma_bytes_before_update(segs.drop_last(), i, s);
        assert(segs.update(i, s) =~= segs.drop_last().update(i, s).push(segs.last()));
        lemma_bytes_before_push(segs.drop_last().update(i, s), segs.last());
        lemma_bytes_before_prefix_agree(segs, segs.drop_last(), segs.len() - 1);
    }
}

/// A bulk word replacement with distinct word indices acts pointwise:
/// each addressed segment gets its new text, every other segment is
/// untouched.
pub proof fn lemma_apply_word_updates_pointwise(
    segs: Seq<SegView>,
    wi: Seq<int>,
    rs: Seq<(usize, Seq<char>)>,
)
    requires
        forall|k: int| 0 <= k < rs.len() ==> 0 <= (#[trigger] rs[k]).0 < wi.len(),
        forall|k1: int, k2: int| 0 <= k1 < k2 < rs.len() ==> (rs[k1]).0 != (rs[k2]).0,
        forall|j: int| 0 <= j < wi.len() ==> 0 <= #[trigger] wi[j] < segs.len(),
        forall|j1: int, j2: int| 0 <= j1 < j2 < wi.len() ==> wi[j1] != wi[j2],
    ensures
        apply_word_updates(segs, wi, rs).len() == segs.len(),
        forall|k: int|
            0 <= k < rs.len() ==> apply_word_updates(segs, wi, rs)[wi[(#[trigger] rs[k]).0 as int]]
                == (SegView { kind: SegmentKind::Word, text: rs[k].1 }),
        forall|x: int|
            0 <= x < segs.len() && (forall|k: int|
                0 <= k < rs.len() ==> wi[(#[trigger] rs[k]).0 as int] != x) ==> apply_word_updates(
                segs,
                wi,
                rs,
            )[x] == segs[x],
    decreases rs.len(),
{
    if rs.len() > 0 {
        let p = rs.first();
        let stepped = segs.update(wi[p.0 as int], SegView { kind: SegmentKind::Word, text: p.1 });
        lemma_apply_word_updates_pointwise(stepped, wi, rs.drop_first());
        assert forall|k: int| 0 <= k < rs.len() implies apply_word_updates(segs, wi, rs)[wi[(
        #[trigger] rs[k]).0 as int]] == (SegView { kind: SegmentKind::Word, text: rs[k].1 }) by {
            if k == 0 {
                assert forall|k2: int|
                    0 <= k2 < rs.drop_first().len() implies wi[(
                #[trigger] rs.drop_first()[k2]).0 as int] != wi[p.0 as int] by {
                    assert(rs.drop_first()[k2] == rs[k2 + 1]);
                }
                assert(apply_word_updates(stepped, wi, rs.drop_first())[wi[p.0 as int]]
                    == stepped[wi[p.0 as int]]);
                assert(stepped[wi[p.0 as int]] == (SegView {
                    kind: SegmentKind::Word,
                    text: p.1,
                }));
            } else {
                assert(rs.drop_first()[k - 1] == rs[k]);
                assert(apply_word_updates(stepped, wi, rs.drop_first())[wi[(rs.drop_first()[k
                    - 1]).0 as int]] == (SegView {
                    kind: SegmentKind::Word,
                    text: rs.drop_first()[k - 1].1,
                }));
            }
        }
        assert forall|x: int|
            0 <= x < segs.len() && (forall|k: int|
                0 <= k < rs.len() ==> wi[(#[trigger] rs[k]).0 as int]
                    != x) implies apply_word_updates(segs, wi, rs)[x] == segs[x] by {
            assert(wi[(rs[0]).0 as int] != x);
            assert(forall|k2: int|
                0 <= k2 < rs.drop_first().len() ==> wi[(#[trigger] rs.drop_first()[k2]).0 as int]
                    != x) by {
                assert(forall|k2: int|
                    0 <= k2 < rs.drop_first().len() ==> rs.drop_first()[k2] == rs[k2 + 1]);
            }
            assert(stepped[x] == segs[x]);
        }
    }
}

/// A bulk word replacement grows the byte total by at most the bytes of
/// the replacement texts.
pub proof fn lemma_apply_word_updates_bytes(
    segs: Seq<SegView>,
    wi: Seq<int>,
    rs: Seq<(usize, Seq<char>)>,
)
    requires
        forall|k: int| 0 <= k < rs.len() ==> 0 <= (#[trigger] rs[k]).0 < wi.len(),
        forall|j: int| 0 <= j < wi.len() ==> 0 <= #[trigger] wi[j] < segs.len(),
    ensures
        bytes_before(apply_word_updates(segs, wi, rs), segs.len() as int) <= bytes_before(
            segs,
            segs.len() as int,
        ) + repl_bytes(rs),
    decreases rs.len(),
{
    if rs.len() > 0 {
        let p = rs.first();
        let stepped = segs.update(wi[p.0 as int], SegView { kind: SegmentKind::Word, text: p.1 });
        lemma_bytes_before_update(segs, wi[p.0 as int], SegView { kind: SegmentKind::Word, text: p.1 });
        lemma_repl_bytes_nonneg(rs.drop_first());
        lemma_apply_word_updates_bytes(stepped, wi, rs.drop_first());
        lemma_byte_len_nonneg(segs[wi[p.0 as int]].text);
    }
}

/// Byte lengths are never negative.
pub proof fn lemma_byte_len_nonneg(s: Seq<char>)
    ensures
        byte_len(s) >= 0,
{
    reveal(byte_len);
}

/// Appending one replacement adds its bytes to the batch total.
pub proof fn lemma_repl_bytes_push(rs: Seq<(usize, Seq<char>)>, x: (usize, Seq<char>))
    ensures
        repl_bytes(rs.push(x)) == repl_bytes(rs) + byte_len(x.1),
    decreases rs.len(),
{
    if rs.len() == 0 {
        assert(rs.push(x).drop_first() =~= Seq::<(usize, Seq<char>)>::empty());
        assert(rs.push(x).first() == x);
        assert(repl_bytes(Seq::<(usize, Seq<char>)>::empty()) == 0);
        assert(repl_bytes(rs.push(x)) == byte_len(x.1));
    } else {
        assert(rs.push(x).drop_first() =~= rs.drop_first().push(x));
        assert(rs.push(x).first() == rs.first());
        lemma_repl_bytes_push(rs.drop_first(), x);
    }
}

/// Replacement-byte totals are never negative.
pub proof fn lemma_repl_bytes_nonneg(rs: Seq<(usize, Seq<char>)>)
    ensures
        repl_bytes(rs) >= 0,
    decreases rs.len(),
{
    if rs.len() > 0 {
        lemma_repl_bytes_nonneg(rs.drop_first());
        lemma_byte_len_nonneg(rs.first().1);
    }
}

/// A bulk segment replacement grows the byte total by at most the bytes
/// of the replacement texts.
pub proof fn lemma_apply_seg_updates_bytes(segs: Seq<SegView>, rs: Seq<(usize, Seq<char>)>)
    ensures
        apply_seg_updates(segs, rs).len() == segs.len(),
        bytes_before(apply_seg_updates(segs, rs), segs.len() as int) <= bytes_before(
            segs,
            segs.len() as int,
        ) + repl_bytes(rs),
    decreases rs.len(),
{
    if rs.len() > 0 {
        let p = rs.first();
        lemma_repl_bytes_nonneg(rs.drop_first());
        lemma_byte_len_nonneg(rs.first().1);
        if (p.0 as int) < segs.len() {
            let stepped = segs.update(p.0 as int, SegView { kind: segs[p.0 as int].kind, text: p.1 });
            lemma_bytes_before_update(segs, p.0 as int, SegView { kind: segs[p.0 as int].kind, text: p.1 });
            lemma_apply_seg_updates_bytes(stepped, rs.drop_first());
            lemma_byte_len_nonneg(segs[p.0 as int].text);
        } else {
            lemma_apply_seg_updates_bytes(segs, rs.drop_first());
        }
    }
}

impl TextBuffer {
    /// The buffer's total UTF-8 byte count, for machine-limit bounds.
    pub open spec fn spec_bytes(&self) -> int {
        bytes_before(self.segs(), self.segs().len() as int)
    }

    /// Replace the text for the given word index; the segment stays a
    /// word segment. Fails, leaving the buffer untouched, exactly when
    /// the word index is out of range.
    pub fn replace_word(&mut self, word_index: usize, replacement: &str) -> (r: Result<
        (),
        TextBufferError,
    >)
        requires
            old(self).wf(),
            word_index < old(self).spec_word_count() ==> fits_usize(
                old(self).segs().update(
                    old(self).word_seg(word_index as int),
                    SegView { kind: SegmentKind::Word, text: replacement@ },
                ),
            ),
        ensures
            r is Err <==> word_index >= old(self).spec_word_count(),
            r is Err ==> r == Result::<(), TextBufferError>::Err(
                TextBufferError::InvalidWordIndex { index: word_index },
            ) && *final(self) == *old(self),
            r is Ok ==> final(self).wf() && final(self).segs() == old(self).segs().update(
                old(self).word_seg(word_index as int),
                SegView { kind: SegmentKind::Word, text: replacement@ },
            ),
    {
        proof {
            lemma_word_indices_props(self.segs());
        }
        if word_index >= self.word_segment_indices.len() {
            return Err(TextBufferError::InvalidWordIndex { index: word_index });
        }
        let seg_index: usize = self.word_segment_indices[word_index];
        proof {
            assert(self.word_segment_indices@.map_values(|x: usize| x as int)[word_index as int]
                == seg_index as int);
        }
        let seg = TextSegment::new(replacement.to_owned(), SegmentKind::Word);
        self.segments.set(seg_index, seg);
        proof {
            assert(self.segs() =~= old(self).segs().update(
                old(self).word_seg(word_index as int),
                SegView { kind: SegmentKind::Word, text: replacement@ },
            ));
        }
        self.reindex();
        Ok(())
    }

    /// Deletes the word at the requested index, removing its segment.
    /// Fails, leaving the buffer untouched, exactly when the word index
    /// is out of range.
    pub fn delete_word(&mut self, word_index: usize) -> (r: Result<(), TextBufferError>)
        requires
            old(self).wf(),
        ensures
            r is Err <==> word_index >= old(self).spec_word_count(),
            r is Err ==> r == Result::<(), TextBufferError>::Err(
                TextBufferError::InvalidWordIndex { index: word_index },
            ) && *final(self) == *old(self),
            r is Ok ==> final(self).wf() && final(self).segs() == old(self).segs().remove(
                old(self).word_seg(word_index as int),
            ),
    {
        proof {
            lemma_word_indices_props(self.segs());
        }
        if word_index >= self.word_segment_indices.len() {
            return Err(TextBufferError::InvalidWordIndex { index: word_index });
        }
        let seg_index: usize = self.word_segment_indices[word_index];
        proof {
            assert(self.word_segment_indices@.map_values(|x: usize| x as int)[word_index as int]
                == seg_index as int);
            assert(seg_index as int == self.word_seg(word_index as int));
            assert((seg_index as int) < self.segs().len());
            lemma_bytes_before_remove(self.segs(), seg_index as int);
            lemma_byte_len_nonneg(self.segs()[seg_index as int].text);
        }
        self.segments.remove(seg_index);
        proof {
            assert(self.segs() =~= old(self).segs().remove(
                old(self).word_seg(word_index as int),
            ));
        }
        self.reindex();
        Ok(())
    }

    /// Replace several words in one pass; the derived metadata is
    /// rebuilt once at the end instead of once per pair. Fails on the
    /// first out-of-range word index, leaving the buffer untouched.
    pub fn replace_words_bulk(&mut self, replacements: Vec<(usize, String)>) -> (r: Result<
        (),
        TextBufferError,
    >)
        requires
            old(self).wf(),
            (forall|k: int|
                0 <= k < replacements@.len() ==> (#[trigger] replacements@[k]).0
                    < old(self).spec_word_count()) ==> fits_usize(
                apply_word_updates(
                    old(self).segs(),
                    word_indices(old(self).segs()),
                    replacements@.map_values(|p: (usize, String)| (p.0, p.1@)),
                ),
            ),
        ensures
            r is Err <==> exists|k: int|
                0 <= k < replacements@.len() && (#[trigger] replacements@[k]).0 >= old(
                    self,
                ).spec_word_count(),
            r matches Err(e) ==> *final(self) == *old(self) && exists|k: int|
                0 <= k < replacements@.len() && e == (TextBufferError::InvalidWordIndex {
                    index: (#[trigger] replacements@[k]).0,
                }) && replacements@[k].0 >= old(self).spec_word_count() && (forall|j: int|
                    0 <= j < k ==> (#[trigger] replacements@[j]).0 < old(self).spec_word_count()),
            r is Ok ==> final(self).wf() && final(self).segs() == apply_word_updates(
                old(self).segs(),
                word_indices(old(self).segs()),
                replacements@.map_values(|p: (usize, String)| (p.0, p.1@)),
            ),
    {
        let word_count: usize = self.word_segment_indices.len();
        let n: usize = replacements.len();
        let mut k: usize = 0;
        while k < n
            invariant
                n == replacements@.len(),
                k <= n,
                word_count == old(self).spec_word_count(),
                *self == *old(self),
                forall|j: int|
                    0 <= j < k ==> (#[trigger] replacements@[j]).0 < old(self).spec_word_count(),
            decreases n - k,
        {
            if replacements[k].0 >= word_count {
                let bad: usize = replacements[k].0;
                return Err(TextBufferError::InvalidWordIndex { index: bad });
            }
            k = k + 1;
        }
        if n == 0 {
            return Ok(());
        }
        let ghost wi = word_indices(old(self).segs());
        let ghost rs = replacements@.map_values(|p: (usize, String)| (p.0, p.1@));
        proof {
            lemma_word_indices_props(old(self).segs());
        }
        let mut k: usize = 0;
        proof {
            assert(rs.skip(0) =~= rs);
        }
        while k < n
            invariant
                n == replacements@.len(),
                k <= n,
                rs == replacements@.map_values(|p: (usize, String)| (p.0, p.1@)),
                wi == word_indices(old(self).segs()),
                forall|j: int|
                    0 <= j < n ==> (#[trigger] replacements@[j]).0 < old(self).spec_word_count(),
                forall|j: int|
                    0 <= j < wi.len() ==> 0 <= #[trigger] wi[j] < old(self).segs().len()
                        && old(self).segs()[wi[j]].kind is Word,
                forall|j1: int, j2: int| 0 <= j1 < j2 < wi.len() ==> wi[j1] < wi[j2],
                self.segments@.len() == old(self).segments@.len(),
                forall|j: int|
                    0 <= j < self.segs().len() ==> (#[trigger] self.segs()[j]).kind == old(
                        self,
                    ).segs()[j].kind,
                self.word_segment_indices@ == old(self).word_segment_indices@,
                old(self).word_segment_indices@.map_values(|x: usize| x as int) == wi,
                apply_word_updates(old(self).segs(), wi, rs) == apply_word_updates(
                    self.segs(),
                    wi,
                    rs.skip(k as int),
                ),
            decreases n - k,
        {
            let word_index: usize = replacements[k].0;
            let text: String = replacements[k].1.clone();
            let seg_index: usize = self.word_segment_indices[word_index];
            proof {
                assert(self.word_segment_indices@.map_values(|x: usize| x as int)[
                    word_index as int
                ] == seg_index as int);
                assert(wi[word_index as int] == seg_index as int);
            }
            let ghost before = self.segs();
            let seg = TextSegment::new(text, SegmentKind::Word);
            self.segments.set(seg_index, seg);
            proof {
                assert(rs.skip(k as int).first() == (word_index, seg@.text));
                assert(rs.skip(k as int).drop_first() =~= rs.skip(k as int + 1));
                assert(self.segs() =~= before.update(
                    wi[word_index as int],
                    SegView { kind: SegmentKind::Word, text: seg@.text },
                ));
                assert(apply_word_updates(self.segs(), wi, rs.skip(k as int + 1))
                    == apply_word_updates(before, wi, rs.skip(k as int)));
            }
            k = k + 1;
        }
        proof {
            assert(rs.skip(n as int) =~= Seq::<(usize, Seq<char>)>::empty());
            assert(apply_word_updates(self.segs(), wi, rs.skip(n as int)) == self.segs());
        }
        self.reindex();
        Ok(())
    }

    /// Replaces several segments in one pass, each keeping its kind.
    /// Fails on the first out-of-range segment index, leaving the
    /// buffer untouched.
    pub fn replace_segments_bulk(&mut self, replacements: Vec<(usize, String)>) -> (r: Result<
        (),
        TextBufferError,
    >)
        requires
            old(self).wf(),
            (forall|k: int|
                0 <= k < replacements@.len() ==> (#[trigger] replacements@[k]).0 < old(
                    self,
                ).segs().len()) ==> fits_usize(
                apply_seg_updates(
                    old(self).segs(),
                    replacements@.map_values(|p: (usize, String)| (p.0, p.1@)),
                ),
            ),
        ensures
            r is Err <==> exists|k: int|
                0 <= k < replacements@.len() && (#[trigger] replacements@[k]).0 >= old(
                    self,
                ).segs().len(),
            r matches Err(e) ==> *final(self) == *old(self) && exists|k: int|
                0 <= k < replacements@.len() && e == (TextBufferError::InvalidWordIndex {
                    index: (#[trigger] replacements@[k]).0,
                }) && replacements@[k].0 >= old(self).segs().len(),
            r is Ok ==> final(self).wf() && final(self).segs() == apply_seg_updates(
                old(self).segs(),
                replacements@.map_values(|p: (usize, String)| (p.0, p.1@)),
            ),
    {
        let seg_count: usize = self.segments.len();
        let total: usize = replacements.len();
        let mut check: usize = 0;
        while check < total
            invariant
                total == replacements@.len(),
                check <= total,
                seg_count == old(self).segs().len(),
                *self == *old(self),
                forall|j: int|
                    0 <= j < check ==> (#[trigger] replacements@[j]).0 < old(self).segs().len(),
            decreases total - check,
        {
            if replacements[check].0 >= seg_count {
                let bad: usize = replacements[check].0;
                return Err(TextBufferError::InvalidWordIndex { index: bad });
            }
            check = check + 1;
        }
        let ghost rs = replacements@.map_values(|p: (usize, String)| (p.0, p.1@));
        let n: usize = replacements.len();
        let mut k: usize = 0;
        proof {
            assert(rs.skip(0) =~= rs);
        }
        while k < n
            invariant
                n == replacements@.len(),
                rs == replacements@.map_values(|p: (usize, String)| (p.0, p.1@)),
                k <= n,
                self.segments@.len() == old(self).segments@.len(),
                apply_seg_updates(old(self).segs(), rs) == apply_seg_updates(
                    self.segs(),
                    rs.skip(k as int),
                ),
            decreases n - k,
        {
            let ghost before = self.segs();
            let seg_index: usize = replacements[k].0;
            proof {
                assert(rs.skip(k as int).first() == (seg_index, replacements@[k as int].1@));
                assert(rs.skip(k as int).drop_first() =~= rs.skip(k as int + 1));
            }
            if seg_index < self.segments.len() {
                let text: String = replacements[k].1.clone();
                let kind = self.segments[seg_index].kind();
                let seg = TextSegment::new(text, kind);
                self.segments.set(seg_index, seg);
                proof {
                    assert(self.segs() =~= before.update(
                        seg_index as int,
                        SegView { kind: before[seg_index as int].kind, text: seg@.text },
                    ));
                }
            }
            k = k + 1;
        }
        proof {
            assert(rs.skip(n as int) =~= Seq::<(usize, Seq<char>)>::empty());
        }
        self.reindex();
        Ok(())
    }

    /// Inserts a word directly after the provided word index, with an
    /// optional separator segment between the existing word and the new
    /// one. Fails, leaving the buffer untouched, exactly when the word
    /// index is out of range.
    pub fn insert_word_after(&mut self, word_index: usize, word: &str, separator: Option<&str>) -> (r:
        Result<(), TextBufferError>)
        requires
            old(self).wf(),
            word_index < old(self).spec_word_count() ==> fits_usize(
                inserted_word_segs(
                    old(self).segs(),
                    old(self).word_seg(word_index as int),
                    word@,
                    match separator {
                        Some(s) => Some(s@),
                        None => None,
                    },
                ),
            ),
        ensures
            r is Err <==> word_index >= old(self).spec_word_count(),
            r is Err ==> r == Result::<(), TextBufferError>::Err(
                TextBufferError::InvalidWordIndex { index: word_index },
            ) && *final(self) == *old(self),
            r is Ok ==> final(self).wf() && final(self).segs() == inserted_word_segs(
                old(self).segs(),
                old(self).word_seg(word_index as int),
                word@,
                match separator {
                    Some(s) => Some(s@),
                    None => None,
                },
            ),
    {
        proof {
            lemma_word_indices_props(self.segs());
        }
        if word_index >= self.word_segment_indices.len() {
            return Err(TextBufferError::InvalidWordIndex { index: word_index });
        }
        let seg_index: usize = self.word_segment_indices[word_index];
        proof {
            assert(self.word_segment_indices@.map_values(|x: usize| x as int)[word_index as int]
                == seg_index as int);
            assert(seg_index as int == old(self).word_seg(word_index as int));
            assert(seg_index < self.segments@.len());
        }
        let seg_count: usize = self.segments.len();
        assert(seg_index < seg_count);
        let mut insert_at: usize = seg_index + 1;
        if let Some(sep) = separator {
            if !sep.is_empty() {
                let seg = TextSegment::new(sep.to_owned(), SegmentKind::Separator);
                self.segments.insert(insert_at, seg);
                let grown: usize = self.segments.len();
                assert(insert_at < grown);
                insert_at = insert_at + 1;
            }
        }
        let word_seg = TextSegment::new(word.to_owned(), SegmentKind::Word);
        self.segments.insert(insert_at, word_seg);
        proof {
            assert(self.segs() =~= inserted_word_segs(
                old(self).segs(),
                old(self).word_seg(word_index as int),
                word@,
                match separator {
                    Some(s) => Some(s@),
                    None => None,
                },
            ));
        }
        self.reindex();
        Ok(())
    }

    /// Replaces the provided character range with new text; the buffer
    /// is re-tokenised from the combined text. Fails, leaving the buffer
    /// untouched, exactly when the range is inverted or reaches past the
    /// end of the text.
    pub fn replace_char_range(&mut self, char_range: Range<usize>, replacement: &str) -> (r: Result<
        (),
        TextBufferError,
    >)
        requires
            old(self).wf(),
            char_range.start <= char_range.end <= old(self).text().len() ==> byte_len(
                old(self).text().take(char_range.start as int) + replacement@ + old(
                    self,
                ).text().skip(char_range.end as int),
            ) <= usize::MAX,
        ensures
            r is Err <==> !(char_range.start <= char_range.end <= old(self).text().len()),
            r is Err ==> r == Result::<(), TextBufferError>::Err(
                TextBufferError::InvalidCharRange {
                    start: char_range.start,
                    end: char_range.end,
                    max: (old(self).text().len() as usize),
                },
            ) && *final(self) == *old(self),
            r is Ok ==> final(self).wf() && final(self).text() == old(self).text().take(
                char_range.start as int,
            ) + replacement@ + old(self).text().skip(char_range.end as int),
    {
        let total: usize = self.char_len();
        if char_range.start > char_range.end || char_range.end > total {
            return Err(TextBufferError::InvalidCharRange {
                start: char_range.start,
                end: char_range.end,
                max: total,
            });
        }
        if char_range.start == char_range.end && replacement.is_empty() {
            proof {
                assert(old(self).text().take(char_range.start as int) + replacement@ + old(
                    self,
                ).text().skip(char_range.end as int) =~= old(self).text());
            }
            return Ok(());
        }
        let text: String = self.to_string();
        let left: &str = text.as_str().substring_char(0, char_range.start);
        let right: &str = text.as_str().substring_char(char_range.end, total);
        let mut combined: String = left.to_owned();
        combined.append(replacement);
        combined.append(right);
        proof {
            assert(combined@ =~= old(self).text().take(char_range.start as int) + replacement@
                + old(self).text().skip(char_range.end as int));
        }
        let rebuilt = TextBuffer::from_owned(combined);
        *self = rebuilt;
        Ok(())
    }

    /// Normalizes whitespace and punctuation spacing without reparsing:
    /// separator runs become single spaces between words, glued
    /// punctuation keeps no space before it, and leading and trailing
    /// whitespace is trimmed.
    pub fn normalize(&mut self)
        requires
            old(self).wf(),
            fits_usize(normalized_segs(old(self).segs(), false, true)),
        ensures
            final(self).wf(),
            final(self).segs() == normalized_segs(old(self).segs(), false, true),
    {
        let ghost all = self.segs();
        let mut normalized: Vec<TextSegment> = Vec::new();
        let mut pending: bool = false;
        let mut i: usize = 0;
        let n: usize = self.segments.len();
        proof {
            assert(all.skip(0) =~= all);
        }
        while i < n
            invariant
                n == self.segs().len(),
                i <= n,
                *self == *old(self),
                all == self.segs(),
                normalized@.map_values(|s: TextSegment| s@) + normalized_segs(
                    all.skip(i as int),
                    pending,
                    normalized@.len() == 0,
                ) == normalized_segs(all, false, true),
            decreases n - i,
        {
            let ghost acc = normalized@.map_values(|s: TextSegment| s@);
            proof {
                assert(all.skip(i as int).first() == all[i as int]);
                assert(all.skip(i as int).drop_first() =~= all.skip(i as int + 1));
            }
            let kind = self.segments[i].kind();
            if matches!(kind, SegmentKind::Separator) {
                pending = true;
            } else {
                let seg = self.segments[i].clone();
                let text: &str = seg.text();
                let glued: bool = if text.unicode_len() > 0 {
                    let c: char = text.get_char(0);
                    c == '.' || c == ',' || c == ':' || c == ';'
                } else {
                    false
                };
                proof {
                    assert(glued == starts_glued(all[i as int].text));
                }
                if pending && !normalized.is_empty() && !glued {
                    let space = TextSegment::new(String::from_str(" "), SegmentKind::Separator);
                    proof {
                        reveal_strlit(" ");
                        assert(space@.text =~= seq![' ']);
                        assert(space@ == space_sep());
                    }
                    normalized.push(space);
                    normalized.push(seg);
                    proof {
                        let acc2 = normalized@.map_values(|s: TextSegment| s@);
                        assert(acc2 =~= acc + seq![space_sep(), all[i as int]]);
                        assert(acc2 + normalized_segs(all.skip(i as int + 1), false, false)
                            =~= acc + (seq![space_sep(), all[i as int]] + normalized_segs(
                            all.skip(i as int + 1),
                            false,
                            false,
                        )));
                    }
                } else {
                    normalized.push(seg);
                    proof {
                        let acc2 = normalized@.map_values(|s: TextSegment| s@);
                        assert(acc2 =~= acc + seq![all[i as int]]);
                        assert(acc2 + normalized_segs(all.skip(i as int + 1), false, false)
                            =~= acc + (seq![all[i as int]] + normalized_segs(
                            all.skip(i as int + 1),
                            false,
                            false,
                        )));
                    }
                }
                pending = false;
            }
            i = i + 1;
        }
        proof {
            assert(all.skip(n as int) =~= Seq::<SegView>::empty());
            assert(normalized@.map_values(|s: TextSegment| s@) + Seq::<SegView>::empty()
                =~= normalized@.map_values(|s: TextSegment| s@));
        }
        self.segments = normalized;
        self.reindex();
    }

    /// Merges adjacent word segments that consist entirely of repeats
    /// of `repeated`, removing the separators between them, so that a
    /// block of adjacent redactions reads as one contiguous word. An
    /// empty token leaves the buffer unchanged.
    #[verifier::rlimit(100)]
    pub fn merge_repeated_char_words(&mut self, repeated: &str)
        requires
            old(self).wf(),
            repeated@.len() > 0 ==> fits_usize(merged_segs(old(self).segs(), repeated@)),
        ensures
            repeated@.len() == 0 ==> *final(self) == *old(self),
            repeated@.len() > 0 ==> final(self).wf() && final(self).segs() == merged_segs(
                old(self).segs(),
                repeated@,
            ),
    {
        if self.segments.is_empty() || repeated.is_empty() {
            proof {
                if repeated@.len() > 0 {
                    assert(merged_segs(self.segs(), repeated@) =~= self.segs());
                }
            }
            return ;
        }
        let tok_chars: Vec<char> = str_chars(repeated);
        let ghost all = self.segs();
        let ghost tok = repeated@;
        let mut merged: Vec<TextSegment> = Vec::new();
        let mut i: usize = 0;
        let n: usize = self.segments.len();
        proof {
            assert(all.skip(0) =~= all);
        }
        while i < n
            invariant
                n == self.segs().len(),
                i <= n,
                *self == *old(self),
                all == self.segs(),
                tok == repeated@,
                tok.len() > 0,
                tok_chars@ == tok,
                merged@.map_values(|s: TextSegment| s@) + merged_segs(all.skip(i as int), tok)
                    == merged_segs(all, tok),
            decreases n - i,
        {
            let ghost acc_views = merged@.map_values(|s: TextSegment| s@);
            proof {
                assert(all.skip(i as int)[0] == all[i as int]);
            }
            let is_word = matches!(self.segments[i].kind(), SegmentKind::Word);
            let is_run = is_word && token_run(self.segments[i].text(), &tok_chars);
            if is_run {
                let mut acc: String = self.segments[i].text().to_owned();
                let mut j: usize = i + 1;
                proof {
                    lemma_run_text_head(all.skip(i as int), tok);
                    assert(acc@ + run_rest(all.skip(i as int), tok) == run_text(
                        all.skip(i as int),
                        tok,
                    ));
                    assert(all.skip(i as int).skip(0) =~= all.skip(i as int));
                }
                while j < n && j + 1 < n && matches!(self.segments[j].kind(), SegmentKind::Separator)
                    && matches!(self.segments[j + 1].kind(), SegmentKind::Word) && token_run(
                    self.segments[j + 1].text(),
                    &tok_chars,
                )
                    invariant
                        n == self.segs().len(),
                        *self == *old(self),
                        all == self.segs(),
                        tok == repeated@,
                        tok.len() > 0,
                        tok_chars@ == tok,
                        i < n,
                        i + 1 <= j <= n,
                        acc@ + run_rest(all.skip(j - 1), tok) == run_text(all.skip(i as int), tok),
                        run_extent(all.skip(i as int), tok) == (j - i - 1) + run_extent(
                            all.skip(j - 1),
                            tok,
                        ),
                        all[j - 1].kind is Word && is_token_run(all[j - 1].text, tok),
                    decreases n - j,
                {
                    proof {
                        assert(all.skip(j - 1).len() == n - (j - 1));
                        assert(all.skip(j - 1)[1] == all[j as int]);
                        assert(all.skip(j - 1)[2] == all[j as int + 1]);
                        assert(run_continues(all.skip(j - 1), tok));
                        assert(all.skip(j - 1).skip(2) =~= all.skip(j as int + 1));
                        lemma_run_text_head(all.skip(j as int + 1), tok);
                    }
                    let piece: &str = self.segments[j + 1].text();
                    acc.append(piece);
                    proof {
                        assert(acc@ + run_rest(all.skip(j as int + 1), tok) == run_text(
                            all.skip(i as int),
                            tok,
                        ));
                    }
                    j = j + 2;
                }
                proof {
                    assert(!run_continues(all.skip(j - 1), tok)) by {
                        if run_continues(all.skip(j - 1), tok) {
                            assert(all.skip(j - 1).len() >= 3);
                            assert(all.skip(j - 1)[1] == all[j as int]);
                            assert(all.skip(j - 1)[2] == all[j as int + 1]);
                        }
                    }
                    assert(run_rest(all.skip(j - 1), tok) =~= Seq::<char>::empty());
                    assert(acc@ + Seq::<char>::empty() =~= acc@);
                    assert(acc@ == run_text(all.skip(i as int), tok));
                    assert(run_extent(all.skip(i as int), tok) == j - i);
                }
                let word = TextSegment::new(acc, SegmentKind::Word);
                merged.push(word);
                proof {
                    let acc2 = merged@.map_values(|s: TextSegment| s@);
                    assert(acc2 =~= acc_views + seq![
                        SegView { kind: SegmentKind::Word, text: run_text(all.skip(i as int), tok) },
                    ]);
                    assert(all.skip(i as int).skip(j - i) =~= all.skip(j as int));
                    assert(acc2 + merged_segs(all.skip(j as int), tok) =~= acc_views + (seq![
                        SegView { kind: SegmentKind::Word, text: run_text(all.skip(i as int), tok) },
                    ] + merged_segs(all.skip(j as int), tok)));
                }
                i = j;
            } else {
                let seg = self.segments[i].clone();
                merged.push(seg);
                proof {
                    let acc2 = merged@.map_values(|s: TextSegment| s@);
                    assert(all.skip(i as int).drop_first() =~= all.skip(i as int + 1));
                    assert(acc2 =~= acc_views + seq![all[i as int]]);
                    assert(acc2 + merged_segs(all.skip(i as int + 1), tok) =~= acc_views + (seq![
                        all[i as int],
                    ] + merged_segs(all.skip(i as int + 1), tok)));
                }
                i = i + 1;
            }
        }
        proof {
            assert(all.skip(n as int) =~= Seq::<SegView>::empty());
            assert(merged@.map_values(|s: TextSegment| s@) + merged_segs(
                Seq::<SegView>::empty(),
                tok,
            ) =~= merged@.map_values(|s: TextSegment| s@));
        }
        self.segments = merged;
        self.reindex();
    }

    /// Replaces the text of one segment while preserving its kind.
    /// Fails, leaving the buffer untouched, exactly when the segment
    /// index is out of range.
    pub fn replace_segment(&mut self, segment_index: usize, new_text: String) -> (r: Result<
        (),
        TextBufferError,
    >)
        requires
            old(self).wf(),
            segment_index < old(self).segs().len() ==> fits_usize(
                old(self).segs().update(
                    segment_index as int,
                    SegView {
                        kind: old(self).segs()[segment_index as int].kind,
                        text: new_text@,
                    },
                ),
            ),
        ensures
            r is Err <==> segment_index >= old(self).segs().len(),
            r is Err ==> r == Result::<(), TextBufferError>::Err(
                TextBufferError::InvalidWordIndex { index: segment_index },
            ) && *final(self) == *old(self),
            r is Ok ==> final(self).wf() && final(self).segs() == old(self).segs().update(
                segment_index as int,
                SegView { kind: old(self).segs()[segment_index as int].kind, text: new_text@ },
            ),
    {
        if segment_index >= self.segments.len() {
            return Err(TextBufferError::InvalidWordIndex { index: segment_index });
        }
        let kind = self.segments[segment_index].kind();
        let seg = TextSegment::new(new_text, kind);
        self.segments.set(segment_index, seg);
        proof {
            assert(self.segs() =~= old(self).segs().update(
                segment_index as int,
                SegView {
                    kind: old(self).segs()[segment_index as int].kind,
                    text: seg@.text,
                },
            ));
        }
        self.reindex();
        Ok(())
    }
}

} // verus!
