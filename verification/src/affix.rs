//! Word-affix analysis shared by the mutation steps.
//!
//! A word splits into a punctuation prefix, an alphanumeric-bounded
//! core, and a punctuation suffix. Steps that delete, duplicate, swap
//! or redact words operate on the core and keep the affixes in place.

use vstd::prelude::*;
use vstd::string::StrSliceExecFns;

verus! {

/// Whether `c` is alphanumeric. Relies on `char::is_alphanumeric`: the
/// result depends on the character alone.
pub uninterp spec fn is_alnum(c: char) -> bool;

/// Relies on `char::is_alphanumeric` for the Unicode `Alphabetic` and
/// `Number` classes.
#[verifier::external_body]
pub fn alnum_char(c: char) -> (r: bool)
    ensures
        r == is_alnum(c),
{
    c.is_alphanumeric()
}

/// Whether `s` holds at least one alphanumeric character.
pub open spec fn has_alnum(s: Seq<char>) -> bool {
    exists|i: int| 0 <= i < s.len() && is_alnum(#[trigger] s[i])
}

/// The position of the first alphanumeric character of `s` (its length
/// if there is none).
pub open spec fn core_start(s: Seq<char>) -> int
    decreases s.len(),
{
    if s.len() == 0 {
        0
    } else if is_alnum(s[0]) {
        0
    } else {
        1 + core_start(s.drop_first())
    }
}

/// The position just past the last alphanumeric character of `s` (zero
/// if there is none).
pub open spec fn core_end(s: Seq<char>) -> int
    decreases s.len(),
{
    if s.len() == 0 {
        0
    } else if is_alnum(s.last()) {
        s.len() as int
    } else {
        core_end(s.drop_last())
    }
}

/// `core_start` points at an alphanumeric character when one exists,
/// and everything before it is not alphanumeric.
pub proof fn lemma_core_start(s: Seq<char>)
    ensures
        0 <= core_start(s) <= s.len(),
        has_alnum(s) ==> core_start(s) < s.len() && is_alnum(s[core_start(s)]),
        !has_alnum(s) ==> core_start(s) == s.len(),
        forall|i: int| 0 <= i < core_start(s) ==> !is_alnum(#[trigger] s[i]),
    decreases s.len(),
{
    if s.len() > 0 && !is_alnum(s[0]) {
        lemma_core_start(s.drop_first());
        assert(forall|i: int|
            0 <= i < s.drop_first().len() ==> #[trigger] s.drop_first()[i] == s[i + 1]);
        if has_alnum(s) {
            let w = choose|i: int| 0 <= i < s.len() && is_alnum(#[trigger] s[i]);
            assert(w >= 1 && s.drop_first()[w - 1] == s[w]);
            assert(has_alnum(s.drop_first()));
        }
        if has_alnum(s.drop_first()) {
            let w = choose|i: int|
                0 <= i < s.drop_first().len() && is_alnum(#[trigger] s.drop_first()[i]);
            assert(is_alnum(s[w + 1]));
            assert(has_alnum(s));
        }
        assert forall|i: int| 0 <= i < core_start(s) implies !is_alnum(#[trigger] s[i]) by {
            if i >= 1 {
                assert(s.drop_first()[i - 1] == s[i]);
                assert(!is_alnum(s.drop_first()[i - 1]));
            }
        }
    }
}

/// `core_end` points just past an alphanumeric character when one
/// exists, and everything from it on is not alphanumeric.
pub proof fn lemma_core_end(s: Seq<char>)
    ensures
        0 <= core_end(s) <= s.len(),
        has_alnum(s) ==> core_end(s) > 0 && is_alnum(s[core_end(s) - 1]),
        !has_alnum(s) ==> core_end(s) == 0,
        forall|i: int| core_end(s) <= i < s.len() ==> !is_alnum(#[trigger] s[i]),
    decreases s.len(),
{
    if s.len() > 0 && !is_alnum(s.last()) {
        lemma_core_end(s.drop_last());
        assert(forall|i: int|
            0 <= i < s.drop_last().len() ==> #[trigger] s.drop_last()[i] == s[i]);
        if has_alnum(s) {
            let w = choose|i: int| 0 <= i < s.len() && is_alnum(#[trigger] s[i]);
            assert(w < s.len() - 1 && s.drop_last()[w] == s[w]);
            assert(has_alnum(s.drop_last()));
        }
        if has_alnum(s.drop_last()) {
            let w = choose|i: int|
                0 <= i < s.drop_last().len() && is_alnum(#[trigger] s.drop_last()[i]);
            assert(is_alnum(s[w]));
            assert(has_alnum(s));
        }
        assert forall|i: int| core_end(s) <= i < s.len() implies !is_alnum(#[trigger] s[i]) by {
            if i < s.len() - 1 {
                assert(s.drop_last()[i] == s[i]);
                assert(!is_alnum(s.drop_last()[i]));
            } else {
                assert(s[i] == s.last());
            }
        }
    }
}

/// The first alphanumeric character does not come after the last one.
pub proof fn lemma_core_bounds(s: Seq<char>)
    requires
        has_alnum(s),
    ensures
        0 <= core_start(s) < core_end(s) <= s.len(),
{
    lemma_core_start(s);
    lemma_core_end(s);
    if core_end(s) <= core_start(s) {
        assert(!is_alnum(s[core_end(s) - 1]));
    }
}

/// The character bounds of the word's alphanumeric-delimited core, or
/// `None` when the word holds no alphanumeric character at all.
pub fn affix_bounds(text: &str) -> (r: Option<(usize, usize)>)
    ensures
        r is Some <==> has_alnum(text@),
        r matches Some(b) ==> b.0 == core_start(text@) && b.1 == core_end(text@) && b.0 < b.1
            <= text@.len(),
{
    proof {
        lemma_core_start(text@);
        lemma_core_end(text@);
    }
    let n: usize = text.unicode_len();
    let mut start: usize = 0;
    while start < n && !alnum_char(text.get_char(start))
        invariant
            n == text@.len(),
            start <= n,
            forall|i: int| 0 <= i < start ==> !is_alnum(#[trigger] text@[i]),
        decreases n - start,
    {
        start = start + 1;
    }
    if start == n {
        proof {
            if has_alnum(text@) {
                let w = choose|i: int| 0 <= i < text@.len() && is_alnum(#[trigger] text@[i]);
                assert(!is_alnum(text@[w]));
            }
        }
        return None;
    }
    proof {
        assert(is_alnum(text@[start as int]));
        assert(has_alnum(text@));
        lemma_core_bounds(text@);
        assert(core_start(text@) == start as int) by {
            if core_start(text@) < start as int {
                assert(!is_alnum(text@[core_start(text@)]));
            }
            if core_start(text@) > start as int {
                assert(!is_alnum(text@[start as int]));
            }
        }
    }
    let mut end: usize = n;
    while end > start && !alnum_char(text.get_char(end - 1))
        invariant
            n == text@.len(),
            start < n,
            start <= end <= n,
            forall|i: int| end <= i < n ==> !is_alnum(#[trigger] text@[i]),
        decreases end,
    {
        end = end - 1;
    }
    proof {
        assert(is_alnum(text@[start as int]));
        assert(end > start);
        assert(is_alnum(text@[end - 1]));
        assert(core_end(text@) == end as int) by {
            if core_end(text@) < end as int {
                assert(!is_alnum(text@[end - 1]));
            }
            if core_end(text@) > end as int {
                assert(!is_alnum(text@[core_end(text@) - 1]));
            }
        }
    }
    Some((start, end))
}

/// The word split at its core bounds: punctuation prefix, core, and
/// punctuation suffix. A word with no alphanumeric character is all
/// prefix.
pub fn split_affixes(text: &str) -> (r: (String, String, String))
    ensures
        has_alnum(text@) ==> r.0@ == text@.take(core_start(text@)) && r.1@ == text@.subrange(
            core_start(text@),
            core_end(text@),
        ) && r.2@ == text@.skip(core_end(text@)),
        !has_alnum(text@) ==> r.0@ == text@ && r.1@.len() == 0 && r.2@.len() == 0,
        r.0@ + r.1@ + r.2@ == text@,
{
    let n: usize = text.unicode_len();
    match affix_bounds(text) {
        Some((start, end)) => {
            let prefix: String = text.substring_char(0, start).to_owned();
            let core: String = text.substring_char(start, end).to_owned();
            let suffix: String = text.substring_char(end, n).to_owned();
            proof {
                assert(prefix@ =~= text@.take(core_start(text@)));
                assert(suffix@ =~= text@.skip(core_end(text@)));
                assert(prefix@ + core@ + suffix@ =~= text@);
            }
            (prefix, core, suffix)
        },
        None => {
            let prefix: String = text.to_owned();
            proof {
                assert(prefix@ + Seq::<char>::empty() + Seq::<char>::empty() =~= text@);
            }
            (prefix, String::new(), String::new())
        },
    }
}

/// The length that drives a word's sampling weight: the core's length
/// when the core is non-empty, else the whole word's, and never zero.
pub open spec fn spec_weight_len(core: Seq<char>, original: Seq<char>) -> int {
    if core.len() > 0 {
        core.len() as int
    } else if original.len() > 0 {
        original.len() as int
    } else {
        1
    }
}

/// Executable form of [`spec_weight_len`].
pub fn core_length_for_weight(core: &str, original: &str) -> (r: usize)
    ensures
        r == spec_weight_len(core@, original@),
        r >= 1,
{
    let core_len: usize = core.unicode_len();
    if core_len > 0 {
        return core_len;
    }
    let original_len: usize = original.unicode_len();
    if original_len > 0 {
        return original_len;
    }
    1
}

/// Scale for inverse-length weights.
pub const WEIGHT_SCALE: u64 = 0x100000;

/// Inverse-length weight: shorter cores weigh more. Always positive.
pub fn inverse_length_weight(core: &str, original: &str) -> (r: u64)
    ensures
        r >= 1,
        r <= WEIGHT_SCALE,
{
    let len: usize = core_length_for_weight(core, original);
    let den: u64 = if len as u64 > WEIGHT_SCALE {
        WEIGHT_SCALE
    } else {
        len as u64
    };
    let w: u64 = WEIGHT_SCALE / den;
    if w == 0 {
        1
    } else {
        w
    }
}

/// Direct-length weight: longer cores weigh more. Always positive and
/// bounded, so that probability arithmetic cannot overflow.
pub fn direct_length_weight(core: &str, original: &str) -> (r: u64)
    ensures
        r >= 1,
        r <= WEIGHT_SCALE,
{
    let len: usize = core_length_for_weight(core, original);
    if len as u64 > WEIGHT_SCALE {
        WEIGHT_SCALE
    } else {
        len as u64
    }
}

/// A word rebuilt with its own affixes around another word's core.
pub open spec fn cross_core(own: Seq<char>, other: Seq<char>) -> Seq<char> {
    own.take(core_start(own)) + other.subrange(core_start(other), core_end(other)) + own.skip(
        core_end(own),
    )
}

/// Splitting a sequence at two points splits its byte length.
pub proof fn lemma_byte_len_parts(s: Seq<char>, a: int, b: int)
    requires
        0 <= a <= b <= s.len(),
    ensures
        crate::text_buffer::byte_len(s.take(a)) + crate::text_buffer::byte_len(s.subrange(a, b))
            + crate::text_buffer::byte_len(s.skip(b)) == crate::text_buffer::byte_len(s),
        crate::text_buffer::byte_len(s.take(a)) >= 0,
        crate::text_buffer::byte_len(s.subrange(a, b)) >= 0,
        crate::text_buffer::byte_len(s.skip(b)) >= 0,
{
    reveal(crate::text_buffer::byte_len);
    assert(s.take(a) + s.subrange(a, b) =~= s.take(b));
    assert(s.take(b) + s.skip(b) =~= s);
    crate::text_buffer::lemma_encode_concat(s.take(a), s.subrange(a, b));
    crate::text_buffer::lemma_encode_concat(s.take(b), s.skip(b));
}

/// A cross-core word is no larger than the two words it borrows from.
pub proof fn lemma_cross_core_bytes(own: Seq<char>, other: Seq<char>)
    requires
        0 <= core_start(own) <= core_end(own) <= own.len(),
        0 <= core_start(other) <= core_end(other) <= other.len(),
    ensures
        crate::text_buffer::byte_len(cross_core(own, other)) <= crate::text_buffer::byte_len(own)
            + crate::text_buffer::byte_len(other),
{
    reveal(crate::text_buffer::byte_len);
    lemma_byte_len_parts(own, core_start(own), core_end(own));
    lemma_byte_len_parts(other, core_start(other), core_end(other));
    crate::text_buffer::lemma_encode_concat(
        own.take(core_start(own)),
        other.subrange(core_start(other), core_end(other)),
    );
    crate::text_buffer::lemma_encode_concat(
        own.take(core_start(own)) + other.subrange(core_start(other), core_end(other)),
        own.skip(core_end(own)),
    );
}

/// The position of the first non-whitespace character of `s` (its
/// length if there is none).
pub open spec fn content_start(s: Seq<char>) -> int
    decreases s.len(),
{
    if s.len() == 0 {
        0
    } else if !crate::text_buffer::is_space_char(s[0]) {
        0
    } else {
        1 + content_start(s.drop_first())
    }
}

/// The position just past the last non-whitespace character of `s`
/// (zero if there is none).
pub open spec fn content_end(s: Seq<char>) -> int
    decreases s.len(),
{
    if s.len() == 0 {
        0
    } else if !crate::text_buffer::is_space_char(s.last()) {
        s.len() as int
    } else {
        content_end(s.drop_last())
    }
}

/// Whether `s` holds any non-whitespace character.
pub open spec fn has_content(s: Seq<char>) -> bool {
    exists|i: int| 0 <= i < s.len() && !crate::text_buffer::is_space_char(#[trigger] s[i])
}

/// `s` shorn of leading and trailing whitespace.
pub open spec fn trimmed(s: Seq<char>) -> Seq<char> {
    if has_content(s) {
        s.subrange(content_start(s), content_end(s))
    } else {
        Seq::empty()
    }
}

/// `content_start` points at a non-whitespace character when one
/// exists, and everything before it is whitespace.
pub proof fn lemma_content_start(s: Seq<char>)
    ensures
        0 <= content_start(s) <= s.len(),
        has_content(s) ==> content_start(s) < s.len() && !crate::text_buffer::is_space_char(
            s[content_start(s)],
        ),
        !has_content(s) ==> content_start(s) == s.len(),
        forall|i: int|
            0 <= i < content_start(s) ==> crate::text_buffer::is_space_char(#[trigger] s[i]),
    decreases s.len(),
{
    if s.len() > 0 && crate::text_buffer::is_space_char(s[0]) {
        lemma_content_start(s.drop_first());
        assert(forall|i: int|
            0 <= i < s.drop_first().len() ==> #[trigger] s.drop_first()[i] == s[i + 1]);
        if has_content(s) {
            let w = choose|i: int|
                0 <= i < s.len() && !crate::text_buffer::is_space_char(#[trigger] s[i]);
            assert(w >= 1 && s.drop_first()[w - 1] == s[w]);
            assert(has_content(s.drop_first()));
        }
        if has_content(s.drop_first()) {
            let w = choose|i: int|
                0 <= i < s.drop_first().len() && !crate::text_buffer::is_space_char(
                    #[trigger] s.drop_first()[i],
                );
            assert(!crate::text_buffer::is_space_char(s[w + 1]));
            assert(has_content(s));
        }
        assert forall|i: int| 0 <= i < content_start(s) implies crate::text_buffer::is_space_char(
            #[trigger] s[i],
        ) by {
            if i >= 1 {
                assert(s.drop_first()[i - 1] == s[i]);
                assert(crate::text_buffer::is_space_char(s.drop_first()[i - 1]));
            }
        }
    }
}

/// `content_end` points just past a non-whitespace character when one
/// exists, and everything from it on is whitespace.
pub proof fn lemma_content_end(s: Seq<char>)
    ensures
        0 <= content_end(s) <= s.len(),
        has_content(s) ==> content_end(s) > 0 && !crate::text_buffer::is_space_char(
            s[content_end(s) - 1],
        ),
        !has_content(s) ==> content_end(s) == 0,
        forall|i: int|
            content_end(s) <= i < s.len() ==> crate::text_buffer::is_space_char(#[trigger] s[i]),
    decreases s.len(),
{
    if s.len() > 0 && crate::text_buffer::is_space_char(s.last()) {
        lemma_content_end(s.drop_last());
        assert(forall|i: int|
            0 <= i < s.drop_last().len() ==> #[trigger] s.drop_last()[i] == s[i]);
        if has_content(s) {
            let w = choose|i: int|
                0 <= i < s.len() && !crate::text_buffer::is_space_char(#[trigger] s[i]);
            assert(w < s.len() - 1 && s.drop_last()[w] == s[w]);
            assert(has_content(s.drop_last()));
        }
        if has_content(s.drop_last()) {
            let w = choose|i: int|
                0 <= i < s.drop_last().len() && !crate::text_buffer::is_space_char(
                    #[trigger] s.drop_last()[i],
                );
            assert(!crate::text_buffer::is_space_char(s[w]));
            assert(has_content(s));
        }
        assert forall|i: int| content_end(s) <= i < s.len() implies crate::text_buffer::is_space_char(
            #[trigger] s[i],
        ) by {
            if i < s.len() - 1 {
                assert(s.drop_last()[i] == s[i]);
                assert(crate::text_buffer::is_space_char(s.drop_last()[i]));
            } else {
                assert(s[i] == s.last());
            }
        }
    }
}

/// The first non-whitespace character does not come after the last.
pub proof fn lemma_content_bounds(s: Seq<char>)
    requires
        has_content(s),
    ensures
        0 <= content_start(s) < content_end(s) <= s.len(),
{
    lemma_content_start(s);
    lemma_content_end(s);
    if content_end(s) <= content_start(s) {
        assert(crate::text_buffer::is_space_char(s[content_end(s) - 1]));
    }
}

/// Trimming never grows the text.
pub proof fn lemma_trimmed_bytes(s: Seq<char>)
    ensures
        crate::text_buffer::byte_len(trimmed(s)) <= crate::text_buffer::byte_len(s),
        crate::text_buffer::byte_len(trimmed(s)) >= 0,
{
    reveal(crate::text_buffer::byte_len);
    if has_content(s) {
        lemma_content_bounds(s);
        lemma_byte_len_parts(s, content_start(s), content_end(s));
    } else {
        crate::text_buffer::lemma_byte_len_nonneg(s);
        assert(crate::text_buffer::byte_len(trimmed(s)) == 0);
    }
}

/// Strips leading and trailing whitespace, exactly [`trimmed`].
pub fn trim_spaces(text: &str) -> (r: String)
    ensures
        r@ == trimmed(text@),
{
    proof {
        lemma_content_start(text@);
        lemma_content_end(text@);
    }
    let n: usize = text.unicode_len();
    let mut start: usize = 0;
    while start < n && crate::text_buffer::space_char(text.get_char(start))
        invariant
            n == text@.len(),
            start <= n,
            forall|i: int|
                0 <= i < start ==> crate::text_buffer::is_space_char(#[trigger] text@[i]),
        decreases n - start,
    {
        start = start + 1;
    }
    if start == n {
        proof {
            if has_content(text@) {
                let w = choose|i: int|
                    0 <= i < text@.len() && !crate::text_buffer::is_space_char(
                        #[trigger] text@[i],
                    );
                assert(crate::text_buffer::is_space_char(text@[w]));
            }
        }
        return String::new();
    }
    proof {
        assert(!crate::text_buffer::is_space_char(text@[start as int]));
        assert(has_content(text@));
        lemma_content_bounds(text@);
        assert(content_start(text@) == start as int) by {
            if content_start(text@) < start as int {
                assert(crate::text_buffer::is_space_char(text@[content_start(text@)]));
            }
            if content_start(text@) > start as int {
                assert(crate::text_buffer::is_space_char(text@[start as int]));
            }
        }
    }
    let mut end: usize = n;
    while end > start && crate::text_buffer::space_char(text.get_char(end - 1))
        invariant
            n == text@.len(),
            start < n,
            start <= end <= n,
            forall|i: int|
                end <= i < n ==> crate::text_buffer::is_space_char(#[trigger] text@[i]),
        decreases end,
    {
        end = end - 1;
    }
    proof {
        assert(!crate::text_buffer::is_space_char(text@[start as int]));
        assert(end > start);
        assert(!crate::text_buffer::is_space_char(text@[end - 1]));
        assert(content_end(text@) == end as int) by {
            if content_end(text@) < end as int {
                assert(crate::text_buffer::is_space_char(text@[end - 1]));
            }
            if content_end(text@) > end as int {
                assert(crate::text_buffer::is_space_char(text@[content_end(text@) - 1]));
            }
        }
    }
    let out: String = text.substring_char(start, end).to_owned();
    proof {
        assert(out@ =~= trimmed(text@));
    }
    out
}

/// Dropping the core never grows a word.
pub proof fn lemma_affixes_bytes(t: Seq<char>)
    ensures
        has_alnum(t) ==> crate::text_buffer::byte_len(
            t.take(core_start(t)) + t.skip(core_end(t)),
        ) <= crate::text_buffer::byte_len(t),
{
    if has_alnum(t) {
        reveal(crate::text_buffer::byte_len);
        lemma_core_bounds(t);
        lemma_byte_len_parts(t, core_start(t), core_end(t));
        crate::text_buffer::lemma_encode_concat(t.take(core_start(t)), t.skip(core_end(t)));
    }
}

/// Whether `s` holds a character that is not whitespace.
pub fn has_nonspace(s: &str) -> (r: bool)
    ensures
        r == !crate::text_buffer::is_space_seq(s@) || s@.len() == 0 && r == false,
        r <==> (s@.len() > 0 && !crate::text_buffer::is_space_seq(s@)),
{
    let n: usize = s.unicode_len();
    let mut i: usize = 0;
    while i < n
        invariant
            n == s@.len(),
            i <= n,
            forall|k: int|
                0 <= k < i ==> crate::text_buffer::is_space_char(#[trigger] s@[k]),
        decreases n - i,
    {
        if !crate::text_buffer::space_char(s.get_char(i)) {
            return true;
        }
        i = i + 1;
    }
    false
}

} // verus!
