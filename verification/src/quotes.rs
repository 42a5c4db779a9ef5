//! Quote-pair detection for the quote-substitution step.
//!
//! The step rewrites opening and closing quotes as typographic pairs;
//! this module finds the pairs. Each quote kind keeps its own
//! one-deep stack: a first occurrence opens a pair, the next closes
//! it.

use vstd::prelude::*;
use vstd::string::StrSliceExecFns;

verus! {

/// The quote characters the scanner pairs up.
#[derive(Debug, Clone, Copy, PartialEq, Eq, Structural)]
pub enum QuoteKind {
    Double,
    Single,
    Backtick,
}

impl QuoteKind {
    /// The kind a character belongs to, if any.
    pub fn from_char(ch: char) -> (r: Option<QuoteKind>)
        ensures
            ch == '"' ==> r == Some(QuoteKind::Double),
            ch == '\'' ==> r == Some(QuoteKind::Single),
            ch == '`' ==> r == Some(QuoteKind::Backtick),
            ch != '"' && ch != '\'' && ch != '`' ==> r is None,
    {
        if ch == '"' {
            Some(QuoteKind::Double)
        } else if ch == '\'' {
            Some(QuoteKind::Single)
        } else if ch == '`' {
            Some(QuoteKind::Backtick)
        } else {
            None
        }
    }

    /// The kind's glyph.
    pub fn as_char(self) -> (r: char)
        ensures
            self is Double ==> r == '"',
            self is Single ==> r == '\'',
            self is Backtick ==> r == '`',
    {
        match self {
            QuoteKind::Double => '"',
            QuoteKind::Single => '\'',
            QuoteKind::Backtick => '`',
        }
    }

    /// The kind's slot in the per-kind stacks.
    pub fn index(self) -> (r: usize)
        ensures
            self is Double ==> r == 0,
            self is Single ==> r == 1,
            self is Backtick ==> r == 2,
            r < 3,
    {
        match self {
            QuoteKind::Double => 0,
            QuoteKind::Single => 1,
            QuoteKind::Backtick => 2,
        }
    }
}

/// One opening/closing pair, by character position.
#[derive(Debug, Clone, Copy, PartialEq, Eq, Structural)]
pub struct QuotePair {
    pub start: usize,
    pub end: usize,
    pub kind: QuoteKind,
}

/// The pairs the scan reports from position `i` on, given the pending
/// opening position of each kind: a quote character closes its kind's
/// pending pair or opens a new one, every other character passes by.
pub open spec fn quote_scan(
    s: Seq<char>,
    i: int,
    open_double: Option<int>,
    open_single: Option<int>,
    open_backtick: Option<int>,
) -> Seq<QuotePair>
    decreases s.len() - i,
{
    if i < 0 || i >= s.len() {
        Seq::empty()
    } else if s[i] == '"' {
        match open_double {
            Some(start) => seq![
                QuotePair { start: start as usize, end: i as usize, kind: QuoteKind::Double },
            ] + quote_scan(s, i + 1, None, open_single, open_backtick),
            None => quote_scan(s, i + 1, Some(i), open_single, open_backtick),
        }
    } else if s[i] == '\'' {
        match open_single {
            Some(start) => seq![
                QuotePair { start: start as usize, end: i as usize, kind: QuoteKind::Single },
            ] + quote_scan(s, i + 1, open_double, None, open_backtick),
            None => quote_scan(s, i + 1, open_double, Some(i), open_backtick),
        }
    } else if s[i] == '`' {
        match open_backtick {
            Some(start) => seq![
                QuotePair { start: start as usize, end: i as usize, kind: QuoteKind::Backtick },
            ] + quote_scan(s, i + 1, open_double, open_single, None),
            None => quote_scan(s, i + 1, open_double, open_single, Some(i)),
        }
    } else {
        quote_scan(s, i + 1, open_double, open_single, open_backtick)
    }
}

/// The quote-substitution step.
#[derive(Debug, Default, Clone, Copy)]
pub struct QuotePairsOp;

impl QuotePairsOp {
    /// Scans the text for quote pairs: within each kind, occurrences
    /// pair up first with second, third with fourth, and so on — the
    /// result is exactly the scan's, nothing reported and nothing
    /// passed over — and every reported pair points at two occurrences
    /// of its kind's glyph, in order.
    pub fn collect_pairs(text: &str) -> (r: Vec<QuotePair>)
        ensures
            r@ == quote_scan(text@, 0, None, None, None),
            forall|p: int|
                0 <= p < r@.len() ==> (#[trigger] r@[p]).start < r@[p].end < text@.len()
                    && text@[r@[p].start as int] == r@[p].kind.spec_char() && text@[
                    r@[p].end as int
                ] == r@[p].kind.spec_char(),
    {
        let n: usize = text.unicode_len();
        let mut pairs: Vec<QuotePair> = Vec::new();
        let mut open_double: Option<usize> = None;
        let mut open_single: Option<usize> = None;
        let mut open_backtick: Option<usize> = None;
        let mut i: usize = 0;
        proof {
            assert(pairs@ + quote_scan(text@, 0, None, None, None) =~= quote_scan(
                text@,
                0,
                None,
                None,
                None,
            ));
        }
        while i < n
            invariant
                n == text@.len(),
                i <= n,
                open_double matches Some(s) ==> s < i && text@[s as int] == '"',
                open_single matches Some(s) ==> s < i && text@[s as int] == '\'',
                open_backtick matches Some(s) ==> s < i && text@[s as int] == '`',
                quote_scan(text@, 0, None, None, None) == pairs@ + quote_scan(
                    text@,
                    i as int,
                    match open_double {
                        Some(x) => Some(x as int),
                        None => None,
                    },
                    match open_single {
                        Some(x) => Some(x as int),
                        None => None,
                    },
                    match open_backtick {
                        Some(x) => Some(x as int),
                        None => None,
                    },
                ),
                forall|p: int|
                    0 <= p < pairs@.len() ==> (#[trigger] pairs@[p]).start < pairs@[p].end < n
                        && text@[pairs@[p].start as int] == pairs@[p].kind.spec_char() && text@[
                        pairs@[p].end as int
                    ] == pairs@[p].kind.spec_char(),
            decreases n - i,
        {
            let ghost pairs_before = pairs@;
            let c: char = text.get_char(i);
            if c == '"' {
                match open_double {
                    Some(start) => {
                        pairs.push(QuotePair { start, end: i, kind: QuoteKind::Double });
                        open_double = None;
                    },
                    None => {
                        open_double = Some(i);
                    },
                }
            } else if c == '\'' {
                match open_single {
                    Some(start) => {
                        pairs.push(QuotePair { start, end: i, kind: QuoteKind::Single });
                        open_single = None;
                    },
                    None => {
                        open_single = Some(i);
                    },
                }
            } else if c == '`' {
                match open_backtick {
                    Some(start) => {
                        pairs.push(QuotePair { start, end: i, kind: QuoteKind::Backtick });
                        open_backtick = None;
                    },
                    None => {
                        open_backtick = Some(i);
                    },
                }
            }
            proof {
                if pairs@.len() > pairs_before.len() {
                    assert(pairs@ =~= pairs_before.push(pairs@[pairs@.len() - 1]));
                    assert(pairs_before + (seq![pairs@[pairs@.len() - 1]] + quote_scan(
                        text@,
                        i as int + 1,
                        match open_double {
                            Some(x) => Some(x as int),
                            None => None,
                        },
                        match open_single {
                            Some(x) => Some(x as int),
                            None => None,
                        },
                        match open_backtick {
                            Some(x) => Some(x as int),
                            None => None,
                        },
                    )) =~= pairs@ + quote_scan(
                        text@,
                        i as int + 1,
                        match open_double {
                            Some(x) => Some(x as int),
                            None => None,
                        },
                        match open_single {
                            Some(x) => Some(x as int),
                            None => None,
                        },
                        match open_backtick {
                            Some(x) => Some(x as int),
                            None => None,
                        },
                    ));
                }
            }
            i = i + 1;
        }
        pairs
    }
}

impl QuoteKind {
    /// The kind's glyph, for contracts.
    pub open spec fn spec_char(self) -> char {
        match self {
            QuoteKind::Double => '"',
            QuoteKind::Single => '\'',
            QuoteKind::Backtick => '`',
        }
    }
}

} // verus!
