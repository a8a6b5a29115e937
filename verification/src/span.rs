//! Source positions, spans, and token metadata.
//!
//! A position is a zero-based `(row, col)` pair counted in Unicode scalar
//! values; `rc_after` gives the position reached after consuming a prefix of
//! the source, and positions grow lexicographically as the cursor advances.
use vstd::prelude::*;

verus! {

/// Lexicographic order on `(row, col)` positions.
pub open spec fn lex_le(a: (u64, u64), b: (u64, u64)) -> bool {
    a.0 < b.0 || (a.0 == b.0 && a.1 <= b.1)
}

pub open spec fn lex_lt(a: (u64, u64), b: (u64, u64)) -> bool {
    a.0 < b.0 || (a.0 == b.0 && a.1 < b.1)
}

/// The `(row, col)` position reached after consuming `s`: a newline resets
/// the column and advances the row, any other code point advances the column.
pub open spec fn rc_after(s: Seq<char>) -> (nat, nat)
    decreases s.len(),
{
    if s.len() == 0 {
        (0nat, 0nat)
    } else {
        let p = rc_after(s.drop_last());
        if s.last() == '\n' {
            ((p.0 + 1) as nat, 0nat)
        } else {
            (p.0, (p.1 + 1) as nat)
        }
    }
}

/// `p` is the executable image of the mathematical position `r`.
pub open spec fn is_rc(p: (u64, u64), r: (nat, nat)) -> bool {
    p.0 as nat == r.0 && p.1 as nat == r.1
}

pub proof fn lemma_rc_bounds(s: Seq<char>)
    ensures
        rc_after(s).0 <= s.len(),
        rc_after(s).1 <= s.len(),
    decreases s.len(),
{
    if s.len() > 0 {
        lemma_rc_bounds(s.drop_last());
    }
}

/// Consuming one more code point strictly advances the position.
pub proof fn lemma_rc_step(s: Seq<char>, i: int)
    requires
        0 <= i < s.len(),
    ensures
        ({
            let a = rc_after(s.take(i));
            let b = rc_after(s.take(i + 1));
            a.0 < b.0 || (a.0 == b.0 && a.1 < b.1)
        }),
{
    assert(s.take(i + 1).drop_last() =~= s.take(i));
    assert(s.take(i + 1).last() == s[i]);
}

/// Positions are monotone in the number of code points consumed.
pub proof fn lemma_rc_mono(s: Seq<char>, i: int, j: int)
    requires
        0 <= i <= j <= s.len(),
    ensures
        ({
            let a = rc_after(s.take(i));
            let b = rc_after(s.take(j));
            &&& a.0 < b.0 || (a.0 == b.0 && a.1 <= b.1)
            &&& i < j ==> a.0 < b.0 || (a.0 == b.0 && a.1 < b.1)
        }),
    decreases j - i,
{
    if i < j {
        lemma_rc_mono(s, i, j - 1);
        lemma_rc_step(s, j - 1);
    }
}

/// A half-open source region: `start` is the position of the first code point
/// of the token, `end` (once set) the position just after its last one.
#[derive(Clone, Copy, Debug, PartialEq)]
pub struct Span {
    pub start: (u64, u64),
    pub end: Option<(u64, u64)>,
}

impl Span {
    /// The span from the start of `self` to the end of `other`.
    pub fn until(self, other: Span) -> (r: Span)
        ensures
            r.start == self.start,
            r.end == other.end,
    {
        Span { start: self.start, end: other.end }
    }
}

/// Metadata of a token: its span and the bodies of the comments that
/// immediately preceded it, in source order.
#[derive(Clone, Debug, PartialEq)]
pub struct Meta {
    pub span: Span,
    pub comments: Vec<String>,
}

impl Meta {
    /// Extend the span of `self` to the end of `other`, keeping the comments.
    pub fn until(self, other: &Meta) -> (r: Meta)
        ensures
            r.span.start == self.span.start,
            r.span.end == other.span.end,
            r.comments == self.comments,
    {
        Meta { span: self.span.until(other.span), comments: self.comments }
    }
}

/// A finished span: the end is set and does not precede the start.
pub open spec fn span_ok(sp: Span) -> bool {
    sp.end matches Some(e) && lex_le(sp.start, e)
}

/// The comment bodies as mathematical character sequences.
pub open spec fn strings_view(v: Seq<String>) -> Seq<Seq<char>> {
    v.map_values(|s: String| s@)
}

} // verus!
