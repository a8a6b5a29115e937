//! The trivia that precedes each token: whitespace is discarded, while the
//! bodies of `#`-to-end-of-line comments and `/* ... */` comments are
//! collected, in source order, into the next token's metadata.
use crate::chars::is_space;
use vstd::prelude::*;

verus! {

/// The outcome of consuming the trivia at the front of the remaining input:
/// whether it was well-formed (a `/*` comment must be closed), how many code
/// points it occupied, and the comment bodies in source order.
pub struct Trivia {
    pub ok: bool,
    pub used: nat,
    pub comments: Seq<Seq<char>>,
}

/// The index just past the first newline of `s`, or the length of `s` when it
/// has no newline.
pub open spec fn nl_end(s: Seq<char>) -> nat
    decreases s.len(),
{
    if s.len() == 0 {
        0
    } else if s[0] == '\n' {
        1
    } else {
        1 + nl_end(s.skip(1))
    }
}

/// The first index of `s` at which `*/` stands, if any.
pub open spec fn close_at(s: Seq<char>) -> Option<nat>
    decreases s.len(),
{
    if s.len() < 2 {
        None
    } else if s[0] == '*' && s[1] == '/' {
        Some(0)
    } else {
        match close_at(s.skip(1)) {
            Some(j) => Some((j + 1) as nat),
            None => None,
        }
    }
}

/// A scan that stops at the first newline has found `nl_end`.
pub proof fn lemma_nl_end_is(s: Seq<char>, m: int)
    requires
        0 <= m <= s.len(),
        forall|j: int| 0 <= j < m ==> (#[trigger] s[j]) != '\n',
        m < s.len() ==> s[m] == '\n',
    ensures
        nl_end(s) == if m < s.len() {
            m + 1
        } else {
            m as int
        },
    decreases m,
{
    if m > 0 {
        lemma_nl_end_is(s.skip(1), m - 1);
    }
}

/// A scan that stops at the first `*/` has found `close_at`.
pub proof fn lemma_close_at_is(s: Seq<char>, m: int)
    requires
        0 <= m,
        m + 1 <= s.len(),
        forall|j: int| 0 <= j < m ==> !((#[trigger] s[j]) == '*' && s[j + 1] == '/'),
        if m + 1 < s.len() {
            s[m] == '*' && s[m + 1] == '/'
        } else {
            true
        },
    ensures
        if m + 1 < s.len() {
            close_at(s) == Some(m as nat)
        } else {
            close_at(s) is None
        },
    decreases m,
{
    if m == 0 {
        if m + 1 >= s.len() {
            assert(s.len() < 2);
        }
    } else {
        lemma_close_at_is(s.skip(1), m - 1);
        assert(!(s[0] == '*' && s[1] == '/'));
    }
}

/// The trivia at the front of `s`: whitespace is skipped; a `#` comment runs
/// through its newline and contributes the body after the `#` (newline
/// included); a `/* ... */` comment contributes the text strictly between the
/// delimiters, and is a fault when it is never closed.
pub open spec fn trivia(s: Seq<char>) -> Trivia
    decreases s.len(),
{
    if s.len() == 0 {
        Trivia { ok: true, used: 0, comments: Seq::empty() }
    } else if is_space(s[0]) {
        let t = trivia(s.skip(1));
        Trivia { ok: t.ok, used: (1 + t.used) as nat, comments: t.comments }
    } else if s[0] == '#' {
        let e = if nl_end(s) <= s.len() {
            nl_end(s)
        } else {
            s.len()
        };
        let t = trivia(s.skip(e as int));
        Trivia {
            ok: t.ok,
            used: (e + t.used) as nat,
            comments: seq![s.subrange(1, e as int)] + t.comments,
        }
    } else if s.len() >= 2 && s[0] == '/' && s[1] == '*' {
        match close_at(s.skip(2)) {
            None => Trivia { ok: false, used: 0, comments: Seq::empty() },
            Some(j) => {
                let e = if 4 + j <= s.len() {
                    (4 + j) as nat
                } else {
                    s.len()
                };
                let t = trivia(s.skip(e as int));
                Trivia {
                    ok: t.ok,
                    used: (e + t.used) as nat,
                    comments: seq![s.subrange(2, j as int + 2)] + t.comments,
                }
            },
        }
    } else {
        Trivia { ok: true, used: 0, comments: Seq::empty() }
    }
}

pub proof fn lemma_trivia_le(s: Seq<char>)
    ensures
        trivia(s).used <= s.len(),
    decreases s.len(),
{
    if s.len() == 0 {
    } else if is_space(s[0]) {
        lemma_trivia_le(s.skip(1));
    } else if s[0] == '#' {
        let e = if nl_end(s) <= s.len() {
            nl_end(s)
        } else {
            s.len()
        };
        lemma_trivia_le(s.skip(e as int));
    } else if s.len() >= 2 && s[0] == '/' && s[1] == '*' {
        match close_at(s.skip(2)) {
            None => {},
            Some(j) => {
                let e = if 4 + j <= s.len() {
                    (4 + j) as nat
                } else {
                    s.len()
                };
                lemma_trivia_le(s.skip(e as int));
            },
        }
    } else {
    }
}

} // verus!
