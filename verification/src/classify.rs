//! The lookahead classifier: before consuming an identifier-shaped run, the
//! lexer decides whether it begins a URI, a relative path, or a bare
//! identifier, by peeking at the first code point past the run and the one
//! after it.
use crate::chars::{in_class, is_space, lemma_run_len_append, lemma_run_len_is, run_len, space_char,
    class_char, CharClass};
use vstd::prelude::*;

verus! {

/// The classifier's verdict for an identifier-shaped run.
#[derive(Clone, Copy, Debug, PartialEq, Eq, Structural)]
pub enum IdentType {
    Uri,
    Path,
    Ident,
}

/// The verdict on the remaining input `s`: with `n` the length of the longest
/// prefix of `s` drawn from the run class, a `:` at position `n` followed by a
/// non-whitespace code point means a URI, a `/` there followed by a
/// non-whitespace code point means a path, and anything else an identifier.
pub open spec fn classify(s: Seq<char>) -> IdentType {
    let n = run_len(CharClass::Run, s) as int;
    if n + 1 < s.len() && s[n] == ':' && !is_space(s[n + 1]) {
        IdentType::Uri
    } else if n + 1 < s.len() && s[n] == '/' && !is_space(s[n + 1]) {
        IdentType::Path
    } else {
        IdentType::Ident
    }
}

/// Compute the verdict for the input suffix starting at `start`, without
/// moving the cursor.
pub fn classify_at(input: &Vec<char>, start: usize) -> (k: IdentType)
    requires
        start <= input@.len(),
    ensures
        k == classify(input@.skip(start as int)),
{
    let ghost s = input@.skip(start as int);
    let len = input.len();
    let mut i: usize = start;
    while i < len && class_char(CharClass::Run, input[i])
        invariant
            start <= i <= len,
            len == input@.len(),
            s == input@.skip(start as int),
            forall|j: int| start <= j < i ==> in_class(CharClass::Run, #[trigger] input@[j]),
        decreases len - i,
    {
        i = i + 1;
    }
    proof {
        assert forall|j: int| 0 <= j < i - start implies in_class(
            CharClass::Run,
            #[trigger] s[j],
        ) by {
            assert(s[j] == input@[start + j]);
        }
        if i - start < s.len() {
            assert(s[i - start] == input@[i as int]);
        }
        lemma_run_len_is(CharClass::Run, s, i - start);
    }
    if i < len && i + 1 < len {
        let c0 = input[i];
        let c1 = input[i + 1];
        proof {
            assert(s[i - start] == input@[i as int]);
            assert(s[i + 1 - start] == input@[i + 1]);
        }
        if c0 == ':' && !space_char(c1) {
            IdentType::Uri
        } else if c0 == '/' && !space_char(c1) {
            IdentType::Path
        } else {
            IdentType::Ident
        }
    } else {
        IdentType::Ident
    }
}

/// The verdict is stable under appending input: once the source contains the
/// first code point past the identifier-shaped run and the code point after
/// it, appending more text cannot change the classification.
pub proof fn lemma_classify_append(s: Seq<char>, t: Seq<char>)
    requires
        run_len(CharClass::Run, s) + 2 <= s.len(),
    ensures
        classify(s + t) == classify(s),
{
    let n = run_len(CharClass::Run, s) as int;
    lemma_run_len_append(CharClass::Run, s, t);
    assert((s + t)[n] == s[n]);
    assert((s + t)[n + 1] == s[n + 1]);
}

} // verus!
