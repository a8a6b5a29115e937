//! Character classes of the lexical grammar, and the length of the longest
//! prefix of a sequence drawn from one class.
use vstd::prelude::*;

verus! {

/// The character classes that drive the lexer: identifier characters,
/// path characters, URI characters, the classifier's lookahead run class,
/// and decimal digits.
#[derive(Clone, Copy, Debug, PartialEq, Eq, Structural)]
pub enum CharClass {
    Ident,
    Path,
    Uri,
    Run,
    Digit,
}

/// Unicode code points with the White_Space property.
pub open spec fn is_space(c: char) -> bool {
    let u = c as u32;
    (9 <= u && u <= 13) || u == 32 || u == 0x85 || u == 0xA0 || u == 0x1680 || (0x2000 <= u
        && u <= 0x200A) || u == 0x2028 || u == 0x2029 || u == 0x202F || u == 0x205F || u == 0x3000
}

pub open spec fn is_letter(c: char) -> bool {
    ('a' <= c && c <= 'z') || ('A' <= c && c <= 'Z')
}

pub open spec fn is_digit(c: char) -> bool {
    '0' <= c && c <= '9'
}

/// The numeric value of a decimal digit.
pub open spec fn digit_val(c: char) -> int {
    c as u32 - 48
}

/// Identifier characters: ASCII letters, digits, and underscore.
pub open spec fn is_ident_char(c: char) -> bool {
    is_letter(c) || is_digit(c) || c == '_'
}

/// The classifier's lookahead run class: identifier characters plus `.`, `+`, `-`.
pub open spec fn is_run_char(c: char) -> bool {
    is_ident_char(c) || c == '.' || c == '+' || c == '-'
}

/// Path characters: the run class plus `/`.
pub open spec fn is_path_char(c: char) -> bool {
    is_run_char(c) || c == '/'
}

/// URI continuation characters: path characters plus the URI punctuation set.
pub open spec fn is_uri_char(c: char) -> bool {
    is_path_char(c) || c == ':' || c == '?' || c == '@' || c == '&' || c == '=' || c == '$' || c
        == ',' || c == '!' || c == '~' || c == '*' || c == '\'' || c == '%'
}

pub open spec fn in_class(k: CharClass, c: char) -> bool {
    match k {
        CharClass::Ident => is_ident_char(c),
        CharClass::Path => is_path_char(c),
        CharClass::Uri => is_uri_char(c),
        CharClass::Run => is_run_char(c),
        CharClass::Digit => is_digit(c),
    }
}

pub fn space_char(c: char) -> (b: bool)
    ensures
        b == is_space(c),
{
    let u = c as u32;
    (9 <= u && u <= 13) || u == 32 || u == 0x85 || u == 0xA0 || u == 0x1680 || (0x2000 <= u
        && u <= 0x200A) || u == 0x2028 || u == 0x2029 || u == 0x202F || u == 0x205F || u == 0x3000
}

pub fn letter_char(c: char) -> (b: bool)
    ensures
        b == is_letter(c),
{
    ('a' <= c && c <= 'z') || ('A' <= c && c <= 'Z')
}

pub fn digit_char(c: char) -> (b: bool)
    ensures
        b == is_digit(c),
{
    '0' <= c && c <= '9'
}

pub fn class_char(k: CharClass, c: char) -> (b: bool)
    ensures
        b == in_class(k, c),
{
    let ident = letter_char(c) || digit_char(c) || c == '_';
    let run = ident || c == '.' || c == '+' || c == '-';
    let path = run || c == '/';
    match k {
        CharClass::Ident => ident,
        CharClass::Path => path,
        CharClass::Uri => path || c == ':' || c == '?' || c == '@' || c == '&' || c == '=' || c
            == '$' || c == ',' || c == '!' || c == '~' || c == '*' || c == '\'' || c == '%',
        CharClass::Run => run,
        CharClass::Digit => digit_char(c),
    }
}

/// Length of the longest prefix of `s` whose characters all lie in class `k`.
pub open spec fn run_len(k: CharClass, s: Seq<char>) -> nat
    decreases s.len(),
{
    if s.len() > 0 && in_class(k, s[0]) {
        1 + run_len(k, s.skip(1))
    } else {
        0
    }
}

pub proof fn lemma_run_len_le(k: CharClass, s: Seq<char>)
    ensures
        run_len(k, s) <= s.len(),
    decreases s.len(),
{
    if s.len() > 0 && in_class(k, s[0]) {
        lemma_run_len_le(k, s.skip(1));
    }
}

/// A scan that stops at the first character outside the class has found the run length.
pub proof fn lemma_run_len_is(k: CharClass, s: Seq<char>, m: int)
    requires
        0 <= m <= s.len(),
        forall|j: int| 0 <= j < m ==> in_class(k, #[trigger] s[j]),
        m < s.len() ==> !in_class(k, s[m]),
    ensures
        run_len(k, s) == m,
    decreases m,
{
    if m == 0 {
    } else {
        assert(in_class(k, s[0]));
        lemma_run_len_is(k, s.skip(1), m - 1);
    }
}

/// Every character of the run is in the class, and the run is maximal.
pub proof fn lemma_run_len_chars(k: CharClass, s: Seq<char>)
    ensures
        run_len(k, s) <= s.len(),
        forall|j: int| 0 <= j < run_len(k, s) ==> in_class(k, #[trigger] s[j]),
        run_len(k, s) < s.len() ==> !in_class(k, s[run_len(k, s) as int]),
    decreases s.len(),
{
    lemma_run_len_le(k, s);
    if s.len() > 0 && in_class(k, s[0]) {
        lemma_run_len_chars(k, s.skip(1));
        assert forall|j: int| 0 <= j < run_len(k, s) implies in_class(k, #[trigger] s[j]) by {
            if j > 0 {
                assert(in_class(k, s.skip(1)[j - 1]));
            }
        }
        if run_len(k, s) < s.len() {
            assert(s[run_len(k, s) as int] == s.skip(1)[run_len(k, s.skip(1)) as int]);
        }
    }
}

/// Extending a sequence beyond a maximal run does not change the run.
pub proof fn lemma_run_len_append(k: CharClass, s: Seq<char>, t: Seq<char>)
    requires
        run_len(k, s) < s.len(),
    ensures
        run_len(k, s + t) == run_len(k, s),
    decreases s.len(),
{
    if in_class(k, s[0]) {
        assert((s + t).skip(1) =~= s.skip(1) + t);
        lemma_run_len_le(k, s.skip(1));
        lemma_run_len_append(k, s.skip(1), t);
        assert((s + t)[0] == s[0]);
    } else {
        assert((s + t)[0] == s[0]);
    }
}

} // verus!
