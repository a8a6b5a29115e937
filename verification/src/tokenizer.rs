//! The lexer itself: a single cursor over the decoded source that yields one
//! token (or one error) per call to [`Tokenizer::next`], and [`tokenize`],
//! which drains the cursor into a token stream.
use crate::chars::{class_char, digit_char, digit_val, in_class, is_digit, is_letter, letter_char,
    lemma_run_len_is, lemma_run_len_le, run_len, space_char, CharClass};
use crate::classify::{classify, classify_at, IdentType};
use crate::span::{is_rc, lemma_rc_bounds, lemma_rc_mono, lex_le, lex_lt, rc_after, span_ok,
    strings_view, Meta, Span};
use crate::token::{items_ordered, stream_wf, no_leading_nl, part_wf, parts_alternate, token_wf, Anchor,
    FloatLit, Interpol, Item, Token, TokenizeError, Value};
use crate::trivia::{close_at, lemma_close_at_is, lemma_nl_end_is, lemma_trivia_le, nl_end, trivia};
use vstd::prelude::*;

verus! {

/// Relies on `String::push`: appends the character to the end of the string.
#[verifier::external_body]
fn push_char(s: &mut String, c: char)
    ensures
        final(s)@ == old(s)@.push(c),
{
    s.push(c);
}

/// `t` is a path token with anchor `a` and body `body`.
pub open spec fn tok_path(t: Token, a: Anchor, body: Seq<char>) -> bool {
    t matches Token::Value(Value::Path(aa, s)) && aa == a && s@ == body
}

pub open spec fn ends_slash(body: Seq<char>) -> bool {
    body.len() > 0 && body.last() == '/'
}

/// The token for an identifier-classified run: one of the five keywords, or
/// a bare identifier carrying the run itself.
pub open spec fn ident_token_ok(body: Seq<char>, t: Token) -> bool {
    if body == "let"@ {
        t == Token::Let
    } else if body == "in"@ {
        t == Token::In
    } else if body == "with"@ {
        t == Token::With
    } else if body == "import"@ {
        t == Token::Import
    } else if body == "rec"@ {
        t == Token::Rec
    } else {
        t matches Token::Ident(s) && s@ == body
    }
}

/// The arithmetic value of a decimal digit run.
pub open spec fn digits_val(s: Seq<char>) -> int
    decreases s.len(),
{
    if s.len() == 0 {
        0
    } else {
        10 * digits_val(s.drop_last()) + digit_val(s.last())
    }
}

pub proof fn lemma_digits_nonneg(s: Seq<char>)
    requires
        forall|j: int| 0 <= j < s.len() ==> is_digit(#[trigger] s[j]),
    ensures
        digits_val(s) >= 0,
    decreases s.len(),
{
    if s.len() > 0 {
        lemma_digits_nonneg(s.drop_last());
    }
}

/// The value of a digit run is no less than the value of any of its prefixes.
pub proof fn lemma_digits_mono(s: Seq<char>, i: int)
    requires
        0 <= i <= s.len(),
        forall|j: int| 0 <= j < s.len() ==> is_digit(#[trigger] s[j]),
    ensures
        digits_val(s.take(i)) <= digits_val(s),
    decreases s.len() - i,
{
    if i < s.len() {
        lemma_digits_mono(s, i + 1);
        assert(s.take(i + 1).drop_last() =~= s.take(i));
        lemma_digits_nonneg(s.take(i));
        assert(is_digit(s.take(i + 1).last()));
    } else {
        assert(s.take(i) =~= s);
    }
}

/// The token (and its extent `used`, counted from the first digit) that a
/// numeric literal at the front of `s` produces: the exact value of the digit
/// run when it fits in a signed 64-bit integer, or, after a decimal point,
/// the exact integral value and fraction digits.
pub open spec fn number_ok(s: Seq<char>, tok: Token, used: int) -> bool {
    let m = run_len(CharClass::Digit, s) as int;
    let v = digits_val(s.take(m));
    &&& v <= i64::MAX
    &&& if m < s.len() && s[m] == '.' {
        let f = run_len(CharClass::Digit, s.skip(m + 1)) as int;
        &&& f > 0
        &&& tok matches Token::Value(Value::Float(fl)) && fl.whole as int == v
            && fl.frac@.map_values(|d: u8| d as int) == s.skip(m + 1).take(f).map_values(
            |ch: char| digit_val(ch),
        )
        &&& used == m + 1 + f
    } else {
        &&& tok matches Token::Value(Value::Integer(i)) && i as int == v
        &&& used == m
    }
}

/// The fault a numeric literal at the front of `s` produces: overflow when
/// the digit run exceeds the signed 64-bit range, a trailing-decimal fault
/// when a decimal point is followed by no digit.
pub open spec fn number_err(s: Seq<char>, e: TokenizeError) -> bool {
    let m = run_len(CharClass::Digit, s) as int;
    let v = digits_val(s.take(m));
    if v > i64::MAX {
        e == TokenizeError::IntegerOverflow
    } else if m < s.len() && s[m] == '.' && run_len(CharClass::Digit, s.skip(m + 1)) == 0 {
        e == TokenizeError::TrailingDecimal
    } else {
        false
    }
}

/// In an indented string, the decoded text so far does not begin with a
/// newline: either no part has been flushed and the literal buffer does not
/// start with one, or the first flushed part does not.
pub open spec fn ml_ok(parts: Seq<Interpol>, lit: Seq<char>) -> bool {
    if parts.len() == 0 {
        lit.len() > 0 ==> lit[0] != '\n'
    } else {
        match parts[0] {
            Interpol::Literal(l) => l@.len() > 0 ==> l@[0] != '\n',
            _ => true,
        }
    }
}

/// `tok` is a string token: a plain string or an interpolation.
pub open spec fn str_shaped(tok: Token) -> bool {
    match tok {
        Token::Value(v) => v is Str,
        Token::Interpol(_) => true,
        _ => false,
    }
}

/// The token that the dispatcher yields on the input `s` (the remaining
/// source after trivia), and the number `used` of code points it occupies.
/// String tokens are only constrained structurally.
pub open spec fn dispatch_ok(s: Seq<char>, tok: Token, used: int) -> bool {
    let k = classify(s);
    let c = s[0];
    if c == '~' || k == IdentType::Path {
        if c == '~' {
            let m = run_len(CharClass::Path, s.skip(2)) as int;
            let body = s.skip(2).take(m);
            s.len() >= 2 && s[1] == '/' && !ends_slash(body) && tok_path(tok, Anchor::Home, body)
                && used == 2 + m
        } else {
            let m = run_len(CharClass::Path, s.skip(1)) as int;
            let body = seq![c] + s.skip(1).take(m);
            let a = if c == '/' {
                Anchor::Absolute
            } else {
                Anchor::Relative
            };
            !ends_slash(body) && tok_path(tok, a, body) && used == 1 + m
        }
    } else if c == '{' {
        tok == Token::CurlyBOpen && used == 1
    } else if c == '}' {
        tok == Token::CurlyBClose && used == 1
    } else if c == '=' {
        tok == Token::Equal && used == 1
    } else if c == ';' {
        tok == Token::Semicolon && used == 1
    } else if c == '[' {
        tok == Token::SquareBOpen && used == 1
    } else if c == ']' {
        tok == Token::SquareBClose && used == 1
    } else if c == '(' {
        tok == Token::ParenOpen && used == 1
    } else if c == ')' {
        tok == Token::ParenClose && used == 1
    } else if c == '*' {
        tok == Token::Mul && used == 1
    } else if c == '.' {
        tok == Token::Dot && used == 1
    } else if c == '+' {
        if s.len() >= 2 && s[1] == '+' {
            tok == Token::Concat && used == 2
        } else {
            tok == Token::Add && used == 1
        }
    } else if c == '-' {
        tok == Token::Sub && used == 1
    } else if c == '/' {
        tok == Token::Div && used == 1
    } else if c == '<' {
        let m = run_len(CharClass::Path, s.skip(1)) as int;
        let body = s.skip(1).take(m);
        !ends_slash(body) && 1 + m < s.len() && s[1 + m] == '>' && tok_path(
            tok,
            Anchor::Store,
            body,
        ) && used == 2 + m
    } else if is_letter(c) {
        let kk = if k == IdentType::Uri {
            CharClass::Uri
        } else {
            CharClass::Ident
        };
        let m = run_len(kk, s.skip(1)) as int;
        let body = seq![c] + s.skip(1).take(m);
        &&& k == IdentType::Uri ==> tok_path(tok, Anchor::Uri, body)
        &&& k != IdentType::Uri ==> ident_token_ok(body, tok)
        &&& used == 1 + m
    } else if is_digit(c) {
        number_ok(s, tok, used)
    } else if c == '"' {
        str_shaped(tok)
    } else if c == '\'' {
        s.len() >= 2 && s[1] == '\'' && str_shaped(tok) && no_leading_nl(tok)
    } else {
        false
    }
}

/// The fault the dispatcher reports on the input `s` (the remaining source
/// after well-formed trivia).  Faults inside string literals are not pinned
/// down here.
pub open spec fn dispatch_err(s: Seq<char>, e: TokenizeError) -> bool {
    let k = classify(s);
    let c = s[0];
    if c == '~' || k == IdentType::Path {
        if c == '~' {
            if s.len() < 2 || s[1] != '/' {
                e == TokenizeError::UndefinedToken
            } else {
                ends_slash(s.skip(2).take(run_len(CharClass::Path, s.skip(2)) as int)) && e
                    == TokenizeError::TrailingSlash
            }
        } else {
            ends_slash(seq![c] + s.skip(1).take(run_len(CharClass::Path, s.skip(1)) as int)) && e
                == TokenizeError::TrailingSlash
        }
    } else if c == '{' || c == '}' || c == '=' || c == ';' || c == '[' || c == ']' || c == '(' || c
        == ')' || c == '*' || c == '.' || c == '+' || c == '-' || c == '/' {
        false
    } else if c == '<' {
        let m = run_len(CharClass::Path, s.skip(1)) as int;
        if ends_slash(s.skip(1).take(m)) {
            e == TokenizeError::TrailingSlash
        } else {
            !(1 + m < s.len() && s[1 + m] == '>') && e == TokenizeError::UndefinedToken
        }
    } else if is_letter(c) {
        false
    } else if is_digit(c) {
        number_err(s, e)
    } else if c == '"' {
        true
    } else if c == '\'' {
        if s.len() >= 2 && s[1] == '\'' {
            true
        } else {
            e == TokenizeError::UndefinedToken
        }
    } else {
        e == TokenizeError::UndefinedToken
    }
}

/// One successful step of the lexer: starting at index `i0` of `src`, the
/// item `p` is the token `src` yields there (trivia, comments, exact span,
/// dispatch result), and the cursor ends at index `i1`.
pub open spec fn step_base(src: Seq<char>, i0: int, p: (Meta, Token), i1: int) -> bool {
    let tv = trivia(src.skip(i0));
    let s = src.skip(i0 + tv.used);
    let n = i1 - (i0 + tv.used);
    &&& 0 <= i0
    &&& i0 + tv.used < i1 <= src.len()
    &&& tv.ok
    &&& s.len() > 0
    &&& strings_view(p.0.comments@) == tv.comments
    &&& is_rc(p.0.span.start, rc_after(src.take(i0 + tv.used)))
    &&& p.0.span.end matches Some(e) && is_rc(e, rc_after(src.take(i1)))
    &&& token_wf(p.1)
    &&& dispatch_ok(s, p.1, n)
}

/// A successful step together with the decoded content of a string token
/// (the contents of string tokens nested in the step's own interpolation
/// groups are constrained structurally, by `token_wf`).
pub open spec fn step_ok(src: Seq<char>, i0: int, p: (Meta, Token), i1: int) -> bool {
    let tv = trivia(src.skip(i0));
    let s = src.skip(i0 + tv.used);
    &&& step_base(src, i0, p, i1)
    &&& s[0] == '"' ==> string_ok(src, i0 + tv.used + 1, false, p.1, i1)
    &&& s[0] == '\'' && s.len() >= 2 && s[1] == '\'' ==> string_ok(
        src,
        i0 + tv.used + 2,
        true,
        p.1,
        i1,
    )
}

/// What the lexer's one error item says of `src` at index `i0`: an unclosed
/// comment at `i0`, or a dispatch fault just after the trivia; error spans
/// are unfinished, and their start is the attempted token's start (faults
/// inside string literals excepted: a fault forwarded out of an
/// interpolation keeps its own, deeper span).
pub open spec fn err_step(src: Seq<char>, i0: int, sp: Span, e: TokenizeError) -> bool {
    let tv = trivia(src.skip(i0));
    let s = src.skip(i0 + tv.used);
    &&& sp.end is None
    &&& !tv.ok ==> e == TokenizeError::UnclosedComment && is_rc(sp.start, rc_after(src.take(i0)))
    &&& tv.ok ==> {
        &&& s.len() > 0 && dispatch_err(s, e)
        &&& (s[0] != '"' && !(s[0] == '\'' && s.len() >= 2 && s[1] == '\'')) ==> is_rc(
            sp.start,
            rc_after(src.take(i0 + tv.used)),
        )
    }
}

/// Nothing but well-formed trivia stands between index `i` and the end.
pub open spec fn stream_at_end(src: Seq<char>, i: int) -> bool {
    trivia(src.skip(i)).ok && i + trivia(src.skip(i)).used == src.len()
}

/// The items are exactly the successive tokens of `src` from index `i0` on,
/// leaving the cursor at `i1`.
pub open spec fn items_chain(src: Seq<char>, i0: int, items: Seq<Item>, i1: int) -> bool
    decreases items.len(),
{
    if items.len() == 0 {
        i1 == i0
    } else {
        &&& items[0] is Ok
        &&& exists|m: int|
            #[trigger] step_ok(src, i0, items[0]->Ok_0, m) && items_chain(
                src,
                m,
                items.skip(1),
                i1,
            )
    }
}

/// The whole stream is exactly what lexing `src` yields: a chain of tokens
/// from the start of the input, then either a clean end of input or one
/// final error.
pub open spec fn stream_lexed(src: Seq<char>, items: Seq<Item>) -> bool {
    if items.len() == 0 {
        stream_at_end(src, 0)
    } else if items.last() is Err {
        items.last() matches Err((sp, e)) && exists|j: int|
            #[trigger] items_chain(src, 0, items.take(items.len() - 1), j) && err_step(
                src,
                j,
                sp,
                e,
            )
    } else {
        exists|j: int| #[trigger] items_chain(src, 0, items, j) && stream_at_end(src, j)
    }
}

/// A chain extends by one more step at its end.
pub proof fn lemma_items_chain_snoc(
    src: Seq<char>,
    i0: int,
    items: Seq<Item>,
    j: int,
    p: (Meta, Token),
    i1: int,
)
    requires
        items_chain(src, i0, items, j),
        step_ok(src, j, p, i1),
    ensures
        items_chain(src, i0, items.push(Ok(p)), i1),
    decreases items.len(),
{
    let ext = items.push(Ok(p));
    if items.len() == 0 {
        assert(i0 == j);
        assert(ext[0] == Ok::<(Meta, Token), (Span, TokenizeError)>(p));
        assert(ext.skip(1) =~= Seq::<Item>::empty());
        assert(items_chain(src, i1, ext.skip(1), i1));
        assert(ext[0]->Ok_0 == p);
        assert(step_ok(src, i0, ext[0]->Ok_0, i1));
        assert(items_chain(src, i0, ext, i1));
    } else {
        let m = choose|m: int|
            #[trigger] step_ok(src, i0, items[0]->Ok_0, m) && items_chain(
                src,
                m,
                items.skip(1),
                j,
            );
        lemma_items_chain_snoc(src, m, items.skip(1), j, p, i1);
        assert(ext.skip(1) =~= items.skip(1).push(Ok(p)));
        assert(ext[0] == items[0]);
        assert(step_ok(src, i0, ext[0]->Ok_0, m) && items_chain(src, m, ext.skip(1), i1));
        assert(items_chain(src, i0, ext, i1));
    }
}

/// How one literal segment of a string body ends: at the closing delimiter,
/// at the opening `${` of an interpolation, or at end of input.
pub enum SegEnd {
    Closed,
    Interp,
    Fault,
}

/// One decoded literal segment: how it ended, the decoded text, and the
/// index just past what the segment consumed.
pub struct Scan {
    pub end: SegEnd,
    pub text: Seq<char>,
    pub next: int,
}

/// The index of the first code point at or after `i` that is not a space or
/// a tab.
pub open spec fn skip_indent(src: Seq<char>, i: int) -> int
    decreases src.len() - i,
{
    if i < 0 || i >= src.len() {
        i
    } else if src[i] == ' ' || src[i] == '\t' {
        skip_indent(src, i + 1)
    } else {
        i
    }
}

pub proof fn lemma_skip_indent_le(src: Seq<char>, i: int)
    requires
        0 <= i <= src.len(),
    ensures
        i <= skip_indent(src, i) <= src.len(),
    decreases src.len() - i,
{
    if i < src.len() && (src[i] == ' ' || src[i] == '\t') {
        lemma_skip_indent_le(src, i + 1);
    }
}

/// A scan that stops at the first code point that is neither space nor tab
/// has found `skip_indent`.
pub proof fn lemma_skip_indent_is(src: Seq<char>, i: int, m: int)
    requires
        0 <= i <= m <= src.len(),
        forall|k: int| i <= k < m ==> (#[trigger] src[k]) == ' ' || src[k] == '\t',
        m < src.len() ==> !(src[m] == ' ' || src[m] == '\t'),
    ensures
        skip_indent(src, i) == m,
    decreases m - i,
{
    if i < m {
        lemma_skip_indent_is(src, i + 1, m);
    }
}

/// Decode one literal segment of a string body from index `i`, the decoded
/// text so far being `acc`: a quoted (`multiline == false`) segment ends at
/// an unescaped `"`, and a backslash makes the next code point literal; an
/// indented (`multiline == true`) segment ends at `''`, a lone `'` is
/// literal, and a newline is kept only when text was already decoded, with
/// the following run of spaces and tabs discarded; in both forms `${` ends
/// the segment at an interpolation, a `$` not followed by `{` is literal,
/// and end of input is a fault.
pub open spec fn scan_lit(src: Seq<char>, i: int, multiline: bool, acc: Seq<char>) -> Scan
    decreases src.len() - i,
{
    if i < 0 || i >= src.len() {
        Scan { end: SegEnd::Fault, text: acc, next: src.len() as int }
    } else {
        let c = src[i];
        if !multiline && c == '"' {
            Scan { end: SegEnd::Closed, text: acc, next: i + 1 }
        } else if multiline && c == '\'' {
            if i + 1 >= src.len() {
                Scan { end: SegEnd::Fault, text: acc, next: src.len() as int }
            } else if src[i + 1] == '\'' {
                Scan { end: SegEnd::Closed, text: acc, next: i + 2 }
            } else {
                scan_lit(src, i + 1, multiline, acc.push('\''))
            }
        } else if multiline && c == '\n' {
            let acc2 = if acc.len() == 0 {
                acc
            } else {
                acc.push('\n')
            };
            let j = skip_indent(src, i + 1);
            scan_lit(
                src,
                if j < i + 1 {
                    i + 1
                } else if j > src.len() {
                    src.len() as int
                } else {
                    j
                },
                multiline,
                acc2,
            )
        } else if !multiline && c == '\\' {
            if i + 1 >= src.len() {
                Scan { end: SegEnd::Fault, text: acc, next: src.len() as int }
            } else {
                scan_lit(src, i + 2, multiline, acc.push(src[i + 1]))
            }
        } else if c == '$' {
            if i + 1 < src.len() && src[i + 1] == '{' {
                Scan { end: SegEnd::Interp, text: acc, next: i + 2 }
            } else {
                scan_lit(src, i + 1, multiline, acc.push('$'))
            }
        } else {
            scan_lit(src, i + 1, multiline, acc.push(c))
        }
    }
}

/// The chain of tokens `src` yields from `i0` to `i1` (every element a
/// successful step).
pub open spec fn ok_chain(src: Seq<char>, i0: int, v: Seq<(Meta, Token)>, i1: int) -> bool
    decreases v.len(),
{
    if v.len() == 0 {
        i1 == i0
    } else {
        exists|m: int| #[trigger] step_base(src, i0, v[0], m) && ok_chain(src, m, v.skip(1), i1)
    }
}

pub proof fn lemma_ok_chain_snoc(
    src: Seq<char>,
    i0: int,
    v: Seq<(Meta, Token)>,
    j: int,
    p: (Meta, Token),
    i1: int,
)
    requires
        ok_chain(src, i0, v, j),
        step_base(src, j, p, i1),
    ensures
        ok_chain(src, i0, v.push(p), i1),
    decreases v.len(),
{
    let ext = v.push(p);
    if v.len() == 0 {
        assert(ext[0] == p);
        assert(ext.skip(1) =~= Seq::<(Meta, Token)>::empty());
        assert(ok_chain(src, i1, ext.skip(1), i1));
        assert(step_base(src, i0, ext[0], i1));
        assert(ok_chain(src, i0, ext, i1));
    } else {
        let m = choose|m: int|
            #[trigger] step_base(src, i0, v[0], m) && ok_chain(src, m, v.skip(1), j);
        lemma_ok_chain_snoc(src, m, v.skip(1), j, p, i1);
        assert(ext.skip(1) =~= v.skip(1).push(p));
        assert(ext[0] == v[0]);
        assert(step_base(src, i0, ext[0], m) && ok_chain(src, m, ext.skip(1), i1));
        assert(ok_chain(src, i0, ext, i1));
    }
}

/// The net brace depth of the first `k` tokens of an interpolation group.
pub open spec fn depth_after(v: Seq<(Meta, Token)>, k: int) -> int
    decreases k,
{
    if k <= 0 {
        0
    } else {
        depth_after(v, k - 1) + (if v[k - 1].1 is CurlyBOpen {
            1int
        } else if v[k - 1].1 is CurlyBClose {
            -1int
        } else {
            0int
        })
    }
}

pub proof fn lemma_depth_push(v: Seq<(Meta, Token)>, p: (Meta, Token), k: int)
    requires
        0 <= k <= v.len(),
    ensures
        depth_after(v.push(p), k) == depth_after(v, k),
    decreases k,
{
    if k > 0 {
        lemma_depth_push(v, p, k - 1);
        assert(v.push(p)[k - 1] == v[k - 1]);
    }
}

/// The group's terminating `}`: after trivia, a `}` stands at `j` and is
/// consumed, ending at `i1`.
pub open spec fn close_step(src: Seq<char>, j: int, i1: int) -> bool {
    let tv = trivia(src.skip(j));
    let s = src.skip(j + tv.used);
    &&& 0 <= j
    &&& tv.ok
    &&& s.len() > 0
    &&& s[0] == '}'
    &&& i1 == j + tv.used + 1
}

/// The tokens of one `${ ... }` interpolation group read from index `i`:
/// a chain of tokens inside which every `}` closes an earlier `{`, followed
/// by the group's own terminating `}` (consumed, but not part of the group),
/// ending at `i1`.
pub open spec fn group_lex(src: Seq<char>, i: int, v: Seq<(Meta, Token)>, i1: int) -> bool {
    &&& forall|k: int|
        0 <= k < v.len() && (#[trigger] v[k]).1 is CurlyBClose ==> depth_after(v, k) >= 1
    &&& depth_after(v, v.len() as int) == 0
    &&& exists|j: int| #[trigger] ok_chain(src, i, v, j) && close_step(src, j, i1)
}

/// The parts of an interpolated string from index `i` to the closing
/// delimiter at `i1`: literal segments alternating with interpolation
/// groups, a trailing literal segment kept only when it decoded some text.
pub open spec fn parts_lex(src: Seq<char>, i: int, multiline: bool, parts: Seq<Interpol>, i1: int) -> bool
    decreases parts.len(),
{
    let sc = scan_lit(src, i, multiline, Seq::empty());
    if parts.len() == 0 {
        sc.end is Closed && sc.text.len() == 0 && i1 == sc.next
    } else if parts.len() == 1 {
        parts[0] is Literal && parts[0]->Literal_0@ == sc.text && sc.end is Closed
            && sc.text.len() > 0 && i1 == sc.next
    } else {
        &&& parts[0] is Literal && parts[0]->Literal_0@ == sc.text
        &&& sc.end is Interp
        &&& parts[1] is Tokens
        &&& exists|g: int|
            #[trigger] group_lex(src, sc.next, parts[1]->Tokens_0@, g) && parts_lex(
                src,
                g,
                multiline,
                parts.skip(2),
                i1,
            )
    }
}

/// An even-length prefix of the parts of an interpolated string, read from
/// index `i` and ending just after its last group at `j`.
pub open spec fn parts_pre(src: Seq<char>, i: int, multiline: bool, parts: Seq<Interpol>, j: int) -> bool
    decreases parts.len(),
{
    if parts.len() == 0 {
        j == i
    } else {
        let sc = scan_lit(src, i, multiline, Seq::empty());
        &&& parts.len() >= 2
        &&& parts[0] is Literal && parts[0]->Literal_0@ == sc.text
        &&& sc.end is Interp
        &&& parts[1] is Tokens
        &&& exists|g: int|
            #[trigger] group_lex(src, sc.next, parts[1]->Tokens_0@, g) && parts_pre(
                src,
                g,
                multiline,
                parts.skip(2),
                j,
            )
    }
}

/// A parts prefix extends by one literal segment and one group at its end.
pub proof fn lemma_parts_pre_snoc(
    src: Seq<char>,
    i: int,
    multiline: bool,
    parts: Seq<Interpol>,
    j: int,
    pl: Interpol,
    pt: Interpol,
    g: int,
)
    requires
        parts_pre(src, i, multiline, parts, j),
        ({
            let sc = scan_lit(src, j, multiline, Seq::empty());
            &&& pl is Literal && pl->Literal_0@ == sc.text
            &&& sc.end is Interp
            &&& pt is Tokens
            &&& group_lex(src, sc.next, pt->Tokens_0@, g)
        }),
    ensures
        parts_pre(src, i, multiline, parts.push(pl).push(pt), g),
    decreases parts.len(),
{
    let ext = parts.push(pl).push(pt);
    if parts.len() == 0 {
        assert(ext[0] == pl);
        assert(ext[1] == pt);
        assert(ext.skip(2) =~= Seq::<Interpol>::empty());
        let sc = scan_lit(src, j, multiline, Seq::empty());
        assert(parts_pre(src, g, multiline, ext.skip(2), g));
        assert(group_lex(src, sc.next, ext[1]->Tokens_0@, g) && parts_pre(
            src,
            g,
            multiline,
            ext.skip(2),
            g,
        ));
        assert(parts_pre(src, i, multiline, ext, g));
    } else {
        let sc0 = scan_lit(src, i, multiline, Seq::empty());
        let g0 = choose|g0: int|
            #[trigger] group_lex(src, sc0.next, parts[1]->Tokens_0@, g0) && parts_pre(
                src,
                g0,
                multiline,
                parts.skip(2),
                j,
            );
        lemma_parts_pre_snoc(src, g0, multiline, parts.skip(2), j, pl, pt, g);
        assert(ext.skip(2) =~= parts.skip(2).push(pl).push(pt));
        assert(ext[0] == parts[0]);
        assert(ext[1] == parts[1]);
        assert(group_lex(src, sc0.next, ext[1]->Tokens_0@, g0) && parts_pre(
            src,
            g0,
            multiline,
            ext.skip(2),
            g,
        ));
        assert(parts_pre(src, i, multiline, ext, g));
    }
}

/// A parts prefix followed by a final literal segment is the whole parts
/// list of the string.
#[verifier::rlimit(60)]
pub proof fn lemma_parts_finish(
    src: Seq<char>,
    i: int,
    multiline: bool,
    parts: Seq<Interpol>,
    j: int,
    tail: Seq<Interpol>,
    i1: int,
)
    requires
        parts_pre(src, i, multiline, parts, j),
        parts_lex(src, j, multiline, tail, i1),
        tail.len() <= 1,
    ensures
        parts_lex(src, i, multiline, parts + tail, i1),
    decreases parts.len(),
{
    if parts.len() == 0 {
        assert(parts + tail =~= tail);
    } else {
        let sc0 = scan_lit(src, i, multiline, Seq::empty());
        let g0 = choose|g0: int|
            #[trigger] group_lex(src, sc0.next, parts[1]->Tokens_0@, g0) && parts_pre(
                src,
                g0,
                multiline,
                parts.skip(2),
                j,
            );
        lemma_parts_finish(src, g0, multiline, parts.skip(2), j, tail, i1);
        let ext = parts + tail;
        assert(ext.skip(2) =~= parts.skip(2) + tail);
        assert(ext[0] == parts[0]);
        assert(ext[1] == parts[1]);
        assert(ext.len() >= 2);
        assert(group_lex(src, sc0.next, ext[1]->Tokens_0@, g0) && parts_lex(
            src,
            g0,
            multiline,
            ext.skip(2),
            i1,
        ));
        assert(parts_lex(src, i, multiline, ext, i1));
    }
}

/// The token a string literal yields, read from index `i` (just past its
/// opening delimiter) to index `i1` (just past its closing one): a plain
/// string holding the decoded text of its one segment when no interpolation
/// occurs, else the alternating parts list.
pub open spec fn string_ok(src: Seq<char>, i: int, multiline: bool, tok: Token, i1: int) -> bool {
    match tok {
        Token::Value(v) => match v {
            Value::Str(l) => {
                let sc = scan_lit(src, i, multiline, Seq::empty());
                sc.end is Closed && l@ == sc.text && i1 == sc.next
            },
            _ => false,
        },
        Token::Interpol(parts) => parts@.len() >= 2 && parts_lex(src, i, multiline, parts@, i1),
        _ => false,
    }
}

/// The single-use lexing cursor: the decoded source, the index of the next
/// code point, and the `(row, col)` position of that code point.
pub struct Tokenizer {
    input: Vec<char>,
    pos: usize,
    row: u64,
    col: u64,
}

impl Tokenizer {
    /// The whole source text.
    pub closed spec fn src(self) -> Seq<char> {
        self.input@
    }

    /// The input not yet consumed.
    pub closed spec fn remaining(self) -> Seq<char> {
        self.input@.skip(self.pos as int)
    }

    /// How many code points have been consumed.
    pub closed spec fn at(self) -> int {
        self.pos as int
    }

    /// The current `(row, col)` position.
    pub closed spec fn rc(self) -> (u64, u64) {
        (self.row, self.col)
    }

    /// The cursor is coherent: the index is in range and `(row, col)` is the
    /// position reached after the consumed prefix.
    pub closed spec fn wf(self) -> bool {
        &&& self.pos <= self.input@.len()
        &&& is_rc(self.rc(), rc_after(self.input@.take(self.pos as int)))
    }

    pub fn new(input: &str) -> (t: Tokenizer)
        ensures
            t.wf(),
            t.src() == input@,
            t.at() == 0,
            t.remaining() == input@,
            t.rc() == (0u64, 0u64),
    {
        let n = input.unicode_len();
        let mut v: Vec<char> = Vec::new();
        let mut i: usize = 0;
        while i < n
            invariant
                n == input@.len(),
                i <= n,
                v@ == input@.take(i as int),
            decreases n - i,
        {
            let c = input.get_char(i);
            v.push(c);
            i = i + 1;
            proof {
                assert(v@ =~= input@.take(i as int));
            }
        }
        proof {
            assert(v@ =~= input@);
        }
        let t = Tokenizer { input: v, pos: 0, row: 0, col: 0 };
        proof {
            assert(t.input@.take(0) =~= Seq::<char>::empty());
            assert(t.remaining() =~= input@);
        }
        t
    }

    fn peek(&self) -> (c: Option<char>)
        requires
            self.wf(),
        ensures
            c matches Some(cc) ==> self.at() < self.src().len() && cc == self.remaining()[0],
            c is None ==> self.at() == self.src().len(),
    {
        if self.pos < self.input.len() {
            proof {
                assert(self.remaining()[0] == self.input@[self.pos as int]);
            }
            Some(self.input[self.pos])
        } else {
            None
        }
    }

    /// Consume one code point, updating `(row, col)`.
    fn advance(&mut self) -> (c: Option<char>)
        requires
            old(self).wf(),
        ensures
            final(self).wf(),
            final(self).src() == old(self).src(),
            c matches Some(cc) ==> {
                &&& old(self).at() < old(self).src().len()
                &&& cc == old(self).remaining()[0]
                &&& final(self).at() == old(self).at() + 1
                &&& lex_lt(old(self).rc(), final(self).rc())
            },
            c is None ==> *final(self) == *old(self) && old(self).at() == old(self).src().len(),
    {
        if self.pos < self.input.len() {
            let c = self.input[self.pos];
            proof {
                let s = self.input@;
                let p = self.pos as int;
                assert(s.take(p + 1).drop_last() =~= s.take(p));
                assert(s.take(p + 1).last() == s[p]);
                lemma_rc_bounds(s.take(p + 1));
                assert(s.take(p + 1).len() <= s.len());
                assert(old(self).remaining()[0] == s[p]);
            }
            self.pos = self.pos + 1;
            if c == '\n' {
                self.col = 0;
                self.row = self.row + 1;
            } else {
                self.col = self.col + 1;
            }
            Some(c)
        } else {
            None
        }
    }

    /// Positions never move backwards as the cursor advances.
    proof fn lemma_rc_le(self, other: Tokenizer)
        requires
            self.wf(),
            other.wf(),
            self.src() == other.src(),
            self.at() <= other.at(),
        ensures
            lex_le(self.rc(), other.rc()),
            self.at() < other.at() ==> lex_lt(self.rc(), other.rc()),
    {
        lemma_rc_mono(self.src(), self.at(), other.at());
    }

    /// Copy the source text between two indices into a fresh string.
    fn copy_chars(&self, from: usize, to: usize) -> (s: String)
        requires
            self.wf(),
            from <= to <= self.src().len(),
        ensures
            s@ == self.src().subrange(from as int, to as int),
    {
        let mut s = String::new();
        let mut i: usize = from;
        while i < to
            invariant
                from <= i <= to <= self.src().len(),
                self.wf(),
                s@ == self.src().subrange(from as int, i as int),
            decreases to - i,
        {
            push_char(&mut s, self.input[i]);
            i = i + 1;
            proof {
                assert(s@ =~= self.src().subrange(from as int, i as int));
            }
        }
        s
    }

    /// Read the longest run of characters of class `k`, appended to the
    /// optional prefix character already consumed by the dispatcher.
    fn next_ident(&mut self, prefix: Option<char>, k: CharClass) -> (s: String)
        requires
            old(self).wf(),
        ensures
            final(self).wf(),
            final(self).src() == old(self).src(),
            final(self).at() == old(self).at() + run_len(k, old(self).remaining()),
            s@ == match prefix {
                Some(c) => seq![c],
                None => Seq::<char>::empty(),
            } + old(self).remaining().take(run_len(k, old(self).remaining()) as int),
    {
        let ghost rem = old(self).remaining();
        let mut s = String::new();
        let ghost pfx = match prefix {
            Some(c) => seq![c],
            None => Seq::<char>::empty(),
        };
        if let Some(c) = prefix {
            push_char(&mut s, c);
        }
        proof {
            assert(s@ =~= pfx + rem.take(0));
        }
        loop
            invariant
                self.wf(),
                self.src() == old(self).src(),
                old(self).at() <= self.at() <= self.src().len(),
                rem == old(self).remaining(),
                forall|j: int|
                    old(self).at() <= j < self.at() ==> in_class(k, #[trigger] self.src()[j]),
                s@ == pfx + rem.take(self.at() - old(self).at()),
            ensures
                self.wf(),
                self.src() == old(self).src(),
                old(self).at() <= self.at() <= self.src().len(),
                rem == old(self).remaining(),
                forall|j: int|
                    old(self).at() <= j < self.at() ==> in_class(k, #[trigger] self.src()[j]),
                s@ == pfx + rem.take(self.at() - old(self).at()),
                self.at() == self.src().len() || !in_class(k, self.src()[self.at()]),
            decreases self.src().len() - self.at(),
        {
            let cont = match self.peek() {
                Some(c) => class_char(k, c),
                None => false,
            };
            if !cont {
                break ;
            }
            let c = self.advance().unwrap();
            push_char(&mut s, c);
            proof {
                assert(rem[self.at() - 1 - old(self).at()] == self.src()[self.at() - 1]);
                assert(s@ =~= pfx + rem.take(self.at() - old(self).at()));
            }
        }
        proof {
            let m = self.at() - old(self).at();
            assert forall|j: int| 0 <= j < m implies in_class(k, #[trigger] rem[j]) by {
                assert(rem[j] == self.src()[old(self).at() + j]);
            }
            if m < rem.len() {
                assert(rem[m] == self.src()[self.at()]);
            }
            lemma_run_len_is(k, rem, m);
        }
        s
    }

    /// A span that begins at the current position and is not yet finished.
    fn span_start(&self) -> (sp: Span)
        ensures
            sp.start == self.rc(),
            sp.end is None,
    {
        Span { start: (self.row, self.col), end: None }
    }

    /// Report `error` over the span attempted so far.
    fn span_err(&self, meta: Meta, error: TokenizeError) -> (r: Item)
        ensures
            r matches Err((sp, e)) && sp == meta.span && e == error,
    {
        Err((meta.span, error))
    }

    /// Finish `meta`'s span at the current position and emit `token`.
    fn span_end(&self, meta: Meta, token: Token) -> (r: Item)
        ensures
            r matches Ok((mo, t)) && mo.span.start == meta.span.start && mo.span.end == Some(
                self.rc(),
            ) && mo.comments == meta.comments && t == token,
    {
        let mut meta = meta;
        meta.span.end = Some((self.row, self.col));
        Ok((meta, token))
    }

    /// Read a numeric literal whose first digit `c` was already consumed.
    fn next_number(&mut self, c: char, meta: Meta) -> (r: Item)
        requires
            old(self).wf(),
            is_digit(c),
            lex_le(meta.span.start, old(self).rc()),
        ensures
            final(self).wf(),
            final(self).src() == old(self).src(),
            final(self).at() >= old(self).at(),
            ({
                let s = seq![c] + old(self).remaining();
                &&& r matches Ok((mo, tok)) ==> {
                    &&& mo.span.start == meta.span.start
                    &&& mo.span.end == Some(final(self).rc())
                    &&& mo.comments == meta.comments
                    &&& span_ok(mo.span)
                    &&& number_ok(s, tok, final(self).at() - old(self).at() + 1)
                }
                &&& r matches Err((sp, e)) ==> sp == meta.span && number_err(s, e)
            }),
    {
        let ghost s = seq![c] + old(self).remaining();
        let ghost m = run_len(CharClass::Digit, s) as int;
        proof {
            assert(s.skip(1) =~= old(self).remaining());
            assert(s[0] == c);
            assert(m == 1 + run_len(CharClass::Digit, old(self).remaining()));
            lemma_run_len_le(CharClass::Digit, old(self).remaining());
            crate::chars::lemma_run_len_chars(CharClass::Digit, s);
            assert(s.take(1) =~= seq![c]);
            assert(seq![c].drop_last() =~= Seq::<char>::empty());
            assert(seq![c].last() == c);
            assert(digits_val(seq![c]) == 10 * digits_val(Seq::<char>::empty()) + digit_val(c));
            assert(digits_val(s.take(1)) == digit_val(c));
        }
        let mut num: i64 = (c as u32 - 48) as i64;
        let mut i: usize = 0;
        loop
            invariant
                self.wf(),
                self.src() == old(self).src(),
                self.at() == old(self).at() + i,
                i + 1 <= m,
                s == seq![c] + old(self).remaining(),
                m == run_len(CharClass::Digit, s),
                m <= s.len(),
                0 <= num,
                num == digits_val(s.take(i + 1)),
                forall|j: int| 0 <= j < m ==> is_digit(#[trigger] s[j]),
                m < s.len() ==> !is_digit(s[m as int]),
            ensures
                self.wf(),
                self.src() == old(self).src(),
                self.at() == old(self).at() + m - 1,
                0 <= num,
                num == digits_val(s.take(m)),
                self.remaining() =~= s.skip(m),
            decreases m - i,
        {
            proof {
                assert(self.remaining() =~= s.skip(i + 1));
            }
            let more = match self.peek() {
                Some(cc) => digit_char(cc),
                None => false,
            };
            if !more {
                proof {
                    if self.at() < self.src().len() {
                        assert(s[i + 1] == self.remaining()[0]);
                    }
                    lemma_run_len_is(CharClass::Digit, s, i + 1);
                    assert(self.remaining() =~= s.skip(m));
                }
                break ;
            }
            let cc = self.advance().unwrap();
            proof {
                assert(s[i + 1] == cc);
                assert(is_digit(cc));
                assert(i + 2 <= m) by {
                    if i + 1 == m {
                        assert(!is_digit(s[m as int]));
                    }
                }
            }
            i = i + 1;
            let d: i64 = (cc as u32 - 48) as i64;
            proof {
                assert(s.take(i + 1).drop_last() =~= s.take(i as int));
                assert(s.take(i + 1).last() == s[i as int]);
                assert(s[i as int] == cc);
                assert(d == digit_val(cc));
                assert(0 <= d <= 9);
                assert(digits_val(s.take(i + 1)) == 10 * num + d);
                assert forall|j: int| 0 <= j < s.take(m).len() implies is_digit(
                    #[trigger] s.take(m)[j],
                ) by {}
                lemma_digits_mono(s.take(m), i + 1);
                assert(s.take(m).take(i + 1) =~= s.take(i + 1));
            }
            match num.checked_mul(10) {
                None => {
                    proof {
                        assert(10 * num + d > i64::MAX);
                        assert(digits_val(s.take(m)) > i64::MAX);
                    }
                    return self.span_err(meta, TokenizeError::IntegerOverflow);
                },
                Some(n10) => {
                    match n10.checked_add(d) {
                        None => {
                            proof {
                                assert(10 * num + d > i64::MAX);
                                assert(digits_val(s.take(m)) > i64::MAX);
                            }
                            return self.span_err(meta, TokenizeError::IntegerOverflow);
                        },
                        Some(n) => {
                            num = n;
                        },
                    }
                },
            }
        }
        let ghost atm = self.at();
        let is_dot = match self.peek() {
            Some(cc) => cc == '.',
            None => false,
        };
        if !is_dot {
            proof {
                if self.at() < self.src().len() {
                    assert(s.skip(m)[0] == self.remaining()[0]);
                }
                old(self).lemma_rc_le(*self);
            }
            return self.span_end(meta, Token::Value(Value::Integer(num)));
        }
        proof {
            assert(s.skip(m)[0] == self.remaining()[0]);
            assert(m < s.len() && s[m as int] == '.');
        }
        self.advance();
        let ghost rem2 = s.skip(m + 1);
        proof {
            assert(self.remaining() =~= rem2);
        }
        let ghost f = run_len(CharClass::Digit, rem2) as int;
        let mut fr: Vec<u8> = Vec::new();
        loop
            invariant
                self.wf(),
                self.src() == old(self).src(),
                self.at() == old(self).at() + m + fr@.len(),
                rem2 == s.skip(m + 1),
                0 <= m,
                m + 1 <= s.len(),
                s == seq![c] + old(self).remaining(),
                fr@.len() <= rem2.len(),
                forall|j: int| 0 <= j < fr@.len() ==> is_digit(#[trigger] rem2[j]),
                forall|j: int| 0 <= j < fr@.len() ==> (#[trigger] fr@[j]) as int == digit_val(
                    rem2[j],
                ),
                f == run_len(CharClass::Digit, rem2),
            ensures
                self.wf(),
                self.src() == old(self).src(),
                self.at() == old(self).at() + m + f,
                fr@.len() == f,
                forall|j: int| 0 <= j < fr@.len() ==> (#[trigger] fr@[j]) as int == digit_val(
                    rem2[j],
                ),
            decreases self.src().len() - self.at(),
        {
            proof {
                assert(rem2.len() == s.len() - m - 1);
                assert(self.remaining() =~= rem2.skip(fr@.len() as int));
            }
            let more = match self.peek() {
                Some(cc) => digit_char(cc),
                None => false,
            };
            if !more {
                proof {
                    if self.at() < self.src().len() {
                        assert(rem2[fr@.len() as int] == self.remaining()[0]);
                    }
                    lemma_run_len_is(CharClass::Digit, rem2, fr@.len() as int);
                }
                break ;
            }
            let cc = self.advance().unwrap();
            proof {
                assert(rem2[fr@.len() as int] == cc);
                assert(is_digit(cc));
                assert(48 <= cc as u32 <= 57);
            }
            fr.push((cc as u32 - 48) as u8);
        }
        if fr.len() == 0 {
            return self.span_err(meta, TokenizeError::TrailingDecimal);
        }
        proof {
            old(self).lemma_rc_le(*self);
            assert(fr@.map_values(|d: u8| d as int) =~= rem2.take(f).map_values(
                |ch: char| digit_val(ch),
            ));
        }
        self.span_end(meta, Token::Value(Value::Float(FloatLit { whole: num, frac: fr })))
    }

    /// Read an anchored path literal whose first code point `c` was already
    /// consumed: `~/...` (home), `/...` (absolute), or a relative path.
    fn next_path(&mut self, c: char, meta: Meta) -> (r: Item)
        requires
            old(self).wf(),
            lex_le(meta.span.start, old(self).rc()),
        ensures
            final(self).wf(),
            final(self).src() == old(self).src(),
            final(self).at() >= old(self).at(),
            ({
                let rem = old(self).remaining();
                if c == '~' {
                    if rem.len() == 0 || rem[0] != '/' {
                        r matches Err((sp, e)) && sp == meta.span && e
                            == TokenizeError::UndefinedToken
                    } else {
                        let m = run_len(CharClass::Path, rem.skip(1)) as int;
                        let body = rem.skip(1).take(m);
                        if ends_slash(body) {
                            r matches Err((sp, e)) && sp == meta.span && e
                                == TokenizeError::TrailingSlash
                        } else {
                            &&& r matches Ok((mo, tok)) && mo.span.start == meta.span.start
                                && mo.span.end == Some(final(self).rc()) && mo.comments
                                == meta.comments && span_ok(mo.span) && tok_path(
                                tok,
                                Anchor::Home,
                                body,
                            )
                            &&& final(self).at() == old(self).at() + 1 + m
                        }
                    }
                } else {
                    let m = run_len(CharClass::Path, rem) as int;
                    let body = seq![c] + rem.take(m);
                    let a = if c == '/' {
                        Anchor::Absolute
                    } else {
                        Anchor::Relative
                    };
                    if ends_slash(body) {
                        r matches Err((sp, e)) && sp == meta.span && e
                            == TokenizeError::TrailingSlash
                    } else {
                        &&& r matches Ok((mo, tok)) && mo.span.start == meta.span.start
                            && mo.span.end == Some(final(self).rc()) && mo.comments
                            == meta.comments && span_ok(mo.span) && tok_path(tok, a, body)
                        &&& final(self).at() == old(self).at() + m
                    }
                }
            }),
    {
        let ghost rem = old(self).remaining();
        let anchor: Anchor;
        let prefix: Option<char>;
        if c == '~' {
            let slash = match self.advance() {
                Some(ch) => ch == '/',
                None => false,
            };
            if !slash {
                return self.span_err(meta, TokenizeError::UndefinedToken);
            }
            anchor = Anchor::Home;
            prefix = None;
        } else if c == '/' {
            anchor = Anchor::Absolute;
            prefix = Some(c);
        } else {
            anchor = Anchor::Relative;
            prefix = Some(c);
        }
        let ghost rem1 = self.remaining();
        proof {
            if c == '~' {
                assert(rem1 =~= rem.skip(1));
            }
        }
        let p0 = self.pos;
        let ident = self.next_ident(prefix, CharClass::Path);
        let ghost m = run_len(CharClass::Path, rem1) as int;
        let ghost body = ident@;
        let trailing = if self.pos > p0 {
            proof {
                assert(body.last() == rem1[m - 1]);
                assert(rem1[m - 1] == self.src()[self.at() - 1]);
            }
            self.input[self.pos - 1] == '/'
        } else {
            match prefix {
                Some(ch) => ch == '/',
                None => false,
            }
        };
        if trailing {
            return self.span_err(meta, TokenizeError::TrailingSlash);
        }
        proof {
            old(self).lemma_rc_le(*self);
        }
        self.span_end(meta, Token::Value(Value::Path(anchor, ident)))
    }

    /// Read a `<...>` store path; the `<` was already consumed, the body must
    /// not end with `/`, and the run must be closed by `>`.
    fn next_store(&mut self, meta: Meta) -> (r: Item)
        requires
            old(self).wf(),
            lex_le(meta.span.start, old(self).rc()),
        ensures
            final(self).wf(),
            final(self).src() == old(self).src(),
            final(self).at() >= old(self).at(),
            ({
                let rem = old(self).remaining();
                let m = run_len(CharClass::Path, rem) as int;
                if ends_slash(rem.take(m)) {
                    r matches Err((sp, e)) && sp == meta.span && e == TokenizeError::TrailingSlash
                } else if m < rem.len() && rem[m] == '>' {
                    &&& r matches Ok((mo, tok)) && mo.span.start == meta.span.start && mo.span.end
                        == Some(final(self).rc()) && mo.comments == meta.comments && span_ok(
                        mo.span,
                    ) && tok_path(tok, Anchor::Store, rem.take(m))
                    &&& final(self).at() == old(self).at() + m + 1
                } else {
                    r matches Err((sp, e)) && sp == meta.span && e == TokenizeError::UndefinedToken
                }
            }),
    {
        let ghost rem = old(self).remaining();
        let p0 = self.pos;
        let ident = self.next_ident(None, CharClass::Path);
        let ghost m = run_len(CharClass::Path, rem) as int;
        proof {
            assert(self.remaining() =~= rem.skip(m));
        }
        if self.pos > p0 {
            proof {
                assert(ident@.last() == rem[m - 1]);
                assert(rem[m - 1] == self.src()[self.at() - 1]);
            }
            if self.input[self.pos - 1] == '/' {
                return self.span_err(meta, TokenizeError::TrailingSlash);
            }
        }
        let closed = match self.advance() {
            Some(ch) => ch == '>',
            None => false,
        };
        if !closed {
            return self.span_err(meta, TokenizeError::UndefinedToken);
        }
        proof {
            old(self).lemma_rc_le(*self);
        }
        self.span_end(meta, Token::Value(Value::Path(Anchor::Store, ident)))
    }

    /// Read an identifier or URI whose first letter `c` was already consumed;
    /// an identifier-classified run may turn out to be a keyword.
    fn next_word(&mut self, c: char, kind: IdentType, meta: Meta) -> (r: Item)
        requires
            old(self).wf(),
            kind != IdentType::Path,
            lex_le(meta.span.start, old(self).rc()),
        ensures
            final(self).wf(),
            final(self).src() == old(self).src(),
            final(self).at() >= old(self).at(),
            ({
                let rem = old(self).remaining();
                let k = if kind == IdentType::Uri {
                    CharClass::Uri
                } else {
                    CharClass::Ident
                };
                let m = run_len(k, rem) as int;
                let body = seq![c] + rem.take(m);
                &&& r matches Ok((mo, tok)) && mo.span.start == meta.span.start && mo.span.end
                    == Some(final(self).rc()) && mo.comments == meta.comments && span_ok(mo.span)
                &&& final(self).at() == old(self).at() + m
                &&& kind == IdentType::Uri ==> (r matches Ok((mo, tok)) ==> tok_path(
                    tok,
                    Anchor::Uri,
                    body,
                ))
                &&& kind == IdentType::Ident ==> (r matches Ok((mo, tok)) ==> ident_token_ok(
                    body,
                    tok,
                ))
            }),
    {
        let uri = match kind {
            IdentType::Uri => true,
            _ => false,
        };
        let ident = self.next_ident(
            Some(c),
            if uri {
                CharClass::Uri
            } else {
                CharClass::Ident
            },
        );
        proof {
            old(self).lemma_rc_le(*self);
        }
        if uri {
            return self.span_end(meta, Token::Value(Value::Path(Anchor::Uri, ident)));
        }
        let tok: Token;
        if ident == String::from_str("let") {
            tok = Token::Let;
        } else if ident == String::from_str("in") {
            tok = Token::In;
        } else if ident == String::from_str("with") {
            tok = Token::With;
        } else if ident == String::from_str("import") {
            tok = Token::Import;
        } else if ident == String::from_str("rec") {
            tok = Token::Rec;
        } else {
            tok = Token::Ident(ident);
        }
        self.span_end(meta, tok)
    }

    /// Read the rest of a string literal whose opening delimiter was already
    /// consumed, decoding escapes (quoted form) or indentation (indented
    /// form) and lexing `${ ... }` interpolations recursively.
    #[verifier::rlimit(100)]
    pub fn next_string(&mut self, meta: Meta, multiline: bool) -> (r: Item)
        requires
            old(self).wf(),
            lex_le(meta.span.start, old(self).rc()),
            meta.span.end is None,
        ensures
            final(self).wf(),
            final(self).src() == old(self).src(),
            final(self).at() >= old(self).at(),
            r matches Ok((mo, tok)) ==> {
                &&& mo.span.start == meta.span.start
                &&& mo.span.end == Some(final(self).rc())
                &&& mo.comments == meta.comments
                &&& span_ok(mo.span)
                &&& token_wf(tok)
                &&& string_ok(old(self).src(), old(self).at(), multiline, tok, final(self).at())
                &&& multiline ==> no_leading_nl(tok)
            },
            r matches Err((sp, e)) ==> sp.end is None,
            scan_lit(old(self).src(), old(self).at(), multiline, Seq::empty()).end is Closed
                ==> r is Ok,
        decreases old(self).src().len() - old(self).at(),
    {
        let ghost srcv = old(self).src();
        let ghost str0 = old(self).at();
        let ghost mut seg0: int = old(self).at();
        let mut parts: Vec<Interpol> = Vec::new();
        let mut literal = String::new();
        loop
            invariant_except_break
                scan_lit(srcv, seg0, multiline, Seq::empty()) == scan_lit(
                    srcv,
                    self.at(),
                    multiline,
                    literal@,
                ),
            invariant
                self.wf(),
                self.src() == srcv,
                srcv == old(self).src(),
                str0 == old(self).at(),
                str0 <= seg0 <= self.at(),
                lex_le(meta.span.start, self.rc()),
                meta.span.end is None,
                parts@.len() % 2 == 0,
                parts_alternate(parts@),
                forall|i: int| 0 <= i < parts@.len() ==> part_wf(#[trigger] parts@[i]),
                multiline ==> ml_ok(parts@, literal@),
                parts_pre(srcv, str0, multiline, parts@, seg0),
            ensures
                self.wf(),
                self.src() == srcv,
                str0 <= seg0 <= self.at(),
                lex_le(meta.span.start, self.rc()),
                parts@.len() % 2 == 0,
                parts_alternate(parts@),
                forall|i: int| 0 <= i < parts@.len() ==> part_wf(#[trigger] parts@[i]),
                multiline ==> ml_ok(parts@, literal@),
                scan_lit(srcv, seg0, multiline, Seq::empty()) == (Scan {
                    end: SegEnd::Closed,
                    text: literal@,
                    next: self.at(),
                }),
                parts_pre(srcv, str0, multiline, parts@, seg0),
            decreases self.src().len() - self.at(),
        {
            let ghost at0 = self.at();
            let ghost lit0 = literal@;
            let c = match self.peek() {
                None => {
                    proof {
                        if parts@.len() == 0 {
                            assert(seg0 == str0);
                            assert(scan_lit(srcv, at0, multiline, lit0).end is Fault);
                        } else {
                            assert(scan_lit(srcv, str0, multiline, Seq::empty()).end is Interp);
                        }
                    }
                    return self.span_err(meta, TokenizeError::UnexpectedEOF);
                },
                Some(c) => c,
            };
            proof {
                assert(srcv[at0] == c);
            }
            if !multiline && c == '"' {
                proof {
                    assert(scan_lit(srcv, at0, multiline, lit0) == (Scan {
                        end: SegEnd::Closed,
                        text: lit0,
                        next: at0 + 1,
                    }));
                }
                self.advance();
                break ;
            } else if multiline && c == '\'' {
                self.advance();
                match self.peek() {
                    None => {
                        proof {
                            if parts@.len() == 0 {
                                assert(seg0 == str0);
                                assert(scan_lit(srcv, at0, multiline, lit0).end is Fault);
                            } else {
                                assert(scan_lit(srcv, str0, multiline, Seq::empty()).end
                                    is Interp);
                            }
                        }
                        return self.span_err(meta, TokenizeError::UnexpectedEOF);
                    },
                    Some(c2) => {
                        if c2 == '\'' {
                            proof {
                                assert(srcv[at0 + 1] == c2);
                                assert(scan_lit(srcv, at0, multiline, lit0) == (Scan {
                                    end: SegEnd::Closed,
                                    text: lit0,
                                    next: at0 + 2,
                                }));
                            }
                            self.advance();
                            break ;
                        } else {
                            push_char(&mut literal, '\'');
                            proof {
                                assert(srcv[at0 + 1] == c2);
                                assert(scan_lit(srcv, at0, multiline, lit0) == scan_lit(
                                    srcv,
                                    self.at(),
                                    multiline,
                                    literal@,
                                ));
                            }
                        }
                    },
                }
            } else if multiline && c == '\n' {
                self.advance();
                let ghost acc2 = if lit0.len() == 0 {
                    lit0
                } else {
                    lit0.push('\n')
                };
                if !literal.as_str().is_empty() {
                    push_char(&mut literal, '\n');
                }
                proof {
                    assert(literal@ == acc2);
                }
                let ghost nl_at = self.at();
                loop
                    invariant
                        self.wf(),
                        self.src() == srcv,
                        0 <= nl_at <= self.at() <= srcv.len(),
                        lex_le(meta.span.start, self.rc()),
                        forall|k: int|
                            nl_at <= k < self.at() ==> (#[trigger] srcv[k]) == ' ' || srcv[k]
                                == '\t',
                    ensures
                        self.wf(),
                        self.src() == srcv,
                        nl_at <= self.at() <= srcv.len(),
                        lex_le(meta.span.start, self.rc()),
                        self.at() == skip_indent(srcv, nl_at),
                    decreases self.src().len() - self.at(),
                {
                    let indent = match self.peek() {
                        Some(cc) => cc == ' ' || cc == '\t',
                        None => false,
                    };
                    if !indent {
                        proof {
                            if self.at() < srcv.len() {
                                assert(srcv[self.at()] == self.remaining()[0]);
                            }
                            lemma_skip_indent_is(srcv, nl_at, self.at());
                        }
                        break ;
                    }
                    proof {
                        assert(srcv[self.at()] == self.remaining()[0]);
                    }
                    self.advance();
                }
                proof {
                    lemma_skip_indent_le(srcv, nl_at);
                    assert(scan_lit(srcv, at0, multiline, lit0) == scan_lit(
                        srcv,
                        self.at(),
                        multiline,
                        literal@,
                    ));
                }
            } else if !multiline && c == '\\' {
                self.advance();
                match self.advance() {
                    None => {
                        proof {
                            if parts@.len() == 0 {
                                assert(seg0 == str0);
                                assert(scan_lit(srcv, at0, multiline, lit0).end is Fault);
                            } else {
                                assert(scan_lit(srcv, str0, multiline, Seq::empty()).end
                                    is Interp);
                            }
                        }
                        return self.span_err(meta, TokenizeError::UnexpectedEOF);
                    },
                    Some(c2) => {
                        push_char(&mut literal, c2);
                        proof {
                            assert(srcv[at0 + 1] == c2);
                            assert(scan_lit(srcv, at0, multiline, lit0) == scan_lit(
                                srcv,
                                self.at(),
                                multiline,
                                literal@,
                            ));
                        }
                    },
                }
            } else if c == '$' {
                self.advance();
                let brace = match self.peek() {
                    Some(cc) => cc == '{',
                    None => false,
                };
                if !brace {
                    push_char(&mut literal, '$');
                    proof {
                        if self.at() < srcv.len() {
                            assert(srcv[at0 + 1] == self.remaining()[0]);
                        }
                        assert(scan_lit(srcv, at0, multiline, lit0) == scan_lit(
                            srcv,
                            self.at(),
                            multiline,
                            literal@,
                        ));
                    }
                } else {
                    proof {
                        assert(srcv[at0 + 1] == '{');
                        assert(scan_lit(srcv, at0, multiline, lit0) == (Scan {
                            end: SegEnd::Interp,
                            text: lit0,
                            next: at0 + 2,
                        }));
                    }
                    self.advance();
                    let ghost partsv = parts@;
                    let ghost seg0v = seg0;
                    parts.push(Interpol::Literal(literal));
                    literal = String::new();
                    proof {
                        assert(parts_alternate(parts@)) by {
                            assert(forall|i: int|
                                0 <= i < partsv.len() ==> parts@[i] == #[trigger] partsv[i]);
                            assert(parts@[partsv.len() as int] is Literal);
                        }
                    }
                    proof {
                        assert(scan_lit(srcv, str0, multiline, Seq::empty()).end
                            is Interp) by {
                            if partsv.len() == 0 {
                                assert(seg0v == str0);
                            }
                        }
                    }
                    let ghost ns_start = self.at();
                    let mut tokens: Vec<(Meta, Token)> = Vec::new();
                    let mut count: usize = 0;
                    loop
                        invariant_except_break
                            ok_chain(srcv, ns_start, tokens@, self.at()),
                        invariant
                            self.wf(),
                            self.src() == srcv,
                            srcv == old(self).src(),
                            old(self).at() + 2 <= ns_start <= self.at(),
                            lex_le(meta.span.start, self.rc()),
                            meta.span.end is None,
                            items_ordered(tokens@),
                            forall|i: int|
                                0 <= i < tokens@.len() ==> token_wf((#[trigger] tokens@[i]).1),
                            tokens@.len() > 0 ==> lex_le(
                                tokens@[tokens@.len() - 1].0.span.end.unwrap(),
                                self.rc(),
                            ),
                            count == depth_after(tokens@, tokens@.len() as int),
                            forall|k: int|
                                0 <= k < tokens@.len() && (#[trigger] tokens@[k]).1
                                    is CurlyBClose ==> depth_after(tokens@, k) >= 1,
                            count <= tokens@.len(),
                            ns_start + tokens@.len() <= self.at(),
                            scan_lit(srcv, str0, multiline, Seq::empty()).end is Interp,
                            str0 == old(self).at(),
                        ensures
                            self.wf(),
                            self.src() == srcv,
                            ns_start <= self.at(),
                            old(self).at() + 2 <= ns_start,
                            lex_le(meta.span.start, self.rc()),
                            items_ordered(tokens@),
                            forall|i: int|
                                0 <= i < tokens@.len() ==> token_wf((#[trigger] tokens@[i]).1),
                            group_lex(srcv, ns_start, tokens@, self.at()),
                        decreases self.src().len() - self.at(),
                    {
                        let ghost prev = *self;
                        let item = self.next();
                        match item {
                            None => {
                                proof {
                                    assert(scan_lit(srcv, str0, multiline, Seq::empty()).end
                                        is Interp);
                                }
                                return self.span_err(meta, TokenizeError::UnexpectedEOF);
                            },
                            Some(it) => {
                                match it {
                                    Err(pair) => {
                                        proof {
                                            assert(scan_lit(
                                                srcv,
                                                str0,
                                                multiline,
                                                Seq::empty(),
                                            ).end is Interp);
                                        }
                                        return Err(pair);
                                    },
                                    Ok(pair) => {
                                        proof {
                                            let tvv = trivia(srcv.skip(prev.at()));
                                            assert(prev.remaining() =~= srcv.skip(prev.at()));
                                            lemma_trivia_le(srcv.skip(prev.at()));
                                            assert(srcv.skip(prev.at() + tvv.used)
                                                =~= prev.remaining().skip(tvv.used as int));
                                            assert(step_base(srcv, prev.at(), pair, self.at()))
                                                by {
                                                assert(pair.0.span.end == Some(self.rc()));
                                                assert(is_rc(
                                                    self.rc(),
                                                    rc_after(srcv.take(self.at())),
                                                ));
                                            }
                                        }
                                        let mut stop = false;
                                        match &pair.1 {
                                            Token::CurlyBOpen => {
                                                count = count + 1;
                                            },
                                            Token::CurlyBClose => {
                                                if count == 0 {
                                                    stop = true;
                                                } else {
                                                    count = count - 1;
                                                }
                                            },
                                            _ => {},
                                        }
                                        if stop {
                                            proof {
                                                let tvv = trivia(srcv.skip(prev.at()));
                                                let ss = srcv.skip(prev.at() + tvv.used);
                                                assert(ss[0] == '}');
                                                assert(close_step(srcv, prev.at(), self.at()));
                                                assert(ok_chain(srcv, ns_start, tokens@, prev.at())
                                                    && close_step(srcv, prev.at(), self.at()));
                                                assert(exists|j: int|
                                                    #[trigger] ok_chain(srcv, ns_start, tokens@, j)
                                                        && close_step(srcv, j, self.at()));
                                                assert(group_lex(
                                                    srcv,
                                                    ns_start,
                                                    tokens@,
                                                    self.at(),
                                                ));
                                            }
                                            break ;
                                        }
                                        let ghost toksv = tokens@;
                                        let ghost cnt0 = depth_after(toksv, toksv.len() as int);
                                        tokens.push(pair);
                                        proof {
                                            let t = tokens@;
                                            let k = toksv.len() as int;
                                            assert(forall|i: int|
                                                0 <= i < toksv.len() ==> t[i] == #[trigger] toksv[i]);
                                            assert(items_ordered(t)) by {
                                                assert(span_ok(t[t.len() - 1].0.span));
                                                if toksv.len() > 0 {
                                                    assert(lex_le(
                                                        toksv[toksv.len() - 1].0.span.end.unwrap(),
                                                        prev.rc(),
                                                    ));
                                                }
                                            }
                                            lemma_depth_push(toksv, pair, k);
                                            assert(t[k] == pair);
                                            assert(depth_after(t, k + 1) == depth_after(t, k) + (
                                            if pair.1 is CurlyBOpen {
                                                1int
                                            } else if pair.1 is CurlyBClose {
                                                -1int
                                            } else {
                                                0int
                                            }));
                                            assert forall|kk: int|
                                                0 <= kk < t.len() && (#[trigger] t[kk]).1
                                                    is CurlyBClose implies depth_after(t, kk)
                                                >= 1 by {
                                                lemma_depth_push(toksv, pair, kk);
                                                if kk < k {
                                                    assert(toksv[kk].1 is CurlyBClose);
                                                }
                                            }
                                            lemma_ok_chain_snoc(
                                                srcv,
                                                ns_start,
                                                toksv,
                                                prev.at(),
                                                pair,
                                                self.at(),
                                            );
                                        }
                                    },
                                }
                            },
                        }
                    }
                    let ghost partsv2 = parts@;
                    let ghost gend = self.at();
                    parts.push(Interpol::Tokens(tokens));
                    proof {
                        assert(forall|i: int|
                            0 <= i < partsv2.len() ==> parts@[i] == #[trigger] partsv2[i]);
                        assert(parts@[partsv2.len() as int] matches Interpol::Tokens(v)
                            && items_ordered(v@));
                        assert(part_wf(parts@[partsv2.len() as int]));
                        assert(parts_alternate(parts@));
                        assert(parts@ =~= partsv.push(parts@[partsv.len() as int]).push(
                            parts@[partsv.len() as int + 1],
                        ));
                        assert(parts@[partsv.len() as int] is Literal
                            && parts@[partsv.len() as int]->Literal_0@ == lit0);
                        assert(parts@[partsv.len() as int + 1] is Tokens);
                        assert(parts@[partsv.len() as int + 1]->Tokens_0@ == tokens@);
                        lemma_parts_pre_snoc(
                            srcv,
                            str0,
                            multiline,
                            partsv,
                            seg0v,
                            parts@[partsv.len() as int],
                            parts@[partsv.len() as int + 1],
                            gend,
                        );
                        seg0 = gend;
                        assert(parts_pre(srcv, str0, multiline, parts@, seg0));
                        assert(literal@ =~= Seq::<char>::empty());
                    }
                }
            } else {
                self.advance();
                push_char(&mut literal, c);
                proof {
                    assert(scan_lit(srcv, at0, multiline, lit0) == scan_lit(
                        srcv,
                        self.at(),
                        multiline,
                        literal@,
                    ));
                }
            }
        }
        if parts.len() == 0 {
            proof {
                old(self).lemma_rc_le(*self);
                assert(seg0 == str0);
            }
            return self.span_end(meta, Token::Value(Value::Str(literal)));
        }
        if !literal.as_str().is_empty() {
            let ghost partsv3 = parts@;
            let ghost seg0f = seg0;
            parts.push(Interpol::Literal(literal));
            proof {
                assert(forall|i: int|
                    0 <= i < partsv3.len() ==> parts@[i] == #[trigger] partsv3[i]);
                assert(parts@[partsv3.len() as int] is Literal);
                assert(parts_alternate(parts@));
                let tail = seq![parts@[partsv3.len() as int]];
                assert(parts_lex(srcv, seg0f, multiline, tail, self.at()));
                lemma_parts_finish(srcv, str0, multiline, partsv3, seg0f, tail, self.at());
                assert(parts@ =~= partsv3 + tail);
            }
        } else {
            proof {
                let tail = Seq::<Interpol>::empty();
                assert(parts_lex(srcv, seg0, multiline, tail, self.at()));
                lemma_parts_finish(srcv, str0, multiline, parts@, seg0, tail, self.at());
                assert(parts@ =~= parts@ + tail);
            }
        }
        proof {
            old(self).lemma_rc_le(*self);
        }
        self.span_end(meta, Token::Interpol(parts))
    }

    /// Produce the next item of the token stream: `None` at the end of the
    /// input (after discarding trailing trivia), otherwise one token with the
    /// comments that preceded it and its exact span, or one error.
    #[verifier::rlimit(100)]
    pub fn next(&mut self) -> (r: Option<Item>)
        requires
            old(self).wf(),
        ensures
            final(self).wf(),
            final(self).src() == old(self).src(),
            final(self).at() >= old(self).at(),
            ({
                let rem0 = old(self).remaining();
                let tv = trivia(rem0);
                let s = rem0.skip(tv.used as int);
                &&& r is None ==> tv.ok && tv.used == rem0.len() && final(self).at()
                    == old(self).src().len()
                &&& r matches Some(Err((sp, e))) ==> {
                    &&& sp.end is None
                    &&& !tv.ok ==> e == TokenizeError::UnclosedComment && sp.start == old(
                        self,
                    ).rc()
                    &&& tv.ok ==> {
                        &&& s.len() > 0 && dispatch_err(s, e)
                        &&& (s[0] != '"' && !(s[0] == '\'' && s.len() >= 2 && s[1] == '\''))
                            ==> is_rc(
                            sp.start,
                            rc_after(old(self).src().take(old(self).at() + tv.used)),
                        )
                        &&& s[0] == '"' ==> !(scan_lit(
                            old(self).src(),
                            old(self).at() + tv.used + 1,
                            false,
                            Seq::empty(),
                        ).end is Closed)
                        &&& s[0] == '\'' && s.len() >= 2 && s[1] == '\'' ==> !(scan_lit(
                            old(self).src(),
                            old(self).at() + tv.used + 2,
                            true,
                            Seq::empty(),
                        ).end is Closed)
                    }
                }
                &&& r matches Some(Ok((mo, tok))) ==> {
                    &&& tv.ok && s.len() > 0
                    &&& strings_view(mo.comments@) == tv.comments
                    &&& is_rc(
                        mo.span.start,
                        rc_after(old(self).src().take(old(self).at() + tv.used)),
                    )
                    &&& lex_le(old(self).rc(), mo.span.start)
                    &&& mo.span.end == Some(final(self).rc())
                    &&& span_ok(mo.span)
                    &&& token_wf(tok)
                    &&& final(self).at() > old(self).at() + tv.used
                    &&& dispatch_ok(s, tok, final(self).at() - (old(self).at() + tv.used))
                    &&& s[0] == '"' ==> string_ok(
                        old(self).src(),
                        old(self).at() + tv.used + 1,
                        false,
                        tok,
                        final(self).at(),
                    )
                    &&& s[0] == '\'' && s.len() >= 2 && s[1] == '\'' ==> string_ok(
                        old(self).src(),
                        old(self).at() + tv.used + 2,
                        true,
                        tok,
                        final(self).at(),
                    )
                }
            }),
        decreases old(self).src().len() - old(self).at(),
    {
        let ghost rem0 = old(self).remaining();
        let ghost tv = trivia(rem0);
        let sp0 = self.span_start();
        let mut comments: Vec<String> = Vec::new();
        proof {
            assert(strings_view(comments@) =~= Seq::<Seq<char>>::empty());
            assert(tv.comments =~= strings_view(comments@) + trivia(self.remaining()).comments);
        }
        loop
            invariant
                self.wf(),
                self.src() == old(self).src(),
                old(self).at() <= self.at() <= self.src().len(),
                rem0 == old(self).remaining(),
                tv == trivia(rem0),
                trivia(self.remaining()).ok == tv.ok,
                tv.used == (self.at() - old(self).at()) + trivia(self.remaining()).used,
                tv.comments == strings_view(comments@) + trivia(self.remaining()).comments,
                sp0.start == old(self).rc(),
                sp0.end is None,
            ensures
                self.wf(),
                self.src() == old(self).src(),
                old(self).at() <= self.at() <= self.src().len(),
                tv.ok,
                tv.used == self.at() - old(self).at(),
                tv.comments == strings_view(comments@),
                trivia(self.remaining()).used == 0,
            decreases self.src().len() - self.at(),
        {
            let ghost cur = self.remaining();
            let c = match self.peek() {
                None => {
                    proof {
                        assert(cur.len() == 0);
                        assert(tv.comments =~= strings_view(comments@));
                    }
                    break ;
                },
                Some(c) => c,
            };
            proof {
                assert(cur[0] == c);
            }
            if space_char(c) {
                self.advance();
                proof {
                    assert(self.remaining() =~= cur.skip(1));
                }
            } else if c == '#' {
                // scan for the end of the line without moving the cursor
                let len = self.input.len();
                let mut q: usize = self.pos;
                while q < len && self.input[q] != '\n'
                    invariant
                        self.pos <= q <= len,
                        len == self.src().len(),
                        forall|j: int| self.pos <= j < q ==> (#[trigger] self.src()[j]) != '\n',
                    decreases len - q,
                {
                    q = q + 1;
                }
                let e_abs = if q < len {
                    q + 1
                } else {
                    len
                };
                proof {
                    assert forall|j: int| 0 <= j < q - self.at() implies (#[trigger] cur[j])
                        != '\n' by {
                        assert(cur[j] == self.src()[self.at() + j]);
                    }
                    if q < len {
                        assert(cur[q - self.at()] == self.src()[q as int]);
                    }
                    lemma_nl_end_is(cur, q - self.at());
                    assert(nl_end(cur) == e_abs - self.at());
                }
                let body = self.copy_chars(self.pos + 1, e_abs);
                proof {
                    assert(body@ =~= cur.subrange(1, e_abs - self.at()));
                }
                let ghost comv = comments@;
                comments.push(body);
                // advance over the comment so that the position stays exact
                let ghost before = self.at();
                loop
                    invariant
                        self.wf(),
                        self.src() == old(self).src(),
                        before <= self.at() <= e_abs <= self.src().len(),
                    ensures
                        self.wf(),
                        self.src() == old(self).src(),
                        self.at() == e_abs,
                    decreases e_abs - self.at(),
                {
                    if self.pos >= e_abs {
                        break ;
                    }
                    self.advance();
                }
                proof {
                    assert(self.remaining() =~= cur.skip(nl_end(cur) as int));
                    assert(strings_view(comments@) =~= strings_view(comv).push(body@));
                    assert(tv.comments =~= strings_view(comments@) + trivia(
                        self.remaining(),
                    ).comments);
                }
            } else if c == '/' {
                let len = self.input.len();
                let star = self.pos + 1 < len && self.input[self.pos + 1] == '*';
                if !star {
                    proof {
                        if 1 < cur.len() {
                            assert(cur[1] == self.src()[self.at() + 1]);
                        }
                        assert(trivia(self.remaining()).used == 0);
                        assert(tv.comments =~= strings_view(comments@));
                    }
                    break ;
                }
                proof {
                    assert(cur[1] == self.src()[self.at() + 1]);
                }
                // scan for the closing delimiter without moving the cursor
                let mut q: usize = self.pos + 2;
                let mut found = false;
                loop
                    invariant_except_break
                        !found,
                    invariant
                        self.pos + 2 <= q <= len,
                        2 <= len == self.src().len(),
                        forall|j: int|
                            self.pos + 2 <= j < q ==> !((#[trigger] self.src()[j]) == '*'
                                && self.src()[j + 1] == '/'),
                    ensures
                        self.pos + 2 <= q <= len,
                        found ==> q + 1 < len && self.src()[q as int] == '*' && self.src()[q + 1]
                            == '/',
                        !found ==> q + 1 >= len,
                    decreases len - q,
                {
                    if q >= len - 1 {
                        break ;
                    }
                    if self.input[q] == '*' && self.input[q + 1] == '/' {
                        found = true;
                        break ;
                    }
                    q = q + 1;
                }
                let ghost tail = cur.skip(2);
                proof {
                    assert(tail.len() == cur.len() - 2);
                    let m: int = if found {
                        q - self.at() - 2
                    } else if tail.len() >= 1 {
                        tail.len() - 1
                    } else {
                        0
                    };
                    if found || tail.len() >= 1 {
                        assert forall|j: int| 0 <= j < m implies !((#[trigger] tail[j]) == '*'
                            && tail[j + 1] == '/') by {
                            assert(tail[j] == self.src()[self.at() + 2 + j]);
                            assert(tail[j + 1] == self.src()[self.at() + 2 + j + 1]);
                        }
                        if found {
                            assert(tail[m] == self.src()[q as int]);
                            assert(tail[m + 1] == self.src()[q + 1]);
                        }
                        lemma_close_at_is(tail, m);
                    } else {
                        assert(tail.len() < 2);
                        assert(close_at(tail) is None);
                    }
                }
                if !found {
                    proof {
                        assert(!tv.ok);
                    }
                    let meta = Meta { span: sp0, comments };
                    return Some(self.span_err(meta, TokenizeError::UnclosedComment));
                }
                let body = self.copy_chars(self.pos + 2, q);
                proof {
                    assert(close_at(tail) == Some((q - self.at() - 2) as nat));
                    assert(body@ =~= cur.subrange(2, q - self.at()));
                }
                let ghost comv = comments@;
                comments.push(body);
                let target = q + 2;
                let ghost before = self.at();
                loop
                    invariant
                        self.wf(),
                        self.src() == old(self).src(),
                        before <= self.at() <= target <= self.src().len(),
                    ensures
                        self.wf(),
                        self.src() == old(self).src(),
                        self.at() == target,
                    decreases target - self.at(),
                {
                    if self.pos >= target {
                        break ;
                    }
                    self.advance();
                }
                proof {
                    assert(self.remaining() =~= cur.skip(q - before + 2));
                    assert(strings_view(comments@) =~= strings_view(comv).push(body@));
                    assert(tv.comments =~= strings_view(comments@) + trivia(
                        self.remaining(),
                    ).comments);
                }
            } else {
                proof {
                    assert(trivia(self.remaining()).used == 0);
                    assert(tv.comments =~= strings_view(comments@));
                }
                break ;
            }
        }
        let ghost pos_t = self.at();
        let ghost s = self.remaining();
        proof {
            assert(s =~= rem0.skip(tv.used as int));
        }
        let kind = classify_at(&self.input, self.pos);
        let meta = Meta { span: self.span_start(), comments };
        let ghost mid = *self;
        let c = match self.advance() {
            None => {
                return None;
            },
            Some(c) => c,
        };
        proof {
            assert(c == s[0]);
            assert(self.remaining() =~= s.skip(1));
            old(self).lemma_rc_le(mid);
            assert(meta.span.start == mid.rc());
            assert(is_rc(meta.span.start, rc_after(old(self).src().take(pos_t))));
            assert(strings_view(meta.comments@) == tv.comments);
        }
        if c == '~' || kind == IdentType::Path {
            let r = self.next_path(c, meta);
            proof {
                if c == '~' {
                    if s.len() >= 2 && s[1] == '/' {
                        assert(s.skip(1)[0] == s[1]);
                        assert(s.skip(1).skip(1) =~= s.skip(2));
                    } else {
                        if s.len() >= 2 {
                            assert(s.skip(1)[0] == s[1]);
                        }
                    }
                }
            }
            return Some(r);
        }
        if c == '{' {
            return Some(self.span_end(meta, Token::CurlyBOpen));
        } else if c == '}' {
            return Some(self.span_end(meta, Token::CurlyBClose));
        } else if c == '=' {
            return Some(self.span_end(meta, Token::Equal));
        } else if c == ';' {
            return Some(self.span_end(meta, Token::Semicolon));
        } else if c == '[' {
            return Some(self.span_end(meta, Token::SquareBOpen));
        } else if c == ']' {
            return Some(self.span_end(meta, Token::SquareBClose));
        } else if c == '(' {
            return Some(self.span_end(meta, Token::ParenOpen));
        } else if c == ')' {
            return Some(self.span_end(meta, Token::ParenClose));
        } else if c == '*' {
            return Some(self.span_end(meta, Token::Mul));
        } else if c == '.' {
            return Some(self.span_end(meta, Token::Dot));
        } else if c == '+' {
            let cat = match self.peek() {
                Some(cc) => cc == '+',
                None => false,
            };
            if cat {
                proof {
                    assert(s.skip(1)[0] == s[1]);
                }
                self.advance();
                return Some(self.span_end(meta, Token::Concat));
            }
            proof {
                if s.len() >= 2 {
                    assert(s.skip(1)[0] == s[1]);
                }
            }
            return Some(self.span_end(meta, Token::Add));
        } else if c == '-' {
            return Some(self.span_end(meta, Token::Sub));
        } else if c == '/' {
            return Some(self.span_end(meta, Token::Div));
        } else if c == '<' {
            let r = self.next_store(meta);
            proof {
                let m = run_len(CharClass::Path, s.skip(1)) as int;
                if m < s.skip(1).len() {
                    assert(s.skip(1)[m] == s[1 + m]);
                }
            }
            return Some(r);
        } else if letter_char(c) {
            let r = self.next_word(c, kind, meta);
            return Some(r);
        } else if c == '"' {
            let r = self.next_string(meta, false);
            return Some(r);
        } else if c == '\'' {
            let tick = match self.peek() {
                Some(cc) => cc == '\'',
                None => false,
            };
            if !tick {
                proof {
                    if s.len() >= 2 {
                        assert(s.skip(1)[0] == s[1]);
                    }
                }
                return Some(self.span_err(meta, TokenizeError::UndefinedToken));
            }
            proof {
                assert(s.skip(1)[0] == s[1]);
            }
            self.advance();
            let r = self.next_string(meta, true);
            return Some(r);
        } else if digit_char(c) {
            let r = self.next_number(c, meta);
            proof {
                assert(seq![c] + mid.remaining().skip(1) =~= s);
            }
            return Some(r);
        } else {
            return Some(self.span_err(meta, TokenizeError::UndefinedToken));
        }
    }
}

/// Tokenize a whole source text: the stream of tokens in source order, ended
/// early by the first lexical fault, if any.  The stream is exactly what the
/// lexer yields: a chain of dispatched tokens from the start of the input,
/// closed by a clean end of input or by one error; it is empty exactly when
/// the input is nothing but well-formed trivia.
pub fn tokenize(input: &str) -> (r: Vec<Item>)
    ensures
        stream_wf(r@),
        stream_lexed(input@, r@),
        r@.len() == 0 <==> trivia(input@).ok && trivia(input@).used == input@.len(),
{
    let mut t = Tokenizer::new(input);
    let mut items: Vec<Item> = Vec::new();
    loop
        invariant_except_break
            forall|i: int| 0 <= i < items@.len() ==> (#[trigger] items@[i]) is Ok,
            items@.len() > 0 ==> !(trivia(input@).ok && trivia(input@).used == input@.len()),
            items@.len() > 0 ==> (items@[items@.len() - 1] matches Ok(p) && lex_le(
                p.0.span.end.unwrap(),
                t.rc(),
            )),
            items@.len() == 0 ==> t.at() == 0 && t.remaining() == input@,
            items_chain(input@, 0, items@, t.at()),
        invariant
            t.wf(),
            t.src() == input@,
            stream_wf(items@),
        ensures
            stream_wf(items@),
            stream_lexed(input@, items@),
            items@.len() == 0 <==> trivia(input@).ok && trivia(input@).used == input@.len(),
        decreases t.src().len() - t.at() + 1,
    {
        let ghost prev = t;
        let item = t.next();
        match item {
            None => {
                proof {
                    assert(prev.remaining() =~= input@.skip(prev.at()));
                    assert(stream_at_end(input@, prev.at()));
                    if items@.len() == 0 {
                        assert(trivia(input@).ok);
                        assert(trivia(input@).used == input@.len());
                    } else {
                        assert(items@.last() is Ok);
                        assert(items_chain(input@, 0, items@, prev.at()) && stream_at_end(
                            input@,
                            prev.at(),
                        ));
                        assert(exists|j: int|
                            #[trigger] items_chain(input@, 0, items@, j) && stream_at_end(
                                input@,
                                j,
                            ));
                    }
                }
                break ;
            },
            Some(it) => {
                let is_err = it.is_err();
                let ghost itv = it;
                let ghost itemsv = items@;
                items.push(it);
                proof {
                    let v = items@;
                    assert(forall|i: int| 0 <= i < itemsv.len() ==> v[i] == #[trigger] itemsv[i]);
                    let tv = trivia(input@.skip(prev.at()));
                    assert(prev.remaining() =~= input@.skip(prev.at()));
                    lemma_trivia_le(input@.skip(prev.at()));
                    assert(input@.skip(prev.at() + tv.used) =~= prev.remaining().skip(
                        tv.used as int,
                    ));
                    if itemsv.len() == 0 {
                        assert(prev.at() == 0);
                        assert(input@.skip(0) =~= input@);
                        if tv.ok {
                            assert(input@.skip(tv.used as int).len() > 0);
                            assert(tv.used < input@.len());
                        }
                        assert(!(trivia(input@).ok && trivia(input@).used == input@.len()));
                    }
                    match itv {
                        Ok(p) => {
                            assert(v =~= itemsv.push(Ok(p)));
                            assert(step_ok(input@, prev.at(), p, t.at())) by {
                                assert(p.0.span.end == Some(t.rc()));
                                assert(is_rc(t.rc(), rc_after(input@.take(t.at()))));
                                assert(is_rc(
                                    p.0.span.start,
                                    rc_after(input@.take(prev.at() + tv.used)),
                                ));
                            }
                            lemma_items_chain_snoc(input@, 0, itemsv, prev.at(), p, t.at());
                        },
                        Err((sp, e)) => {
                            assert(err_step(input@, prev.at(), sp, e)) by {
                                if !tv.ok {
                                    assert(sp.start == prev.rc());
                                    assert(is_rc(prev.rc(), rc_after(input@.take(prev.at()))));
                                }
                            }
                            assert(v.take(v.len() - 1) =~= itemsv);
                            assert(v.last() is Err);
                            assert(items_chain(input@, 0, v.take(v.len() - 1), prev.at())
                                && err_step(input@, prev.at(), sp, e));
                            assert(exists|j: int|
                                #[trigger] items_chain(input@, 0, v.take(v.len() - 1), j)
                                    && err_step(input@, j, sp, e));
                        },
                    }
                    assert(stream_wf(v)) by {
                        if itemsv.len() > 0 {
                            assert(itemsv[itemsv.len() - 1] matches Ok(p) && lex_le(
                                p.0.span.end.unwrap(),
                                prev.rc(),
                            ));
                        }
                    }
                }
                if is_err {
                    break ;
                }
            },
        }
    }
    items
}

} // verus!