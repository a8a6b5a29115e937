use nix_lexer::{Anchor, Interpol, Meta, Span, Token, TokenizeError, Value};

fn tokenize(input: &str) -> Result<Vec<Token>, TokenizeError> {
    let mut out = Vec::new();
    for item in nix_lexer::tokenize(input) {
        match item {
            Ok((_, token)) => out.push(token),
            Err((_, err)) => return Err(err),
        }
    }
    Ok(out)
}

fn spans(input: &str) -> Vec<(Meta, Token)> {
    let mut out = Vec::new();
    for item in nix_lexer::tokenize(input) {
        out.push(item.expect("lexes"));
    }
    out
}

#[test]
fn empty_input() {
    assert_eq!(tokenize(""), Ok(vec![]));
    assert_eq!(tokenize("   \n\t "), Ok(vec![]));
    assert_eq!(tokenize("# only a comment"), Ok(vec![]));
}

#[test]
fn integer_bounds() {
    assert_eq!(
        tokenize("9223372036854775807"),
        Ok(vec![Token::Value(Value::Integer(i64::MAX))])
    );
    assert_eq!(tokenize("9223372036854775808"), Err(TokenizeError::IntegerOverflow));
}

#[test]
fn trailing_decimal() {
    assert_eq!(tokenize("1."), Err(TokenizeError::TrailingDecimal));
}

#[test]
fn trailing_slash() {
    assert_eq!(tokenize("/hello/"), Err(TokenizeError::TrailingSlash));
    assert_eq!(tokenize("~/hello/"), Err(TokenizeError::TrailingSlash));
    assert_eq!(tokenize("<hello/>"), Err(TokenizeError::TrailingSlash));
}

#[test]
fn unclosed_comment() {
    assert_eq!(tokenize("/* never closed"), Err(TokenizeError::UnclosedComment));
    // the closing delimiter must stand after the opening one, not overlap it
    assert_eq!(tokenize("/*/"), Err(TokenizeError::UnclosedComment));
}

#[test]
fn unexpected_eof_in_string() {
    assert_eq!(tokenize("\"unterminated"), Err(TokenizeError::UnexpectedEOF));
    assert_eq!(tokenize("''unterminated"), Err(TokenizeError::UnexpectedEOF));
    assert_eq!(tokenize("\"open ${ 1 + 1"), Err(TokenizeError::UnexpectedEOF));
    assert_eq!(tokenize("\"ends in a backslash\\"), Err(TokenizeError::UnexpectedEOF));
}

#[test]
fn undefined_tokens() {
    assert_eq!(tokenize("'"), Err(TokenizeError::UndefinedToken));
    assert_eq!(tokenize("~x"), Err(TokenizeError::UndefinedToken));
    assert_eq!(tokenize("<unclosed"), Err(TokenizeError::UndefinedToken));
    assert_eq!(tokenize("%"), Err(TokenizeError::UndefinedToken));
}

#[test]
fn colon_without_follower() {
    // a `:` at the end of input gates the URI classifier, so the identifier
    // stands alone and the `:` itself starts no token
    assert_eq!(tokenize("a:"), Err(TokenizeError::UndefinedToken));
    assert_eq!(
        tokenize("a:b"),
        Ok(vec![Token::Value(Value::Path(Anchor::Uri, "a:b".into()))])
    );
}

#[test]
fn leading_dot_is_not_a_float() {
    assert_eq!(
        tokenize(".5"),
        Ok(vec![Token::Dot, Token::Value(Value::Integer(5))])
    );
}

#[test]
fn comment_order_is_kept() {
    let items = spans("# one\n# two\nx");
    assert_eq!(items.len(), 1);
    assert_eq!(items[0].1, Token::Ident("x".into()));
    assert_eq!(items[0].0.comments, vec![" one\n".to_string(), " two\n".to_string()]);
}

#[test]
fn indented_string_drops_leading_newline() {
    assert_eq!(
        tokenize("''\nhello''"),
        Ok(vec![Token::Value(Value::Str("hello".into()))])
    );
}

#[test]
fn spans_are_ordered() {
    let items = spans("let a = 3;\nin a ++ [ 1 ]");
    let mut prev: (u64, u64) = (0, 0);
    for (meta, _) in items {
        let start = meta.span.start;
        let end = meta.span.end.expect("finished span");
        assert!(prev.0 < start.0 || (prev.0 == start.0 && prev.1 <= start.1));
        assert!(start.0 < end.0 || (start.0 == end.0 && start.1 < end.1));
        prev = end;
    }
}

#[test]
fn nested_interpolation() {
    let tokens = tokenize(r#""a${ "b${ 1 }c" }d""#).expect("lexes");
    assert_eq!(tokens.len(), 1);
    match &tokens[0] {
        Token::Interpol(parts) => {
            assert_eq!(parts.len(), 3);
            assert_eq!(parts[0], Interpol::Literal("a".into()));
            assert_eq!(parts[2], Interpol::Literal("d".into()));
            match &parts[1] {
                Interpol::Tokens(group) => {
                    assert_eq!(group.len(), 1);
                    match &group[0].1 {
                        Token::Interpol(inner) => {
                            assert_eq!(inner.len(), 3);
                            assert_eq!(inner[0], Interpol::Literal("b".into()));
                            assert_eq!(inner[2], Interpol::Literal("c".into()));
                            match &inner[1] {
                                Interpol::Tokens(leaf) => {
                                    assert_eq!(leaf.len(), 1);
                                    assert_eq!(leaf[0].1, Token::Value(Value::Integer(1)));
                                }
                                other => panic!("expected tokens, got {:?}", other),
                            }
                        }
                        other => panic!("expected an interpolation, got {:?}", other),
                    }
                }
                other => panic!("expected tokens, got {:?}", other),
            }
        }
        other => panic!("expected an interpolation, got {:?}", other),
    }
}

#[test]
fn until_joins_spans() {
    let a = Meta { span: Span { start: (0, 0), end: Some((0, 3)) }, comments: vec![] };
    let b = Meta { span: Span { start: (0, 4), end: Some((0, 9)) }, comments: vec![] };
    let joined = a.until(&b);
    assert_eq!(joined.span, Span { start: (0, 0), end: Some((0, 9)) });
    let s = Span { start: (1, 2), end: Some((1, 5)) }.until(Span { start: (2, 0), end: None });
    assert_eq!(s, Span { start: (1, 2), end: None });
}
