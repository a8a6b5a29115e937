use nix_lexer::{Anchor, FloatLit, Interpol, Meta, Span, Token, TokenizeError, Value};

fn tokenize(input: &str) -> Result<Vec<Token>, TokenizeError> {
    let mut out = Vec::new();
    for item in nix_lexer::tokenize(input) {
        match item {
            Ok((_, token)) => out.push(token),
            Err((_, err)) => return Err(err),
        }
    }
    Ok(out)
}

fn tokenize_span(input: &str) -> Result<Vec<(Meta, Token)>, (Span, TokenizeError)> {
    let mut out = Vec::new();
    for item in nix_lexer::tokenize(input) {
        match item {
            Ok(pair) => out.push(pair),
            Err(pair) => return Err(pair),
        }
    }
    Ok(out)
}

fn meta_at(start: (u64, u64), end: (u64, u64)) -> Meta {
    Meta { span: Span { start, end: Some(end) }, comments: vec![] }
}

/// The value of a fractional literal, computed as the lexer's consumers do:
/// the k-th fraction digit is divided by the k-th power of ten.
fn float_value(f: &FloatLit) -> f64 {
    let mut i: u32 = 1;
    let mut num = f.whole as f64;
    for d in &f.frac {
        i *= 10;
        num += *d as f64 / i as f64;
    }
    num
}

#[test]
fn basic_int_set() {
    assert_eq!(
        tokenize("{ int = 42; }"),
        Ok(vec![
            Token::CurlyBOpen,
            Token::Ident("int".into()),
            Token::Equal,
            Token::Value(Value::Integer(42)),
            Token::Semicolon,
            Token::CurlyBClose
        ])
    );
}

#[test]
fn basic_float_set() {
    let tokens = tokenize("{ float = 1.234; }").expect("lexes");
    assert_eq!(tokens.len(), 6);
    assert_eq!(tokens[0], Token::CurlyBOpen);
    assert_eq!(tokens[1], Token::Ident("float".into()));
    assert_eq!(tokens[2], Token::Equal);
    match &tokens[3] {
        Token::Value(Value::Float(f)) => {
            assert_eq!(f, &FloatLit { whole: 1, frac: vec![2, 3, 4] });
            assert_eq!(float_value(f), 1.234);
        }
        other => panic!("expected a float, got {:?}", other),
    }
    assert_eq!(tokens[4], Token::Semicolon);
    assert_eq!(tokens[5], Token::CurlyBClose);
}

#[test]
fn basic_string_set() {
    assert_eq!(
        tokenize(r#"{ string = "Hello \"World\""; }"#),
        Ok(vec![
            Token::CurlyBOpen,
            Token::Ident("string".into()),
            Token::Equal,
            Token::Value(Value::Str("Hello \"World\"".into())),
            Token::Semicolon,
            Token::CurlyBClose
        ])
    );
}

#[test]
fn meta() {
    assert_eq!(
        tokenize_span("{\n    int /* hi */ = 1; # testing comments!\n}"),
        Ok(vec![
            (meta_at((0, 0), (0, 1)), Token::CurlyBOpen),
            (meta_at((1, 4), (1, 7)), Token::Ident("int".to_string())),
            (
                Meta {
                    comments: vec![" hi ".into()],
                    span: Span { start: (1, 17), end: Some((1, 18)) },
                },
                Token::Equal
            ),
            (meta_at((1, 19), (1, 20)), Token::Value(Value::Integer(1))),
            (meta_at((1, 20), (1, 21)), Token::Semicolon),
            (
                Meta {
                    comments: vec![" testing comments!\n".into()],
                    span: Span { start: (2, 0), end: Some((2, 1)) },
                },
                Token::CurlyBClose
            )
        ])
    );
    assert_eq!(
        tokenize_span("{\n    overflow = 9999999999999999999999999999"),
        Err((Span { start: (1, 15), end: None }, TokenizeError::IntegerOverflow))
    );
}

#[test]
fn multiline() {
    assert_eq!(
        tokenize(
            r#"{
    multiline = ''
        This is a
        multiline
        string :D
        \'\'\'\'\
    '';
}"#
        ),
        Ok(vec![
            Token::CurlyBOpen,
            Token::Ident("multiline".into()),
            Token::Equal,
            Token::Value(Value::Str(
                r#"This is a
multiline
string :D
\'\'\'\'\
"#
                .into()
            )),
            Token::Semicolon,
            Token::CurlyBClose
        ])
    );
}

#[test]
fn interpolation() {
    assert_eq!(
        tokenize_span(r#" "Hello, ${ { world = "World"; }.world }!" "#),
        Ok(vec![(
            meta_at((0, 1), (0, 42)),
            Token::Interpol(vec![
                Interpol::Literal("Hello, ".into()),
                Interpol::Tokens(vec![
                    (meta_at((0, 12), (0, 13)), Token::CurlyBOpen),
                    (meta_at((0, 14), (0, 19)), Token::Ident("world".into())),
                    (meta_at((0, 20), (0, 21)), Token::Equal),
                    (meta_at((0, 22), (0, 29)), Token::Value(Value::Str("World".into()))),
                    (meta_at((0, 29), (0, 30)), Token::Semicolon),
                    (meta_at((0, 31), (0, 32)), Token::CurlyBClose),
                    (meta_at((0, 32), (0, 33)), Token::Dot),
                    (meta_at((0, 33), (0, 38)), Token::Ident("world".into()))
                ]),
                Interpol::Literal("!".into())
            ])
        )])
    );
}

#[test]
fn math() {
    assert_eq!(
        tokenize("1 + 2 * 3"),
        Ok(vec![
            Token::Value(Value::Integer(1)),
            Token::Add,
            Token::Value(Value::Integer(2)),
            Token::Mul,
            Token::Value(Value::Integer(3))
        ])
    );
    assert_eq!(
        tokenize("5 * -(3 - 2)"),
        Ok(vec![
            Token::Value(Value::Integer(5)),
            Token::Mul,
            Token::Sub,
            Token::ParenOpen,
            Token::Value(Value::Integer(3)),
            Token::Sub,
            Token::Value(Value::Integer(2)),
            Token::ParenClose
        ])
    );
    assert_eq!(
        tokenize("a/ 3"), // <- could get mistaken for a path
        Ok(vec![Token::Ident("a".into()), Token::Div, Token::Value(Value::Integer(3))])
    );
}

#[test]
fn let_in() {
    assert_eq!(
        tokenize("let a = 3; in a"),
        Ok(vec![
            Token::Let,
            Token::Ident("a".into()),
            Token::Equal,
            Token::Value(Value::Integer(3)),
            Token::Semicolon,
            Token::In,
            Token::Ident("a".into())
        ])
    );
}

#[test]
fn with() {
    assert_eq!(
        tokenize("with namespace; expr"),
        Ok(vec![
            Token::With,
            Token::Ident("namespace".into()),
            Token::Semicolon,
            Token::Ident("expr".into())
        ])
    );
}

#[test]
fn paths() {
    fn path(anchor: Anchor, path: &str) -> Result<Vec<Token>, TokenizeError> {
        Ok(vec![Token::Value(Value::Path(anchor, path.into()))])
    }
    assert_eq!(tokenize("/hello/world"), path(Anchor::Absolute, "/hello/world"));
    assert_eq!(tokenize("hello/world"), path(Anchor::Relative, "hello/world"));
    assert_eq!(tokenize("a+3/5+b"), path(Anchor::Relative, "a+3/5+b"));
    assert_eq!(tokenize("1-2/3"), path(Anchor::Relative, "1-2/3"));
    assert_eq!(tokenize("./hello/world"), path(Anchor::Relative, "./hello/world"));
    assert_eq!(tokenize("~/hello/world"), path(Anchor::Home, "hello/world"));
    assert_eq!(tokenize("<hello/world>"), path(Anchor::Store, "hello/world"));
    assert_eq!(
        tokenize("https://google.com/?q=Hello+World"),
        path(Anchor::Uri, "https://google.com/?q=Hello+World")
    );
}

#[test]
fn import() {
    assert_eq!(
        tokenize("import <nixpkgs>"),
        Ok(vec![Token::Import, Token::Value(Value::Path(Anchor::Store, "nixpkgs".into()))])
    );
}

#[test]
fn list() {
    assert_eq!(
        tokenize(r#"[a 2 3 "lol"]"#),
        Ok(vec![
            Token::SquareBOpen,
            Token::Ident("a".into()),
            Token::Value(Value::Integer(2)),
            Token::Value(Value::Integer(3)),
            Token::Value(Value::Str("lol".into())),
            Token::SquareBClose
        ])
    );
    assert_eq!(
        tokenize(r#"[1] ++ [2] ++ [3]"#),
        Ok(vec![
            Token::SquareBOpen,
            Token::Value(Value::Integer(1)),
            Token::SquareBClose,
            Token::Concat,
            Token::SquareBOpen,
            Token::Value(Value::Integer(2)),
            Token::SquareBClose,
            Token::Concat,
            Token::SquareBOpen,
            Token::Value(Value::Integer(3)),
            Token::SquareBClose
        ])
    );
}
