use sift::parse::{is_sym_char, number_description, parse, tokenize, ParseError, Token};
use sift::types::{BatchEntry, Binding, Expr, Number, SearchOpts, Weights};

fn num(lit: &str) -> Number {
    Number { literal: lit.to_string() }
}

#[test]
fn parse_simple_rg() {
    let expr = parse(r#"(rg "TODO")"#).unwrap();
    assert_eq!(expr, Expr::Rg("TODO".into(), SearchOpts::default()));
}

#[test]
fn parse_rg_with_opts() {
    let expr = parse(r#"(rg "pattern" :lang "rust" :x "*test*")"#).unwrap();
    assert_eq!(
        expr,
        Expr::Rg("pattern".into(), SearchOpts {
            lang: Some("rust".into()),
            exclude: vec!["*test*".into()],
            ..Default::default()
        })
    );
}

#[test]
fn parse_intersection() {
    let expr = parse(r#"(& (rg "async") (rg "tokio"))"#).unwrap();
    assert_eq!(expr, Expr::And(vec![
        Expr::Rg("async".into(), SearchOpts::default()),
        Expr::Rg("tokio".into(), SearchOpts::default()),
    ]));
}

#[test]
fn parse_diff() {
    let expr = parse(r#"(- (rg "fn") (rg "test"))"#).unwrap();
    assert_eq!(expr, Expr::Diff(
        Box::new(Expr::Rg("fn".into(), SearchOpts::default())),
        Box::new(Expr::Rg("test".into(), SearchOpts::default())),
    ));
}

#[test]
fn parse_pipe() {
    let expr = parse(r#"(pipe (rg "auth") (rg "TODO"))"#).unwrap();
    assert_eq!(expr, Expr::Pipe(
        Box::new(Expr::Rg("auth".into(), SearchOpts::default())),
        Box::new(Expr::Rg("TODO".into(), SearchOpts::default())),
    ));
}

#[test]
fn parse_top() {
    let expr = parse(r#"(top 5 (rg "TODO"))"#).unwrap();
    assert_eq!(expr, Expr::Top(num("5"), Box::new(Expr::Rg("TODO".into(), SearchOpts::default()))));
}

#[test]
fn parse_mix_equal() {
    let expr = parse(r#"(mix (rg "x") (rg "y"))"#).unwrap();
    assert_eq!(expr, Expr::Mix(Weights::Equal, vec![
        Expr::Rg("x".into(), SearchOpts::default()),
        Expr::Rg("y".into(), SearchOpts::default()),
    ]));
}

#[test]
fn parse_mix_weighted() {
    let expr = parse(r#"(mix [0.6 0.4] (rg "x") (rg "y"))"#).unwrap();
    assert_eq!(expr, Expr::Mix(Weights::Explicit(vec![num("0.6"), num("0.4")]), vec![
        Expr::Rg("x".into(), SearchOpts::default()),
        Expr::Rg("y".into(), SearchOpts::default()),
    ]));
}

#[test]
fn parse_let_binding() {
    let expr = parse(r#"(let [x (rg "foo")] (top 5 x))"#).unwrap();
    assert_eq!(expr, Expr::Let(
        vec![Binding { name: "x".into(), value: Expr::Rg("foo".into(), SearchOpts::default()) }],
        Box::new(Expr::Top(num("5"), Box::new(Expr::Var("x".into())))),
    ));
}

#[test]
fn parse_nested() {
    let expr = parse(r#"(top 10 (mix [0.6 0.4] (sem "retry with exponential backoff") (rg "retry|backoff")))"#).unwrap();
    assert_eq!(expr, Expr::Top(num("10"), Box::new(Expr::Mix(
        Weights::Explicit(vec![num("0.6"), num("0.4")]),
        vec![
            Expr::Sem("retry with exponential backoff".into(), SearchOpts::default()),
            Expr::Rg("retry|backoff".into(), SearchOpts::default()),
        ]
    ))));
}

#[test]
fn parse_comments() {
    let expr = parse(";; find TODOs\n(rg \"TODO\")").unwrap();
    assert_eq!(expr, Expr::Rg("TODO".into(), SearchOpts::default()));
}

#[test]
fn parse_threshold() {
    let expr = parse(r#"(> 0.5 (rg "auth"))"#).unwrap();
    assert_eq!(expr, Expr::Threshold(num("0.5"), Box::new(Expr::Rg("auth".into(), SearchOpts::default()))));
}

// ── Further cases ───────────────────────────────────────────────────

#[test]
fn numeric_literals_read_as_floats() {
    for lit in ["5", "0.5", "10", "0.6", "-3", "7."] {
        let expr = parse(&format!("(top {lit} x)")).unwrap();
        match expr {
            Expr::Top(n, _) => assert_eq!(n.literal.parse::<f64>().unwrap(), lit.parse::<f64>().unwrap()),
            other => panic!("unexpected {other:?}"),
        }
    }
}

#[test]
fn tokenize_all_token_kinds() {
    let toks = tokenize("(x [1.5 -2] \"a\\nb\" :in - >)").unwrap();
    assert_eq!(toks, vec![
        Token::Open,
        Token::Sym("x".into()),
        Token::BracketOpen,
        Token::Num(num("1.5")),
        Token::Num(num("-2")),
        Token::BracketClose,
        Token::Str("a\nb".into()),
        Token::Keyword("in".into()),
        Token::Sym("-".into()),
        Token::Sym(">".into()),
        Token::Close,
    ]);
}

#[test]
fn tokenize_string_escapes() {
    let toks = tokenize(r#""q\"\\\t\z""#).unwrap();
    assert_eq!(toks, vec![Token::Str("q\"\\\t\\z".into())]);
}

#[test]
fn tokenize_errors() {
    match tokenize("(rg \"open") {
        Err(ParseError::Other(m)) => assert_eq!(m, "unterminated string starting at 5"),
        other => panic!("unexpected {other:?}"),
    }
    match tokenize("(rg @)") {
        Err(ParseError::Other(m)) => assert_eq!(m, "unexpected character '@' at position 4"),
        other => panic!("unexpected {other:?}"),
    }
    match tokenize("1.2.3") {
        Err(ParseError::ExpectedNumber(p)) => assert_eq!(p, 0),
        other => panic!("unexpected {other:?}"),
    }
}

#[test]
fn parse_errors() {
    assert!(matches!(parse(""), Err(ParseError::UnexpectedEof)));
    assert!(matches!(parse("(rg \"a\""), Err(ParseError::UnexpectedEof)));
    assert!(matches!(parse("(rg x)"), Err(ParseError::ExpectedString(2))));
    assert!(matches!(parse("(top x (rg \"a\"))"), Err(ParseError::ExpectedNumber(2))));
    assert!(matches!(parse("(- (rg \"a\") (rg \"b\") (rg \"c\"))"), Err(ParseError::ExpectedClose(10))));
    match parse("(frobnicate)") {
        Err(ParseError::UnknownForm(f)) => assert_eq!(f, "frobnicate"),
        other => panic!("unexpected {other:?}"),
    }
    match parse("(rg \"a\" :color \"red\")") {
        Err(ParseError::Other(m)) => assert_eq!(m, "unknown keyword :color"),
        other => panic!("unexpected {other:?}"),
    }
    match parse("(rg \"a\") x") {
        Err(ParseError::Other(m)) => assert_eq!(m, "trailing tokens at position 4"),
        other => panic!("unexpected {other:?}"),
    }
    match parse("(let x)") {
        Err(ParseError::Other(m)) => assert_eq!(m, "expected '[' in let at position 2"),
        other => panic!("unexpected {other:?}"),
    }
}

#[test]
fn parse_all_filters_and_forms() {
    let expr = parse(r#"(| (lex "a" :in "src/" :i "*.rs" :i "*.py") (let [a (rg "x") b a] (> 0.1 b)))"#).unwrap();
    assert_eq!(expr, Expr::Or(vec![
        Expr::Lex("a".into(), SearchOpts {
            scope: Some("src/".into()),
            includes: vec!["*.rs".into(), "*.py".into()],
            ..Default::default()
        }),
        Expr::Let(
            vec![
                Binding { name: "a".into(), value: Expr::Rg("x".into(), SearchOpts::default()) },
                Binding { name: "b".into(), value: Expr::Var("a".into()) },
            ],
            Box::new(Expr::Threshold(num("0.1"), Box::new(Expr::Var("b".into())))),
        ),
    ]));
}

#[test]
fn symbol_bytes() {
    for c in b"azAZ09_-&|>*/.!?+" {
        assert!(is_sym_char(*c));
    }
    for c in b"()[]\" :;@#{}" {
        assert!(!is_sym_char(*c));
    }
}

#[test]
fn parse_error_messages() {
    assert_eq!(ParseError::UnexpectedEof.message(), "unexpected end of input");
    assert_eq!(ParseError::ExpectedClose(7).message(), "expected ')' at position 7");
    assert_eq!(ParseError::UnknownForm("frob".into()).message(), "unknown form: frob");
    assert_eq!(ParseError::ExpectedString(12).message(), "expected string literal at position 12");
    assert_eq!(ParseError::ExpectedNumber(0).message(), "expected number at position 0");
    assert_eq!(ParseError::Other("x".into()).message(), "x");
}

#[test]
fn parse_batch_entries() {
    let expr = parse(r#"(batch :structs (rg "pub struct") :fns (rg "pub fn"))"#).unwrap();
    assert_eq!(expr, Expr::Batch(vec![
        BatchEntry { label: "structs".into(), expr: Expr::Rg("pub struct".into(), SearchOpts::default()) },
        BatchEntry { label: "fns".into(), expr: Expr::Rg("pub fn".into(), SearchOpts::default()) },
    ]));
}

#[test]
fn parse_batch_options_wrap_each_entry() {
    let expr = parse(r#"(batch {:top 2 :threshold 0.5} :s (rg "a"))"#).unwrap();
    assert_eq!(expr, Expr::Batch(vec![BatchEntry {
        label: "s".into(),
        expr: Expr::Top(num("2"), Box::new(Expr::Threshold(num("0.5"), Box::new(Expr::Rg("a".into(), SearchOpts::default()))))),
    }]));
    let expr = parse(r#"(batch {:top 2} :s (rg "a") :f x)"#).unwrap();
    assert_eq!(expr, Expr::Batch(vec![
        BatchEntry { label: "s".into(), expr: Expr::Top(num("2"), Box::new(Expr::Rg("a".into(), SearchOpts::default()))) },
        BatchEntry { label: "f".into(), expr: Expr::Top(num("2"), Box::new(Expr::Var("x".into()))) },
    ]));
}

#[test]
fn parse_batch_under_let() {
    let expr = parse(r#"(let [x (rg "pub")] (batch :all (top 3 x) :structs (& x (rg "struct"))))"#).unwrap();
    match expr {
        Expr::Let(_, body) => match *body {
            Expr::Batch(es) => {
                assert_eq!(es.len(), 2);
                assert_eq!(es[0].label, "all");
                assert_eq!(es[1].label, "structs");
            }
            other => panic!("unexpected {other:?}"),
        },
        other => panic!("unexpected {other:?}"),
    }
}

#[test]
fn parse_batch_errors() {
    match parse(r#"(batch (rg "a"))"#) {
        Err(ParseError::Other(m)) => assert_eq!(m, "expected batch label at position 2"),
        other => panic!("unexpected {other:?}"),
    }
    match parse(r#"(batch {:limit 2} :a x)"#) {
        Err(ParseError::Other(m)) => assert_eq!(m, "unknown keyword :limit"),
        other => panic!("unexpected {other:?}"),
    }
    assert!(matches!(parse(r#"(batch {:top x} :a x)"#), Err(ParseError::ExpectedNumber(4))));
    assert!(matches!(parse("(batch {:top 2"), Err(ParseError::UnexpectedEof)));
    match parse("(batch {x} :a x)") {
        Err(ParseError::Other(m)) => assert_eq!(m, "unexpected token at position 3"),
        other => panic!("unexpected {other:?}"),
    }
    match parse("({ x)") {
        Err(ParseError::UnknownForm(f)) => assert_eq!(f, "BraceOpen"),
        other => panic!("unexpected {other:?}"),
    }
}

#[test]
fn tokenize_non_ascii_string_literal() {
    assert_eq!(tokenize("\"café\"").unwrap(), vec![Token::Str("café".into())]);
    assert_eq!(tokenize("\"日本語 ok\"").unwrap(), vec![Token::Str("日本語 ok".into())]);
    // A backslash before a non-ASCII character stays as it is.
    assert_eq!(tokenize("\"\\é\"").unwrap(), vec![Token::Str("\\é".into())]);
    let expr = parse("(rg \"naïve → 🚀\")").unwrap();
    assert_eq!(expr, Expr::Rg("naïve → 🚀".into(), SearchOpts::default()));
}

#[test]
fn numeric_form_head_is_described_as_a_float() {
    match parse("(5 x)") {
        Err(ParseError::UnknownForm(f)) => assert_eq!(f, "Num(5.0)"),
        other => panic!("unexpected {other:?}"),
    }
    match parse("(-0.250 x)") {
        Err(ParseError::UnknownForm(f)) => assert_eq!(f, "Num(-0.25)"),
        other => panic!("unexpected {other:?}"),
    }
}

#[test]
fn number_description_matches_float_debug() {
    for lit in [
        "5", "0", "-0", "0.0", "-0.000", "1.50", ".5", "5.", "007", "-2.5", "0.0001", "0.00001", "0.000123",
        "123.456", "1000", "1000000000000000", "10000000000000000", "15000000000000000", "123456789012345",
        "0.1", "99.99", "-0.00000125", "314159265358979",
    ] {
        let expected = format!("{:?}", lit.parse::<f64>().unwrap());
        assert_eq!(number_description(&lit.to_string()), expected, "literal {lit}");
    }
    // Longer literals are kept as written.
    assert_eq!(number_description(&"1234567890123456789".to_string()), "1234567890123456789");
}
