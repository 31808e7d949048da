use sift::cli::{auto_wrap, format_bytes, grep_query, missing_query_message, query_source, resolve_format, QuerySource};
use sift::parse::parse;
use sift::types::{Expr, OutputFormat, SearchOpts};

#[test]
fn auto_wrap_plain_text() {
    assert_eq!(auto_wrap("pub struct"), r#"(rg "pub struct")"#);
    assert_eq!(auto_wrap("  TODO \n"), r#"(rg "TODO")"#);
    assert_eq!(auto_wrap(r#"say "hi" \o/"#), r#"(rg "say \"hi\" \\o/")"#);
    assert_eq!(auto_wrap(""), r#"(rg "")"#);
}

#[test]
fn auto_wrap_keeps_sexp_and_comments() {
    assert_eq!(auto_wrap(r#"(top 3 (rg "fn"))"#), r#"(top 3 (rg "fn"))"#);
    assert_eq!(auto_wrap("  (rg \"x\")  "), "  (rg \"x\")  ");
    assert_eq!(auto_wrap("; note\n(rg \"x\")"), "; note\n(rg \"x\")");
}

#[test]
fn auto_wrap_round_trips_through_the_parser() {
    for q in ["pub struct", r#"a "quoted" \d+ path\"#, "  spaced out  "] {
        let expr = parse(&auto_wrap(q)).unwrap();
        assert_eq!(expr, Expr::Rg(q.trim().to_string(), SearchOpts::default()));
    }
}

#[test]
fn grep_shorthand_query() {
    assert_eq!(grep_query("ResultSet"), r#"(rg "ResultSet")"#);
    assert_eq!(grep_query(r#"say "hi""#), r#"(rg "say \"hi\"")"#);
    let expr = parse(&grep_query(r#"a "b" c"#)).unwrap();
    assert_eq!(expr, Expr::Rg(r#"a "b" c"#.into(), SearchOpts::default()));
}

#[test]
fn query_source_precedence() {
    assert_eq!(query_source(true, true, true), QuerySource::Grep);
    assert_eq!(query_source(false, true, true), QuerySource::File);
    assert_eq!(query_source(false, false, true), QuerySource::Inline);
    assert_eq!(query_source(false, false, false), QuerySource::Missing);
    assert_eq!(missing_query_message(), "no query provided. Usage: ag '(rg \"TODO\")' or ag -g TODO");
}

#[test]
fn resolve_format_precedence() {
    assert_eq!(resolve_format(true, true, true), OutputFormat::Json);
    assert_eq!(resolve_format(false, true, true), OutputFormat::Scores);
    assert_eq!(resolve_format(false, false, true), OutputFormat::Files);
    assert_eq!(resolve_format(false, false, false), OutputFormat::Default);
}

fn reference_format_bytes(bytes: u64) -> String {
    if bytes < 1024 {
        format!("{bytes} B")
    } else if bytes < 1024 * 1024 {
        format!("{:.1} KB", bytes as f64 / 1024.0)
    } else {
        format!("{:.1} MB", bytes as f64 / (1024.0 * 1024.0))
    }
}

#[test]
fn format_bytes_examples() {
    assert_eq!(format_bytes(0), "0 B");
    assert_eq!(format_bytes(1023), "1023 B");
    assert_eq!(format_bytes(1024), "1.0 KB");
    assert_eq!(format_bytes(1536), "1.5 KB");
    assert_eq!(format_bytes(1280), "1.2 KB");
    assert_eq!(format_bytes(1048576), "1.0 MB");
    assert_eq!(format_bytes(5 * 1048576 + 524288), "5.5 MB");
}

#[test]
fn format_bytes_matches_float_formatting() {
    let mut samples: Vec<u64> = (0..5000).collect();
    for k in 0..64u32 {
        let p = 1u64 << k;
        samples.extend([p.wrapping_sub(1), p, p.wrapping_add(1), p.wrapping_add(p / 2)]);
    }
    let mut x: u64 = 0x9E37_79B9_7F4A_7C15;
    for _ in 0..20000 {
        x ^= x << 13;
        x ^= x >> 7;
        x ^= x << 17;
        samples.push(x >> (x % 64));
        samples.push(x % (1 << 24));
    }
    samples.extend([u64::MAX, u64::MAX - 1, (1u64 << 53) + 1, (1u64 << 54) + 3, 1280 + 1024 * 7]);
    for b in samples {
        assert_eq!(format_bytes(b), reference_format_bytes(b), "bytes = {b}");
    }
}

#[test]
fn grep_query_keeps_regex_backslashes() {
    let expr = parse(&grep_query(r"fn\s+main\(")).unwrap();
    assert_eq!(expr, Expr::Rg(r"fn\s+main\(".into(), SearchOpts::default()));
    // `\n` in a string literal is a line feed.
    let expr = parse(&grep_query(r"a\nb")).unwrap();
    assert_eq!(expr, Expr::Rg("a\nb".into(), SearchOpts::default()));
}
