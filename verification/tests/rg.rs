use sift::rg::{parse_rg_json, record_from_items, search_outcome, spawn_failure, JsonItem, RgBackend};
use sift::types::{SearchOpts, SqError};

#[test]
fn parse_rg_json_output() {
    let json = r#"{"type":"match","data":{"path":{"text":"src/main.rs"},"lines":{"text":"fn main() {\n"},"line_number":1,"absolute_offset":0,"submatches":[{"match":{"text":"main"},"start":3,"end":7}]}}"#;
    let hits = parse_rg_json(json);
    assert_eq!(hits.len(), 1);
    assert_eq!(hits[0].path, "src/main.rs");
    assert_eq!(hits[0].line, 1);
    assert_eq!(hits[0].snippet, "fn main() {");
}

#[test]
fn parse_rg_json_no_matches() {
    let json = r#"{"type":"summary","data":{"stats":{"matches":0}}}"#;
    let hits = parse_rg_json(json);
    assert!(hits.is_empty());
}

#[test]
fn parse_rg_json_multiple() {
    let json = [
        r#"{"type":"begin","data":{"path":{"text":"a.rs"}}}"#, "\n",
        r#"{"type":"match","data":{"path":{"text":"a.rs"},"lines":{"text":"line1\n"},"line_number":1,"absolute_offset":0,"submatches":[]}}"#, "\n",
        r#"{"type":"match","data":{"path":{"text":"b.rs"},"lines":{"text":"line2\n"},"line_number":5,"absolute_offset":0,"submatches":[]}}"#, "\n",
        r#"{"type":"end","data":{"path":{"text":"a.rs"}}}"#,
    ]
    .concat();
    let hits = parse_rg_json(&json);
    assert_eq!(hits.len(), 2);
    assert_eq!(hits[0].path, "a.rs");
    assert_eq!(hits[1].path, "b.rs");
    assert_eq!(hits[1].line, 5);
}

// ── Further cases ───────────────────────────────────────────────────

#[test]
fn parse_rg_json_defaults_and_skips() {
    let json = [
        "\n",
        "not json at all\n",
        r#"{"type":"match"}"#, "\n",
        r#"{"type":"match","data":{"path":{"bytes":"AAE="},"lines":{"bytes":"AAE="},"line_number":null}}"#, "\r\n",
        r#"{"type":"match","data":{"path":{"text":"big.rs"},"lines":{"text":"x  \t\n"},"line_number":4294967301}}"#, "\n",
        r#"{"type":"match","data":{"path":{"text":"neg.rs"},"lines":{"text":"y"},"line_number":-3}}"#, "\n",
        r#"{"type":"context","data":{"path":{"text":"c.rs"},"lines":{"text":"z"},"line_number":2}}"#,
    ]
    .concat();
    let hits = parse_rg_json(&json);
    assert_eq!(hits.len(), 3);
    assert_eq!(hits[0].path, "");
    assert_eq!(hits[0].line, 0);
    assert_eq!(hits[0].snippet, "");
    assert_eq!(hits[1].path, "big.rs");
    assert_eq!(hits[1].line, 5);
    assert_eq!(hits[1].snippet, "x");
    assert_eq!(hits[2].line, 0);
    assert!(hits.iter().all(|h| h.score.0 == 0));
}

#[test]
fn build_args_plain() {
    let rg = RgBackend::new("/repo");
    assert_eq!(rg.cwd, "/repo");
    let args = rg.build_args("TODO", &SearchOpts::default());
    assert_eq!(args, vec!["--json", "--no-heading", "-e", "TODO"]);
}

#[test]
fn build_args_with_all_filters() {
    let rg = RgBackend::new(".");
    let opts = SearchOpts {
        scope: Some("src/".into()),
        lang: Some("rust".into()),
        exclude: vec!["*test*".into(), "vendor/**".into()],
        includes: vec!["*.rs".into()],
    };
    let args = rg.build_args("fn main", &opts);
    assert_eq!(args, vec![
        "--json", "--no-heading", "--type", "rust", "--glob", "!*test*", "--glob", "!vendor/**",
        "--glob", "*.rs", "-e", "fn main", "src/",
    ]);
}

#[test]
fn build_args_maps_language_abbreviation() {
    let rg = RgBackend::new(".");
    for (lang, name) in [("rs", "rust"), ("py", "python"), ("sh", "shell"), ("yml", "yaml"), ("go", "go")] {
        let opts = SearchOpts { lang: Some(lang.into()), ..SearchOpts::default() };
        let args = rg.build_args("x", &opts);
        assert_eq!(args, vec!["--json", "--no-heading", "--type", name, "-e", "x"]);
    }
}

#[test]
fn build_args_pattern_starting_with_dash_follows_e() {
    let rg = RgBackend::new(".");
    let args = rg.build_args("-> Result", &SearchOpts::default());
    assert_eq!(args, vec!["--json", "--no-heading", "-e", "-> Result"]);
}

#[test]
fn build_args_in_files_replace_scope() {
    let rg = RgBackend::new(".");
    let opts = SearchOpts {
        scope: Some("src/".into()),
        lang: Some("rs".into()),
        exclude: vec![],
        includes: vec![],
    };
    let files = vec!["src/a.rs".to_string(), "src/b.rs".to_string()];
    let args = rg.build_args_in("impl", &opts, &files);
    assert_eq!(args, vec!["--json", "--no-heading", "--type", "rust", "-e", "impl", "src/a.rs", "src/b.rs"]);
}

#[test]
fn search_outcome_statuses() {
    let out = r#"{"type":"match","data":{"path":{"text":"a.rs"},"lines":{"text":"x"},"line_number":3}}"#;
    let ok = search_outcome(true, Some(0), out, "").unwrap();
    assert_eq!(ok.len(), 1);
    let none = search_outcome(false, Some(1), "", "").unwrap();
    assert!(none.is_empty());
    match search_outcome(false, Some(2), out, "regex parse error") {
        Err(SqError::Rg(m)) => assert_eq!(m, "rg failed: regex parse error"),
        other => panic!("unexpected {other:?}"),
    }
    assert!(matches!(search_outcome(false, None, out, "killed"), Err(SqError::Rg(_))));
}

#[test]
fn spawn_failures() {
    match spawn_failure(true, "ignored") {
        SqError::Rg(m) => assert_eq!(m, "ripgrep not found. Install: brew install ripgrep"),
        other => panic!("unexpected {other:?}"),
    }
    match spawn_failure(false, "permission denied") {
        SqError::Rg(m) => assert_eq!(m, "failed to run rg: permission denied"),
        other => panic!("unexpected {other:?}"),
    }
}

#[test]
fn record_from_items_cases() {
    let s = |t: &str| JsonItem::Str(t.to_string());
    let h = record_from_items(s("match"), JsonItem::Other, JsonItem::Num(Some(7)), JsonItem::Other, s("a.rs"), s("let x = 1;  \n"))
        .unwrap();
    assert_eq!((h.path.as_str(), h.line, h.snippet.as_str(), h.score.0), ("a.rs", 7, "let x = 1;", 0));
    // A number that is not an unsigned integer reads as zero; a missing text as empty.
    let h = record_from_items(s("match"), JsonItem::Other, JsonItem::Num(None), JsonItem::Other, JsonItem::Absent, JsonItem::Other)
        .unwrap();
    assert_eq!((h.path.as_str(), h.line, h.snippet.as_str()), ("", 0, ""));
    // Line numbers are truncated to 32 bits.
    let h = record_from_items(s("match"), JsonItem::Other, JsonItem::Num(Some((1u64 << 32) + 5)), JsonItem::Other, s("p"), s("t"))
        .unwrap();
    assert_eq!(h.line, 5);
    assert!(record_from_items(s("context"), JsonItem::Other, JsonItem::Num(Some(1)), JsonItem::Other, s("p"), s("t")).is_none());
    assert!(record_from_items(s("match"), JsonItem::Absent, JsonItem::Num(Some(1)), JsonItem::Other, s("p"), s("t")).is_none());
    assert!(record_from_items(s("match"), JsonItem::Other, JsonItem::Absent, JsonItem::Other, s("p"), s("t")).is_none());
    assert!(record_from_items(s("match"), JsonItem::Other, JsonItem::Num(Some(1)), JsonItem::Absent, s("p"), s("t")).is_none());
    assert!(record_from_items(JsonItem::Absent, JsonItem::Other, JsonItem::Num(Some(1)), JsonItem::Other, s("p"), s("t")).is_none());
}
