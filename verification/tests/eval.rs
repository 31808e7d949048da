use sift::eval::{eval, evaluate, output_format, search_plan, Ctx, ProgramStep, Replies, Request, SearchKey, Step};
use sift::parse::parse;
use sift::rg::RgBackend;
use sift::types::{BatchEntry, Binding, EvalResult, Expr, Hit, OutputFormat, ResultSet, Score, SearchOpts, SqError};

fn hit(path: &str, line: u32, score: f64) -> Hit {
    Hit { path: path.to_string(), line, snippet: format!("{path}:{line}"), score: Score(score.to_bits()) }
}

/// A fake ripgrep: each query names its hits as `path:line` words; a
/// search restricted to files finds only the hits in those files.
fn fake_search(key: &SearchKey) -> Result<ResultSet, SqError> {
    let query = key.query.as_str();
    if query == "boom" {
        return Err(SqError::Rg("rg failed: boom".into()));
    }
    let n = query.split_whitespace().count().max(1) as f64;
    let hits = query
        .split_whitespace()
        .enumerate()
        .map(|(i, w)| {
            let (p, l) = w.split_once(':').unwrap();
            hit(p, l.parse().unwrap(), 1.0 - i as f64 / n)
        })
        .filter(|h| key.files.as_ref().map_or(true, |fs| fs.contains(&h.path)))
        .collect();
    Ok(ResultSet::from_hits(hits))
}

fn unscoped(query: &str) -> SearchKey {
    SearchKey { query: query.to_string(), opts: SearchOpts::default(), files: None }
}

fn answer(replies: &mut Replies, req: Request, log: &mut Vec<String>) {
    match req {
        Request::Search(key) => {
            log.push(key.query.clone());
            let r = fake_search(&key);
            replies.searches.push((key, r));
        }
        Request::Count(n) => replies.counts.push(n.literal.parse::<f64>().unwrap() as usize),
        Request::Value(n) => replies.values.push(Score(n.literal.parse::<f64>().unwrap().to_bits())),
        Request::Fuse(_, sets) => {
            let mut all = Vec::new();
            for s in sets {
                all.extend(s.hits);
            }
            replies.fusions.push(ResultSet::from_hits(all));
        }
    }
}

fn run(query: &str) -> (Result<ResultSet, SqError>, Vec<String>) {
    let expr = parse(query).unwrap();
    let ctx = Ctx::new(RgBackend::new("."));
    let mut replies = Replies::new();
    let mut log = Vec::new();
    loop {
        match eval(&expr, &ctx, &replies) {
            Step::Done(r) => return (r, log),
            Step::Need(req) => answer(&mut replies, req, &mut log),
        }
    }
}

fn run_program(expr: &Expr) -> Result<EvalResult, SqError> {
    let ctx = Ctx::new(RgBackend::new("."));
    let mut replies = Replies::new();
    let mut log = Vec::new();
    loop {
        match evaluate(expr, &ctx, &replies) {
            ProgramStep::Done(r) => return r,
            ProgramStep::Need(req) => answer(&mut replies, req, &mut log),
        }
    }
}

fn keys(r: &ResultSet) -> Vec<(String, u32)> {
    r.hits.iter().map(|h| (h.path.clone(), h.line)).collect()
}

#[test]
fn eval_rg_asks_for_a_search() {
    let expr = parse(r#"(rg "TODO" :lang "rust")"#).unwrap();
    let ctx = Ctx::new(RgBackend::new("."));
    match eval(&expr, &ctx, &Replies::new()) {
        Step::Need(Request::Search(k)) => {
            assert_eq!(k.query, "TODO");
            assert_eq!(k.opts.lang.as_deref(), Some("rust"));
            assert!(k.files.is_none());
        }
        _ => panic!("expected a search request"),
    }
}

#[test]
fn eval_intersection_and_difference() {
    let (r, log) = run(r#"(& (rg "a:1 b:2 c:3") (rg "c:3 a:1"))"#);
    assert_eq!(log.len(), 2);
    assert_eq!(keys(&r.unwrap()), vec![("a".into(), 1), ("c".into(), 3)]);
    let (r, _) = run(r#"(- (rg "a:1 b:2 c:3") (rg "b:2"))"#);
    assert_eq!(keys(&r.unwrap()), vec![("a".into(), 1), ("c".into(), 3)]);
}

#[test]
fn eval_union_top_threshold() {
    let (r, _) = run(r#"(top 2 (| (rg "a:1 b:2") (rg "c:3")))"#);
    assert_eq!(keys(&r.unwrap()), vec![("a".into(), 1), ("c".into(), 3)]);
    let (r, _) = run(r#"(> 0.5 (rg "a:1 b:2 c:3 d:4"))"#);
    assert_eq!(keys(&r.unwrap()), vec![("a".into(), 1), ("b".into(), 2), ("c".into(), 3)]);
}

#[test]
fn eval_pipe_scopes_to_source_files() {
    let (r, log) = run(r#"(pipe (rg "a:1 c:9") (rg "a:5 b:2 c:3"))"#);
    assert_eq!(log, vec!["a:1 c:9".to_string(), "a:5 b:2 c:3".to_string()]);
    assert_eq!(keys(&r.unwrap()), vec![("a".into(), 5), ("c".into(), 3)]);
}

#[test]
fn eval_pipe_target_search_carries_source_files() {
    let expr = parse(r#"(pipe (rg "a:1 c:9 a:4") (rg "x:1"))"#).unwrap();
    let ctx = Ctx::new(RgBackend::new("."));
    let mut replies = Replies::new();
    // The source is asked for first, unscoped.
    match eval(&expr, &ctx, &replies) {
        Step::Need(Request::Search(k)) => {
            assert_eq!(k.query, "a:1 c:9 a:4");
            assert!(k.files.is_none());
            let r = fake_search(&k);
            replies.searches.push((k, r));
        }
        _ => panic!("expected the source's search"),
    }
    // Then the target, inside the source's files.
    match eval(&expr, &ctx, &replies) {
        Step::Need(Request::Search(k)) => {
            assert_eq!(k.query, "x:1");
            assert_eq!(k.files, Some(vec!["a".to_string(), "c".to_string()]));
        }
        _ => panic!("expected the target's scoped search"),
    }
}

#[test]
fn eval_pipe_top_ranks_within_source_files() {
    let (r, _) = run(r#"(pipe (rg "b:1") (top 1 (rg "a:5 b:2")))"#);
    assert_eq!(keys(&r.unwrap()), vec![("b".into(), 2)]);
}

#[test]
fn eval_pipe_empty_source_gives_empty_result() {
    let (r, log) = run(r#"(pipe (rg "") (rg "a:1"))"#);
    assert!(r.unwrap().hits.is_empty());
    assert_eq!(log, vec!["".to_string()]);
}

#[test]
fn eval_pipe_scope_passes_target_filters() {
    let (r, _) = run(r#"(pipe (rg "a.rs:1 b.py:2") (rg "a.rs:3 b.py:4" :lang "py"))"#);
    assert_eq!(keys(&r.unwrap()), vec![("b.py".into(), 4)]);
}

#[test]
fn eval_mix_asks_for_fusion() {
    let (r, _) = run(r#"(mix [0.7 0.3] (rg "a:1") (rg "b:2"))"#);
    assert_eq!(keys(&r.unwrap()), vec![("a".into(), 1), ("b".into(), 2)]);
}

#[test]
fn eval_let_evaluates_binding_once() {
    let (r, log) = run(r#"(let [x (rg "a:1 b:2")] (& x (top 1 x)))"#);
    assert_eq!(log.len(), 1);
    assert_eq!(keys(&r.unwrap()), vec![("a".into(), 1)]);
}

#[test]
fn eval_errors() {
    let (r, _) = run(r#"(lex "auth")"#);
    assert!(matches!(r, Err(SqError::LexUnavailable)));
    let (r, _) = run(r#"(sem "auth")"#);
    assert!(matches!(r, Err(SqError::SemUnavailable)));
    let (r, _) = run("(top 3 y)");
    match r {
        Err(SqError::UnboundVar(n)) => assert_eq!(n, "y"),
        other => panic!("unexpected {other:?}"),
    }
    let (r, log) = run(r#"(& (rg "boom") (rg "a:1"))"#);
    assert!(matches!(r, Err(SqError::Rg(_))));
    assert_eq!(log, vec!["boom".to_string()]);
}

#[test]
fn evaluate_batch_under_let() {
    let expr = Expr::Let(
        vec![Binding { name: "x".into(), value: parse(r#"(rg "a:1 b:2 c:3")"#).unwrap() }],
        Box::new(Expr::Batch(vec![
            BatchEntry { label: "all".into(), expr: parse("(top 2 x)").unwrap() },
            BatchEntry { label: "b".into(), expr: parse(r#"(& x (rg "b:2"))"#).unwrap() },
        ])),
    );
    match run_program(&expr) {
        Ok(EvalResult::Batch(sections)) => {
            assert_eq!(sections.len(), 2);
            assert_eq!(sections[0].label, "all");
            assert_eq!(keys(&sections[0].result), vec![("a".into(), 1), ("b".into(), 2)]);
            assert_eq!(sections[1].label, "b");
            assert_eq!(keys(&sections[1].result), vec![("b".into(), 2)]);
        }
        other => panic!("unexpected {other:?}"),
    }
    match run_program(&parse(r#"(rg "a:1")"#).unwrap()) {
        Ok(EvalResult::Single(r)) => assert_eq!(keys(&r), vec![("a".into(), 1)]),
        other => panic!("unexpected {other:?}"),
    }
    let nested = Expr::Top(
        sift::types::Number { literal: "1".into() },
        Box::new(Expr::Batch(vec![])),
    );
    assert!(matches!(run_program(&nested), Err(SqError::Other(_))));
}

#[test]
fn output_format_is_default() {
    let expr = Expr::Rg("x".into(), SearchOpts::default());
    assert_eq!(output_format(&expr), OutputFormat::Default);
}

#[test]
fn search_plan_lists_searches_in_evaluation_order() {
    let expr = parse(r#"(& (rg "a:1") (let [x (rg "b:2")] (- x (top 1 (rg "c:3" :lang "rust")))))"#).unwrap();
    let plan = search_plan(&expr);
    let queries: Vec<&str> = plan.iter().map(|(q, _)| q.as_str()).collect();
    assert_eq!(queries, vec!["a:1", "b:2", "c:3"]);
    assert_eq!(plan[2].1.lang.as_deref(), Some("rust"));

    // Answering the plan ahead of time: evaluation never asks for a search.
    let ctx = Ctx::new(RgBackend::new("."));
    let mut replies = Replies::new();
    for (q, o) in &plan {
        let key = SearchKey { query: q.clone(), opts: o.clone(), files: None };
        let r = fake_search(&key);
        replies.searches.push((key, r));
    }
    let mut log = Vec::new();
    let result = loop {
        match evaluate(&expr, &ctx, &replies) {
            ProgramStep::Done(r) => break r,
            ProgramStep::Need(Request::Search(..)) => panic!("search asked after the plan was answered"),
            ProgramStep::Need(req) => answer(&mut replies, req, &mut log),
        }
    };
    match result {
        Ok(EvalResult::Single(r)) => assert!(r.hits.is_empty()),
        other => panic!("unexpected {other:?}"),
    }
}

#[test]
fn evaluate_parsed_batch_with_options() {
    let expr = parse(r#"(batch {:top 2} :s (rg "a:1 b:2 c:3") :f (rg "d:4"))"#).unwrap();
    match run_program(&expr) {
        Ok(EvalResult::Batch(sections)) => {
            assert_eq!(sections.len(), 2);
            assert_eq!(sections[0].label, "s");
            assert_eq!(sections[0].result.hits.len(), 2);
            assert_eq!(sections[1].label, "f");
            assert_eq!(sections[1].result.hits.len(), 1);
        }
        other => panic!("unexpected {other:?}"),
    }
}

#[test]
fn search_plan_leaves_pipe_targets_for_later() {
    let expr = parse(r#"(pipe (rg "a:1") (rg "a:2"))"#).unwrap();
    let plan = search_plan(&expr);
    let queries: Vec<&str> = plan.iter().map(|(q, _)| q.as_str()).collect();
    assert_eq!(queries, vec!["a:1"]);
    let ctx = Ctx::new(RgBackend::new("."));
    let mut replies = Replies::new();
    let key = unscoped("a:1");
    let r = fake_search(&key);
    replies.searches.push((key, r));
    match evaluate(&expr, &ctx, &replies) {
        ProgramStep::Need(Request::Search(k)) => {
            assert_eq!(k.query, "a:2");
            assert_eq!(k.files, Some(vec!["a".to_string()]));
        }
        _ => panic!("expected the target's scoped search"),
    }
}

#[test]
fn eval_children_errors_pass_first() {
    let (r, log) = run(r#"(| (rg "a:1") (rg "boom") (lex "x"))"#);
    assert!(matches!(r, Err(SqError::Rg(_))));
    assert_eq!(log, vec!["a:1".to_string(), "boom".to_string()]);
    let (r, _) = run(r#"(- (lex "x") (rg "boom"))"#);
    assert!(matches!(r, Err(SqError::LexUnavailable)));
}

#[test]
fn distinct_paths_keep_first_appearance() {
    let hits = vec![hit("b.rs", 3, 1.0), hit("a.rs", 1, 1.0), hit("b.rs", 9, 1.0), hit("c.rs", 2, 1.0), hit("a.rs", 4, 1.0)];
    assert_eq!(sift::eval::distinct_paths(&hits), vec!["b.rs", "a.rs", "c.rs"]);
    assert!(sift::eval::distinct_paths(&vec![]).is_empty());
}
