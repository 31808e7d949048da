use sift::lex::LexBackend;
use sift::sem::SemBackend;
use sift::types::{Hit, Score, SearchOpts};

#[test]
fn lex_index_location() {
    let lex = LexBackend::new("/repo");
    assert_eq!(lex.cwd, "/repo");
    assert_eq!(lex.index_dir, "/repo/.ag/lex");
    assert_eq!(lex.meta_path(), "/repo/.ag/lex/meta.json");
}

#[test]
fn lex_documents_skip_blank_lines() {
    let docs = LexBackend::line_documents("fn a() {}\n\n   \nlet x = 1;\r\n\t\n");
    assert_eq!(docs, vec![(1, "fn a() {}".to_string()), (4, "let x = 1;".to_string())]);
    assert!(LexBackend::line_documents("").is_empty());
}

#[test]
fn lex_hits_from_stored_fields() {
    let h = LexBackend::hit_of(Some("a.rs".into()), Some((1u64 << 32) + 7), None, Score(1.5f64.to_bits()));
    assert_eq!(h.path, "a.rs");
    assert_eq!(h.line, 7);
    assert_eq!(h.snippet, "");
    assert_eq!(f64::from_bits(h.score.0), 1.5);
    let d = LexBackend::hit_of(None, None, Some("x".into()), Score::zero());
    assert_eq!((d.path.as_str(), d.line, d.snippet.as_str()), ("", 0, "x"));
    let opts = SearchOpts { lang: Some("rust".into()), ..Default::default() };
    let r = LexBackend::finish(vec![h, d], &opts);
    assert_eq!(r.hits.len(), 1);
}

#[test]
fn sem_index_location() {
    let sem = SemBackend::new("work");
    assert_eq!(sem.index_dir, "work/.ag/sem");
    assert_eq!(sem.index_path(), "work/.ag/sem/index.json");
    assert!(SemBackend::index_is_current(1));
    assert!(!SemBackend::index_is_current(2));
}

#[test]
fn sem_chunks_overlap() {
    let content: String = (1..=23).map(|i| format!("line {i}\n")).collect();
    let chunks = SemBackend::chunk_lines(&content);
    let starts: Vec<u32> = chunks.iter().map(|c| c.0).collect();
    assert_eq!(starts, vec![1, 6, 11, 16, 21]);
    let expect: Vec<String> = (1..=10).map(|i| format!("line {i}")).collect();
    assert_eq!(chunks[0].1, expect.join("\n"));
    assert_eq!(chunks[4].1, "line 21\nline 22\nline 23");
}

#[test]
fn sem_chunks_skip_blank_windows() {
    let content = format!("{}x\n", "\n".repeat(12));
    let chunks = SemBackend::chunk_lines(&content);
    let starts: Vec<u32> = chunks.iter().map(|c| c.0).collect();
    assert_eq!(starts, vec![6, 11]);
    assert!(SemBackend::chunk_lines("").is_empty());
}

#[test]
fn sem_first_line_and_ranking() {
    assert_eq!(SemBackend::first_line("a\nb"), "a");
    assert_eq!(SemBackend::first_line(""), "");
    let hits: Vec<Hit> = (0..150)
        .map(|i| Hit {
            path: format!("f{i}.rs"),
            line: 1,
            snippet: String::new(),
            score: Score(((i % 7) as f64).to_bits()),
        })
        .collect();
    let r = SemBackend::rank_hits(hits, &SearchOpts::default());
    assert_eq!(r.hits.len(), 100);
    assert_eq!(r.hits[0].path, "f6.rs");
    assert_eq!(r.hits[1].path, "f13.rs");
}

#[test]
fn pad_batch_pads_rows_to_the_longest() {
    let ids = vec![vec![101, 7, 102], vec![101, 102], vec![]];
    let masks = vec![vec![1, 1, 1], vec![1, 1, 1, 1], vec![]];
    let (input_ids, attention, types, m) = sift::sem::pad_batch(&ids, &masks);
    assert_eq!(m, 3);
    assert_eq!(input_ids, vec![101, 7, 102, 101, 102, 0, 0, 0, 0]);
    assert_eq!(attention, vec![1, 1, 1, 1, 1, 1, 0, 0, 0]);
    assert_eq!(types, vec![0; 9]);
    let (a, b, c, m) = sift::sem::pad_batch(&vec![], &vec![]);
    assert!(a.is_empty() && b.is_empty() && c.is_empty());
    assert_eq!(m, 0);
}

#[test]
fn pad_batch_length_is_rows_times_width() {
    let ids = vec![vec![1, 2], vec![3, 4, 5, 6], vec![7]];
    let masks = vec![vec![1, 1], vec![1, 1, 1, 1], vec![1]];
    let (a, b, c, m) = sift::sem::pad_batch(&ids, &masks);
    assert_eq!(m, 4);
    assert_eq!((a.len(), b.len(), c.len()), (12, 12, 12));
}
