use sift::fusion::{difference, intersect, rrf_groups, threshold, top_k, union};
use sift::types::{Hit, ResultSet, Score};

fn hit(path: &str, line: u32, score: f64) -> Hit {
    Hit { path: path.to_string(), line, snippet: String::new(), score: Score(score.to_bits()) }
}

fn score_of(h: &Hit) -> f64 {
    f64::from_bits(h.score.0)
}

#[test]
fn test_intersect() {
    let a = ResultSet::from_hits(vec![hit("a.rs", 1, 0.9), hit("b.rs", 2, 0.8), hit("c.rs", 3, 0.7)]);
    let b = ResultSet::from_hits(vec![hit("b.rs", 2, 0.95), hit("c.rs", 3, 0.6), hit("d.rs", 4, 0.5)]);
    let result = intersect(&[a, b]);
    assert_eq!(result.hits.len(), 2);
    assert_eq!(result.hits[0].path, "b.rs");
    assert_eq!(score_of(&result.hits[0]), 0.95);
    assert_eq!(result.hits[1].path, "c.rs");
}

#[test]
fn test_union() {
    let a = ResultSet::from_hits(vec![hit("a.rs", 1, 0.9), hit("b.rs", 2, 0.8)]);
    let b = ResultSet::from_hits(vec![hit("b.rs", 2, 0.95), hit("c.rs", 3, 0.7)]);
    let result = union(&[a, b]);
    assert_eq!(result.hits.len(), 3);
    let b_hit = result.hits.iter().find(|h| h.path == "b.rs").unwrap();
    assert_eq!(score_of(b_hit), 0.95);
}

#[test]
fn test_difference() {
    let a = ResultSet::from_hits(vec![hit("a.rs", 1, 0.9), hit("b.rs", 2, 0.8), hit("c.rs", 3, 0.7)]);
    let b = ResultSet::from_hits(vec![hit("b.rs", 2, 0.5)]);
    let result = difference(&a, &b);
    assert_eq!(result.hits.len(), 2);
    assert!(result.hits.iter().all(|h| h.path != "b.rs"));
}

#[test]
fn test_top_k() {
    let set = ResultSet::from_hits(vec![hit("a.rs", 1, 0.5), hit("b.rs", 2, 0.9), hit("c.rs", 3, 0.7)]);
    let result = top_k(&set, 2);
    assert_eq!(result.hits.len(), 2);
    assert_eq!(result.hits[0].path, "b.rs");
    assert_eq!(result.hits[1].path, "c.rs");
}

#[test]
fn test_threshold() {
    let set = ResultSet::from_hits(vec![hit("a.rs", 1, 0.9), hit("b.rs", 2, 0.5), hit("c.rs", 3, 0.3)]);
    let result = threshold(&set, Score(0.5f64.to_bits()));
    assert_eq!(result.hits.len(), 2);
}

#[test]
fn test_intersect_empty() {
    assert!(intersect(&[]).is_empty());
}

#[test]
fn test_intersect_no_overlap() {
    let a = ResultSet::from_hits(vec![hit("a.rs", 1, 0.9)]);
    let b = ResultSet::from_hits(vec![hit("b.rs", 2, 0.8)]);
    assert!(intersect(&[a, b]).is_empty());
}

// ── Further cases ───────────────────────────────────────────────────

#[test]
fn intersect_keeps_best_first_occurrence_and_sorts() {
    let a = ResultSet::from_hits(vec![hit("x.rs", 1, 0.2), hit("y.rs", 2, 0.9), hit("x.rs", 1, 0.99)]);
    let b = ResultSet::from_hits(vec![hit("y.rs", 2, 0.1), hit("x.rs", 1, 0.5)]);
    let r = intersect(&[a, b]);
    assert_eq!(r.hits.len(), 2);
    // Only the first occurrence of x.rs:1 in each set counts: 0.2 and 0.5.
    assert_eq!(r.hits[0].path, "y.rs");
    assert_eq!(score_of(&r.hits[0]), 0.9);
    assert_eq!(r.hits[1].path, "x.rs");
    assert_eq!(score_of(&r.hits[1]), 0.5);
}

#[test]
fn intersect_of_one_set_dedups_by_key() {
    let a = ResultSet::from_hits(vec![hit("a.rs", 1, 0.3), hit("a.rs", 1, 0.8), hit("a.rs", 2, 0.5)]);
    let r = intersect(&[a]);
    assert_eq!(r.hits.len(), 2);
    assert_eq!(r.hits[0].line, 2);
    assert_eq!(r.hits[1].line, 1);
    assert_eq!(score_of(&r.hits[1]), 0.3);
}

#[test]
fn union_ties_keep_the_first_hit() {
    let mut first = hit("a.rs", 1, 0.5);
    first.snippet = "first".to_string();
    let mut second = hit("a.rs", 1, 0.5);
    second.snippet = "second".to_string();
    let r = union(&[ResultSet::from_hits(vec![first]), ResultSet::from_hits(vec![second])]);
    assert_eq!(r.hits.len(), 1);
    assert_eq!(r.hits[0].snippet, "first");
}

#[test]
fn union_of_nothing_is_empty() {
    assert!(union(&[]).is_empty());
}

#[test]
fn union_orders_by_descending_score_stably() {
    let a = ResultSet::from_hits(vec![hit("a.rs", 1, 0.1), hit("b.rs", 1, 0.7), hit("c.rs", 1, 0.7)]);
    let r = union(&[a]);
    let paths: Vec<&str> = r.hits.iter().map(|h| h.path.as_str()).collect();
    assert_eq!(paths, vec!["b.rs", "c.rs", "a.rs"]);
}

#[test]
fn difference_matches_by_path_and_line() {
    let a = ResultSet::from_hits(vec![hit("a.rs", 1, 0.9), hit("a.rs", 2, 0.8)]);
    let b = ResultSet::from_hits(vec![hit("a.rs", 2, 0.1), hit("z.rs", 1, 0.1)]);
    let r = difference(&a, &b);
    assert_eq!(r.hits.len(), 1);
    assert_eq!(r.hits[0].line, 1);
    assert!(difference(&a, &a).is_empty());
}

#[test]
fn top_k_larger_than_set_keeps_all_sorted() {
    let set = ResultSet::from_hits(vec![hit("a.rs", 1, 0.1), hit("b.rs", 2, 0.9)]);
    let r = top_k(&set, 10);
    assert_eq!(r.hits.len(), 2);
    assert_eq!(r.hits[0].path, "b.rs");
    assert!(top_k(&set, 0).is_empty());
}

#[test]
fn threshold_is_inclusive_and_keeps_order() {
    let set = ResultSet::from_hits(vec![hit("a.rs", 1, 0.5), hit("b.rs", 2, 0.9), hit("c.rs", 3, 0.49)]);
    let r = threshold(&set, Score(0.5f64.to_bits()));
    let paths: Vec<&str> = r.hits.iter().map(|h| h.path.as_str()).collect();
    assert_eq!(paths, vec!["a.rs", "b.rs"]);
}

#[test]
fn threshold_follows_float_comparison() {
    let set = ResultSet::from_hits(vec![
        hit("neg.rs", 1, -1.0),
        hit("zero.rs", 2, -0.0),
        hit("nan.rs", 3, f64::NAN),
        hit("inf.rs", 4, f64::INFINITY),
    ]);
    let r = threshold(&set, Score(0.0f64.to_bits()));
    let paths: Vec<&str> = r.hits.iter().map(|h| h.path.as_str()).collect();
    assert_eq!(paths, vec!["zero.rs", "inf.rs"]);
}

#[test]
fn sorted_is_stable_and_descending() {
    let set = ResultSet::from_hits(vec![
        hit("a.rs", 1, 0.3),
        hit("b.rs", 1, 0.9),
        hit("c.rs", 1, 0.3),
        hit("d.rs", 1, -2.0),
        hit("e.rs", 1, 0.9),
    ]);
    let r = set.sorted();
    let paths: Vec<&str> = r.hits.iter().map(|h| h.path.as_str()).collect();
    assert_eq!(paths, vec!["b.rs", "e.rs", "a.rs", "c.rs", "d.rs"]);
}

#[test]
fn rrf_groups_collect_ranks_per_key() {
    let a = ResultSet::from_hits(vec![hit("a.rs", 1, 0.9), hit("b.rs", 2, 0.8)]);
    let b = ResultSet::from_hits(vec![hit("b.rs", 2, 0.7), hit("a.rs", 1, 0.6), hit("c.rs", 9, 0.1)]);
    let groups = rrf_groups(&[a, b]);
    assert_eq!(groups.len(), 3);
    assert_eq!(groups[0].hit.path, "a.rs");
    assert_eq!(groups[0].ranks, vec![(0, 0), (1, 1)]);
    assert_eq!(groups[1].hit.path, "b.rs");
    assert_eq!(score_of(&groups[1].hit), 0.8);
    assert_eq!(groups[1].ranks, vec![(0, 1), (1, 0)]);
    assert_eq!(groups[2].ranks, vec![(1, 2)]);
}

#[test]
fn score_comparisons_follow_ieee() {
    let s = |v: f64| Score(v.to_bits());
    assert!(s(1.0).gt(s(0.5)));
    assert!(!s(0.5).gt(s(0.5)));
    assert!(s(0.5).ge(s(0.5)));
    assert!(s(0.0).ge(s(-0.0)));
    assert!(s(-0.0).ge(s(0.0)));
    assert!(!s(f64::NAN).ge(s(0.0)));
    assert!(!s(0.0).gt(s(f64::NAN)));
    assert!(s(-1.0).gt(s(-2.0)));
    assert!(s(f64::INFINITY).gt(s(1e300)));
    assert_eq!(Score::zero().0, 0.0f64.to_bits());
}
