//! The result algebra: intersection, union, difference, top-k,
//! threshold, and the grouping step of reciprocal rank fusion.
//!
//! Hits are identified by `path:line` (`key_of`). Where one key occurs
//! several times, the hit with the strictly greatest score wins and the
//! earliest one wins ties. Results of the combinators come sorted by
//! descending score.
use vstd::prelude::*;
use crate::types::{Hit, ResultSet, Score, key_of, clone_hit, sort_desc, no_nan, descending};

verus! {

// ── Specification ───────────────────────────────────────────────────

/// The hits of each result set.
pub open spec fn hits_of(sets: Seq<ResultSet>) -> Seq<Seq<Hit>> {
    sets.map_values(|r: ResultSet| r.hits@)
}

/// Index of the first hit with key `k`, or -1.
pub open spec fn find_key(s: Seq<Hit>, k: (Seq<char>, u32)) -> int
    decreases s.len(),
{
    if s.len() == 0 {
        -1
    } else {
        let r = find_key(s.drop_last(), k);
        if r >= 0 {
            r
        } else if key_of(s.last()) == k {
            s.len() - 1
        } else {
            -1
        }
    }
}

pub open spec fn has_key(s: Seq<Hit>, k: (Seq<char>, u32)) -> bool {
    exists|i: int| 0 <= i < s.len() && key_of(#[trigger] s[i]) == k
}

/// All hits of all sets, set after set.
pub open spec fn flatten(sets: Seq<Seq<Hit>>) -> Seq<Hit>
    decreases sets.len(),
{
    if sets.len() == 0 {
        seq![]
    } else {
        flatten(sets.drop_last()) + sets.last()
    }
}

/// The first hit of each key, in order.
pub open spec fn firsts(hs: Seq<Hit>) -> Seq<Hit>
    decreases hs.len(),
{
    if hs.len() == 0 {
        seq![]
    } else if find_key(hs.drop_last(), key_of(hs.last())) >= 0 {
        firsts(hs.drop_last())
    } else {
        firsts(hs.drop_last()).push(hs.last())
    }
}

/// The first hit of each key within each set, set after set.
pub open spec fn flatten_firsts(sets: Seq<Seq<Hit>>) -> Seq<Hit>
    decreases sets.len(),
{
    if sets.len() == 0 {
        seq![]
    } else {
        flatten_firsts(sets.drop_last()) + firsts(sets.last())
    }
}

/// One step of keeping the best hit per key: a new key is appended; a
/// known key's hit is replaced only by a strictly greater score.
pub open spec fn best_step(state: Seq<Hit>, h: Hit) -> Seq<Hit> {
    let j = find_key(state, key_of(h));
    if j < 0 {
        state.push(h)
    } else if h.score.spec_gt(state[j].score) {
        state.update(j, h)
    } else {
        state
    }
}

/// The best hit per key over a stream of hits, keys in order of first
/// appearance.
pub open spec fn best_fold(xs: Seq<Hit>) -> Seq<Hit>
    decreases xs.len(),
{
    if xs.len() == 0 {
        seq![]
    } else {
        best_step(best_fold(xs.drop_last()), xs.last())
    }
}

/// Number of sets that hold a hit with key `k`.
pub open spec fn sets_with_key(sets: Seq<Seq<Hit>>, k: (Seq<char>, u32)) -> nat
    decreases sets.len(),
{
    if sets.len() == 0 {
        0
    } else {
        sets_with_key(sets.drop_last(), k) + if find_key(sets.last(), k) >= 0 {
            1nat
        } else {
            0nat
        }
    }
}

/// The hits whose key occurs in every set.
pub open spec fn keep_common(hs: Seq<Hit>, sets: Seq<Seq<Hit>>) -> Seq<Hit>
    decreases hs.len(),
{
    if hs.len() == 0 {
        seq![]
    } else if sets_with_key(sets, key_of(hs.last())) == sets.len() {
        keep_common(hs.drop_last(), sets).push(hs.last())
    } else {
        keep_common(hs.drop_last(), sets)
    }
}

/// Intersection: one hit per key present in every set (the best of the
/// first occurrences in each set), by descending score.
pub open spec fn spec_intersect(sets: Seq<Seq<Hit>>) -> Seq<Hit> {
    if sets.len() == 0 {
        seq![]
    } else {
        sort_desc(keep_common(best_fold(flatten_firsts(sets)), sets))
    }
}

/// Union: one hit per key present in any set (the best occurrence), by
/// descending score.
pub open spec fn spec_union(sets: Seq<Seq<Hit>>) -> Seq<Hit> {
    sort_desc(best_fold(flatten(sets)))
}

/// The hits of `left` whose key does not occur in `right`, in order.
pub open spec fn spec_difference(left: Seq<Hit>, right: Seq<Hit>) -> Seq<Hit>
    decreases left.len(),
{
    if left.len() == 0 {
        seq![]
    } else if find_key(right, key_of(left.last())) >= 0 {
        spec_difference(left.drop_last(), right)
    } else {
        spec_difference(left.drop_last(), right).push(left.last())
    }
}

/// The hits with score `>= t`, in order.
pub open spec fn spec_threshold(hs: Seq<Hit>, t: Score) -> Seq<Hit>
    decreases hs.len(),
{
    if hs.len() == 0 {
        seq![]
    } else if hs.last().score.spec_ge(t) {
        spec_threshold(hs.drop_last(), t).push(hs.last())
    } else {
        spec_threshold(hs.drop_last(), t)
    }
}

/// The `k` best hits.
pub open spec fn spec_top_k(hs: Seq<Hit>, k: nat) -> Seq<Hit> {
    let s = sort_desc(hs);
    if k < s.len() {
        s.take(k as int)
    } else {
        s
    }
}

// ── Facts about the specification ───────────────────────────────────

pub proof fn lemma_find_key(s: Seq<Hit>, k: (Seq<char>, u32))
    ensures
        -1 <= find_key(s, k) < s.len(),
        find_key(s, k) >= 0 ==> key_of(s[find_key(s, k)]) == k,
        forall|t: int| 0 <= t < find_key(s, k) ==> key_of(#[trigger] s[t]) != k,
        find_key(s, k) == -1 ==> forall|t: int| 0 <= t < s.len() ==> key_of(#[trigger] s[t]) != k,
        (find_key(s, k) >= 0) == has_key(s, k),
    decreases s.len(),
{
    if s.len() > 0 {
        let d = s.drop_last();
        lemma_find_key(d, k);
        let r = find_key(d, k);
        if r >= 0 {
            assert forall|t: int| 0 <= t < r implies key_of(#[trigger] s[t]) != k by {
                assert(s[t] == d[t]);
            }
            assert(s[r] == d[r]);
        } else if key_of(s.last()) == k {
            assert forall|t: int| 0 <= t < s.len() - 1 implies key_of(#[trigger] s[t]) != k by {
                assert(s[t] == d[t]);
            }
        } else {
            assert forall|t: int| 0 <= t < s.len() implies key_of(#[trigger] s[t]) != k by {
                if t < s.len() - 1 {
                    assert(s[t] == d[t]);
                }
            }
        }
        if has_key(s, k) {
            let w = choose|w: int| 0 <= w < s.len() && key_of(#[trigger] s[w]) == k;
            assert(find_key(s, k) >= 0);
        }
    }
}

/// The first index of key `k` is determined by where it first matches.
proof fn lemma_find_key_at(s: Seq<Hit>, k: (Seq<char>, u32), j: int)
    requires
        0 <= j < s.len(),
        key_of(s[j]) == k,
        forall|t: int| 0 <= t < j ==> key_of(#[trigger] s[t]) != k,
    ensures
        find_key(s, k) == j,
{
    lemma_find_key(s, k);
}

proof fn lemma_find_key_none(s: Seq<Hit>, k: (Seq<char>, u32))
    requires
        forall|t: int| 0 <= t < s.len() ==> key_of(#[trigger] s[t]) != k,
    ensures
        find_key(s, k) == -1,
{
    lemma_find_key(s, k);
    if find_key(s, k) >= 0 {
        let j = find_key(s, k);
        assert(key_of(s[j]) == k);
    }
}

/// Every key occurs at most once.
pub open spec fn unique_keys(s: Seq<Hit>) -> bool {
    forall|i: int, j: int|
        0 <= i < j < s.len() ==> key_of(#[trigger] s[i]) != key_of(#[trigger] s[j])
}

/// Facts kept by every step of `best_fold`: keys are unique, they are
/// exactly the keys of the stream, every kept hit comes from the stream,
/// and without NaN scores it scores at least as high as every hit of the
/// stream with its key.
pub proof fn lemma_best_fold(xs: Seq<Hit>)
    ensures
        unique_keys(best_fold(xs)),
        forall|k: (Seq<char>, u32)| #[trigger] has_key(best_fold(xs), k) == has_key(xs, k),
        forall|i: int| 0 <= i < best_fold(xs).len() ==> xs.contains(#[trigger] best_fold(xs)[i]),
        no_nan(xs) ==> forall|i: int, j: int|
            0 <= i < best_fold(xs).len() && 0 <= j < xs.len() && key_of(xs[j]) == key_of(
                #[trigger] best_fold(xs)[i],
            ) ==> best_fold(xs)[i].score.rank() >= (#[trigger] xs[j]).score.rank(),
    decreases xs.len(),
{
    if xs.len() > 0 {
        let ys = xs.drop_last();
        let h = xs.last();
        lemma_best_fold(ys);
        let st = best_fold(ys);
        let k = key_of(h);
        lemma_find_key(st, k);
        let j = find_key(st, k);
        let r = best_fold(xs);
        assert(r == best_step(st, h));
        assert forall|t: int| 0 <= t < ys.len() implies ys[t] == #[trigger] xs[t] by {}
        assert forall|kk: (Seq<char>, u32)| has_key(r, kk) == has_key(xs, kk) by {
            if has_key(xs, kk) {
                let w = choose|w: int| 0 <= w < xs.len() && key_of(#[trigger] xs[w]) == kk;
                if w < xs.len() - 1 {
                    assert(ys[w] == xs[w]);
                    assert(key_of(ys[w]) == kk);
                    assert(has_key(ys, kk));
                    assert(has_key(st, kk));
                    let v = choose|v: int| 0 <= v < st.len() && key_of(#[trigger] st[v]) == kk;
                    if j >= 0 && v == j {
                        assert(key_of(r[v]) == kk);
                    } else if j >= 0 {
                        assert(r[v] == st[v]);
                    } else {
                        assert(r[v] == st[v]);
                    }
                } else {
                    if j < 0 {
                        assert(r[st.len() as int] == h);
                    } else {
                        assert(key_of(r[j]) == kk);
                    }
                }
            }
            if has_key(r, kk) {
                let v = choose|v: int| 0 <= v < r.len() && key_of(#[trigger] r[v]) == kk;
                if v < st.len() && (j < 0 || v != j || !h.score.spec_gt(st[j].score)) {
                    assert(r[v] == st[v]);
                    assert(has_key(st, kk));
                    let w = choose|w: int| 0 <= w < ys.len() && key_of(#[trigger] ys[w]) == kk;
                    assert(xs[w] == ys[w]);
                } else {
                    assert(key_of(xs[xs.len() - 1]) == kk);
                }
            }
        }
        assert forall|i: int| 0 <= i < r.len() implies xs.contains(#[trigger] r[i]) by {
            if i < st.len() && (j < 0 || i != j || !h.score.spec_gt(st[j].score)) {
                assert(r[i] == st[i]);
                assert(ys.contains(st[i]));
                let w = choose|w: int| 0 <= w < ys.len() && ys[w] == st[i];
                assert(xs[w] == st[i]);
            } else {
                assert(r[i] == h);
                assert(xs[xs.len() - 1] == h);
            }
        }
        assert forall|a: int, b: int| 0 <= a < b < r.len() implies key_of(#[trigger] r[a])
            != key_of(#[trigger] r[b]) by {
            if j < 0 && b == st.len() {
                assert(r[a] == st[a]);
            } else if j >= 0 && h.score.spec_gt(st[j].score) && (a == j || b == j) {
                if a == j {
                    assert(r[b] == st[b]);
                } else {
                    assert(r[a] == st[a]);
                }
            } else {
                assert(r[a] == st[a] && r[b] == st[b]);
            }
        }
        if no_nan(xs) {
            assert(no_nan(ys)) by {
                assert forall|t: int| 0 <= t < ys.len() implies !(#[trigger] ys[t]).score.is_nan() by {
                    assert(xs[t] == ys[t]);
                }
            }
            assert forall|i: int, w: int|
                0 <= i < r.len() && 0 <= w < xs.len() && key_of(xs[w]) == key_of(#[trigger] r[i])
                implies r[i].score.rank() >= (#[trigger] xs[w]).score.rank() by {
                assert(!xs[xs.len() - 1].score.is_nan());
                if i < st.len() && (j < 0 || i != j || !h.score.spec_gt(st[j].score)) {
                    assert(r[i] == st[i]);
                    if w < xs.len() - 1 {
                        assert(xs[w] == ys[w]);
                    } else {
                        if j >= 0 && i == j {
                            assert(!h.score.spec_gt(st[j].score));
                            assert(xs.contains(st[j]));
                            let z = choose|z: int| 0 <= z < xs.len() && xs[z] == st[j];
                            assert(!xs[z].score.is_nan());
                        } else if j >= 0 {
                            assert(key_of(st[i]) != key_of(st[j]));
                        } else {
                            assert(key_of(st[i]) != k);
                        }
                    }
                } else {
                    assert(r[i] == h);
                    if w < xs.len() - 1 {
                        assert(xs[w] == ys[w]);
                        assert(key_of(ys[w]) == k);
                        assert(has_key(ys, k));
                        assert(j >= 0);
                        assert(st[j].score.rank() >= ys[w].score.rank());
                    }
                }
            }
        }
    }
}

// ── Execution ───────────────────────────────────────────────────────

/// Index of the first hit of `s[..upto]` at `path:line`.
pub fn find_hit(s: &Vec<Hit>, upto: usize, path: &String, line: u32) -> (r: Option<usize>)
    requires
        upto <= s@.len(),
    ensures
        match r {
            Some(j) => find_key(s@.take(upto as int), (path@, line)) == j as int && j < upto,
            None => find_key(s@.take(upto as int), (path@, line)) == -1,
        },
{
    let ghost k = (path@, line);
    let ghost t = s@.take(upto as int);
    let mut j: usize = 0;
    while j < upto
        invariant
            j <= upto <= s@.len(),
            t == s@.take(upto as int),
            k == (path@, line),
            forall|u: int| 0 <= u < j ==> key_of(#[trigger] t[u]) != k,
        decreases upto - j,
    {
        assert(t[j as int] == s@[j as int]);
        if s[j].line == line && crate::types::same_string(&s[j].path, path) {
            proof {
                assert(t[j as int] == s@[j as int]);
                assert(s@[j as int].path@ == path@);
                assert(s@[j as int].line == line);
                assert(key_of(t[j as int]) == k);
                lemma_find_key_at(t, k, j as int);
            }
            return Some(j);
        }
        j = j + 1;
    }
    proof {
        lemma_find_key_none(t, k);
    }
    None
}

proof fn lemma_take_all(s: Seq<Hit>)
    ensures
        s.take(s.len() as int) == s,
{
    assert(s.take(s.len() as int) =~= s);
}

/// Applies one `best_step` to a vector.
fn best_update(best: &mut Vec<Hit>, h: &Hit)
    ensures
        final(best)@ == best_step(old(best)@, *h),
{
    let n = best.len();
    proof {
        lemma_take_all(best@);
    }
    match find_hit(best, n, &h.path, h.line) {
        Some(j) => {
            if h.score.gt(best[j].score) {
                best.set(j, clone_hit(h));
            }
        },
        None => {
            best.push(clone_hit(h));
        },
    }
}

proof fn lemma_flatten_step(sets: Seq<Seq<Hit>>, s: int)
    requires
        0 <= s < sets.len(),
    ensures
        flatten(sets.take(s + 1)) == flatten(sets.take(s)) + sets[s],
        flatten_firsts(sets.take(s + 1)) == flatten_firsts(sets.take(s)) + firsts(sets[s]),
        sets_with_key(sets.take(s + 1), (seq![], 0)) == sets_with_key(sets.take(s + 1), (seq![], 0)),
{
    assert(sets.take(s + 1).drop_last() =~= sets.take(s));
}

/// Union: hits present in any result set; the best score wins.
pub fn union(sets: &[ResultSet]) -> (r: ResultSet)
    ensures
        r.hits@ == spec_union(hits_of(sets@)),
        unique_keys(best_fold(flatten(hits_of(sets@)))),
        r.hits@.to_multiset() == best_fold(flatten(hits_of(sets@))).to_multiset(),
        forall|k: (Seq<char>, u32)| has_key(r.hits@, k) == has_key(flatten(hits_of(sets@)), k),
        no_nan(flatten(hits_of(sets@))) ==> descending(r.hits@),
        forall|i: int| 0 <= i < r.hits@.len() ==> flatten(hits_of(sets@)).contains(#[trigger] r.hits@[i]),
        no_nan(flatten(hits_of(sets@))) ==> forall|i: int, j: int|
            0 <= i < r.hits@.len() && 0 <= j < flatten(hits_of(sets@)).len() && key_of(
                #[trigger] flatten(hits_of(sets@))[j],
            ) == key_of(#[trigger] r.hits@[i]) ==> r.hits@[i].score.rank() >= flatten(
                hits_of(sets@),
            )[j].score.rank(),
{
    let mut best: Vec<Hit> = Vec::new();
    let ghost mut seen: Seq<Hit> = seq![];
    for s in 0..sets.len()
        invariant
            best@ == best_fold(seen),
            seen == flatten(hits_of(sets@).take(s as int)),
    {
        proof {
            lemma_flatten_step(hits_of(sets@), s as int);
        }
        let ghost before = seen;
        let set = &sets[s];
        let m = set.hits.len();
        for i in 0..m
            invariant
                s < hits_of(sets@).len(),
                set.hits@ == hits_of(sets@)[s as int],
                m == set.hits@.len(),
                best@ == best_fold(seen),
                seen == before + hits_of(sets@)[s as int].take(i as int),
        {
            let h = &set.hits[i];
            best_update(&mut best, h);
            proof {
                assert(best_fold(seen.push(*h)) == best_step(best_fold(seen), *h)) by {
                    assert(seen.push(*h).drop_last() =~= seen);
                }
                seen = seen.push(*h);
                assert(seen =~= before + hits_of(sets@)[s as int].take(i + 1));
            }
        }
        proof {
            lemma_take_all(hits_of(sets@)[s as int]);
        }
    }
    proof {
        assert(hits_of(sets@).take(hits_of(sets@).len() as int) =~= hits_of(sets@));
        lemma_best_fold(seen);
    }
    let ghost folded = best@;
    let r = ResultSet::from_hits(best).sorted();
    proof {
        crate::types::lemma_sort_desc_multiset(folded);
        lemma_multiset_has_key(r.hits@, folded);
        if no_nan(seen) {
            assert(no_nan(folded)) by {
                assert forall|i: int| 0 <= i < folded.len() implies !(#[trigger] folded[i]).score.is_nan() by {
                    assert(seen.contains(folded[i]));
                }
            }
        }
        assert forall|i: int| 0 <= i < r.hits@.len() implies exists|b: int|
            0 <= b < folded.len() && folded[b] == #[trigger] r.hits@[i] by {
            broadcast use vstd::seq_lib::group_to_multiset_ensures;
            assert(r.hits@.contains(r.hits@[i]));
            assert(r.hits@.to_multiset().count(r.hits@[i]) > 0);
            assert(folded.to_multiset().count(r.hits@[i]) > 0);
            assert(folded.contains(r.hits@[i]));
        }
        assert forall|i: int| 0 <= i < r.hits@.len() implies seen.contains(#[trigger] r.hits@[i]) by {
            let b = choose|b: int| 0 <= b < folded.len() && folded[b] == r.hits@[i];
            assert(seen.contains(folded[b]));
        }
        if no_nan(seen) {
            assert forall|i: int, j: int|
                0 <= i < r.hits@.len() && 0 <= j < seen.len() && key_of(#[trigger] seen[j]) == key_of(
                    #[trigger] r.hits@[i],
                ) implies r.hits@[i].score.rank() >= seen[j].score.rank() by {
                let b = choose|b: int| 0 <= b < folded.len() && folded[b] == r.hits@[i];
                assert(key_of(seen[j]) == key_of(folded[b]));
            }
        }
    }
    r
}

/// Two sequences with the same elements have the same keys.
pub proof fn lemma_multiset_has_key(a: Seq<Hit>, b: Seq<Hit>)
    requires
        a.to_multiset() == b.to_multiset(),
    ensures
        forall|k: (Seq<char>, u32)| has_key(a, k) == has_key(b, k),
{
    broadcast use vstd::seq_lib::group_to_multiset_ensures;

    assert forall|k: (Seq<char>, u32)| has_key(a, k) == has_key(b, k) by {
        if has_key(a, k) {
            let i = choose|i: int| 0 <= i < a.len() && key_of(#[trigger] a[i]) == k;
            assert(a.to_multiset().count(a[i]) > 0);
            assert(b.contains(a[i]));
            let j = choose|j: int| 0 <= j < b.len() && b[j] == a[i];
            assert(key_of(b[j]) == k);
        }
        if has_key(b, k) {
            let i = choose|i: int| 0 <= i < b.len() && key_of(#[trigger] b[i]) == k;
            assert(b.to_multiset().count(b[i]) > 0);
            assert(a.contains(b[i]));
            let j = choose|j: int| 0 <= j < a.len() && a[j] == b[i];
            assert(key_of(a[j]) == k);
        }
    }
}


// ── Facts for intersection ──────────────────────────────────────────

pub proof fn lemma_firsts(hs: Seq<Hit>)
    ensures
        forall|k: (Seq<char>, u32)| #[trigger] has_key(firsts(hs), k) == has_key(hs, k),
        forall|i: int| 0 <= i < firsts(hs).len() ==> hs.contains(#[trigger] firsts(hs)[i]),
    decreases hs.len(),
{
    if hs.len() > 0 {
        let d = hs.drop_last();
        lemma_firsts(d);
        lemma_find_key(d, key_of(hs.last()));
        let f = firsts(hs);
        let fd = firsts(d);
        assert forall|k: (Seq<char>, u32)| #[trigger] has_key(f, k) == has_key(hs, k) by {
            if has_key(hs, k) {
                let w = choose|w: int| 0 <= w < hs.len() && key_of(#[trigger] hs[w]) == k;
                if w < hs.len() - 1 {
                    assert(d[w] == hs[w]);
                    assert(has_key(d, k));
                    assert(has_key(fd, k));
                    let v = choose|v: int| 0 <= v < fd.len() && key_of(#[trigger] fd[v]) == k;
                    assert(f[v] == fd[v]);
                } else if find_key(d, key_of(hs.last())) >= 0 {
                    let j = find_key(d, key_of(hs.last()));
                    assert(has_key(d, k));
                    assert(has_key(fd, k));
                    let v = choose|v: int| 0 <= v < fd.len() && key_of(#[trigger] fd[v]) == k;
                    assert(f[v] == fd[v]);
                } else {
                    assert(f[f.len() - 1] == hs.last());
                }
            }
            if has_key(f, k) {
                let v = choose|v: int| 0 <= v < f.len() && key_of(#[trigger] f[v]) == k;
                if v < fd.len() {
                    assert(f[v] == fd[v]);
                    assert(has_key(fd, k));
                    let w = choose|w: int| 0 <= w < d.len() && key_of(#[trigger] d[w]) == k;
                    assert(hs[w] == d[w]);
                } else {
                    assert(key_of(hs[hs.len() - 1]) == k);
                }
            }
        }
        assert forall|i: int| 0 <= i < f.len() implies hs.contains(#[trigger] f[i]) by {
            if i < fd.len() {
                assert(f[i] == fd[i]);
                assert(d.contains(fd[i]));
                let w = choose|w: int| 0 <= w < d.len() && d[w] == fd[i];
                assert(hs[w] == d[w]);
            } else {
                assert(hs[hs.len() - 1] == f[i]);
            }
        }
    }
}

pub proof fn lemma_flatten_firsts(sets: Seq<Seq<Hit>>)
    ensures
        forall|k: (Seq<char>, u32)| #[trigger] has_key(flatten_firsts(sets), k) == (exists|s: int|
            0 <= s < sets.len() && has_key(#[trigger] sets[s], k)),
        forall|i: int| 0 <= i < flatten_firsts(sets).len() ==> flatten(sets).contains(
            #[trigger] flatten_firsts(sets)[i],
        ),
    decreases sets.len(),
{
    if sets.len() > 0 {
        let d = sets.drop_last();
        let l = sets.last();
        lemma_flatten_firsts(d);
        lemma_firsts(l);
        let a = flatten_firsts(d);
        let b = firsts(l);
        let f = flatten_firsts(sets);
        assert(f == a + b);
        assert forall|k: (Seq<char>, u32)| #[trigger] has_key(f, k) == (exists|s: int|
            0 <= s < sets.len() && has_key(#[trigger] sets[s], k)) by {
            if has_key(f, k) {
                let v = choose|v: int| 0 <= v < f.len() && key_of(#[trigger] f[v]) == k;
                if v < a.len() {
                    assert(f[v] == a[v]);
                    assert(has_key(a, k));
                    let s = choose|s: int| 0 <= s < d.len() && has_key(#[trigger] d[s], k);
                    assert(sets[s] == d[s]);
                } else {
                    assert(f[v] == b[v - a.len()]);
                    assert(has_key(b, k));
                    assert(has_key(l, k));
                    assert(sets[sets.len() - 1] == l);
                }
            }
            if exists|s: int| 0 <= s < sets.len() && has_key(#[trigger] sets[s], k) {
                let s = choose|s: int| 0 <= s < sets.len() && has_key(#[trigger] sets[s], k);
                if s < sets.len() - 1 {
                    assert(d[s] == sets[s]);
                    assert(has_key(d[s], k));
                    assert(has_key(a, k));
                    let v = choose|v: int| 0 <= v < a.len() && key_of(#[trigger] a[v]) == k;
                    assert(f[v] == a[v]);
                } else {
                    assert(has_key(l, k));
                    assert(has_key(b, k));
                    let v = choose|v: int| 0 <= v < b.len() && key_of(#[trigger] b[v]) == k;
                    assert(f[a.len() + v] == b[v]);
                }
            }
        }
        let fl = flatten(sets);
        assert(fl == flatten(d) + l);
        assert forall|i: int| 0 <= i < f.len() implies fl.contains(#[trigger] f[i]) by {
            if i < a.len() {
                assert(f[i] == a[i]);
                assert(flatten(d).contains(a[i]));
                let w = choose|w: int| 0 <= w < flatten(d).len() && flatten(d)[w] == a[i];
                assert(fl[w] == flatten(d)[w]);
            } else {
                assert(f[i] == b[i - a.len()]);
                assert(l.contains(b[i - a.len()]));
                let w = choose|w: int| 0 <= w < l.len() && l[w] == b[i - a.len()];
                assert(fl[flatten(d).len() + w] == l[w]);
            }
        }
    }
}

pub proof fn lemma_sets_with_key(sets: Seq<Seq<Hit>>, k: (Seq<char>, u32))
    ensures
        sets_with_key(sets, k) <= sets.len(),
        (sets_with_key(sets, k) == sets.len()) == (forall|s: int|
            0 <= s < sets.len() ==> has_key(#[trigger] sets[s], k)),
    decreases sets.len(),
{
    if sets.len() > 0 {
        let d = sets.drop_last();
        lemma_sets_with_key(d, k);
        lemma_find_key(sets.last(), k);
        if sets_with_key(sets, k) == sets.len() {
            assert forall|s: int| 0 <= s < sets.len() implies has_key(#[trigger] sets[s], k) by {
                if s < sets.len() - 1 {
                    assert(d[s] == sets[s]);
                }
            }
        }
        if forall|s: int| 0 <= s < sets.len() ==> has_key(#[trigger] sets[s], k) {
            assert forall|s: int| 0 <= s < d.len() implies has_key(#[trigger] d[s], k) by {
                assert(d[s] == sets[s]);
            }
            assert(has_key(sets[sets.len() - 1], k));
        }
    }
}

pub proof fn lemma_keep_common(hs: Seq<Hit>, sets: Seq<Seq<Hit>>)
    ensures
        forall|k: (Seq<char>, u32)| #[trigger] has_key(keep_common(hs, sets), k) == (has_key(hs, k)
            && sets_with_key(sets, k) == sets.len()),
        forall|i: int| 0 <= i < keep_common(hs, sets).len() ==> hs.contains(
            #[trigger] keep_common(hs, sets)[i],
        ),
    decreases hs.len(),
{
    if hs.len() > 0 {
        let d = hs.drop_last();
        lemma_keep_common(d, sets);
        let f = keep_common(hs, sets);
        let fd = keep_common(d, sets);
        let last_kept = sets_with_key(sets, key_of(hs.last())) == sets.len();
        assert forall|k: (Seq<char>, u32)| #[trigger] has_key(f, k) == (has_key(hs, k)
            && sets_with_key(sets, k) == sets.len()) by {
            if has_key(f, k) {
                let v = choose|v: int| 0 <= v < f.len() && key_of(#[trigger] f[v]) == k;
                if v < fd.len() {
                    assert(f[v] == fd[v]);
                    assert(has_key(fd, k));
                    let w = choose|w: int| 0 <= w < d.len() && key_of(#[trigger] d[w]) == k;
                    assert(hs[w] == d[w]);
                } else {
                    assert(key_of(hs[hs.len() - 1]) == k);
                }
            }
            if has_key(hs, k) && sets_with_key(sets, k) == sets.len() {
                let w = choose|w: int| 0 <= w < hs.len() && key_of(#[trigger] hs[w]) == k;
                if w < hs.len() - 1 {
                    assert(d[w] == hs[w]);
                    assert(has_key(d, k));
                    assert(has_key(fd, k));
                    let v = choose|v: int| 0 <= v < fd.len() && key_of(#[trigger] fd[v]) == k;
                    assert(f[v] == fd[v]);
                } else {
                    assert(f[f.len() - 1] == hs.last());
                }
            }
        }
        assert forall|i: int| 0 <= i < f.len() implies hs.contains(#[trigger] f[i]) by {
            if i < fd.len() {
                assert(f[i] == fd[i]);
                assert(d.contains(fd[i]));
                let w = choose|w: int| 0 <= w < d.len() && d[w] == fd[i];
                assert(hs[w] == d[w]);
            } else {
                assert(hs[hs.len() - 1] == f[i]);
            }
        }
    }
}

/// Number of sets that hold a hit at `path:line`.
fn count_sets(sets: &[ResultSet], path: &String, line: u32) -> (r: usize)
    ensures
        r == sets_with_key(hits_of(sets@), (path@, line)),
{
    let mut c: usize = 0;
    for t in 0..sets.len()
        invariant
            c == sets_with_key(hits_of(sets@).take(t as int), (path@, line)),
            c <= t,
    {
        let set = &sets[t];
        proof {
            lemma_take_all(set.hits@);
            assert(hits_of(sets@).take(t + 1).drop_last() =~= hits_of(sets@).take(t as int));
        }
        match find_hit(&set.hits, set.hits.len(), path, line) {
            Some(_) => {
                c = c + 1;
            },
            None => {},
        }
    }
    assert(hits_of(sets@).take(hits_of(sets@).len() as int) =~= hits_of(sets@));
    c
}

/// Intersection: hits present in all result sets; the best score wins.
pub fn intersect(sets: &[ResultSet]) -> (r: ResultSet)
    ensures
        r.hits@ == spec_intersect(hits_of(sets@)),
        forall|k: (Seq<char>, u32)| #[trigger] has_key(r.hits@, k) == (hits_of(sets@).len() > 0 && forall|s: int|
            0 <= s < hits_of(sets@).len() ==> has_key(#[trigger] hits_of(sets@)[s], k)),
        no_nan(flatten(hits_of(sets@))) ==> descending(r.hits@),
{
    if sets.len() == 0 {
        return ResultSet::empty();
    }
    let mut best: Vec<Hit> = Vec::new();
    let ghost mut seen: Seq<Hit> = seq![];
    for s in 0..sets.len()
        invariant
            best@ == best_fold(seen),
            seen == flatten_firsts(hits_of(sets@).take(s as int)),
    {
        proof {
            lemma_flatten_step(hits_of(sets@), s as int);
        }
        let ghost before = seen;
        let set = &sets[s];
        let m = set.hits.len();
        for i in 0..m
            invariant
                s < hits_of(sets@).len(),
                set.hits@ == hits_of(sets@)[s as int],
                m == set.hits@.len(),
                best@ == best_fold(seen),
                seen == before + firsts(set.hits@.take(i as int)),
        {
            let h = &set.hits[i];
            let ghost pre = set.hits@.take(i as int);
            proof {
                assert(set.hits@.take(i + 1).drop_last() =~= pre);
                assert(set.hits@.take(i + 1).last() == *h);
            }
            match find_hit(&set.hits, i, &h.path, h.line) {
                Some(_) => {
                    assert(firsts(set.hits@.take(i + 1)) == firsts(pre));
                },
                None => {
                    best_update(&mut best, h);
                    proof {
                        assert(best_fold(seen.push(*h)) == best_step(best_fold(seen), *h)) by {
                            assert(seen.push(*h).drop_last() =~= seen);
                        }
                        assert(firsts(set.hits@.take(i + 1)) == firsts(pre).push(*h));
                        seen = seen.push(*h);
                        assert(seen =~= before + firsts(set.hits@.take(i + 1)));
                    }
                },
            }
        }
        proof {
            lemma_take_all(set.hits@);
        }
    }
    proof {
        assert(hits_of(sets@).take(hits_of(sets@).len() as int) =~= hits_of(sets@));
    }
    let mut kept: Vec<Hit> = Vec::new();
    for j in 0..best.len()
        invariant
            kept@ == keep_common(best@.take(j as int), hits_of(sets@)),
    {
        let h = &best[j];
        let c = count_sets(sets, &h.path, h.line);
        proof {
            assert(best@.take(j + 1).drop_last() =~= best@.take(j as int));
        }
        if c == sets.len() {
            kept.push(clone_hit(h));
        }
    }
    proof {
        lemma_take_all(best@);
        lemma_best_fold(seen);
        lemma_flatten_firsts(hits_of(sets@));
        lemma_keep_common(best@, hits_of(sets@));
    }
    let ghost common = kept@;
    let r = ResultSet::from_hits(kept).sorted();
    proof {
        crate::types::lemma_sort_desc_multiset(common);
        lemma_multiset_has_key(r.hits@, common);
        assert forall|k: (Seq<char>, u32)| #[trigger] has_key(r.hits@, k) == (hits_of(sets@).len() > 0 && forall|s: int|
            0 <= s < hits_of(sets@).len() ==> has_key(#[trigger] hits_of(sets@)[s], k)) by {
            lemma_sets_with_key(hits_of(sets@), k);
            if forall|s: int| 0 <= s < hits_of(sets@).len() ==> has_key(#[trigger] hits_of(sets@)[s], k) {
                assert(has_key(hits_of(sets@)[0], k));
            }
        }
        if no_nan(flatten(hits_of(sets@))) {
            assert(no_nan(common)) by {
                assert forall|i: int| 0 <= i < common.len() implies !(#[trigger] common[i]).score.is_nan() by {
                    assert(best@.contains(common[i]));
                    let a = choose|a: int| 0 <= a < best@.len() && best@[a] == common[i];
                    assert(seen.contains(best@[a]));
                    let b = choose|b: int| 0 <= b < seen.len() && seen[b] == best@[a];
                    assert(flatten(hits_of(sets@)).contains(seen[b]));
                }
            }
        }
    }
    r
}

/// Difference: hits of `left` whose `path:line` is not in `right`.
pub fn difference(left: &ResultSet, right: &ResultSet) -> (r: ResultSet)
    ensures
        r.hits@ == spec_difference(left.hits@, right.hits@),
        forall|k: (Seq<char>, u32)| #[trigger] has_key(r.hits@, k) == (has_key(left.hits@, k)
            && !has_key(right.hits@, k)),
{
    let mut out: Vec<Hit> = Vec::new();
    proof {
        lemma_take_all(right.hits@);
    }
    for i in 0..left.hits.len()
        invariant
            out@ == spec_difference(left.hits@.take(i as int), right.hits@),
            right.hits@.take(right.hits@.len() as int) == right.hits@,
    {
        let h = &left.hits[i];
        proof {
            assert(left.hits@.take(i + 1).drop_last() =~= left.hits@.take(i as int));
        }
        if find_hit(&right.hits, right.hits.len(), &h.path, h.line).is_none() {
            out.push(clone_hit(h));
        }
    }
    proof {
        lemma_take_all(left.hits@);
        lemma_difference(left.hits@, right.hits@);
    }
    ResultSet::from_hits(out)
}

pub proof fn lemma_difference(left: Seq<Hit>, right: Seq<Hit>)
    ensures
        forall|k: (Seq<char>, u32)| #[trigger] has_key(spec_difference(left, right), k) == (has_key(left, k)
            && !has_key(right, k)),
    decreases left.len(),
{
    if left.len() > 0 {
        let d = left.drop_last();
        lemma_difference(d, right);
        lemma_find_key(right, key_of(left.last()));
        let f = spec_difference(left, right);
        let fd = spec_difference(d, right);
        assert forall|k: (Seq<char>, u32)| #[trigger] has_key(f, k) == (has_key(left, k) && !has_key(right, k)) by {
            if has_key(f, k) {
                let v = choose|v: int| 0 <= v < f.len() && key_of(#[trigger] f[v]) == k;
                if v < fd.len() {
                    assert(f[v] == fd[v]);
                    assert(has_key(fd, k));
                    let w = choose|w: int| 0 <= w < d.len() && key_of(#[trigger] d[w]) == k;
                    assert(left[w] == d[w]);
                } else {
                    assert(key_of(left[left.len() - 1]) == k);
                }
            }
            if has_key(left, k) && !has_key(right, k) {
                let w = choose|w: int| 0 <= w < left.len() && key_of(#[trigger] left[w]) == k;
                if w < left.len() - 1 {
                    assert(d[w] == left[w]);
                    assert(has_key(d, k));
                    assert(has_key(fd, k));
                    let v = choose|v: int| 0 <= v < fd.len() && key_of(#[trigger] fd[v]) == k;
                    assert(f[v] == fd[v]);
                } else {
                    assert(f[f.len() - 1] == left.last());
                }
            }
        }
    }
}

pub proof fn lemma_threshold(hs: Seq<Hit>, t: Score)
    ensures
        forall|i: int| 0 <= i < spec_threshold(hs, t).len() ==> (#[trigger] spec_threshold(hs, t)[i]).score.spec_ge(t),
        forall|i: int| 0 <= i < spec_threshold(hs, t).len() ==> hs.contains(#[trigger] spec_threshold(hs, t)[i]),
        forall|i: int| 0 <= i < hs.len() && (#[trigger] hs[i]).score.spec_ge(t) ==> spec_threshold(hs, t).contains(hs[i]),
    decreases hs.len(),
{
    if hs.len() > 0 {
        let d = hs.drop_last();
        lemma_threshold(d, t);
        let f = spec_threshold(hs, t);
        let fd = spec_threshold(d, t);
        assert forall|i: int| 0 <= i < f.len() implies (#[trigger] f[i]).score.spec_ge(t) && hs.contains(f[i]) by {
            if i < fd.len() {
                assert(f[i] == fd[i]);
                assert(d.contains(fd[i]));
                let w = choose|w: int| 0 <= w < d.len() && d[w] == fd[i];
                assert(hs[w] == d[w]);
            } else {
                assert(hs[hs.len() - 1] == f[i]);
            }
        }
        assert forall|i: int| 0 <= i < hs.len() && (#[trigger] hs[i]).score.spec_ge(t) implies f.contains(hs[i]) by {
            if i < hs.len() - 1 {
                assert(d[i] == hs[i]);
                assert(fd.contains(d[i]));
                let w = choose|w: int| 0 <= w < fd.len() && fd[w] == d[i];
                assert(f[w] == fd[w]);
            } else {
                assert(f[f.len() - 1] == hs[i]);
            }
        }
    }
}

/// Score threshold: keep the hits with score `>= t`, in order.
pub fn threshold(set: &ResultSet, t: Score) -> (r: ResultSet)
    ensures
        r.hits@ == spec_threshold(set.hits@, t),
        forall|i: int| 0 <= i < r.hits@.len() ==> (#[trigger] r.hits@[i]).score.spec_ge(t),
        forall|i: int| 0 <= i < set.hits@.len() && (#[trigger] set.hits@[i]).score.spec_ge(t) ==> r.hits@.contains(set.hits@[i]),
{
    let mut out: Vec<Hit> = Vec::new();
    for i in 0..set.hits.len()
        invariant
            out@ == spec_threshold(set.hits@.take(i as int), t),
    {
        let h = &set.hits[i];
        proof {
            assert(set.hits@.take(i + 1).drop_last() =~= set.hits@.take(i as int));
        }
        if h.score.ge(t) {
            out.push(clone_hit(h));
        }
    }
    proof {
        lemma_take_all(set.hits@);
        lemma_threshold(set.hits@, t);
    }
    ResultSet::from_hits(out)
}

/// Top k by score.
pub fn top_k(set: &ResultSet, k: usize) -> (r: ResultSet)
    ensures
        r.hits@ == spec_top_k(set.hits@, k as nat),
        r.hits@.len() == if k < set.hits@.len() { k as nat } else { set.hits@.len() },
        r.hits@ == sort_desc(set.hits@).take(r.hits@.len() as int),
        no_nan(set.hits@) ==> descending(r.hits@),
{
    let copy = ResultSet::from_hits(crate::types::clone_hits(&set.hits));
    let mut sorted = copy.sorted();
    proof {
        crate::types::lemma_sort_desc_multiset(set.hits@);
    }
    let ghost full = sorted.hits@;
    sorted.hits.truncate(k);
    proof {
        if k >= full.len() {
            assert(sorted.hits@ =~= full);
            assert(full.take(full.len() as int) =~= full);
        }
        if no_nan(set.hits@) {
            assert forall|i: int, j: int| 0 <= i < j < sorted.hits@.len() implies (#[trigger] sorted.hits@[i]).score.rank() >= (#[trigger] sorted.hits@[j]).score.rank() by {
                assert(sorted.hits@[i] == full[i] && sorted.hits@[j] == full[j]);
            }
        }
    }
    sorted
}


// ── Reciprocal rank fusion: grouping ────────────────────────────────

/// One key's entry in reciprocal rank fusion: the first hit seen with the
/// key, and every `(set index, rank)` at which the key occurs, in order.
/// The fused score of the key is `Σ w[set] / (60 + rank + 1)` over these.
pub struct RrfGroup {
    pub hit: Hit,
    pub ranks: Vec<(usize, usize)>,
}

pub open spec fn positions_view(v: Seq<(usize, usize)>) -> Seq<(int, int)> {
    v.map_values(|p: (usize, usize)| (p.0 as int, p.1 as int))
}

pub open spec fn group_view(g: RrfGroup) -> (Hit, Seq<(int, int)>) {
    (g.hit, positions_view(g.ranks@))
}

pub open spec fn groups_view(v: Seq<RrfGroup>) -> Seq<(Hit, Seq<(int, int)>)> {
    v.map_values(|g: RrfGroup| group_view(g))
}

pub open spec fn group_hits(gs: Seq<(Hit, Seq<(int, int)>)>) -> Seq<Hit> {
    gs.map_values(|g: (Hit, Seq<(int, int)>)| g.0)
}

/// The hits of a set, each with its set index and rank.
pub open spec fn tag(hs: Seq<Hit>, s: int) -> Seq<(int, int, Hit)> {
    Seq::new(hs.len(), |i: int| (s, i, hs[i]))
}

/// All hits of all sets with their set index and rank, set after set.
pub open spec fn tagged(sets: Seq<Seq<Hit>>) -> Seq<(int, int, Hit)>
    decreases sets.len(),
{
    if sets.len() == 0 {
        seq![]
    } else {
        tagged(sets.drop_last()) + tag(sets.last(), sets.len() - 1)
    }
}

pub open spec fn rrf_step(gs: Seq<(Hit, Seq<(int, int)>)>, x: (int, int, Hit)) -> Seq<
    (Hit, Seq<(int, int)>),
> {
    let j = find_key(group_hits(gs), key_of(x.2));
    if j < 0 {
        gs.push((x.2, seq![(x.0, x.1)]))
    } else {
        gs.update(j, (gs[j].0, gs[j].1.push((x.0, x.1))))
    }
}

pub open spec fn rrf_fold(xs: Seq<(int, int, Hit)>) -> Seq<(Hit, Seq<(int, int)>)>
    decreases xs.len(),
{
    if xs.len() == 0 {
        seq![]
    } else {
        rrf_step(rrf_fold(xs.drop_last()), xs.last())
    }
}

pub open spec fn stream_hits(xs: Seq<(int, int, Hit)>) -> Seq<Hit> {
    xs.map_values(|x: (int, int, Hit)| x.2)
}

/// The groups of reciprocal rank fusion, keys in order of first
/// appearance.
pub open spec fn spec_rrf_groups(sets: Seq<Seq<Hit>>) -> Seq<(Hit, Seq<(int, int)>)> {
    rrf_fold(tagged(sets))
}

pub proof fn lemma_stream_hits_tagged(sets: Seq<Seq<Hit>>)
    ensures
        stream_hits(tagged(sets)) == flatten(sets),
    decreases sets.len(),
{
    if sets.len() > 0 {
        lemma_stream_hits_tagged(sets.drop_last());
        let l = sets.last();
        assert(stream_hits(tag(l, sets.len() - 1)) =~= l);
        assert(stream_hits(tagged(sets)) =~= stream_hits(tagged(sets.drop_last())) + stream_hits(
            tag(l, sets.len() - 1),
        ));
    }
}

/// The representative hits of the groups are the first occurrences.
pub proof fn lemma_rrf_fold_hits(xs: Seq<(int, int, Hit)>)
    ensures
        group_hits(rrf_fold(xs)) == firsts(stream_hits(xs)),
    decreases xs.len(),
{
    if xs.len() > 0 {
        let d = xs.drop_last();
        let x = xs.last();
        lemma_rrf_fold_hits(d);
        let gs = rrf_fold(d);
        let hs = stream_hits(xs);
        assert(hs.drop_last() =~= stream_hits(d));
        assert(hs.last() == x.2);
        lemma_firsts(stream_hits(d));
        lemma_find_key(group_hits(gs), key_of(x.2));
        lemma_find_key(stream_hits(d), key_of(x.2));
        let j = find_key(group_hits(gs), key_of(x.2));
        if j < 0 {
            assert(group_hits(rrf_step(gs, x)) =~= group_hits(gs).push(x.2));
        } else {
            assert(group_hits(rrf_step(gs, x)) =~= group_hits(gs));
        }
    }
}

/// Every recorded rank points at a hit with the group's key.
pub open spec fn ranks_sound(gs: Seq<(Hit, Seq<(int, int)>)>, sets: Seq<Seq<Hit>>) -> bool {
    forall|g: int, r: int|
        0 <= g < gs.len() && 0 <= r < gs[g].1.len() ==> {
            let (s, i) = #[trigger] gs[g].1[r];
            &&& 0 <= s < sets.len()
            &&& 0 <= i < sets[s].len()
            &&& key_of(sets[s][i]) == key_of(gs[g].0)
        }
}

/// Every stream entry is a real position of its hit.
pub open spec fn stream_sound(xs: Seq<(int, int, Hit)>, sets: Seq<Seq<Hit>>) -> bool {
    forall|t: int|
        0 <= t < xs.len() ==> {
            let (s, i, h) = #[trigger] xs[t];
            &&& 0 <= s < sets.len()
            &&& 0 <= i < sets[s].len()
            &&& sets[s][i] == h
        }
}

pub proof fn lemma_rrf_fold_sound(xs: Seq<(int, int, Hit)>, sets: Seq<Seq<Hit>>)
    requires
        stream_sound(xs, sets),
    ensures
        ranks_sound(rrf_fold(xs), sets),
    decreases xs.len(),
{
    if xs.len() > 0 {
        let d = xs.drop_last();
        let x = xs.last();
        assert(stream_sound(d, sets)) by {
            assert forall|t: int| 0 <= t < d.len() implies #[trigger] d[t] == xs[t] by {}
        }
        lemma_rrf_fold_sound(d, sets);
        let gs = rrf_fold(d);
        lemma_find_key(group_hits(gs), key_of(x.2));
        let j = find_key(group_hits(gs), key_of(x.2));
        let ns = rrf_step(gs, x);
        assert(xs[xs.len() - 1] == x);
        assert forall|g: int, r: int| 0 <= g < ns.len() && 0 <= r < ns[g].1.len() implies {
            let (s, i) = #[trigger] ns[g].1[r];
            &&& 0 <= s < sets.len()
            &&& 0 <= i < sets[s].len()
            &&& key_of(sets[s][i]) == key_of(ns[g].0)
        } by {
            if j < 0 && g == gs.len() {
                assert(ns[g].1 == seq![(x.0, x.1)]);
            } else if j >= 0 && g == j {
                assert(group_hits(gs)[j] == gs[j].0);
                if r < gs[j].1.len() {
                    assert(ns[g].1[r] == gs[j].1[r]);
                } else {
                    assert(ns[g].1[r] == (x.0, x.1));
                }
            } else {
                assert(ns[g] == gs[g]);
            }
        }
    }
}

pub proof fn lemma_tagged_sound(sets: Seq<Seq<Hit>>)
    ensures
        stream_sound(tagged(sets), sets),
    decreases sets.len(),
{
    if sets.len() > 0 {
        let d = sets.drop_last();
        lemma_tagged_sound(d);
        let a = tagged(d);
        let b = tag(sets.last(), sets.len() - 1);
        let xs = tagged(sets);
        assert forall|t: int| 0 <= t < xs.len() implies {
            let (s, i, h) = #[trigger] xs[t];
            &&& 0 <= s < sets.len()
            &&& 0 <= i < sets[s].len()
            &&& sets[s][i] == h
        } by {
            if t < a.len() {
                assert(xs[t] == a[t]);
                let (s, i, h) = a[t];
                assert(d[s] == sets[s]);
            } else {
                assert(xs[t] == b[t - a.len()]);
            }
        }
    }
}

/// Index of the group of the hit at `path:line`.
fn find_group(groups: &Vec<RrfGroup>, path: &String, line: u32) -> (r: Option<usize>)
    ensures
        match r {
            Some(j) => find_key(group_hits(groups_view(groups@)), (path@, line)) == j as int && j < groups@.len(),
            None => find_key(group_hits(groups_view(groups@)), (path@, line)) == -1,
        },
{
    let ghost t = group_hits(groups_view(groups@));
    let ghost k = (path@, line);
    let n = groups.len();
    let mut j: usize = 0;
    while j < n
        invariant
            j <= n == groups@.len(),
            t == group_hits(groups_view(groups@)),
            t.len() == n,
            k == (path@, line),
            forall|u: int| 0 <= u < j ==> key_of(#[trigger] t[u]) != k,
        decreases n - j,
    {
        assert(t[j as int] == groups@[j as int].hit);
        if groups[j].hit.line == line && crate::types::same_string(&groups[j].hit.path, path) {
            proof {
                assert(key_of(t[j as int]) == k);
                lemma_find_key_at(t, k, j as int);
            }
            return Some(j);
        }
        j = j + 1;
    }
    proof {
        lemma_find_key_none(t, k);
    }
    None
}

/// The groups of reciprocal rank fusion over `sets`: one per `path:line`
/// in order of first appearance, holding the first hit with that key and
/// every `(set index, rank)` at which the key occurs.
pub fn rrf_groups(sets: &[ResultSet]) -> (r: Vec<RrfGroup>)
    ensures
        groups_view(r@) == spec_rrf_groups(hits_of(sets@)),
        group_hits(groups_view(r@)) == firsts(flatten(hits_of(sets@))),
        ranks_sound(groups_view(r@), hits_of(sets@)),
{
    let mut groups: Vec<RrfGroup> = Vec::new();
    let ghost mut seen: Seq<(int, int, Hit)> = seq![];
    proof {
        assert(groups_view(groups@) =~= seq![]);
    }
    for s in 0..sets.len()
        invariant
            groups_view(groups@) == rrf_fold(seen),
            seen == tagged(hits_of(sets@).take(s as int)),
    {
        proof {
            assert(hits_of(sets@).take(s + 1).drop_last() =~= hits_of(sets@).take(s as int));
        }
        let ghost before = seen;
        let set = &sets[s];
        let m = set.hits.len();
        for i in 0..m
            invariant
                s < hits_of(sets@).len(),
                set.hits@ == hits_of(sets@)[s as int],
                m == set.hits@.len(),
                groups_view(groups@) == rrf_fold(seen),
                seen == before + tag(set.hits@, s as int).take(i as int),
        {
            let h = &set.hits[i];
            let ghost x = (s as int, i as int, *h);
            let ghost gs = groups_view(groups@);
            match find_group(&groups, &h.path, h.line) {
                Some(j) => {
                    let mut g = groups.remove(j);
                    g.ranks.push((s, i));
                    groups.insert(j, g);
                    proof {
                        assert(positions_view(g.ranks@) =~= gs[j as int].1.push((s as int, i as int)));
                        assert(groups_view(groups@) =~= rrf_step(gs, x));
                    }
                },
                None => {
                    let mut ranks: Vec<(usize, usize)> = Vec::new();
                    ranks.push((s, i));
                    groups.push(RrfGroup { hit: clone_hit(h), ranks });
                    proof {
                        assert(positions_view(ranks@) =~= seq![(s as int, i as int)]);
                        assert(groups_view(groups@) =~= rrf_step(gs, x));
                    }
                },
            }
            proof {
                assert(rrf_fold(seen.push(x)) == rrf_step(rrf_fold(seen), x)) by {
                    assert(seen.push(x).drop_last() =~= seen);
                }
                seen = seen.push(x);
                assert(seen =~= before + tag(set.hits@, s as int).take(i + 1));
            }
        }
        proof {
            assert(tag(set.hits@, s as int).take(m as int) =~= tag(set.hits@, s as int));
            assert(hits_of(sets@).take(s + 1).last() == hits_of(sets@)[s as int]);
        }
    }
    proof {
        assert(hits_of(sets@).take(hits_of(sets@).len() as int) =~= hits_of(sets@));
        lemma_rrf_fold_hits(seen);
        lemma_stream_hits_tagged(hits_of(sets@));
        lemma_tagged_sound(hits_of(sets@));
        lemma_rrf_fold_sound(seen, hits_of(sets@));
    }
    groups
}

} // verus!
