//! The evaluator. Every expression evaluates to a result set; the work
//! that needs the outside world (running `rg`, and the floating-point
//! parts: reading numeric literals and reciprocal rank fusion) is asked
//! for as a `Request`. The caller performs it, adds the answer to its
//! `Replies` and evaluates again: searches are looked up by what was
//! searched for, the other answers are replayed in order. Evaluation is
//! otherwise a pure function of the expression, the environment and the
//! answers.
use vstd::prelude::*;
use crate::types::{
    Expr, ExprV, Weights, WeightsV, Number, SearchOpts, OptsV, Hit, ResultSet, Score, SqError,
    SqErrorV, Env, EvalResult, LabeledResult, OutputFormat, Binding, BatchEntry, clone_set,
    clone_error, clone_opts, expr_view, exprs_view, bindings_view, entries_view,
};
use crate::fusion::{
    intersect, union, difference, threshold, top_k, spec_intersect, spec_union,
    spec_difference, spec_threshold, spec_top_k, hits_of,
};
use crate::rg::RgBackend;
use crate::util::{keep_path, passes_opts};
use crate::types::strings_view;

verus! {

// ── Context ─────────────────────────────────────────────────────────

/// Execution context: the ripgrep backend and the bound names.
pub struct Ctx {
    pub rg: RgBackend,
    pub env: Env,
}

impl Ctx {
    pub fn new(rg: RgBackend) -> (r: Ctx)
        ensures
            r.rg == rg,
            r.env@ == Map::<Seq<char>, Seq<Hit>>::empty(),
    {
        Ctx { rg, env: Env::new() }
    }
}

// ── Requests and replies ────────────────────────────────────────────

/// A ripgrep search: the pattern, its filters, and, inside the target of
/// a `pipe`, the files it is restricted to (already narrowed by the
/// filters).
pub struct SearchKey {
    pub query: String,
    pub opts: SearchOpts,
    pub files: Option<Vec<String>>,
}

pub open spec fn files_view(f: Option<Vec<String>>) -> Option<Seq<Seq<char>>> {
    match f {
        Some(v) => Some(strings_view(v@)),
        None => None,
    }
}

impl View for SearchKey {
    type V = (Seq<char>, OptsV, Option<Seq<Seq<char>>>);

    open spec fn view(&self) -> (Seq<char>, OptsV, Option<Seq<Seq<char>>>) {
        (self.query@, self.opts@, files_view(self.files))
    }
}

/// Outside work the evaluator needs done.
pub enum Request {
    /// Run ripgrep for a search.
    Search(SearchKey),
    /// The count a numeric literal stands for in `top` (the number,
    /// converted to an unsigned size with saturation).
    Count(Number),
    /// The score a numeric literal stands for in `>`.
    Value(Number),
    /// Reciprocal rank fusion of the children's results with the weights.
    Fuse(Weights, Vec<ResultSet>),
}

pub enum RequestV {
    Search((Seq<char>, OptsV, Option<Seq<Seq<char>>>)),
    Count(Seq<char>),
    Value(Seq<char>),
    Fuse(WeightsV, Seq<Seq<Hit>>),
}

impl View for Request {
    type V = RequestV;

    open spec fn view(&self) -> RequestV {
        match self {
            Request::Search(k) => RequestV::Search(k@),
            Request::Count(n) => RequestV::Count(n.literal@),
            Request::Value(n) => RequestV::Value(n.literal@),
            Request::Fuse(w, sets) => RequestV::Fuse(w@, hits_of(sets@)),
        }
    }
}

/// The answers to the requests so far: each search with its outcome, and
/// for the other kinds one list each, in the order the requests were made.
pub struct Replies {
    pub searches: Vec<(SearchKey, Result<ResultSet, SqError>)>,
    pub counts: Vec<usize>,
    pub values: Vec<Score>,
    pub fusions: Vec<ResultSet>,
}

pub struct RepliesV {
    pub searches: Seq<((Seq<char>, OptsV, Option<Seq<Seq<char>>>), Result<Seq<Hit>, SqErrorV>)>,
    pub counts: Seq<usize>,
    pub values: Seq<Score>,
    pub fusions: Seq<Seq<Hit>>,
}

pub open spec fn outcome_view(r: Result<ResultSet, SqError>) -> Result<Seq<Hit>, SqErrorV> {
    match r {
        Ok(s) => Ok(s.hits@),
        Err(e) => Err(e@),
    }
}

impl View for Replies {
    type V = RepliesV;

    open spec fn view(&self) -> RepliesV {
        RepliesV {
            searches: self.searches@.map_values(
                |a: (SearchKey, Result<ResultSet, SqError>)| (a.0@, outcome_view(a.1)),
            ),
            counts: self.counts@,
            values: self.values@,
            fusions: hits_of(self.fusions@),
        }
    }
}

impl Replies {
    /// No answers yet.
    pub fn new() -> (r: Replies)
        ensures
            r@.searches.len() == 0,
            r@.counts.len() == 0,
            r@.values.len() == 0,
            r@.fusions.len() == 0,
    {
        Replies { searches: Vec::new(), counts: Vec::new(), values: Vec::new(), fusions: Vec::new() }
    }
}

/// How many counts, values and fusions evaluation has used.
pub struct Cursor {
    pub counts: usize,
    pub values: usize,
    pub fusions: usize,
}

pub struct CurV {
    pub counts: nat,
    pub values: nat,
    pub fusions: nat,
}

impl View for Cursor {
    type V = CurV;

    open spec fn view(&self) -> CurV {
        CurV {
            counts: self.counts as nat,
            values: self.values as nat,
            fusions: self.fusions as nat,
        }
    }
}

pub open spec fn cur_zero() -> CurV {
    CurV { counts: 0, values: 0, fusions: 0 }
}

/// A step of evaluation: the result, or the next outside work needed.
pub enum Step {
    Done(Result<ResultSet, SqError>),
    Need(Request),
}

pub enum StepV {
    Done(Result<Seq<Hit>, SqErrorV>),
    Need(RequestV),
}

impl View for Step {
    type V = StepV;

    open spec fn view(&self) -> StepV {
        match self {
            Step::Done(r) => StepV::Done(outcome_view(*r)),
            Step::Need(q) => StepV::Need(q@),
        }
    }
}

/// A step of evaluating a list of expressions.
pub enum ListV {
    Done(Result<Seq<Seq<Hit>>, SqErrorV>),
    Need(RequestV),
}

/// A step of evaluating a list of bindings.
pub enum BindV {
    Done(Result<Map<Seq<char>, Seq<Hit>>, SqErrorV>),
    Need(RequestV),
}

// ── Semantics ───────────────────────────────────────────────────────

pub open spec fn nested_batch_msg() -> Seq<char> {
    "batch is only allowed as the whole query or the body of let"@
}

/// A finished list of results fed to `f`, or the list's error or request.
pub open spec fn after_list(l: ListV, f: spec_fn(Seq<Seq<Hit>>) -> Seq<Hit>) -> StepV {
    match l {
        ListV::Done(Ok(rs)) => StepV::Done(Ok(f(rs))),
        ListV::Done(Err(x)) => StepV::Done(Err(x)),
        ListV::Need(q) => StepV::Need(q),
    }
}

/// Whether a file passes a search's filters.
pub open spec fn kept_by(o: OptsV) -> spec_fn(Seq<char>) -> bool {
    |p: Seq<char>| keep_path(o, p)
}

/// Whether a file is one of `f`.
pub open spec fn member_of(f: Seq<Seq<char>>) -> spec_fn(Seq<char>) -> bool {
    |p: Seq<char>| f.contains(p)
}

/// The files a search may look at inside a `pipe` target: those of the
/// scope that pass the search's own filters. Outside any pipe there is no
/// restriction.
pub open spec fn scoped_files(fs: Option<Seq<Seq<char>>>, o: OptsV) -> Option<Seq<Seq<char>>> {
    match fs {
        Some(f) => Some(f.filter(kept_by(o))),
        None => None,
    }
}

/// Whether some hit of `s` lies in the file `path`.
pub open spec fn has_path(s: Seq<Hit>, path: Seq<char>) -> bool {
    exists|i: int| 0 <= i < s.len() && (#[trigger] s[i]).path@ == path
}

/// The distinct files of some hits, in order of first appearance.
pub open spec fn hit_files(hs: Seq<Hit>) -> Seq<Seq<char>>
    decreases hs.len(),
{
    if hs.len() == 0 {
        seq![]
    } else {
        let d = hit_files(hs.drop_last());
        if d.contains(hs.last().path@) {
            d
        } else {
            d.push(hs.last().path@)
        }
    }
}

/// The scope of a pipe's target: the files of the source's hits, within
/// the scope the pipe itself has.
pub open spec fn pipe_files(source: Seq<Hit>, fs: Option<Seq<Seq<char>>>) -> Seq<Seq<char>> {
    match fs {
        Some(f) => hit_files(source).filter(member_of(f)),
        None => hit_files(source),
    }
}

/// The answer given for a search, if any (the first one).
pub open spec fn find_search(
    rs: Seq<((Seq<char>, OptsV, Option<Seq<Seq<char>>>), Result<Seq<Hit>, SqErrorV>)>,
    k: (Seq<char>, OptsV, Option<Seq<Seq<char>>>),
) -> Option<Result<Seq<Hit>, SqErrorV>>
    decreases rs.len(),
{
    if rs.len() == 0 {
        None
    } else {
        match find_search(rs.drop_last(), k) {
            Some(r) => Some(r),
            None => if rs.last().0 == k {
                Some(rs.last().1)
            } else {
                None
            },
        }
    }
}

/// Evaluation of `e` with the bindings `env`, inside the file scope `fs`
/// of enclosing pipes, with the answers `rp`, from the answer position `c`:
/// the step reached and the answers used up to it. Children are evaluated
/// left to right and the first error stops evaluation. A search takes the
/// answer given for it, or asks for it; inside a pipe it is restricted to
/// the pipe's files that pass its filters, and with no such file it finds
/// nothing. A pipe evaluates its source first and its target inside the
/// source's files. A numeric literal or a fusion takes the next answer of
/// its kind, or asks for it when there is none left.
pub open spec fn ev(e: ExprV, env: Map<Seq<char>, Seq<Hit>>, fs: Option<Seq<Seq<char>>>, rp: RepliesV, c: CurV) -> (StepV, CurV)
    decreases e,
{
    match e {
        ExprV::Rg(q, o) => {
            let files = scoped_files(fs, o);
            if files matches Some(l) && l.len() == 0 {
                (StepV::Done(Ok(seq![])), c)
            } else {
                match find_search(rp.searches, (q, o, files)) {
                    Some(r) => (StepV::Done(r), c),
                    None => (StepV::Need(RequestV::Search((q, o, files))), c),
                }
            }
        },
        ExprV::Lex(_, _) => (StepV::Done(Err(SqErrorV::LexUnavailable)), c),
        ExprV::Sem(_, _) => (StepV::Done(Err(SqErrorV::SemUnavailable)), c),
        ExprV::And(cs) => {
            let (l, c1) = ev_list(cs, env, fs, rp, c);
            (after_list(l, |rs: Seq<Seq<Hit>>| spec_intersect(rs)), c1)
        },
        ExprV::Or(cs) => {
            let (l, c1) = ev_list(cs, env, fs, rp, c);
            (after_list(l, |rs: Seq<Seq<Hit>>| spec_union(rs)), c1)
        },
        ExprV::Mix(w, cs) => {
            let (l, c1) = ev_list(cs, env, fs, rp, c);
            match l {
                ListV::Done(Ok(rs)) => if c1.fusions < rp.fusions.len() {
                    (
                        StepV::Done(Ok(rp.fusions[c1.fusions as int])),
                        CurV { fusions: c1.fusions + 1, ..c1 },
                    )
                } else {
                    (StepV::Need(RequestV::Fuse(w, rs)), c1)
                },
                ListV::Done(Err(x)) => (StepV::Done(Err(x)), c1),
                ListV::Need(q) => (StepV::Need(q), c1),
            }
        },
        ExprV::Diff(a, b) => {
            let (sa, c1) = ev(*a, env, fs, rp, c);
            match sa {
                StepV::Done(Ok(ha)) => {
                    let (sb, c2) = ev(*b, env, fs, rp, c1);
                    match sb {
                        StepV::Done(Ok(hb)) => (StepV::Done(Ok(spec_difference(ha, hb))), c2),
                        other => (other, c2),
                    }
                },
                other => (other, c1),
            }
        },
        ExprV::Pipe(a, b) => {
            let (sa, c1) = ev(*a, env, fs, rp, c);
            match sa {
                StepV::Done(Ok(ha)) => ev(*b, env, Some(pipe_files(ha, fs)), rp, c1),
                other => (other, c1),
            }
        },
        ExprV::Top(n, child) => {
            let (s, c1) = ev(*child, env, fs, rp, c);
            match s {
                StepV::Done(Ok(h)) => if c1.counts < rp.counts.len() {
                    (
                        StepV::Done(Ok(spec_top_k(h, rp.counts[c1.counts as int] as nat))),
                        CurV { counts: c1.counts + 1, ..c1 },
                    )
                } else {
                    (StepV::Need(RequestV::Count(n)), c1)
                },
                other => (other, c1),
            }
        },
        ExprV::Threshold(n, child) => {
            let (s, c1) = ev(*child, env, fs, rp, c);
            match s {
                StepV::Done(Ok(h)) => if c1.values < rp.values.len() {
                    (
                        StepV::Done(Ok(spec_threshold(h, rp.values[c1.values as int]))),
                        CurV { values: c1.values + 1, ..c1 },
                    )
                } else {
                    (StepV::Need(RequestV::Value(n)), c1)
                },
                other => (other, c1),
            }
        },
        ExprV::Batch(_) => (StepV::Done(Err(SqErrorV::Other(nested_batch_msg()))), c),
        ExprV::Let(bs, body) => {
            let (b, c1) = ev_binds(bs, env, fs, rp, c);
            match b {
                BindV::Done(Ok(env1)) => ev(*body, env1, fs, rp, c1),
                BindV::Done(Err(x)) => (StepV::Done(Err(x)), c1),
                BindV::Need(q) => (StepV::Need(q), c1),
            }
        },
        ExprV::Var(name) => if env.contains_key(name) {
            (StepV::Done(Ok(env[name])), c)
        } else {
            (StepV::Done(Err(SqErrorV::UnboundVar(name))), c)
        },
    }
}

/// Evaluation of a list of expressions, left to right.
pub open spec fn ev_list(cs: Seq<ExprV>, env: Map<Seq<char>, Seq<Hit>>, fs: Option<Seq<Seq<char>>>, rp: RepliesV, c: CurV) -> (
    ListV,
    CurV,
)
    decreases cs,
{
    if cs.len() == 0 {
        (ListV::Done(Ok(seq![])), c)
    } else {
        let (l, c1) = ev_list(cs.subrange(0, cs.len() - 1), env, fs, rp, c);
        match l {
            ListV::Done(Ok(rs)) => {
                let (s, c2) = ev(cs[cs.len() - 1], env, fs, rp, c1);
                match s {
                    StepV::Done(Ok(h)) => (ListV::Done(Ok(rs.push(h))), c2),
                    StepV::Done(Err(x)) => (ListV::Done(Err(x)), c2),
                    StepV::Need(q) => (ListV::Need(q), c2),
                }
            },
            other => (other, c1),
        }
    }
}

/// Evaluation of `let` bindings in order, each seeing the ones before.
pub open spec fn ev_binds(
    bs: Seq<(Seq<char>, ExprV)>,
    env: Map<Seq<char>, Seq<Hit>>,
    fs: Option<Seq<Seq<char>>>,
    rp: RepliesV,
    c: CurV,
) -> (BindV, CurV)
    decreases bs,
{
    if bs.len() == 0 {
        (BindV::Done(Ok(env)), c)
    } else {
        let (b, c1) = ev_binds(bs.subrange(0, bs.len() - 1), env, fs, rp, c);
        match b {
            BindV::Done(Ok(env1)) => {
                let (s, c2) = ev(bs[bs.len() - 1].1, env1, fs, rp, c1);
                match s {
                    StepV::Done(Ok(h)) => (BindV::Done(Ok(env1.insert(bs[bs.len() - 1].0, h))), c2),
                    StepV::Done(Err(x)) => (BindV::Done(Err(x)), c2),
                    StepV::Need(q) => (BindV::Need(q), c2),
                }
            },
            other => (other, c1),
        }
    }
}

// ── Facts about the views ───────────────────────────────────────────

pub proof fn lemma_exprs_view(s: Seq<Expr>)
    ensures
        exprs_view(s).len() == s.len(),
        forall|i: int| 0 <= i < s.len() ==> #[trigger] exprs_view(s)[i] == expr_view(s[i]),
    decreases s.len(),
{
    if s.len() > 0 {
        lemma_exprs_view(s.drop_last());
    }
}

pub proof fn lemma_bindings_view(s: Seq<Binding>)
    ensures
        bindings_view(s).len() == s.len(),
        forall|i: int| 0 <= i < s.len() ==> #[trigger] bindings_view(s)[i] == (s[i].name@, expr_view(s[i].value)),
    decreases s.len(),
{
    if s.len() > 0 {
        lemma_bindings_view(s.drop_last());
    }
}

pub proof fn lemma_entries_view(s: Seq<BatchEntry>)
    ensures
        entries_view(s).len() == s.len(),
        forall|i: int| 0 <= i < s.len() ==> #[trigger] entries_view(s)[i] == (s[i].label@, expr_view(s[i].expr)),
    decreases s.len(),
{
    if s.len() > 0 {
        lemma_entries_view(s.drop_last());
    }
}

/// Once a prefix of a list fails or asks for work, so does the whole list.
pub proof fn lemma_list_stuck(cs: Seq<ExprV>, k: int, env: Map<Seq<char>, Seq<Hit>>, fs: Option<Seq<Seq<char>>>, rp: RepliesV, c: CurV)
    requires
        0 <= k <= cs.len(),
        !(ev_list(cs.take(k), env, fs, rp, c).0 matches ListV::Done(Ok(_))),
    ensures
        ev_list(cs, env, fs, rp, c) == ev_list(cs.take(k), env, fs, rp, c),
    decreases cs.len(),
{
    if k == cs.len() {
        assert(cs.take(k) =~= cs);
    } else {
        let d = cs.subrange(0, cs.len() - 1);
        assert(d.take(k) =~= cs.take(k));
        lemma_list_stuck(d, k, env, fs, rp, c);
    }
}

pub proof fn lemma_binds_stuck(
    bs: Seq<(Seq<char>, ExprV)>,
    k: int,
    env: Map<Seq<char>, Seq<Hit>>,
    fs: Option<Seq<Seq<char>>>,
    rp: RepliesV,
    c: CurV,
)
    requires
        0 <= k <= bs.len(),
        !(ev_binds(bs.take(k), env, fs, rp, c).0 matches BindV::Done(Ok(_))),
    ensures
        ev_binds(bs, env, fs, rp, c) == ev_binds(bs.take(k), env, fs, rp, c),
    decreases bs.len(),
{
    if k == bs.len() {
        assert(bs.take(k) =~= bs);
    } else {
        let d = bs.subrange(0, bs.len() - 1);
        assert(d.take(k) =~= bs.take(k));
        lemma_binds_stuck(d, k, env, fs, rp, c);
    }
}

// ── Evaluation ──────────────────────────────────────────────────────

/// A step of evaluating a list of expressions.
pub enum ListStep {
    Done(Result<Vec<ResultSet>, SqError>),
    Need(Request),
}

impl View for ListStep {
    type V = ListV;

    open spec fn view(&self) -> ListV {
        match self {
            ListStep::Done(Ok(v)) => ListV::Done(Ok(hits_of(v@))),
            ListStep::Done(Err(e)) => ListV::Done(Err(e@)),
            ListStep::Need(q) => ListV::Need(q@),
        }
    }
}

fn clone_number(n: &Number) -> (r: Number)
    ensures
        r.literal@ == n.literal@,
{
    Number { literal: n.literal.clone() }
}

fn clone_weights(w: &Weights) -> (r: Weights)
    ensures
        r@ == w@,
{
    match w {
        Weights::Equal => Weights::Equal,
        Weights::Explicit(ns) => {
            let mut out: Vec<Number> = Vec::new();
            for i in 0..ns.len()
                invariant
                    crate::types::numbers_view(out@) == crate::types::numbers_view(ns@.take(i as int)),
            {
                let ghost prev = out@;
                let x = clone_number(&ns[i]);
                out.push(x);
                proof {
                    assert(crate::types::numbers_view(out@) =~= crate::types::numbers_view(prev).push(
                        ns@[i as int].literal@,
                    ));
                    assert(crate::types::numbers_view(ns@.take(i + 1)) =~= crate::types::numbers_view(
                        ns@.take(i as int),
                    ).push(ns@[i as int].literal@));
                }
            }
            assert(ns@.take(ns@.len() as int) =~= ns@);
            Weights::Explicit(out)
        },
    }
}

fn clone_outcome(r: &Result<ResultSet, SqError>) -> (o: Result<ResultSet, SqError>)
    ensures
        outcome_view(o) == outcome_view(*r),
{
    match r {
        Ok(s) => Ok(clone_set(s)),
        Err(e) => Err(clone_error(e)),
    }
}


// ── Searches and file scopes ────────────────────────────────────────

fn strings_equal(a: &Vec<String>, b: &Vec<String>) -> (r: bool)
    ensures
        r == (strings_view(a@) == strings_view(b@)),
{
    if a.len() != b.len() {
        proof {
            assert(strings_view(a@).len() != strings_view(b@).len());
        }
        return false;
    }
    for i in 0..a.len()
        invariant
            a@.len() == b@.len(),
            forall|j: int| 0 <= j < i ==> a@[j]@ == b@[j]@,
    {
        if !crate::types::same_string(&a[i], &b[i]) {
            proof {
                assert(strings_view(a@)[i as int] != strings_view(b@)[i as int]);
            }
            return false;
        }
    }
    proof {
        assert(strings_view(a@) =~= strings_view(b@));
    }
    true
}

fn opt_string_equal(a: &Option<String>, b: &Option<String>) -> (r: bool)
    ensures
        r == (crate::types::opt_view(*a) == crate::types::opt_view(*b)),
{
    match (a, b) {
        (Some(x), Some(y)) => crate::types::same_string(x, y),
        (None, None) => true,
        _ => false,
    }
}

fn opts_equal(a: &SearchOpts, b: &SearchOpts) -> (r: bool)
    ensures
        r == (a@ == b@),
{
    opt_string_equal(&a.scope, &b.scope) && opt_string_equal(&a.lang, &b.lang) && strings_equal(
        &a.exclude,
        &b.exclude,
    ) && strings_equal(&a.includes, &b.includes)
}

fn files_equal(a: &Option<Vec<String>>, b: &Option<Vec<String>>) -> (r: bool)
    ensures
        r == (files_view(*a) == files_view(*b)),
{
    match (a, b) {
        (Some(x), Some(y)) => strings_equal(x, y),
        (None, None) => true,
        _ => false,
    }
}

pub open spec fn searches_view(v: Seq<(SearchKey, Result<ResultSet, SqError>)>) -> Seq<
    ((Seq<char>, OptsV, Option<Seq<Seq<char>>>), Result<Seq<Hit>, SqErrorV>),
> {
    v.map_values(|a: (SearchKey, Result<ResultSet, SqError>)| (a.0@, outcome_view(a.1)))
}

proof fn lemma_find_search_prefix(
    rs: Seq<((Seq<char>, OptsV, Option<Seq<Seq<char>>>), Result<Seq<Hit>, SqErrorV>)>,
    k: (Seq<char>, OptsV, Option<Seq<Seq<char>>>),
    j: int,
)
    requires
        0 <= j <= rs.len(),
        find_search(rs.take(j), k) is Some,
    ensures
        find_search(rs, k) == find_search(rs.take(j), k),
    decreases rs.len(),
{
    if j < rs.len() {
        assert(rs.drop_last().take(j) =~= rs.take(j));
        lemma_find_search_prefix(rs.drop_last(), k, j);
    } else {
        assert(rs.take(j) =~= rs);
    }
}

/// The answer given for a search, if any.
fn find_answer(rs: &Vec<(SearchKey, Result<ResultSet, SqError>)>, q: &String, o: &SearchOpts, f: &Option<
    Vec<String>,
>) -> (r: Option<Result<ResultSet, SqError>>)
    ensures
        match r {
            Some(x) => find_search(searches_view(rs@), (q@, o@, files_view(*f))) == Some(outcome_view(x)),
            None => find_search(searches_view(rs@), (q@, o@, files_view(*f))) is None,
        },
{
    let ghost v = searches_view(rs@);
    let ghost k = (q@, o@, files_view(*f));
    for i in 0..rs.len()
        invariant
            v == searches_view(rs@),
            k == (q@, o@, files_view(*f)),
            find_search(v.take(i as int), k) is None,
    {
        proof {
            assert(v.take(i + 1).drop_last() =~= v.take(i as int));
        }
        let e = &rs[i];
        if crate::types::same_string(&e.0.query, q) && opts_equal(&e.0.opts, o) && files_equal(&e.0.files, f) {
            proof {
                assert(v[i as int] == (e.0@, outcome_view(e.1)));
                lemma_find_search_prefix(v, k, i + 1);
            }
            return Some(clone_outcome(&e.1));
        }
        proof {
            assert(v[i as int].0 != k);
        }
    }
    assert(v.take(rs@.len() as int) =~= v);
    None
}

fn contains_string(v: &Vec<String>, s: &String) -> (r: bool)
    ensures
        r == strings_view(v@).contains(s@),
{
    for i in 0..v.len()
        invariant
            forall|j: int| 0 <= j < i ==> v@[j]@ != s@,
    {
        if crate::types::same_string(&v[i], s) {
            proof {
                assert(strings_view(v@)[i as int] == s@);
            }
            return true;
        }
    }
    proof {
        if strings_view(v@).contains(s@) {
            let j = choose|j: int| 0 <= j < strings_view(v@).len() && strings_view(v@)[j] == s@;
            assert(v@[j]@ == s@);
        }
    }
    false
}

fn push_string(v: &mut Vec<String>, s: String)
    ensures
        strings_view(final(v)@) == strings_view(old(v)@).push(s@),
{
    v.push(s);
    proof {
        assert(strings_view(v@) =~= strings_view(old(v)@).push(s@));
    }
}

/// The distinct paths of some hits, each once, in the order of first
/// appearance (the `files` output).
pub fn distinct_paths(hits: &Vec<Hit>) -> (r: Vec<String>)
    ensures
        strings_view(r@) == hit_files(hits@),
{
    let mut out: Vec<String> = Vec::new();
    assert(strings_view(out@) =~= seq![]);
    for i in 0..hits.len()
        invariant
            strings_view(out@) == hit_files(hits@.take(i as int)),
    {
        proof {
            assert(hits@.take(i + 1).drop_last() =~= hits@.take(i as int));
        }
        if !contains_string(&out, &hits[i].path) {
            push_string(&mut out, hits[i].path.clone());
        }
    }
    assert(hits@.take(hits@.len() as int) =~= hits@);
    out
}

/// The scope of a pipe's target.
fn pipe_scope(source: &ResultSet, files: &Option<Vec<String>>) -> (r: Vec<String>)
    ensures
        strings_view(r@) == pipe_files(source.hits@, files_view(*files)),
{
    let all = distinct_paths(&source.hits);
    match files {
        None => all,
        Some(f) => {
            let mut out: Vec<String> = Vec::new();
            let ghost a = strings_view(all@);
            assert(strings_view(out@) =~= seq![]);
            for i in 0..all.len()
                invariant
                    a == strings_view(all@),
                    strings_view(out@) == a.take(i as int).filter(member_of(strings_view(f@))),
            {
                proof {
                    reveal(Seq::filter);
                    assert(a.take(i + 1).drop_last() =~= a.take(i as int));
                    assert(a.take(i + 1).last() == all@[i as int]@);
                }
                if contains_string(f, &all[i]) {
                    push_string(&mut out, all[i].clone());
                }
            }
            assert(a.take(all@.len() as int) =~= a);
            out
        },
    }
}

/// The files a search looks at inside a pipe's target.
fn scope_search(files: &Option<Vec<String>>, o: &SearchOpts) -> (r: Option<Vec<String>>)
    ensures
        files_view(r) == scoped_files(files_view(*files), o@),
{
    match files {
        None => None,
        Some(f) => {
            let mut out: Vec<String> = Vec::new();
            let ghost a = strings_view(f@);
            assert(strings_view(out@) =~= seq![]);
            for i in 0..f.len()
                invariant
                    a == strings_view(f@),
                    strings_view(out@) == a.take(i as int).filter(kept_by(o@)),
            {
                proof {
                    reveal(Seq::filter);
                    assert(a.take(i + 1).drop_last() =~= a.take(i as int));
                    assert(a.take(i + 1).last() == f@[i as int]@);
                }
                if passes_opts(&f[i], o) {
                    push_string(&mut out, f[i].clone());
                }
            }
            assert(a.take(f@.len() as int) =~= a);
            Some(out)
        },
    }
}

fn eval_list(cs: &Vec<Expr>, env: &Env, files: &Option<Vec<String>>, rp: &Replies, cur: &mut Cursor) -> (r: ListStep)
    ensures
        (r@, final(cur)@) == ev_list(exprs_view(cs@), env@, files_view(*files), rp@, old(cur)@),
    decreases cs,
{
    let ghost vs = exprs_view(cs@);
    let ghost c0 = cur@;
    proof {
        lemma_exprs_view(cs@);
        assert(vs.take(0) =~= seq![]);
    }
    let mut rs: Vec<ResultSet> = Vec::new();
    assert(hits_of(rs@) =~= seq![]);
    let n = cs.len();
    for i in 0..n
        invariant
            n == cs@.len(),
            vs == exprs_view(cs@),
            vs.len() == n,
            c0 == old(cur)@,
            forall|j: int| 0 <= j < n ==> #[trigger] vs[j] == expr_view(cs@[j]),
            ev_list(vs.take(i as int), env@, files_view(*files), rp@, c0) == (ListV::Done(Ok(hits_of(rs@))), cur@),
    {
        proof {
            assert(vs.take(i + 1).subrange(0, i as int) =~= vs.take(i as int));
            assert(vs.take(i + 1)[i as int] == expr_view(cs@[i as int]));
            assert(decreases_to!(cs => cs@[i as int]));
        }
        let s = eval_expr(&cs[i], env, files, rp, cur);
        match s {
            Step::Done(Ok(h)) => {
                let ghost prev = rs@;
                rs.push(h);
                proof {
                    assert(hits_of(rs@) =~= hits_of(prev).push(h.hits@));
                }
            },
            Step::Done(Err(e)) => {
                proof {
                    lemma_list_stuck(vs, i + 1, env@, files_view(*files), rp@, c0);
                }
                return ListStep::Done(Err(e));
            },
            Step::Need(q) => {
                proof {
                    lemma_list_stuck(vs, i + 1, env@, files_view(*files), rp@, c0);
                }
                return ListStep::Need(q);
            },
        }
    }
    assert(vs.take(n as int) =~= vs);
    ListStep::Done(Ok(rs))
}

/// A step of evaluating `let` bindings.
pub enum BindStep {
    Done(Result<Env, SqError>),
    Need(Request),
}

impl View for BindStep {
    type V = BindV;

    open spec fn view(&self) -> BindV {
        match self {
            BindStep::Done(Ok(e)) => BindV::Done(Ok(e@)),
            BindStep::Done(Err(e)) => BindV::Done(Err(e@)),
            BindStep::Need(q) => BindV::Need(q@),
        }
    }
}

fn eval_binds(bs: &Vec<Binding>, env: &Env, files: &Option<Vec<String>>, rp: &Replies, cur: &mut Cursor) -> (r: BindStep)
    ensures
        (r@, final(cur)@) == ev_binds(bindings_view(bs@), env@, files_view(*files), rp@, old(cur)@),
    decreases bs,
{
    let ghost c0 = cur@;
    let ghost bvs = bindings_view(bs@);
    proof {
        lemma_bindings_view(bs@);
        assert(bvs.take(0) =~= seq![]);
    }
    let mut inner = env.clone_env();
    let n = bs.len();
    for i in 0..n
        invariant
            n == bs@.len(),
            bvs == bindings_view(bs@),
            bvs.len() == n,
            c0 == old(cur)@,
            forall|j: int| 0 <= j < n ==> #[trigger] bvs[j] == (bs@[j].name@, expr_view(bs@[j].value)),
            ev_binds(bvs.take(i as int), env@, files_view(*files), rp@, c0) == (BindV::Done(Ok(inner@)), cur@),
    {
        proof {
            assert(bvs.take(i + 1).subrange(0, i as int) =~= bvs.take(i as int));
            assert(bvs.take(i + 1)[i as int] == bvs[i as int]);
            assert(decreases_to!(bs => bs@[i as int].value));
        }
        let b = &bs[i];
        match eval_expr(&b.value, &inner, files, rp, cur) {
            Step::Done(Ok(v)) => {
                inner.insert(b.name.clone(), v);
            },
            Step::Done(Err(e)) => {
                proof {
                    lemma_binds_stuck(bvs, i + 1, env@, files_view(*files), rp@, c0);
                }
                return BindStep::Done(Err(e));
            },
            Step::Need(q) => {
                proof {
                    lemma_binds_stuck(bvs, i + 1, env@, files_view(*files), rp@, c0);
                }
                return BindStep::Need(q);
            },
        }
    }
    proof {
        assert(bvs.take(n as int) =~= bvs);
    }
    BindStep::Done(Ok(inner))
}

#[verifier::rlimit(60)]
fn eval_expr(expr: &Expr, env: &Env, files: &Option<Vec<String>>, rp: &Replies, cur: &mut Cursor) -> (r: Step)
    ensures
        (r@, final(cur)@) == ev(expr@, env@, files_view(*files), rp@, old(cur)@),
    decreases expr,
{
    match expr {
        Expr::Rg(q, o) => {
            let scope = scope_search(files, o);
            let none_left = match &scope {
                Some(l) => l.len() == 0,
                None => false,
            };
            if none_left {
                let r = ResultSet::empty();
                proof {
                    assert(r.hits@ =~= seq![]);
                }
                return Step::Done(Ok(r));
            }
            proof {
                if scope is Some {
                    assert(strings_view(scope->0@).len() == scope->0@.len());
                }
            }
            match find_answer(&rp.searches, q, o, &scope) {
                Some(r) => Step::Done(r),
                None => Step::Need(Request::Search(SearchKey { query: q.clone(), opts: clone_opts(o), files: scope })),
            }
        },
        Expr::Lex(_, _) => Step::Done(Err(SqError::LexUnavailable)),
        Expr::Sem(_, _) => Step::Done(Err(SqError::SemUnavailable)),
        Expr::And(cs) => match eval_list(cs, env, files, rp, cur) {
            ListStep::Done(Ok(rs)) => Step::Done(Ok(intersect(&rs))),
            ListStep::Done(Err(e)) => Step::Done(Err(e)),
            ListStep::Need(q) => Step::Need(q),
        },
        Expr::Or(cs) => match eval_list(cs, env, files, rp, cur) {
            ListStep::Done(Ok(rs)) => Step::Done(Ok(union(&rs))),
            ListStep::Done(Err(e)) => Step::Done(Err(e)),
            ListStep::Need(q) => Step::Need(q),
        },
        Expr::Mix(w, cs) => match eval_list(cs, env, files, rp, cur) {
            ListStep::Done(Ok(rs)) => {
                if cur.fusions < rp.fusions.len() {
                    let r = clone_set(&rp.fusions[cur.fusions]);
                    cur.fusions = cur.fusions + 1;
                    Step::Done(Ok(r))
                } else {
                    Step::Need(Request::Fuse(clone_weights(w), rs))
                }
            },
            ListStep::Done(Err(e)) => Step::Done(Err(e)),
            ListStep::Need(q) => Step::Need(q),
        },
        Expr::Diff(a, b) => match eval_expr(a, env, files, rp, cur) {
            Step::Done(Ok(ha)) => match eval_expr(b, env, files, rp, cur) {
                Step::Done(Ok(hb)) => Step::Done(Ok(difference(&ha, &hb))),
                other => other,
            },
            other => other,
        },
        Expr::Pipe(a, b) => match eval_expr(a, env, files, rp, cur) {
            Step::Done(Ok(ha)) => eval_expr(b, env, &Some(pipe_scope(&ha, files)), rp, cur),
            other => other,
        },
        Expr::Top(n, child) => match eval_expr(child, env, files, rp, cur) {
            Step::Done(Ok(h)) => {
                if cur.counts < rp.counts.len() {
                    let k = rp.counts[cur.counts];
                    cur.counts = cur.counts + 1;
                    Step::Done(Ok(top_k(&h, k)))
                } else {
                    Step::Need(Request::Count(clone_number(n)))
                }
            },
            other => other,
        },
        Expr::Threshold(n, child) => match eval_expr(child, env, files, rp, cur) {
            Step::Done(Ok(h)) => {
                if cur.values < rp.values.len() {
                    let t = rp.values[cur.values];
                    cur.values = cur.values + 1;
                    Step::Done(Ok(threshold(&h, t)))
                } else {
                    Step::Need(Request::Value(clone_number(n)))
                }
            },
            other => other,
        },
        Expr::Batch(_) => Step::Done(
            Err(SqError::Other(crate::text::owned("batch is only allowed as the whole query or the body of let"))),
        ),
        Expr::Let(bs, body) => match eval_binds(bs, env, files, rp, cur) {
            BindStep::Done(Ok(inner)) => eval_expr(body, &inner, files, rp, cur),
            BindStep::Done(Err(e)) => Step::Done(Err(e)),
            BindStep::Need(q) => Step::Need(q),
        },
        Expr::Var(name) => match env.get(name.as_str()) {
            Some(v) => Step::Done(Ok(v)),
            None => Step::Done(Err(SqError::UnboundVar(name.clone()))),
        },
    }
}

/// Evaluates an expression in a context, given the answers to the outside
/// work so far: the result, or the next piece of outside work needed.
pub fn eval(expr: &Expr, ctx: &Ctx, replies: &Replies) -> (r: Step)
    ensures
        r@ == ev(expr@, ctx.env@, None, replies@, cur_zero()).0,
{
    let mut cur = Cursor { counts: 0, values: 0, fusions: 0 };
    eval_expr(expr, &ctx.env, &None, replies, &mut cur)
}

// ── Whole queries: single results and batches ───────────────────────

pub enum EvalResultV {
    Single(Seq<Hit>),
    Batch(Seq<(Seq<char>, Seq<Hit>)>),
}

pub open spec fn labeled_view(v: Seq<LabeledResult>) -> Seq<(Seq<char>, Seq<Hit>)> {
    v.map_values(|l: LabeledResult| (l.label@, l.result.hits@))
}

impl View for EvalResult {
    type V = EvalResultV;

    open spec fn view(&self) -> EvalResultV {
        match self {
            EvalResult::Single(s) => EvalResultV::Single(s.hits@),
            EvalResult::Batch(v) => EvalResultV::Batch(labeled_view(v@)),
        }
    }
}

pub enum ProgramV {
    Done(Result<EvalResultV, SqErrorV>),
    Need(RequestV),
}

/// A step of evaluating a whole query.
pub enum ProgramStep {
    Done(Result<EvalResult, SqError>),
    Need(Request),
}

impl View for ProgramStep {
    type V = ProgramV;

    open spec fn view(&self) -> ProgramV {
        match self {
            ProgramStep::Done(Ok(r)) => ProgramV::Done(Ok(r@)),
            ProgramStep::Done(Err(e)) => ProgramV::Done(Err(e@)),
            ProgramStep::Need(q) => ProgramV::Need(q@),
        }
    }
}

/// The entries of a batch evaluated in order, each with its label.
pub open spec fn ev_entries(
    es: Seq<(Seq<char>, ExprV)>,
    env: Map<Seq<char>, Seq<Hit>>,
    rp: RepliesV,
    c: CurV,
) -> (ProgramV, CurV)
    decreases es.len(),
{
    if es.len() == 0 {
        (ProgramV::Done(Ok(EvalResultV::Batch(seq![]))), c)
    } else {
        let (p, c1) = ev_entries(es.drop_last(), env, rp, c);
        match p {
            ProgramV::Done(Ok(EvalResultV::Batch(done))) => {
                let (s, c2) = ev(es.last().1, env, None, rp, c1);
                match s {
                    StepV::Done(Ok(h)) => (
                        ProgramV::Done(Ok(EvalResultV::Batch(done.push((es.last().0, h))))),
                        c2,
                    ),
                    StepV::Done(Err(x)) => (ProgramV::Done(Err(x)), c2),
                    StepV::Need(q) => (ProgramV::Need(q), c2),
                }
            },
            other => (other, c1),
        }
    }
}

/// Evaluation of a whole query: a batch (possibly under `let` bindings)
/// gives labeled sections, any other expression one result set.
pub open spec fn ev_program(e: ExprV, env: Map<Seq<char>, Seq<Hit>>, rp: RepliesV, c: CurV) -> (
    ProgramV,
    CurV,
)
    decreases e,
{
    match e {
        ExprV::Batch(es) => ev_entries(es, env, rp, c),
        ExprV::Let(bs, body) => {
            let (b, c1) = ev_binds(bs, env, None, rp, c);
            match b {
                BindV::Done(Ok(env1)) => ev_program(*body, env1, rp, c1),
                BindV::Done(Err(x)) => (ProgramV::Done(Err(x)), c1),
                BindV::Need(q) => (ProgramV::Need(q), c1),
            }
        },
        _ => {
            let (s, c1) = ev(e, env, None, rp, c);
            match s {
                StepV::Done(Ok(h)) => (ProgramV::Done(Ok(EvalResultV::Single(h))), c1),
                StepV::Done(Err(x)) => (ProgramV::Done(Err(x)), c1),
                StepV::Need(q) => (ProgramV::Need(q), c1),
            }
        },
    }
}

pub proof fn lemma_entries_stuck(
    es: Seq<(Seq<char>, ExprV)>,
    k: int,
    env: Map<Seq<char>, Seq<Hit>>,
    rp: RepliesV,
    c: CurV,
)
    requires
        0 <= k <= es.len(),
        !(ev_entries(es.take(k), env, rp, c).0 matches ProgramV::Done(Ok(EvalResultV::Batch(_)))),
    ensures
        ev_entries(es, env, rp, c) == ev_entries(es.take(k), env, rp, c),
    decreases es.len(),
{
    if k == es.len() {
        assert(es.take(k) =~= es);
    } else {
        let d = es.drop_last();
        assert(d.take(k) =~= es.take(k));
        lemma_entries_stuck(d, k, env, rp, c);
    }
}

fn eval_entries(es: &Vec<BatchEntry>, env: &Env, rp: &Replies, cur: &mut Cursor) -> (r: ProgramStep)
    ensures
        (r@, final(cur)@) == ev_entries(entries_view(es@), env@, rp@, old(cur)@),
{
    let ghost c0 = cur@;
    let ghost evs = entries_view(es@);
    proof {
        lemma_entries_view(es@);
        assert(evs.take(0) =~= seq![]);
    }
    let mut out: Vec<LabeledResult> = Vec::new();
    assert(labeled_view(out@) =~= seq![]);
    let n = es.len();
    for i in 0..n
        invariant
            n == es@.len(),
            evs == entries_view(es@),
            evs.len() == n,
            c0 == old(cur)@,
            forall|j: int| 0 <= j < n ==> #[trigger] evs[j] == (es@[j].label@, expr_view(es@[j].expr)),
            ev_entries(evs.take(i as int), env@, rp@, c0) == (
                ProgramV::Done(Ok(EvalResultV::Batch(labeled_view(out@)))),
                cur@,
            ),
    {
        proof {
            assert(evs.take(i + 1).drop_last() =~= evs.take(i as int));
            assert(evs.take(i + 1).last() == evs[i as int]);
        }
        let e = &es[i];
        match eval_expr(&e.expr, env, &None, rp, cur) {
            Step::Done(Ok(h)) => {
                let ghost prev = out@;
                out.push(LabeledResult { label: e.label.clone(), result: h });
                proof {
                    assert(labeled_view(out@) =~= labeled_view(prev).push((e.label@, h.hits@)));
                }
            },
            Step::Done(Err(x)) => {
                proof {
                    lemma_entries_stuck(evs, i + 1, env@, rp@, c0);
                }
                return ProgramStep::Done(Err(x));
            },
            Step::Need(q) => {
                proof {
                    lemma_entries_stuck(evs, i + 1, env@, rp@, c0);
                }
                return ProgramStep::Need(q);
            },
        }
    }
    assert(evs.take(n as int) =~= evs);
    ProgramStep::Done(Ok(EvalResult::Batch(out)))
}

fn eval_program(expr: &Expr, env: &Env, rp: &Replies, cur: &mut Cursor) -> (r: ProgramStep)
    ensures
        (r@, final(cur)@) == ev_program(expr@, env@, rp@, old(cur)@),
    decreases expr,
{
    match expr {
        Expr::Batch(es) => eval_entries(es, env, rp, cur),
        Expr::Let(bs, body) => match eval_binds(bs, env, &None, rp, cur) {
            BindStep::Done(Ok(inner)) => eval_program(body, &inner, rp, cur),
            BindStep::Done(Err(x)) => ProgramStep::Done(Err(x)),
            BindStep::Need(q) => ProgramStep::Need(q),
        },
        _ => match eval_expr(expr, env, &None, rp, cur) {
            Step::Done(Ok(h)) => ProgramStep::Done(Ok(EvalResult::Single(h))),
            Step::Done(Err(x)) => ProgramStep::Done(Err(x)),
            Step::Need(q) => ProgramStep::Need(q),
        },
    }
}

/// Evaluates a whole query, given the answers to the outside work so far:
/// a batch (also as the body of `let`) gives one labeled section per
/// entry, any other expression one result set.
pub fn evaluate(expr: &Expr, ctx: &Ctx, replies: &Replies) -> (r: ProgramStep)
    ensures
        r@ == ev_program(expr@, ctx.env@, replies@, cur_zero()).0,
{
    let mut cur = Cursor { counts: 0, values: 0, fusions: 0 };
    eval_program(expr, &ctx.env, replies, &mut cur)
}

/// The output format an expression asks for. No form of the language
/// chooses one, so it is always the default; the command line picks the
/// others.
pub fn output_format(expr: &Expr) -> (r: OutputFormat)
    ensures
        r == OutputFormat::Default,
{
    OutputFormat::Default
}

// ── Laws of evaluation ──────────────────────────────────────────────

/// `(let [x e] x)` evaluates exactly like `e`: the same result or error,
/// the same outside work asked for and used.
pub proof fn law_let_of_var_is_bound_expr(
    x: Seq<char>,
    e: ExprV,
    env: Map<Seq<char>, Seq<Hit>>,
    fs: Option<Seq<Seq<char>>>,
    rp: RepliesV,
    c: CurV,
)
    ensures
        ev(ExprV::Let(seq![(x, e)], Box::new(ExprV::Var(x))), env, fs, rp, c) == ev(e, env, fs, rp, c),
{
    let bs = seq![(x, e)];
    assert(bs.len() == 1 && bs[0] == (x, e));
    assert(bs.subrange(0, 0) =~= Seq::<(Seq<char>, ExprV)>::empty());
    assert(ev_binds(bs.subrange(0, 0), env, fs, rp, c) == (BindV::Done(Ok(env)), c));
    let (s, c1) = ev(e, env, fs, rp, c);
    match s {
        StepV::Done(Ok(h)) => {
            assert(ev_binds(bs, env, fs, rp, c) == (BindV::Done(Ok(env.insert(x, h))), c1));
            assert(env.insert(x, h).contains_key(x) && env.insert(x, h)[x] == h);
            assert(ev(ExprV::Var(x), env.insert(x, h), fs, rp, c1) == (StepV::Done(Ok(h)), c1));
        },
        StepV::Done(Err(y)) => {
            assert(ev_binds(bs, env, fs, rp, c) == (BindV::Done(Err(y)), c1));
        },
        StepV::Need(q) => {
            assert(ev_binds(bs, env, fs, rp, c) == (BindV::Need(q), c1));
        },
    }
}

/// A bound name is evaluated once: its uses read the bound result and
/// ask for no outside work, wherever they occur.
pub proof fn law_bound_name_reused_without_work(
    x: Seq<char>,
    e: ExprV,
    h: Seq<Hit>,
    env: Map<Seq<char>, Seq<Hit>>,
    fs: Option<Seq<Seq<char>>>,
    rp: RepliesV,
    c: CurV,
    c1: CurV,
    later: CurV,
)
    requires
        ev(e, env, fs, rp, c) == (StepV::Done(Ok(h)), c1),
    ensures
        ev_binds(seq![(x, e)], env, fs, rp, c) == (BindV::Done(Ok(env.insert(x, h))), c1),
        ev(ExprV::Var(x), env.insert(x, h), fs, rp, later) == (StepV::Done(Ok(h)), later),
{
    let bs = seq![(x, e)];
    assert(bs.len() == 1 && bs[0] == (x, e));
    assert(bs.subrange(0, 0) =~= Seq::<(Seq<char>, ExprV)>::empty());
    assert(ev_binds(bs.subrange(0, 0), env, fs, rp, c) == (BindV::Done(Ok(env)), c));
}

/// Children evaluated one after another, each from where the one before
/// stopped, all with results: the list has those results.
proof fn lemma_list_chain(
    cs: Seq<ExprV>,
    env: Map<Seq<char>, Seq<Hit>>,
    fs: Option<Seq<Seq<char>>>,
    rp: RepliesV,
    cur: Seq<CurV>,
    rs: Seq<Seq<Hit>>,
    k: int,
)
    requires
        0 <= k <= cs.len(),
        cur.len() == cs.len() + 1,
        rs.len() == cs.len(),
        forall|i: int| 0 <= i < k ==> #[trigger] ev(cs[i], env, fs, rp, cur[i]) == (StepV::Done(Ok(rs[i])), cur[i + 1]),
    ensures
        ev_list(cs.take(k), env, fs, rp, cur[0]) == (ListV::Done(Ok(rs.take(k))), cur[k]),
    decreases k,
{
    if k > 0 {
        lemma_list_chain(cs, env, fs, rp, cur, rs, k - 1);
        assert(cs.take(k).subrange(0, k - 1) =~= cs.take(k - 1));
        assert(cs.take(k)[k - 1] == cs[k - 1]);
        assert(ev(cs[k - 1], env, fs, rp, cur[k - 1]) == (StepV::Done(Ok(rs[k - 1])), cur[k]));
        assert(rs.take(k - 1).push(rs[k - 1]) =~= rs.take(k));
    } else {
        assert(cs.take(0) =~= seq![]);
        assert(rs.take(0) =~= seq![]);
    }
}

/// `&`, `|` and `mix` over children that each give a result (evaluated
/// left to right, each from where the one before stopped): the
/// intersection and the union of those results, and for `mix` the fusion
/// of exactly those results with its weights, asked for once and then
/// taken from the answer.
pub proof fn law_and_or_mix_over_children(
    cs: Seq<ExprV>,
    w: WeightsV,
    env: Map<Seq<char>, Seq<Hit>>,
    fs: Option<Seq<Seq<char>>>,
    rp: RepliesV,
    cur: Seq<CurV>,
    rs: Seq<Seq<Hit>>,
)
    requires
        cur.len() == cs.len() + 1,
        rs.len() == cs.len(),
        forall|i: int| 0 <= i < cs.len() ==> #[trigger] ev(cs[i], env, fs, rp, cur[i]) == (StepV::Done(Ok(rs[i])), cur[i + 1]),
    ensures
        ev(ExprV::And(cs), env, fs, rp, cur[0]) == (StepV::Done(Ok(spec_intersect(rs))), cur[cs.len() as int]),
        ev(ExprV::Or(cs), env, fs, rp, cur[0]) == (StepV::Done(Ok(spec_union(rs))), cur[cs.len() as int]),
        ({
            let cn = cur[cs.len() as int];
            ev(ExprV::Mix(w, cs), env, fs, rp, cur[0]) == if cn.fusions < rp.fusions.len() {
                (StepV::Done(Ok(rp.fusions[cn.fusions as int])), CurV { fusions: cn.fusions + 1, ..cn })
            } else {
                (StepV::Need(RequestV::Fuse(w, rs)), cn)
            }
        }),
{
    lemma_list_chain(cs, env, fs, rp, cur, rs, cs.len() as int);
    assert(cs.take(cs.len() as int) =~= cs);
    assert(rs.take(cs.len() as int) =~= rs);
}

/// When the children before the `k`-th give results and the `k`-th fails,
/// `&`, `|` and `mix` fail with that child's error: the first error is
/// passed on and the children after it are not evaluated.
pub proof fn law_first_child_error_passed_on(
    cs: Seq<ExprV>,
    w: WeightsV,
    env: Map<Seq<char>, Seq<Hit>>,
    fs: Option<Seq<Seq<char>>>,
    rp: RepliesV,
    cur: Seq<CurV>,
    rs: Seq<Seq<Hit>>,
    k: int,
    x: SqErrorV,
    c2: CurV,
)
    requires
        0 <= k < cs.len(),
        cur.len() == cs.len() + 1,
        rs.len() == cs.len(),
        forall|i: int| 0 <= i < k ==> #[trigger] ev(cs[i], env, fs, rp, cur[i]) == (StepV::Done(Ok(rs[i])), cur[i + 1]),
        ev(cs[k], env, fs, rp, cur[k]) == (StepV::Done(Err::<Seq<Hit>, SqErrorV>(x)), c2),
    ensures
        ev(ExprV::And(cs), env, fs, rp, cur[0]) == (StepV::Done(Err::<Seq<Hit>, SqErrorV>(x)), c2),
        ev(ExprV::Or(cs), env, fs, rp, cur[0]) == (StepV::Done(Err::<Seq<Hit>, SqErrorV>(x)), c2),
        ev(ExprV::Mix(w, cs), env, fs, rp, cur[0]) == (StepV::Done(Err::<Seq<Hit>, SqErrorV>(x)), c2),
{
    lemma_list_chain(cs, env, fs, rp, cur, rs, k);
    assert(cs.take(k + 1).subrange(0, k) =~= cs.take(k));
    assert(cs.take(k + 1)[k] == cs[k]);
    assert(ev_list(cs.take(k + 1), env, fs, rp, cur[0]) == (ListV::Done(Err::<Seq<Seq<Hit>>, SqErrorV>(x)), c2));
    lemma_list_stuck(cs, k + 1, env, fs, rp, cur[0]);
}

/// `-`, `top` and `>` over children that give results: the difference of
/// the two results (the second evaluated from where the first stopped),
/// the first `n` hits, and the hits scoring at least `t`, where `n` and
/// `t` are the answers for the numeric literal; an error of a child is
/// passed on, the first child's before the second is evaluated.
pub proof fn law_diff_top_threshold_over_children(
    a: ExprV,
    b: ExprV,
    n: Seq<char>,
    env: Map<Seq<char>, Seq<Hit>>,
    fs: Option<Seq<Seq<char>>>,
    rp: RepliesV,
    c: CurV,
)
    ensures
        ev(a, env, fs, rp, c).0 matches StepV::Done(Err(x)) ==> ev(
            ExprV::Diff(Box::new(a), Box::new(b)),
            env,
            fs,
            rp,
            c,
        ) == ev(a, env, fs, rp, c),
        ev(a, env, fs, rp, c).0 matches StepV::Done(Ok(ha)) ==> {
            let c1 = ev(a, env, fs, rp, c).1;
            let (sb, c2) = ev(b, env, fs, rp, c1);
            &&& (sb matches StepV::Done(Ok(hb)) ==> ev(ExprV::Diff(Box::new(a), Box::new(b)), env, fs, rp, c)
                == (StepV::Done(Ok(spec_difference(ha, hb))), c2))
            &&& (sb matches StepV::Done(Err(x)) ==> ev(ExprV::Diff(Box::new(a), Box::new(b)), env, fs, rp, c)
                == (sb, c2))
        },
        ev(a, env, fs, rp, c).0 matches StepV::Done(Ok(h)) ==> {
            let c1 = ev(a, env, fs, rp, c).1;
            &&& (c1.counts < rp.counts.len() ==> ev(ExprV::Top(n, Box::new(a)), env, fs, rp, c) == (
                StepV::Done(Ok(spec_top_k(h, rp.counts[c1.counts as int] as nat))),
                CurV { counts: c1.counts + 1, ..c1 },
            ))
            &&& (c1.values < rp.values.len() ==> ev(ExprV::Threshold(n, Box::new(a)), env, fs, rp, c) == (
                StepV::Done(Ok(spec_threshold(h, rp.values[c1.values as int]))),
                CurV { values: c1.values + 1, ..c1 },
            ))
        },
        ev(a, env, fs, rp, c).0 matches StepV::Done(Err(x)) ==> {
            &&& ev(ExprV::Top(n, Box::new(a)), env, fs, rp, c) == ev(a, env, fs, rp, c)
            &&& ev(ExprV::Threshold(n, Box::new(a)), env, fs, rp, c) == ev(a, env, fs, rp, c)
        },
{
}

/// Bindings are sequential: a binding sees the ones before it. When `e`
/// gives `h`, in `(let [a e b a] ...)` both `a` and `b` are bound to `h`,
/// whatever the outer bindings hold, and the body `b` gives `h`.
pub proof fn law_binding_sees_earlier_bindings(
    a: Seq<char>,
    b: Seq<char>,
    e: ExprV,
    h: Seq<Hit>,
    env: Map<Seq<char>, Seq<Hit>>,
    fs: Option<Seq<Seq<char>>>,
    rp: RepliesV,
    c: CurV,
    c1: CurV,
)
    requires
        ev(e, env, fs, rp, c) == (StepV::Done(Ok(h)), c1),
    ensures
        ev_binds(seq![(a, e), (b, ExprV::Var(a))], env, fs, rp, c) == (
            BindV::Done(Ok(env.insert(a, h).insert(b, h))),
            c1,
        ),
        ev(
            ExprV::Let(seq![(a, e), (b, ExprV::Var(a))], Box::new(ExprV::Var(b))),
            env,
            fs,
            rp,
            c,
        ) == (StepV::Done(Ok(h)), c1),
{
    let bs = seq![(a, e), (b, ExprV::Var(a))];
    let b1 = bs.subrange(0, 1);
    assert(b1 =~= seq![(a, e)]);
    assert(b1.subrange(0, 0) =~= Seq::<(Seq<char>, ExprV)>::empty());
    assert(ev_binds(b1.subrange(0, 0), env, fs, rp, c) == (BindV::Done(Ok(env)), c));
    assert(ev_binds(b1, env, fs, rp, c) == (BindV::Done(Ok(env.insert(a, h))), c1));
    assert(env.insert(a, h).contains_key(a) && env.insert(a, h)[a] == h);
    assert(ev(ExprV::Var(a), env.insert(a, h), fs, rp, c1) == (StepV::Done(Ok(h)), c1));
    assert(ev_binds(bs, env, fs, rp, c) == (BindV::Done(Ok(env.insert(a, h).insert(b, h))), c1));
    let env2 = env.insert(a, h).insert(b, h);
    assert(env2.contains_key(b) && env2[b] == h);
    assert(ev(ExprV::Var(b), env2, fs, rp, c1) == (StepV::Done(Ok(h)), c1));
}

// ── The searches an evaluation makes ────────────────────────────────

/// The ripgrep searches of an expression that are not inside the target
/// of a `pipe`, left to right. They depend on no result, so they can be
/// run before evaluation; a pipe's target is searched only once its
/// source is done, within the source's files.
pub open spec fn plan(e: ExprV) -> Seq<(Seq<char>, OptsV)>
    decreases e,
{
    match e {
        ExprV::Rg(q, o) => seq![(q, o)],
        ExprV::And(cs) => plan_list(cs),
        ExprV::Or(cs) => plan_list(cs),
        ExprV::Mix(_, cs) => plan_list(cs),
        ExprV::Diff(a, b) => plan(*a) + plan(*b),
        ExprV::Pipe(a, _) => plan(*a),
        ExprV::Top(_, c) => plan(*c),
        ExprV::Threshold(_, c) => plan(*c),
        ExprV::Let(bs, body) => plan_binds(bs) + plan(*body),
        _ => seq![],
    }
}

pub open spec fn plan_list(cs: Seq<ExprV>) -> Seq<(Seq<char>, OptsV)>
    decreases cs,
{
    if cs.len() == 0 {
        seq![]
    } else {
        plan_list(cs.subrange(0, cs.len() - 1)) + plan(cs[cs.len() - 1])
    }
}

pub open spec fn plan_binds(bs: Seq<(Seq<char>, ExprV)>) -> Seq<(Seq<char>, OptsV)>
    decreases bs,
{
    if bs.len() == 0 {
        seq![]
    } else {
        plan_binds(bs.subrange(0, bs.len() - 1)) + plan(bs[bs.len() - 1].1)
    }
}

pub open spec fn plan_entries(es: Seq<(Seq<char>, ExprV)>) -> Seq<(Seq<char>, OptsV)>
    decreases es.len(),
{
    if es.len() == 0 {
        seq![]
    } else {
        plan_entries(es.drop_last()) + plan(es.last().1)
    }
}

/// The ripgrep searches of a whole query outside pipe targets, left to
/// right.
pub open spec fn plan_program(e: ExprV) -> Seq<(Seq<char>, OptsV)>
    decreases e,
{
    match e {
        ExprV::Batch(es) => plan_entries(es),
        ExprV::Let(bs, body) => plan_binds(bs) + plan_program(*body),
        _ => plan(e),
    }
}

/// A search asked for is one with no answer yet; without a file scope it
/// is one of the searches `p`; a scoped one has its files inside `fs`
/// when there is a scope.
pub open spec fn fair_search(k: (Seq<char>, OptsV, Option<Seq<Seq<char>>>), fs: Option<Seq<Seq<char>>>, rp: RepliesV, p: Seq<(Seq<char>, OptsV)>) -> bool {
    &&& find_search(rp.searches, k) is None
    &&& (k.2 is None ==> fs is None && p.contains((k.0, k.1)))
    &&& (fs matches Some(f) ==> (k.2 matches Some(g) && forall|x: Seq<char>| #[trigger] g.contains(x) ==> f.contains(x)))
    &&& (k.2 matches Some(g) ==> g.len() > 0 && forall|x: Seq<char>| #[trigger] g.contains(x) ==> keep_path(k.1, x))
}

pub open spec fn step_search(s: StepV) -> Option<(Seq<char>, OptsV, Option<Seq<Seq<char>>>)> {
    match s {
        StepV::Need(RequestV::Search(k)) => Some(k),
        _ => None,
    }
}

pub open spec fn list_search(s: ListV) -> Option<(Seq<char>, OptsV, Option<Seq<Seq<char>>>)> {
    match s {
        ListV::Need(RequestV::Search(k)) => Some(k),
        _ => None,
    }
}

pub open spec fn bind_search(s: BindV) -> Option<(Seq<char>, OptsV, Option<Seq<Seq<char>>>)> {
    match s {
        BindV::Need(RequestV::Search(k)) => Some(k),
        _ => None,
    }
}

pub open spec fn program_search(s: ProgramV) -> Option<(Seq<char>, OptsV, Option<Seq<Seq<char>>>)> {
    match s {
        ProgramV::Need(RequestV::Search(k)) => Some(k),
        _ => None,
    }
}

proof fn lemma_contains_concat(a: Seq<(Seq<char>, OptsV)>, b: Seq<(Seq<char>, OptsV)>, x: (Seq<char>, OptsV))
    ensures
        a.contains(x) ==> (a + b).contains(x),
        b.contains(x) ==> (a + b).contains(x),
{
    if a.contains(x) {
        let i = choose|i: int| 0 <= i < a.len() && a[i] == x;
        assert((a + b)[i] == x);
    }
    if b.contains(x) {
        let i = choose|i: int| 0 <= i < b.len() && b[i] == x;
        assert((a + b)[a.len() + i] == x);
    }
}

/// Every file of a filtered list is one of the list.
proof fn lemma_filter_within(f: Seq<Seq<char>>, p: spec_fn(Seq<char>) -> bool)
    ensures
        forall|x: Seq<char>| #[trigger] f.filter(p).contains(x) ==> f.contains(x),
{
    assert forall|x: Seq<char>| #[trigger] f.filter(p).contains(x) implies f.contains(x) by {
        f.lemma_filter_contains_rev(p, x);
    }
}

/// Every file of a list narrowed by a search's filters passes them.
proof fn lemma_filter_kept(f: Seq<Seq<char>>, o: OptsV)
    ensures
        forall|x: Seq<char>| #[trigger] f.filter(kept_by(o)).contains(x) ==> keep_path(o, x),
{
    broadcast use vstd::seq_lib::group_filter_ensures;
    assert forall|x: Seq<char>| #[trigger] f.filter(kept_by(o)).contains(x) implies keep_path(o, x) by {
        let g = f.filter(kept_by(o));
        let i = choose|i: int| 0 <= i < g.len() && g[i] == x;
        assert(kept_by(o)(g[i]));
    }
}

/// The files of some hits are the paths of those hits.
pub proof fn lemma_hit_files(hs: Seq<Hit>)
    ensures
        forall|x: Seq<char>| #[trigger] hit_files(hs).contains(x) <==> has_path(hs, x),
    decreases hs.len(),
{
    if hs.len() > 0 {
        let d = hs.drop_last();
        let last = hs.last().path@;
        lemma_hit_files(d);
        assert forall|x: Seq<char>| #[trigger] hit_files(hs).contains(x) <==> has_path(hs, x) by {
            if has_path(d, x) {
                let i = choose|i: int| 0 <= i < d.len() && (#[trigger] d[i]).path@ == x;
                assert(hs[i] == d[i]);
            }
            if has_path(hs, x) && x != last {
                let i = choose|i: int| 0 <= i < hs.len() && (#[trigger] hs[i]).path@ == x;
                assert(i < d.len());
                assert(d[i] == hs[i]);
                assert(has_path(d, x));
            }
            if x == last {
                assert(hs[hs.len() - 1].path@ == x);
            }
            if hit_files(d).contains(last) {
                assert(hit_files(hs) == hit_files(d));
            } else {
                let p = hit_files(d).push(last);
                assert(hit_files(hs) == p);
                assert(p[p.len() - 1] == last);
                if p.contains(x) && x != last {
                    let j = choose|j: int| 0 <= j < p.len() && p[j] == x;
                    assert(hit_files(d)[j] == x);
                }
                if hit_files(d).contains(x) {
                    let j = choose|j: int| 0 <= j < hit_files(d).len() && hit_files(d)[j] == x;
                    assert(p[j] == x);
                }
            }
        }
    }
}

/// The scope of a pipe's target lies within the files of the source's
/// hits, and within the pipe's own scope.
proof fn lemma_pipe_files(ha: Seq<Hit>, fs: Option<Seq<Seq<char>>>)
    ensures
        forall|x: Seq<char>| #[trigger] pipe_files(ha, fs).contains(x) ==> has_path(ha, x),
        fs matches Some(f) ==> forall|x: Seq<char>| #[trigger] pipe_files(ha, fs).contains(x) ==> f.contains(x),
{
    lemma_hit_files(ha);
    if let Some(f) = fs {
        lemma_filter_within(hit_files(ha), member_of(f));
        assert forall|x: Seq<char>| #[trigger] pipe_files(ha, fs).contains(x) implies f.contains(x) by {
            hit_files(ha).lemma_filter_contains_rev(member_of(f), x);
        }
    }
}

/// Each search that evaluation asks for is one with no answer yet: an
/// unscoped one is a search of `plan`, a scoped one keeps to the scope.
pub proof fn lemma_ev_plan(e: ExprV, env: Map<Seq<char>, Seq<Hit>>, fs: Option<Seq<Seq<char>>>, rp: RepliesV, c: CurV)
    ensures
        step_search(ev(e, env, fs, rp, c).0) matches Some(k) ==> fair_search(k, fs, rp, plan(e)),
    decreases e,
{
    match e {
        ExprV::Rg(q, o) => {
            assert(seq![(q, o)][0] == (q, o));
            if let Some(f) = fs {
                lemma_filter_within(f, kept_by(o));
                lemma_filter_kept(f, o);
            }
        },
        ExprV::And(cs) => {
            lemma_list_plan(cs, env, fs, rp, c);
        },
        ExprV::Or(cs) => {
            lemma_list_plan(cs, env, fs, rp, c);
        },
        ExprV::Mix(w, cs) => {
            lemma_list_plan(cs, env, fs, rp, c);
        },
        ExprV::Diff(a, b) => {
            lemma_ev_plan(*a, env, fs, rp, c);
            let (sa, c1) = ev(*a, env, fs, rp, c);
            lemma_ev_plan(*b, env, fs, rp, c1);
            if let Some(k) = step_search(ev(e, env, fs, rp, c).0) {
                lemma_contains_concat(plan(*a), plan(*b), (k.0, k.1));
            }
        },
        ExprV::Pipe(a, b) => {
            lemma_ev_plan(*a, env, fs, rp, c);
            let (sa, c1) = ev(*a, env, fs, rp, c);
            if let StepV::Done(Ok(ha)) = sa {
                lemma_ev_plan(*b, env, Some(pipe_files(ha, fs)), rp, c1);
                lemma_pipe_files(ha, fs);
            }
        },
        ExprV::Top(n, child) => {
            lemma_ev_plan(*child, env, fs, rp, c);
        },
        ExprV::Threshold(n, child) => {
            lemma_ev_plan(*child, env, fs, rp, c);
        },
        ExprV::Let(bs, body) => {
            lemma_binds_plan(bs, env, fs, rp, c);
            let (b, c1) = ev_binds(bs, env, fs, rp, c);
            if let BindV::Done(Ok(env1)) = b {
                lemma_ev_plan(*body, env1, fs, rp, c1);
            }
            if let Some(k) = step_search(ev(e, env, fs, rp, c).0) {
                lemma_contains_concat(plan_binds(bs), plan(*body), (k.0, k.1));
            }
        },
        _ => {},
    }
}

pub proof fn lemma_list_plan(cs: Seq<ExprV>, env: Map<Seq<char>, Seq<Hit>>, fs: Option<Seq<Seq<char>>>, rp: RepliesV, c: CurV)
    ensures
        list_search(ev_list(cs, env, fs, rp, c).0) matches Some(k) ==> fair_search(k, fs, rp, plan_list(cs)),
    decreases cs,
{
    if cs.len() > 0 {
        let d = cs.subrange(0, cs.len() - 1);
        let x = cs[cs.len() - 1];
        lemma_list_plan(d, env, fs, rp, c);
        let (l, c1) = ev_list(d, env, fs, rp, c);
        lemma_ev_plan(x, env, fs, rp, c1);
        if let Some(k) = list_search(ev_list(cs, env, fs, rp, c).0) {
            lemma_contains_concat(plan_list(d), plan(x), (k.0, k.1));
        }
    }
}

pub proof fn lemma_binds_plan(
    bs: Seq<(Seq<char>, ExprV)>,
    env: Map<Seq<char>, Seq<Hit>>,
    fs: Option<Seq<Seq<char>>>,
    rp: RepliesV,
    c: CurV,
)
    ensures
        bind_search(ev_binds(bs, env, fs, rp, c).0) matches Some(k) ==> fair_search(k, fs, rp, plan_binds(bs)),
    decreases bs,
{
    if bs.len() > 0 {
        let d = bs.subrange(0, bs.len() - 1);
        let x = bs[bs.len() - 1];
        lemma_binds_plan(d, env, fs, rp, c);
        let (b, c1) = ev_binds(d, env, fs, rp, c);
        if let BindV::Done(Ok(env1)) = b {
            lemma_ev_plan(x.1, env1, fs, rp, c1);
        }
        if let Some(k) = bind_search(ev_binds(bs, env, fs, rp, c).0) {
            lemma_contains_concat(plan_binds(d), plan(x.1), (k.0, k.1));
        }
    }
}

pub proof fn lemma_entries_plan(
    es: Seq<(Seq<char>, ExprV)>,
    env: Map<Seq<char>, Seq<Hit>>,
    rp: RepliesV,
    c: CurV,
)
    ensures
        program_search(ev_entries(es, env, rp, c).0) matches Some(k) ==> fair_search(k, None, rp, plan_entries(es)),
    decreases es.len(),
{
    if es.len() > 0 {
        let d = es.drop_last();
        let x = es.last();
        lemma_entries_plan(d, env, rp, c);
        let (p, c1) = ev_entries(d, env, rp, c);
        lemma_ev_plan(x.1, env, None, rp, c1);
        if let Some(k) = program_search(ev_entries(es, env, rp, c).0) {
            lemma_contains_concat(plan_entries(d), plan(x.1), (k.0, k.1));
        }
    }
}

pub proof fn lemma_program_plan(e: ExprV, env: Map<Seq<char>, Seq<Hit>>, rp: RepliesV, c: CurV)
    ensures
        program_search(ev_program(e, env, rp, c).0) matches Some(k) ==> fair_search(k, None, rp, plan_program(e)),
    decreases e,
{
    match e {
        ExprV::Batch(es) => {
            lemma_entries_plan(es, env, rp, c);
        },
        ExprV::Let(bs, body) => {
            lemma_binds_plan(bs, env, None, rp, c);
            let (b, c1) = ev_binds(bs, env, None, rp, c);
            if let BindV::Done(Ok(env1)) = b {
                lemma_program_plan(*body, env1, rp, c1);
            }
            if let Some(k) = program_search(ev_program(e, env, rp, c).0) {
                lemma_contains_concat(plan_binds(bs), plan_program(*body), (k.0, k.1));
            }
        },
        _ => {
            lemma_ev_plan(e, env, None, rp, c);
        },
    }
}

/// The searches of a query outside pipe targets can all be run before
/// evaluating it, for instance at the same time: each search evaluation
/// asks for has no answer yet, and one without a file scope is a search
/// of `plan_program`. So with an answer for each search of
/// `plan_program`, evaluation asks only for searches of pipe targets,
/// which come after their sources are done.
pub proof fn law_searches_follow_plan(e: ExprV, env: Map<Seq<char>, Seq<Hit>>, rp: RepliesV)
    ensures
        program_search(ev_program(e, env, rp, cur_zero()).0) matches Some(k) ==> {
            &&& find_search(rp.searches, k) is None
            &&& (k.2 is None ==> plan_program(e).contains((k.0, k.1)))
        },
        (forall|i: int| 0 <= i < plan_program(e).len() ==> #[trigger] find_search(
            rp.searches,
            (plan_program(e)[i].0, plan_program(e)[i].1, None),
        ) is Some) ==> (program_search(ev_program(e, env, rp, cur_zero()).0) matches Some(k) ==> k.2 is Some),
{
    lemma_program_plan(e, env, rp, cur_zero());
    if let Some(k) = program_search(ev_program(e, env, rp, cur_zero()).0) {
        if k.2 is None {
            let i = choose|i: int| 0 <= i < plan_program(e).len() && plan_program(e)[i] == (k.0, k.1);
            assert(find_search(rp.searches, (plan_program(e)[i].0, plan_program(e)[i].1, None)) == find_search(rp.searches, k));
        }
    }
}

/// A pipe runs its source first, and only once the source is done its
/// target, inside the files of the source's hits: until then the pipe is
/// its source's step, afterwards its target's; every search the target
/// asks for is restricted to files where the source has hits.
pub proof fn law_pipe_scopes_target(
    a: ExprV,
    b: ExprV,
    env: Map<Seq<char>, Seq<Hit>>,
    fs: Option<Seq<Seq<char>>>,
    rp: RepliesV,
    c: CurV,
)
    ensures
        !(ev(a, env, fs, rp, c).0 matches StepV::Done(Ok(_))) ==> ev(
            ExprV::Pipe(Box::new(a), Box::new(b)),
            env,
            fs,
            rp,
            c,
        ) == ev(a, env, fs, rp, c),
        ev(a, env, fs, rp, c).0 matches StepV::Done(Ok(ha)) ==> {
            let c1 = ev(a, env, fs, rp, c).1;
            let r = ev(ExprV::Pipe(Box::new(a), Box::new(b)), env, fs, rp, c);
            &&& r == ev(b, env, Some(pipe_files(ha, fs)), rp, c1)
            &&& (step_search(r.0) matches Some(k) ==> (k.2 matches Some(g) && g.len() > 0 && forall|x: Seq<char>|
                #[trigger] g.contains(x) ==> has_path(ha, x) && keep_path(k.1, x)))
        },
{
    if let StepV::Done(Ok(ha)) = ev(a, env, fs, rp, c).0 {
        let c1 = ev(a, env, fs, rp, c).1;
        lemma_pipe_files(ha, fs);
        lemma_ev_plan(b, env, Some(pipe_files(ha, fs)), rp, c1);
    }
}

/// Inside a file scope every search asked for names at least one file,
/// and only files of the scope that pass the search's own filters: a
/// search is never run over the whole tree from inside a pipe target.
pub proof fn law_scoped_searches_name_files(
    e: ExprV,
    env: Map<Seq<char>, Seq<Hit>>,
    f: Seq<Seq<char>>,
    rp: RepliesV,
    c: CurV,
)
    ensures
        step_search(ev(e, env, Some(f), rp, c).0) matches Some(k) ==> {
            &&& k.2 matches Some(g)
            &&& g.len() > 0
            &&& forall|x: Seq<char>| #[trigger] g.contains(x) ==> f.contains(x) && keep_path(k.1, x)
        },
{
    lemma_ev_plan(e, env, Some(f), rp, c);
}

/// Inside a file scope of which no file passes a search's filters, the
/// search finds nothing and asks for nothing.
pub proof fn law_search_with_no_file_left_finds_nothing(
    q: Seq<char>,
    o: OptsV,
    env: Map<Seq<char>, Seq<Hit>>,
    f: Seq<Seq<char>>,
    rp: RepliesV,
    c: CurV,
)
    requires
        forall|i: int| 0 <= i < f.len() ==> !keep_path(o, #[trigger] f[i]),
    ensures
        ev(ExprV::Rg(q, o), env, Some(f), rp, c) == (StepV::Done(Ok(Seq::<Hit>::empty())), c),
{
    lemma_filter_kept(f, o);
    let g = f.filter(kept_by(o));
    if g.len() > 0 {
        assert(g.contains(g[0]));
        f.lemma_filter_contains_rev(kept_by(o), g[0]);
        let i = choose|i: int| 0 <= i < f.len() && f[i] == g[0];
        assert(!keep_path(o, f[i]));
    }
}

pub open spec fn plan_view(v: Seq<(String, SearchOpts)>) -> Seq<(Seq<char>, OptsV)> {
    v.map_values(|x: (String, SearchOpts)| (x.0@, x.1@))
}

fn push_search(out: &mut Vec<(String, SearchOpts)>, q: &String, o: &SearchOpts)
    ensures
        plan_view(final(out)@) == plan_view(old(out)@).push((q@, o@)),
{
    out.push((q.clone(), clone_opts(o)));
    proof {
        assert(plan_view(out@) =~= plan_view(old(out)@).push((q@, o@)));
    }
}

fn plan_of_list(cs: &Vec<Expr>, out: &mut Vec<(String, SearchOpts)>)
    ensures
        plan_view(final(out)@) == plan_view(old(out)@) + plan_list(exprs_view(cs@)),
    decreases cs,
{
    let ghost vs = exprs_view(cs@);
    let ghost start = plan_view(out@);
    proof {
        lemma_exprs_view(cs@);
        assert(vs.take(0) =~= seq![]);
        assert(start + plan_list(vs.take(0)) =~= start);
    }
    for i in 0..cs.len()
        invariant
            vs == exprs_view(cs@),
            vs.len() == cs@.len(),
            forall|j: int| 0 <= j < cs@.len() ==> #[trigger] vs[j] == expr_view(cs@[j]),
            start == plan_view(old(out)@),
            plan_view(out@) == start + plan_list(vs.take(i as int)),
    {
        proof {
            assert(vs.take(i + 1).subrange(0, i as int) =~= vs.take(i as int));
            assert(vs.take(i + 1)[i as int] == expr_view(cs@[i as int]));
            assert(decreases_to!(cs => cs@[i as int]));
        }
        plan_of(&cs[i], out);
        proof {
            assert(plan_list(vs.take(i + 1)) == plan_list(vs.take(i as int)) + plan(vs[i as int]));
            assert(start + plan_list(vs.take(i + 1)) =~= start + plan_list(vs.take(i as int)) + plan(
                vs[i as int],
            ));
        }
    }
    assert(vs.take(cs@.len() as int) =~= vs);
}

fn plan_of_binds(bs: &Vec<Binding>, out: &mut Vec<(String, SearchOpts)>)
    ensures
        plan_view(final(out)@) == plan_view(old(out)@) + plan_binds(bindings_view(bs@)),
    decreases bs,
{
    let ghost vs = bindings_view(bs@);
    let ghost start = plan_view(out@);
    proof {
        lemma_bindings_view(bs@);
        assert(vs.take(0) =~= seq![]);
        assert(start + plan_binds(vs.take(0)) =~= start);
    }
    for i in 0..bs.len()
        invariant
            vs == bindings_view(bs@),
            vs.len() == bs@.len(),
            forall|j: int| 0 <= j < bs@.len() ==> #[trigger] vs[j] == (bs@[j].name@, expr_view(bs@[j].value)),
            start == plan_view(old(out)@),
            plan_view(out@) == start + plan_binds(vs.take(i as int)),
    {
        proof {
            assert(vs.take(i + 1).subrange(0, i as int) =~= vs.take(i as int));
            assert(vs.take(i + 1)[i as int] == vs[i as int]);
            assert(decreases_to!(bs => bs@[i as int].value));
        }
        plan_of(&bs[i].value, out);
        proof {
            assert(plan_binds(vs.take(i + 1)) == plan_binds(vs.take(i as int)) + plan(vs[i as int].1));
            assert(start + plan_binds(vs.take(i + 1)) =~= start + plan_binds(vs.take(i as int)) + plan(
                vs[i as int].1,
            ));
        }
    }
    assert(vs.take(bs@.len() as int) =~= vs);
}

fn plan_of(e: &Expr, out: &mut Vec<(String, SearchOpts)>)
    ensures
        plan_view(final(out)@) == plan_view(old(out)@) + plan(e@),
    decreases e,
{
    let ghost start = plan_view(out@);
    match e {
        Expr::Rg(q, o) => {
            push_search(out, q, o);
            assert(start.push((q@, o@)) =~= start + seq![(q@, o@)]);
        },
        Expr::And(cs) => plan_of_list(cs, out),
        Expr::Or(cs) => plan_of_list(cs, out),
        Expr::Mix(_, cs) => plan_of_list(cs, out),
        Expr::Diff(a, b) => {
            plan_of(a, out);
            plan_of(b, out);
            assert(start + (plan(a@) + plan(b@)) =~= start + plan(a@) + plan(b@));
        },
        Expr::Pipe(a, _) => plan_of(a, out),
        Expr::Top(_, c) => plan_of(c, out),
        Expr::Threshold(_, c) => plan_of(c, out),
        Expr::Let(bs, body) => {
            plan_of_binds(bs, out);
            plan_of(body, out);
            assert(start + (plan_binds(bindings_view(bs@)) + plan(body@)) =~= start + plan_binds(
                bindings_view(bs@),
            ) + plan(body@));
        },
        _ => {
            assert(start + seq![] =~= start);
        },
    }
}

fn plan_of_program(e: &Expr, out: &mut Vec<(String, SearchOpts)>)
    ensures
        plan_view(final(out)@) == plan_view(old(out)@) + plan_program(e@),
    decreases e,
{
    let ghost start = plan_view(out@);
    match e {
        Expr::Batch(es) => {
            let ghost vs = entries_view(es@);
            proof {
                lemma_entries_view(es@);
                assert(vs.take(0) =~= seq![]);
                assert(start + plan_entries(vs.take(0)) =~= start);
            }
            for i in 0..es.len()
                invariant
                    vs == entries_view(es@),
                    vs.len() == es@.len(),
                    forall|j: int| 0 <= j < es@.len() ==> #[trigger] vs[j] == (es@[j].label@, expr_view(es@[j].expr)),
                    start == plan_view(old(out)@),
                    plan_view(out@) == start + plan_entries(vs.take(i as int)),
            {
                proof {
                    assert(vs.take(i + 1).drop_last() =~= vs.take(i as int));
                    assert(vs.take(i + 1).last() == vs[i as int]);
                }
                plan_of(&es[i].expr, out);
                proof {
                    assert(start + plan_entries(vs.take(i + 1)) =~= start + plan_entries(vs.take(i as int)) + plan(
                        vs[i as int].1,
                    ));
                }
            }
            assert(vs.take(es@.len() as int) =~= vs);
        },
        Expr::Let(bs, body) => {
            plan_of_binds(bs, out);
            plan_of_program(body, out);
            assert(start + (plan_binds(bindings_view(bs@)) + plan_program(body@)) =~= start + plan_binds(
                bindings_view(bs@),
            ) + plan_program(body@));
        },
        _ => plan_of(e, out),
    }
}

/// The ripgrep searches of a query outside pipe targets, left to right
/// (see `law_searches_follow_plan`): they can be run together ahead of
/// evaluation.
pub fn search_plan(expr: &Expr) -> (r: Vec<(String, SearchOpts)>)
    ensures
        plan_view(r@) == plan_program(expr@),
{
    let mut out: Vec<(String, SearchOpts)> = Vec::new();
    assert(plan_view(out@) =~= seq![]);
    plan_of_program(expr, &mut out);
    assert(seq![] + plan_program(expr@) =~= plan_program(expr@));
    out
}

/// Whether a query is a batch, possibly under `let` bindings.
pub open spec fn is_batch_query(e: ExprV) -> bool
    decreases e,
{
    match e {
        ExprV::Batch(_) => true,
        ExprV::Let(_, body) => is_batch_query(*body),
        _ => false,
    }
}

/// The whole-query step that an expression step stands for.
pub open spec fn single_step(s: StepV) -> ProgramV {
    match s {
        StepV::Done(Ok(h)) => ProgramV::Done(Ok(EvalResultV::Single(h))),
        StepV::Done(Err(x)) => ProgramV::Done(Err(x)),
        StepV::Need(q) => ProgramV::Need(q),
    }
}

/// A query that is not a batch evaluates as a whole to the one result set
/// that evaluating the expression gives, with the same outside work.
pub proof fn law_query_without_batch_is_single(e: ExprV, env: Map<Seq<char>, Seq<Hit>>, rp: RepliesV, c: CurV)
    requires
        !is_batch_query(e),
    ensures
        ev_program(e, env, rp, c) == (single_step(ev(e, env, None, rp, c).0), ev(e, env, None, rp, c).1),
    decreases e,
{
    if let ExprV::Let(bs, body) = e {
        let (b, c1) = ev_binds(bs, env, None, rp, c);
        if let BindV::Done(Ok(env1)) = b {
            law_query_without_batch_is_single(*body, env1, rp, c1);
        }
    }
}

} // verus!
