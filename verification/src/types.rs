//! Domain types: hits, scores, result sets, the expression tree, errors.
use vstd::prelude::*;

verus! {

// ── Scores ──────────────────────────────────────────────────────────

/// A relevance score. The field is the IEEE-754 binary64 bit pattern of
/// the score value; the library orders scores exactly as the hardware
/// compares the floating-point numbers they encode (NaN is unordered,
/// `-0.0` equals `0.0`).
#[derive(Clone, Copy, PartialEq, Eq, Structural, Debug)]
pub struct Score(pub u64);

/// Mask of the magnitude bits (exponent and mantissa) of a binary64 value.
pub const MAGNITUDE_MASK: u64 = 0x7fff_ffff_ffff_ffff;

/// Bit pattern of positive infinity; magnitudes above it encode NaN.
pub const INFINITY_BITS: u64 = 0x7ff0_0000_0000_0000;

/// Bit pattern of the smallest value with the sign bit set.
pub const SIGN_BIT: u64 = 0x8000_0000_0000_0000;

impl Score {
    /// The score 0.0.
    pub fn zero() -> (r: Score)
        ensures
            r.0 == 0,
    {
        Score(0)
    }

    /// Magnitude bits: ordered like the absolute value of the number.
    pub open spec fn magnitude(self) -> u64 {
        self.0 & 0x7fff_ffff_ffff_ffffu64
    }

    pub open spec fn is_nan(self) -> bool {
        self.magnitude() > INFINITY_BITS
    }

    pub open spec fn is_negative(self) -> bool {
        self.0 >= SIGN_BIT
    }

    /// An integer that orders non-NaN scores as the numbers they encode.
    pub open spec fn rank(self) -> int {
        if self.is_negative() {
            -(self.magnitude() as int)
        } else {
            self.magnitude() as int
        }
    }

    /// `self > other` as floating-point numbers.
    pub open spec fn spec_gt(self, other: Score) -> bool {
        !self.is_nan() && !other.is_nan() && self.rank() > other.rank()
    }

    /// `self >= other` as floating-point numbers.
    pub open spec fn spec_ge(self, other: Score) -> bool {
        !self.is_nan() && !other.is_nan() && self.rank() >= other.rank()
    }

    /// Floating-point `>` on the encoded numbers.
    pub fn gt(self, other: Score) -> (r: bool)
        ensures
            r == self.spec_gt(other),
    {
        let a = self.0 & MAGNITUDE_MASK;
        let b = other.0 & MAGNITUDE_MASK;
        if a > INFINITY_BITS || b > INFINITY_BITS {
            return false;
        }
        let a_neg = self.0 >= SIGN_BIT;
        let b_neg = other.0 >= SIGN_BIT;
        if !a_neg && !b_neg {
            a > b
        } else if !a_neg && b_neg {
            a > 0 || b > 0
        } else if a_neg && !b_neg {
            false
        } else {
            a < b
        }
    }

    /// Floating-point `>=` on the encoded numbers.
    pub fn ge(self, other: Score) -> (r: bool)
        ensures
            r == self.spec_ge(other),
    {
        let a = self.0 & MAGNITUDE_MASK;
        let b = other.0 & MAGNITUDE_MASK;
        if a > INFINITY_BITS || b > INFINITY_BITS {
            return false;
        }
        let a_neg = self.0 >= SIGN_BIT;
        let b_neg = other.0 >= SIGN_BIT;
        if !a_neg && !b_neg {
            a >= b
        } else if !a_neg && b_neg {
            true
        } else if a_neg && !b_neg {
            a == 0 && b == 0
        } else {
            a <= b
        }
    }
}

// ── Hits and result sets ────────────────────────────────────────────

/// A single search hit: one match at a specific file:line.
#[derive(Clone, Debug)]
pub struct Hit {
    pub path: String,
    pub line: u32,
    pub snippet: String,
    pub score: Score,
}

/// The identity of a hit for set operations: its path and line.
pub open spec fn key_of(h: Hit) -> (Seq<char>, u32) {
    (h.path@, h.line)
}

/// Whether two strings hold the same characters.
pub fn same_string(a: &String, b: &String) -> (r: bool)
    ensures
        r == (a@ == b@),
{
    a.eq(b)
}

/// A copy of a hit.
pub fn clone_hit(h: &Hit) -> (r: Hit)
    ensures
        r == *h,
{
    Hit { path: h.path.clone(), line: h.line, snippet: h.snippet.clone(), score: h.score }
}

/// A copy of a sequence of hits.
pub fn clone_hits(hits: &Vec<Hit>) -> (r: Vec<Hit>)
    ensures
        r@ == hits@,
{
    let mut out: Vec<Hit> = Vec::new();
    for i in 0..hits.len()
        invariant
            out@ == hits@.subrange(0, i as int),
    {
        out.push(clone_hit(&hits[i]));
        assert(out@ =~= hits@.subrange(0, i + 1));
    }
    assert(out@ =~= hits@);
    out
}

/// The universal value: every expression evaluates to a ResultSet.
#[derive(Clone, Debug)]
pub struct ResultSet {
    pub hits: Vec<Hit>,
}

/// Where the hit `x` goes when inserted into a list sorted by descending
/// score: after every hit it does not beat.
pub open spec fn insert_position(t: Seq<Hit>, x: Hit) -> nat
    decreases t.len(),
{
    if t.len() == 0 || !x.score.spec_gt(t.last().score) {
        t.len()
    } else {
        insert_position(t.drop_last(), x)
    }
}

/// Stable insertion of `x` into a list ordered by descending score.
pub open spec fn insert_desc(t: Seq<Hit>, x: Hit) -> Seq<Hit>
    decreases t.len(),
{
    if t.len() == 0 || !x.score.spec_gt(t.last().score) {
        t.push(x)
    } else {
        insert_desc(t.drop_last(), x).push(t.last())
    }
}

/// Stable sort by descending score: the order of hits with equal scores
/// is kept.
pub open spec fn sort_desc(s: Seq<Hit>) -> Seq<Hit>
    decreases s.len(),
{
    if s.len() == 0 {
        s
    } else {
        insert_desc(sort_desc(s.drop_last()), s.last())
    }
}

/// No score in the sequence is NaN.
pub open spec fn no_nan(s: Seq<Hit>) -> bool {
    forall|i: int| 0 <= i < s.len() ==> !(#[trigger] s[i]).score.is_nan()
}

/// Scores never increase along the sequence.
pub open spec fn descending(s: Seq<Hit>) -> bool {
    forall|i: int, j: int|
        0 <= i < j < s.len() ==> (#[trigger] s[i]).score.rank() >= (#[trigger] s[j]).score.rank()
}

pub proof fn lemma_insert_desc_split(t: Seq<Hit>, x: Hit)
    ensures
        insert_position(t, x) <= t.len(),
        insert_desc(t, x) == t.insert(insert_position(t, x) as int, x),
    decreases t.len(),
{
    if t.len() == 0 || !x.score.spec_gt(t.last().score) {
        assert(t.insert(t.len() as int, x) =~= t.push(x));
    } else {
        lemma_insert_desc_split(t.drop_last(), x);
        let p = insert_position(t.drop_last(), x) as int;
        assert(t.drop_last().insert(p, x).push(t.last()) =~= t.insert(p, x));
    }
}

pub proof fn lemma_insert_desc_multiset(t: Seq<Hit>, x: Hit)
    ensures
        insert_desc(t, x).to_multiset() == t.to_multiset().insert(x),
        insert_desc(t, x).len() == t.len() + 1,
{
    broadcast use vstd::seq_lib::group_to_multiset_ensures;

    lemma_insert_desc_split(t, x);
}

pub proof fn lemma_sort_desc_multiset(s: Seq<Hit>)
    ensures
        sort_desc(s).to_multiset() == s.to_multiset(),
        sort_desc(s).len() == s.len(),
    decreases s.len(),
{
    broadcast use vstd::seq_lib::group_to_multiset_ensures;

    if s.len() > 0 {
        lemma_sort_desc_multiset(s.drop_last());
        lemma_insert_desc_multiset(sort_desc(s.drop_last()), s.last());
        assert(s.drop_last().push(s.last()) =~= s);
    }
}

pub proof fn lemma_insert_desc_descending(t: Seq<Hit>, x: Hit)
    requires
        descending(t),
        no_nan(t),
        !x.score.is_nan(),
    ensures
        descending(insert_desc(t, x)),
        no_nan(insert_desc(t, x)),
    decreases t.len(),
{
    broadcast use vstd::seq_lib::group_to_multiset_ensures;

    if t.len() == 0 || !x.score.spec_gt(t.last().score) {
        let r = t.push(x);
        assert forall|i: int, j: int| 0 <= i < j < r.len() implies (#[trigger] r[i]).score.rank()
            >= (#[trigger] r[j]).score.rank() by {
            if j == t.len() && t.len() > 0 {
                assert(r[i].score.rank() >= t.last().score.rank());
            }
        }
    } else {
        let u = t.drop_last();
        assert(descending(u));
        lemma_insert_desc_descending(u, x);
        let v = insert_desc(u, x);
        lemma_insert_desc_multiset(u, x);
        let r = v.push(t.last());
        assert forall|i: int| 0 <= i < v.len() implies (#[trigger] v[i]).score.rank()
            >= t.last().score.rank() by {
            let y = v[i];
            assert(v.to_multiset().count(y) > 0);
            if y != x {
                assert(u.to_multiset().count(y) > 0);
                assert(u.contains(y));
                let k = choose|k: int| 0 <= k < u.len() && u[k] == y;
                assert(t[k] == y);
            }
        }
        assert forall|i: int, j: int| 0 <= i < j < r.len() implies (#[trigger] r[i]).score.rank()
            >= (#[trigger] r[j]).score.rank() by {
            if j == v.len() {
                assert(r[i] == v[i]);
            } else {
                assert(r[i] == v[i] && r[j] == v[j]);
            }
        }
        assert forall|i: int| 0 <= i < r.len() implies !(#[trigger] r[i]).score.is_nan() by {
            if i < v.len() {
                assert(r[i] == v[i]);
            }
        }
    }
}

pub proof fn lemma_sort_desc_descending(s: Seq<Hit>)
    requires
        no_nan(s),
    ensures
        descending(sort_desc(s)),
        no_nan(sort_desc(s)),
    decreases s.len(),
{
    if s.len() > 0 {
        assert(no_nan(s.drop_last()));
        lemma_sort_desc_descending(s.drop_last());
        lemma_insert_desc_descending(sort_desc(s.drop_last()), s.last());
    }
}

impl ResultSet {
    pub fn empty() -> (r: Self)
        ensures
            r.hits@.len() == 0,
    {
        ResultSet { hits: Vec::new() }
    }

    pub fn from_hits(hits: Vec<Hit>) -> (r: Self)
        ensures
            r.hits@ == hits@,
    {
        ResultSet { hits }
    }

    pub fn is_empty(&self) -> (r: bool)
        ensures
            r == (self.hits@.len() == 0),
    {
        self.hits.len() == 0
    }

    /// Sort by score descending (stable: equal scores keep their order).
    pub fn sorted(self) -> (r: Self)
        ensures
            r.hits@ == sort_desc(self.hits@),
            r.hits@.to_multiset() == self.hits@.to_multiset(),
            no_nan(self.hits@) ==> descending(r.hits@),
    {
        let ghost input = self.hits@;
        let hits = self.hits;
        let mut out: Vec<Hit> = Vec::new();
        let n = hits.len();
        for i in 0..n
            invariant
                n == hits@.len(),
                hits@ == input,
                out@ == sort_desc(input.subrange(0, i as int)),
        {
            let x = clone_hit(&hits[i]);
            let mut k = out.len();
            proof {
                assert(out@.subrange(0, k as int) =~= out@);
            }
            while k > 0 && x.score.gt(out[k - 1].score)
                invariant
                    k <= out@.len(),
                    insert_position(out@.subrange(0, k as int), x) == insert_position(out@, x),
                decreases k,
            {
                proof {
                    assert(out@.subrange(0, k as int).drop_last() =~= out@.subrange(0, k - 1));
                }
                k = k - 1;
            }
            proof {
                lemma_insert_desc_split(out@, x);
                assert(input.subrange(0, i + 1).drop_last() =~= input.subrange(0, i as int));
            }
            out.insert(k, x);
        }
        proof {
            assert(input.subrange(0, n as int) =~= input);
            lemma_sort_desc_multiset(input);
            if no_nan(input) {
                lemma_sort_desc_descending(input);
            }
        }
        ResultSet { hits: out }
    }
}


// ── Search options (keyword filters) ────────────────────────────────

/// Filters that any search primitive accepts:
/// `:in` (scope), `:lang`, `:x` (exclude globs), `:i` (includes globs).
#[derive(Clone, Debug, PartialEq)]
pub struct SearchOpts {
    pub scope: Option<String>,
    pub lang: Option<String>,
    pub exclude: Vec<String>,
    pub includes: Vec<String>,
}

/// The model of a `SearchOpts`: every string as its characters.
pub struct OptsV {
    pub scope: Option<Seq<char>>,
    pub lang: Option<Seq<char>>,
    pub exclude: Seq<Seq<char>>,
    pub includes: Seq<Seq<char>>,
}

pub open spec fn opt_view(o: Option<String>) -> Option<Seq<char>> {
    match o {
        Some(s) => Some(s@),
        None => None,
    }
}

pub open spec fn strings_view(v: Seq<String>) -> Seq<Seq<char>> {
    v.map_values(|s: String| s@)
}

pub open spec fn empty_opts() -> OptsV {
    OptsV { scope: None, lang: None, exclude: seq![], includes: seq![] }
}

impl View for SearchOpts {
    type V = OptsV;

    open spec fn view(&self) -> OptsV {
        OptsV {
            scope: opt_view(self.scope),
            lang: opt_view(self.lang),
            exclude: strings_view(self.exclude@),
            includes: strings_view(self.includes@),
        }
    }
}

impl Default for SearchOpts {
    fn default() -> (r: SearchOpts)
        ensures
            r@ == empty_opts(),
    {
        let r = SearchOpts { scope: None, lang: None, exclude: Vec::new(), includes: Vec::new() };
        assert(r@.exclude =~= seq![]);
        assert(r@.includes =~= seq![]);
        r
    }
}

/// A copy of a list of strings.
pub fn clone_strings(v: &Vec<String>) -> (r: Vec<String>)
    ensures
        r@ == v@,
{
    let mut out: Vec<String> = Vec::new();
    for i in 0..v.len()
        invariant
            out@ == v@.subrange(0, i as int),
    {
        out.push(v[i].clone());
        assert(out@ =~= v@.subrange(0, i + 1));
    }
    assert(out@ =~= v@);
    out
}

pub fn clone_opt_string(o: &Option<String>) -> (r: Option<String>)
    ensures
        r == *o,
{
    match o {
        Some(s) => Some(s.clone()),
        None => None,
    }
}

/// A copy of search options.
pub fn clone_opts(o: &SearchOpts) -> (r: SearchOpts)
    ensures
        r@ == o@,
        r.scope == o.scope,
        r.lang == o.lang,
        r.exclude@ == o.exclude@,
        r.includes@ == o.includes@,
{
    SearchOpts {
        scope: clone_opt_string(&o.scope),
        lang: clone_opt_string(&o.lang),
        exclude: clone_strings(&o.exclude),
        includes: clone_strings(&o.includes),
    }
}

// ── AST ─────────────────────────────────────────────────────────────

/// A numeric literal exactly as written in the query, e.g. `0.6` or `10`.
/// It has the syntax of a decimal floating-point number; its value is
/// computed where floating-point arithmetic is available.
#[derive(Clone, Debug, PartialEq)]
pub struct Number {
    pub literal: String,
}

/// Weights for `mix`: equal, or one explicit weight per child.
#[derive(Clone, Debug, PartialEq)]
pub enum Weights {
    Equal,
    Explicit(Vec<Number>),
}

/// Every syntactic form of the language is a variant.
#[derive(Debug, PartialEq)]
pub enum Expr {
    // Search primitives
    Rg(String, SearchOpts),
    Lex(String, SearchOpts),
    Sem(String, SearchOpts),
    // Combinators
    And(Vec<Expr>),
    Or(Vec<Expr>),
    Mix(Weights, Vec<Expr>),
    Diff(Box<Expr>, Box<Expr>),
    /// Sequential pipeline: the source is evaluated first, then the target
    /// with each of its searches restricted to the files of the source's
    /// hits.
    Pipe(Box<Expr>, Box<Expr>),
    // Filters
    Top(Number, Box<Expr>),
    Threshold(Number, Box<Expr>),
    // Named parallel evaluation
    Batch(Vec<BatchEntry>),
    // Bindings
    Let(Vec<Binding>, Box<Expr>),
    Var(String),
}

/// A named entry in a batch: label + expression.
#[derive(Debug, PartialEq)]
pub struct BatchEntry {
    pub label: String,
    pub expr: Expr,
}

/// Batch-level options, `{:top k :threshold t}`: sugar that wraps every
/// entry in `(top k (> t entry))`.
#[derive(Clone, Debug, PartialEq)]
pub struct BatchOpts {
    pub top: Option<Number>,
    pub threshold: Option<Number>,
}

/// The model of batch options: the literals as written.
pub struct BatchOptsV {
    pub top: Option<Seq<char>>,
    pub threshold: Option<Seq<char>>,
}

pub open spec fn number_opt_view(o: Option<Number>) -> Option<Seq<char>> {
    match o {
        Some(n) => Some(n.literal@),
        None => None,
    }
}

impl View for BatchOpts {
    type V = BatchOptsV;

    open spec fn view(&self) -> BatchOptsV {
        BatchOptsV { top: number_opt_view(self.top), threshold: number_opt_view(self.threshold) }
    }
}

#[derive(Debug, PartialEq)]
pub struct Binding {
    pub name: String,
    pub value: Expr,
}

/// The model of `Weights`.
pub enum WeightsV {
    Equal,
    Explicit(Seq<Seq<char>>),
}

/// The model of an expression: strings as characters, lists as sequences.
pub enum ExprV {
    Rg(Seq<char>, OptsV),
    Lex(Seq<char>, OptsV),
    Sem(Seq<char>, OptsV),
    And(Seq<ExprV>),
    Or(Seq<ExprV>),
    Mix(WeightsV, Seq<ExprV>),
    Diff(Box<ExprV>, Box<ExprV>),
    Pipe(Box<ExprV>, Box<ExprV>),
    Top(Seq<char>, Box<ExprV>),
    Threshold(Seq<char>, Box<ExprV>),
    Batch(Seq<(Seq<char>, ExprV)>),
    Let(Seq<(Seq<char>, ExprV)>, Box<ExprV>),
    Var(Seq<char>),
}

pub open spec fn numbers_view(v: Seq<Number>) -> Seq<Seq<char>> {
    v.map_values(|n: Number| n.literal@)
}

impl View for Weights {
    type V = WeightsV;

    open spec fn view(&self) -> WeightsV {
        match self {
            Weights::Equal => WeightsV::Equal,
            Weights::Explicit(ws) => WeightsV::Explicit(numbers_view(ws@)),
        }
    }
}

pub open spec fn expr_view(e: Expr) -> ExprV
    decreases e,
{
    match e {
        Expr::Rg(q, o) => ExprV::Rg(q@, o@),
        Expr::Lex(q, o) => ExprV::Lex(q@, o@),
        Expr::Sem(q, o) => ExprV::Sem(q@, o@),
        Expr::And(cs) => ExprV::And(exprs_view(cs@)),
        Expr::Or(cs) => ExprV::Or(exprs_view(cs@)),
        Expr::Mix(w, cs) => ExprV::Mix(w@, exprs_view(cs@)),
        Expr::Diff(l, r) => ExprV::Diff(Box::new(expr_view(*l)), Box::new(expr_view(*r))),
        Expr::Pipe(l, r) => ExprV::Pipe(Box::new(expr_view(*l)), Box::new(expr_view(*r))),
        Expr::Top(n, c) => ExprV::Top(n.literal@, Box::new(expr_view(*c))),
        Expr::Threshold(n, c) => ExprV::Threshold(n.literal@, Box::new(expr_view(*c))),
        Expr::Batch(es) => ExprV::Batch(entries_view(es@)),
        Expr::Let(bs, body) => ExprV::Let(bindings_view(bs@), Box::new(expr_view(*body))),
        Expr::Var(n) => ExprV::Var(n@),
    }
}

pub open spec fn exprs_view(s: Seq<Expr>) -> Seq<ExprV>
    decreases s,
{
    if s.len() == 0 {
        seq![]
    } else {
        exprs_view(s.drop_last()).push(expr_view(s.last()))
    }
}

pub open spec fn bindings_view(s: Seq<Binding>) -> Seq<(Seq<char>, ExprV)>
    decreases s,
{
    if s.len() == 0 {
        seq![]
    } else {
        bindings_view(s.drop_last()).push((s.last().name@, expr_view(s.last().value)))
    }
}

pub open spec fn entries_view(s: Seq<BatchEntry>) -> Seq<(Seq<char>, ExprV)>
    decreases s,
{
    if s.len() == 0 {
        seq![]
    } else {
        entries_view(s.drop_last()).push((s.last().label@, expr_view(s.last().expr)))
    }
}

impl View for Expr {
    type V = ExprV;

    open spec fn view(&self) -> ExprV {
        expr_view(*self)
    }
}

// ── Output format ───────────────────────────────────────────────────

/// How to render the final result.
#[derive(Clone, Copy, Debug, PartialEq, Eq, Structural)]
pub enum OutputFormat {
    Default,
    Files,
    Scores,
    Json,
}

// ── Evaluation results ──────────────────────────────────────────────

/// The two shapes evaluation produces: one result set, or labeled
/// sections (the batch form).
#[derive(Clone, Debug)]
pub enum EvalResult {
    Single(ResultSet),
    Batch(Vec<LabeledResult>),
}

#[derive(Clone, Debug)]
pub struct LabeledResult {
    pub label: String,
    pub result: ResultSet,
}

/// A copy of a result set.
pub fn clone_set(s: &ResultSet) -> (r: ResultSet)
    ensures
        r.hits@ == s.hits@,
{
    ResultSet { hits: clone_hits(&s.hits) }
}

// ── Errors ──────────────────────────────────────────────────────────

#[derive(Debug)]
pub enum SqError {
    Rg(String),
    LexUnavailable,
    SemUnavailable,
    UnboundVar(String),
    Other(String),
}

pub enum SqErrorV {
    Rg(Seq<char>),
    LexUnavailable,
    SemUnavailable,
    UnboundVar(Seq<char>),
    Other(Seq<char>),
}

impl View for SqError {
    type V = SqErrorV;

    open spec fn view(&self) -> SqErrorV {
        match self {
            SqError::Rg(s) => SqErrorV::Rg(s@),
            SqError::LexUnavailable => SqErrorV::LexUnavailable,
            SqError::SemUnavailable => SqErrorV::SemUnavailable,
            SqError::UnboundVar(s) => SqErrorV::UnboundVar(s@),
            SqError::Other(s) => SqErrorV::Other(s@),
        }
    }
}

/// The text shown for an error.
pub open spec fn error_message(e: SqErrorV) -> Seq<char> {
    match e {
        SqErrorV::Rg(s) => "rg backend error: "@ + s,
        SqErrorV::LexUnavailable => "lex backend not available (compile with --features lex)"@,
        SqErrorV::SemUnavailable => "sem backend not available (compile with --features sem)"@,
        SqErrorV::UnboundVar(s) => "unbound variable: "@ + s,
        SqErrorV::Other(s) => s,
    }
}

impl SqError {
    /// The error's message.
    pub fn message(&self) -> (r: String)
        ensures
            r@ == error_message(self@),
    {
        match self {
            SqError::Rg(s) => crate::text::concat(&crate::text::owned("rg backend error: "), s),
            SqError::LexUnavailable => crate::text::owned(
                "lex backend not available (compile with --features lex)",
            ),
            SqError::SemUnavailable => crate::text::owned(
                "sem backend not available (compile with --features sem)",
            ),
            SqError::UnboundVar(s) => crate::text::concat(&crate::text::owned("unbound variable: "), s),
            SqError::Other(s) => s.clone(),
        }
    }
}

/// A copy of an error.
pub fn clone_error(e: &SqError) -> (r: SqError)
    ensures
        r@ == e@,
{
    match e {
        SqError::Rg(s) => SqError::Rg(s.clone()),
        SqError::LexUnavailable => SqError::LexUnavailable,
        SqError::SemUnavailable => SqError::SemUnavailable,
        SqError::UnboundVar(s) => SqError::UnboundVar(s.clone()),
        SqError::Other(s) => SqError::Other(s.clone()),
    }
}

// ── Environment of let bindings ─────────────────────────────────────

/// Bound names and their results; a later binding of a name shadows an
/// earlier one.
pub struct Env {
    entries: Vec<(String, ResultSet)>,
}

/// The map that a list of bindings, applied in order, builds.
pub open spec fn env_map(s: Seq<(Seq<char>, Seq<Hit>)>) -> Map<Seq<char>, Seq<Hit>>
    decreases s.len(),
{
    if s.len() == 0 {
        Map::empty()
    } else {
        env_map(s.drop_last()).insert(s.last().0, s.last().1)
    }
}

pub open spec fn bound_view(s: Seq<(String, ResultSet)>) -> Seq<(Seq<char>, Seq<Hit>)> {
    s.map_values(|e: (String, ResultSet)| (e.0@, e.1.hits@))
}

impl View for Env {
    type V = Map<Seq<char>, Seq<Hit>>;

    closed spec fn view(&self) -> Map<Seq<char>, Seq<Hit>> {
        env_map(bound_view(self.entries@))
    }
}

impl Env {
    pub fn new() -> (r: Env)
        ensures
            r@ == Map::<Seq<char>, Seq<Hit>>::empty(),
    {
        Env { entries: Vec::new() }
    }

    /// Binds `name` to `value`, replacing an earlier binding of it.
    pub fn insert(&mut self, name: String, value: ResultSet)
        ensures
            final(self)@ == old(self)@.insert(name@, value.hits@),
    {
        let ghost k = name@;
        let ghost v = value.hits@;
        self.entries.push((name, value));
        proof {
            assert(bound_view(self.entries@).drop_last() =~= bound_view(old(self).entries@));
        }
    }

    /// The result bound to `name`, if any.
    pub fn get(&self, name: &str) -> (r: Option<ResultSet>)
        ensures
            match r {
                Some(v) => self@.contains_key(name@) && v.hits@ == self@[name@],
                None => !self@.contains_key(name@),
            },
    {
        let ghost s = bound_view(self.entries@);
        let mut k = self.entries.len();
        proof {
            assert(s.take(k as int) =~= s);
        }
        while k > 0
            invariant
                k <= s.len(),
                s == bound_view(self.entries@),
                env_map(s.take(k as int)).contains_key(name@) == env_map(s).contains_key(name@),
                env_map(s).contains_key(name@) ==> env_map(s.take(k as int))[name@] == env_map(s)[name@],
            decreases k,
        {
            proof {
                assert(s.take(k as int).drop_last() =~= s.take(k - 1));
            }
            if crate::util::str_eq(self.entries[k - 1].0.as_str(), name) {
                return Some(clone_set(&self.entries[k - 1].1));
            }
            k = k - 1;
        }
        None
    }

    /// A copy of the environment.
    pub fn clone_env(&self) -> (r: Env)
        ensures
            r@ == self@,
    {
        let mut out: Vec<(String, ResultSet)> = Vec::new();
        for i in 0..self.entries.len()
            invariant
                bound_view(out@) == bound_view(self.entries@).take(i as int),
        {
            let e = &self.entries[i];
            let ghost prev = out@;
            let pair = (e.0.clone(), clone_set(&e.1));
            out.push(pair);
            proof {
                assert(self.entries@[i as int] == *e);
                assert(bound_view(out@) =~= bound_view(prev).push((e.0@, e.1.hits@)));
                assert(bound_view(self.entries@).take(i + 1) =~= bound_view(self.entries@).take(
                    i as int,
                ).push((e.0@, e.1.hits@)));
            }
        }
        assert(bound_view(self.entries@).take(self.entries@.len() as int) =~= bound_view(self.entries@));
        Env { entries: out }
    }
}

} // verus!
