//! The decisions of the `ag` command line: which query to run, how to
//! render it, auto mode, and sizes for the index status report.
use vstd::prelude::*;
use crate::types::{OutputFormat, ExprV, empty_opts};
use crate::parse::{spec_parse, spec_tokenize, lex, scan_str, sym_end, bytes_chars, p_expr, p_form, p_body, p_search, p_opts, TokenV, SearchKind, QUOTE, BACKSLASH};
use crate::text::{trim_end_seq, trim_start_seq};
use vstd::utf8::{encode_utf8, is_ascii_chars, is_ascii_chars_encode_utf8};
use crate::text::{owned, concat, chars_of, trim_seq, trim, decimal, decimal_seq, digit_char};

verus! {

// ── Auto mode ───────────────────────────────────────────────────────

/// A string literal of the query language for `s`: backslashes and double
/// quotes get a backslash before them.
pub open spec fn escape_seq(s: Seq<char>) -> Seq<char>
    decreases s.len(),
{
    if s.len() == 0 {
        seq![]
    } else {
        escape_seq(s.drop_last()) + if s.last() == '\\' {
            seq!['\\', '\\']
        } else if s.last() == '"' {
            seq!['\\', '"']
        } else {
            seq![s.last()]
        }
    }
}

/// `s` with a backslash before each double quote (backslashes are kept).
pub open spec fn escape_quotes_seq(s: Seq<char>) -> Seq<char>
    decreases s.len(),
{
    if s.len() == 0 {
        seq![]
    } else {
        escape_quotes_seq(s.drop_last()) + if s.last() == '"' {
            seq!['\\', '"']
        } else {
            seq![s.last()]
        }
    }
}

/// Whether a query is already an S-expression or starts with a comment:
/// after leading and trailing whitespace, it starts with `(` or `;`.
pub open spec fn is_sexp(q: Seq<char>) -> bool {
    let t = trim_seq(q);
    t.len() > 0 && (t[0] == '(' || t[0] == ';')
}

/// Auto mode: a query that is not an S-expression is searched for with
/// ripgrep as a whole, trimmed and quoted.
pub open spec fn spec_auto_wrap(q: Seq<char>) -> Seq<char> {
    if is_sexp(q) {
        q
    } else {
        "(rg \""@ + escape_seq(trim_seq(q)) + "\")"@
    }
}

fn escape_chars(s: &str, quotes_only: bool) -> (r: String)
    ensures
        quotes_only ==> r@ == escape_quotes_seq(s@),
        !quotes_only ==> r@ == escape_seq(s@),
{
    let cs = chars_of(s);
    let mut out = String::new();
    for i in 0..cs.len()
        invariant
            cs@ == s@,
            quotes_only ==> out@ == escape_quotes_seq(s@.take(i as int)),
            !quotes_only ==> out@ == escape_seq(s@.take(i as int)),
    {
        proof {
            assert(s@.take(i + 1).drop_last() =~= s@.take(i as int));
        }
        let c = cs[i];
        let ghost before = out@;
        if c == '\\' && !quotes_only {
            out.push('\\');
            out.push('\\');
        } else if c == '"' {
            out.push('\\');
            out.push('"');
        } else {
            out.push(c);
        }
        proof {
            if quotes_only {
                assert(out@ =~= escape_quotes_seq(s@.take(i as int)) + if c == '"' {
                    seq!['\\', '"']
                } else {
                    seq![c]
                });
            } else {
                assert(out@ =~= escape_seq(s@.take(i as int)) + if c == '\\' {
                    seq!['\\', '\\']
                } else if c == '"' {
                    seq!['\\', '"']
                } else {
                    seq![c]
                });
            }
        }
    }
    assert(s@.take(s@.len() as int) =~= s@);
    out
}

/// If the query is not an S-expression (no leading parenthesis), it
/// becomes `(rg "query")`, the universal fallback; otherwise it is kept
/// as it is.
pub fn auto_wrap(query: &str) -> (r: String)
    ensures
        r@ == spec_auto_wrap(query@),
{
    let t = trim(query);
    let tc = chars_of(t.as_str());
    if tc.len() > 0 && (tc[0] == '(' || tc[0] == ';') {
        return owned(query);
    }
    let body = escape_chars(t.as_str(), false);
    let open = owned("(rg \"");
    let close = owned("\")");
    concat(&concat(&open, &body), &close)
}

/// The query for the `-g PATTERN` shorthand: `(rg "PATTERN")` with the
/// double quotes in the pattern escaped.
pub fn grep_query(pattern: &str) -> (r: String)
    ensures
        r@ == "(rg \""@ + escape_quotes_seq(pattern@) + "\")"@,
{
    let body = escape_chars(pattern, true);
    concat(&concat(&owned("(rg \""), &body), &owned("\")"))
}

// ── Query resolution ────────────────────────────────────────────────

/// Where the query comes from.
#[derive(Clone, Copy, Debug, PartialEq, Eq, Structural)]
pub enum QuerySource {
    /// The `-g` pattern.
    Grep,
    /// The file given with `-f`.
    File,
    /// The query on the command line.
    Inline,
    /// None was given: a usage error.
    Missing,
}

/// The `-g` shorthand wins over a query file, which wins over an inline
/// query.
pub fn query_source(grep: bool, file: bool, inline: bool) -> (r: QuerySource)
    ensures
        r == (if grep {
            QuerySource::Grep
        } else if file {
            QuerySource::File
        } else if inline {
            QuerySource::Inline
        } else {
            QuerySource::Missing
        }),
{
    if grep {
        QuerySource::Grep
    } else if file {
        QuerySource::File
    } else if inline {
        QuerySource::Inline
    } else {
        QuerySource::Missing
    }
}

/// The message for a missing query.
pub fn missing_query_message() -> (r: String)
    ensures
        r@ == "no query provided. Usage: ag '(rg \"TODO\")' or ag -g TODO"@,
{
    owned("no query provided. Usage: ag '(rg \"TODO\")' or ag -g TODO")
}

/// The output format the flags ask for: JSON wins over scores, which win
/// over file paths.
pub fn resolve_format(json: bool, scores: bool, files: bool) -> (r: OutputFormat)
    ensures
        r == (if json {
            OutputFormat::Json
        } else if scores {
            OutputFormat::Scores
        } else if files {
            OutputFormat::Files
        } else {
            OutputFormat::Default
        }),
{
    if json {
        return OutputFormat::Json;
    }
    if scores {
        return OutputFormat::Scores;
    }
    if files {
        return OutputFormat::Files;
    }
    OutputFormat::Default
}

// ── Sizes ───────────────────────────────────────────────────────────

/// `num / den` rounded to the nearest integer, ties to even.
pub open spec fn round_half_even(num: nat, den: nat) -> nat {
    let q = num / den;
    let r = num % den;
    if 2 * r > den || (2 * r == den && q % 2 == 1) {
        q + 1
    } else {
        q
    }
}

/// `num / den` with one decimal, as `format!("{:.1}")` writes the
/// floating-point number `num / den` when it is exact: rounded to the
/// nearest tenth, ties to even.
pub open spec fn one_decimal(num: nat, den: nat) -> Seq<char> {
    let t = round_half_even(num * 10, den);
    decimal_seq(t / 10) + seq!['.', digit_char(t % 10)]
}

pub open spec fn power_of_two(s: nat) -> nat
    decreases s,
{
    if s == 0 {
        1
    } else {
        2 * power_of_two((s - 1) as nat)
    }
}

/// How many halvings bring `b` below 2^53.
pub open spec fn halvings(b: nat) -> nat
    decreases b,
{
    if b < 0x20_0000_0000_0000 {
        0
    } else {
        1 + halvings(b / 2)
    }
}

/// The value of `b as f64`: `b` itself below 2^53; above, `b` rounded to
/// the nearest multiple of 2^s, ties to an even multiple, where `s`
/// halvings bring `b` below 2^53 (binary64 keeps 53 significant bits).
pub open spec fn double_of(b: nat) -> nat {
    let p = power_of_two(halvings(b));
    let q = b / p;
    let r = b % p;
    if 2 * r > p || (2 * r == p && q % 2 == 1) {
        (q + 1) * p
    } else {
        q * p
    }
}

/// A byte count for humans: bytes below 1 KiB, KiB with one decimal below
/// 1 MiB, MiB with one decimal above (the quotient taken in binary64).
pub open spec fn spec_format_bytes(b: u64) -> Seq<char> {
    if b < 1024 {
        decimal_seq(b as nat) + " B"@
    } else if b < 1048576 {
        one_decimal(b as nat, 1024) + " KB"@
    } else {
        one_decimal(double_of(b as nat), 1048576) + " MB"@
    }
}

fn round_half_even_exec(num: u128, den: u128) -> (r: u128)
    requires
        0 < den <= 1048576,
        num <= 0x100_0000_0000_0000_0000,
    ensures
        r == round_half_even(num as nat, den as nat),
        r <= num / den + 1,
{
    let q = num / den;
    let r = num % den;
    if 2 * r > den || (2 * r == den && q % 2 == 1) {
        q + 1
    } else {
        q
    }
}

fn one_decimal_exec(num: u128, den: u128) -> (r: String)
    requires
        1024 <= den <= 1048576,
        num <= 0x2_0000_0000_0000_0000,
    ensures
        r@ == one_decimal(num as nat, den as nat),
{
    let t = round_half_even_exec(num * 10, den);
    proof {
        vstd::arithmetic::div_mod::lemma_div_is_ordered_by_denominator((num * 10) as int, 1024, den as int);
        vstd::arithmetic::div_mod::lemma_div_is_ordered((num * 10) as int, 0x14_0000_0000_0000_0000, 1024);
        assert(0x14_0000_0000_0000_0000int / 1024 == 0x500_0000_0000_0000);
    }
    let whole = t / 10;
    let frac = t % 10;
    let mut s = decimal(whole as u64);
    s.push('.');
    s.push(crate::text::digit(frac as u64));
    s
}

fn double_exec(b: u64) -> (v: u128)
    ensures
        v == double_of(b as nat),
        v <= 0x2_0000_0000_0000_0000,
{
    let mut x: u64 = b;
    let mut p: u128 = 1;
    let ghost mut s: nat = 0;
    while x >= 0x20_0000_0000_0000
        invariant
            x == b as nat / p as nat,
            p == power_of_two(s),
            p >= 1,
            p == 1 || p <= b,
            x as nat * p as nat <= b as nat,
            halvings(b as nat) == s + halvings(x as nat),
        decreases x,
    {
        proof {
            vstd::arithmetic::div_mod::lemma_div_denominator(b as int, p as int, 2);
            assert(2 * p as nat <= x as nat * p as nat) by (nonlinear_arith)
                requires
                    x >= 2,
            ;
            assert((x / 2) as nat * (2 * p) as nat <= x as nat * p as nat) by (nonlinear_arith)
                requires
                    p >= 1,
            ;
        }
        x = x / 2;
        p = p * 2;
        proof {
            s = s + 1;
        }
    }
    let q = x as u128;
    let r = b as u128 % p;
    proof {
        vstd::arithmetic::div_mod::lemma_fundamental_div_mod(b as int, p as int);
        assert(q * p <= b);
    }
    if 2 * r > p || (2 * r == p && q % 2 == 1) {
        proof {
            assert((q + 1) * p == q * p + p) by (nonlinear_arith);
        }
        (q + 1) * p
    } else {
        q * p
    }
}

/// A byte count for humans: `"512 B"`, `"1.5 KB"`, `"2.0 MB"`.
pub fn format_bytes(bytes: u64) -> (r: String)
    ensures
        r@ == spec_format_bytes(bytes),
{
    if bytes < 1024 {
        concat(&decimal(bytes), &owned(" B"))
    } else if bytes < 1048576 {
        concat(&one_decimal_exec(bytes as u128, 1024), &owned(" KB"))
    } else {
        let v = double_exec(bytes);
        concat(&one_decimal_exec(v, 1048576), &owned(" MB"))
    }
}

// ── Laws of auto mode and the grep shorthand ────────────────────────

proof fn lemma_escape_concat(a: Seq<char>, b: Seq<char>)
    ensures
        escape_seq(a + b) == escape_seq(a) + escape_seq(b),
    decreases b.len(),
{
    if b.len() == 0 {
        assert(a + b =~= a);
        assert(escape_seq(a) + escape_seq(b) =~= escape_seq(a));
    } else {
        lemma_escape_concat(a, b.drop_last());
        assert((a + b).drop_last() =~= a + b.drop_last());
        assert((a + b).last() == b.last());
    }
}

proof fn lemma_quotes_concat(a: Seq<char>, b: Seq<char>)
    ensures
        escape_quotes_seq(a + b) == escape_quotes_seq(a) + escape_quotes_seq(b),
    decreases b.len(),
{
    if b.len() == 0 {
        assert(a + b =~= a);
        assert(escape_quotes_seq(a) + escape_quotes_seq(b) =~= escape_quotes_seq(a));
    } else {
        lemma_quotes_concat(a, b.drop_last());
        assert((a + b).drop_last() =~= a + b.drop_last());
        assert((a + b).last() == b.last());
    }
}

proof fn lemma_escape_ascii(t: Seq<char>)
    requires
        is_ascii_chars(t),
    ensures
        is_ascii_chars(escape_seq(t)),
        is_ascii_chars(escape_quotes_seq(t)),
    decreases t.len(),
{
    if t.len() > 0 {
        assert(is_ascii_chars(t.drop_last())) by {
            assert forall|i: int| 0 <= i < t.drop_last().len() implies '\0' <= #[trigger] t.drop_last()[i]
                <= '\u{7f}' by {
                assert(t.drop_last()[i] == t[i]);
            }
        }
        lemma_escape_ascii(t.drop_last());
        assert('\0' <= t[t.len() - 1] <= '\u{7f}');
        let a = escape_seq(t.drop_last());
        let q = escape_quotes_seq(t.drop_last());
        assert forall|i: int| 0 <= i < escape_seq(t).len() implies '\0' <= #[trigger] escape_seq(t)[i]
            <= '\u{7f}' by {
            if i < a.len() {
                assert(escape_seq(t)[i] == a[i]);
            }
        }
        assert forall|i: int| 0 <= i < escape_quotes_seq(t).len() implies '\0'
            <= #[trigger] escape_quotes_seq(t)[i] <= '\u{7f}' by {
            if i < q.len() {
                assert(escape_quotes_seq(t)[i] == q[i]);
            }
        }
    }
}

/// Every backslash of a text is followed by a character that does not
/// form an escape with it (not `\`, `"`, `n` or `t`), so that a string
/// literal reads it back as it is.
pub open spec fn backslashes_kept(t: Seq<char>) -> bool {
    forall|k: int|
        0 <= k < t.len() && #[trigger] t[k] == '\\' ==> k + 1 < t.len() && t[k + 1] != '\\' && t[k + 1]
            != '"' && t[k + 1] != 'n' && t[k + 1] != 't'
}

/// A text escaped for a string literal: quotes only, or quotes and
/// backslashes.
pub open spec fn escaped(t: Seq<char>, quotes_only: bool) -> Seq<char> {
    if quotes_only {
        escape_quotes_seq(t)
    } else {
        escape_seq(t)
    }
}

/// `scan_str` reads back an escaped ASCII text that ends at a quote.
proof fn lemma_scan_escaped(b: Seq<u8>, i: int, t: Seq<char>, quotes_only: bool)
    requires
        is_ascii_chars(t),
        quotes_only ==> backslashes_kept(t),
        0 <= i,
        i + escaped(t, quotes_only).len() < b.len(),
        forall|k: int|
            0 <= k < escaped(t, quotes_only).len() ==> b[i + k]
                == (#[trigger] escaped(t, quotes_only)[k]) as u8,
        b[i + escaped(t, quotes_only).len()] == QUOTE,
    ensures
        scan_str(b, i) == Some((t, i + escaped(t, quotes_only).len())),
    decreases t.len(),
{
    let e = escaped(t, quotes_only);
    if t.len() == 0 {
        assert(e.len() == 0);
        assert(b[i] == QUOTE);
    } else {
        let c = t[0];
        let rest = t.drop_first();
        assert(t =~= seq![c] + rest);
        lemma_escape_concat(seq![c], rest);
        lemma_quotes_concat(seq![c], rest);
        assert(escape_seq(seq![c]) == escape_seq(seq![c].drop_last()) + (if c == '\\' {
            seq!['\\', '\\']
        } else if c == '"' {
            seq!['\\', '"']
        } else {
            seq![c]
        }));
        assert(seq![c].drop_last() =~= Seq::<char>::empty());
        assert(escape_quotes_seq(seq![c]) == escape_quotes_seq(seq![c].drop_last()) + (if c == '"' {
            seq!['\\', '"']
        } else {
            seq![c]
        }));
        assert(is_ascii_chars(rest)) by {
            assert forall|k: int| 0 <= k < rest.len() implies '\0' <= #[trigger] rest[k] <= '\u{7f}' by {
                assert(rest[k] == t[k + 1]);
            }
        }
        assert(quotes_only ==> backslashes_kept(rest)) by {
            if quotes_only {
                assert forall|k: int| 0 <= k < rest.len() && #[trigger] rest[k] == '\\' implies k + 1 < rest.len()
                    && rest[k + 1] != '\\' && rest[k + 1] != '"' && rest[k + 1] != 'n' && rest[k + 1] != 't' by {
                    assert(t[k + 1] == rest[k]);
                    assert(t[k + 2] == rest[k + 1]);
                }
            }
        }
        assert('\0' <= c <= '\u{7f}');
        let er = escaped(rest, quotes_only);
        if quotes_only && c == '\\' {
            assert(t[0] == '\\');
            let d = rest[0];
            assert(d == t[1]);
            let rest2 = rest.drop_first();
            assert(rest =~= seq![d] + rest2);
            lemma_quotes_concat(seq![d], rest2);
            assert(seq![d].drop_last() =~= Seq::<char>::empty());
            assert(escape_quotes_seq(seq![d]) == escape_quotes_seq(seq![d].drop_last()) + seq![d]);
            let er2 = escaped(rest2, quotes_only);
            assert(e =~= seq!['\\', d] + er2);
            assert(is_ascii_chars(rest2)) by {
                assert forall|k: int| 0 <= k < rest2.len() implies '\0' <= #[trigger] rest2[k] <= '\u{7f}' by {
                    assert(rest2[k] == t[k + 2]);
                }
            }
            assert(backslashes_kept(rest2)) by {
                assert forall|k: int| 0 <= k < rest2.len() && #[trigger] rest2[k] == '\\' implies k + 1 < rest2.len()
                    && rest2[k + 1] != '\\' && rest2[k + 1] != '"' && rest2[k + 1] != 'n' && rest2[k + 1] != 't' by {
                    assert(t[k + 2] == rest2[k]);
                    assert(t[k + 3] == rest2[k + 1]);
                }
            }
            assert(b[i] == e[0] as u8);
            assert(b[i + 1] == e[1] as u8);
            assert forall|k: int| 0 <= k < er2.len() implies b[i + 2 + k] == (#[trigger] er2[k]) as u8 by {
                assert(e[2 + k] == er2[k]);
            }
            lemma_scan_escaped(b, i + 2, rest2, quotes_only);
            assert(b[i] == BACKSLASH);
            assert(b[i + 1] < 128);
            assert((b[i + 1] as char) == d);
            assert(crate::parse::escape_chars(b[i + 1]) == seq!['\\', d]);
            assert(seq!['\\', d] + rest2 =~= t);
        } else if c == '"' || (c == '\\' && !quotes_only) {
            assert(e =~= seq!['\\', c] + er);
            assert(b[i] == e[0] as u8);
            assert(b[i + 1] == e[1] as u8);
            assert forall|k: int| 0 <= k < er.len() implies b[i + 2 + k] == (#[trigger] er[k]) as u8 by {
                assert(e[2 + k] == er[k]);
            }
            lemma_scan_escaped(b, i + 2, rest, quotes_only);
            if c == '"' {
                assert(b[i + 1] == QUOTE);
            } else {
                assert(b[i + 1] == BACKSLASH);
            }
        } else {
            assert(e =~= seq![c] + er);
            assert(b[i] == e[0] as u8);
            assert forall|k: int| 0 <= k < er.len() implies b[i + 1 + k] == (#[trigger] er[k]) as u8 by {
                assert(e[1 + k] == er[k]);
            }
            lemma_scan_escaped(b, i + 1, rest, quotes_only);
            assert(b[i] != QUOTE);
            assert(b[i] != BACKSLASH);
            assert((b[i] as char) == c);
        }
    }
}

proof fn lemma_trim_ascii(s: Seq<char>)
    requires
        is_ascii_chars(s),
    ensures
        is_ascii_chars(trim_seq(s)),
{
    assert(is_ascii_chars(trim_end_seq(s))) by {
        lemma_trim_end_sub(s);
    }
    lemma_trim_start_sub(trim_end_seq(s));
}

proof fn lemma_trim_end_sub(s: Seq<char>)
    requires
        is_ascii_chars(s),
    ensures
        is_ascii_chars(trim_end_seq(s)),
    decreases s.len(),
{
    if s.len() > 0 && crate::text::is_space(s.last()) {
        assert(is_ascii_chars(s.drop_last())) by {
            assert forall|k: int| 0 <= k < s.drop_last().len() implies '\0' <= #[trigger] s.drop_last()[k]
                <= '\u{7f}' by {
                assert(s.drop_last()[k] == s[k]);
            }
        }
        lemma_trim_end_sub(s.drop_last());
    }
}

proof fn lemma_trim_start_sub(s: Seq<char>)
    requires
        is_ascii_chars(s),
    ensures
        is_ascii_chars(trim_start_seq(s)),
    decreases s.len(),
{
    if s.len() > 0 && crate::text::is_space(s[0]) {
        assert(is_ascii_chars(s.drop_first())) by {
            assert forall|k: int| 0 <= k < s.drop_first().len() implies '\0' <= #[trigger] s.drop_first()[k]
                <= '\u{7f}' by {
                assert(s.drop_first()[k] == s[k + 1]);
            }
        }
        lemma_trim_start_sub(s.drop_first());
    }
}

/// `(rg "t")` with `t` escaped one of the two ways parses as a ripgrep
/// search for `t` with no filters.
proof fn lemma_rg_literal_parses(t: Seq<char>, quotes_only: bool)
    requires
        is_ascii_chars(t),
        quotes_only ==> backslashes_kept(t),
    ensures
        spec_parse("(rg \""@ + escaped(t, quotes_only) + "\")"@)
            == Ok::<ExprV, crate::parse::ParseErrorV>(ExprV::Rg(t, empty_opts())),
{
    let e = escaped(t, quotes_only);
    reveal_strlit("(rg \"");
    reveal_strlit("\")");
    reveal_strlit("rg");
    lemma_escape_ascii(t);
    let w = "(rg \""@ + e + "\")"@;
    let n: int = e.len() as int;
    assert(w.len() == n + 7);
    assert forall|k: int| 0 <= k < n implies #[trigger] w[5 + k] == e[k] by {}
    assert(is_ascii_chars(w)) by {
        assert forall|k: int| 0 <= k < w.len() implies '\0' <= #[trigger] w[k] <= '\u{7f}' by {
            if 5 <= k < 5 + n {
                assert(w[k] == e[k - 5]);
            }
        }
    }
    is_ascii_chars_encode_utf8(w);
    let b = encode_utf8(w);
    assert(b.len() == n + 7);
    assert(b[0] == 40u8) by { assert(w[0] == '('); }
    assert(b[1] == 114u8) by { assert(w[1] == 'r'); }
    assert(b[2] == 103u8) by { assert(w[2] == 'g'); }
    assert(b[3] == 32u8) by { assert(w[3] == ' '); }
    assert(b[4] == 34u8) by { assert(w[4] == '"'); }
    assert(b[5 + n] == 34u8) by { assert(w[5 + n] == '"'); }
    assert(b[6 + n] == 41u8) by { assert(w[6 + n] == ')'); }
    assert forall|k: int| 0 <= k < n implies b[5 + k] == (#[trigger] e[k]) as u8 by {
        assert(b[5 + k] == w[5 + k] as u8);
    }
    lemma_scan_escaped(b, 5, t, quotes_only);
    assert(scan_str(b, 5) == Some((t, 5 + n)));
    assert(lex(b, 7 + n) == Ok::<Seq<TokenV>, crate::parse::ParseErrorV>(seq![]));
    assert(lex(b, 6 + n) == Ok::<Seq<TokenV>, crate::parse::ParseErrorV>(seq![TokenV::Close]));
    assert(lex(b, 4) == Ok::<Seq<TokenV>, crate::parse::ParseErrorV>(seq![TokenV::Str(t), TokenV::Close])) by {
        assert(seq![TokenV::Str(t)] + seq![TokenV::Close] =~= seq![TokenV::Str(t), TokenV::Close]);
    }
    assert(lex(b, 3) == lex(b, 4));
    assert(sym_end(b, 3) == 3);
    assert(sym_end(b, 2) == 3);
    assert(sym_end(b, 1) == 3);
    assert(bytes_chars(b.subrange(1, 3)) =~= "rg"@);
    let ts = seq![TokenV::Open, TokenV::Sym("rg"@), TokenV::Str(t), TokenV::Close];
    assert(lex(b, 1) == Ok::<Seq<TokenV>, crate::parse::ParseErrorV>(ts.drop_first())) by {
        assert(seq![TokenV::Sym("rg"@)] + seq![TokenV::Str(t), TokenV::Close] =~= ts.drop_first());
    }
    assert(lex(b, 0) == Ok::<Seq<TokenV>, crate::parse::ParseErrorV>(ts)) by {
        assert(seq![TokenV::Open] + ts.drop_first() =~= ts);
    }
    assert(spec_tokenize(w) == Ok::<Seq<TokenV>, crate::parse::ParseErrorV>(ts));
    assert(p_opts(ts, 3, empty_opts()) == Ok::<(crate::types::OptsV, int), crate::parse::ParseErrorV>((empty_opts(), 3)));
    assert(p_search(ts, 2, SearchKind::Rg) == Ok::<(ExprV, int), crate::parse::ParseErrorV>((ExprV::Rg(t, empty_opts()), 3)));
    assert(p_body(ts, 0, "rg"@, 2) == Ok::<(ExprV, int), crate::parse::ParseErrorV>((ExprV::Rg(t, empty_opts()), 3)));
    assert(p_form(ts, 0) == Ok::<(ExprV, int), crate::parse::ParseErrorV>((ExprV::Rg(t, empty_opts()), 4)));
    assert(p_expr(ts, 0) == Ok::<(ExprV, int), crate::parse::ParseErrorV>((ExprV::Rg(t, empty_opts()), 4)));
}

/// Auto mode: a plain-text ASCII query (one that does not start with `(`
/// or `;` after trimming) parses as a ripgrep search for the trimmed text,
/// with no filters.
pub proof fn law_auto_wrap_searches_text(q: Seq<char>)
    requires
        is_ascii_chars(q),
        !is_sexp(q),
    ensures
        spec_parse(spec_auto_wrap(q)) == Ok::<ExprV, crate::parse::ParseErrorV>(
            ExprV::Rg(trim_seq(q), empty_opts()),
        ),
{
    lemma_trim_ascii(q);
    lemma_rg_literal_parses(trim_seq(q), false);
}

/// Auto mode keeps an S-expression query as it is.
pub proof fn law_auto_wrap_keeps_sexp(q: Seq<char>)
    requires
        is_sexp(q),
    ensures
        spec_auto_wrap(q) == q,
{
}

/// The grep shorthand: for an ASCII pattern whose backslashes each come
/// before a character that does not form an escape with it (such as
/// `fn\s+main`), the query `-g` builds parses as a ripgrep search for
/// exactly the pattern.
pub proof fn law_grep_query_searches_pattern(pattern: Seq<char>)
    requires
        is_ascii_chars(pattern),
        backslashes_kept(pattern),
    ensures
        spec_parse("(rg \""@ + escape_quotes_seq(pattern) + "\")"@) == Ok::<
            ExprV,
            crate::parse::ParseErrorV,
        >(ExprV::Rg(pattern, empty_opts())),
{
    lemma_rg_literal_parses(pattern, true);
}

} // verus!
