//! The surface syntax: an S-expression tokenizer over the bytes of the
//! query and a recursive-descent parser from tokens to `Expr`.
use vstd::prelude::*;
use crate::types::{Number, ExprV, Expr, Weights, WeightsV, SearchOpts, OptsV, Binding, BatchEntry, BatchOpts, BatchOptsV, empty_opts, exprs_view, bindings_view, entries_view, numbers_view};
use crate::text::{decimal, decimal_seq, digit_char, owned, concat, chars_of, string_of};

verus! {

// ── Errors ──────────────────────────────────────────────────────────

#[derive(Debug)]
pub enum ParseError {
    UnexpectedEof,
    ExpectedClose(usize),
    UnknownForm(String),
    ExpectedString(usize),
    ExpectedNumber(usize),
    Other(String),
}

pub enum ParseErrorV {
    UnexpectedEof,
    ExpectedClose(int),
    UnknownForm(Seq<char>),
    ExpectedString(int),
    ExpectedNumber(int),
    Other(Seq<char>),
}

impl View for ParseError {
    type V = ParseErrorV;

    open spec fn view(&self) -> ParseErrorV {
        match self {
            ParseError::UnexpectedEof => ParseErrorV::UnexpectedEof,
            ParseError::ExpectedClose(p) => ParseErrorV::ExpectedClose(*p as int),
            ParseError::UnknownForm(s) => ParseErrorV::UnknownForm(s@),
            ParseError::ExpectedString(p) => ParseErrorV::ExpectedString(*p as int),
            ParseError::ExpectedNumber(p) => ParseErrorV::ExpectedNumber(*p as int),
            ParseError::Other(s) => ParseErrorV::Other(s@),
        }
    }
}

// ── Tokens ──────────────────────────────────────────────────────────

#[derive(Debug, PartialEq)]
pub enum Token {
    Open,
    Close,
    BracketOpen,
    BracketClose,
    BraceOpen,
    BraceClose,
    Str(String),
    Num(Number),
    Sym(String),
    Keyword(String),
}

pub enum TokenV {
    Open,
    Close,
    BracketOpen,
    BracketClose,
    BraceOpen,
    BraceClose,
    Str(Seq<char>),
    Num(Seq<char>),
    Sym(Seq<char>),
    Keyword(Seq<char>),
}

impl View for Token {
    type V = TokenV;

    open spec fn view(&self) -> TokenV {
        match self {
            Token::Open => TokenV::Open,
            Token::Close => TokenV::Close,
            Token::BracketOpen => TokenV::BracketOpen,
            Token::BracketClose => TokenV::BracketClose,
            Token::BraceOpen => TokenV::BraceOpen,
            Token::BraceClose => TokenV::BraceClose,
            Token::Str(s) => TokenV::Str(s@),
            Token::Num(n) => TokenV::Num(n.literal@),
            Token::Sym(s) => TokenV::Sym(s@),
            Token::Keyword(s) => TokenV::Keyword(s@),
        }
    }
}

pub open spec fn tokens_view(s: Seq<Token>) -> Seq<TokenV> {
    s.map_values(|t: Token| t@)
}

// ASCII codes the tokenizer dispatches on.
pub const SPACE: u8 = 32;
pub const TAB: u8 = 9;
pub const LF: u8 = 10;
pub const CR: u8 = 13;
pub const SEMI: u8 = 59;
pub const LPAREN: u8 = 40;
pub const RPAREN: u8 = 41;
pub const LBRACKET: u8 = 91;
pub const RBRACKET: u8 = 93;
pub const LBRACE: u8 = 123;
pub const RBRACE: u8 = 125;
pub const QUOTE: u8 = 34;
pub const BACKSLASH: u8 = 92;
pub const COLON: u8 = 58;
pub const MINUS: u8 = 45;
pub const DOT: u8 = 46;
pub const LOWER_N: u8 = 110;
pub const LOWER_T: u8 = 116;

pub open spec fn is_digit(c: u8) -> bool {
    48 <= c <= 57
}

/// Bytes that may appear in symbols and keywords.
pub open spec fn is_sym_byte(c: u8) -> bool {
    ||| 97 <= c <= 122
    ||| 65 <= c <= 90
    ||| 48 <= c <= 57
    ||| c == 95
    ||| c == 45
    ||| c == 38
    ||| c == 124
    ||| c == 62
    ||| c == 42
    ||| c == 47
    ||| c == 46
    ||| c == 33
    ||| c == 63
    ||| c == 43
}

pub fn is_sym_char(c: u8) -> (r: bool)
    ensures
        r == is_sym_byte(c),
{
    (97 <= c && c <= 122) || (65 <= c && c <= 90) || (48 <= c && c <= 57) || c == 95 || c == 45
        || c == 38 || c == 124 || c == 62 || c == 42 || c == 47 || c == 46 || c == 33 || c == 63
        || c == 43
}

pub open spec fn is_num_byte(c: u8) -> bool {
    is_digit(c) || c == DOT
}

/// Each byte read as the character with the same code (Latin-1).
pub open spec fn bytes_chars(b: Seq<u8>) -> Seq<char> {
    b.map_values(|x: u8| x as char)
}

/// End of the run of symbol bytes starting at `i`.
pub open spec fn sym_end(b: Seq<u8>, i: int) -> int
    decreases b.len() - i,
{
    if 0 <= i < b.len() && is_sym_byte(b[i]) {
        sym_end(b, i + 1)
    } else {
        i
    }
}

/// End of the run of digits and dots starting at `i`.
pub open spec fn num_end(b: Seq<u8>, i: int) -> int
    decreases b.len() - i,
{
    if 0 <= i < b.len() && is_num_byte(b[i]) {
        num_end(b, i + 1)
    } else {
        i
    }
}

/// Index of the first line feed at or after `i` (or the end).
pub open spec fn line_end(b: Seq<u8>, i: int) -> int
    decreases b.len() - i,
{
    if 0 <= i < b.len() && b[i] != LF {
        line_end(b, i + 1)
    } else {
        i
    }
}

pub proof fn lemma_sym_end(b: Seq<u8>, i: int)
    requires
        0 <= i <= b.len(),
    ensures
        i <= sym_end(b, i) <= b.len(),
        i < b.len() && is_sym_byte(b[i]) ==> i < sym_end(b, i),
        forall|j: int| i <= j < sym_end(b, i) ==> is_sym_byte(#[trigger] b[j]),
        sym_end(b, i) < b.len() ==> !is_sym_byte(b[sym_end(b, i)]),
    decreases b.len() - i,
{
    if i < b.len() && is_sym_byte(b[i]) {
        lemma_sym_end(b, i + 1);
    }
}

pub proof fn lemma_num_end(b: Seq<u8>, i: int)
    requires
        0 <= i <= b.len(),
    ensures
        i <= num_end(b, i) <= b.len(),
        i < b.len() && is_num_byte(b[i]) ==> i < num_end(b, i),
        forall|j: int| i <= j < num_end(b, i) ==> is_num_byte(#[trigger] b[j]),
        num_end(b, i) < b.len() ==> !is_num_byte(b[num_end(b, i)]),
    decreases b.len() - i,
{
    if i < b.len() && is_num_byte(b[i]) {
        lemma_num_end(b, i + 1);
    }
}

pub proof fn lemma_line_end(b: Seq<u8>, i: int)
    requires
        0 <= i <= b.len(),
    ensures
        i <= line_end(b, i) <= b.len(),
    decreases b.len() - i,
{
    if i < b.len() && b[i] != LF {
        lemma_line_end(b, i + 1);
    }
}

/// The characters an escape `\c` stands for inside a string literal.
pub open spec fn escape_chars(c: u8) -> Seq<char> {
    if c == LOWER_N {
        seq!['\n']
    } else if c == LOWER_T {
        seq!['\t']
    } else if c == BACKSLASH {
        seq!['\\']
    } else if c == QUOTE {
        seq!['"']
    } else {
        seq!['\\', c as char]
    }
}

/// End of the run of non-ASCII bytes starting at `i`.
pub open spec fn nonascii_end(b: Seq<u8>, i: int) -> int
    decreases b.len() - i,
{
    if 0 <= i < b.len() && b[i] >= 128 {
        nonascii_end(b, i + 1)
    } else {
        i
    }
}

pub proof fn lemma_nonascii_end(b: Seq<u8>, i: int)
    requires
        0 <= i,
    ensures
        i <= nonascii_end(b, i),
        nonascii_end(b, i) <= b.len() || nonascii_end(b, i) == i,
        forall|k: int| i <= k < nonascii_end(b, i) ==> b[k] >= 128,
        nonascii_end(b, i) < b.len() ==> b[nonascii_end(b, i)] < 128,
        0 <= i < b.len() && b[i] >= 128 ==> i < nonascii_end(b, i) <= b.len(),
    decreases b.len() - i,
{
    if 0 <= i < b.len() && b[i] >= 128 {
        lemma_nonascii_end(b, i + 1);
    }
}

/// Scans the body of a string literal from `i` (just after the opening
/// quote): its text and the index of the closing quote, or `None` when the
/// input ends first. Escapes `\n`, `\t`, `\\` and `\"` stand for a line
/// feed, a tab, a backslash and a quote; a backslash before any other
/// character stays; runs of non-ASCII bytes are decoded as UTF-8.
pub open spec fn scan_str(b: Seq<u8>, i: int) -> Option<(Seq<char>, int)>
    decreases b.len() - i,
{
    if i < 0 || i >= b.len() {
        None
    } else if b[i] == QUOTE {
        Some((seq![], i))
    } else if b[i] == BACKSLASH && i + 1 < b.len() && b[i + 1] < 128 {
        match scan_str(b, i + 2) {
            Some((s, e)) => Some((escape_chars(b[i + 1]) + s, e)),
            None => None,
        }
    } else if b[i] < 128 {
        match scan_str(b, i + 1) {
            Some((s, e)) => Some((seq![b[i] as char] + s, e)),
            None => None,
        }
    } else {
        let k = nonascii_end(b, i);
        proof {
            lemma_nonascii_end(b, i);
        }
        match scan_str(b, k) {
            Some((s, e)) => Some((vstd::utf8::decode_utf8(b.subrange(i, k)) + s, e)),
            None => None,
        }
    }
}

pub proof fn lemma_scan_str(b: Seq<u8>, i: int)
    ensures
        scan_str(b, i) matches Some((s, e)) ==> 0 <= i <= e < b.len() && b[e] == QUOTE,
    decreases b.len() - i,
{
    if 0 <= i < b.len() && b[i] != QUOTE {
        if b[i] == BACKSLASH && i + 1 < b.len() && b[i + 1] < 128 {
            lemma_scan_str(b, i + 2);
        } else if b[i] < 128 {
            lemma_scan_str(b, i + 1);
        } else {
            lemma_nonascii_end(b, i);
            lemma_scan_str(b, nonascii_end(b, i));
        }
    }
}

/// In valid UTF-8, the bytes after an ASCII byte are valid UTF-8.
proof fn lemma_valid_after_ascii(b: Seq<u8>, i: int)
    requires
        vstd::utf8::valid_utf8(b),
        0 < i <= b.len(),
        b[i - 1] < 128,
    ensures
        vstd::utf8::valid_utf8(b.subrange(i, b.len() as int)),
{
    vstd::utf8::is_char_boundary_iff_not_is_continuation_byte(b, i - 1);
    vstd::utf8::valid_utf8_split(b, i - 1);
    let t = b.subrange(i - 1, b.len() as int);
    assert(t[0] == b[i - 1]);
    assert(vstd::utf8::pop_first_scalar(t) =~= b.subrange(i, b.len() as int));
}

/// A run of non-ASCII bytes right after an ASCII byte, ending at an ASCII
/// byte or at the end, is valid UTF-8.
proof fn lemma_valid_run(b: Seq<u8>, i: int, k: int)
    requires
        vstd::utf8::valid_utf8(b),
        0 < i <= k <= b.len(),
        b[i - 1] < 128,
        k < b.len() ==> b[k] < 128,
    ensures
        vstd::utf8::valid_utf8(b.subrange(i, k)),
{
    lemma_valid_after_ascii(b, i);
    let t = b.subrange(i, b.len() as int);
    if k < b.len() {
        assert(t[k - i] == b[k]);
        vstd::utf8::is_char_boundary_iff_not_is_continuation_byte(t, k - i);
    } else {
        vstd::utf8::is_char_boundary_start_end_of_seq(t);
    }
    vstd::utf8::valid_utf8_split(t, k - i);
    assert(t.subrange(0, k - i) =~= b.subrange(i, k));
}

/// `str::from_utf8` on `bytes[from..to]`, copied into a `String`: the
/// decoded text when the bytes are valid UTF-8, nothing otherwise.
#[verifier::external_body]
fn utf8_text(bytes: &[u8], from: usize, to: usize) -> (r: Option<String>)
    requires
        from <= to <= bytes@.len(),
    ensures
        r is Some == vstd::utf8::valid_utf8(bytes@.subrange(from as int, to as int)),
        r matches Some(t) ==> t@ == vstd::utf8::decode_utf8(bytes@.subrange(from as int, to as int)),
{
    std::str::from_utf8(&bytes[from..to]).ok().map(|t| t.to_string())
}

pub open spec fn count_dots(s: Seq<u8>) -> nat
    decreases s.len(),
{
    if s.len() == 0 {
        0
    } else {
        count_dots(s.drop_last()) + if s.last() == DOT {
            1nat
        } else {
            0nat
        }
    }
}

pub open spec fn count_digits(s: Seq<u8>) -> nat
    decreases s.len(),
{
    if s.len() == 0 {
        0
    } else {
        count_digits(s.drop_last()) + if is_digit(s.last()) {
            1nat
        } else {
            0nat
        }
    }
}

/// Whether a run `-?[0-9.]+` has the syntax of a floating-point number:
/// at most one decimal point and at least one digit.
pub open spec fn valid_number(lit: Seq<u8>) -> bool {
    let body = if lit.len() > 0 && lit[0] == MINUS {
        lit.drop_first()
    } else {
        lit
    };
    count_dots(body) <= 1 && count_digits(body) >= 1
}

pub open spec fn unterminated_msg(start: int) -> Seq<char> {
    "unterminated string starting at "@ + decimal_seq(start as nat)
}

pub open spec fn unexpected_char_msg(c: u8, pos: int) -> Seq<char> {
    "unexpected character '"@ + seq![c as char] + "' at position "@ + decimal_seq(pos as nat)
}

pub open spec fn cons_tok(t: TokenV, r: Result<Seq<TokenV>, ParseErrorV>) -> Result<
    Seq<TokenV>,
    ParseErrorV,
> {
    match r {
        Ok(ts) => Ok(seq![t] + ts),
        Err(e) => Err(e),
    }
}

pub open spec fn cons_all(p: Seq<TokenV>, r: Result<Seq<TokenV>, ParseErrorV>) -> Result<
    Seq<TokenV>,
    ParseErrorV,
> {
    match r {
        Ok(ts) => Ok(p + ts),
        Err(e) => Err(e),
    }
}

/// The tokens of the bytes from position `i` on.
pub open spec fn lex(b: Seq<u8>, i: int) -> Result<Seq<TokenV>, ParseErrorV>
    decreases b.len() - i,
{
    if i < 0 || i >= b.len() {
        Ok(seq![])
    } else {
        let c = b[i];
        if c == SPACE || c == TAB || c == LF || c == CR {
            lex(b, i + 1)
        } else if c == SEMI {
            proof {
                lemma_line_end(b, i + 1);
            }
            lex(b, line_end(b, i + 1))
        } else if c == LPAREN {
            cons_tok(TokenV::Open, lex(b, i + 1))
        } else if c == RPAREN {
            cons_tok(TokenV::Close, lex(b, i + 1))
        } else if c == LBRACKET {
            cons_tok(TokenV::BracketOpen, lex(b, i + 1))
        } else if c == RBRACKET {
            cons_tok(TokenV::BracketClose, lex(b, i + 1))
        } else if c == LBRACE {
            cons_tok(TokenV::BraceOpen, lex(b, i + 1))
        } else if c == RBRACE {
            cons_tok(TokenV::BraceClose, lex(b, i + 1))
        } else if c == QUOTE {
            proof {
                lemma_scan_str(b, i + 1);
            }
            match scan_str(b, i + 1) {
                None => Err(ParseErrorV::Other(unterminated_msg(i + 1))),
                Some((s, e)) => cons_tok(TokenV::Str(s), lex(b, e + 1)),
            }
        } else if c == COLON {
            proof {
                lemma_sym_end(b, i + 1);
            }
            let e = sym_end(b, i + 1);
            cons_tok(TokenV::Keyword(bytes_chars(b.subrange(i + 1, e))), lex(b, e))
        } else if c == MINUS || c == DOT || is_digit(c) {
            if c == MINUS && (i + 1 >= b.len() || !is_digit(b[i + 1])) {
                cons_tok(TokenV::Sym(seq!['-']), lex(b, i + 1))
            } else {
                let j = if c == MINUS {
                    i + 1
                } else {
                    i
                };
                proof {
                    lemma_num_end(b, j);
                }
                let e = num_end(b, j);
                let lit = b.subrange(i, e);
                if valid_number(lit) {
                    cons_tok(TokenV::Num(bytes_chars(lit)), lex(b, e))
                } else {
                    Err(ParseErrorV::ExpectedNumber(i))
                }
            }
        } else if is_sym_byte(c) {
            proof {
                lemma_sym_end(b, i);
            }
            let e = sym_end(b, i);
            cons_tok(TokenV::Sym(bytes_chars(b.subrange(i, e))), lex(b, e))
        } else {
            Err(ParseErrorV::Other(unexpected_char_msg(c, i)))
        }
    }
}

/// The tokens of a query: `lex` over its UTF-8 bytes.
pub open spec fn spec_tokenize(input: Seq<char>) -> Result<Seq<TokenV>, ParseErrorV> {
    lex(vstd::utf8::encode_utf8(input), 0)
}

proof fn lemma_cons_all_step(p: Seq<TokenV>, t: TokenV, r: Result<Seq<TokenV>, ParseErrorV>)
    ensures
        cons_all(p, cons_tok(t, r)) == cons_all(p.push(t), r),
{
    match r {
        Ok(ts) => {
            assert(p + (seq![t] + ts) =~= p.push(t) + ts);
        },
        Err(e) => {},
    }
}

fn string_of_bytes(b: &[u8], from: usize, to: usize) -> (r: String)
    requires
        from <= to <= b@.len(),
    ensures
        r@ == bytes_chars(b@.subrange(from as int, to as int)),
{
    let mut out = String::new();
    let mut k = from;
    while k < to
        invariant
            from <= k <= to <= b@.len(),
            out@ == bytes_chars(b@.subrange(from as int, k as int)),
        decreases to - k,
    {
        out.push(b[k] as char);
        k = k + 1;
        assert(out@ =~= bytes_chars(b@.subrange(from as int, k as int)));
    }
    out
}

fn number_syntax_ok(b: &[u8], from: usize, to: usize) -> (r: bool)
    requires
        from <= to <= b@.len(),
    ensures
        r == valid_number(b@.subrange(from as int, to as int)),
{
    let ghost lit = b@.subrange(from as int, to as int);
    let start = if from < to && b[from] == MINUS {
        from + 1
    } else {
        from
    };
    let ghost body = b@.subrange(start as int, to as int);
    proof {
        if from < to && b[from as int] == MINUS {
            assert(body =~= lit.drop_first());
        } else {
            assert(body =~= lit);
        }
    }
    let mut dots: usize = 0;
    let mut digits: usize = 0;
    let mut k = start;
    while k < to
        invariant
            start <= k <= to <= b@.len(),
            body == b@.subrange(start as int, to as int),
            dots == count_dots(b@.subrange(start as int, k as int)),
            digits == count_digits(b@.subrange(start as int, k as int)),
            dots <= k - start,
            digits <= k - start,
        decreases to - k,
    {
        proof {
            assert(b@.subrange(start as int, k + 1).drop_last() =~= b@.subrange(
                start as int,
                k as int,
            ));
            reveal_with_fuel(count_dots, 2);
            reveal_with_fuel(count_digits, 2);
        }
        if b[k] == DOT {
            dots = dots + 1;
        }
        if 48 <= b[k] && b[k] <= 57 {
            digits = digits + 1;
        }
        k = k + 1;
    }
    dots <= 1 && digits >= 1
}

fn unterminated(start: usize) -> (e: ParseError)
    ensures
        e@ == ParseErrorV::Other(unterminated_msg(start as int)),
{
    let mut m = owned("unterminated string starting at ");
    let d = decimal(start as u64);
    ParseError::Other(concat(&m, &d))
}

fn unexpected_char(c: u8, pos: usize) -> (e: ParseError)
    ensures
        e@ == ParseErrorV::Other(unexpected_char_msg(c, pos as int)),
{
    let mut m = owned("unexpected character '");
    m.push(c as char);
    let m2 = concat(&m, &owned("' at position "));
    let d = decimal(pos as u64);
    let r = concat(&m2, &d);
    assert(r@ =~= unexpected_char_msg(c, pos as int));
    ParseError::Other(r)
}

// ── String literals read back their text ────────────────────────────

/// The number of leading non-ASCII characters of `s`.
pub open spec fn nonascii_prefix(s: Seq<char>) -> nat
    decreases s.len(),
{
    if s.len() > 0 && s[0] > '\u{7f}' {
        1 + nonascii_prefix(s.drop_first())
    } else {
        0
    }
}

proof fn lemma_nonascii_prefix(s: Seq<char>)
    ensures
        nonascii_prefix(s) <= s.len(),
        forall|k: int| 0 <= k < nonascii_prefix(s) ==> #[trigger] s[k] > '\u{7f}',
        nonascii_prefix(s) < s.len() ==> s[nonascii_prefix(s) as int] <= '\u{7f}',
    decreases s.len(),
{
    if s.len() > 0 && s[0] > '\u{7f}' {
        lemma_nonascii_prefix(s.drop_first());
        assert forall|k: int| 0 <= k < nonascii_prefix(s) implies #[trigger] s[k] > '\u{7f}' by {
            if k > 0 {
                assert(s[k] == s.drop_first()[k - 1]);
            }
        }
    }
}

/// An ASCII character's byte is below 128 and reads back as the character.
proof fn lemma_ascii_char(c: char)
    requires
        c <= '\u{7f}',
    ensures
        (c as u8) < 128,
        (c as u8) as char == c,
        (c as u32) < 128,
{
    assert('\0' <= c <= '\u{7f}');
}

/// The encoding of two texts one after the other is their encodings one
/// after the other.
proof fn lemma_encode_concat(a: Seq<char>, b: Seq<char>)
    ensures
        vstd::utf8::encode_utf8(a + b) == vstd::utf8::encode_utf8(a) + vstd::utf8::encode_utf8(b),
    decreases a.len(),
{
    if a.len() == 0 {
        assert(a + b =~= b);
    } else {
        assert((a + b).drop_first() =~= a.drop_first() + b);
        assert((a + b)[0] == a[0]);
        lemma_encode_concat(a.drop_first(), b);
    }
}

/// An ASCII character is encoded as its own byte; every byte of a
/// non-ASCII character's encoding is at least 128.
proof fn lemma_encode_scalar_bytes(c: char)
    ensures
        c <= '\u{7f}' ==> vstd::utf8::encode_scalar(c as u32) == seq![c as u8],
        c > '\u{7f}' ==> forall|k: int|
            0 <= k < vstd::utf8::encode_scalar(c as u32).len() ==> #[trigger] vstd::utf8::encode_scalar(c as u32)[k] >= 128,
{
    let u = c as u32;
    if u < 128 {
        assert(u as u8 == vstd::utf8::leading_byte_width_1(u)) by (bit_vector)
            requires
                u < 128,
        ;
    } else {
        let e = vstd::utf8::encode_scalar(u);
        assert(vstd::utf8::leading_byte_width_2(u) >= 128) by (bit_vector);
        assert(vstd::utf8::leading_byte_width_3(u) >= 128) by (bit_vector);
        assert(vstd::utf8::leading_byte_width_4(u) >= 128) by (bit_vector);
        assert(vstd::utf8::last_continuation_byte(u) >= 128) by (bit_vector);
        assert(vstd::utf8::second_last_continuation_byte(u) >= 128) by (bit_vector);
        assert(vstd::utf8::third_last_continuation_byte(u) >= 128) by (bit_vector);
    }
}

/// Every byte of the encoding of non-ASCII characters is at least 128.
proof fn lemma_encode_nonascii(r: Seq<char>)
    requires
        forall|k: int| 0 <= k < r.len() ==> #[trigger] r[k] > '\u{7f}',
    ensures
        forall|k: int|
            0 <= k < vstd::utf8::encode_utf8(r).len() ==> #[trigger] vstd::utf8::encode_utf8(r)[k] >= 128,
    decreases r.len(),
{
    if r.len() > 0 {
        let rest = r.drop_first();
        assert forall|k: int| 0 <= k < rest.len() implies #[trigger] rest[k] > '\u{7f}' by {
            assert(rest[k] == r[k + 1]);
        }
        lemma_encode_nonascii(rest);
        assert(r[0] > '\u{7f}');
        lemma_encode_scalar_bytes(r[0]);
        let h = vstd::utf8::encode_scalar(r[0] as u32);
        assert forall|k: int| 0 <= k < vstd::utf8::encode_utf8(r).len() implies #[trigger] vstd::utf8::encode_utf8(
            r,
        )[k] >= 128 by {
            if k < h.len() {
                assert(vstd::utf8::encode_utf8(r)[k] == h[k]);
            } else {
                assert(vstd::utf8::encode_utf8(r)[k] == vstd::utf8::encode_utf8(rest)[k - h.len()]);
            }
        }
    }
}

/// A run of bytes of at least 128 from `i`, ended at `j` by a smaller
/// byte or the end, is the run `nonascii_end` finds.
proof fn lemma_nonascii_end_at(b: Seq<u8>, i: int, j: int)
    requires
        0 <= i <= j <= b.len(),
        forall|k: int| i <= k < j ==> #[trigger] b[k] >= 128,
        j < b.len() ==> b[j] < 128,
    ensures
        nonascii_end(b, i) == j,
    decreases j - i,
{
    if i < j {
        lemma_nonascii_end_at(b, i + 1, j);
    }
}

/// `scan_str` reads back a text without quotes or backslashes from its
/// UTF-8 encoding, up to the quote after it.
proof fn lemma_scan_encoded(b: Seq<u8>, i: int, s: Seq<char>)
    requires
        !s.contains('"'),
        !s.contains('\\'),
        0 <= i,
        i + vstd::utf8::encode_utf8(s).len() < b.len(),
        b.subrange(i, i + vstd::utf8::encode_utf8(s).len()) == vstd::utf8::encode_utf8(s),
        b[i + vstd::utf8::encode_utf8(s).len()] == QUOTE,
    ensures
        scan_str(b, i) == Some((s, i + vstd::utf8::encode_utf8(s).len())),
    decreases s.len(),
{
    let e = vstd::utf8::encode_utf8(s);
    if s.len() == 0 {
        assert(b[i] == QUOTE);
    } else if s[0] <= '\u{7f}' {
        let c = s[0];
        let rest = s.drop_first();
        lemma_encode_scalar_bytes(c);
        assert(e == seq![c as u8] + vstd::utf8::encode_utf8(rest));
        let er = vstd::utf8::encode_utf8(rest);
        assert(b[i] == e[0]);
        assert(b.subrange(i + 1, i + 1 + er.len()) =~= er) by {
            assert forall|k: int| 0 <= k < er.len() implies b.subrange(i + 1, i + 1 + er.len())[k] == er[k] by {
                assert(b[i + 1 + k] == b.subrange(i, i + e.len())[1 + k]);
                assert(e[1 + k] == er[k]);
            }
        }
        assert(!rest.contains('"') && !rest.contains('\\')) by {
            if rest.contains('"') {
                let k = choose|k: int| 0 <= k < rest.len() && rest[k] == '"';
                assert(s[k + 1] == '"');
            }
            if rest.contains('\\') {
                let k = choose|k: int| 0 <= k < rest.len() && rest[k] == '\\';
                assert(s[k + 1] == '\\');
            }
        }
        lemma_scan_encoded(b, i + 1, rest);
        assert(c != '"' && c != '\\') by {
            assert(s[0] == c);
        }
        lemma_ascii_char(c);
        assert(b[i] != QUOTE && b[i] != BACKSLASH && b[i] < 128);
        assert(seq![b[i] as char] + rest =~= s);
    } else {
        lemma_nonascii_prefix(s);
        let n = nonascii_prefix(s) as int;
        assert(n > 0);
        let r = s.take(n);
        let s2 = s.skip(n);
        assert(s =~= r + s2);
        lemma_encode_concat(r, s2);
        let er = vstd::utf8::encode_utf8(r);
        let e2 = vstd::utf8::encode_utf8(s2);
        assert(forall|k: int| 0 <= k < r.len() ==> #[trigger] r[k] > '\u{7f}') by {
            assert forall|k: int| 0 <= k < r.len() implies #[trigger] r[k] > '\u{7f}' by {
                assert(r[k] == s[k]);
            }
        }
        lemma_encode_nonascii(r);
        assert(er.len() > 0) by {
            assert(r.len() > 0);
            assert(vstd::utf8::encode_scalar(r[0] as u32).len() > 0);
        }
        let j = i + er.len();
        assert forall|k: int| i <= k < j implies #[trigger] b[k] >= 128 by {
            assert(b[k] == b.subrange(i, i + e.len())[k - i]);
            assert(e[k - i] == er[k - i]);
        }
        if s2.len() > 0 {
            assert(s2[0] == s[n]);
            lemma_encode_scalar_bytes(s2[0]);
            assert(e2[0] == s2[0] as u8);
            assert(b[j] == b.subrange(i, i + e.len())[er.len() as int]);
            lemma_ascii_char(s2[0]);
            assert(b[j] < 128);
        } else {
            assert(e2.len() == 0);
            assert(b[j] == QUOTE);
        }
        lemma_nonascii_end_at(b, i, j);
        assert(b.subrange(i, j) =~= er) by {
            assert forall|k: int| 0 <= k < er.len() implies b.subrange(i, j)[k] == er[k] by {
                assert(b[i + k] == b.subrange(i, i + e.len())[k]);
            }
        }
        vstd::utf8::encode_utf8_decode_utf8(r);
        assert(b.subrange(j, j + e2.len()) =~= e2) by {
            assert forall|k: int| 0 <= k < e2.len() implies b.subrange(j, j + e2.len())[k] == e2[k] by {
                assert(b[j + k] == b.subrange(i, i + e.len())[er.len() + k]);
            }
        }
        assert(!s2.contains('"') && !s2.contains('\\')) by {
            if s2.contains('"') {
                let k = choose|k: int| 0 <= k < s2.len() && s2[k] == '"';
                assert(s[n + k] == '"');
            }
            if s2.contains('\\') {
                let k = choose|k: int| 0 <= k < s2.len() && s2[k] == '\\';
                assert(s[n + k] == '\\');
            }
        }
        lemma_scan_encoded(b, j, s2);
        assert(b[i] >= 128);
    }
}

/// A string literal whose text has no quote and no backslash (non-ASCII
/// text included) is read as one string token holding exactly that text.
pub proof fn law_plain_string_literal_is_its_text(s: Seq<char>)
    requires
        !s.contains('"'),
        !s.contains('\\'),
    ensures
        spec_tokenize(seq!['"'] + s + seq!['"']) == Ok::<Seq<TokenV>, ParseErrorV>(seq![TokenV::Str(s)]),
{
    let q = seq!['"'];
    let w = q + s + q;
    lemma_encode_concat(q + s, q);
    lemma_encode_concat(q, s);
    reveal_with_fuel(vstd::utf8::encode_utf8, 2);
    assert(q.drop_first() =~= Seq::<char>::empty());
    lemma_encode_scalar_bytes('"');
    let eq = vstd::utf8::encode_utf8(q);
    assert(eq =~= seq![QUOTE]);
    let es = vstd::utf8::encode_utf8(s);
    let b = vstd::utf8::encode_utf8(w);
    assert(b == eq + es + eq);
    let l = es.len() as int;
    assert(b.len() == l + 2);
    assert(b.subrange(1, 1 + l) =~= es);
    assert(b[1 + l] == QUOTE);
    lemma_scan_encoded(b, 1, s);
    assert(lex(b, l + 2) == Ok::<Seq<TokenV>, ParseErrorV>(seq![]));
    assert(b[0] == QUOTE);
    assert(seq![TokenV::Str(s)] + seq![] =~= seq![TokenV::Str(s)]);
}

/// Splits a query into tokens.
pub fn tokenize(input: &str) -> (r: Result<Vec<Token>, ParseError>)
    ensures
        match r {
            Ok(ts) => spec_tokenize(input@) == Ok::<Seq<TokenV>, ParseErrorV>(tokens_view(ts@)),
            Err(e) => spec_tokenize(input@) == Err::<Seq<TokenV>, ParseErrorV>(e@),
        },
{
    let bytes = input.as_bytes();
    let ghost b = bytes@;
    let mut tokens: Vec<Token> = Vec::new();
    let mut i: usize = 0;
    let n = bytes.len();
    proof {
        assert(tokens_view(tokens@) =~= seq![]);
        assert(cons_all(seq![], lex(b, 0)) == lex(b, 0)) by {
            match lex(b, 0) {
                Ok(ts) => {
                    assert(seq![] + ts =~= ts);
                },
                Err(_) => {},
            }
        }
    }
    while i < n
        invariant
            n == b.len(),
            b == bytes@,
            b == vstd::utf8::encode_utf8(input@),
            i <= n,
            lex(b, 0) == cons_all(tokens_view(tokens@), lex(b, i as int)),
        decreases n - i,
    {
        let c = bytes[i];
        if c == SPACE || c == TAB || c == LF || c == CR {
            i = i + 1;
        } else if c == SEMI {
            let mut j = i + 1;
            while j < n && bytes[j] != LF
                invariant
                    i < j <= n,
                    n == b.len(),
                    b == bytes@,
                    line_end(b, j as int) == line_end(b, i + 1),
                decreases n - j,
            {
                j = j + 1;
            }
            i = j;
        } else if c == LPAREN || c == RPAREN || c == LBRACKET || c == RBRACKET || c == LBRACE || c
            == RBRACE {
            let t = if c == LPAREN {
                Token::Open
            } else if c == RPAREN {
                Token::Close
            } else if c == LBRACKET {
                Token::BracketOpen
            } else if c == RBRACKET {
                Token::BracketClose
            } else if c == LBRACE {
                Token::BraceOpen
            } else {
                Token::BraceClose
            };
            proof {
                lemma_cons_all_step(tokens_view(tokens@), t@, lex(b, i + 1));
                assert(tokens_view(tokens@.push(t)) =~= tokens_view(tokens@).push(t@));
            }
            tokens.push(t);
            i = i + 1;
        } else if c == QUOTE {
            let start = i + 1;
            let mut s = String::new();
            let mut j = start;
            proof {
                vstd::utf8::encode_utf8_valid_utf8(input@);
            }
            proof {
                match scan_str(b, start as int) {
                    Some((x, e)) => {
                        assert(seq![] + x =~= x);
                    },
                    None => {},
                }
            }
            while j < n && bytes[j] != QUOTE
                invariant
                    start <= j <= n,
                    n == b.len(),
                    b == bytes@,
                    vstd::utf8::valid_utf8(b),
                    0 < j,
                    b[j - 1] < 128 || j == n || b[j as int] < 128,
                    scan_str(b, start as int) == match scan_str(b, j as int) {
                        Some((x, e)) => Some((s@ + x, e)),
                        None => None,
                    },
                decreases n - j,
            {
                let ghost s0 = s@;
                if bytes[j] == BACKSLASH && j + 1 < n && bytes[j + 1] < 128 {
                    let e = bytes[j + 1];
                    if e == LOWER_N {
                        s.push('\n');
                    } else if e == LOWER_T {
                        s.push('\t');
                    } else if e == BACKSLASH {
                        s.push('\\');
                    } else if e == QUOTE {
                        s.push('"');
                    } else {
                        s.push('\\');
                        s.push(e as char);
                    }
                    proof {
                        assert(s@ =~= s0 + escape_chars(e));
                        match scan_str(b, j + 2) {
                            Some((x, f)) => {
                                assert(s0 + (escape_chars(e) + x) =~= s@ + x);
                            },
                            None => {},
                        }
                    }
                    j = j + 2;
                } else if bytes[j] < 128 {
                    s.push(bytes[j] as char);
                    proof {
                        match scan_str(b, j + 1) {
                            Some((x, f)) => {
                                assert(s0 + (seq![b[j as int] as char] + x) =~= s@ + x);
                            },
                            None => {},
                        }
                    }
                    j = j + 1;
                } else {
                    let mut k = j;
                    while k < n && bytes[k] >= 128
                        invariant
                            j <= k <= n,
                            n == b.len(),
                            b == bytes@,
                            nonascii_end(b, k as int) == nonascii_end(b, j as int),
                        decreases n - k,
                    {
                        k = k + 1;
                    }
                    proof {
                        assert(b[j - 1] < 128);
                        lemma_nonascii_end(b, j as int);
                        lemma_valid_run(b, j as int, k as int);
                    }
                    let piece = match utf8_text(bytes, j, k) {
                        Some(t) => t,
                        None => String::new(),
                    };
                    s = concat(&s, &piece);
                    proof {
                        let d = vstd::utf8::decode_utf8(b.subrange(j as int, k as int));
                        match scan_str(b, k as int) {
                            Some((x, f)) => {
                                assert(s0 + (d + x) =~= s@ + x);
                            },
                            None => {},
                        }
                    }
                    j = k;
                }
            }
            if j >= n {
                return Err(unterminated(start));
            }
            proof {
                assert(scan_str(b, j as int) == Some((Seq::<char>::empty(), j as int)));
                assert(s@ + Seq::<char>::empty() =~= s@);
                let t = TokenV::Str(s@);
                lemma_cons_all_step(tokens_view(tokens@), t, lex(b, j + 1));
            }
            let t = Token::Str(s);
            proof {
                assert(tokens_view(tokens@.push(t)) =~= tokens_view(tokens@).push(t@));
            }
            tokens.push(t);
            i = j + 1;
        } else if c == COLON {
            let mut j = i + 1;
            while j < n && is_sym_char(bytes[j])
                invariant
                    i < j <= n,
                    n == b.len(),
                    b == bytes@,
                    sym_end(b, j as int) == sym_end(b, i + 1),
                decreases n - j,
            {
                j = j + 1;
            }
            let kw = string_of_bytes(bytes, i + 1, j);
            let t = Token::Keyword(kw);
            proof {
                lemma_cons_all_step(tokens_view(tokens@), t@, lex(b, j as int));
                assert(tokens_view(tokens@.push(t)) =~= tokens_view(tokens@).push(t@));
            }
            tokens.push(t);
            i = j;
        } else if c == MINUS || c == DOT || (48 <= c && c <= 57) {
            if c == MINUS && (i + 1 >= n || !(48 <= bytes[i + 1] && bytes[i + 1] <= 57)) {
                let mut m = String::new();
                m.push('-');
                let t = Token::Sym(m);
                proof {
                    assert(m@ =~= seq!['-']);
                    lemma_cons_all_step(tokens_view(tokens@), t@, lex(b, i + 1));
                    assert(tokens_view(tokens@.push(t)) =~= tokens_view(tokens@).push(t@));
                }
                tokens.push(t);
                i = i + 1;
            } else {
                let start = i;
                let mut j = if c == MINUS {
                    i + 1
                } else {
                    i
                };
                let ghost j0 = j;
                while j < n && ((48 <= bytes[j] && bytes[j] <= 57) || bytes[j] == DOT)
                    invariant
                        j0 <= j <= n,
                        n == b.len(),
                        b == bytes@,
                        num_end(b, j as int) == num_end(b, j0 as int),
                    decreases n - j,
                {
                    j = j + 1;
                }
                proof {
                    lemma_num_end(b, j0 as int);
                }
                if !number_syntax_ok(bytes, start, j) {
                    return Err(ParseError::ExpectedNumber(start));
                }
                let lit = string_of_bytes(bytes, start, j);
                let t = Token::Num(Number { literal: lit });
                proof {
                    lemma_cons_all_step(tokens_view(tokens@), t@, lex(b, j as int));
                    assert(tokens_view(tokens@.push(t)) =~= tokens_view(tokens@).push(t@));
                }
                tokens.push(t);
                i = j;
            }
        } else if is_sym_char(c) {
            let mut j = i;
            while j < n && is_sym_char(bytes[j])
                invariant
                    i <= j <= n,
                    n == b.len(),
                    b == bytes@,
                    sym_end(b, j as int) == sym_end(b, i as int),
                decreases n - j,
            {
                j = j + 1;
            }
            let sym = string_of_bytes(bytes, i, j);
            let t = Token::Sym(sym);
            proof {
                lemma_sym_end(b, i as int);
                lemma_cons_all_step(tokens_view(tokens@), t@, lex(b, j as int));
                assert(tokens_view(tokens@.push(t)) =~= tokens_view(tokens@).push(t@));
            }
            tokens.push(t);
            i = j;
        } else {
            return Err(unexpected_char(c, i));
        }
    }
    proof {
        match lex(b, i as int) {
            Ok(ts) => {
                assert(tokens_view(tokens@) + seq![] =~= tokens_view(tokens@));
            },
            Err(_) => {},
        }
    }
    Ok(tokens)
}


// ── Rendering tokens in messages ────────────────────────────────────

/// Characters that `char::escape_debug` shows as `\u{..}`, among the
/// characters a token can hold (each stands for one input byte).
pub open spec fn is_unprintable(c: char) -> bool {
    (c as u32) < 0x20 || (0x7f <= (c as u32) <= 0x9f) || (c as u32) == 0xad
}

pub open spec fn hex_digit_char(d: nat) -> char {
    if d < 10 {
        digit_char(d)
    } else if d == 10 {
        'a'
    } else if d == 11 {
        'b'
    } else if d == 12 {
        'c'
    } else if d == 13 {
        'd'
    } else if d == 14 {
        'e'
    } else {
        'f'
    }
}

/// Lower-case hexadecimal notation without leading zeros.
pub open spec fn hex_seq(n: nat) -> Seq<char>
    decreases n,
{
    if n < 16 {
        seq![hex_digit_char(n)]
    } else {
        hex_seq(n / 16).push(hex_digit_char(n % 16))
    }
}

/// How `{:?}` writes one character inside a string.
pub open spec fn debug_char(c: char) -> Seq<char> {
    if c == '\0' {
        seq!['\\', '0']
    } else if c == '\t' {
        seq!['\\', 't']
    } else if c == '\r' {
        seq!['\\', 'r']
    } else if c == '\n' {
        seq!['\\', 'n']
    } else if c == '\\' {
        seq!['\\', '\\']
    } else if c == '"' {
        seq!['\\', '"']
    } else if is_unprintable(c) {
        seq!['\\', 'u', '{'] + hex_seq(c as nat) + seq!['}']
    } else {
        seq![c]
    }
}

pub open spec fn debug_chars(s: Seq<char>) -> Seq<char>
    decreases s.len(),
{
    if s.len() == 0 {
        seq![]
    } else {
        debug_chars(s.drop_last()) + debug_char(s.last())
    }
}

/// How `{:?}` writes a string: quoted, with escapes.
pub open spec fn debug_str(s: Seq<char>) -> Seq<char> {
    seq!['"'] + debug_chars(s) + seq!['"']
}

// ── Numbers as `{:?}` writes them ───────────────────────────────────

/// `n` zero digits.
pub open spec fn zeros(n: nat) -> Seq<char> {
    Seq::new(n, |_i: int| '0')
}

/// The index of the first `.` of `b` from `i` on, or the end.
pub open spec fn dot_from(b: Seq<char>, i: int) -> int
    decreases b.len() - i,
{
    if 0 <= i < b.len() && b[i] != '.' {
        dot_from(b, i + 1)
    } else {
        i
    }
}

/// The end of the run of `0` digits of `s` from `i` on.
pub open spec fn zeros_from(s: Seq<char>, i: int) -> int
    decreases s.len() - i,
{
    if 0 <= i < s.len() && s[i] == '0' {
        zeros_from(s, i + 1)
    } else {
        i
    }
}

/// The start of the run of `0` digits of `s` that ends at `j`.
pub open spec fn zeros_before(s: Seq<char>, j: int) -> int
    decreases j,
{
    if 0 < j <= s.len() && s[j - 1] == '0' {
        zeros_before(s, j - 1)
    } else {
        j
    }
}

/// The shortest form of a number with significant digits `ds` (no
/// leading or trailing zero) and decimal exponent `e` (the value is
/// `d.ddd × 10^e`), as `{:?}` writes an `f64`: positional with at least one
/// fractional digit for `-4 <= e <= 15`, else scientific.
pub open spec fn float_form(ds: Seq<char>, e: int) -> Seq<char> {
    if -4 <= e <= 15 {
        if e >= 0 {
            if ds.len() > e + 1 {
                ds.take(e + 1) + seq!['.'] + ds.skip(e + 1)
            } else {
                ds + zeros((e + 1 - ds.len()) as nat) + seq!['.', '0']
            }
        } else {
            seq!['0', '.'] + zeros((-e - 1) as nat) + ds
        }
    } else {
        seq![ds[0]] + (if ds.len() > 1 {
            seq!['.'] + ds.skip(1)
        } else {
            seq![]
        }) + seq!['e'] + (if e < 0 {
            seq!['-']
        } else {
            seq![]
        }) + decimal_seq((if e < 0 {
            -e
        } else {
            e
        }) as nat)
    }
}

/// Whether a number literal starts with a minus sign.
pub open spec fn num_negative(n: Seq<char>) -> bool {
    n.len() > 0 && n[0] == '-'
}

/// A number literal without its sign.
pub open spec fn num_body(n: Seq<char>) -> Seq<char> {
    if num_negative(n) {
        n.drop_first()
    } else {
        n
    }
}

/// The digits of a number literal, without its sign and decimal point.
pub open spec fn num_digits(n: Seq<char>) -> Seq<char> {
    let b = num_body(n);
    let d = dot_from(b, 0);
    if d < b.len() {
        b.take(d) + b.skip(d + 1)
    } else {
        b
    }
}

/// A number literal (`-?[0-9.]+`) as `{:?}` writes the `f64` it is read
/// as. A literal of at most 15 significant digits with a decimal exponent
/// within ±307 reads exactly as its own shortest form, which this gives;
/// any other literal is given as written.
pub open spec fn number_debug(n: Seq<char>) -> Seq<char> {
    let all = num_digits(n);
    let lz = zeros_from(all, 0);
    let sign = if num_negative(n) {
        seq!['-']
    } else {
        seq![]
    };
    if lz >= all.len() {
        sign + seq!['0', '.', '0']
    } else {
        let te = zeros_before(all, all.len() as int);
        let e = dot_from(num_body(n), 0) - lz - 1;
        if te - lz > 15 || e < -307 || e > 307 {
            n
        } else {
            sign + float_form(all.subrange(lz, te), e)
        }
    }
}

proof fn lemma_dot_from(b: Seq<char>, i: int)
    requires
        0 <= i <= b.len(),
    ensures
        i <= dot_from(b, i) <= b.len(),
    decreases b.len() - i,
{
    if i < b.len() && b[i] != '.' {
        lemma_dot_from(b, i + 1);
    }
}

proof fn lemma_zeros_from(s: Seq<char>, i: int)
    requires
        0 <= i <= s.len(),
    ensures
        i <= zeros_from(s, i) <= s.len(),
        zeros_from(s, i) < s.len() ==> s[zeros_from(s, i)] != '0',
    decreases s.len() - i,
{
    if i < s.len() && s[i] == '0' {
        lemma_zeros_from(s, i + 1);
    }
}

fn push_range(out: &mut Vec<char>, src: &Vec<char>, from: usize, to: usize)
    requires
        from <= to <= src@.len(),
    ensures
        final(out)@ == old(out)@ + src@.subrange(from as int, to as int),
{
    let ghost start = out@;
    let mut k = from;
    while k < to
        invariant
            from <= k <= to <= src@.len(),
            out@ == start + src@.subrange(from as int, k as int),
        decreases to - k,
    {
        out.push(src[k]);
        k = k + 1;
        assert(out@ =~= start + src@.subrange(from as int, k as int));
    }
}

fn push_zeros(out: &mut Vec<char>, n: usize)
    ensures
        final(out)@ == old(out)@ + zeros(n as nat),
{
    let ghost start = out@;
    for k in 0..n
        invariant
            out@ == start + zeros(k as nat),
    {
        out.push('0');
        assert(out@ =~= start + zeros((k + 1) as nat));
    }
}

/// The sign, the length of the integer part and the digits of a number
/// literal.
fn split_number(c: &Vec<char>) -> (r: (bool, usize, Vec<char>))
    ensures
        r.0 == num_negative(c@),
        r.1 == dot_from(num_body(c@), 0),
        r.2@ == num_digits(c@),
{
    let neg = c.len() > 0 && c[0] == '-';
    let start: usize = if neg {
        1
    } else {
        0
    };
    let ghost b = num_body(c@);
    assert(b =~= c@.subrange(start as int, c@.len() as int));
    let mut d = start;
    proof {
        lemma_dot_from(b, 0);
    }
    while d < c.len() && c[d] != '.'
        invariant
            start <= d <= c@.len(),
            b == c@.subrange(start as int, c@.len() as int),
            dot_from(b, 0) == dot_from(b, d - start),
        decreases c.len() - d,
    {
        assert(b[d - start] == c@[d as int]);
        d = d + 1;
    }
    proof {
        if d < c.len() {
            assert(b[d - start] == c@[d as int]);
        }
    }
    let ghost dd = dot_from(b, 0);
    assert(dd == d - start);
    let mut all: Vec<char> = Vec::new();
    push_range(&mut all, c, start, d);
    if d < c.len() {
        push_range(&mut all, c, d + 1, c.len());
        assert(all@ =~= b.take(dd) + b.skip(dd + 1));
    } else {
        assert(all@ =~= b);
    }
    (neg, d - start, all)
}

/// Writes the scientific form of the digits `all[lz..te]` with the
/// exponent `mag` (negated unless `nonneg`).
fn push_scientific(out: &mut Vec<char>, all: &Vec<char>, lz: usize, te: usize, nonneg: bool, mag: usize)
    requires
        lz < te <= all@.len(),
        mag <= 307,
        !nonneg ==> mag >= 1,
        !(nonneg && mag <= 15),
        !(!nonneg && mag <= 4),
    ensures
        final(out)@ == old(out)@ + float_form(
            all@.subrange(lz as int, te as int),
            if nonneg {
                mag as int
            } else {
                -(mag as int)
            },
        ),
{
    let ghost ds = all@.subrange(lz as int, te as int);
    let ghost e: int = if nonneg {
        mag as int
    } else {
        -(mag as int)
    };
    let ghost o0 = out@;
    out.push(all[lz]);
    let ghost o1 = out@;
    if te - lz > 1 {
        out.push('.');
        push_range(out, all, lz + 1, te);
    }
    assert(out@ =~= o1 + (if ds.len() > 1 {
        seq!['.'] + ds.skip(1)
    } else {
        seq![]
    }));
    out.push('e');
    let ghost o2 = out@;
    if !nonneg {
        out.push('-');
    }
    assert(out@ =~= o2 + (if e < 0 {
        seq!['-']
    } else {
        seq![]
    }));
    assert((if e < 0 {
        -e
    } else {
        e
    }) == mag);
    let dec = decimal(mag as u64);
    let dc = chars_of(dec.as_str());
    push_range(out, &dc, 0, dc.len());
    assert(dc@.subrange(0, dc@.len() as int) =~= dc@);
    assert(out@ =~= o0 + float_form(ds, e));
}

/// Writes `float_form` of the digits `all[lz..te]` with the exponent
/// `mag` (negated unless `nonneg`).
fn push_float_form(out: &mut Vec<char>, all: &Vec<char>, lz: usize, te: usize, nonneg: bool, mag: usize)
    requires
        lz < te <= all@.len(),
        mag <= 307,
        !nonneg ==> mag >= 1,
    ensures
        final(out)@ == old(out)@ + float_form(
            all@.subrange(lz as int, te as int),
            if nonneg {
                mag as int
            } else {
                -(mag as int)
            },
        ),
{
    let ghost ds = all@.subrange(lz as int, te as int);
    let ghost e: int = if nonneg {
        mag as int
    } else {
        -(mag as int)
    };
    let ghost o0 = out@;
    let ndig = te - lz;
    if nonneg && mag <= 15 {
        if ndig > mag + 1 {
            push_range(out, all, lz, lz + mag + 1);
            out.push('.');
            push_range(out, all, lz + mag + 1, te);
            assert(out@ =~= o0 + (ds.take(e + 1) + seq!['.'] + ds.skip(e + 1)));
        } else {
            push_range(out, all, lz, te);
            push_zeros(out, mag + 1 - ndig);
            out.push('.');
            out.push('0');
            assert(out@ =~= o0 + (ds + zeros((e + 1 - ds.len()) as nat) + seq!['.', '0']));
        }
    } else if !nonneg && mag <= 4 {
        out.push('0');
        out.push('.');
        push_zeros(out, mag - 1);
        push_range(out, all, lz, te);
        assert(out@ =~= o0 + (seq!['0', '.'] + zeros((-e - 1) as nat) + ds));
    } else {
        push_scientific(out, all, lz, te, nonneg, mag);
    }
}

/// A number literal as `{:?}` writes the `f64` it is read as (see
/// `number_debug`).
pub fn number_description(lit: &String) -> (r: String)
    ensures
        r@ == number_debug(lit@),
{
    let c = chars_of(lit.as_str());
    let (neg, int_len, all) = split_number(&c);
    let mut lz: usize = 0;
    while lz < all.len() && all[lz] == '0'
        invariant
            lz <= all@.len(),
            zeros_from(all@, 0) == zeros_from(all@, lz as int),
        decreases all.len() - lz,
    {
        lz = lz + 1;
    }
    proof {
        lemma_zeros_from(all@, 0);
    }
    let mut out: Vec<char> = Vec::new();
    if neg {
        out.push('-');
    }
    let ghost sign = out@;
    assert(sign =~= (if neg {
        seq!['-']
    } else {
        seq![]
    }));
    if lz == all.len() {
        out.push('0');
        out.push('.');
        out.push('0');
        assert(out@ =~= sign + seq!['0', '.', '0']);
        return string_of(&out);
    }
    let mut te: usize = all.len();
    while all[te - 1] == '0'
        invariant
            lz < te <= all@.len(),
            all@[lz as int] != '0',
            zeros_before(all@, all@.len() as int) == zeros_before(all@, te as int),
        decreases te,
    {
        te = te - 1;
    }
    assert(zeros_before(all@, te as int) == te);
    let nonneg = int_len >= lz + 1;
    let mag: usize = if nonneg {
        int_len - lz - 1
    } else {
        lz + 1 - int_len
    };
    if te - lz > 15 || mag > 307 {
        return lit.clone();
    }
    push_float_form(&mut out, &all, lz, te, nonneg, mag);
    string_of(&out)
}

/// The description of a token in an "unknown form" message: its variant
/// name and its contents, as `{:?}` writes them.
pub open spec fn token_debug(t: TokenV) -> Seq<char> {
    match t {
        TokenV::Open => "Open"@,
        TokenV::Close => "Close"@,
        TokenV::BracketOpen => "BracketOpen"@,
        TokenV::BracketClose => "BracketClose"@,
        TokenV::BraceOpen => "BraceOpen"@,
        TokenV::BraceClose => "BraceClose"@,
        TokenV::Str(s) => "Str("@ + debug_str(s) + ")"@,
        TokenV::Num(n) => "Num("@ + number_debug(n) + ")"@,
        TokenV::Sym(s) => "Sym("@ + debug_str(s) + ")"@,
        TokenV::Keyword(s) => "Keyword("@ + debug_str(s) + ")"@,
    }
}

fn hex_digit(d: u32) -> (c: char)
    requires
        d < 16,
    ensures
        c == hex_digit_char(d as nat),
{
    if d == 0 {
        '0'
    } else if d == 1 {
        '1'
    } else if d == 2 {
        '2'
    } else if d == 3 {
        '3'
    } else if d == 4 {
        '4'
    } else if d == 5 {
        '5'
    } else if d == 6 {
        '6'
    } else if d == 7 {
        '7'
    } else if d == 8 {
        '8'
    } else if d == 9 {
        '9'
    } else if d == 10 {
        'a'
    } else if d == 11 {
        'b'
    } else if d == 12 {
        'c'
    } else if d == 13 {
        'd'
    } else if d == 14 {
        'e'
    } else {
        'f'
    }
}

fn push_hex(out: &mut String, n: u32)
    ensures
        final(out)@ == old(out)@ + hex_seq(n as nat),
    decreases n,
{
    if n < 16 {
        out.push(hex_digit(n));
        assert(final(out)@ =~= old(out)@ + hex_seq(n as nat));
    } else {
        push_hex(out, n / 16);
        out.push(hex_digit(n % 16));
        assert(final(out)@ =~= old(out)@ + hex_seq(n as nat));
    }
}

fn push_debug_char(out: &mut String, c: char)
    ensures
        final(out)@ == old(out)@ + debug_char(c),
{
    let ghost o = out@;
    if c == '\0' {
        out.push('\\');
        out.push('0');
    } else if c == '\t' {
        out.push('\\');
        out.push('t');
    } else if c == '\r' {
        out.push('\\');
        out.push('r');
    } else if c == '\n' {
        out.push('\\');
        out.push('n');
    } else if c == '\\' {
        out.push('\\');
        out.push('\\');
    } else if c == '"' {
        out.push('\\');
        out.push('"');
    } else if (c as u32) < 0x20 || (0x7f <= (c as u32) && (c as u32) <= 0x9f) || (c as u32)
        == 0xad {
        out.push('\\');
        out.push('u');
        out.push('{');
        push_hex(out, c as u32);
        out.push('}');
    } else {
        out.push(c);
    }
    assert(final(out)@ =~= o + debug_char(c));
}

fn push_debug_str(out: &mut String, s: &String)
    ensures
        final(out)@ == old(out)@ + debug_str(s@),
{
    let ghost o = out@;
    let cs = crate::text::chars_of(s.as_str());
    out.push('"');
    for i in 0..cs.len()
        invariant
            cs@ == s@,
            out@ == o + seq!['"'] + debug_chars(s@.subrange(0, i as int)),
    {
        let ghost before = out@;
        push_debug_char(out, cs[i]);
        proof {
            assert(s@.subrange(0, i + 1).drop_last() =~= s@.subrange(0, i as int));
            assert(out@ =~= o + seq!['"'] + debug_chars(s@.subrange(0, i + 1)));
        }
    }
    out.push('"');
    assert(s@.subrange(0, s@.len() as int) =~= s@);
    assert(out@ =~= o + debug_str(s@));
}

fn token_description(t: &Token) -> (r: String)
    ensures
        r@ == token_debug(t@),
{
    match t {
        Token::Open => owned("Open"),
        Token::Close => owned("Close"),
        Token::BracketOpen => owned("BracketOpen"),
        Token::BracketClose => owned("BracketClose"),
        Token::BraceOpen => owned("BraceOpen"),
        Token::BraceClose => owned("BraceClose"),
        Token::Str(s) => {
            let mut out = owned("Str(");
            push_debug_str(&mut out, s);
            let r = concat(&out, &owned(")"));
            r
        },
        Token::Num(n) => {
            let out = concat(&owned("Num("), &number_description(&n.literal));
            concat(&out, &owned(")"))
        },
        Token::Sym(s) => {
            let mut out = owned("Sym(");
            push_debug_str(&mut out, s);
            concat(&out, &owned(")"))
        },
        Token::Keyword(s) => {
            let mut out = owned("Keyword(");
            push_debug_str(&mut out, s);
            concat(&out, &owned(")"))
        },
    }
}


// ── Grammar ─────────────────────────────────────────────────────────

/// Which search primitive a `(name "query" ...)` form builds.
pub enum SearchKind {
    Rg,
    Lex,
    Sem,
}

pub open spec fn search_expr(kind: SearchKind, q: Seq<char>, o: OptsV) -> ExprV {
    match kind {
        SearchKind::Rg => ExprV::Rg(q, o),
        SearchKind::Lex => ExprV::Lex(q, o),
        SearchKind::Sem => ExprV::Sem(q, o),
    }
}

pub open spec fn unexpected_token_msg(p: int) -> Seq<char> {
    "unexpected token at position "@ + decimal_seq(p as nat)
}

pub open spec fn let_bracket_msg(p: int) -> Seq<char> {
    "expected '[' in let at position "@ + decimal_seq(p as nat)
}

pub open spec fn var_name_msg(p: int) -> Seq<char> {
    "expected variable name at position "@ + decimal_seq(p as nat)
}

pub open spec fn unknown_keyword_msg(kw: Seq<char>) -> Seq<char> {
    "unknown keyword :"@ + kw
}

pub open spec fn trailing_msg(p: int) -> Seq<char> {
    "trailing tokens at position "@ + decimal_seq(p as nat)
}

pub open spec fn is_close(ts: Seq<TokenV>, p: int) -> bool {
    0 <= p < ts.len() && ts[p] is Close
}

pub open spec fn is_bracket_close(ts: Seq<TokenV>, p: int) -> bool {
    0 <= p < ts.len() && ts[p] is BracketClose
}

/// A keyword filter applied to the options, or `None` for an unknown
/// keyword.
pub open spec fn apply_keyword(o: OptsV, kw: Seq<char>, v: Seq<char>) -> Option<OptsV> {
    if kw == "in"@ {
        Some(OptsV { scope: Some(v), ..o })
    } else if kw == "lang"@ {
        Some(OptsV { lang: Some(v), ..o })
    } else if kw == "x"@ {
        Some(OptsV { exclude: o.exclude.push(v), ..o })
    } else if kw == "i"@ {
        Some(OptsV { includes: o.includes.push(v), ..o })
    } else {
        None
    }
}

/// `:keyword "value"` pairs from `p` on.
pub open spec fn p_opts(ts: Seq<TokenV>, p: int, o: OptsV) -> Result<(OptsV, int), ParseErrorV>
    decreases ts.len() - p,
{
    if 0 <= p < ts.len() && ts[p] is Keyword {
        let kw = ts[p]->Keyword_0;
        if p + 1 >= ts.len() {
            Err(ParseErrorV::UnexpectedEof)
        } else {
            match ts[p + 1] {
                TokenV::Str(v) => match apply_keyword(o, kw, v) {
                    Some(o2) => p_opts(ts, p + 2, o2),
                    None => Err(ParseErrorV::Other(unknown_keyword_msg(kw))),
                },
                _ => Err(ParseErrorV::ExpectedString(p + 1)),
            }
        }
    } else {
        Ok((o, p))
    }
}

// ── Repeated filters accumulate ─────────────────────────────────────

/// The tokens `:kw "v1" :kw "v2" ...` for the values `vs`.
pub open spec fn keyword_pairs(kw: Seq<char>, vs: Seq<Seq<char>>) -> Seq<TokenV>
    decreases vs.len(),
{
    if vs.len() == 0 {
        seq![]
    } else {
        keyword_pairs(kw, vs.drop_last()) + seq![TokenV::Keyword(kw), TokenV::Str(vs.last())]
    }
}

proof fn lemma_keyword_pairs(kw: Seq<char>, vs: Seq<Seq<char>>)
    ensures
        keyword_pairs(kw, vs).len() == 2 * (vs.len() as int),
        forall|j: int| 0 <= j < vs.len() ==> #[trigger] keyword_pairs(kw, vs)[2 * j] == TokenV::Keyword(kw),
        forall|j: int| 0 <= j < vs.len() ==> keyword_pairs(kw, vs)[2 * j + 1] == TokenV::Str(#[trigger] vs[j]),
    decreases vs.len(),
{
    if vs.len() > 0 {
        let d = vs.drop_last();
        lemma_keyword_pairs(kw, d);
        let k = keyword_pairs(kw, vs);
        assert forall|j: int| 0 <= j < vs.len() implies #[trigger] k[2 * j] == TokenV::Keyword(kw) by {
            if j < d.len() {
                assert(k[2 * j] == keyword_pairs(kw, d)[2 * j]);
            }
        }
        assert forall|j: int| 0 <= j < vs.len() implies k[2 * j + 1] == TokenV::Str(#[trigger] vs[j]) by {
            if j < d.len() {
                assert(k[2 * j + 1] == keyword_pairs(kw, d)[2 * j + 1]);
                assert(vs[j] == d[j]);
            }
        }
    }
}

proof fn lemma_glob_pairs(ts: Seq<TokenV>, vs: Seq<Seq<char>>, inclusive: bool, o: OptsV, j: int)
    requires
        0 <= j <= vs.len(),
        ts.len() >= 2 * (vs.len() as int),
        ts.subrange(0, 2 * (vs.len() as int)) == keyword_pairs(if inclusive { "i"@ } else { "x"@ }, vs),
        ts.len() > 2 * (vs.len() as int) ==> !(ts[2 * (vs.len() as int)] is Keyword),
    ensures
        p_opts(
            ts,
            2 * j,
            if inclusive {
                OptsV { includes: o.includes + vs.take(j), ..o }
            } else {
                OptsV { exclude: o.exclude + vs.take(j), ..o }
            },
        ) == Ok::<(OptsV, int), ParseErrorV>(
            (
                if inclusive {
                    OptsV { includes: o.includes + vs, ..o }
                } else {
                    OptsV { exclude: o.exclude + vs, ..o }
                },
                2 * (vs.len() as int),
            ),
        ),
    decreases vs.len() - j,
{
    let kw = if inclusive { "i"@ } else { "x"@ };
    reveal_strlit("in");
    reveal_strlit("lang");
    reveal_strlit("x");
    reveal_strlit("i");
    assert(vs.take(vs.len() as int) =~= vs);
    if j < vs.len() {
        lemma_keyword_pairs(kw, vs);
        assert(ts[2 * j] == keyword_pairs(kw, vs)[2 * j]);
        assert(ts[2 * j + 1] == keyword_pairs(kw, vs)[2 * j + 1]);
        assert(ts[2 * j] == TokenV::Keyword(kw));
        assert(ts[2 * j + 1] == TokenV::Str(vs[j]));
        assert(vs.take(j).push(vs[j]) =~= vs.take(j + 1));
        assert(o.exclude + vs.take(j + 1) =~= (o.exclude + vs.take(j)).push(vs[j]));
        assert(o.includes + vs.take(j + 1) =~= (o.includes + vs.take(j)).push(vs[j]));
        assert("i"@ != "in"@ && "i"@ != "lang"@ && "i"@ != "x"@ && "x"@ != "in"@ && "x"@ != "lang"@) by {
            assert("i"@.len() == 1 && "in"@.len() == 2 && "lang"@.len() == 4 && "x"@.len() == 1);
            assert("i"@[0] != "x"@[0]);
        }
        lemma_glob_pairs(ts, vs, inclusive, o, j + 1);
    }
}

/// Repeated `:x` options all apply: after `:x "g1" :x "g2" ...` the
/// exclude globs are the earlier ones followed by `g1`, `g2`, ... in
/// order, and nothing else changes.
pub proof fn law_exclude_globs_accumulate(vs: Seq<Seq<char>>, rest: Seq<TokenV>, o: OptsV)
    requires
        rest.len() > 0 ==> !(rest[0] is Keyword),
    ensures
        p_opts(keyword_pairs("x"@, vs) + rest, 0, o) == Ok::<(OptsV, int), ParseErrorV>(
            (OptsV { exclude: o.exclude + vs, ..o }, 2 * (vs.len() as int)),
        ),
{
    let ts = keyword_pairs("x"@, vs) + rest;
    lemma_keyword_pairs("x"@, vs);
    assert(ts.subrange(0, 2 * (vs.len() as int)) =~= keyword_pairs("x"@, vs));
    if ts.len() > 2 * (vs.len() as int) {
        assert(ts[2 * (vs.len() as int)] == rest[0]);
    }
    assert(vs.take(0) =~= Seq::<Seq<char>>::empty());
    assert(o.exclude + vs.take(0) =~= o.exclude);
    assert(OptsV { exclude: o.exclude + vs.take(0), ..o } == o);
    lemma_glob_pairs(ts, vs, false, o, 0);
}

/// Repeated `:i` options all apply: after `:i "g1" :i "g2" ...` the
/// inclusive globs are the earlier ones followed by `g1`, `g2`, ... in
/// order, and nothing else changes.
pub proof fn law_include_globs_accumulate(vs: Seq<Seq<char>>, rest: Seq<TokenV>, o: OptsV)
    requires
        rest.len() > 0 ==> !(rest[0] is Keyword),
    ensures
        p_opts(keyword_pairs("i"@, vs) + rest, 0, o) == Ok::<(OptsV, int), ParseErrorV>(
            (OptsV { includes: o.includes + vs, ..o }, 2 * (vs.len() as int)),
        ),
{
    let ts = keyword_pairs("i"@, vs) + rest;
    lemma_keyword_pairs("i"@, vs);
    assert(ts.subrange(0, 2 * (vs.len() as int)) =~= keyword_pairs("i"@, vs));
    if ts.len() > 2 * (vs.len() as int) {
        assert(ts[2 * (vs.len() as int)] == rest[0]);
    }
    assert(vs.take(0) =~= Seq::<Seq<char>>::empty());
    assert(o.includes + vs.take(0) =~= o.includes);
    assert(OptsV { includes: o.includes + vs.take(0), ..o } == o);
    lemma_glob_pairs(ts, vs, true, o, 0);
}

/// `"query" :keyword "value" ...` of a search form.
pub open spec fn p_search(ts: Seq<TokenV>, p: int, kind: SearchKind) -> Result<
    (ExprV, int),
    ParseErrorV,
> {
    if p < 0 || p >= ts.len() {
        Err(ParseErrorV::UnexpectedEof)
    } else {
        match ts[p] {
            TokenV::Str(q) => match p_opts(ts, p + 1, empty_opts()) {
                Ok((o, r)) => Ok((search_expr(kind, q, o), r)),
                Err(e) => Err(e),
            },
            _ => Err(ParseErrorV::ExpectedString(p)),
        }
    }
}

/// Numbers up to the closing `]` of a weight list.
pub open spec fn p_weights(ts: Seq<TokenV>, p: int) -> Result<(Seq<Seq<char>>, int), ParseErrorV>
    decreases ts.len() - p,
{
    if is_bracket_close(ts, p) {
        Ok((seq![], p))
    } else if p < 0 || p >= ts.len() {
        Err(ParseErrorV::UnexpectedEof)
    } else {
        match ts[p] {
            TokenV::Num(n) => match p_weights(ts, p + 1) {
                Ok((ws, r)) => Ok((seq![n] + ws, r)),
                Err(e) => Err(e),
            },
            _ => Err(ParseErrorV::ExpectedNumber(p)),
        }
    }
}

/// One expression starting at token `p`, and the position after it.
pub open spec fn p_expr(ts: Seq<TokenV>, p: int) -> Result<(ExprV, int), ParseErrorV>
    decreases ts.len() - p, 3nat,
{
    if p < 0 || p >= ts.len() {
        Err(ParseErrorV::UnexpectedEof)
    } else {
        match ts[p] {
            TokenV::Open => p_form(ts, p),
            TokenV::Sym(n) => Ok((ExprV::Var(n), p + 1)),
            _ => Err(ParseErrorV::Other(unexpected_token_msg(p))),
        }
    }
}

/// Expressions up to the next `)`.
pub open spec fn p_children(ts: Seq<TokenV>, p: int) -> Result<(Seq<ExprV>, int), ParseErrorV>
    decreases ts.len() - p, 4nat,
{
    if is_close(ts, p) {
        Ok((seq![], p))
    } else if p < 0 || p >= ts.len() {
        Err(ParseErrorV::UnexpectedEof)
    } else {
        match p_expr(ts, p) {
            Ok((e, r)) => if p < r <= ts.len() {
                match p_children(ts, r) {
                    Ok((es, r2)) => Ok((seq![e] + es, r2)),
                    Err(x) => Err(x),
                }
            } else {
                Err(ParseErrorV::UnexpectedEof)
            },
            Err(x) => Err(x),
        }
    }
}

/// `name expr` pairs up to the next `]`.
pub open spec fn p_bindings(ts: Seq<TokenV>, p: int) -> Result<
    (Seq<(Seq<char>, ExprV)>, int),
    ParseErrorV,
>
    decreases ts.len() - p, 4nat,
{
    if is_bracket_close(ts, p) {
        Ok((seq![], p))
    } else if p < 0 || p >= ts.len() {
        Err(ParseErrorV::UnexpectedEof)
    } else {
        match ts[p] {
            TokenV::Sym(n) => match p_expr(ts, p + 1) {
                Ok((v, r)) => if p < r <= ts.len() {
                    match p_bindings(ts, r) {
                        Ok((bs, r2)) => Ok((seq![(n, v)] + bs, r2)),
                        Err(x) => Err(x),
                    }
                } else {
                    Err(ParseErrorV::UnexpectedEof)
                },
                Err(x) => Err(x),
            },
            _ => Err(ParseErrorV::Other(var_name_msg(p))),
        }
    }
}

/// `[w ...] child ...` or `child ...` of a `mix` form, from `q`.
pub open spec fn p_mix(ts: Seq<TokenV>, q: int) -> Result<(ExprV, int), ParseErrorV>
    decreases ts.len() - q, 5nat,
{
    if 0 <= q < ts.len() && ts[q] is BracketOpen {
        match p_weights(ts, q + 1) {
            Ok((ws, r)) => if !(q < r < ts.len()) {
                Err(ParseErrorV::UnexpectedEof)
            } else {
                match p_children(ts, r + 1) {
                    Ok((cs, r2)) => Ok((ExprV::Mix(WeightsV::Explicit(ws), cs), r2)),
                    Err(x) => Err(x),
                }
            },
            Err(x) => Err(x),
        }
    } else {
        match p_children(ts, q) {
            Ok((cs, r)) => Ok((ExprV::Mix(WeightsV::Equal, cs), r)),
            Err(x) => Err(x),
        }
    }
}

/// `[name expr ...] body` of a `let` form, from `q`.
pub open spec fn p_let(ts: Seq<TokenV>, q: int) -> Result<(ExprV, int), ParseErrorV>
    decreases ts.len() - q, 5nat,
{
    if q < 0 || q >= ts.len() {
        Err(ParseErrorV::UnexpectedEof)
    } else if ts[q] is BracketOpen {
        match p_bindings(ts, q + 1) {
            Ok((bs, r)) => if !(q < r < ts.len()) {
                Err(ParseErrorV::UnexpectedEof)
            } else {
                match p_expr(ts, r + 1) {
                    Ok((body, r2)) => Ok((ExprV::Let(bs, Box::new(body)), r2)),
                    Err(x) => Err(x),
                }
            },
            Err(x) => Err(x),
        }
    } else {
        Err(ParseErrorV::Other(let_bracket_msg(q)))
    }
}

pub open spec fn is_brace_close(ts: Seq<TokenV>, p: int) -> bool {
    0 <= p < ts.len() && ts[p] is BraceClose
}

pub open spec fn batch_label_msg(p: int) -> Seq<char> {
    "expected batch label at position "@ + decimal_seq(p as nat)
}

pub open spec fn no_batch_opts() -> BatchOptsV {
    BatchOptsV { top: None, threshold: None }
}

/// `:top n` and `:threshold t` options up to the closing `}`; a later
/// option of the same name wins.
pub open spec fn p_batch_opts(ts: Seq<TokenV>, p: int, o: BatchOptsV) -> Result<(BatchOptsV, int), ParseErrorV>
    decreases ts.len() - p,
{
    if is_brace_close(ts, p) {
        Ok((o, p))
    } else if p < 0 || p >= ts.len() {
        Err(ParseErrorV::UnexpectedEof)
    } else {
        match ts[p] {
            TokenV::Keyword(kw) => if p + 1 >= ts.len() {
                Err(ParseErrorV::UnexpectedEof)
            } else {
                match ts[p + 1] {
                    TokenV::Num(n) => if kw == "top"@ {
                        p_batch_opts(ts, p + 2, BatchOptsV { top: Some(n), ..o })
                    } else if kw == "threshold"@ {
                        p_batch_opts(ts, p + 2, BatchOptsV { threshold: Some(n), ..o })
                    } else {
                        Err(ParseErrorV::Other(unknown_keyword_msg(kw)))
                    },
                    _ => Err(ParseErrorV::ExpectedNumber(p + 1)),
                }
            },
            _ => Err(ParseErrorV::Other(unexpected_token_msg(p))),
        }
    }
}

/// `:label expr` entries up to the next `)`.
pub open spec fn p_entries(ts: Seq<TokenV>, p: int) -> Result<(Seq<(Seq<char>, ExprV)>, int), ParseErrorV>
    decreases ts.len() - p, 4nat,
{
    if is_close(ts, p) {
        Ok((seq![], p))
    } else if p < 0 || p >= ts.len() {
        Err(ParseErrorV::UnexpectedEof)
    } else {
        match ts[p] {
            TokenV::Keyword(label) => match p_expr(ts, p + 1) {
                Ok((e, r)) => if p < r <= ts.len() {
                    match p_entries(ts, r) {
                        Ok((es, r2)) => Ok((seq![(label, e)] + es, r2)),
                        Err(x) => Err(x),
                    }
                } else {
                    Err(ParseErrorV::UnexpectedEof)
                },
                Err(x) => Err(x),
            },
            _ => Err(ParseErrorV::Other(batch_label_msg(p))),
        }
    }
}

/// An entry under batch options: `(top k (> t e))`, each part only when
/// its option is given.
pub open spec fn wrap_entry(e: ExprV, o: BatchOptsV) -> ExprV {
    let e1 = match o.threshold {
        Some(t) => ExprV::Threshold(t, Box::new(e)),
        None => e,
    };
    match o.top {
        Some(k) => ExprV::Top(k, Box::new(e1)),
        None => e1,
    }
}

pub open spec fn wrap_entries(es: Seq<(Seq<char>, ExprV)>, o: BatchOptsV) -> Seq<(Seq<char>, ExprV)> {
    es.map_values(|x: (Seq<char>, ExprV)| (x.0, wrap_entry(x.1, o)))
}

/// `{options} :label expr ...` or `:label expr ...` of a `batch` form,
/// from `q`.
pub open spec fn p_batch(ts: Seq<TokenV>, q: int) -> Result<(ExprV, int), ParseErrorV>
    decreases ts.len() - q, 5nat,
{
    if 0 <= q < ts.len() && ts[q] is BraceOpen {
        match p_batch_opts(ts, q + 1, no_batch_opts()) {
            Ok((o, r)) => if !(q < r < ts.len()) {
                Err(ParseErrorV::UnexpectedEof)
            } else {
                match p_entries(ts, r + 1) {
                    Ok((es, r2)) => Ok((ExprV::Batch(wrap_entries(es, o)), r2)),
                    Err(x) => Err(x),
                }
            },
            Err(x) => Err(x),
        }
    } else {
        match p_entries(ts, q) {
            Ok((es, r)) => Ok((ExprV::Batch(wrap_entries(es, no_batch_opts())), r)),
            Err(x) => Err(x),
        }
    }
}

/// The `)` that ends a form.
pub open spec fn p_close(ts: Seq<TokenV>, p: int, e: ExprV) -> Result<(ExprV, int), ParseErrorV> {
    if p < 0 || p >= ts.len() {
        Err(ParseErrorV::UnexpectedEof)
    } else if ts[p] is Close {
        Ok((e, p + 1))
    } else {
        Err(ParseErrorV::ExpectedClose(p))
    }
}

/// Two expressions in a row, for `-` and `pipe`.
pub open spec fn p_pair(ts: Seq<TokenV>, p: int, q: int) -> Result<
    (ExprV, ExprV, int),
    ParseErrorV,
>
    decreases ts.len() - p, 0nat,
{
    if p < q <= ts.len() {
        match p_expr(ts, q) {
            Ok((l, r1)) => if q < r1 <= ts.len() {
                match p_expr(ts, r1) {
                    Ok((r, r2)) => Ok((l, r, r2)),
                    Err(x) => Err(x),
                }
            } else {
                Err(ParseErrorV::UnexpectedEof)
            },
            Err(x) => Err(x),
        }
    } else {
        Err(ParseErrorV::UnexpectedEof)
    }
}

/// The body of a form after its head symbol, starting at `q`.
pub open spec fn p_body(ts: Seq<TokenV>, p: int, head: Seq<char>, q: int) -> Result<
    (ExprV, int),
    ParseErrorV,
>
    decreases ts.len() - p, 1nat,
{
    if !(p < q <= ts.len()) {
        Err(ParseErrorV::UnexpectedEof)
    } else if head == "rg"@ {
        p_search(ts, q, SearchKind::Rg)
    } else if head == "lex"@ {
        p_search(ts, q, SearchKind::Lex)
    } else if head == "sem"@ {
        p_search(ts, q, SearchKind::Sem)
    } else if head == "&"@ {
        match p_children(ts, q) {
            Ok((cs, r)) => Ok((ExprV::And(cs), r)),
            Err(x) => Err(x),
        }
    } else if head == "|"@ {
        match p_children(ts, q) {
            Ok((cs, r)) => Ok((ExprV::Or(cs), r)),
            Err(x) => Err(x),
        }
    } else if head == "mix"@ {
        p_mix(ts, q)
    } else if head == "-"@ {
        match p_pair(ts, p, q) {
            Ok((l, r, e)) => Ok((ExprV::Diff(Box::new(l), Box::new(r)), e)),
            Err(x) => Err(x),
        }
    } else if head == "pipe"@ {
        match p_pair(ts, p, q) {
            Ok((l, r, e)) => Ok((ExprV::Pipe(Box::new(l), Box::new(r)), e)),
            Err(x) => Err(x),
        }
    } else if head == "top"@ || head == ">"@ {
        if q >= ts.len() {
            Err(ParseErrorV::UnexpectedEof)
        } else {
            match ts[q] {
                TokenV::Num(n) => match p_expr(ts, q + 1) {
                    Ok((c, r)) => if head == "top"@ {
                        Ok((ExprV::Top(n, Box::new(c)), r))
                    } else {
                        Ok((ExprV::Threshold(n, Box::new(c)), r))
                    },
                    Err(x) => Err(x),
                },
                _ => Err(ParseErrorV::ExpectedNumber(q)),
            }
        }
    } else if head == "let"@ {
        p_let(ts, q)
    } else if head == "batch"@ {
        p_batch(ts, q)
    } else {
        Err(ParseErrorV::UnknownForm(head))
    }
}

/// A parenthesized form whose `(` is at `p`.
pub open spec fn p_form(ts: Seq<TokenV>, p: int) -> Result<(ExprV, int), ParseErrorV>
    decreases ts.len() - p, 2nat,
{
    if p < 0 || p + 1 >= ts.len() {
        Err(ParseErrorV::UnexpectedEof)
    } else {
        match ts[p + 1] {
            TokenV::Sym(head) => match p_body(ts, p, head, p + 2) {
                Ok((e, r)) => p_close(ts, r, e),
                Err(x) => Err(x),
            },
            other => Err(ParseErrorV::UnknownForm(token_debug(other))),
        }
    }
}

/// A whole token sequence as one expression.
pub open spec fn p_program(ts: Seq<TokenV>) -> Result<ExprV, ParseErrorV> {
    match p_expr(ts, 0) {
        Ok((e, r)) => if r < ts.len() {
            Err(ParseErrorV::Other(trailing_msg(r)))
        } else {
            Ok(e)
        },
        Err(x) => Err(x),
    }
}

/// What `parse` returns for a query.
pub open spec fn spec_parse(input: Seq<char>) -> Result<ExprV, ParseErrorV> {
    match spec_tokenize(input) {
        Ok(ts) => p_program(ts),
        Err(e) => Err(e),
    }
}


// ── Parser ──────────────────────────────────────────────────────────

pub open spec fn agree_expr(r: Result<Expr, ParseError>, s: Result<(ExprV, int), ParseErrorV>, end: int) -> bool {
    match r {
        Ok(e) => s == Ok::<(ExprV, int), ParseErrorV>((e@, end)),
        Err(x) => s == Err::<(ExprV, int), ParseErrorV>(x@),
    }
}

pub open spec fn prepend_res<A>(xs: Seq<A>, r: Result<(Seq<A>, int), ParseErrorV>) -> Result<
    (Seq<A>, int),
    ParseErrorV,
> {
    match r {
        Ok((ys, e)) => Ok((xs + ys, e)),
        Err(x) => Err(x),
    }
}

proof fn lemma_prepend_step<A>(xs: Seq<A>, x: A, r: Result<(Seq<A>, int), ParseErrorV>)
    ensures
        prepend_res(xs.push(x), r) == prepend_res(
            xs,
            match r {
                Ok((ys, e)) => Ok::<(Seq<A>, int), ParseErrorV>((seq![x] + ys, e)),
                Err(z) => Err(z),
            },
        ),
{
    match r {
        Ok((ys, e)) => {
            assert(xs.push(x) + ys =~= xs + (seq![x] + ys));
        },
        Err(_) => {},
    }
}

proof fn lemma_prepend_empty<A>(r: Result<(Seq<A>, int), ParseErrorV>)
    ensures
        prepend_res(Seq::<A>::empty(), r) == r,
{
    match r {
        Ok((ys, e)) => {
            assert(Seq::<A>::empty() + ys =~= ys);
        },
        Err(_) => {},
    }
}

fn clone_token(t: &Token) -> (r: Token)
    ensures
        r@ == t@,
{
    match t {
        Token::Open => Token::Open,
        Token::Close => Token::Close,
        Token::BracketOpen => Token::BracketOpen,
        Token::BracketClose => Token::BracketClose,
        Token::BraceOpen => Token::BraceOpen,
        Token::BraceClose => Token::BraceClose,
        Token::Str(s) => Token::Str(s.clone()),
        Token::Num(n) => Token::Num(Number { literal: n.literal.clone() }),
        Token::Sym(s) => Token::Sym(s.clone()),
        Token::Keyword(s) => Token::Keyword(s.clone()),
    }
}

fn message_at(prefix: &str, p: usize) -> (r: String)
    ensures
        r@ == prefix@ + decimal_seq(p as nat),
{
    concat(&owned(prefix), &decimal(p as u64))
}

/// The text shown for a parse error.
pub open spec fn parse_error_message(e: ParseErrorV) -> Seq<char> {
    match e {
        ParseErrorV::UnexpectedEof => "unexpected end of input"@,
        ParseErrorV::ExpectedClose(p) => "expected ')' at position "@ + decimal_seq(p as nat),
        ParseErrorV::UnknownForm(f) => "unknown form: "@ + f,
        ParseErrorV::ExpectedString(p) => "expected string literal at position "@ + decimal_seq(p as nat),
        ParseErrorV::ExpectedNumber(p) => "expected number at position "@ + decimal_seq(p as nat),
        ParseErrorV::Other(m) => m,
    }
}

impl ParseError {
    /// The error's message.
    pub fn message(&self) -> (r: String)
        ensures
            r@ == parse_error_message(self@),
    {
        match self {
            ParseError::UnexpectedEof => owned("unexpected end of input"),
            ParseError::ExpectedClose(p) => message_at("expected ')' at position ", *p),
            ParseError::UnknownForm(f) => concat(&owned("unknown form: "), f),
            ParseError::ExpectedString(p) => message_at("expected string literal at position ", *p),
            ParseError::ExpectedNumber(p) => message_at("expected number at position ", *p),
            ParseError::Other(m) => m.clone(),
        }
    }
}

/// Recursive-descent parser state: the tokens and the current position.
pub struct Parser {
    pub tokens: Vec<Token>,
    pub pos: usize,
}

impl Parser {
    pub open spec fn toks(&self) -> Seq<TokenV> {
        tokens_view(self.tokens@)
    }

    pub fn new(tokens: Vec<Token>) -> (r: Self)
        ensures
            r.tokens == tokens,
            r.pos == 0,
    {
        Parser { tokens, pos: 0 }
    }

    pub fn peek(&self) -> (r: Option<&Token>)
        ensures
            r == if self.pos < self.tokens@.len() {
                Some(&self.tokens@[self.pos as int])
            } else {
                None
            },
    {
        if self.pos < self.tokens.len() {
            Some(&self.tokens[self.pos])
        } else {
            None
        }
    }

    pub fn next(&mut self) -> (r: Result<Token, ParseError>)
        ensures
            final(self).tokens == old(self).tokens,
            old(self).pos < old(self).tokens@.len() ==> (r matches Ok(t) && t@ == old(
                self,
            ).toks()[old(self).pos as int] && final(self).pos == old(self).pos + 1),
            old(self).pos >= old(self).tokens@.len() ==> (r matches Err(e) && e@
                == ParseErrorV::UnexpectedEof && final(self).pos == old(self).pos),
    {
        if self.pos >= self.tokens.len() {
            return Err(ParseError::UnexpectedEof);
        }
        let t = clone_token(&self.tokens[self.pos]);
        self.pos = self.pos + 1;
        Ok(t)
    }

    pub fn expect_close(&mut self) -> (r: Result<(), ParseError>)
        requires
            old(self).pos <= old(self).tokens@.len(),
        ensures
            final(self).tokens == old(self).tokens,
            final(self).pos <= final(self).tokens@.len(),
            old(self).pos <= final(self).pos,
            match r {
                Ok(_) => is_close(old(self).toks(), old(self).pos as int) && final(self).pos
                    == old(self).pos + 1,
                Err(x) => x@ == if old(self).pos >= old(self).tokens@.len() {
                    ParseErrorV::UnexpectedEof
                } else {
                    ParseErrorV::ExpectedClose(old(self).pos as int)
                } && !is_close(old(self).toks(), old(self).pos as int),
            },
    {
        if self.pos >= self.tokens.len() {
            return Err(ParseError::UnexpectedEof);
        }
        let is = match &self.tokens[self.pos] {
            Token::Close => true,
            _ => false,
        };
        self.pos = self.pos + 1;
        if is {
            Ok(())
        } else {
            Err(ParseError::ExpectedClose(self.pos - 1))
        }
    }

    /// One expression.
    pub fn parse_expr(&mut self) -> (r: Result<Expr, ParseError>)
        requires
            old(self).pos <= old(self).tokens@.len(),
        ensures
            final(self).tokens == old(self).tokens,
            final(self).pos <= final(self).tokens@.len(),
            agree_expr(r, p_expr(old(self).toks(), old(self).pos as int), final(self).pos as int),
            old(self).pos <= final(self).pos,
            r is Ok ==> old(self).pos < final(self).pos,
        decreases old(self).tokens@.len() - old(self).pos, 3nat,
    {
        if self.pos >= self.tokens.len() {
            return Err(ParseError::UnexpectedEof);
        }
        let is_open = match &self.tokens[self.pos] {
            Token::Open => true,
            _ => false,
        };
        if is_open {
            return self.parse_form();
        }
        let name = match &self.tokens[self.pos] {
            Token::Sym(n) => Some(n.clone()),
            _ => None,
        };
        match name {
            Some(n) => {
                self.pos = self.pos + 1;
                Ok(Expr::Var(n))
            },
            None => Err(ParseError::Other(message_at("unexpected token at position ", self.pos))),
        }
    }

    /// A parenthesized form; the current token is its `(`.
    fn parse_form(&mut self) -> (r: Result<Expr, ParseError>)
        requires
            old(self).pos < old(self).tokens@.len(),
            old(self).toks()[old(self).pos as int] is Open,
        ensures
            final(self).tokens == old(self).tokens,
            final(self).pos <= final(self).tokens@.len(),
            agree_expr(r, p_form(old(self).toks(), old(self).pos as int), final(self).pos as int),
            old(self).pos <= final(self).pos,
            r is Ok ==> old(self).pos < final(self).pos,
        decreases old(self).tokens@.len() - old(self).pos, 2nat,
    {
        let ghost p = self.pos as int;
        let ghost ts = self.toks();
        let _n = self.tokens.len();
        self.pos = self.pos + 1;
        if self.pos >= self.tokens.len() {
            return Err(ParseError::UnexpectedEof);
        }
        let head = match &self.tokens[self.pos] {
            Token::Sym(s) => s.clone(),
            other => {
                let d = token_description(other);
                self.pos = self.pos + 1;
                return Err(ParseError::UnknownForm(d));
            },
        };
        self.pos = self.pos + 1;
        let e = match self.parse_body(&head, Ghost(p)) {
            Ok(e) => e,
            Err(x) => return Err(x),
        };
        match self.expect_close() {
            Ok(_) => Ok(e),
            Err(x) => Err(x),
        }
    }

    /// What follows the head symbol `head` of the form opened at `p`.
    fn parse_body(&mut self, head: &String, Ghost(p): Ghost<int>) -> (r: Result<Expr, ParseError>)
        requires
            0 <= p < old(self).pos <= old(self).tokens@.len(),
        ensures
            final(self).tokens == old(self).tokens,
            final(self).pos <= final(self).tokens@.len(),
            agree_expr(
                r,
                p_body(old(self).toks(), p, head@, old(self).pos as int),
                final(self).pos as int,
            ),
            old(self).pos <= final(self).pos,
        decreases old(self).tokens@.len() - old(self).pos, 6nat,
    {
        let ghost ts = self.toks();
        let ghost q = self.pos as int;
        if *head == owned("rg") {
            self.parse_search(SearchKind::Rg)
        } else if *head == owned("lex") {
            self.parse_search(SearchKind::Lex)
        } else if *head == owned("sem") {
            self.parse_search(SearchKind::Sem)
        } else if *head == owned("&") || *head == owned("|") {
            let and = *head == owned("&");
            match self.parse_children() {
                Ok(cs) => {
                    if and {
                        Ok(Expr::And(cs))
                    } else {
                        Ok(Expr::Or(cs))
                    }
                },
                Err(x) => Err(x),
            }
        } else if *head == owned("mix") {
            self.parse_mix()
        } else if *head == owned("-") || *head == owned("pipe") {
            let diff = *head == owned("-");
            let l = match self.parse_expr() {
                Ok(l) => l,
                Err(x) => return Err(x),
            };
            let r = match self.parse_expr() {
                Ok(r) => r,
                Err(x) => return Err(x),
            };
            if diff {
                Ok(Expr::Diff(Box::new(l), Box::new(r)))
            } else {
                Ok(Expr::Pipe(Box::new(l), Box::new(r)))
            }
        } else if *head == owned("top") || *head == owned(">") {
            let top = *head == owned("top");
            if self.pos >= self.tokens.len() {
                return Err(ParseError::UnexpectedEof);
            }
            let lit = match &self.tokens[self.pos] {
                Token::Num(n) => Some(Number { literal: n.literal.clone() }),
                _ => None,
            };
            self.pos = self.pos + 1;
            match lit {
                Some(n) => {
                    let c = match self.parse_expr() {
                        Ok(c) => c,
                        Err(x) => return Err(x),
                    };
                    if top {
                        Ok(Expr::Top(n, Box::new(c)))
                    } else {
                        Ok(Expr::Threshold(n, Box::new(c)))
                    }
                },
                None => Err(ParseError::ExpectedNumber(self.pos - 1)),
            }
        } else if *head == owned("let") {
            self.parse_let()
        } else if *head == owned("batch") {
            self.parse_batch()
        } else {
            Err(ParseError::UnknownForm(head.clone()))
        }
    }

    /// `"query" :keyword "value" ...`
    fn parse_search(&mut self, kind: SearchKind) -> (r: Result<Expr, ParseError>)
        requires
            old(self).pos <= old(self).tokens@.len(),
        ensures
            final(self).tokens == old(self).tokens,
            final(self).pos <= final(self).tokens@.len(),
            agree_expr(r, p_search(old(self).toks(), old(self).pos as int, kind), final(self).pos as int),
            old(self).pos <= final(self).pos,
    {
        if self.pos >= self.tokens.len() {
            return Err(ParseError::UnexpectedEof);
        }
        let q = match &self.tokens[self.pos] {
            Token::Str(s) => Some(s.clone()),
            _ => None,
        };
        self.pos = self.pos + 1;
        match q {
            Some(query) => {
                let opts = match self.parse_search_opts() {
                    Ok(o) => o,
                    Err(x) => return Err(x),
                };
                match kind {
                    SearchKind::Rg => Ok(Expr::Rg(query, opts)),
                    SearchKind::Lex => Ok(Expr::Lex(query, opts)),
                    SearchKind::Sem => Ok(Expr::Sem(query, opts)),
                }
            },
            None => Err(ParseError::ExpectedString(self.pos - 1)),
        }
    }

    /// Keyword filters after a search query.
    fn parse_search_opts(&mut self) -> (r: Result<SearchOpts, ParseError>)
        requires
            old(self).pos <= old(self).tokens@.len(),
        ensures
            final(self).tokens == old(self).tokens,
            final(self).pos <= final(self).tokens@.len(),
            old(self).pos <= final(self).pos,
            match r {
                Ok(o) => p_opts(old(self).toks(), old(self).pos as int, empty_opts()) == Ok::<
                    (OptsV, int),
                    ParseErrorV,
                >((o@, final(self).pos as int)),
                Err(x) => p_opts(old(self).toks(), old(self).pos as int, empty_opts()) == Err::<
                    (OptsV, int),
                    ParseErrorV,
                >(x@),
            },
    {
        let ghost ts = self.toks();
        let ghost p0 = self.pos as int;
        let mut opts = SearchOpts::default();
        loop
            invariant
                self.tokens == old(self).tokens,
                ts == self.toks(),
                p0 <= self.pos <= self.tokens@.len(),
                p0 == old(self).pos,
                p_opts(ts, p0, empty_opts()) == p_opts(ts, self.pos as int, opts@),
            decreases self.tokens@.len() - self.pos,
        {
            if self.pos >= self.tokens.len() {
                return Ok(opts);
            }
            let kw = match &self.tokens[self.pos] {
                Token::Keyword(k) => Some(k.clone()),
                _ => None,
            };
            let kw = match kw {
                Some(k) => k,
                None => return Ok(opts),
            };
            self.pos = self.pos + 1;
            if self.pos >= self.tokens.len() {
                return Err(ParseError::UnexpectedEof);
            }
            let val = match &self.tokens[self.pos] {
                Token::Str(v) => Some(v.clone()),
                _ => None,
            };
            self.pos = self.pos + 1;
            let val = match val {
                Some(v) => v,
                None => return Err(ParseError::ExpectedString(self.pos - 1)),
            };
            let ghost o0 = opts@;
            if kw == owned("in") {
                opts.scope = Some(val);
            } else if kw == owned("lang") {
                opts.lang = Some(val);
            } else if kw == owned("x") {
                opts.exclude.push(val);
                assert(opts@.exclude =~= o0.exclude.push(val@));
            } else if kw == owned("i") {
                opts.includes.push(val);
                assert(opts@.includes =~= o0.includes.push(val@));
            } else {
                return Err(ParseError::Other(concat(&owned("unknown keyword :"), &kw)));
            }
            assert(apply_keyword(o0, kw@, val@) == Some(opts@));
        }
    }

    /// Expressions up to the next `)` (which is not consumed).
    fn parse_children(&mut self) -> (r: Result<Vec<Expr>, ParseError>)
        requires
            old(self).pos <= old(self).tokens@.len(),
        ensures
            final(self).tokens == old(self).tokens,
            final(self).pos <= final(self).tokens@.len(),
            old(self).pos <= final(self).pos,
            match r {
                Ok(cs) => p_children(old(self).toks(), old(self).pos as int) == Ok::<
                    (Seq<ExprV>, int),
                    ParseErrorV,
                >((exprs_view(cs@), final(self).pos as int)),
                Err(x) => p_children(old(self).toks(), old(self).pos as int) == Err::<
                    (Seq<ExprV>, int),
                    ParseErrorV,
                >(x@),
            },
        decreases old(self).tokens@.len() - old(self).pos, 4nat,
    {
        let ghost ts = self.toks();
        let ghost p0 = self.pos as int;
        let mut cs: Vec<Expr> = Vec::new();
        proof {
            lemma_prepend_empty(p_children(ts, p0));
        }
        loop
            invariant
                self.tokens == old(self).tokens,
                ts == self.toks(),
                p0 <= self.pos <= self.tokens@.len(),
                p0 == old(self).pos,
                p_children(ts, p0) == prepend_res(exprs_view(cs@), p_children(ts, self.pos as int)),
            decreases self.tokens@.len() - self.pos,
        {
            let at_close = self.pos < self.tokens.len() && match &self.tokens[self.pos] {
                Token::Close => true,
                _ => false,
            };
            if at_close {
                proof {
                    assert(exprs_view(cs@) + Seq::<ExprV>::empty() =~= exprs_view(cs@));
                }
                return Ok(cs);
            }
            let ghost here = self.pos as int;
            let e = match self.parse_expr() {
                Ok(e) => e,
                Err(x) => return Err(x),
            };
            proof {
                lemma_prepend_step(exprs_view(cs@), e@, p_children(ts, self.pos as int));
                assert(cs@.push(e).drop_last() =~= cs@);
            }
            cs.push(e);
        }
    }

    /// Numbers up to the next `]` (which is not consumed).
    fn parse_weights(&mut self) -> (r: Result<Vec<Number>, ParseError>)
        requires
            old(self).pos <= old(self).tokens@.len(),
        ensures
            final(self).tokens == old(self).tokens,
            final(self).pos <= final(self).tokens@.len(),
            old(self).pos <= final(self).pos,
            match r {
                Ok(ws) => p_weights(old(self).toks(), old(self).pos as int) == Ok::<
                    (Seq<Seq<char>>, int),
                    ParseErrorV,
                >((numbers_view(ws@), final(self).pos as int)) && is_bracket_close(
                    old(self).toks(),
                    final(self).pos as int,
                ),
                Err(x) => p_weights(old(self).toks(), old(self).pos as int) == Err::<
                    (Seq<Seq<char>>, int),
                    ParseErrorV,
                >(x@),
            },
    {
        let ghost ts = self.toks();
        let ghost w0 = self.pos as int;
        let mut ws: Vec<Number> = Vec::new();
        proof {
            lemma_prepend_empty(p_weights(ts, w0));
        }
        loop
            invariant
                self.tokens == old(self).tokens,
                ts == self.toks(),
                w0 <= self.pos <= self.tokens@.len(),
                w0 == old(self).pos,
                p_weights(ts, w0) == prepend_res(numbers_view(ws@), p_weights(ts, self.pos as int)),
            decreases self.tokens@.len() - self.pos,
        {
            if self.pos >= self.tokens.len() {
                return Err(ParseError::UnexpectedEof);
            }
            let (close, lit) = match &self.tokens[self.pos] {
                Token::BracketClose => (true, None),
                Token::Num(n) => (false, Some(Number { literal: n.literal.clone() })),
                _ => (false, None),
            };
            if close {
                proof {
                    assert(numbers_view(ws@) + Seq::<Seq<char>>::empty() =~= numbers_view(ws@));
                }
                return Ok(ws);
            }
            self.pos = self.pos + 1;
            match lit {
                Some(n) => {
                    proof {
                        lemma_prepend_step(numbers_view(ws@), n.literal@, p_weights(ts, self.pos as int));
                        assert(numbers_view(ws@.push(n)) =~= numbers_view(ws@).push(n.literal@));
                    }
                    ws.push(n);
                },
                None => return Err(ParseError::ExpectedNumber(self.pos - 1)),
            }
        }
    }

    /// `[w ...] child ...` or `child ...` of a `mix` form.
    fn parse_mix(&mut self) -> (r: Result<Expr, ParseError>)
        requires
            old(self).pos <= old(self).tokens@.len(),
        ensures
            final(self).tokens == old(self).tokens,
            final(self).pos <= final(self).tokens@.len(),
            old(self).pos <= final(self).pos,
            agree_expr(r, p_mix(old(self).toks(), old(self).pos as int), final(self).pos as int),
        decreases old(self).tokens@.len() - old(self).pos, 5nat,
    {
        let bracket = self.pos < self.tokens.len() && match &self.tokens[self.pos] {
            Token::BracketOpen => true,
            _ => false,
        };
        if bracket {
            self.pos = self.pos + 1;
            let ws = match self.parse_weights() {
                Ok(ws) => ws,
                Err(x) => return Err(x),
            };
            self.pos = self.pos + 1;
            match self.parse_children() {
                Ok(cs) => Ok(Expr::Mix(Weights::Explicit(ws), cs)),
                Err(x) => Err(x),
            }
        } else {
            match self.parse_children() {
                Ok(cs) => Ok(Expr::Mix(Weights::Equal, cs)),
                Err(x) => Err(x),
            }
        }
    }

    /// `:top n` / `:threshold t` options up to the next `}` (which is not
    /// consumed).
    fn parse_batch_opts(&mut self) -> (r: Result<BatchOpts, ParseError>)
        requires
            old(self).pos <= old(self).tokens@.len(),
        ensures
            final(self).tokens == old(self).tokens,
            final(self).pos <= final(self).tokens@.len(),
            old(self).pos <= final(self).pos,
            match r {
                Ok(o) => p_batch_opts(old(self).toks(), old(self).pos as int, no_batch_opts()) == Ok::<
                    (BatchOptsV, int),
                    ParseErrorV,
                >((o@, final(self).pos as int)) && is_brace_close(old(self).toks(), final(self).pos as int),
                Err(x) => p_batch_opts(old(self).toks(), old(self).pos as int, no_batch_opts()) == Err::<
                    (BatchOptsV, int),
                    ParseErrorV,
                >(x@),
            },
    {
        let ghost ts = self.toks();
        let ghost p0 = self.pos as int;
        let mut o = BatchOpts { top: None, threshold: None };
        loop
            invariant
                self.tokens == old(self).tokens,
                ts == self.toks(),
                p0 <= self.pos <= self.tokens@.len(),
                p0 == old(self).pos,
                p_batch_opts(ts, p0, no_batch_opts()) == p_batch_opts(ts, self.pos as int, o@),
            decreases self.tokens@.len() - self.pos,
        {
            if self.pos >= self.tokens.len() {
                return Err(ParseError::UnexpectedEof);
            }
            let (close, kw) = match &self.tokens[self.pos] {
                Token::BraceClose => (true, None),
                Token::Keyword(k) => (false, Some(k.clone())),
                _ => (false, None),
            };
            if close {
                return Ok(o);
            }
            let kw = match kw {
                Some(k) => k,
                None => return Err(ParseError::Other(message_at("unexpected token at position ", self.pos))),
            };
            if self.pos + 1 >= self.tokens.len() {
                return Err(ParseError::UnexpectedEof);
            }
            let n = match &self.tokens[self.pos + 1] {
                Token::Num(n) => Number { literal: n.literal.clone() },
                _ => return Err(ParseError::ExpectedNumber(self.pos + 1)),
            };
            if kw == owned("top") {
                o.top = Some(n);
            } else if kw == owned("threshold") {
                o.threshold = Some(n);
            } else {
                return Err(ParseError::Other(concat(&owned("unknown keyword :"), &kw)));
            }
            self.pos = self.pos + 2;
        }
    }

    /// An entry under batch options.
    fn wrap_entry(e: Expr, o: &BatchOpts) -> (r: Expr)
        ensures
            r@ == wrap_entry(e@, o@),
    {
        let ghost ev = e@;
        let e1 = match &o.threshold {
            Some(t) => Expr::Threshold(Number { literal: t.literal.clone() }, Box::new(e)),
            None => e,
        };
        let ghost v1 = match o@.threshold {
            Some(t) => ExprV::Threshold(t, Box::new(ev)),
            None => ev,
        };
        assert(e1@ == v1);
        match &o.top {
            Some(k) => {
                let r = Expr::Top(Number { literal: k.literal.clone() }, Box::new(e1));
                assert(r@ == ExprV::Top(k.literal@, Box::new(v1)));
                r
            },
            None => e1,
        }
    }

    /// `:label expr` entries up to the next `)` (which is not consumed),
    /// each wrapped by the batch options.
    fn parse_entries(&mut self, o: &BatchOpts) -> (r: Result<Vec<BatchEntry>, ParseError>)
        requires
            old(self).pos <= old(self).tokens@.len(),
        ensures
            final(self).tokens == old(self).tokens,
            final(self).pos <= final(self).tokens@.len(),
            old(self).pos <= final(self).pos,
            match r {
                Ok(es) => exists|raw: Seq<(Seq<char>, ExprV)>|
                    p_entries(old(self).toks(), old(self).pos as int) == Ok::<
                        (Seq<(Seq<char>, ExprV)>, int),
                        ParseErrorV,
                    >((raw, final(self).pos as int)) && entries_view(es@) == wrap_entries(raw, o@),
                Err(x) => p_entries(old(self).toks(), old(self).pos as int) == Err::<
                    (Seq<(Seq<char>, ExprV)>, int),
                    ParseErrorV,
                >(x@),
            },
        decreases old(self).tokens@.len() - old(self).pos, 4nat,
    {
        let ghost ts = self.toks();
        let ghost p0 = self.pos as int;
        let ghost mut raw: Seq<(Seq<char>, ExprV)> = seq![];
        let mut es: Vec<BatchEntry> = Vec::new();
        proof {
            lemma_prepend_empty(p_entries(ts, p0));
            assert(entries_view(es@) =~= wrap_entries(raw, o@));
        }
        loop
            invariant
                self.tokens == old(self).tokens,
                ts == self.toks(),
                p0 <= self.pos <= self.tokens@.len(),
                p0 == old(self).pos,
                p_entries(ts, p0) == prepend_res(raw, p_entries(ts, self.pos as int)),
                entries_view(es@) == wrap_entries(raw, o@),
            decreases self.tokens@.len() - self.pos,
        {
            if self.pos >= self.tokens.len() {
                return Err(ParseError::UnexpectedEof);
            }
            let (close, label) = match &self.tokens[self.pos] {
                Token::Close => (true, None),
                Token::Keyword(l) => (false, Some(l.clone())),
                _ => (false, None),
            };
            if close {
                proof {
                    assert(raw + Seq::<(Seq<char>, ExprV)>::empty() =~= raw);
                }
                return Ok(es);
            }
            self.pos = self.pos + 1;
            let label = match label {
                Some(l) => l,
                None => return Err(ParseError::Other(message_at("expected batch label at position ", self.pos - 1))),
            };
            let e = match self.parse_expr() {
                Ok(e) => e,
                Err(x) => return Err(x),
            };
            proof {
                lemma_prepend_step(raw, (label@, e@), p_entries(ts, self.pos as int));
            }
            let ghost item = (label@, e@);
            let ghost prev_raw = raw;
            let wrapped = Self::wrap_entry(e, o);
            let entry = BatchEntry { label, expr: wrapped };
            let ghost prev = es@;
            es.push(entry);
            proof {
                raw = raw.push(item);
                assert(es@.drop_last() =~= prev);
                assert(es@.last() == entry);
                assert(entries_view(es@) == entries_view(prev).push((entry.label@, entry.expr@)));
                assert(entry.label@ == item.0);
                assert(entry.expr@ == wrap_entry(item.1, o@));
                assert(wrap_entries(raw, o@) =~= wrap_entries(prev_raw, o@).push(
                    (item.0, wrap_entry(item.1, o@)),
                ));
            }
        }
    }

    /// `{options} :label expr ...` of a `batch` form.
    fn parse_batch(&mut self) -> (r: Result<Expr, ParseError>)
        requires
            old(self).pos <= old(self).tokens@.len(),
        ensures
            final(self).tokens == old(self).tokens,
            final(self).pos <= final(self).tokens@.len(),
            old(self).pos <= final(self).pos,
            agree_expr(r, p_batch(old(self).toks(), old(self).pos as int), final(self).pos as int),
        decreases old(self).tokens@.len() - old(self).pos, 5nat,
    {
        let brace = self.pos < self.tokens.len() && match &self.tokens[self.pos] {
            Token::BraceOpen => true,
            _ => false,
        };
        if brace {
            self.pos = self.pos + 1;
            let o = match self.parse_batch_opts() {
                Ok(o) => o,
                Err(x) => return Err(x),
            };
            self.pos = self.pos + 1;
            match self.parse_entries(&o) {
                Ok(es) => Ok(Expr::Batch(es)),
                Err(x) => Err(x),
            }
        } else {
            let o = BatchOpts { top: None, threshold: None };
            match self.parse_entries(&o) {
                Ok(es) => Ok(Expr::Batch(es)),
                Err(x) => Err(x),
            }
        }
    }

    /// `name expr` pairs up to the next `]` (which is not consumed).
    fn parse_bindings(&mut self) -> (r: Result<Vec<Binding>, ParseError>)
        requires
            old(self).pos <= old(self).tokens@.len(),
        ensures
            final(self).tokens == old(self).tokens,
            final(self).pos <= final(self).tokens@.len(),
            old(self).pos <= final(self).pos,
            match r {
                Ok(bs) => p_bindings(old(self).toks(), old(self).pos as int) == Ok::<
                    (Seq<(Seq<char>, ExprV)>, int),
                    ParseErrorV,
                >((bindings_view(bs@), final(self).pos as int)) && is_bracket_close(
                    old(self).toks(),
                    final(self).pos as int,
                ),
                Err(x) => p_bindings(old(self).toks(), old(self).pos as int) == Err::<
                    (Seq<(Seq<char>, ExprV)>, int),
                    ParseErrorV,
                >(x@),
            },
        decreases old(self).tokens@.len() - old(self).pos, 4nat,
    {
        let ghost ts = self.toks();
        let ghost b0 = self.pos as int;
        let mut bs: Vec<Binding> = Vec::new();
        proof {
            lemma_prepend_empty(p_bindings(ts, b0));
        }
        loop
            invariant
                self.tokens == old(self).tokens,
                ts == self.toks(),
                b0 <= self.pos <= self.tokens@.len(),
                b0 == old(self).pos,
                p_bindings(ts, b0) == prepend_res(bindings_view(bs@), p_bindings(ts, self.pos as int)),
            decreases self.tokens@.len() - self.pos,
        {
            if self.pos >= self.tokens.len() {
                return Err(ParseError::UnexpectedEof);
            }
            let (close, name) = match &self.tokens[self.pos] {
                Token::BracketClose => (true, None),
                Token::Sym(n) => (false, Some(n.clone())),
                _ => (false, None),
            };
            if close {
                proof {
                    assert(bindings_view(bs@) + Seq::<(Seq<char>, ExprV)>::empty() =~= bindings_view(bs@));
                }
                return Ok(bs);
            }
            self.pos = self.pos + 1;
            let name = match name {
                Some(n) => n,
                None => return Err(ParseError::Other(message_at("expected variable name at position ", self.pos - 1))),
            };
            let value = match self.parse_expr() {
                Ok(v) => v,
                Err(x) => return Err(x),
            };
            let b = Binding { name, value };
            proof {
                lemma_prepend_step(bindings_view(bs@), (b.name@, b.value@), p_bindings(ts, self.pos as int));
                assert(bs@.push(b).drop_last() =~= bs@);
            }
            bs.push(b);
        }
    }

    /// `[name expr ...] body` of a `let` form.
    fn parse_let(&mut self) -> (r: Result<Expr, ParseError>)
        requires
            old(self).pos <= old(self).tokens@.len(),
        ensures
            final(self).tokens == old(self).tokens,
            final(self).pos <= final(self).tokens@.len(),
            old(self).pos <= final(self).pos,
            agree_expr(r, p_let(old(self).toks(), old(self).pos as int), final(self).pos as int),
        decreases old(self).tokens@.len() - old(self).pos, 5nat,
    {
        if self.pos >= self.tokens.len() {
            return Err(ParseError::UnexpectedEof);
        }
        let open = match &self.tokens[self.pos] {
            Token::BracketOpen => true,
            _ => false,
        };
        self.pos = self.pos + 1;
        if !open {
            return Err(ParseError::Other(message_at("expected '[' in let at position ", self.pos - 1)));
        }
        let bs = match self.parse_bindings() {
            Ok(bs) => bs,
            Err(x) => return Err(x),
        };
        self.pos = self.pos + 1;
        let body = match self.parse_expr() {
            Ok(b) => b,
            Err(x) => return Err(x),
        };
        Ok(Expr::Let(bs, Box::new(body)))
    }
}

/// Parses a query into an expression.
pub fn parse(input: &str) -> (r: Result<Expr, ParseError>)
    ensures
        match r {
            Ok(e) => spec_parse(input@) == Ok::<ExprV, ParseErrorV>(e@),
            Err(x) => spec_parse(input@) == Err::<ExprV, ParseErrorV>(x@),
        },
{
    let tokens = match tokenize(input) {
        Ok(ts) => ts,
        Err(x) => return Err(x),
    };
    let mut parser = Parser::new(tokens);
    let expr = match parser.parse_expr() {
        Ok(e) => e,
        Err(x) => return Err(x),
    };
    if parser.pos < parser.tokens.len() {
        return Err(ParseError::Other(message_at("trailing tokens at position ", parser.pos)));
    }
    Ok(expr)
}

} // verus!
