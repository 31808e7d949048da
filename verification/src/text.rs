//! Character-level helpers on strings: whitespace, trimming, line
//! splitting, prefixes and decimal rendering.
use vstd::prelude::*;

verus! {

/// `String::push` appends one character.
pub assume_specification[ String::push ](string: &mut String, ch: char)
    ensures
        final(string)@ == old(string)@.push(ch),
;

/// The characters of a string, in order.
pub fn chars_of(s: &str) -> (r: Vec<char>)
    ensures
        r@ == s@,
{
    let mut out: Vec<char> = Vec::new();
    for c in it: s.chars()
        invariant
            out@ == it.seq().subrange(0, it.index() as int),
            it.seq() == s@,
    {
        out.push(c);
        assert(out@ =~= it.seq().subrange(0, it.index() + 1));
    }
    assert(out@ =~= s@);
    out
}

/// A string holding the characters `s[from..to]`.
pub fn string_of_range(s: &Vec<char>, from: usize, to: usize) -> (r: String)
    requires
        from <= to <= s@.len(),
    ensures
        r@ == s@.subrange(from as int, to as int),
{
    let mut out = String::new();
    let mut i = from;
    while i < to
        invariant
            from <= i <= to <= s@.len(),
            out@ == s@.subrange(from as int, i as int),
        decreases to - i,
    {
        out.push(s[i]);
        i = i + 1;
        assert(out@ =~= s@.subrange(from as int, i as int));
    }
    out
}

/// A string holding the characters of `s`.
pub fn string_of(s: &Vec<char>) -> (r: String)
    ensures
        r@ == s@,
{
    let r = string_of_range(s, 0, s.len());
    assert(s@.subrange(0, s@.len() as int) =~= s@);
    r
}

/// A string holding the characters of a literal.
pub fn owned(s: &str) -> (r: String)
    ensures
        r@ == s@,
{
    s.to_owned()
}

/// `a` followed by `b`.
pub fn concat(a: &String, b: &String) -> (r: String)
    ensures
        r@ == a@ + b@,
{
    let mut out = a.clone();
    let bc = chars_of(b.as_str());
    for i in 0..bc.len()
        invariant
            bc@ == b@,
            out@ == a@ + b@.subrange(0, i as int),
    {
        out.push(bc[i]);
        assert(out@ =~= a@ + b@.subrange(0, i + 1));
    }
    assert(b@.subrange(0, b@.len() as int) =~= b@);
    out
}

/// The Unicode `White_Space` property, which `char::is_whitespace` tests.
pub open spec fn is_space(c: char) -> bool {
    ||| ('\u{9}' <= c && c <= '\u{d}')
    ||| c == ' '
    ||| c == '\u{85}'
    ||| c == '\u{a0}'
    ||| c == '\u{1680}'
    ||| ('\u{2000}' <= c && c <= '\u{200a}')
    ||| c == '\u{2028}'
    ||| c == '\u{2029}'
    ||| c == '\u{202f}'
    ||| c == '\u{205f}'
    ||| c == '\u{3000}'
}

pub fn space(c: char) -> (r: bool)
    ensures
        r == is_space(c),
{
    ('\u{9}' <= c && c <= '\u{d}') || c == ' ' || c == '\u{85}' || c == '\u{a0}' || c == '\u{1680}'
        || ('\u{2000}' <= c && c <= '\u{200a}') || c == '\u{2028}' || c == '\u{2029}' || c
        == '\u{202f}' || c == '\u{205f}' || c == '\u{3000}'
}

/// `s` without its trailing whitespace (`str::trim_end`).
pub open spec fn trim_end_seq(s: Seq<char>) -> Seq<char>
    decreases s.len(),
{
    if s.len() > 0 && is_space(s.last()) {
        trim_end_seq(s.drop_last())
    } else {
        s
    }
}

/// `s` without its leading whitespace (`str::trim_start`).
pub open spec fn trim_start_seq(s: Seq<char>) -> Seq<char>
    decreases s.len(),
{
    if s.len() > 0 && is_space(s[0]) {
        trim_start_seq(s.drop_first())
    } else {
        s
    }
}

/// `s` without leading and trailing whitespace (`str::trim`).
pub open spec fn trim_seq(s: Seq<char>) -> Seq<char> {
    trim_start_seq(trim_end_seq(s))
}

/// Every character of `s` is whitespace.
pub open spec fn all_space(s: Seq<char>) -> bool {
    forall|i: int| 0 <= i < s.len() ==> is_space(#[trigger] s[i])
}

/// The end of `s` after dropping trailing whitespace.
pub fn trim_end_len(s: &Vec<char>) -> (r: usize)
    ensures
        r <= s@.len(),
        s@.subrange(0, r as int) == trim_end_seq(s@),
{
    let mut k = s.len();
    proof {
        assert(s@.subrange(0, k as int) =~= s@);
    }
    while k > 0 && space(s[k - 1])
        invariant
            k <= s@.len(),
            trim_end_seq(s@.subrange(0, k as int)) == trim_end_seq(s@),
        decreases k,
    {
        proof {
            assert(s@.subrange(0, k as int).drop_last() =~= s@.subrange(0, k - 1));
        }
        k = k - 1;
    }
    k
}

/// The start of `s[..end]` after dropping leading whitespace.
pub fn trim_start_from(s: &Vec<char>, end: usize) -> (r: usize)
    requires
        end <= s@.len(),
    ensures
        r <= end,
        s@.subrange(r as int, end as int) == trim_start_seq(s@.subrange(0, end as int)),
{
    let mut k: usize = 0;
    proof {
        assert(s@.subrange(0, end as int) =~= s@.subrange(0, end as int));
    }
    while k < end && space(s[k])
        invariant
            k <= end <= s@.len(),
            trim_start_seq(s@.subrange(k as int, end as int)) == trim_start_seq(
                s@.subrange(0, end as int),
            ),
        decreases end - k,
    {
        proof {
            assert(s@.subrange(k as int, end as int).drop_first() =~= s@.subrange(
                k + 1,
                end as int,
            ));
        }
        k = k + 1;
    }
    k
}

/// `str::trim_end`.
pub fn trim_end(s: &str) -> (r: String)
    ensures
        r@ == trim_end_seq(s@),
{
    let cs = chars_of(s);
    let e = trim_end_len(&cs);
    string_of_range(&cs, 0, e)
}

/// `str::trim`.
pub fn trim(s: &str) -> (r: String)
    ensures
        r@ == trim_seq(s@),
{
    let cs = chars_of(s);
    let e = trim_end_len(&cs);
    let b = trim_start_from(&cs, e);
    string_of_range(&cs, b, e)
}

pub proof fn lemma_trim_empty_iff_all_space(s: Seq<char>)
    ensures
        (trim_seq(s).len() == 0) <==> all_space(s),
    decreases s.len(),
{
    if s.len() > 0 && is_space(s.last()) {
        lemma_trim_empty_iff_all_space(s.drop_last());
        if all_space(s.drop_last()) {
            assert forall|i: int| 0 <= i < s.len() implies is_space(#[trigger] s[i]) by {
                if i < s.len() - 1 {
                    assert(s[i] == s.drop_last()[i]);
                }
            }
        }
    } else if s.len() > 0 {
        assert(trim_end_seq(s) == s);
        lemma_trim_start_nonspace_end(s);
        assert(!is_space(s[s.len() - 1]));
    }
}

proof fn lemma_trim_start_nonspace_end(s: Seq<char>)
    requires
        s.len() > 0,
        !is_space(s.last()),
    ensures
        trim_start_seq(s).len() > 0,
    decreases s.len(),
{
    if is_space(s[0]) {
        assert(s.len() > 1);
        assert(s.drop_first().last() == s.last());
        lemma_trim_start_nonspace_end(s.drop_first());
    }
}

/// Whether `p` is a prefix of `s`.
pub open spec fn has_prefix(s: Seq<char>, p: Seq<char>) -> bool {
    p.len() <= s.len() && s.subrange(0, p.len() as int) == p
}

/// `str::starts_with` with a string pattern.
pub fn starts_with(s: &str, p: &str) -> (r: bool)
    ensures
        r == has_prefix(s@, p@),
{
    let sc = chars_of(s);
    let pc = chars_of(p);
    if pc.len() > sc.len() {
        return false;
    }
    for i in 0..pc.len()
        invariant
            sc@ == s@,
            pc@ == p@,
            pc@.len() <= sc@.len(),
            s@.subrange(0, i as int) == p@.subrange(0, i as int),
    {
        if sc[i] != pc[i] {
            assert(s@.subrange(0, p@.len() as int)[i as int] != p@[i as int]);
            return false;
        }
        assert(s@.subrange(0, i + 1) =~= p@.subrange(0, i + 1));
    }
    assert(p@.subrange(0, p@.len() as int) =~= p@);
    true
}

/// Index of the first line feed in `s`, or `s.len()` when there is none.
pub open spec fn newline_index(s: Seq<char>) -> nat
    decreases s.len(),
{
    if s.len() == 0 || s[0] == '\n' {
        0
    } else {
        1 + newline_index(s.drop_first())
    }
}

/// A line without its terminating carriage return (the line feed is
/// already gone).
pub open spec fn strip_cr(line: Seq<char>) -> Seq<char> {
    if line.len() > 0 && line.last() == '\r' {
        line.drop_last()
    } else {
        line
    }
}

/// `str::lines`: the pieces between line feeds, each without a `\r`
/// that directly precedes its line feed; a final line feed ends the last
/// line instead of starting an empty one.
pub open spec fn lines_seq(s: Seq<char>) -> Seq<Seq<char>>
    decreases s.len(),
{
    if s.len() == 0 {
        seq![]
    } else {
        let i = newline_index(s);
        if i >= s.len() {
            seq![s]
        } else {
            seq![strip_cr(s.subrange(0, i as int))] + lines_seq(s.subrange(i as int + 1, s.len() as int))
        }
    }
}

proof fn lemma_newline_index(s: Seq<char>)
    ensures
        newline_index(s) <= s.len(),
        forall|j: int| 0 <= j < newline_index(s) ==> s[j] != '\n',
        newline_index(s) < s.len() ==> s[newline_index(s) as int] == '\n',
    decreases s.len(),
{
    if s.len() > 0 && s[0] != '\n' {
        lemma_newline_index(s.drop_first());
        assert forall|j: int| 0 <= j < newline_index(s) implies s[j] != '\n' by {
            if j > 0 {
                assert(s[j] == s.drop_first()[j - 1]);
            }
        }
    }
}

proof fn lemma_newline_index_at(s: Seq<char>, i: int)
    requires
        0 <= i <= s.len(),
        forall|j: int| 0 <= j < i ==> s[j] != '\n',
        i == s.len() || s[i] == '\n',
    ensures
        newline_index(s) == i,
    decreases s.len(),
{
    if s.len() > 0 && s[0] != '\n' {
        assert(i > 0);
        lemma_newline_index_at(s.drop_first(), i - 1);
    }
}

/// Lines of a character vector, each a `String`.
pub fn lines_of(s: &Vec<char>) -> (r: Vec<String>)
    ensures
        r@.len() == lines_seq(s@).len(),
        forall|k: int| 0 <= k < r@.len() ==> (#[trigger] r@[k])@ == lines_seq(s@)[k],
{
    let mut out: Vec<String> = Vec::new();
    let ghost mut done: Seq<Seq<char>> = seq![];
    let mut start: usize = 0;
    let n = s.len();
    let mut i: usize = 0;
    proof {
        assert(s@.subrange(0, n as int) =~= s@);
        assert(done + lines_seq(s@) =~= lines_seq(s@));
    }
    while i < n
        invariant
            n == s@.len(),
            start <= i <= n,
            forall|j: int| start <= j < i ==> s@[j] != '\n',
            out@.len() == done.len(),
            forall|k: int| 0 <= k < out@.len() ==> (#[trigger] out@[k])@ == done[k],
            done + lines_seq(s@.subrange(start as int, n as int)) == lines_seq(s@),
        decreases n - i,
    {
        if s[i] == '\n' {
            let ghost rest = s@.subrange(start as int, n as int);
            proof {
                lemma_newline_index_at(rest, i - start);
                assert(rest.subrange(0, i - start) =~= s@.subrange(start as int, i as int));
                assert(rest.subrange(i - start + 1, rest.len() as int) =~= s@.subrange(
                    i + 1,
                    n as int,
                ));
            }
            let end = if i > start && s[i - 1] == '\r' {
                i - 1
            } else {
                i
            };
            let line = string_of_range(s, start, end);
            proof {
                assert(line@ =~= strip_cr(s@.subrange(start as int, i as int)));
                done = done.push(line@);
                assert(done + lines_seq(s@.subrange(i + 1, n as int)) =~= (done.drop_last() + seq![
                    line@,
                ]) + lines_seq(s@.subrange(i + 1, n as int)));
            }
            out.push(line);
            start = i + 1;
        }
        i = i + 1;
    }
    if start < n {
        let ghost rest = s@.subrange(start as int, n as int);
        proof {
            lemma_newline_index_at(rest, rest.len() as int);
        }
        let line = string_of_range(s, start, n);
        proof {
            done = done.push(line@);
        }
        out.push(line);
    } else {
        assert(s@.subrange(start as int, n as int).len() == 0);
        assert(done + seq![] =~= done);
    }
    assert(done =~= lines_seq(s@));
    out
}

/// The decimal digit character for `d < 10`.
pub open spec fn digit_char(d: nat) -> char {
    if d == 0 {
        '0'
    } else if d == 1 {
        '1'
    } else if d == 2 {
        '2'
    } else if d == 3 {
        '3'
    } else if d == 4 {
        '4'
    } else if d == 5 {
        '5'
    } else if d == 6 {
        '6'
    } else if d == 7 {
        '7'
    } else if d == 8 {
        '8'
    } else {
        '9'
    }
}

/// Decimal notation of `n`, without leading zeros.
pub open spec fn decimal_seq(n: nat) -> Seq<char>
    decreases n,
{
    if n < 10 {
        seq![digit_char(n)]
    } else {
        decimal_seq(n / 10).push(digit_char(n % 10))
    }
}

pub fn digit(d: u64) -> (c: char)
    requires
        d < 10,
    ensures
        c == digit_char(d as nat),
{
    if d == 0 {
        '0'
    } else if d == 1 {
        '1'
    } else if d == 2 {
        '2'
    } else if d == 3 {
        '3'
    } else if d == 4 {
        '4'
    } else if d == 5 {
        '5'
    } else if d == 6 {
        '6'
    } else if d == 7 {
        '7'
    } else if d == 8 {
        '8'
    } else {
        '9'
    }
}

/// Decimal notation of a number, as `format!("{n}")` writes it.
pub fn decimal(n: u64) -> (r: String)
    ensures
        r@ == decimal_seq(n as nat),
    decreases n,
{
    if n < 10 {
        let mut s = String::new();
        s.push(digit(n));
        assert(s@ =~= seq![digit_char(n as nat)]);
        s
    } else {
        let mut s = decimal(n / 10);
        s.push(digit(n % 10));
        s
    }
}

/// Whether every character of `s` is whitespace (`s.trim().is_empty()`).
pub fn is_blank(s: &str) -> (r: bool)
    ensures
        r == all_space(s@),
{
    let lc = chars_of(s);
    let mut j: usize = 0;
    while j < lc.len()
        invariant
            j <= lc@.len(),
            lc@ == s@,
            forall|k: int| 0 <= k < j ==> is_space(#[trigger] lc@[k]),
        decreases lc@.len() - j,
    {
        if !space(lc[j]) {
            return false;
        }
        j = j + 1;
    }
    true
}

} // verus!
