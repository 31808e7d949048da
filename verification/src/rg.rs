//! The ripgrep backend: the command line it is run with, and the reading
//! of its `--json` output into hits. Running the process is the
//! program's part.
use vstd::prelude::*;
use crate::types::{Hit, Score, SearchOpts, OptsV, SqError, SqErrorV, strings_view};
use crate::text::{owned, concat, chars_of, lines_of, lines_seq, trim_end, trim_end_seq};
use crate::util::{str_eq, rg_type_name, spec_rg_type_name};

verus! {

/// Ripgrep backend: shells out to `rg --json` in `cwd`. No index; it scans
/// the file system on every query.
pub struct RgBackend {
    pub cwd: String,
}

/// The arguments `--glob <g>` for each glob, with `!` before each glob
/// when `negate` holds.
pub open spec fn glob_args(globs: Seq<Seq<char>>, negate: bool) -> Seq<Seq<char>>
    decreases globs.len(),
{
    if globs.len() == 0 {
        seq![]
    } else {
        glob_args(globs.drop_last(), negate).push("--glob"@).push(
            if negate {
                "!"@ + globs.last()
            } else {
                globs.last()
            },
        )
    }
}

/// The options of an `rg` run before its pattern: JSON output, the
/// language as ripgrep's `--type` name (abbreviations mapped), the exclude
/// globs negated, the include globs.
pub open spec fn rg_flags(o: OptsV) -> Seq<Seq<char>> {
    seq!["--json"@, "--no-heading"@] + (match o.lang {
        Some(l) => seq!["--type"@, spec_rg_type_name(l)],
        None => seq![],
    }) + glob_args(o.exclude, true) + glob_args(o.includes, false)
}

/// The argument list of an `rg` run: the flags, the query after `-e` (so
/// that a pattern starting with `-` is not read as an option), and the
/// scope as the path to search.
pub open spec fn rg_args(q: Seq<char>, o: OptsV) -> Seq<Seq<char>> {
    rg_flags(o) + seq!["-e"@, q] + (match o.scope {
        Some(s) => seq![s],
        None => seq![],
    })
}

/// The argument list of an `rg` run restricted to some files: the flags,
/// the query after `-e`, and the files as the paths to search.
pub open spec fn rg_args_in(q: Seq<char>, o: OptsV, files: Seq<Seq<char>>) -> Seq<Seq<char>> {
    rg_flags(o) + seq!["-e"@, q] + files
}

fn push_arg(v: &mut Vec<String>, s: String)
    ensures
        strings_view(final(v)@) == strings_view(old(v)@).push(s@),
{
    v.push(s);
    proof {
        assert(strings_view(v@) =~= strings_view(old(v)@).push(s@));
    }
}

fn push_globs(args: &mut Vec<String>, globs: &Vec<String>, negate: bool)
    ensures
        strings_view(final(args)@) == strings_view(old(args)@) + glob_args(strings_view(globs@), negate),
{
    let ghost start = strings_view(args@);
    for i in 0..globs.len()
        invariant
            strings_view(args@) == start + glob_args(strings_view(globs@.take(i as int)), negate),
    {
        proof {
            assert(strings_view(globs@.take(i + 1)).drop_last() =~= strings_view(globs@.take(i as int)));
            assert(strings_view(globs@.take(i + 1)).last() == globs@[i as int]@);
        }
        push_arg(args, owned("--glob"));
        if negate {
            push_arg(args, concat(&owned("!"), &globs[i]));
        } else {
            push_arg(args, globs[i].clone());
        }
        proof {
            let g = strings_view(globs@.take(i as int));
            let x = if negate { "!"@ + globs@[i as int]@ } else { globs@[i as int]@ };
            assert(start + glob_args(g, negate).push("--glob"@).push(x) =~= (start + glob_args(g, negate)).push(
                "--glob"@,
            ).push(x));
        }
    }
    assert(globs@.take(globs@.len() as int) =~= globs@);
}

impl RgBackend {
    pub fn new(cwd: &str) -> (r: Self)
        ensures
            r.cwd@ == cwd@,
    {
        RgBackend { cwd: owned(cwd) }
    }

    /// The arguments `rg` is run with for a query and its filters.
    pub fn build_args(&self, query: &str, opts: &SearchOpts) -> (r: Vec<String>)
        ensures
            strings_view(r@) == rg_args(query@, opts@),
    {
        let mut args: Vec<String> = Vec::new();
        proof {
            assert(strings_view(args@) =~= seq![]);
        }
        push_arg(&mut args, owned("--json"));
        push_arg(&mut args, owned("--no-heading"));
        let ghost a0 = strings_view(args@);
        assert(a0 =~= seq!["--json"@, "--no-heading"@]);
        if let Some(lang) = &opts.lang {
            push_arg(&mut args, owned("--type"));
            push_arg(&mut args, owned(rg_type_name(lang.as_str())));
        }
        let ghost a1 = strings_view(args@);
        assert(a1 =~= a0 + (match opts@.lang {
            Some(l) => seq!["--type"@, spec_rg_type_name(l)],
            None => seq![],
        }));
        push_globs(&mut args, &opts.exclude, true);
        push_globs(&mut args, &opts.includes, false);
        proof {
            assert(strings_view(args@) =~= rg_flags(opts@));
        }
        push_arg(&mut args, owned("-e"));
        push_arg(&mut args, owned(query));
        let ghost a2 = strings_view(args@);
        if let Some(scope) = &opts.scope {
            push_arg(&mut args, scope.clone());
        }
        proof {
            assert(strings_view(args@) =~= a2 + (match opts@.scope {
                Some(s) => seq![s],
                None => seq![],
            }));
        }
        args
    }

    /// The arguments `rg` is run with for a search restricted to some
    /// files (the target of a pipe): the files take the place of the
    /// scope.
    pub fn build_args_in(&self, query: &str, opts: &SearchOpts, files: &Vec<String>) -> (r: Vec<String>)
        ensures
            strings_view(r@) == rg_args_in(query@, opts@, strings_view(files@)),
    {
        let mut args: Vec<String> = Vec::new();
        proof {
            assert(strings_view(args@) =~= seq![]);
        }
        push_arg(&mut args, owned("--json"));
        push_arg(&mut args, owned("--no-heading"));
        let ghost a0 = strings_view(args@);
        assert(a0 =~= seq!["--json"@, "--no-heading"@]);
        if let Some(lang) = &opts.lang {
            push_arg(&mut args, owned("--type"));
            push_arg(&mut args, owned(rg_type_name(lang.as_str())));
        }
        let ghost a1 = strings_view(args@);
        assert(a1 =~= a0 + (match opts@.lang {
            Some(l) => seq!["--type"@, spec_rg_type_name(l)],
            None => seq![],
        }));
        push_globs(&mut args, &opts.exclude, true);
        push_globs(&mut args, &opts.includes, false);
        proof {
            assert(strings_view(args@) =~= rg_flags(opts@));
        }
        push_arg(&mut args, owned("-e"));
        push_arg(&mut args, owned(query));
        let ghost a2 = strings_view(args@);
        for i in 0..files.len()
            invariant
                strings_view(args@) == a2 + strings_view(files@.take(i as int)),
        {
            push_arg(&mut args, files[i].clone());
            proof {
                assert(strings_view(files@.take(i + 1)) =~= strings_view(files@.take(i as int)).push(files@[i as int]@));
                assert(a2 + strings_view(files@.take(i + 1)) =~= (a2 + strings_view(files@.take(i as int))).push(files@[i as int]@));
            }
        }
        proof {
            assert(files@.take(files@.len() as int) =~= files@);
        }
        args
    }
}

// ── Reading `rg --json` output ──────────────────────────────────────

/// What a JSON pointer addresses in a JSON text: nothing (also when the
/// text is not JSON), a string, a number (with its value when it is an
/// unsigned 64-bit integer), or another kind of value.
pub enum JsonItem {
    Absent,
    Str(String),
    Num(Option<u64>),
    Other,
}

pub enum JsonItemV {
    Absent,
    Str(Seq<char>),
    Num(Option<u64>),
    Other,
}

impl JsonItem {
    pub fn clone_item(&self) -> (r: JsonItem)
        ensures
            r@ == self@,
    {
        match self {
            JsonItem::Absent => JsonItem::Absent,
            JsonItem::Str(s) => JsonItem::Str(s.clone()),
            JsonItem::Num(n) => JsonItem::Num(*n),
            JsonItem::Other => JsonItem::Other,
        }
    }
}

impl View for JsonItem {
    type V = JsonItemV;

    open spec fn view(&self) -> JsonItemV {
        match self {
            JsonItem::Absent => JsonItemV::Absent,
            JsonItem::Str(s) => JsonItemV::Str(s@),
            JsonItem::Num(n) => JsonItemV::Num(*n),
            JsonItem::Other => JsonItemV::Other,
        }
    }
}

/// What `serde_json` finds at a JSON pointer (RFC 6901) in a text.
pub uninterp spec fn json_item_at(text: Seq<char>, pointer: Seq<char>) -> JsonItemV;

/// `serde_json::from_str` into a `serde_json::Value`, then
/// `Value::pointer`, then the kind of the value found (with
/// `Number::as_u64` for numbers). The result is named by `json_item_at`
/// over the text and the pointer; nothing more is claimed of it.
#[verifier::external_body]
fn json_at(text: &str, pointer: &str) -> (r: JsonItem)
    ensures
        r@ == json_item_at(text@, pointer@),
{
    let parsed: Result<serde_json::Value, serde_json::Error> = serde_json::from_str(text);
    match parsed.as_ref().ok().and_then(|v| v.pointer(pointer)) {
        None => JsonItem::Absent,
        Some(serde_json::Value::String(s)) => JsonItem::Str(s.clone()),
        Some(serde_json::Value::Number(n)) => JsonItem::Num(n.as_u64()),
        Some(_) => JsonItem::Other,
    }
}

/// A hit as plain values: path, line, snippet and score bits.
pub open spec fn hit_fields(h: Hit) -> (Seq<char>, u32, Seq<char>, u64) {
    (h.path@, h.line, h.snippet@, h.score.0)
}

pub open spec fn hits_fields(hs: Seq<Hit>) -> Seq<(Seq<char>, u32, Seq<char>, u64)> {
    hs.map_values(|h: Hit| hit_fields(h))
}

pub open spec fn text_or_empty(j: JsonItemV) -> Seq<char> {
    match j {
        JsonItemV::Str(s) => s,
        _ => seq![],
    }
}

pub open spec fn u64_or_zero(j: JsonItemV) -> u64 {
    match j {
        JsonItemV::Num(Some(n)) => n,
        _ => 0,
    }
}

/// The hit that a message of `rg --json` output stands for, given what
/// is found at its `/type`, `/data/path`, `/data/line_number`,
/// `/data/lines`, `/data/path/text` and `/data/lines/text`: only a message
/// of type `match` whose data has a path, a line number and lines gives
/// one. A missing text or number inside them reads as empty or zero; the
/// line number is truncated to 32 bits and the snippet loses its trailing
/// whitespace.
pub open spec fn record_of_items(
    kind: JsonItemV,
    path: JsonItemV,
    number: JsonItemV,
    lines: JsonItemV,
    path_text: JsonItemV,
    lines_text: JsonItemV,
) -> Option<(Seq<char>, u32, Seq<char>, u64)> {
    if kind != JsonItemV::Str("match"@) {
        None
    } else if path is Absent || number is Absent || lines is Absent {
        None
    } else {
        Some((text_or_empty(path_text), u64_or_zero(number) as u32, trim_end_seq(text_or_empty(lines_text)), 0u64))
    }
}

/// The hit that one line of `rg --json` output stands for: none for an
/// empty line, else the record of what `serde_json` finds in it.
pub open spec fn match_record(line: Seq<char>) -> Option<(Seq<char>, u32, Seq<char>, u64)> {
    if line.len() == 0 {
        None
    } else {
        record_of_items(
            json_item_at(line, "/type"@),
            json_item_at(line, "/data/path"@),
            json_item_at(line, "/data/line_number"@),
            json_item_at(line, "/data/lines"@),
            json_item_at(line, "/data/path/text"@),
            json_item_at(line, "/data/lines/text"@),
        )
    }
}

/// The hits of a sequence of output lines, in order.
pub open spec fn match_records(lines: Seq<Seq<char>>) -> Seq<(Seq<char>, u32, Seq<char>, u64)>
    decreases lines.len(),
{
    if lines.len() == 0 {
        seq![]
    } else {
        let prev = match_records(lines.drop_last());
        match match_record(lines.last()) {
            Some(h) => prev.push(h),
            None => prev,
        }
    }
}

/// The hits in the output of `rg --json`.
pub open spec fn spec_parse_rg_json(output: Seq<char>) -> Seq<(Seq<char>, u32, Seq<char>, u64)> {
    match_records(lines_seq(output))
}

fn text_of(j: JsonItem) -> (r: String)
    ensures
        r@ == text_or_empty(j@),
{
    match j {
        JsonItem::Str(s) => s,
        _ => String::new(),
    }
}

fn present(j: JsonItem) -> (r: bool)
    ensures
        r == !(j@ is Absent),
{
    match j {
        JsonItem::Absent => false,
        _ => true,
    }
}

/// The hit a message of `rg --json` output stands for, from what was found
/// at its pointers (see `record_of_items`).
pub fn record_from_items(
    kind: JsonItem,
    path: JsonItem,
    number: JsonItem,
    lines: JsonItem,
    path_text: JsonItem,
    lines_text: JsonItem,
) -> (r: Option<Hit>)
    ensures
        match r {
            Some(h) => record_of_items(kind@, path@, number@, lines@, path_text@, lines_text@) == Some(hit_fields(h)),
            None => record_of_items(kind@, path@, number@, lines@, path_text@, lines_text@) is None,
        },
{
    let is_match = match &kind {
        JsonItem::Str(t) => str_eq(t.as_str(), "match"),
        _ => false,
    };
    if !is_match {
        return None;
    }
    if !(present(path) && present(number.clone_item()) && present(lines)) {
        return None;
    }
    let n: u64 = match number {
        JsonItem::Num(Some(n)) => n,
        _ => 0,
    };
    let text = text_of(lines_text);
    let snippet = trim_end(text.as_str());
    Some(Hit { path: text_of(path_text), line: #[verifier::truncate] (n as u32), snippet, score: Score::zero() })
}

fn record_hit(line: &str) -> (r: Option<Hit>)
    ensures
        match r {
            Some(h) => match_record(line@) == Some(hit_fields(h)),
            None => match_record(line@) is None,
        },
{
    if line.is_empty() {
        return None;
    }
    record_from_items(
        json_at(line, "/type"),
        json_at(line, "/data/path"),
        json_at(line, "/data/line_number"),
        json_at(line, "/data/lines"),
        json_at(line, "/data/path/text"),
        json_at(line, "/data/lines/text"),
    )
}

/// Parses `rg --json` output into hits: one per message of type `match`,
/// in the order of the output.
pub fn parse_rg_json(output: &str) -> (r: Vec<Hit>)
    ensures
        hits_fields(r@) == spec_parse_rg_json(output@),
{
    let chars = chars_of(output);
    let lines = lines_of(&chars);
    let ghost ls = lines_seq(output@);
    let mut hits: Vec<Hit> = Vec::new();
    proof {
        assert(hits_fields(hits@) =~= seq![]);
    }
    for i in 0..lines.len()
        invariant
            ls == lines_seq(chars@),
            lines@.len() == ls.len(),
            forall|k: int| 0 <= k < lines@.len() ==> (#[trigger] lines@[k])@ == ls[k],
            hits_fields(hits@) == match_records(ls.take(i as int)),
    {
        proof {
            assert(ls.take(i + 1).drop_last() =~= ls.take(i as int));
            assert(lines@[i as int]@ == ls[i as int]);
        }
        match record_hit(lines[i].as_str()) {
            Some(h) => {
                let ghost prev = hits@;
                hits.push(h);
                proof {
                    assert(hits_fields(hits@) =~= hits_fields(prev).push(hit_fields(h)));
                }
            },
            None => {},
        }
    }
    assert(ls.take(lines@.len() as int) =~= ls);
    hits
}

/// What a finished `rg` run gives: its exit status 0 or 1 (no match) gives
/// the hits in its output; any other status is an error carrying what it
/// wrote to standard error.
pub fn search_outcome(success: bool, code: Option<i32>, stdout: &str, stderr: &str) -> (r: Result<
    Vec<Hit>,
    SqError,
>)
    ensures
        (!success && code != Some(1i32)) ==> (r matches Err(e) && e@ == SqErrorV::Rg(
            "rg failed: "@ + stderr@,
        )),
        !(!success && code != Some(1i32)) ==> (r matches Ok(hs) && hits_fields(hs@)
            == spec_parse_rg_json(stdout@)),
{
    let no_match = match code {
        Some(c) => c == 1,
        None => false,
    };
    if !success && !no_match {
        return Err(SqError::Rg(concat(&owned("rg failed: "), &owned(stderr))));
    }
    Ok(parse_rg_json(stdout))
}

/// The error for an `rg` process that could not be started: a missing
/// program gets installation advice, anything else its description.
pub fn spawn_failure(not_found: bool, detail: &str) -> (r: SqError)
    ensures
        not_found ==> r@ == SqErrorV::Rg("ripgrep not found. Install: brew install ripgrep"@),
        !not_found ==> r@ == SqErrorV::Rg("failed to run rg: "@ + detail@),
{
    if not_found {
        SqError::Rg(owned("ripgrep not found. Install: brew install ripgrep"))
    } else {
        SqError::Rg(concat(&owned("failed to run rg: "), &owned(detail)))
    }
}

} // verus!
