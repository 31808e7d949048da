//! Helpers shared by the search backends: file extensions, language
//! names, glob matching and filtering hits by search options.
use vstd::prelude::*;
use crate::types::{Hit, SearchOpts, OptsV, clone_hit};
use crate::text::{chars_of, string_of_range, has_prefix, starts_with};

verus! {

// ── Strings ─────────────────────────────────────────────────────────

/// Whether two strings hold the same characters.
pub fn str_eq(a: &str, b: &str) -> (r: bool)
    ensures
        r == (a@ == b@),
{
    a.to_owned().eq(&b.to_owned())
}

// ── Paths ───────────────────────────────────────────────────────────

/// `PathBuf::push` on Unix: an absolute component replaces the path;
/// otherwise a `/` separates the two unless the path is empty or already
/// ends with one.
pub open spec fn spec_join(base: Seq<char>, comp: Seq<char>) -> Seq<char> {
    if comp.len() > 0 && comp[0] == '/' {
        comp
    } else if base.len() == 0 || base.last() == '/' {
        base + comp
    } else {
        base + seq!['/'] + comp
    }
}

/// `Path::join` on Unix paths held as strings.
pub fn path_join(base: &str, comp: &str) -> (r: String)
    ensures
        r@ == spec_join(base@, comp@),
{
    let b = chars_of(base);
    let c = chars_of(comp);
    if c.len() > 0 && c[0] == '/' {
        return crate::text::owned(comp);
    }
    let mut out = crate::text::owned(base);
    if b.len() > 0 && b[b.len() - 1] != '/' {
        out.push('/');
    }
    crate::text::concat(&out, &crate::text::owned(comp))
}

/// Start of the path component that ends at `end`: just after the last
/// `/` before `end`, or 0.
pub open spec fn component_start(p: Seq<char>, end: int) -> int
    decreases end,
{
    if end <= 0 {
        0
    } else if p[end - 1] == '/' {
        end
    } else {
        component_start(p, end - 1)
    }
}

proof fn lemma_component_start(p: Seq<char>, end: int)
    requires
        0 <= end <= p.len(),
    ensures
        0 <= component_start(p, end) <= end,
        component_start(p, end) > 0 ==> p[component_start(p, end) - 1] == '/',
    decreases end,
{
    if end > 0 && p[end - 1] != '/' {
        lemma_component_start(p, end - 1);
    }
}

/// The file name of a path (`Path::file_name`): its last component that
/// is neither empty nor `.`, unless that component is `..`.
pub open spec fn file_name_before(p: Seq<char>, end: int) -> Option<Seq<char>>
    decreases end,
{
    if end <= 0 || end > p.len() {
        None
    } else {
        let st = component_start(p, end);
        let seg = p.subrange(st, end);
        if seg.len() == 0 || seg == "."@ {
            if st <= 0 || st > end {
                None
            } else {
                file_name_before(p, st - 1)
            }
        } else if seg == ".."@ {
            None
        } else {
            Some(seg)
        }
    }
}

pub open spec fn file_name(p: Seq<char>) -> Option<Seq<char>> {
    file_name_before(p, p.len() as int)
}

/// Index of the last `.` in `s`, or -1.
pub open spec fn last_dot(s: Seq<char>) -> int
    decreases s.len(),
{
    if s.len() == 0 {
        -1
    } else if s.last() == '.' {
        s.len() - 1
    } else {
        last_dot(s.drop_last())
    }
}

/// `Path::extension` of a file name: what follows its last `.`, unless
/// the only `.` starts the name.
pub open spec fn name_extension(name: Seq<char>) -> Option<Seq<char>> {
    let d = last_dot(name);
    if d <= 0 {
        None
    } else {
        Some(name.subrange(d + 1, name.len() as int))
    }
}

/// The extension of a path, or the empty string when it has none.
pub open spec fn ext_of(p: Seq<char>) -> Seq<char> {
    match file_name(p) {
        Some(n) => match name_extension(n) {
            Some(e) => e,
            None => seq![],
        },
        None => seq![],
    }
}

proof fn lemma_last_dot(s: Seq<char>)
    ensures
        -1 <= last_dot(s) < s.len(),
        last_dot(s) >= 0 ==> s[last_dot(s)] == '.',
    decreases s.len(),
{
    if s.len() > 0 && s.last() != '.' {
        lemma_last_dot(s.drop_last());
    }
}

/// The extension of a path, or the empty string.
pub fn extension(path: &str) -> (r: String)
    ensures
        r@ == ext_of(path@),
{
    let p = chars_of(path);
    let ghost ps = p@;
    let mut end = p.len();
    // Find the file name: walk components from the back.
    loop
        invariant
            ps == p@,
            ps == path@,
            end <= p@.len(),
            file_name_before(ps, end as int) == file_name(ps),
        decreases end,
    {
        if end == 0 {
            return String::new();
        }
        let mut st = end;
        while st > 0 && p[st - 1] != '/'
            invariant
                st <= end <= p@.len(),
                ps == p@,
                component_start(ps, st as int) == component_start(ps, end as int),
            decreases st,
        {
            st = st - 1;
        }
        proof {
            lemma_component_start(ps, end as int);
            assert(component_start(ps, st as int) == st);
        }
        let len = end - st;
        let is_dot = len == 1 && p[st] == '.';
        let is_dotdot = len == 2 && p[st] == '.' && p[st + 1] == '.';
        proof {
            let seg = ps.subrange(st as int, end as int);
            reveal_strlit(".");
            reveal_strlit("..");
            if is_dot {
                assert(seg =~= "."@);
            } else if len == 1 {
                assert(seg != "."@) by {
                    assert(seg[0] != "."@[0]);
                }
            }
            if is_dotdot {
                assert(seg =~= ".."@);
            } else if len == 2 {
                assert(seg != ".."@) by {
                    if seg[0] != '.' {
                        assert(seg[0] != ".."@[0]);
                    } else {
                        assert(seg[1] != ".."@[1]);
                    }
                }
            }
        }
        if len == 0 || is_dot {
            if st == 0 {
                return String::new();
            }
            end = st - 1;
        } else if is_dotdot {
            return String::new();
        } else {
            // The file name is p[st..end]; find its last dot.
            let mut d = end;
            proof {
                assert(file_name(ps) == Some(ps.subrange(st as int, end as int)));
                assert(ps.subrange(st as int, d as int) =~= ps.subrange(st as int, end as int));
            }
            while d > st && p[d - 1] != '.'
                invariant
                    st <= d <= end <= p@.len(),
                    ps == p@,
                    last_dot(ps.subrange(st as int, d as int)) == last_dot(
                        ps.subrange(st as int, end as int),
                    ),
                decreases d,
            {
                proof {
                    assert(ps.subrange(st as int, d as int).drop_last() =~= ps.subrange(
                        st as int,
                        d - 1,
                    ));
                }
                d = d - 1;
            }
            let ghost name = ps.subrange(st as int, end as int);
            proof {
                lemma_last_dot(name);
            }
            if d <= st + 1 {
                proof {
                    if d == st + 1 {
                        assert(last_dot(ps.subrange(st as int, d as int)) == 0);
                    }
                }
                return String::new();
            }
            proof {
                assert(last_dot(ps.subrange(st as int, d as int)) == d - 1 - st);
                assert(name.subrange(d - st, name.len() as int) =~= ps.subrange(d as int, end as int));
            }
            return string_of_range(&p, d, end);
        }
    }
}

/// File extensions that hold binary content.
pub open spec fn binary_ext(e: Seq<char>) -> bool {
    ||| e == "png"@ ||| e == "jpg"@ ||| e == "jpeg"@ ||| e == "gif"@ ||| e == "bmp"@
    ||| e == "ico"@ ||| e == "svg"@ ||| e == "woff"@ ||| e == "woff2"@ ||| e == "ttf"@
    ||| e == "eot"@ ||| e == "otf"@ ||| e == "zip"@ ||| e == "tar"@ ||| e == "gz"@
    ||| e == "bz2"@ ||| e == "xz"@ ||| e == "7z"@ ||| e == "exe"@ ||| e == "dll"@
    ||| e == "so"@ ||| e == "dylib"@ ||| e == "o"@ ||| e == "a"@ ||| e == "pdf"@
    ||| e == "doc"@ ||| e == "docx"@ ||| e == "xls"@ ||| e == "xlsx"@ ||| e == "mp3"@
    ||| e == "mp4"@ ||| e == "avi"@ ||| e == "mov"@ ||| e == "wav"@ ||| e == "wasm"@
    ||| e == "pyc"@ ||| e == "class"@ ||| e == "lock"@
}

/// Whether the path's extension marks a binary file.
pub fn is_binary_extension(path: &str) -> (r: bool)
    ensures
        r == binary_ext(ext_of(path@)),
{
    let e = extension(path);
    let e = e.as_str();
    str_eq(e, "png") || str_eq(e, "jpg") || str_eq(e, "jpeg") || str_eq(e, "gif") || str_eq(e, "bmp")
        || str_eq(e, "ico") || str_eq(e, "svg") || str_eq(e, "woff") || str_eq(e, "woff2")
        || str_eq(e, "ttf") || str_eq(e, "eot") || str_eq(e, "otf") || str_eq(e, "zip")
        || str_eq(e, "tar") || str_eq(e, "gz") || str_eq(e, "bz2") || str_eq(e, "xz")
        || str_eq(e, "7z") || str_eq(e, "exe") || str_eq(e, "dll") || str_eq(e, "so")
        || str_eq(e, "dylib") || str_eq(e, "o") || str_eq(e, "a") || str_eq(e, "pdf")
        || str_eq(e, "doc") || str_eq(e, "docx") || str_eq(e, "xls") || str_eq(e, "xlsx")
        || str_eq(e, "mp3") || str_eq(e, "mp4") || str_eq(e, "avi") || str_eq(e, "mov")
        || str_eq(e, "wav") || str_eq(e, "wasm") || str_eq(e, "pyc") || str_eq(e, "class")
        || str_eq(e, "lock")
}

/// Whether a path belongs to a language, by its extension. Full names and
/// common abbreviations are accepted; any other name is compared with the
/// extension itself.
pub open spec fn spec_matches_lang(path: Seq<char>, lang: Seq<char>) -> bool {
    let e = ext_of(path);
    if lang == "rust"@ || lang == "rs"@ {
        e == "rs"@
    } else if lang == "python"@ || lang == "py"@ {
        e == "py"@
    } else if lang == "javascript"@ || lang == "js"@ {
        e == "js"@ || e == "jsx"@
    } else if lang == "typescript"@ || lang == "ts"@ {
        e == "ts"@ || e == "tsx"@
    } else if lang == "go"@ {
        e == "go"@
    } else if lang == "java"@ {
        e == "java"@
    } else if lang == "c"@ {
        e == "c"@ || e == "h"@
    } else if lang == "cpp"@ || lang == "c++"@ || lang == "cxx"@ {
        e == "cpp"@ || e == "hpp"@ || e == "cc"@ || e == "cxx"@
    } else if lang == "ruby"@ || lang == "rb"@ {
        e == "rb"@
    } else if lang == "toml"@ {
        e == "toml"@
    } else if lang == "yaml"@ || lang == "yml"@ {
        e == "yaml"@ || e == "yml"@
    } else if lang == "json"@ {
        e == "json"@
    } else if lang == "markdown"@ || lang == "md"@ {
        e == "md"@
    } else if lang == "shell"@ || lang == "sh"@ || lang == "bash"@ {
        e == "sh"@ || e == "bash"@
    } else {
        e == lang
    }
}

/// Each documented abbreviation of a language name selects the same files
/// as its full name.
pub proof fn law_abbreviations_select_same_files(path: Seq<char>)
    ensures
        spec_matches_lang(path, "rs"@) == spec_matches_lang(path, "rust"@),
        spec_matches_lang(path, "py"@) == spec_matches_lang(path, "python"@),
        spec_matches_lang(path, "js"@) == spec_matches_lang(path, "javascript"@),
        spec_matches_lang(path, "ts"@) == spec_matches_lang(path, "typescript"@),
        spec_matches_lang(path, "rb"@) == spec_matches_lang(path, "ruby"@),
        spec_matches_lang(path, "c++"@) == spec_matches_lang(path, "cpp"@),
        spec_matches_lang(path, "cxx"@) == spec_matches_lang(path, "cpp"@),
        spec_matches_lang(path, "sh"@) == spec_matches_lang(path, "shell"@),
        spec_matches_lang(path, "bash"@) == spec_matches_lang(path, "shell"@),
        spec_matches_lang(path, "yml"@) == spec_matches_lang(path, "yaml"@),
        spec_matches_lang(path, "md"@) == spec_matches_lang(path, "markdown"@),
{
    reveal_strlit("rust");
    reveal_strlit("rs");
    reveal_strlit("python");
    reveal_strlit("py");
    reveal_strlit("javascript");
    reveal_strlit("js");
    reveal_strlit("typescript");
    reveal_strlit("ts");
    reveal_strlit("go");
    reveal_strlit("java");
    reveal_strlit("c");
    reveal_strlit("cpp");
    reveal_strlit("c++");
    reveal_strlit("cxx");
    reveal_strlit("ruby");
    reveal_strlit("rb");
    reveal_strlit("toml");
    reveal_strlit("yaml");
    reveal_strlit("yml");
    reveal_strlit("json");
    reveal_strlit("markdown");
    reveal_strlit("md");
    reveal_strlit("shell");
    reveal_strlit("sh");
    reveal_strlit("bash");
    // Names of different lengths differ; names of one length differ at a
    // character.
    assert("rust"@.len() == 4 && "rs"@.len() == 2 && "python"@.len() == 6 && "py"@.len() == 2);
    assert("javascript"@.len() == 10 && "js"@.len() == 2 && "typescript"@.len() == 10 && "ts"@.len() == 2);
    assert("go"@.len() == 2 && "java"@.len() == 4 && "c"@.len() == 1 && "cpp"@.len() == 3);
    assert("c++"@.len() == 3 && "cxx"@.len() == 3 && "ruby"@.len() == 4 && "rb"@.len() == 2);
    assert("toml"@.len() == 4 && "yaml"@.len() == 4 && "yml"@.len() == 3 && "json"@.len() == 4);
    assert("markdown"@.len() == 8 && "md"@.len() == 2 && "shell"@.len() == 5 && "sh"@.len() == 2);
    assert("bash"@.len() == 4);
    assert("py"@[0] != "rs"@[0] && "js"@[0] != "rs"@[0] && "js"@[0] != "py"@[0]);
    assert("ts"@[0] != "rs"@[0] && "ts"@[0] != "py"@[0] && "ts"@[0] != "js"@[0]);
    assert("typescript"@[0] != "javascript"@[0] && "rb"@[1] != "rs"@[1] && "rb"@[0] != "py"@[0]);
    assert("rb"@[0] != "js"@[0] && "rb"@[0] != "ts"@[0] && "rb"@[0] != "go"@[0]);
    assert("ruby"@[2] != "rust"@[2] && "ruby"@[0] != "java"@[0] && "c++"@[1] != "cpp"@[1]);
    assert("cxx"@[1] != "cpp"@[1] && "cxx"@[1] != "c++"@[1] && "sh"@[0] != "rs"@[0]);
    assert("sh"@[0] != "py"@[0] && "sh"@[0] != "js"@[0] && "sh"@[0] != "ts"@[0]);
    assert("sh"@[0] != "go"@[0] && "sh"@[0] != "rb"@[0] && "sh"@[0] != "md"@[0]);
    assert("bash"@[0] != "rust"@[0] && "bash"@[0] != "java"@[0] && "bash"@[0] != "ruby"@[0]);
    assert("bash"@[0] != "toml"@[0] && "bash"@[0] != "yaml"@[0] && "bash"@[0] != "json"@[0]);
    assert("yml"@[0] != "cpp"@[0] && "yml"@[0] != "c++"@[0] && "yml"@[0] != "cxx"@[0]);
    assert("yaml"@[0] != "rust"@[0] && "yaml"@[0] != "java"@[0] && "yaml"@[0] != "ruby"@[0]);
    assert("yaml"@[0] != "toml"@[0] && "md"@[0] != "rs"@[0] && "md"@[0] != "py"@[0]);
    assert("md"@[0] != "js"@[0] && "md"@[0] != "ts"@[0] && "md"@[0] != "go"@[0]);
    assert("md"@[0] != "rb"@[0]);
}

pub fn matches_lang(path: &str, lang: &str) -> (r: bool)
    ensures
        r == spec_matches_lang(path@, lang@),
{
    let es = extension(path);
    let e = es.as_str();
    if str_eq(lang, "rust") || str_eq(lang, "rs") {
        str_eq(e, "rs")
    } else if str_eq(lang, "python") || str_eq(lang, "py") {
        str_eq(e, "py")
    } else if str_eq(lang, "javascript") || str_eq(lang, "js") {
        str_eq(e, "js") || str_eq(e, "jsx")
    } else if str_eq(lang, "typescript") || str_eq(lang, "ts") {
        str_eq(e, "ts") || str_eq(e, "tsx")
    } else if str_eq(lang, "go") {
        str_eq(e, "go")
    } else if str_eq(lang, "java") {
        str_eq(e, "java")
    } else if str_eq(lang, "c") {
        str_eq(e, "c") || str_eq(e, "h")
    } else if str_eq(lang, "cpp") || str_eq(lang, "c++") || str_eq(lang, "cxx") {
        str_eq(e, "cpp") || str_eq(e, "hpp") || str_eq(e, "cc") || str_eq(e, "cxx")
    } else if str_eq(lang, "ruby") || str_eq(lang, "rb") {
        str_eq(e, "rb")
    } else if str_eq(lang, "toml") {
        str_eq(e, "toml")
    } else if str_eq(lang, "yaml") || str_eq(lang, "yml") {
        str_eq(e, "yaml") || str_eq(e, "yml")
    } else if str_eq(lang, "json") {
        str_eq(e, "json")
    } else if str_eq(lang, "markdown") || str_eq(lang, "md") {
        str_eq(e, "md")
    } else if str_eq(lang, "shell") || str_eq(lang, "sh") || str_eq(lang, "bash") {
        str_eq(e, "sh") || str_eq(e, "bash")
    } else {
        str_eq(e, lang)
    }
}

/// The ripgrep `--type` name for a language name.
pub open spec fn spec_rg_type_name(lang: Seq<char>) -> Seq<char> {
    if lang == "rs"@ {
        "rust"@
    } else if lang == "py"@ {
        "python"@
    } else if lang == "js"@ {
        "js"@
    } else if lang == "ts"@ {
        "ts"@
    } else if lang == "c++"@ || lang == "cxx"@ {
        "cpp"@
    } else if lang == "rb"@ {
        "ruby"@
    } else if lang == "yml"@ {
        "yaml"@
    } else if lang == "md"@ {
        "markdown"@
    } else if lang == "sh"@ || lang == "bash"@ {
        "shell"@
    } else {
        lang
    }
}

pub fn rg_type_name(lang: &str) -> (r: &str)
    ensures
        r@ == spec_rg_type_name(lang@),
{
    if str_eq(lang, "rs") {
        "rust"
    } else if str_eq(lang, "py") {
        "python"
    } else if str_eq(lang, "js") {
        "js"
    } else if str_eq(lang, "ts") {
        "ts"
    } else if str_eq(lang, "c++") || str_eq(lang, "cxx") {
        "cpp"
    } else if str_eq(lang, "rb") {
        "ruby"
    } else if str_eq(lang, "yml") {
        "yaml"
    } else if str_eq(lang, "md") {
        "markdown"
    } else if str_eq(lang, "sh") || str_eq(lang, "bash") {
        "shell"
    } else {
        lang
    }
}

// ── Globs (the `glob` crate) ────────────────────────────────────────

#[verifier::external_type_specification]
#[verifier::external_body]
pub struct ExGlobPattern(glob::Pattern);

#[verifier::external_type_specification]
#[verifier::external_body]
pub struct ExGlobPatternError(glob::PatternError);

/// Whether `glob::Pattern::new` accepts a pattern.
pub uninterp spec fn glob_accepts(pattern: Seq<char>) -> bool;

/// Whether the pattern compiled by `glob::Pattern::new` matches a path
/// under the default options of `glob::MatchOptions::new()`
/// (case-sensitive; `*`, `?` and `[..]` may match `/` and a leading `.`).
pub uninterp spec fn glob_matches(pattern: Seq<char>, path: Seq<char>) -> bool;

/// A compiled glob pattern with the text it was compiled from.
pub struct GlobPattern {
    source: String,
    compiled: glob::Pattern,
}

impl GlobPattern {
    pub closed spec fn source(&self) -> Seq<char> {
        self.source@
    }
}

/// `glob::Pattern::new`: compiles a Unix shell pattern. It fails on
/// invalid patterns (three or more `*` in a row, `**` not forming a whole
/// path component, an unclosed `[`); which patterns those are is named by
/// `glob_accepts`, not spelled out here.
#[verifier::external_body]
fn compile_glob(pattern: &str) -> (r: Result<GlobPattern, glob::PatternError>)
    ensures
        r is Ok == glob_accepts(pattern@),
        r matches Ok(g) ==> g.source() == pattern@,
{
    glob::Pattern::new(pattern).map(|p| GlobPattern { source: pattern.to_string(), compiled: p })
}

/// `glob::Pattern::matches`: matches a path against a compiled pattern
/// with `glob::MatchOptions::new()`. The result is named by
/// `glob_matches` over the pattern's text and the path.
#[verifier::external_body]
fn glob_pattern_matches(g: &GlobPattern, path: &str) -> (r: bool)
    ensures
        r == glob_matches(g.source(), path@),
{
    g.compiled.matches(path)
}

/// A path matches a glob when the glob is valid and matches it.
pub open spec fn glob_hit(pattern: Seq<char>, path: Seq<char>) -> bool {
    glob_accepts(pattern) && glob_matches(pattern, path)
}

/// Glob matching with the `glob` crate's syntax (`*`, `**`, `?`,
/// `[abc]`); an invalid pattern matches nothing.
pub fn glob_match(pattern: &str, path: &str) -> (r: bool)
    ensures
        r == glob_hit(pattern@, path@),
{
    match compile_glob(pattern) {
        Ok(g) => glob_pattern_matches(&g, path),
        Err(_) => false,
    }
}

// ── Filtering by search options ─────────────────────────────────────

/// Whether a path passes the filters: inside the scope, of the language,
/// matched by no exclude glob, and by some include glob when any is given.
pub open spec fn keep_path(o: OptsV, path: Seq<char>) -> bool {
    &&& (o.scope matches Some(s) ==> has_prefix(path, s))
    &&& (o.lang matches Some(l) ==> spec_matches_lang(path, l))
    &&& forall|t: int| 0 <= t < o.exclude.len() ==> !glob_hit(#[trigger] o.exclude[t], path)
    &&& (o.includes.len() == 0 || exists|t: int|
        0 <= t < o.includes.len() && glob_hit(#[trigger] o.includes[t], path))
}

/// The hits whose paths pass the filters, in order.
pub open spec fn spec_apply_opts(hs: Seq<Hit>, o: OptsV) -> Seq<Hit>
    decreases hs.len(),
{
    if hs.len() == 0 {
        seq![]
    } else if keep_path(o, hs.last().path@) {
        spec_apply_opts(hs.drop_last(), o).push(hs.last())
    } else {
        spec_apply_opts(hs.drop_last(), o)
    }
}

fn no_exclude_hits(path: &str, exclude: &Vec<String>) -> (r: bool)
    ensures
        r == forall|t: int| 0 <= t < exclude@.len() ==> !glob_hit(#[trigger] exclude@[t]@, path@),
{
    for t in 0..exclude.len()
        invariant
            forall|u: int| 0 <= u < t ==> !glob_hit(#[trigger] exclude@[u]@, path@),
    {
        if glob_match(exclude[t].as_str(), path) {
            return false;
        }
    }
    true
}

fn some_include_hits(path: &str, includes: &Vec<String>) -> (r: bool)
    ensures
        r == exists|t: int| 0 <= t < includes@.len() && glob_hit(#[trigger] includes@[t]@, path@),
{
    for t in 0..includes.len()
        invariant
            forall|u: int| 0 <= u < t ==> !glob_hit(#[trigger] includes@[u]@, path@),
    {
        if glob_match(includes[t].as_str(), path) {
            return true;
        }
    }
    false
}

proof fn lemma_apply_opts_members(hs: Seq<Hit>, o: OptsV)
    ensures
        forall|i: int| 0 <= i < spec_apply_opts(hs, o).len() ==> keep_path(o, (#[trigger] spec_apply_opts(hs, o)[i]).path@)
            && hs.contains(spec_apply_opts(hs, o)[i]),
        forall|i: int| 0 <= i < hs.len() && keep_path(o, (#[trigger] hs[i]).path@) ==> spec_apply_opts(hs, o).contains(hs[i]),
    decreases hs.len(),
{
    if hs.len() > 0 {
        let d = hs.drop_last();
        lemma_apply_opts_members(d, o);
        let r = spec_apply_opts(hs, o);
        let rd = spec_apply_opts(d, o);
        assert forall|i: int| 0 <= i < r.len() implies keep_path(o, (#[trigger] r[i]).path@) && hs.contains(r[i]) by {
            if i < rd.len() {
                assert(r[i] == rd[i]);
                let j = choose|j: int| 0 <= j < d.len() && d[j] == rd[i];
                assert(hs[j] == d[j]);
            } else {
                assert(r[i] == hs.last());
                assert(hs[hs.len() - 1] == hs.last());
            }
        }
        assert forall|i: int| 0 <= i < hs.len() && keep_path(o, (#[trigger] hs[i]).path@) implies r.contains(hs[i]) by {
            if i < d.len() {
                assert(d[i] == hs[i]);
                assert(rd.contains(d[i]));
                let j = choose|j: int| 0 <= j < rd.len() && rd[j] == d[i];
                assert(r[j] == rd[j]);
            } else {
                assert(r[r.len() - 1] == hs[i]);
            }
        }
    }
}

/// Filtering keeps exactly the hits whose paths pass every filter: inside
/// the scope, of the language, matched by no exclude glob (whatever the
/// include globs are), and by some include glob when any is given; what
/// it keeps comes from the input.
pub proof fn law_apply_opts_keeps_passing_hits(hs: Seq<Hit>, o: OptsV)
    ensures
        forall|i: int| 0 <= i < spec_apply_opts(hs, o).len() ==> {
            let h = #[trigger] spec_apply_opts(hs, o)[i];
            &&& hs.contains(h)
            &&& (o.scope matches Some(s) ==> has_prefix(h.path@, s))
            &&& (o.lang matches Some(l) ==> spec_matches_lang(h.path@, l))
            &&& forall|t: int| 0 <= t < o.exclude.len() ==> !glob_hit(#[trigger] o.exclude[t], h.path@)
            &&& (o.includes.len() > 0 ==> exists|t: int|
                0 <= t < o.includes.len() && glob_hit(#[trigger] o.includes[t], h.path@))
        },
        forall|i: int| 0 <= i < hs.len() ==> {
            let p = (#[trigger] hs[i]).path@;
            &&& (o.scope matches Some(s) ==> has_prefix(p, s))
            &&& (o.lang matches Some(l) ==> spec_matches_lang(p, l))
            &&& (forall|t: int| 0 <= t < o.exclude.len() ==> !glob_hit(#[trigger] o.exclude[t], p))
            &&& (o.includes.len() > 0 ==> exists|t: int|
                0 <= t < o.includes.len() && glob_hit(#[trigger] o.includes[t], p))
        } ==> spec_apply_opts(hs, o).contains(hs[i]),
{
    lemma_apply_opts_members(hs, o);
}

pub fn passes_opts(path: &String, opts: &SearchOpts) -> (r: bool)
    ensures
        r == keep_path(opts@, path@),
{
    let p = path.as_str();
    let scope_ok = match &opts.scope {
        Some(s) => starts_with(p, s.as_str()),
        None => true,
    };
    let lang_ok = match &opts.lang {
        Some(l) => matches_lang(p, l.as_str()),
        None => true,
    };
    let excl_ok = no_exclude_hits(p, &opts.exclude);
    let incl_ok = opts.includes.len() == 0 || some_include_hits(p, &opts.includes);
    proof {
        let o = opts@;
        assert(p@ == path@);
        assert(excl_ok == forall|t: int| 0 <= t < o.exclude.len() ==> !glob_hit(#[trigger] o.exclude[t], path@)) by {
            assert forall|t: int| 0 <= t < o.exclude.len() implies #[trigger] o.exclude[t] == opts.exclude@[t]@ by {}
            if !excl_ok {
                let t = choose|t: int| 0 <= t < opts.exclude@.len() && glob_hit(#[trigger] opts.exclude@[t]@, path@);
                assert(glob_hit(o.exclude[t], path@));
            }
        }
        assert(incl_ok == (o.includes.len() == 0 || exists|t: int| 0 <= t < o.includes.len() && glob_hit(#[trigger] o.includes[t], path@))) by {
            assert forall|t: int| 0 <= t < o.includes.len() implies #[trigger] o.includes[t] == opts.includes@[t]@ by {}
            if opts.includes.len() > 0 && incl_ok {
                let t = choose|t: int| 0 <= t < opts.includes@.len() && glob_hit(#[trigger] opts.includes@[t]@, path@);
                assert(glob_hit(o.includes[t], path@));
            }
        }
    }
    scope_ok && lang_ok && excl_ok && incl_ok
}

/// Filters hits by search options (scope, language, exclude and include
/// globs). Shared by the indexed backends for filtering after a query.
pub fn apply_opts(hits: Vec<Hit>, opts: &SearchOpts) -> (r: Vec<Hit>)
    ensures
        r@ == spec_apply_opts(hits@, opts@),
        forall|i: int| 0 <= i < r@.len() ==> keep_path(opts@, (#[trigger] r@[i]).path@),
{
    let mut out: Vec<Hit> = Vec::new();
    for i in 0..hits.len()
        invariant
            out@ == spec_apply_opts(hits@.take(i as int), opts@),
            forall|j: int| 0 <= j < out@.len() ==> keep_path(opts@, (#[trigger] out@[j]).path@),
    {
        proof {
            assert(hits@.take(i + 1).drop_last() =~= hits@.take(i as int));
        }
        if passes_opts(&hits[i].path, opts) {
            out.push(clone_hit(&hits[i]));
        }
    }
    assert(hits@.take(hits@.len() as int) =~= hits@);
    out
}

} // verus!
