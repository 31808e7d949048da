//! The BM25 backend's library side: where its index lives, which lines
//! of a file become documents, and how stored documents become hits.
//! Building and querying the index with tantivy is the program's part.
use vstd::prelude::*;
use crate::types::{Hit, ResultSet, Score, SearchOpts};
use crate::text::{owned, chars_of, lines_of, lines_seq, all_space};
use crate::util::{path_join, spec_join, apply_opts, spec_apply_opts};

verus! {

/// BM25 text search backend. Its index persists under `.ag/lex/` in the
/// working directory.
pub struct LexBackend {
    pub cwd: String,
    pub index_dir: String,
}

/// The index directory of a working directory: `cwd/.ag/lex`.
pub open spec fn lex_index_dir(cwd: Seq<char>) -> Seq<char> {
    spec_join(spec_join(cwd, ".ag"@), "lex"@)
}

/// The documents of a file: each line that is not all whitespace, with
/// its 1-based line number.
pub open spec fn line_docs(lines: Seq<Seq<char>>) -> Seq<(u64, Seq<char>)>
    decreases lines.len(),
{
    if lines.len() == 0 {
        seq![]
    } else if all_space(lines.last()) {
        line_docs(lines.drop_last())
    } else {
        line_docs(lines.drop_last()).push((lines.len() as u64, lines.last()))
    }
}

pub open spec fn docs_view(v: Seq<(u64, String)>) -> Seq<(u64, Seq<char>)> {
    v.map_values(|d: (u64, String)| (d.0, d.1@))
}

impl LexBackend {
    pub fn new(cwd: &str) -> (r: Self)
        ensures
            r.cwd@ == cwd@,
            r.index_dir@ == lex_index_dir(cwd@),
    {
        let ag = path_join(cwd, ".ag");
        let index_dir = path_join(ag.as_str(), "lex");
        LexBackend { cwd: owned(cwd), index_dir }
    }

    /// The file whose presence shows that the index was built.
    pub fn meta_path(&self) -> (r: String)
        ensures
            r@ == spec_join(self.index_dir@, "meta.json"@),
    {
        path_join(self.index_dir.as_str(), "meta.json")
    }

    /// The documents to index for a file's content: one per line that is
    /// not blank, numbered from 1.
    pub fn line_documents(content: &str) -> (r: Vec<(u64, String)>)
        ensures
            docs_view(r@) == line_docs(lines_seq(content@)),
    {
        let cs = chars_of(content);
        let lines = lines_of(&cs);
        let ghost ls = lines_seq(content@);
        let mut out: Vec<(u64, String)> = Vec::new();
        assert(docs_view(out@) =~= seq![]);
        for i in 0..lines.len()
            invariant
                ls == lines_seq(cs@),
                cs@ == content@,
                lines@.len() == ls.len(),
                forall|k: int| 0 <= k < lines@.len() ==> (#[trigger] lines@[k])@ == ls[k],
                docs_view(out@) == line_docs(ls.take(i as int)),
        {
            proof {
                assert(ls.take(i + 1).drop_last() =~= ls.take(i as int));
                assert(lines@[i as int]@ == ls[i as int]);
            }
            let line = &lines[i];
            let blank = crate::text::is_blank(line.as_str());
            if !blank {
                let ghost prev = out@;
                out.push(((i + 1) as u64, line.clone()));
                proof {
                    assert(docs_view(out@) =~= docs_view(prev).push(((i + 1) as u64, ls[i as int])));
                }
            }
        }
        assert(ls.take(lines@.len() as int) =~= ls);
        out
    }

    /// A hit from a stored document: a missing path or text reads as
    /// empty, a missing line number as 0; the line number is truncated to
    /// 32 bits.
    pub fn hit_of(path: Option<String>, line: Option<u64>, text: Option<String>, score: Score) -> (r: Hit)
        ensures
            r.path@ == (match path {
                Some(p) => p@,
                None => Seq::<char>::empty(),
            }),
            r.line == (match line {
                Some(n) => n as u32,
                None => 0u32,
            }),
            r.snippet@ == (match text {
                Some(t) => t@,
                None => Seq::<char>::empty(),
            }),
            r.score == score,
    {
        let p = match path {
            Some(p) => p,
            None => String::new(),
        };
        let n: u64 = match line {
            Some(n) => n,
            None => 0,
        };
        let t = match text {
            Some(t) => t,
            None => String::new(),
        };
        Hit { path: p, line: #[verifier::truncate] (n as u32), snippet: t, score }
    }

    /// The result of a query: the hits in the order the index ranked
    /// them, filtered by the search options.
    pub fn finish(hits: Vec<Hit>, opts: &SearchOpts) -> (r: ResultSet)
        ensures
            r.hits@ == spec_apply_opts(hits@, opts@),
    {
        ResultSet::from_hits(apply_opts(hits, opts))
    }
}

} // verus!
