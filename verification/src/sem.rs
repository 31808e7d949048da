//! The embedding backend's library side: where its index lives, how files
//! are cut into overlapping chunks, and how scored chunks become the
//! result. Embedding and similarity are floating-point work and happen in
//! the program.
use vstd::prelude::*;
use crate::types::{Hit, ResultSet, SearchOpts};
use crate::text::{owned, chars_of, lines_of, lines_seq, all_space, is_blank, concat};
use crate::util::{path_join, spec_join, apply_opts, spec_apply_opts};
use crate::fusion::{top_k, spec_top_k};

verus! {

/// Semantic embedding search backend. Its index persists as
/// `.ag/sem/index.json` in the working directory.
pub struct SemBackend {
    pub cwd: String,
    pub index_dir: String,
}

/// The version written into a stored index; an index of another version is
/// rebuilt.
pub const INDEX_VERSION: u32 = 1;

/// Lines per chunk.
pub const CHUNK_SIZE: usize = 10;

/// Lines between the starts of consecutive chunks.
pub const CHUNK_STEP: usize = 5;

/// Hits kept from a similarity ranking before filtering.
pub const SEM_LIMIT: usize = 100;

/// The index directory of a working directory: `cwd/.ag/sem`.
pub open spec fn sem_index_dir(cwd: Seq<char>) -> Seq<char> {
    spec_join(spec_join(cwd, ".ag"@), "sem"@)
}

/// Lines joined with line feeds.
pub open spec fn join_lines(ls: Seq<Seq<char>>) -> Seq<char>
    decreases ls.len(),
{
    if ls.len() == 0 {
        seq![]
    } else if ls.len() == 1 {
        ls[0]
    } else {
        join_lines(ls.drop_last()) + seq!['\n'] + ls.last()
    }
}

pub open spec fn min_nat(a: nat, b: nat) -> nat {
    if a <= b {
        a
    } else {
        b
    }
}

/// The chunks of a file from line `i` on: windows of ten lines starting
/// every five lines, each joined with line feeds and numbered by its first
/// line (from 1, truncated to 32 bits); all-whitespace windows are left
/// out.
pub open spec fn chunks_from(ls: Seq<Seq<char>>, i: nat) -> Seq<(u32, Seq<char>)>
    decreases ls.len() + 5 - i,
{
    if i >= ls.len() {
        seq![]
    } else {
        let text = join_lines(ls.subrange(i as int, min_nat(i + 10, ls.len()) as int));
        (if all_space(text) {
            seq![]
        } else {
            seq![((i + 1) as u32, text)]
        }) + chunks_from(ls, i + 5)
    }
}

pub open spec fn chunks_view(v: Seq<(u32, String)>) -> Seq<(u32, Seq<char>)> {
    v.map_values(|c: (u32, String)| (c.0, c.1@))
}

/// The first line of a text, or nothing.
pub open spec fn spec_first_line(t: Seq<char>) -> Seq<char> {
    let ls = lines_seq(t);
    if ls.len() > 0 {
        ls[0]
    } else {
        seq![]
    }
}

fn join_range(lines: &Vec<String>, from: usize, to: usize) -> (r: String)
    requires
        from < to <= lines@.len(),
    ensures
        r@ == join_lines(lines@.subrange(from as int, to as int).map_values(|s: String| s@)),
{
    let ghost v = lines@.map_values(|s: String| s@);
    let mut out = lines[from].clone();
    let mut k = from + 1;
    proof {
        assert(v.subrange(from as int, k as int) =~= seq![lines@[from as int]@]);
    }
    while k < to
        invariant
            from < k <= to <= lines@.len(),
            v == lines@.map_values(|s: String| s@),
            out@ == join_lines(v.subrange(from as int, k as int)),
        decreases to - k,
    {
        out.push('\n');
        out = concat(&out, &lines[k]);
        proof {
            assert(v.subrange(from as int, k + 1).drop_last() =~= v.subrange(from as int, k as int));
            assert(v.subrange(from as int, k + 1).last() == lines@[k as int]@);
        }
        k = k + 1;
    }
    proof {
        assert(lines@.subrange(from as int, to as int).map_values(|s: String| s@) =~= v.subrange(
            from as int,
            to as int,
        ));
    }
    out
}

impl SemBackend {
    pub fn new(cwd: &str) -> (r: Self)
        ensures
            r.cwd@ == cwd@,
            r.index_dir@ == sem_index_dir(cwd@),
    {
        let ag = path_join(cwd, ".ag");
        let index_dir = path_join(ag.as_str(), "sem");
        SemBackend { cwd: owned(cwd), index_dir }
    }

    /// The stored index: `index.json` in the index directory.
    pub fn index_path(&self) -> (r: String)
        ensures
            r@ == spec_join(self.index_dir@, "index.json"@),
    {
        path_join(self.index_dir.as_str(), "index.json")
    }

    /// Whether a stored index of this version can be used.
    pub fn index_is_current(version: u32) -> (r: bool)
        ensures
            r == (version == INDEX_VERSION),
    {
        version == INDEX_VERSION
    }

    /// The chunks of a file's content to embed: windows of ten lines
    /// starting every five lines, numbered by their first line.
    pub fn chunk_lines(content: &str) -> (r: Vec<(u32, String)>)
        ensures
            chunks_view(r@) == chunks_from(lines_seq(content@), 0),
    {
        let cs = chars_of(content);
        let lines = lines_of(&cs);
        let ghost ls = lines_seq(content@);
        proof {
            assert(lines@.map_values(|s: String| s@) =~= ls);
        }
        let n = lines.len();
        let mut out: Vec<(u32, String)> = Vec::new();
        let mut i: usize = 0;
        assert(chunks_view(out@) =~= seq![]);
        assert(chunks_from(ls, 0) =~= seq![] + chunks_from(ls, 0));
        while i < n
            invariant
                ls == lines_seq(content@),
                n == ls.len(),
                lines@.map_values(|s: String| s@) == ls,
                i <= n,
                chunks_from(ls, 0) == chunks_view(out@) + chunks_from(ls, i as nat),
            decreases n - i,
        {
            let end = if n - i > CHUNK_SIZE {
                i + CHUNK_SIZE
            } else {
                n
            };
            let text = join_range(&lines, i, end);
            proof {
                assert(lines@.subrange(i as int, end as int).map_values(|s: String| s@) =~= ls.subrange(
                    i as int,
                    end as int,
                ));
            }
            let ghost prev = out@;
            if !is_blank(text.as_str()) {
                out.push((#[verifier::truncate] ((i + 1) as u32), text));
                proof {
                    assert(chunks_view(out@) =~= chunks_view(prev) + seq![(((i + 1) as u32), join_lines(ls.subrange(i as int, end as int)))]);
                }
            }
            proof {
                assert(chunks_from(ls, i as nat) == (if all_space(join_lines(ls.subrange(i as int, end as int))) {
                    seq![]
                } else {
                    seq![((i + 1) as u32, join_lines(ls.subrange(i as int, end as int)))]
                }) + chunks_from(ls, (i + 5) as nat));
            }
            if n - i > CHUNK_STEP {
                i = i + CHUNK_STEP;
            } else {
                proof {
                    assert(chunks_from(ls, (i + 5) as nat) =~= seq![]);
                    assert(chunks_from(ls, n as nat) =~= seq![]);
                }
                i = n;
            }
        }
        proof {
            assert(chunks_from(ls, i as nat) =~= seq![]);
            assert(chunks_view(out@) + seq![] =~= chunks_view(out@));
        }
        out
    }

    /// The text kept with a chunk: its first line.
    pub fn first_line(text: &str) -> (r: String)
        ensures
            r@ == spec_first_line(text@),
    {
        let cs = chars_of(text);
        let lines = lines_of(&cs);
        if lines.len() > 0 {
            lines[0].clone()
        } else {
            String::new()
        }
    }

    /// The result of a query from hits scored by similarity, in chunk
    /// order: the hundred best by score (stable for equal scores), then
    /// filtered by the search options.
    pub fn rank_hits(hits: Vec<Hit>, opts: &SearchOpts) -> (r: ResultSet)
        ensures
            r.hits@ == spec_apply_opts(spec_top_k(hits@, SEM_LIMIT as nat), opts@),
    {
        let best = top_k(&ResultSet::from_hits(hits), SEM_LIMIT);
        ResultSet::from_hits(apply_opts(best.hits, opts))
    }
}

// ── Model input for a batch of texts ────────────────────────────────

pub open spec fn rows_view(v: Seq<Vec<u32>>) -> Seq<Seq<u32>> {
    v.map_values(|r: Vec<u32>| r@)
}

/// The length of the longest row (0 for no rows).
pub open spec fn longest(rows: Seq<Seq<u32>>) -> nat
    decreases rows.len(),
{
    if rows.len() == 0 {
        0
    } else {
        let a = longest(rows.drop_last());
        if rows.last().len() > a {
            rows.last().len()
        } else {
            a
        }
    }
}

/// A row cut or zero-padded to `m` entries.
pub open spec fn padded_row(row: Seq<u32>, m: nat) -> Seq<i64> {
    Seq::new(m, |j: int| if j < row.len() { row[j] as i64 } else { 0i64 })
}

/// The rows, each cut or zero-padded to `m` entries, one after another.
pub open spec fn padded_rows(rows: Seq<Seq<u32>>, m: nat) -> Seq<i64>
    decreases rows.len(),
{
    if rows.len() == 0 {
        seq![]
    } else {
        padded_rows(rows.drop_last(), m) + padded_row(rows.last(), m)
    }
}

/// Each of `n` rows padded to `m` entries gives `n * m` entries.
proof fn lemma_padded_rows_len(a: Seq<Seq<u32>>, m: nat)
    ensures
        padded_rows(a, m).len() == a.len() * m,
    decreases a.len(),
{
    if a.len() > 0 {
        lemma_padded_rows_len(a.drop_last(), m);
        assert(padded_rows(a, m).len() == (a.len() - 1) * m + m);
        assert((a.len() - 1) * m + m == a.len() * m) by (nonlinear_arith);
    }
}

proof fn lemma_padded_len(a: Seq<Seq<u32>>, b: Seq<Seq<u32>>, m: nat)
    requires
        a.len() == b.len(),
    ensures
        padded_rows(a, m).len() == padded_rows(b, m).len(),
    decreases a.len(),
{
    if a.len() > 0 {
        lemma_padded_len(a.drop_last(), b.drop_last(), m);
    }
}

fn pad_row(out: &mut Vec<i64>, row: &Vec<u32>, m: usize)
    ensures
        final(out)@ == old(out)@ + padded_row(row@, m as nat),
{
    let ghost start = out@;
    for j in 0..m
        invariant
            out@ == start + padded_row(row@, m as nat).take(j as int),
    {
        let x: i64 = if j < row.len() {
            row[j] as i64
        } else {
            0
        };
        out.push(x);
        proof {
            assert(padded_row(row@, m as nat).take(j + 1) =~= padded_row(row@, m as nat).take(j as int).push(x));
            assert(out@ =~= start + padded_row(row@, m as nat).take(j + 1));
        }
    }
    assert(padded_row(row@, m as nat).take(m as int) =~= padded_row(row@, m as nat));
}

/// The model input for a batch of encoded texts: the token ids and the
/// attention masks, each row zero-padded (a mask row also cut) to the
/// longest row of ids and laid out row after row; token type ids, all
/// zero, of the same length; and that longest length.
pub fn pad_batch(ids: &Vec<Vec<u32>>, masks: &Vec<Vec<u32>>) -> (r: (Vec<i64>, Vec<i64>, Vec<i64>, usize))
    requires
        masks.len() == ids.len(),
    ensures
        r.3 == longest(rows_view(ids@)),
        r.0@ == padded_rows(rows_view(ids@), r.3 as nat),
        r.1@ == padded_rows(rows_view(masks@), r.3 as nat),
        r.0@.len() == ids@.len() * r.3,
        r.2@.len() == r.0@.len(),
        forall|k: int| 0 <= k < r.2@.len() ==> r.2@[k] == 0,
{
    let ghost rows = rows_view(ids@);
    let mut m: usize = 0;
    for i in 0..ids.len()
        invariant
            rows == rows_view(ids@),
            m == longest(rows.take(i as int)),
    {
        proof {
            assert(rows.take(i + 1).drop_last() =~= rows.take(i as int));
            assert(rows.take(i + 1).last() == ids@[i as int]@);
        }
        if ids[i].len() > m {
            m = ids[i].len();
        }
    }
    assert(rows.take(ids@.len() as int) =~= rows);
    let mut input_ids: Vec<i64> = Vec::new();
    let mut attention: Vec<i64> = Vec::new();
    let mut types: Vec<i64> = Vec::new();
    let ghost mrows = rows_view(masks@);
    for i in 0..ids.len()
        invariant
            masks@.len() == ids@.len(),
            rows == rows_view(ids@),
            mrows == rows_view(masks@),
            input_ids@ == padded_rows(rows.take(i as int), m as nat),
            attention@ == padded_rows(mrows.take(i as int), m as nat),
            types@.len() == input_ids@.len(),
            forall|k: int| 0 <= k < types@.len() ==> types@[k] == 0,
    {
        proof {
            assert(rows.take(i + 1).drop_last() =~= rows.take(i as int));
            assert(rows.take(i + 1).last() == ids@[i as int]@);
            assert(mrows.take(i + 1).drop_last() =~= mrows.take(i as int));
            assert(mrows.take(i + 1).last() == masks@[i as int]@);
        }
        let ghost t0 = types@.len();
        pad_row(&mut input_ids, &ids[i], m);
        pad_row(&mut attention, &masks[i], m);
        assert(input_ids@.len() == t0 + m);
        for j in 0..m
            invariant
                types@.len() == t0 + j,
                forall|k: int| 0 <= k < types@.len() ==> types@[k] == 0,
        {
            types.push(0);
        }
    }
    assert(rows.take(ids@.len() as int) =~= rows);
    assert(mrows.take(ids@.len() as int) =~= mrows);
    proof {
        lemma_padded_rows_len(rows, m as nat);
    }
    (input_ids, attention, types, m)
}

/// The tokenizer of the embedding model.
#[verifier::external_type_specification]
#[verifier::external_body]
pub struct ExTokenizer(tokenizers::Tokenizer);

/// `Tokenizer::encode_batch` of tokenizers, with special tokens, taken
/// apart into each text's token ids and attention mask, or the tokenizer's
/// error as text. Its source encodes each input once and collects the
/// encodings in input order, so there is one row per text; what the rows
/// hold depends on the loaded tokenizer and is not stated.
#[verifier::external_body]
fn encode_texts(tokenizer: &tokenizers::Tokenizer, texts: Vec<String>) -> (r: Result<Vec<(Vec<u32>, Vec<u32>)>, String>)
    ensures
        r matches Ok(v) ==> v.len() == texts.len(),
{
    match tokenizer.encode_batch(texts, true) {
        Ok(es) => Ok(es.iter().map(|e| (e.get_ids().to_vec(), e.get_attention_mask().to_vec())).collect()),
        Err(e) => Err(e.to_string()),
    }
}

/// The token ids of encoded texts, one row per text.
pub open spec fn ids_of(rows: Seq<(Vec<u32>, Vec<u32>)>) -> Seq<Seq<u32>> {
    rows.map_values(|r: (Vec<u32>, Vec<u32>)| r.0@)
}

/// The attention masks of encoded texts, one row per text.
pub open spec fn masks_of(rows: Seq<(Vec<u32>, Vec<u32>)>) -> Seq<Seq<u32>> {
    rows.map_values(|r: (Vec<u32>, Vec<u32>)| r.1@)
}

/// Entry `j` of row `i` of padded rows is the row's entry `j`, or zero
/// past the row's end: each row lands in its own block of `m` entries.
pub proof fn law_padded_rows_entries(rows: Seq<Seq<u32>>, m: nat, i: int, j: int)
    requires
        0 <= i < rows.len(),
        0 <= j < m,
    ensures
        padded_rows(rows, m).len() == rows.len() * m,
        padded_rows(rows, m)[i * m + j] == if j < rows[i].len() {
            rows[i][j] as i64
        } else {
            0i64
        },
    decreases rows.len(),
{
    lemma_padded_rows_len(rows, m);
    let d = rows.drop_last();
    lemma_padded_rows_len(d, m);
    assert(padded_rows(rows, m) == padded_rows(d, m) + padded_row(rows.last(), m));
    if i < d.len() {
        law_padded_rows_entries(d, m, i, j);
        assert(i * m + j < d.len() * m) by (nonlinear_arith)
            requires
                0 <= i < d.len(),
                0 <= j < m,
        ;
        assert(d[i] == rows[i]);
    } else {
        assert(i * m + j - d.len() * m == j) by (nonlinear_arith)
            requires
                i == d.len(),
        ;
        assert(i * m + j >= d.len() * m) by (nonlinear_arith)
            requires
                i == d.len(),
                0 <= j,
        ;
    }
}

fn copy_row(v: &Vec<u32>) -> (r: Vec<u32>)
    ensures
        r@ == v@,
{
    let mut out: Vec<u32> = Vec::new();
    for k in 0..v.len()
        invariant
            out@ == v@.take(k as int),
    {
        out.push(v[k]);
        assert(out@ =~= v@.take(k + 1));
    }
    assert(v@.take(v@.len() as int) =~= v@);
    out
}

/// The model input for texts already encoded into token ids and
/// attention masks: the ids padded into `input_ids`, the masks into the
/// attention input, in the order of the texts (see `pad_batch`).
pub fn batch_input_of_encodings(rows: &Vec<(Vec<u32>, Vec<u32>)>) -> (r: (Vec<i64>, Vec<i64>, Vec<i64>, usize))
    ensures
        r.3 == longest(ids_of(rows@)),
        r.0@ == padded_rows(ids_of(rows@), r.3 as nat),
        r.1@ == padded_rows(masks_of(rows@), r.3 as nat),
        r.0@.len() == rows@.len() * r.3,
        r.1@.len() == r.0@.len(),
        r.2@.len() == r.0@.len(),
        forall|k: int| 0 <= k < r.2@.len() ==> r.2@[k] == 0,
{
    let mut ids: Vec<Vec<u32>> = Vec::new();
    let mut masks: Vec<Vec<u32>> = Vec::new();
    for i in 0..rows.len()
        invariant
            rows_view(ids@) == ids_of(rows@.take(i as int)),
            rows_view(masks@) == masks_of(rows@.take(i as int)),
    {
        let ghost pi = ids@;
        let ghost pm = masks@;
        let a = copy_row(&rows[i].0);
        let b = copy_row(&rows[i].1);
        ids.push(a);
        masks.push(b);
        proof {
            assert(rows@.take(i + 1) =~= rows@.take(i as int).push(rows@[i as int]));
            assert(rows_view(ids@) =~= rows_view(pi).push(rows@[i as int].0@));
            assert(rows_view(masks@) =~= rows_view(pm).push(rows@[i as int].1@));
            assert(ids_of(rows@.take(i + 1)) =~= ids_of(rows@.take(i as int)).push(rows@[i as int].0@));
            assert(masks_of(rows@.take(i + 1)) =~= masks_of(rows@.take(i as int)).push(rows@[i as int].1@));
        }
    }
    assert(rows@.take(rows@.len() as int) =~= rows@);
    let r = pad_batch(&ids, &masks);
    proof {
        lemma_padded_len(rows_view(ids@), rows_view(masks@), r.3 as nat);
    }
    r
}

/// The model input for a batch of texts: each text encoded by the
/// tokenizer, then laid out by `batch_input_of_encodings`; or the
/// tokenizer's error. The input is that of some encoding of each text,
/// one row of ids and one of mask per text; which encoding depends on the
/// tokenizer loaded from disk.
pub fn encode_batch_input(tokenizer: &tokenizers::Tokenizer, texts: Vec<String>) -> (r: Result<
    (Vec<i64>, Vec<i64>, Vec<i64>, usize),
    String,
>)
    ensures
        r matches Ok(x) ==> {
            &&& x.0@.len() == texts@.len() * x.3
            &&& x.1@.len() == x.0@.len()
            &&& x.2@.len() == x.0@.len()
            &&& forall|k: int| 0 <= k < x.2@.len() ==> x.2@[k] == 0
            &&& exists|ids: Seq<Seq<u32>>, masks: Seq<Seq<u32>>| {
                &&& ids.len() == texts@.len()
                &&& masks.len() == texts@.len()
                &&& x.3 == longest(ids)
                &&& x.0@ == padded_rows(ids, x.3 as nat)
                &&& x.1@ == padded_rows(masks, x.3 as nat)
            }
        },
{
    let ghost n = texts@.len();
    let rows = match encode_texts(tokenizer, texts) {
        Ok(v) => v,
        Err(m) => {
            return Err(m);
        },
    };
    let r = batch_input_of_encodings(&rows);
    proof {
        assert(ids_of(rows@).len() == n && masks_of(rows@).len() == n);
    }
    Ok(r)
}

} // verus!
