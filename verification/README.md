# sift

Sift is a small S-expression language that composes code searches
(ripgrep, BM25, embeddings) and fuses their ranked results; `ag` is its
command line.

```lisp
(top 10 (mix [0.6 0.4] (rg "retry|backoff") (rg "exponential")))
(- (rg "authenticate\\(") (rg "fn authenticate"))
(let [x (rg "pub")] (batch :all (top 3 x) :structs (& x (rg "struct"))))
```

## Layout

- `src/` — the library, verified with Verus:
  - `types.rs`: hits, scores (IEEE-754 bits with a proved float order),
    result sets and their stable sort, search options, the expression
    tree, errors, the environment of `let` bindings.
  - `text.rs`: whitespace, trimming, line splitting, decimal rendering.
  - `parse.rs`: the tokenizer and the recursive-descent parser, both
    proved against a grammar stated as spec functions.
  - `fusion.rs`: intersection, union, difference, top-k, threshold and
    the grouping step of reciprocal rank fusion.
  - `eval.rs`: the evaluator. Outside work (running `rg`, reading
    numeric literals, fusion scores) is asked for as a request and
    answered by the caller; the searches of a query outside pipe targets
    are known up front and can be run in parallel, while a pipe's target
    is searched after its source, within the source's files.
  - `util.rs`, `rg.rs`, `lex.rs`, `sem.rs`, `cli.rs`: the logic of the
    backends and of the command line (arguments for `rg`, reading its
    JSON output, file chunking, the embedding model's input, auto mode,
    sizes).
- `tests/` — tests of the library.
- `app/` — the `ag` program: argument parsing, processes, floating-point
  scoring, indexing with tantivy and ONNX embeddings, rendering.
