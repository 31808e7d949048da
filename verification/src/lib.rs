//! Sift: a small S-expression language that composes code searches
//! (ripgrep, BM25, embeddings) and fuses their ranked results.
//!
//! The library holds the language (tokenizer, parser, evaluator), the
//! result algebra (intersection, union, difference, top-k, threshold,
//! reciprocal-rank-fusion grouping) and the helpers the search backends
//! share. Process spawning, file walking, indexing, floating-point
//! arithmetic and rendering live in the `ag` program around it.

pub mod types;
pub mod text;
pub mod fusion;
pub mod parse;
pub mod util;
pub mod rg;
pub mod lex;
pub mod sem;
pub mod eval;
pub mod cli;
