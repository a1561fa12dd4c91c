//! A regex-driven tokenizer with a choice of how competing matches are
//! resolved, a per-type post-processing stage for its tokens, and a
//! shift-reduce parsing engine whose rules are supplied at run time.
pub mod ebnf;
pub mod parser;
pub mod postproc;
pub mod tokenizer;
