//! Word alignment of parallel sentences: tokenisation into vocabulary ids,
//! hard alignments as sets of index pairs, their combination and evaluation,
//! and the edit distance between word forms.

pub mod alignment;
pub mod cli;
pub mod evaluator;
pub mod levenshtein;
pub mod optimizer;
pub mod reader;
pub mod text;
pub mod utils;
pub mod vocab;
