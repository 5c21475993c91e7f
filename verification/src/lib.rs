//! Parallel grep with trigram indexing: the searching, formatting and
//! indexing logic, with contracts checked by Verus.

pub mod bytes;
pub mod cache;
pub mod cli;
pub mod finder;
pub mod output;
pub mod pattern;
pub mod regex_engine;
pub mod searcher;
pub mod text;
pub mod trigram;
pub mod walker;
pub mod search_laws;
pub mod parallel;
