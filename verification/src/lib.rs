//! Per-area Web Platform Tests score summaries for browsers, out of wpt.fyi runs.
//!
//! Runs are listed ([`wptfyi`]) and selected ([`process`]), their results read out of a cache
//! ([`cache`]) or a summary file ([`wptfyi`]), scored for every directory of the WPT tree
//! ([`score`]), and appended to a dataset ([`summary`]) that is kept in files ([`files`]).

pub mod area_map;
pub mod arg_laws;
pub mod args;
pub mod cache;
pub mod cache_laws;
pub mod file_laws;
pub mod files;
pub mod process;
pub mod run_laws;
pub mod score;
pub mod score_laws;
pub mod sort;
pub mod store_laws;
pub mod summary;
pub mod text;
pub mod text_laws;
pub mod time;
pub mod wptfyi;
