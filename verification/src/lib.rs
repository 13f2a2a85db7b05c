//! A symbol graph made from the index that clang leaves while it builds.
//!
//! A build with `-index-store-path` leaves a store of units, one for each
//! compilation, and records, one for each source file as it was compiled.
//! [`merge`] brings a graph to what such a store says, reading only what changed.
//! [`query`] answers questions to the graph: where a symbol is defined, where it
//! occurs, what calls it and what it calls, its bases and overrides, its members,
//! and what a file declares.
//!
//! - [`db`] is the graph: tables of files, symbols, records, units, occurrences
//!   and relations.
//! - [`ffi`] and [`store`] are what is read of a store.
//! - [`plan`] is what a merge has to read and remove, and [`changes`] what has to
//!   be written after it.
//! - [`cli`] is the command line.
//! - [`text`] and [`rows`] are texts and lists of rows.
//! - [`growth`], [`mirror`], [`presence`], [`laws`] and [`rebuild`] say what holds of
//!   merges, [`answers`] and [`wording`] what holds of answers.
//! - [`values`], [`plain`] and [`naming`] say in plain terms what values, numbers,
//!   texts and names mean. On them stand [`meaning`], [`telling`] and [`asking`],
//!   which say what questions are answered with, and [`upkeep`], [`outcome`] and
//!   [`failing`], which say what merges read, leave and fail with.
//!
//! The graph and the store are plain values here. Reading them from disk and
//! writing them back is left to the program around this library.
pub mod answers;
pub mod asking;
pub mod changes;
pub mod cli;
pub mod db;
pub mod failing;
pub mod ffi;
pub mod growth;
pub mod laws;
pub mod meaning;
pub mod merge;
pub mod mirror;
pub mod naming;
pub mod outcome;
pub mod plain;
pub mod plan;
pub mod presence;
pub mod query;
pub mod rebuild;
pub mod rows;
pub mod store;
pub mod telling;
pub mod text;
pub mod upkeep;
pub mod values;
pub mod wording;

pub use merge::{merge, MergeStats};
