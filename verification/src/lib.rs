//! Analyzer for `yarn.lock` dependency lockfiles.
//!
//! The parser (`parser`) runs a section state machine over the file's lines
//! and builds a dependency graph (`graph`): a mapping from each package
//! header token to its set of `name@version` dependency values, held in
//! strict lexicographic order. The reporter (`report`) prints either the
//! full adjacency summary or, given keywords, the ancestor chain to every
//! matching package, guarded against cycles and unbounded depth. The
//! analyzer entry points (`analyzer`) tie the two together for files named
//! `yarn.lock`.

pub mod analyzer;
pub mod errors;
pub mod graph;
pub mod parser;
pub mod report;
pub mod strutil;
pub mod util;
