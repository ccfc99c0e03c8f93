//! Build-profiling model: trace spans, their hierarchy, scheduling into
//! tracks, per-file and per-template aggregation, and the text helpers the
//! viewer needs.
pub mod sort;
pub mod text;
pub mod paths;
pub mod span;
pub mod search;
pub mod help;
pub mod cli;
pub mod view;
pub mod link;
pub mod ninja;
pub mod load;
pub mod sources;
pub mod candidates;
pub mod templates;
pub mod nav;
pub mod keys;
pub mod laws;
