//! Line-level attribution of source code to human or AI authorship.
//!
//! The engine extracts changed-line ranges from a commit's diff, derives a
//! content-normalized rewrite key, keeps a store of attribution rows with an
//! idempotent population step, exchanges attribution as a text+JSON note,
//! reconciles overlapping rows into one verdict per line, and aggregates
//! coverage and contribution statistics.

pub mod cli;
pub mod cover;
pub mod coverage;
pub mod extract;
pub mod lens;
pub mod models;
pub mod notes;
pub mod notes_io;
pub mod order;
pub mod prefs;
pub mod ranges;
pub mod rewrite;
pub mod roundtrip;
pub mod stats;
pub mod store;
pub mod text;
