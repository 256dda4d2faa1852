//! Verified core of a recursive source-inlining engine: starting from one
//! or more root files it walks the reference graph discovered while reading
//! them, inlines each resolvable, filter-approved header exactly once per
//! run, detects reference cycles, and produces one amalgamated output with
//! optional `#line` annotations, optional blank-line trimming, and optional
//! wrapper notes around each nested file's contribution.
//!
//! The engine is pure over a [`snapshot::Snapshot`] of file-system facts;
//! when a fact is missing it asks for it, and the caller (see the
//! accompanying program) answers from the real file system and runs again.
//! [`model`] defines, as one recursive specification, the exact trace of
//! output items a run must produce; [`engine`] implements it and is proved
//! equal to it; [`props`] derives run-long properties from the model:
//! deduplication, pragma stripping, and line-directive correctness.
pub mod directive;
pub mod engine;
pub mod errors;
pub mod filter;
pub mod merge;
pub mod model;
pub mod props;
pub mod resolve;
pub mod snapshot;
pub mod text;
