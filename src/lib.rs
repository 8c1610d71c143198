//! Finds the surface forms of a controlled vocabulary in free text, masks the
//! first occurrence of each form per paragraph, and reports one record per
//! detection.
//!
//! - `text`: character-level string operations with exact specifications.
//! - `vocab`: the vocabulary, the banned-stem noise filter, and the builders
//!   of both.
//! - `matcher`: the paragraph-scoped bigram/unigram matcher.
//! - `report`: report lines, input kinds, and the per-line decisions of the
//!   structured (JSON lines) input.
pub mod text;
pub mod vocab;
pub mod matcher;
pub mod report;
