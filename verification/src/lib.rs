//! Selection algebra for a text-editing engine.
//!
//! A selection is one or more anchor/head ranges over a text buffer, kept
//! sorted and non-overlapping by a normalization pass. This crate defines the
//! `Range` and `Selection` value types, the change-set remapping that keeps a
//! selection valid across edits, and the pattern-driven transforms that refine
//! a selection by matching.
pub mod changes;
pub mod matching;
pub mod pattern;
pub mod range;
pub mod selection;
pub mod text;

pub use changes::ChangeSet;
pub use changes::Operation;
pub use matching::keep_matches;
pub use matching::select_on_matches;
pub use matching::split_on_matches;
pub use range::Range;
pub use range::abs_difference;
pub use selection::Selection;
