//! Reader and writer for the text stream of a constraint-grammar
//! disambiguator: cohorts of word forms with their readings, interleaved
//! with plain and escaped text lines.
//!
//! `Output` holds a buffer; `Output::iter` folds its lines into blocks,
//! `Output::to_string` writes the blocks back, and `Output::sentences`
//! rebuilds plain-text sentences from them.
pub mod text;
pub mod tokenize;
pub mod model;
pub mod parse;
pub mod sentences;
pub mod laws;
pub mod round_trip;

pub use model::{Block, Cohort, Error, Line, Reading};
pub use parse::Output;
pub use sentences::sentences_of_blocks;
pub use tokenize::tokenize_tags;
