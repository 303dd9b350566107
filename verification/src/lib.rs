//! A character-level bigram model of words.
//!
//! Training counts, for every pair of adjacent characters in the words it is
//! given, how often the second followed the first. Generation walks these
//! counts at random: it starts at a character that has successors, goes on
//! from each character to one of its successors with a chance in proportion
//! to its count, and ends after as many characters as were asked for.

pub mod analysis;
pub mod corpus;
pub mod laws;
pub mod model;
pub mod ordered;
pub mod sampling;
pub mod successors;
pub mod sums;
pub mod table;
pub mod tally;
pub mod text;
pub mod walk;

pub use analysis::{Analyzer, Dictionary};
pub use corpus::TxtReader;
pub use model::{GenerateError, Model};
pub use successors::Successors;
pub use table::FrequencyTable;
