//! Corpus line format and the classification of unknown words.

pub mod hapax_patterns;
pub mod parsing;

pub use hapax_patterns::get_matching_artificial_tag;
pub use parsing::{extract_word_and_tag, preprocess_sentence};

use vstd::prelude::*;

verus! {

/// The tag of the terminal pair that closes every sentence, and its word.
pub const END_TAG: &'static str = "END";

/// A word with its tag.
pub type TaggedWord = (String, String);

/// A sentence as its words, each with its tag.
pub type TaggedSentence = Vec<TaggedWord>;

} // verus!
