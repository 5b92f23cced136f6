//! A part-of-speech tagger built on a hidden Markov model.
//!
//! Counts gathered from a tagged corpus are smoothed into log-likelihood
//! tables, and the most likely tag sequence of a sentence is decoded with the
//! Viterbi algorithm. Log-likelihoods are held in fixed point, so that every
//! score is an integer and decoding is exact.

pub mod text;
pub mod utils;
pub mod nlp;
pub mod hmm;

pub use utils::{
    ConditionalStringCounter, ConditionalStringFrequencyDistribution, StringCounter,
    StringFrequencyDistribution,
};
