//! A Bayesian spam classifier.
//!
//! A message is cut into word tokens; each token's spam/ham observation
//! counts are kept in a model, and a message is scored by combining the
//! per-token spam probabilities into one spam likelihood. All probability
//! arithmetic is exact: a probability is a ratio of integer weights, and
//! combined scores are ratios of big-integer products, so every contract
//! states precisely which rational number an operation yields.

pub mod bignum;
pub mod classifier;
pub mod codec;
pub mod laws;
pub mod rating;
pub mod score;
pub mod tokenizer;

pub use tokenizer::words_of;
