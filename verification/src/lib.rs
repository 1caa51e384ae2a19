//! A word-level Markov text model: a transition table built incrementally
//! from whitespace-tokenized lines of text, and weighted random generation
//! of new token sequences from the accumulated table.

pub mod model;
mod rng;
pub mod tokenizer;
pub mod transitions;
