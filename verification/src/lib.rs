//! CPU-bound preprocessing primitives for language-model pipelines:
//! token estimates, text cleaning and chunking, and top-k ranking of
//! similarity scores. Every function carries a contract. Verus proves all of
//! them but three, which say what a call into std, regex and rayon returns
//! and are believed: `push_char` in [`chars`], `replace_all` in [`cleaner`]
//! and `parallel_sum` in [`basics`].
//!
//! Texts are modelled as sequences of characters, scores and norms as the
//! bit patterns of IEEE 754 doubles; arithmetic on doubles is left to the
//! caller.
//!
//! - [`chunker`] splits a text into chunks of whole sentences within a token
//!   budget; [`chunk_laws`] states what holds of every chunking.
//! - [`ranking`] returns the `k` best of a batch of scored candidates and
//!   refuses a batch with a candidate of another length than the query;
//!   [`ranking_laws`] states that the answer is determined.
//! - [`similarity`] decides which vectors can be compared and when their
//!   similarity is zero.
//! - [`cleaner`] normalises the white space of a text; [`cleaner_laws`]
//!   states the shape of the result.
//! - [`tokens`] estimates the number of tokens of a text.
//! - [`basics`] holds a greeting, a parallel sum and Fibonacci numbers.
//! - [`chars`], [`trim`], [`split`] and [`sentences`] are the text primitives
//!   that the others build on, and [`error`] is the error that they report.

pub mod error;
pub mod chars;
pub mod trim;
pub mod split;
pub mod sentences;
pub mod chunker;
pub mod chunk_laws;
pub mod cleaner;
pub mod cleaner_laws;
pub mod tokens;
pub mod ranking;
pub mod ranking_laws;
pub mod similarity;
pub mod basics;
