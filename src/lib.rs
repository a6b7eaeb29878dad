//! Queries against word embeddings and the evaluation of analogy test sets:
//! similarity ranking, masked analogies, accuracy counting per section, and
//! the settings of embedding quantization.
pub mod accuracy;
pub mod analogies;
pub mod options;
pub mod quantize;
pub mod query;
pub mod similarity;
pub mod text;
pub mod vocab;
