//! A byte-pair-encoding tokenizer core: a rank table mapping byte sequences
//! to integer token ids, a merge engine that reduces a byte piece to the
//! lowest-rank sequence of known tokens, and an encoder/decoder pair built on
//! them, together with the small tensor and layer scaffolding that consumes
//! the token ids.

pub mod device;
pub mod embedding;
pub mod errors;
pub mod lexsort;
pub mod linear;
pub mod merge;
pub mod pretoken;
pub mod rankmap;
pub mod tensor;
pub mod text;
pub mod tokenizer;
