use vstd::prelude::*;

verus! {

/// Failures of the tokenizer core. Each condition the tokenizer can reject is
/// a distinct variant, so callers can tell them apart; none of them is ever
/// reported by panicking.
#[derive(Clone, Copy, Debug, PartialEq, Eq, Structural)]
pub enum TokenizerError {
    /// The pre-tokenization pattern does not compile, or the pattern engine
    /// failed while scanning a text with it.
    PatternError,
    /// Two distinct byte-sequence keys of the encoder map carry the same
    /// rank, so no inverse map exists.
    DuplicateRankError,
    /// The merge engine was handed a piece of fewer than two bytes.
    ShortPieceError,
    /// Pre-tokenization produced a zero-length piece.
    EmptyPieceError,
    /// A merge produced a fragment that the encoder map does not contain:
    /// the vocabulary is missing a required atomic token.
    VocabularyInvariantError,
    /// A token id to decode is present in neither the ordinary nor the
    /// special decoder map.
    UnknownTokenError,
}

} // verus!
