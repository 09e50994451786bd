//! The pre-tokenizer: an externally supplied pattern splits raw text into
//! the candidate byte pieces the merge engine works on.
//!
//! The pattern engine itself lives in the `fancy_regex` crate, behind the
//! two trusted wrappers below. Both the success of compiling a pattern and
//! the sequence of matched pieces are functions of the pattern and the text
//! alone, so each carries an uninterpreted name that the wrappers' contracts
//! and the encoder's contract share.

use vstd::prelude::*;

use crate::merge::vecs_view;

verus! {

/// Whether the pre-tokenization pattern compiles.
pub uninterp spec fn pattern_ok(pat: Seq<char>) -> bool;

/// The byte pieces that scanning `text` with the pattern `pat` yields: the
/// bytes of each successive non-overlapping match, left to right. `None`
/// where the pattern does not compile or the scan itself fails.
pub uninterp spec fn piece_seq(pat: Seq<char>, text: Seq<char>) -> Option<Seq<Seq<u8>>>;

/// Relies on `fancy_regex::Regex::new`: whether a pattern compiles is a
/// function of the pattern string alone.
#[verifier::external_body]
pub(crate) fn pattern_compiles(pattern: &str) -> (r: bool)
    ensures
        r == pattern_ok(pattern@),
{
    fancy_regex::Regex::new(pattern).is_ok()
}

/// Relies on `fancy_regex::Regex::new` and `Regex::find_iter`: the
/// successive non-overlapping matches of a pattern over a text, taken left
/// to right, are a function of the pattern and the text alone; compiling
/// and scanning with default options, `None` comes exactly where the
/// pattern does not compile or the scan reports an error.
#[verifier::external_body]
pub(crate) fn find_pieces(pattern: &str, text: &str) -> (r: Option<Vec<Vec<u8>>>)
    ensures
        match r {
            Some(v) => piece_seq(pattern@, text@) == Some(vecs_view(v@)),
            None => piece_seq(pattern@, text@) is None,
        },
{
    let re = match fancy_regex::Regex::new(pattern) {
        Ok(re) => re,
        Err(_) => return None,
    };
    let mut out: Vec<Vec<u8>> = Vec::new();
    for m in re.find_iter(text) {
        match m {
            Ok(found) => out.push(found.as_str().as_bytes().to_vec()),
            Err(_) => return None,
        }
    }
    Some(out)
}

} // verus!
