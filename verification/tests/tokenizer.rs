use phi2::errors::TokenizerError;
use phi2::merge::{byte_pair_encode, byte_pair_merge, byte_pair_split};
use phi2::rankmap::RankMap;
use phi2::tokenizer::CoreBPE;

fn setup_ranks() -> RankMap {
    let mut ranks = RankMap::new();
    ranks.insert(b"ab".to_vec(), 0);
    ranks.insert(b"cd".to_vec(), 1);
    ranks.insert(b"ef".to_vec(), 2);
    ranks
}

#[test]
fn test_simple_characters() {
    let ranks = setup_ranks();
    let res = byte_pair_split(b"abcd", &ranks).unwrap();
    assert_eq!(res, vec![b"ab".to_vec(), b"cd".to_vec()]);
}

#[test]
fn test_repeated_characters() {
    let ranks = setup_ranks();
    let res = byte_pair_split(b"abab", &ranks).unwrap();
    assert_eq!(res, vec![b"ab".to_vec(), b"ab".to_vec()]);
}

#[test]
fn test_core_bpe_encoding() {
    let ranks = setup_ranks();
    let tokenizer = CoreBPE::new(ranks, Vec::new(), r"\b(ab|cd|ef)\b").unwrap();
    let result = tokenizer.encode("ab ab cd ef").unwrap();
    assert_eq!(vec![0, 0, 1, 2], result);
}

#[test]
fn test_core_bpe_decoding() {
    let ranks = setup_ranks();
    let tokenizer = CoreBPE::new(ranks, Vec::new(), r"\b(ab|cd|ef)\b").unwrap();
    let example: [u32; 4] = [0, 0, 1, 2];
    let result = tokenizer.decode(&example).unwrap();
    let result_str = match String::from_utf8(result) {
        Ok(r) => r,
        Err(_) => "failed string".to_string(),
    };
    assert_eq!(result_str, "ababcdef");
}

#[test]
fn test_round_trip_piece() {
    let mut ranks = RankMap::new();
    ranks.insert(b"ab".to_vec(), 0);
    ranks.insert(b"cd".to_vec(), 1);
    ranks.insert(b"a".to_vec(), 10);
    ranks.insert(b"b".to_vec(), 11);
    ranks.insert(b"c".to_vec(), 12);
    ranks.insert(b"d".to_vec(), 13);
    let encoded = byte_pair_encode(b"abcd", &ranks).unwrap();
    let tokenizer = CoreBPE::new(ranks, Vec::new(), r"\S+").unwrap();
    let decoded = tokenizer.decode(&encoded).unwrap();
    assert_eq!(decoded, b"abcd".to_vec());
}

#[test]
fn test_encoding_deterministic() {
    let ranks = setup_ranks();
    let first = byte_pair_encode(b"abab", &ranks).unwrap();
    let second = byte_pair_encode(b"abab", &ranks).unwrap();
    assert_eq!(first, second);
    let tokenizer = CoreBPE::new(setup_ranks(), Vec::new(), r"\b(ab|cd|ef)\b").unwrap();
    assert_eq!(
        tokenizer.encode("ab ab cd ef").unwrap(),
        tokenizer.encode("ab ab cd ef").unwrap()
    );
}

#[test]
fn test_duplicate_rank_rejected() {
    let mut ranks = RankMap::new();
    ranks.insert(b"ab".to_vec(), 0);
    ranks.insert(b"cd".to_vec(), 0);
    let result = CoreBPE::new(ranks, Vec::new(), r"\b(ab|cd)\b");
    assert!(matches!(result, Err(TokenizerError::DuplicateRankError)));
}

#[test]
fn test_bad_pattern_rejected() {
    let ranks = setup_ranks();
    let result = CoreBPE::new(ranks, Vec::new(), "(");
    assert!(matches!(result, Err(TokenizerError::PatternError)));
}

#[test]
fn test_short_piece_rejected() {
    let ranks = setup_ranks();
    assert!(matches!(
        byte_pair_merge(b"a", &ranks),
        Err(TokenizerError::ShortPieceError)
    ));
    assert!(matches!(
        byte_pair_encode(b"", &ranks),
        Err(TokenizerError::ShortPieceError)
    ));
    assert!(matches!(
        byte_pair_split(b"x", &ranks),
        Err(TokenizerError::ShortPieceError)
    ));
}

#[test]
fn test_short_piece_through_encode() {
    let mut ranks = RankMap::new();
    ranks.insert(b"ab".to_vec(), 0);
    let tokenizer = CoreBPE::new(ranks, Vec::new(), "a|b").unwrap();
    assert!(matches!(
        tokenizer.encode("a"),
        Err(TokenizerError::ShortPieceError)
    ));
}

#[test]
fn test_unknown_token_rejected() {
    let ranks = setup_ranks();
    let tokenizer = CoreBPE::new(ranks, Vec::new(), r"\b(ab|cd|ef)\b").unwrap();
    assert!(matches!(
        tokenizer.decode(&[0, 99]),
        Err(TokenizerError::UnknownTokenError)
    ));
}

#[test]
fn test_empty_piece_rejected() {
    let ranks = setup_ranks();
    let tokenizer = CoreBPE::new(ranks, Vec::new(), r"\b(ab|cd|ef)\b").unwrap();
    let pieces: Vec<Vec<u8>> = vec![Vec::new()];
    assert!(matches!(
        tokenizer.encode_pieces(&pieces),
        Err(TokenizerError::EmptyPieceError)
    ));
}

#[test]
fn test_vocabulary_invariant_rejected() {
    let ranks = RankMap::new();
    assert!(matches!(
        byte_pair_encode(b"xy", &ranks),
        Err(TokenizerError::VocabularyInvariantError)
    ));
}

#[test]
fn test_merge_order_boundaries() {
    let ranks = setup_ranks();
    let bounds = byte_pair_merge(b"abcd", &ranks).unwrap();
    assert_eq!(bounds, vec![0, 2, 4]);
}

#[test]
fn test_sorted_token_bytes() {
    let mut ranks = RankMap::new();
    ranks.insert(b"ef".to_vec(), 2);
    ranks.insert(b"ab".to_vec(), 0);
    ranks.insert(b"cd".to_vec(), 1);
    let tokenizer = CoreBPE::new(ranks, Vec::new(), r"\b(ab|cd|ef)\b").unwrap();
    let sorted = tokenizer.sorted_token_bytes();
    assert_eq!(
        sorted,
        &vec![b"ab".to_vec(), b"cd".to_vec(), b"ef".to_vec()]
    );
}

#[test]
fn test_special_token_decoding() {
    let ranks = setup_ranks();
    let specials = vec![(String::from("<|endoftext|>"), 50u32)];
    let tokenizer = CoreBPE::new(ranks, specials, r"\b(ab|cd|ef)\b").unwrap();
    let decoded = tokenizer.decode(&[0, 50]).unwrap();
    assert_eq!(decoded, b"ab<|endoftext|>".to_vec());
}

#[test]
fn test_rank_map_lookup() {
    let mut ranks = RankMap::new();
    ranks.insert(b"ab".to_vec(), 7);
    ranks.insert(b"ab".to_vec(), 9);
    assert_eq!(ranks.get(b"ab"), Some(9));
    assert_eq!(ranks.get(b"cd"), None);
    assert_eq!(ranks.len(), 1);
}
