//! The rank table and the encoder/decoder pair built on the merge engine.
//!
//! A `CoreBPE` owns an immutable encoder map from byte sequences to ranks,
//! the exact inverse decoder map, a pair of maps for out-of-band special
//! tokens, the pre-tokenization pattern, and the encoder's keys in
//! byte-lexicographic order. After construction nothing mutates it, so one
//! table serves any number of encode and decode calls.

use vstd::prelude::*;

use crate::errors::TokenizerError;
use crate::lexsort::{sort_byte_seqs, strictly_sorted_lex};
use crate::merge::{
    byte_pair_encode, encode_piece_result, ranks_of, segments_known, split_of, vecs_view,
};
use crate::pretoken::{find_pieces, pattern_compiles, pattern_ok, piece_seq};
use crate::rankmap::{map_of_pairs, RankMap, RankToBytesMap};

verus! {

/// No two keys of `m` carry the same rank.
pub open spec fn ranks_injective(m: Map<Seq<u8>, u32>) -> bool {
    forall|k1: Seq<u8>, k2: Seq<u8>|
        m.contains_key(k1) && m.contains_key(k2) && k1 != k2 ==> m[k1] != m[k2]
}

/// The rank-to-bytes map a sequence of special-token entries denotes: each
/// token string's rank maps to the UTF-8 bytes of the string.
pub open spec fn special_decoder_of(entries: Seq<(Seq<char>, u32)>) -> Map<u32, Seq<u8>> {
    map_of_pairs(
        entries.map_values(|e: (Seq<char>, u32)| (e.1, vstd::utf8::encode_utf8(e.0))),
    )
}

/// What decoding a token sequence yields: the concatenated bytes of each
/// rank's entry, read from the ordinary decoder map first and the special
/// one second, or `UnknownTokenError` at the first rank that is in neither.
pub open spec fn decode_result(
    dec: Map<u32, Seq<u8>>,
    sdec: Map<u32, Seq<u8>>,
    toks: Seq<u32>,
) -> Result<Seq<u8>, TokenizerError>
    decreases toks.len(),
{
    if toks.len() == 0 {
        Ok(Seq::empty())
    } else {
        let t = toks[0];
        if dec.contains_key(t) || sdec.contains_key(t) {
            let bs = if dec.contains_key(t) {
                dec[t]
            } else {
                sdec[t]
            };
            match decode_result(dec, sdec, toks.drop_first()) {
                Ok(rest) => Ok(bs + rest),
                Err(e) => Err(e),
            }
        } else {
            Err(TokenizerError::UnknownTokenError)
        }
    }
}

/// What encoding a sequence of pieces yields: piece by piece, the piece's
/// own rank where the encoder map holds it verbatim, else the merge
/// engine's ranks; an empty piece is a pre-tokenizer defect and is
/// rejected. The first rejection wins.
pub open spec fn encode_pieces_result(m: Map<Seq<u8>, u32>, pieces: Seq<Seq<u8>>) -> Result<
    Seq<u32>,
    TokenizerError,
>
    decreases pieces.len(),
{
    if pieces.len() == 0 {
        Ok(Seq::empty())
    } else {
        let p = pieces[0];
        let head: Result<Seq<u32>, TokenizerError> = if p.len() == 0 {
            Err(TokenizerError::EmptyPieceError)
        } else if m.contains_key(p) {
            Ok(seq![m[p]])
        } else {
            encode_piece_result(p, m)
        };
        match head {
            Ok(hs) => match encode_pieces_result(m, pieces.drop_first()) {
                Ok(ts) => Ok(hs + ts),
                Err(e) => Err(e),
            },
            Err(e) => Err(e),
        }
    }
}

/// What encoding a text yields: the pieces the pattern cuts it into,
/// encoded in order; `PatternError` where the pattern engine yields none.
pub open spec fn encode_text_result(
    m: Map<Seq<u8>, u32>,
    pat: Seq<char>,
    text: Seq<char>,
) -> Result<Seq<u32>, TokenizerError> {
    match piece_seq(pat, text) {
        Some(ps) => encode_pieces_result(m, ps),
        None => Err(TokenizerError::PatternError),
    }
}

/// The byte-pair-encoding tokenizer: an immutable rank table with its
/// derived inverse and special-token maps, the pre-tokenization pattern,
/// and the sorted copy of the encoder's keys.
pub struct CoreBPE {
    encoder: RankMap,
    special_tokens_encoder: Vec<(String, u32)>,
    decoder: RankToBytesMap,
    special_tokens_decoder: RankToBytesMap,
    pattern: String,
    sorted_token_bytes: Vec<Vec<u8>>,
}

impl CoreBPE {
    /// The encoder map: byte sequence to rank.
    pub closed spec fn encoder_map(&self) -> Map<Seq<u8>, u32> {
        self.encoder@
    }

    /// The decoder map: rank to byte sequence, the exact inverse of the
    /// encoder map.
    pub closed spec fn decoder_map(&self) -> Map<u32, Seq<u8>> {
        self.decoder@
    }

    /// The special-token entries, each a token string and its rank.
    pub closed spec fn special_entries(&self) -> Seq<(Seq<char>, u32)> {
        self.special_tokens_encoder@.map_values(|e: (String, u32)| (e.0@, e.1))
    }

    /// The special decoder map: rank to the UTF-8 bytes of the token string.
    pub closed spec fn special_decoder_map(&self) -> Map<u32, Seq<u8>> {
        self.special_tokens_decoder@
    }

    /// The pre-tokenization pattern.
    pub closed spec fn pattern_view(&self) -> Seq<char> {
        self.pattern@
    }

    /// The encoder's keys in byte-lexicographic order.
    pub closed spec fn sorted_tokens(&self) -> Seq<Seq<u8>> {
        vecs_view(self.sorted_token_bytes@)
    }

    /// The table's invariant: the underlying maps are well formed, the
    /// encoder is injective, the decoder is its exact inverse, the special
    /// decoder is derived from the special entries, and the sorted key list
    /// holds exactly the encoder's keys in strict order.
    pub closed spec fn wf(&self) -> bool {
        &&& self.encoder.wf()
        &&& self.decoder.wf()
        &&& self.special_tokens_decoder.wf()
        &&& ranks_injective(self.encoder@)
        &&& forall|k: Seq<u8>| #[trigger] self.encoder@.contains_key(k)
            ==> self.decoder@.contains_key(self.encoder@[k]) && self.decoder@[self.encoder@[k]]
            == k
        &&& forall|r: u32| #[trigger] self.decoder@.contains_key(r)
            ==> self.encoder@.contains_key(self.decoder@[r]) && self.encoder@[self.decoder@[r]]
            == r
        &&& self.special_tokens_decoder@ == special_decoder_of(self.special_entries())
        &&& strictly_sorted_lex(self.sorted_tokens())
        &&& forall|x: Seq<u8>| self.sorted_tokens().contains(x) <==> self.encoder@.contains_key(
            x,
        )
    }

    /// Build a table from an encoder map, a special-token list and a
    /// pre-tokenization pattern. Fails with `PatternError` where the
    /// pattern does not compile, and with `DuplicateRankError` where two
    /// distinct keys of the encoder map carry the same rank; otherwise the
    /// table holds the given maps, their derived inverses, and the sorted
    /// copy of the encoder's keys.
    pub fn new(
        encoder: RankMap,
        special_tokens_encoder: Vec<(String, u32)>,
        pattern: &str,
    ) -> (r: Result<CoreBPE, TokenizerError>)
        requires
            encoder.wf(),
        ensures
            match r {
                Ok(t) => {
                    &&& pattern_ok(pattern@)
                    &&& ranks_injective(encoder@)
                    &&& t.wf()
                    &&& t.encoder_map() == encoder@
                    &&& t.pattern_view() == pattern@
                    &&& t.special_entries() == special_tokens_encoder@.map_values(
                        |e: (String, u32)| (e.0@, e.1),
                    )
                },
                Err(TokenizerError::PatternError) => !pattern_ok(pattern@),
                Err(TokenizerError::DuplicateRankError) => pattern_ok(pattern@)
                    && !ranks_injective(encoder@),
                Err(_) => false,
            },
    {
        if !pattern_compiles(pattern) {
            return Err(TokenizerError::PatternError);
        }

        proof {
            encoder.lemma_entries();
        }
        let ghost entries = encoder.entries_seq();

        // Invert the encoder map, failing on the first rank seen twice:
        // the inverse of a non-injective map would silently drop a key.
        let mut decoder = RankToBytesMap::new();
        let n = encoder.len();
        let mut i: usize = 0;
        while i < n
            invariant
                pattern_ok(pattern@),
                encoder.wf(),
                entries == encoder.entries_seq(),
                n == entries.len(),
                0 <= i <= n,
                decoder.wf(),
                forall|r: u32| decoder@.contains_key(r) <==> exists|j: int|
                    0 <= j < i && entries[j].1 == r,
                forall|j: int| 0 <= j < i ==> decoder@.contains_key(#[trigger] entries[j].1)
                    && decoder@[entries[j].1] == entries[j].0,
                forall|j1: int, j2: int| 0 <= j1 < j2 < i ==> entries[j1].1 != entries[j2].1,
            decreases n - i,
        {
            let rank = encoder.rank_at(i);
            if decoder.contains(rank) {
                proof {
                    let j = choose|j: int| 0 <= j < i && entries[j].1 == rank;
                    encoder.lemma_entries();
                    assert(encoder@.contains_key(entries[j].0));
                    assert(encoder@.contains_key(entries[i as int].0));
                    assert(entries[j].0 != entries[i as int].0);
                    assert(encoder@[entries[j].0] == rank && encoder@[entries[i as int].0]
                        == rank);
                    assert(!ranks_injective(encoder@));
                }
                return Err(TokenizerError::DuplicateRankError);
            }
            let key_copy = vstd::slice::slice_to_vec(encoder.key_at(i).as_slice());
            decoder.insert(rank, key_copy);
            i += 1;
        }

        // Derive the special decoder: each token string's rank maps to the
        // bytes of the string.
        let mut special_tokens_decoder = RankToBytesMap::new();
        let ghost sentries = special_tokens_encoder@.map_values(
            |e: (String, u32)| (e.0@, e.1),
        );
        let sn = special_tokens_encoder.len();
        let mut s: usize = 0;
        while s < sn
            invariant
                sn == special_tokens_encoder@.len(),
                sentries == special_tokens_encoder@.map_values(|e: (String, u32)| (e.0@, e.1)),
                0 <= s <= sn,
                special_tokens_decoder.wf(),
                special_tokens_decoder@ == special_decoder_of(sentries.take(s as int)),
            decreases sn - s,
        {
            let tok = &special_tokens_encoder[s];
            let bytes = vstd::slice::slice_to_vec(tok.0.as_str().as_bytes());
            special_tokens_decoder.insert(tok.1, bytes);
            proof {
                let prefix = sentries.take(s as int).map_values(
                    |e: (Seq<char>, u32)| (e.1, vstd::utf8::encode_utf8(e.0)),
                );
                let ext = sentries.take(s as int + 1).map_values(
                    |e: (Seq<char>, u32)| (e.1, vstd::utf8::encode_utf8(e.0)),
                );
                assert(ext.drop_last() =~= prefix);
                assert(ext.last() == (
                    sentries[s as int].1,
                    vstd::utf8::encode_utf8(sentries[s as int].0),
                ));
            }
            s += 1;
        }

        // A sorted copy of the encoder's keys.
        let mut keys: Vec<Vec<u8>> = Vec::new();
        let mut q: usize = 0;
        while q < n
            invariant
                encoder.wf(),
                entries == encoder.entries_seq(),
                n == entries.len(),
                0 <= q <= n,
                keys@.len() == q,
                forall|j: int| 0 <= j < q ==> vecs_view(keys@)[j] == entries[j].0,
            decreases n - q,
        {
            let key_copy = vstd::slice::slice_to_vec(encoder.key_at(q).as_slice());
            let ghost prev = keys@;
            keys.push(key_copy);
            proof {
                assert forall|j: int| 0 <= j <= q implies vecs_view(keys@)[j] == entries[j].0 by {
                    if j < q {
                        assert(keys@[j] == prev[j]);
                        assert(vecs_view(prev)[j] == prev[j]@);
                        assert(vecs_view(keys@)[j] == keys@[j]@);
                    } else {
                        assert(vecs_view(keys@)[j] == key_copy@);
                    }
                }
            }
            q += 1;
        }
        proof {
            assert forall|a: int, b: int| 0 <= a < b < keys@.len() implies vecs_view(
                keys@,
            )[a] != vecs_view(keys@)[b] by {
                assert(vecs_view(keys@)[a] == entries[a].0);
                assert(vecs_view(keys@)[b] == entries[b].0);
            }
        }
        let sorted_token_bytes = sort_byte_seqs(keys);

        let table = CoreBPE {
            encoder,
            special_tokens_encoder,
            decoder,
            special_tokens_decoder,
            pattern: pattern.to_owned(),
            sorted_token_bytes,
        };
        proof {
            assert(sentries.take(sn as int) =~= sentries);
            table.encoder.lemma_entries();
            assert(ranks_injective(table.encoder@)) by {
                assert forall|k1: Seq<u8>, k2: Seq<u8>|
                    table.encoder@.contains_key(k1) && table.encoder@.contains_key(k2) && k1
                        != k2 implies table.encoder@[k1] != table.encoder@[k2] by {
                    let j1 = choose|j: int| 0 <= j < entries.len() && entries[j].0 == k1;
                    let j2 = choose|j: int| 0 <= j < entries.len() && entries[j].0 == k2;
                    assert(entries[j1].1 != entries[j2].1);
                }
            }
            assert forall|k: Seq<u8>| #[trigger] table.encoder@.contains_key(k) implies table
                .decoder@.contains_key(table.encoder@[k]) && table.decoder@[table.encoder@[k]]
                == k by {
                let j = choose|j: int| 0 <= j < entries.len() && entries[j].0 == k;
                assert(decoder@.contains_key(entries[j].1));
                assert(decoder@[entries[j].1] == entries[j].0);
            }
            assert forall|r: u32| #[trigger] table.decoder@.contains_key(r) implies table
                .encoder@.contains_key(table.decoder@[r]) && table.encoder@[table.decoder@[r]]
                == r by {
                let j = choose|j: int| 0 <= j < entries.len() && entries[j].1 == r;
                assert(decoder@[entries[j].1] == entries[j].0);
                assert(table.encoder@.contains_key(entries[j].0));
                assert(table.encoder@[entries[j].0] == entries[j].1);
            }
            assert forall|x: Seq<u8>| table.sorted_tokens().contains(x) <==> table
                .encoder@.contains_key(x) by {
                if table.sorted_tokens().contains(x) {
                    let j = choose|j: int|
                        0 <= j < vecs_view(keys@).len() && vecs_view(keys@)[j] == x;
                    assert(entries[j].0 == x);
                }
                if table.encoder@.contains_key(x) {
                    let j = choose|j: int| 0 <= j < entries.len() && entries[j].0 == x;
                    assert(vecs_view(keys@)[j] == x);
                    assert(vecs_view(keys@).contains(x));
                }
            }
        }
        Ok(table)
    }

    /// The encoder's byte-sequence keys in byte-lexicographic order.
    pub fn sorted_token_bytes(&self) -> (r: &Vec<Vec<u8>>)
        ensures
            vecs_view(r@) == self.sorted_tokens(),
    {
        &self.sorted_token_bytes
    }

    /// The two maps of the table are exact inverses: the encoder is
    /// injective, every key decodes back to itself through its rank, and
    /// every decodable rank encodes back to itself through its bytes.
    pub proof fn lemma_inverse_maps(&self)
        requires
            self.wf(),
        ensures
            ranks_injective(self.encoder_map()),
            forall|k: Seq<u8>| #[trigger] self.encoder_map().contains_key(k)
                ==> self.decoder_map().contains_key(self.encoder_map()[k])
                && self.decoder_map()[self.encoder_map()[k]] == k,
            forall|r: u32| #[trigger] self.decoder_map().contains_key(r)
                ==> self.encoder_map().contains_key(self.decoder_map()[r])
                && self.encoder_map()[self.decoder_map()[r]] == r,
    {
    }

    /// The sorted key list holds exactly the encoder's keys, in strict
    /// byte-lexicographic order.
    pub proof fn lemma_sorted_tokens(&self)
        requires
            self.wf(),
        ensures
            strictly_sorted_lex(self.sorted_tokens()),
            forall|x: Seq<u8>| self.sorted_tokens().contains(x) <==> self.encoder_map()
                .contains_key(x),
    {
    }

    /// Encode a list of byte pieces: each piece found verbatim in the
    /// encoder map yields its rank directly, any other goes through the
    /// merge engine; an empty piece is rejected with `EmptyPieceError`.
    pub fn encode_pieces(&self, pieces: &Vec<Vec<u8>>) -> (r: Result<Vec<u32>, TokenizerError>)
        requires
            self.wf(),
        ensures
            match r {
                Ok(v) => encode_pieces_result(self.encoder_map(), vecs_view(pieces@))
                    == Ok::<Seq<u32>, TokenizerError>(v@),
                Err(e) => encode_pieces_result(self.encoder_map(), vecs_view(pieces@))
                    == Err::<Seq<u32>, TokenizerError>(e),
            },
    {
        let ghost m = self.encoder@;
        let ghost full = vecs_view(pieces@);
        let mut out: Vec<u32> = Vec::new();
        let n = pieces.len();
        let mut i: usize = 0;
        proof {
            assert(full.skip(0) =~= full);
            assert(forall|ts: Seq<u32>| #[trigger] (Seq::<u32>::empty() + ts) =~= ts);
        }
        while i < n
            invariant
                self.wf(),
                m == self.encoder@,
                full == vecs_view(pieces@),
                n == pieces@.len(),
                0 <= i <= n,
                encode_pieces_result(m, full) == match encode_pieces_result(
                    m,
                    full.skip(i as int),
                ) {
                    Ok(ts) => Ok::<Seq<u32>, TokenizerError>(out@ + ts),
                    Err(e) => Err::<Seq<u32>, TokenizerError>(e),
                },
            decreases n - i,
        {
            let piece = &pieces[i];
            let ghost rest = full.skip(i as int);
            proof {
                assert(rest.len() > 0);
                assert(rest[0] == piece@);
                assert(rest.drop_first() =~= full.skip(i as int + 1));
            }
            if piece.len() == 0 {
                return Err(TokenizerError::EmptyPieceError);
            }
            match self.encoder.get(piece.as_slice()) {
                Some(t) => {
                    let ghost before = out@;
                    out.push(t);
                    proof {
                        assert(out@ =~= before + seq![m[piece@]]);
                        assert(forall|ts: Seq<u32>| (before + seq![m[piece@]]) + ts =~= before
                            + (seq![m[piece@]] + ts));
                    }
                },
                None => {
                    match byte_pair_encode(piece.as_slice(), &self.encoder) {
                        Ok(mut ranks) => {
                            let ghost before = out@;
                            let ghost hs = ranks@;
                            out.append(&mut ranks);
                            proof {
                                assert(out@ == before + hs);
                                assert(forall|ts: Seq<u32>| (before + hs) + ts =~= before + (hs
                                    + ts));
                            }
                        },
                        Err(e) => {
                            return Err(e);
                        },
                    }
                },
            }
            i += 1;
        }
        proof {
            assert(full.skip(n as int) =~= Seq::<Seq<u8>>::empty());
            assert(out@ + Seq::<u32>::empty() =~= out@);
        }
        Ok(out)
    }

    /// Encode a text: the pattern cuts it into pieces and each piece is
    /// encoded in order. Fails with `PatternError` where the pattern
    /// engine yields no pieces, and otherwise exactly as `encode_pieces`
    /// does on the pieces the pattern produced.
    pub fn encode(&self, text: &str) -> (r: Result<Vec<u32>, TokenizerError>)
        requires
            self.wf(),
        ensures
            match r {
                Ok(v) => encode_text_result(self.encoder_map(), self.pattern_view(), text@)
                    == Ok::<Seq<u32>, TokenizerError>(v@),
                Err(e) => encode_text_result(self.encoder_map(), self.pattern_view(), text@)
                    == Err::<Seq<u32>, TokenizerError>(e),
            },
    {
        match find_pieces(self.pattern.as_str(), text) {
            Some(pieces) => self.encode_pieces(&pieces),
            None => Err(TokenizerError::PatternError),
        }
    }

    /// Decode a token sequence into the concatenated bytes of each rank's
    /// entry, reading the ordinary decoder map first and the special one
    /// second. Fails with `UnknownTokenError` at the first rank found in
    /// neither map: a missing token is reported, never skipped.
    pub fn decode(&self, tokens: &[u32]) -> (r: Result<Vec<u8>, TokenizerError>)
        requires
            self.wf(),
        ensures
            match r {
                Ok(v) => decode_result(self.decoder_map(), self.special_decoder_map(), tokens@)
                    == Ok::<Seq<u8>, TokenizerError>(v@),
                Err(e) => decode_result(self.decoder_map(), self.special_decoder_map(), tokens@)
                    == Err::<Seq<u8>, TokenizerError>(e),
            },
    {
        let ghost dec = self.decoder@;
        let ghost sdec = self.special_tokens_decoder@;
        let mut out: Vec<u8> = Vec::new();
        let n = tokens.len();
        let mut i: usize = 0;
        proof {
            assert(tokens@.skip(0) =~= tokens@);
            assert(forall|rs: Seq<u8>| #[trigger] (Seq::<u8>::empty() + rs) =~= rs);
        }
        while i < n
            invariant
                self.wf(),
                dec == self.decoder@,
                sdec == self.special_tokens_decoder@,
                n == tokens@.len(),
                0 <= i <= n,
                decode_result(dec, sdec, tokens@) == match decode_result(
                    dec,
                    sdec,
                    tokens@.skip(i as int),
                ) {
                    Ok(rest) => Ok::<Seq<u8>, TokenizerError>(out@ + rest),
                    Err(e) => Err::<Seq<u8>, TokenizerError>(e),
                },
            decreases n - i,
        {
            let t = tokens[i];
            let ghost rest = tokens@.skip(i as int);
            proof {
                assert(rest.len() > 0);
                assert(rest[0] == t);
                assert(rest.drop_first() =~= tokens@.skip(i as int + 1));
            }
            let bytes = match self.decoder.get(t) {
                Some(b) => b,
                None => match self.special_tokens_decoder.get(t) {
                    Some(b) => b,
                    None => {
                        return Err(TokenizerError::UnknownTokenError);
                    },
                },
            };
            let ghost before = out@;
            append_bytes(&mut out, bytes);
            proof {
                assert(forall|rs: Seq<u8>| (before + bytes@) + rs =~= before + (bytes@ + rs));
            }
            i += 1;
        }
        proof {
            assert(tokens@.skip(n as int) =~= Seq::<u32>::empty());
            assert(out@ + Seq::<u8>::empty() =~= out@);
        }
        Ok(out)
    }
}

/// Append the bytes of `src` to `dst`.
fn append_bytes(dst: &mut Vec<u8>, src: &Vec<u8>)
    ensures
        final(dst)@ == old(dst)@ + src@,
{
    let n = src.len();
    let mut i: usize = 0;
    while i < n
        invariant
            n == src@.len(),
            0 <= i <= n,
            dst@ == old(dst)@ + src@.take(i as int),
        decreases n - i,
    {
        dst.push(src[i]);
        proof {
            assert(old(dst)@ + src@.take(i as int + 1) =~= (old(dst)@ + src@.take(i as int)).push(
                src@[i as int],
            ));
        }
        i += 1;
    }
    proof {
        assert(src@.take(n as int) =~= src@);
        assert(dst@ == old(dst)@ + src@);
    }
}

/// Decoding the rank of each of a list of known fragments yields the
/// fragments' concatenation.
proof fn lemma_decode_known_fragments(
    dec: Map<u32, Seq<u8>>,
    sdec: Map<u32, Seq<u8>>,
    enc: Map<Seq<u8>, u32>,
    frags: Seq<Seq<u8>>,
)
    requires
        forall|k: Seq<u8>| #[trigger] enc.contains_key(k) ==> dec.contains_key(enc[k])
            && dec[enc[k]] == k,
        forall|i: int| 0 <= i < frags.len() ==> enc.contains_key(#[trigger] frags[i]),
    ensures
        decode_result(
            dec,
            sdec,
            frags.map_values(|s: Seq<u8>| crate::merge::rank_or_max(enc, s)),
        ) == Ok::<Seq<u8>, TokenizerError>(frags.flatten()),
    decreases frags.len(),
{
    let toks = frags.map_values(|s: Seq<u8>| crate::merge::rank_or_max(enc, s));
    if frags.len() == 0 {
        assert(toks.len() == 0);
    } else {
        let f0 = frags[0];
        assert(enc.contains_key(f0));
        assert(toks[0] == enc[f0]) by {
            assert(crate::merge::rank_or_max(enc, f0) == enc[f0]);
        }
        assert(dec.contains_key(enc[f0]) && dec[enc[f0]] == f0);
        lemma_decode_known_fragments(dec, sdec, enc, frags.drop_first());
        assert(toks.drop_first() =~= frags.drop_first().map_values(
            |s: Seq<u8>| crate::merge::rank_or_max(enc, s),
        ));
        assert(frags.flatten() == f0 + frags.drop_first().flatten());
    }
}

/// The round trip: a piece of at least two bytes whose merge fragments the
/// vocabulary all holds encodes successfully — verbatim or through the
/// merge engine — and decoding the resulting ranks yields the piece back,
/// byte for byte.
pub proof fn lemma_round_trip(t: &CoreBPE, piece: Seq<u8>)
    requires
        t.wf(),
        piece.len() >= 2,
        segments_known(piece, t.encoder_map()),
    ensures
        ({
            let encoded = encode_pieces_result(t.encoder_map(), seq![piece]);
            &&& encoded is Ok
            &&& decode_result(t.decoder_map(), t.special_decoder_map(), encoded.unwrap())
                == Ok::<Seq<u8>, TokenizerError>(piece)
        }),
{
    lemma_encode_pieces_round_trip(t, seq![piece]);
    seq![piece].lemma_flatten_one_element();
    assert(seq![piece].first() == piece);
}

/// Decoding distributes over concatenation: where two token sequences each
/// decode, their concatenation decodes to the concatenated bytes.
proof fn lemma_decode_append(
    dec: Map<u32, Seq<u8>>,
    sdec: Map<u32, Seq<u8>>,
    ts1: Seq<u32>,
    ts2: Seq<u32>,
)
    requires
        decode_result(dec, sdec, ts1) is Ok,
        decode_result(dec, sdec, ts2) is Ok,
    ensures
        decode_result(dec, sdec, ts1 + ts2) == Ok::<Seq<u8>, TokenizerError>(
            decode_result(dec, sdec, ts1).unwrap() + decode_result(dec, sdec, ts2).unwrap(),
        ),
    decreases ts1.len(),
{
    if ts1.len() == 0 {
        assert(ts1 + ts2 =~= ts2);
        assert(decode_result(dec, sdec, ts1).unwrap() + decode_result(dec, sdec, ts2).unwrap()
            =~= decode_result(dec, sdec, ts2).unwrap());
    } else {
        let t = ts1[0];
        assert(dec.contains_key(t) || sdec.contains_key(t));
        let bs = if dec.contains_key(t) {
            dec[t]
        } else {
            sdec[t]
        };
        assert(decode_result(dec, sdec, ts1.drop_first()) is Ok);
        lemma_decode_append(dec, sdec, ts1.drop_first(), ts2);
        assert((ts1 + ts2)[0] == t);
        assert((ts1 + ts2).drop_first() =~= ts1.drop_first() + ts2);
        let d1 = decode_result(dec, sdec, ts1.drop_first()).unwrap();
        let d2 = decode_result(dec, sdec, ts2).unwrap();
        assert(decode_result(dec, sdec, ts1).unwrap() == bs + d1);
        assert(decode_result(dec, sdec, ts1 + ts2).unwrap() == bs + (d1 + d2));
        assert(bs + (d1 + d2) =~= (bs + d1) + d2);
    }
}

/// A one-byte piece whose merge fragments the encoder map holds is itself a
/// key of the map: merging leaves a single byte whole.
proof fn lemma_single_byte_known(piece: Seq<u8>, m: Map<Seq<u8>, u32>)
    requires
        piece.len() == 1,
        segments_known(piece, m),
    ensures
        m.contains_key(piece),
{
    let bs = crate::merge::init_bounds(1);
    assert(bs.len() == 2 && bs[0] == 0 && bs[1] == 1);
    assert(crate::merge::scan_state(piece, m, bs, 0) == (u32::MAX, -1int));
    assert(crate::merge::pair_rank(piece, m, bs, 0) == u32::MAX);
    assert(crate::merge::chosen(piece, m, bs).0 == u32::MAX);
    assert(crate::merge::merged_bounds(piece, m) == bs);
    assert(split_of(piece, m).len() == 1);
    assert(split_of(piece, m)[0] == piece.subrange(0, 1));
    assert(piece.subrange(0, 1) =~= piece);
    assert(m.contains_key(split_of(piece, m)[0]));
}

/// The round trip over a whole piece list: where every piece is nonempty
/// and either sits verbatim in the encoder map or has all its merge
/// fragments there, encoding the list succeeds, and decoding the resulting
/// ranks yields exactly the pieces' concatenation — the encoder inserts and
/// loses nothing.
pub proof fn lemma_encode_pieces_round_trip(t: &CoreBPE, pieces: Seq<Seq<u8>>)
    requires
        t.wf(),
        forall|i: int| 0 <= i < pieces.len() ==> (#[trigger] pieces[i]).len() > 0,
        forall|i: int| 0 <= i < pieces.len() ==> t.encoder_map().contains_key(#[trigger] pieces[i])
            || segments_known(pieces[i], t.encoder_map()),
    ensures
        ({
            let encoded = encode_pieces_result(t.encoder_map(), pieces);
            &&& encoded is Ok
            &&& decode_result(t.decoder_map(), t.special_decoder_map(), encoded.unwrap())
                == Ok::<Seq<u8>, TokenizerError>(pieces.flatten())
        }),
    decreases pieces.len(),
{
    let m = t.encoder_map();
    let dec = t.decoder_map();
    let sdec = t.special_decoder_map();
    if pieces.len() == 0 {
        assert(encode_pieces_result(m, pieces) == Ok::<Seq<u32>, TokenizerError>(Seq::empty()));
        assert(decode_result(dec, sdec, Seq::<u32>::empty()) == Ok::<Seq<u8>, TokenizerError>(
            Seq::empty(),
        ));
        assert(pieces.flatten() =~= Seq::<u8>::empty());
    } else {
        let p = pieces[0];
        assert(p.len() > 0);
        let rest = pieces.drop_first();
        assert(forall|i: int| 0 <= i < rest.len() ==> rest[i] == pieces[i + 1]);
        lemma_encode_pieces_round_trip(t, rest);
        let ts = encode_pieces_result(m, rest).unwrap();
        let hs: Seq<u32>;
        if m.contains_key(p) {
            hs = seq![m[p]];
            assert(dec.contains_key(m[p]) && dec[m[p]] == p);
            assert(hs.drop_first() =~= Seq::<u32>::empty());
            assert(decode_result(dec, sdec, Seq::<u32>::empty()) == Ok::<
                Seq<u8>,
                TokenizerError,
            >(Seq::empty()));
            assert(decode_result(dec, sdec, hs) == Ok::<Seq<u8>, TokenizerError>(
                p + Seq::<u8>::empty(),
            ));
            assert(p + Seq::<u8>::empty() =~= p);
        } else {
            assert(segments_known(p, m));
            if p.len() == 1 {
                lemma_single_byte_known(p, m);
                assert(false);
            }
            assert(p.len() >= 2);
            hs = ranks_of(p, m);
            assert(encode_piece_result(p, m) == Ok::<Seq<u32>, TokenizerError>(hs));
            lemma_decode_known_fragments(dec, sdec, m, split_of(p, m));
            crate::merge::lemma_split_concat(p, m);
            assert(decode_result(dec, sdec, hs) == Ok::<Seq<u8>, TokenizerError>(p));
        }
        assert(encode_pieces_result(m, pieces) == Ok::<Seq<u32>, TokenizerError>(hs + ts));
        lemma_decode_append(dec, sdec, hs, ts);
        assert(decode_result(dec, sdec, hs + ts) == Ok::<Seq<u8>, TokenizerError>(
            p + rest.flatten(),
        ));
        assert(pieces.flatten() == p + rest.flatten());
    }
}

} // verus!
