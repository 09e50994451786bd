//! The merge engine: iterative minimal-rank merging over byte pairs.
//!
//! A piece of `n` bytes starts as `n` one-byte spans, described by the
//! boundary positions `0, 1, .., n`. While some adjacent pair of spans forms
//! a byte sequence with a (finite) rank in the encoder map, the lowest-ranked
//! such pair — leftmost on ties — is fused by dropping the boundary between
//! its two spans. The functions below model that loop as a recursive
//! specification, run it as verified code over a working list of
//! `(position, rank)` entries, and derive the token and fragment views of the
//! final spans.

use vstd::prelude::*;

use crate::errors::TokenizerError;
use crate::rankmap::RankMap;

verus! {

/// The rank the encoder map gives `k`, or `u32::MAX` if `k` is absent.
/// `u32::MAX` thus plays the role of an infinite rank that is never merged.
pub open spec fn rank_or_max(m: Map<Seq<u8>, u32>, k: Seq<u8>) -> u32 {
    if m.contains_key(k) {
        m[k]
    } else {
        u32::MAX
    }
}

/// The positions of a working list, each read as a mathematical integer.
pub open spec fn posns(ps: Seq<(usize, u32)>) -> Seq<int> {
    ps.map_values(|p: (usize, u32)| p.0 as int)
}

/// A position vector, each entry read as a mathematical integer.
pub open spec fn posns_usize(ps: Seq<usize>) -> Seq<int> {
    ps.map_values(|p: usize| p as int)
}

/// The rank of the candidate pair starting at boundary `i`: the rank of the
/// bytes spanning boundaries `i` and `i + 2` of `bs`, or the infinite rank
/// where no such pair exists.
pub open spec fn pair_rank(piece: Seq<u8>, m: Map<Seq<u8>, u32>, bs: Seq<int>, i: int) -> u32 {
    if 0 <= i && i + 2 < bs.len() {
        rank_or_max(m, piece.subrange(bs[i], bs[i + 2]))
    } else {
        u32::MAX
    }
}

/// The state of a left-to-right minimum scan over the first `n` candidate
/// boundaries: the least pair rank seen and the index where it was first
/// seen. Later candidates displace the current best only with a strictly
/// smaller rank, so ties go to the leftmost index.
pub open spec fn scan_state(piece: Seq<u8>, m: Map<Seq<u8>, u32>, bs: Seq<int>, n: int) -> (
    u32,
    int,
)
    decreases n,
{
    if n <= 0 {
        (u32::MAX, -1)
    } else {
        let prev = scan_state(piece, m, bs, n - 1);
        let r = pair_rank(piece, m, bs, n - 1);
        if r < prev.0 {
            (r, n - 1)
        } else {
            prev
        }
    }
}

/// The boundary the merge loop works on next: the scan state over all
/// boundaries of `bs` but the final sentinel.
pub open spec fn chosen(piece: Seq<u8>, m: Map<Seq<u8>, u32>, bs: Seq<int>) -> (u32, int) {
    scan_state(piece, m, bs, bs.len() - 1)
}

/// The boundaries left when the merge loop has run to completion from `bs`:
/// while the chosen rank is finite, the boundary to the right of the chosen
/// one is removed, fusing the two spans it separated.
pub open spec fn merge_steps(piece: Seq<u8>, m: Map<Seq<u8>, u32>, bs: Seq<int>) -> Seq<int>
    decreases bs.len(),
{
    let c = chosen(piece, m, bs);
    if c.0 == u32::MAX {
        bs
    } else if 0 <= c.1 && c.1 + 1 < bs.len() {
        merge_steps(piece, m, bs.remove(c.1 + 1))
    } else {
        bs
    }
}

/// One boundary at each byte position of a piece of `n` bytes, plus the
/// final sentinel at `n`.
pub open spec fn init_bounds(n: int) -> Seq<int> {
    Seq::new((n + 1) as nat, |i: int| i)
}

/// The boundary positions the merge engine leaves for `piece` under the
/// encoder map `m`.
pub open spec fn merged_bounds(piece: Seq<u8>, m: Map<Seq<u8>, u32>) -> Seq<int> {
    merge_steps(piece, m, init_bounds(piece.len() as int))
}

/// The sub-slices of `piece` delimited by consecutive boundaries of `bs`.
pub open spec fn segments(piece: Seq<u8>, bs: Seq<int>) -> Seq<Seq<u8>> {
    Seq::new((bs.len() - 1) as nat, |i: int| piece.subrange(bs[i], bs[i + 1]))
}

/// The byte fragments the merge engine splits `piece` into.
pub open spec fn split_of(piece: Seq<u8>, m: Map<Seq<u8>, u32>) -> Seq<Seq<u8>> {
    segments(piece, merged_bounds(piece, m))
}

/// Every fragment of the split is a key of the encoder map.
pub open spec fn segments_known(piece: Seq<u8>, m: Map<Seq<u8>, u32>) -> bool {
    forall|i: int| 0 <= i < split_of(piece, m).len() ==> m.contains_key(
        #[trigger] split_of(piece, m)[i],
    )
}

/// The ranks of the fragments of the split.
pub open spec fn ranks_of(piece: Seq<u8>, m: Map<Seq<u8>, u32>) -> Seq<u32> {
    split_of(piece, m).map_values(|s: Seq<u8>| rank_or_max(m, s))
}

/// What `byte_pair_merge` returns: the merged boundary positions, or the
/// rejection of a piece shorter than two bytes.
pub open spec fn merge_result(piece: Seq<u8>, m: Map<Seq<u8>, u32>) -> Result<
    Seq<int>,
    TokenizerError,
> {
    if piece.len() < 2 {
        Err(TokenizerError::ShortPieceError)
    } else {
        Ok(merged_bounds(piece, m))
    }
}

/// What `byte_pair_encode` returns: the rank of each fragment of the split,
/// or the applicable rejection.
pub open spec fn encode_piece_result(piece: Seq<u8>, m: Map<Seq<u8>, u32>) -> Result<
    Seq<u32>,
    TokenizerError,
> {
    if piece.len() < 2 {
        Err(TokenizerError::ShortPieceError)
    } else if segments_known(piece, m) {
        Ok(ranks_of(piece, m))
    } else {
        Err(TokenizerError::VocabularyInvariantError)
    }
}

/// What `byte_pair_split` returns: the fragments of the split, or the
/// rejection of a piece shorter than two bytes.
pub open spec fn split_piece_result(piece: Seq<u8>, m: Map<Seq<u8>, u32>) -> Result<
    Seq<Seq<u8>>,
    TokenizerError,
> {
    if piece.len() < 2 {
        Err(TokenizerError::ShortPieceError)
    } else {
        Ok(split_of(piece, m))
    }
}

/// Boundary sequences the merge loop works on: at least two boundaries, the
/// first at 0, the last at the end of the piece, strictly ascending.
pub open spec fn bounds_wf(piece: Seq<u8>, bs: Seq<int>) -> bool {
    &&& bs.len() >= 2
    &&& bs[0] == 0
    &&& bs[bs.len() - 1] == piece.len()
    &&& forall|i: int, j: int| 0 <= i < j < bs.len() ==> bs[i] < bs[j]
}

/// What a completed scan promises. Where the least rank is finite it is
/// attained at the reported index, every earlier boundary holds a strictly
/// greater rank — ties break leftmost-first — and no scanned boundary holds a
/// smaller one. Where it is infinite, every scanned boundary is unranked.
pub proof fn lemma_scan_props(piece: Seq<u8>, m: Map<Seq<u8>, u32>, bs: Seq<int>, n: int)
    ensures
        ({
            let c = scan_state(piece, m, bs, n);
            &&& c.0 != u32::MAX ==> {
                &&& 0 <= c.1 < n
                &&& pair_rank(piece, m, bs, c.1) == c.0
                &&& forall|j: int| 0 <= j < c.1 ==> pair_rank(piece, m, bs, j) > c.0
                &&& forall|j: int| 0 <= j < n ==> pair_rank(piece, m, bs, j) >= c.0
            }
            &&& c.0 == u32::MAX ==> forall|j: int|
                0 <= j < n ==> pair_rank(piece, m, bs, j) == u32::MAX
        }),
    decreases n,
{
    if n <= 0 {
    } else {
        lemma_scan_props(piece, m, bs, n - 1);
    }
}

/// Removing an interior boundary keeps a boundary sequence well formed.
pub proof fn lemma_remove_keeps_wf(piece: Seq<u8>, bs: Seq<int>, k: int)
    requires
        bounds_wf(piece, bs),
        1 <= k < bs.len() - 1,
    ensures
        bounds_wf(piece, bs.remove(k)),
    {
    let t = bs.remove(k);
    bs.remove_ensures(k);
    assert(t[0] == bs[0]);
    assert(t[t.len() - 1] == bs[bs.len() - 1]);
    assert forall|i: int, j: int| 0 <= i < j < t.len() implies t[i] < t[j] by {
        let i0 = if i < k { i } else { i + 1 };
        let j0 = if j < k { j } else { j + 1 };
        assert(t[i] == bs[i0] && t[j] == bs[j0]);
    }
}

/// The boundaries the merge loop leaves are well formed whenever the ones it
/// starts from are.
pub proof fn lemma_merge_steps_wf(piece: Seq<u8>, m: Map<Seq<u8>, u32>, bs: Seq<int>)
    requires
        bounds_wf(piece, bs),
    ensures
        bounds_wf(piece, merge_steps(piece, m, bs)),
    decreases bs.len(),
{
    let c = chosen(piece, m, bs);
    if c.0 == u32::MAX {
    } else if 0 <= c.1 && c.1 + 1 < bs.len() {
        lemma_scan_props(piece, m, bs, bs.len() - 1);
        lemma_remove_keeps_wf(piece, bs, c.1 + 1);
        lemma_merge_steps_wf(piece, m, bs.remove(c.1 + 1));
    } else {
    }
}

/// The initial boundaries of a piece of at least one byte are well formed.
pub proof fn lemma_init_bounds_wf(piece: Seq<u8>)
    requires
        piece.len() >= 1,
    ensures
        bounds_wf(piece, init_bounds(piece.len() as int)),
{
}

/// The boundary positions the merge engine leaves are well formed.
pub proof fn lemma_merged_bounds_wf(piece: Seq<u8>, m: Map<Seq<u8>, u32>)
    requires
        piece.len() >= 1,
    ensures
        bounds_wf(piece, merged_bounds(piece, m)),
{
    lemma_init_bounds_wf(piece);
    lemma_merge_steps_wf(piece, m, init_bounds(piece.len() as int));
}

/// The recomputed rank of the candidate pair at boundary `j` while the
/// boundary to be dropped still sits inside the pair's span: the rank of the
/// bytes spanning boundaries `j` and `j + 3` of the working list.
fn recomputed_rank(piece: &[u8], ranks: &RankMap, parts: &Vec<(usize, u32)>, j: usize) -> (r: u32)
    requires
        ranks.wf(),
        j < parts@.len(),
        bounds_wf(piece@, posns(parts@)),
    ensures
        r == if j + 3 < parts@.len() {
            rank_or_max(
                ranks@,
                piece@.subrange(posns(parts@)[j as int], posns(parts@)[j as int + 3]),
            )
        } else {
            u32::MAX
        },
{
    if parts.len() >= 4 && j < parts.len() - 3 {
        let a = parts[j].0;
        let b = parts[j + 3].0;
        proof {
            let bs = posns(parts@);
            assert(bs[j as int] == a as int && bs[j as int + 3] == b as int);
            assert(a as int <= b as int);
            assert(b as int <= bs[bs.len() - 1]);
        }
        match ranks.get(vstd::slice::slice_subrange(piece, a, b)) {
            Some(t) => t,
            None => u32::MAX,
        }
    } else {
        u32::MAX
    }
}

/// One pass of the minimum scan over the working list, excluding the final
/// sentinel entry. Returns the least stored rank and, where it is finite,
/// the leftmost index attaining it.
fn scan_parts(
    parts: &Vec<(usize, u32)>,
    Ghost(piece): Ghost<Seq<u8>>,
    Ghost(m): Ghost<Map<Seq<u8>, u32>>,
) -> (r: (u32, usize))
    requires
        parts@.len() >= 1,
        forall|j: int| 0 <= j < parts@.len() ==> parts@[j].1 == pair_rank(
            piece,
            m,
            posns(parts@),
            j,
        ),
    ensures
        r.0 == chosen(piece, m, posns(parts@)).0,
        r.0 != u32::MAX ==> r.1 as int == chosen(piece, m, posns(parts@)).1,
{
    let ghost bs = posns(parts@);
    let n = parts.len() - 1;
    let mut best_rank = u32::MAX;
    let mut best_idx: usize = 0;
    let mut j: usize = 0;
    while j < n
        invariant
            n == parts@.len() - 1,
            0 <= j <= n,
            bs == posns(parts@),
            forall|k: int| 0 <= k < parts@.len() ==> parts@[k].1 == pair_rank(piece, m, bs, k),
            best_rank == scan_state(piece, m, bs, j as int).0,
            best_rank != u32::MAX ==> best_idx as int == scan_state(piece, m, bs, j as int).1,
        decreases n - j,
    {
        let pr = parts[j].1;
        if pr < best_rank {
            best_rank = pr;
            best_idx = j;
        }
        j += 1;
    }
    (best_rank, best_idx)
}

/// Compute the boundary positions `0 = p0 < p1 < .. < pk = n` that the merge
/// engine leaves for `piece`: starting from one boundary per byte, the
/// lowest-ranked adjacent pair of spans — the leftmost such pair on ties —
/// is fused until no adjacent pair of spans is a key of the encoder map.
///
/// A piece of fewer than two bytes is a caller error and is rejected with
/// `ShortPieceError`.
pub fn byte_pair_merge(piece: &[u8], ranks: &RankMap) -> (r: Result<Vec<usize>, TokenizerError>)
    requires
        ranks.wf(),
    ensures
        match r {
            Ok(v) => merge_result(piece@, ranks@) == Ok::<Seq<int>, TokenizerError>(
                posns_usize(v@),
            ),
            Err(e) => merge_result(piece@, ranks@) == Err::<Seq<int>, TokenizerError>(e),
        },
{
    let ghost m = ranks@;
    if piece.len() < 2 {
        return Err(TokenizerError::ShortPieceError);
    }
    let n = piece.len();

    // One working entry per byte boundary, holding the rank of the two-byte
    // pair starting there, then the two trailing sentinel entries.
    let mut parts: Vec<(usize, u32)> = Vec::new();
    let mut i: usize = 0;
    while i < n - 1
        invariant
            ranks.wf(),
            m == ranks@,
            n == piece@.len(),
            2 <= n,
            0 <= i <= n - 1,
            parts@.len() == i,
            forall|j: int| 0 <= j < i ==> (#[trigger] parts@[j]).0 == j && parts@[j].1
                == rank_or_max(m, piece@.subrange(j, j + 2)),
        decreases n - 1 - i,
    {
        let pr = match ranks.get(vstd::slice::slice_subrange(piece, i, i + 2)) {
            Some(t) => t,
            None => u32::MAX,
        };
        parts.push((i, pr));
        i += 1;
    }
    parts.push((n - 1, u32::MAX));
    parts.push((n, u32::MAX));

    proof {
        assert(posns(parts@) =~= init_bounds(n as int));
        lemma_init_bounds_wf(piece@);
        assert forall|j: int| 0 <= j < parts@.len() implies parts@[j].1 == pair_rank(
            piece@,
            m,
            posns(parts@),
            j,
        ) by {
            let bs = posns(parts@);
            if j + 2 < bs.len() {
                assert(piece@.subrange(bs[j], bs[j + 2]) == piece@.subrange(j, j + 2));
            }
        }
    }

    let mut cur = scan_parts(&parts, Ghost(piece@), Ghost(m));
    while cur.0 != u32::MAX
        invariant
            ranks.wf(),
            m == ranks@,
            n == piece@.len(),
            2 <= n,
            parts@.len() >= 2,
            bounds_wf(piece@, posns(parts@)),
            forall|j: int| 0 <= j < parts@.len() ==> parts@[j].1 == pair_rank(
                piece@,
                m,
                posns(parts@),
                j,
            ),
            cur.0 == chosen(piece@, m, posns(parts@)).0,
            cur.0 != u32::MAX ==> cur.1 as int == chosen(piece@, m, posns(parts@)).1,
            merge_steps(piece@, m, posns(parts@)) == merged_bounds(piece@, m),
        decreases parts@.len(),
    {
        let ghost bs0 = posns(parts@);
        let ghost orig = parts@;
        let ghost c = chosen(piece@, m, bs0);
        proof {
            lemma_scan_props(piece@, m, bs0, bs0.len() - 1);
            assert(pair_rank(piece@, m, bs0, c.1) == c.0);
            assert(c.1 + 2 < bs0.len());
        }
        let i = cur.1;
        let ghost len0 = bs0.len();
        proof {
            assert(i as int == c.1);
            assert(i + 2 < parts@.len());
        }

        // Refresh the two entries whose candidate pair will span a new byte
        // range once the boundary at `i + 1` is gone, then drop that boundary.
        let mut nr = u32::MAX;
        if i > 0 {
            nr = recomputed_rank(piece, ranks, &parts, i - 1);
            let pos = parts[i - 1].0;
            parts[i - 1] = (pos, nr);
            proof {
                assert(parts@ == orig.update(i - 1, (orig[i - 1].0, nr)));
                assert(posns(parts@) =~= bs0);
            }
        }
        let ghost mid1 = parts@;
        let nr2 = recomputed_rank(piece, ranks, &parts, i);
        let pos2 = parts[i].0;
        parts[i] = (pos2, nr2);
        proof {
            assert(parts@ == mid1.update(i as int, (mid1[i as int].0, nr2)));
            assert(posns(parts@) =~= bs0);
        }
        let ghost mid2 = parts@;
        let pl = parts.len();
        proof {
            assert(parts@.len() == len0);
            assert(i as int + 2 < len0);
            assert(i + 2 < pl);
        }
        parts.remove(i + 1);

        proof {
            let bs1 = bs0.remove(c.1 + 1);
            bs0.remove_ensures(c.1 + 1);
            mid2.remove_ensures(c.1 + 1);
            assert(parts@ == mid2.remove(c.1 + 1));
            assert(posns(parts@) =~= bs1);
            lemma_remove_keeps_wf(piece@, bs0, c.1 + 1);

            // The stored ranks still match the pair ranks of the remaining
            // boundaries.
            assert forall|j: int| 0 <= j < parts@.len() implies parts@[j].1 == pair_rank(
                piece@,
                m,
                bs1,
                j,
            ) by {
                assert(bs1.len() == len0 - 1);
                if j < c.1 - 1 {
                    assert(parts@[j] == mid2[j]);
                    assert(mid2[j] == orig[j]);
                    assert(orig[j].1 == pair_rank(piece@, m, bs0, j));
                    assert(j + 2 < bs1.len());
                    assert(bs1[j] == bs0[j] && bs1[j + 2] == bs0[j + 2]);
                    assert(pair_rank(piece@, m, bs1, j) == rank_or_max(
                        m,
                        piece@.subrange(bs0[j], bs0[j + 2]),
                    ));
                } else if j == c.1 - 1 {
                    assert(parts@[j] == mid2[j]);
                    assert(mid2[j] == mid1[j]);
                    assert(mid1[j].1 == nr);
                    assert(j + 3 < len0);
                    assert(nr == rank_or_max(m, piece@.subrange(bs0[j], bs0[j + 3])));
                    assert(j + 2 < bs1.len());
                    assert(bs1[j] == bs0[j]);
                    assert(bs1[j + 2] == bs0[j + 3]);
                    assert(pair_rank(piece@, m, bs1, j) == rank_or_max(
                        m,
                        piece@.subrange(bs0[j], bs0[j + 3]),
                    ));
                } else if j == c.1 {
                    assert(parts@[j] == mid2[j]);
                    assert(mid2[j].1 == nr2);
                    assert(bs1[j] == bs0[j]);
                    if j + 2 < bs1.len() {
                        assert(j + 3 < len0);
                        assert(nr2 == rank_or_max(m, piece@.subrange(bs0[j], bs0[j + 3])));
                        assert(bs1[j + 2] == bs0[j + 3]);
                        assert(pair_rank(piece@, m, bs1, j) == rank_or_max(
                            m,
                            piece@.subrange(bs0[j], bs0[j + 3]),
                        ));
                    } else {
                        assert(!(j + 3 < len0));
                        assert(nr2 == u32::MAX);
                        assert(pair_rank(piece@, m, bs1, j) == u32::MAX);
                    }
                } else {
                    assert(parts@[j] == mid2[j + 1]);
                    assert(mid2[j + 1] == orig[j + 1]);
                    assert(orig[j + 1].1 == pair_rank(piece@, m, bs0, j + 1));
                    assert(bs1[j] == bs0[j + 1]);
                    if j + 2 < bs1.len() {
                        assert(j + 3 < len0);
                        assert(bs1[j + 2] == bs0[j + 3]);
                        assert(pair_rank(piece@, m, bs0, j + 1) == rank_or_max(
                            m,
                            piece@.subrange(bs0[j + 1], bs0[j + 3]),
                        ));
                        assert(pair_rank(piece@, m, bs1, j) == rank_or_max(
                            m,
                            piece@.subrange(bs0[j + 1], bs0[j + 3]),
                        ));
                    } else {
                        assert(pair_rank(piece@, m, bs0, j + 1) == u32::MAX);
                        assert(pair_rank(piece@, m, bs1, j) == u32::MAX);
                    }
                }
            }

            // Removing exactly the boundary the specification chooses keeps
            // the final result of the loop unchanged.
            assert(merge_steps(piece@, m, bs0) == merge_steps(piece@, m, bs1));
        }

        cur = scan_parts(&parts, Ghost(piece@), Ghost(m));
    }

    proof {
        // The scan found no finite rank, so the specification keeps these
        // boundaries as they stand.
        assert(merge_steps(piece@, m, posns(parts@)) == posns(parts@));
    }

    let mut out: Vec<usize> = Vec::new();
    let mut k: usize = 0;
    let parts_len = parts.len();
    while k < parts_len
        invariant
            parts_len == parts@.len(),
            0 <= k <= parts_len,
            out@.len() == k,
            forall|j: int| 0 <= j < k ==> out@[j] == (#[trigger] parts@[j]).0,
        decreases parts_len - k,
    {
        out.push(parts[k].0);
        k += 1;
    }
    proof {
        assert(posns_usize(out@) =~= posns(parts@));
    }
    Ok(out)
}

/// A sequence of byte vectors, each read as a byte sequence.
pub open spec fn vecs_view(s: Seq<Vec<u8>>) -> Seq<Seq<u8>> {
    s.map_values(|v: Vec<u8>| v@)
}

/// Run the merge and map each final fragment through the encoder map.
/// A fragment the encoder map is missing means the vocabulary lacks a
/// required atomic token and is rejected.
pub fn byte_pair_encode(piece: &[u8], ranks: &RankMap) -> (r: Result<Vec<u32>, TokenizerError>)
    requires
        ranks.wf(),
    ensures
        match r {
            Ok(v) => encode_piece_result(piece@, ranks@) == Ok::<Seq<u32>, TokenizerError>(v@),
            Err(e) => encode_piece_result(piece@, ranks@) == Err::<Seq<u32>, TokenizerError>(e),
        },
{
    let ghost m = ranks@;
    let bounds = match byte_pair_merge(piece, ranks) {
        Ok(b) => b,
        Err(e) => {
            return Err(e);
        },
    };
    proof {
        assert(posns_usize(bounds@) == merged_bounds(piece@, m));
        lemma_merged_bounds_wf(piece@, m);
    }
    let ghost mb = merged_bounds(piece@, m);
    let mut out: Vec<u32> = Vec::new();
    let bounds_len = bounds.len();
    let mut k: usize = 0;
    while k < bounds_len - 1
        invariant
            ranks.wf(),
            m == ranks@,
            piece@.len() >= 2,
            mb == merged_bounds(piece@, m),
            mb == posns_usize(bounds@),
            bounds_wf(piece@, mb),
            bounds_len == bounds@.len(),
            0 <= k <= bounds_len - 1,
            out@.len() == k,
            forall|j: int| 0 <= j < k ==> m.contains_key(#[trigger] split_of(piece@, m)[j])
                && out@[j] == rank_or_max(m, split_of(piece@, m)[j]),
        decreases bounds_len - 1 - k,
    {
        let a = bounds[k];
        let b = bounds[k + 1];
        proof {
            assert(mb[k as int] == a as int && mb[k as int + 1] == b as int);
            assert(a as int <= b as int && b as int <= mb[mb.len() - 1]);
        }
        match ranks.get(vstd::slice::slice_subrange(piece, a, b)) {
            Some(t) => {
                proof {
                    assert(split_of(piece@, m)[k as int] == piece@.subrange(a as int, b as int));
                }
                out.push(t);
            },
            None => {
                proof {
                    assert(split_of(piece@, m)[k as int] == piece@.subrange(a as int, b as int));
                    assert(!m.contains_key(split_of(piece@, m)[k as int]));
                    assert(!segments_known(piece@, m));
                }
                return Err(TokenizerError::VocabularyInvariantError);
            },
        }
        k += 1;
    }
    proof {
        assert(segments_known(piece@, m));
        assert(out@ =~= ranks_of(piece@, m));
    }
    Ok(out)
}

/// Run the merge and return the final fragments themselves rather than
/// their ranks.
pub fn byte_pair_split(piece: &[u8], ranks: &RankMap) -> (r: Result<Vec<Vec<u8>>, TokenizerError>)
    requires
        ranks.wf(),
    ensures
        match r {
            Ok(v) => split_piece_result(piece@, ranks@) == Ok::<Seq<Seq<u8>>, TokenizerError>(
                vecs_view(v@),
            ),
            Err(e) => split_piece_result(piece@, ranks@) == Err::<Seq<Seq<u8>>, TokenizerError>(e),
        },
{
    let ghost m = ranks@;
    let bounds = match byte_pair_merge(piece, ranks) {
        Ok(b) => b,
        Err(e) => {
            return Err(e);
        },
    };
    proof {
        assert(posns_usize(bounds@) == merged_bounds(piece@, m));
        lemma_merged_bounds_wf(piece@, m);
    }
    let ghost mb = merged_bounds(piece@, m);
    let mut out: Vec<Vec<u8>> = Vec::new();
    let bounds_len = bounds.len();
    let mut k: usize = 0;
    while k < bounds_len - 1
        invariant
            piece@.len() >= 2,
            mb == merged_bounds(piece@, m),
            mb == posns_usize(bounds@),
            bounds_wf(piece@, mb),
            bounds_len == bounds@.len(),
            0 <= k <= bounds_len - 1,
            out@.len() == k,
            forall|j: int| 0 <= j < k ==> vecs_view(out@)[j] == split_of(piece@, m)[j],
        decreases bounds_len - 1 - k,
    {
        let a = bounds[k];
        let b = bounds[k + 1];
        proof {
            assert(mb[k as int] == a as int && mb[k as int + 1] == b as int);
            assert(a as int <= b as int && b as int <= mb[mb.len() - 1]);
        }
        let frag = vstd::slice::slice_to_vec(vstd::slice::slice_subrange(piece, a, b));
        let ghost prev = out@;
        proof {
            assert(split_of(piece@, m)[k as int] == piece@.subrange(a as int, b as int));
        }
        out.push(frag);
        proof {
            assert forall|j: int| 0 <= j <= k implies vecs_view(out@)[j] == split_of(
                piece@,
                m,
            )[j] by {
                if j < k {
                    assert(out@[j] == prev[j]);
                    assert(vecs_view(out@)[j] == out@[j]@);
                    assert(vecs_view(prev)[j] == prev[j]@);
                } else {
                    assert(vecs_view(out@)[j] == frag@);
                }
            }
        }
        k += 1;
    }
    proof {
        assert(vecs_view(out@) =~= split_of(piece@, m));
    }
    Ok(out)
}

/// The fragments delimited by ascending in-range boundaries concatenate to
/// the byte range the boundaries span.
proof fn lemma_segments_flatten(piece: Seq<u8>, bs: Seq<int>)
    requires
        bs.len() >= 1,
        forall|i: int| 0 <= i < bs.len() ==> 0 <= #[trigger] bs[i] <= piece.len(),
        forall|i: int| 0 <= i < bs.len() - 1 ==> #[trigger] bs[i] <= bs[i + 1],
    ensures
        segments(piece, bs).flatten() == piece.subrange(bs[0], bs[bs.len() - 1]),
    decreases bs.len(),
{
    let segs = segments(piece, bs);
    if bs.len() == 1 {
        assert(segs.len() == 0);
        assert(segs.flatten() =~= piece.subrange(bs[0], bs[0]));
    } else {
        let rest = bs.drop_first();
        assert(segs.drop_first() =~= segments(piece, rest));
        lemma_segments_flatten(piece, rest);
        assert(segs.flatten() == segs.first() + segments(piece, rest).flatten());
        assert(segs.first() == piece.subrange(bs[0], bs[1]));
        assert(rest[0] == bs[1] && rest[rest.len() - 1] == bs[bs.len() - 1]);
        assert(bs[1] <= bs[bs.len() - 1]) by {
            assert(forall|i: int| 0 <= i < rest.len() - 1 ==> #[trigger] rest[i] <= rest[i + 1]);
            lemma_ascending_ends(rest);
        }
        assert(piece.subrange(bs[0], bs[1]) + piece.subrange(bs[1], bs[bs.len() - 1])
            =~= piece.subrange(bs[0], bs[bs.len() - 1]));
    }
}

/// In a sequence whose adjacent entries ascend, the first entry is at most
/// the last.
proof fn lemma_ascending_ends(bs: Seq<int>)
    requires
        bs.len() >= 1,
        forall|i: int| 0 <= i < bs.len() - 1 ==> #[trigger] bs[i] <= bs[i + 1],
    ensures
        bs[0] <= bs[bs.len() - 1],
    decreases bs.len(),
{
    if bs.len() > 1 {
        let rest = bs.drop_first();
        assert(forall|i: int| 0 <= i < rest.len() - 1 ==> #[trigger] rest[i] <= rest[i + 1])
            by {
            assert forall|i: int| 0 <= i < rest.len() - 1 implies #[trigger] rest[i] <= rest[i
                + 1] by {
                assert(rest[i] == bs[i + 1] && rest[i + 1] == bs[i + 2]);
            }
        }
        lemma_ascending_ends(rest);
        assert(rest[0] == bs[1] && rest[rest.len() - 1] == bs[bs.len() - 1]);
    }
}

/// The fragments `byte_pair_split` cuts a piece into, concatenated in
/// order, are the piece itself: splitting loses and invents nothing.
pub proof fn lemma_split_concat(piece: Seq<u8>, m: Map<Seq<u8>, u32>)
    requires
        piece.len() >= 2,
    ensures
        split_of(piece, m).flatten() == piece,
{
    lemma_merged_bounds_wf(piece, m);
    let mb = merged_bounds(piece, m);
    assert(forall|i: int| 0 <= i < mb.len() ==> 0 <= #[trigger] mb[i] <= piece.len()) by {
        assert forall|i: int| 0 <= i < mb.len() implies 0 <= #[trigger] mb[i] <= piece.len() by {
            if i > 0 {
                assert(mb[0] < mb[i]);
            }
            if i < mb.len() - 1 {
                assert(mb[i] < mb[mb.len() - 1]);
            }
        }
    }
    lemma_segments_flatten(piece, mb);
    assert(piece.subrange(0, piece.len() as int) =~= piece);
}

/// Merging is a function of the piece and the encoder map alone: any two
/// results that `byte_pair_encode` can return for the same piece under the
/// same map are equal.
pub proof fn lemma_encode_deterministic(
    piece: Seq<u8>,
    m: Map<Seq<u8>, u32>,
    first: Result<Seq<u32>, TokenizerError>,
    second: Result<Seq<u32>, TokenizerError>,
)
    requires
        first == encode_piece_result(piece, m),
        second == encode_piece_result(piece, m),
    ensures
        first == second,
{
}

/// Tie-breaking is leftmost-first: where the scan reports a finite rank, it
/// is attained at the reported boundary, every boundary further left holds a
/// strictly greater rank, and no candidate boundary holds a smaller one.
pub proof fn lemma_chosen_leftmost(piece: Seq<u8>, m: Map<Seq<u8>, u32>, bs: Seq<int>)
    ensures
        ({
            let c = chosen(piece, m, bs);
            &&& c.0 != u32::MAX ==> {
                &&& 0 <= c.1 < bs.len() - 1
                &&& pair_rank(piece, m, bs, c.1) == c.0
                &&& forall|j: int| 0 <= j < c.1 ==> pair_rank(piece, m, bs, j) > c.0
                &&& forall|j: int| 0 <= j < bs.len() - 1 ==> pair_rank(piece, m, bs, j) >= c.0
            }
            &&& c.0 == u32::MAX ==> forall|j: int|
                0 <= j < bs.len() - 1 ==> pair_rank(piece, m, bs, j) == u32::MAX
        }),
{
    lemma_scan_props(piece, m, bs, bs.len() - 1);
}

} // verus!
