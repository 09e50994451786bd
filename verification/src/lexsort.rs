//! Byte-lexicographic order on byte sequences, and a verified insertion
//! sort that arranges distinct byte vectors in that order. The rank table
//! keeps its encoder keys sorted this way.

use vstd::prelude::*;

use crate::merge::vecs_view;

verus! {

/// Strict byte-lexicographic order: `a` comes before `b` if at the first
/// differing position `a` holds the smaller byte, or `a` is a proper prefix
/// of `b`.
pub open spec fn lex_lt(a: Seq<u8>, b: Seq<u8>) -> bool
    decreases a.len(),
{
    if b.len() == 0 {
        false
    } else if a.len() == 0 {
        true
    } else if a[0] < b[0] {
        true
    } else if a[0] > b[0] {
        false
    } else {
        lex_lt(a.drop_first(), b.drop_first())
    }
}

/// Dropping an equal prefix of both sequences does not change their order.
proof fn lemma_lex_skip(a: Seq<u8>, b: Seq<u8>, i: int)
    requires
        0 <= i <= a.len(),
        i <= b.len(),
        forall|j: int| 0 <= j < i ==> a[j] == b[j],
    ensures
        lex_lt(a, b) == lex_lt(a.skip(i), b.skip(i)),
    decreases i,
{
    if i == 0 {
        assert(a.skip(0) =~= a);
        assert(b.skip(0) =~= b);
    } else {
        lemma_lex_skip(a, b, i - 1);
        let sa = a.skip(i - 1);
        let sb = b.skip(i - 1);
        assert(sa.len() >= 1 && sb.len() >= 1);
        assert(sa[0] == a[i - 1] && sb[0] == b[i - 1]);
        assert(sa.drop_first() =~= a.skip(i));
        assert(sb.drop_first() =~= b.skip(i));
    }
}

/// The order is transitive.
pub proof fn lemma_lex_trans(a: Seq<u8>, b: Seq<u8>, c: Seq<u8>)
    requires
        lex_lt(a, b),
        lex_lt(b, c),
    ensures
        lex_lt(a, c),
    decreases a.len(),
{
    if a.len() == 0 {
        assert(c.len() >= 1);
    } else {
        assert(b.len() >= 1 && c.len() >= 1);
        if a[0] == b[0] && b[0] == c[0] {
            lemma_lex_trans(a.drop_first(), b.drop_first(), c.drop_first());
        }
    }
}

/// Any two distinct sequences are ordered one way or the other.
pub proof fn lemma_lex_connected(a: Seq<u8>, b: Seq<u8>)
    requires
        a != b,
    ensures
        lex_lt(a, b) || lex_lt(b, a),
    decreases a.len(),
{
    if a.len() == 0 {
        if b.len() == 0 {
            assert(a =~= b);
        }
    } else if b.len() == 0 {
    } else if a[0] == b[0] {
        assert(a.drop_first() != b.drop_first()) by {
            if a.drop_first() == b.drop_first() {
                assert(a.drop_first().len() == a.len() - 1);
                assert(b.drop_first().len() == b.len() - 1);
                assert(a.len() == b.len());
                assert forall|i: int| 0 <= i < a.len() implies a[i] == b[i] by {
                    if i > 0 {
                        assert(a.drop_first()[i - 1] == b.drop_first()[i - 1]);
                    }
                }
                assert(a =~= b);
            }
        }
        lemma_lex_connected(a.drop_first(), b.drop_first());
    }
}

/// Decide `lex_lt(a@, b@)` by scanning for the first differing byte.
pub fn lex_lt_bytes(a: &Vec<u8>, b: &Vec<u8>) -> (r: bool)
    ensures
        r == lex_lt(a@, b@),
{
    let mut i: usize = 0;
    while i < a.len() && i < b.len()
        invariant
            0 <= i <= a@.len(),
            i <= b@.len(),
            forall|j: int| 0 <= j < i ==> a@[j] == b@[j],
        decreases a@.len() - i,
    {
        let x = a[i];
        let y = b[i];
        if x < y {
            proof {
                lemma_lex_skip(a@, b@, i as int);
                assert(a@.skip(i as int)[0] == x && b@.skip(i as int)[0] == y);
            }
            return true;
        }
        if x > y {
            proof {
                lemma_lex_skip(a@, b@, i as int);
                assert(a@.skip(i as int)[0] == x && b@.skip(i as int)[0] == y);
            }
            return false;
        }
        i += 1;
    }
    proof {
        lemma_lex_skip(a@, b@, i as int);
        if a@.len() < b@.len() {
            assert(a@.skip(i as int).len() == 0 && b@.skip(i as int).len() > 0);
        } else {
            assert(b@.skip(i as int).len() == 0);
        }
    }
    a.len() < b.len()
}

/// Every element comes strictly before every later one.
pub open spec fn strictly_sorted_lex(s: Seq<Seq<u8>>) -> bool {
    forall|i: int, j: int| 0 <= i < j < s.len() ==> lex_lt(s[i], s[j])
}

/// Sort distinct byte vectors into strict byte-lexicographic order by
/// insertion. The result holds exactly the byte sequences of the input.
pub fn sort_byte_seqs(input: Vec<Vec<u8>>) -> (r: Vec<Vec<u8>>)
    requires
        forall|i: int, j: int| 0 <= i < j < input@.len() ==> vecs_view(input@)[i] != vecs_view(
            input@,
        )[j],
    ensures
        r@.len() == input@.len(),
        strictly_sorted_lex(vecs_view(r@)),
        forall|x: Seq<u8>| vecs_view(r@).contains(x) <==> vecs_view(input@).contains(x),
{
    let ghost iv = vecs_view(input@);
    let mut out: Vec<Vec<u8>> = Vec::new();
    let mut k: usize = 0;
    let n = input.len();
    let mut rest = input;
    while k < n
        invariant
            n == rest@.len(),
            iv == vecs_view(rest@),
            forall|i: int, j: int| 0 <= i < j < iv.len() ==> iv[i] != iv[j],
            0 <= k <= n,
            out@.len() == k,
            strictly_sorted_lex(vecs_view(out@)),
            forall|x: Seq<u8>| vecs_view(out@).contains(x) <==> iv.take(k as int).contains(x),
        decreases n - k,
    {
        let elem = rest[k].clone();
        proof {
            assert(elem@ == iv[k as int]);
            assert(!vecs_view(out@).contains(elem@)) by {
                if iv.take(k as int).contains(elem@) {
                    let j = choose|j: int| 0 <= j < k && iv.take(k as int)[j] == elem@;
                    assert(iv[j] == iv[k as int]);
                }
            }
        }
        let mut p: usize = 0;
        while p < out.len() && lex_lt_bytes(&out[p], &elem)
            invariant
                0 <= p <= out@.len(),
                forall|j: int| 0 <= j < p ==> lex_lt(vecs_view(out@)[j], elem@),
            decreases out@.len() - p,
        {
            p += 1;
        }
        let ghost prev = out@;
        proof {
            if p < out@.len() {
                assert(!lex_lt(vecs_view(out@)[p as int], elem@));
            }
        }
        out.insert(p, elem);
        proof {
            prev.insert_ensures(p as int, out@[p as int]);
            let ov = vecs_view(out@);
            let pv = vecs_view(prev);
            assert(out@ == prev.insert(p as int, out@[p as int]));
            assert forall|j: int| 0 <= j < ov.len() implies ov[j] == if j < p {
                pv[j]
            } else if j == p {
                iv[k as int]
            } else {
                pv[j - 1]
            } by {
                if j < p {
                    assert(out@[j] == prev[j]);
                } else if j > p {
                    assert(out@[j] == prev[j - 1]);
                }
            }
            // The inserted element is ordered after everything left of its
            // slot and before everything right of it.
            assert forall|j: int| p < j < ov.len() implies lex_lt(iv[k as int], ov[j]) by {
                assert(ov[j] == pv[j - 1]);
                assert(pv.contains(pv[j - 1]));
                assert(pv[j - 1] != iv[k as int]);
                lemma_lex_connected(iv[k as int], pv[p as int]);
                assert(lex_lt(iv[k as int], pv[p as int]));
                if p < j - 1 {
                    assert(lex_lt(pv[p as int], pv[j - 1]));
                    lemma_lex_trans(iv[k as int], pv[p as int], pv[j - 1]);
                }
            }
            assert(strictly_sorted_lex(ov)) by {
                assert forall|s: int, t: int| 0 <= s < t < ov.len() implies lex_lt(
                    ov[s],
                    ov[t],
                ) by {
                    if t < p {
                        assert(ov[s] == pv[s] && ov[t] == pv[t]);
                        assert(lex_lt(pv[s], pv[t]));
                    } else if t == p {
                        assert(ov[s] == pv[s]);
                        assert(lex_lt(pv[s], iv[k as int]));
                    } else if s < p {
                        assert(ov[s] == pv[s] && ov[t] == pv[t - 1]);
                        assert(s < t - 1);
                        assert(lex_lt(pv[s], pv[t - 1]));
                    } else if s == p {
                        assert(lex_lt(iv[k as int], ov[t]));
                    } else {
                        assert(ov[s] == pv[s - 1] && ov[t] == pv[t - 1]);
                        assert(lex_lt(pv[s - 1], pv[t - 1]));
                    }
                }
            }
            assert forall|x: Seq<u8>| ov.contains(x) <==> iv.take(k as int + 1).contains(
                x,
            ) by {
                if ov.contains(x) {
                    let j = choose|j: int| 0 <= j < ov.len() && ov[j] == x;
                    if j == p {
                        assert(iv.take(k as int + 1)[k as int] == x);
                    } else {
                        assert(pv.contains(x));
                        let q = choose|q: int| 0 <= q < k && iv.take(k as int)[q] == x;
                        assert(iv.take(k as int + 1)[q] == x);
                    }
                }
                if iv.take(k as int + 1).contains(x) {
                    let q = choose|q: int|
                        0 <= q < k + 1 && #[trigger] iv.take(k as int + 1)[q] == x;
                    if q == k {
                        assert(ov[p as int] == x);
                    } else {
                        assert(iv.take(k as int)[q] == x);
                        assert(pv.contains(x));
                        let j = choose|j: int| 0 <= j < pv.len() && pv[j] == x;
                        if j < p {
                            assert(ov[j] == x);
                        } else {
                            assert(ov[j + 1] == x);
                        }
                    }
                }
            }
        }
        k += 1;
    }
    proof {
        assert(iv.take(n as int) =~= iv);
    }
    out
}

} // verus!
