//! The rewrite engine: greedy, non-overlapping, length-preserving
//! substitution of one fixed-width identifier spelling by another, applied
//! entry by entry over a whole mapping, and the per-file decision of whether
//! anything is to be written back.

use vstd::prelude::*;

use crate::ident::MappingEntry;

verus! {

/// Whether pattern `p` occurs in `c` starting at position `i`.
pub open spec fn matches_at(c: Seq<u8>, p: Seq<u8>, i: int) -> bool {
    0 <= i && i + p.len() <= c.len() && c.subrange(i, i + p.len()) == p
}

/// The suffix of `c` from position `k` with every occurrence of `p`
/// replaced by `q`, scanning left to right and never rescanning replaced
/// text: exactly what overwriting each found occurrence in place does when
/// `p` and `q` have the same length.
pub open spec fn rewrite_from(c: Seq<u8>, p: Seq<u8>, q: Seq<u8>, k: int) -> Seq<u8>
    decreases c.len() - k when 0 <= k && p.len() > 0
{
    if k < 0 || k >= c.len() || p.len() == 0 {
        Seq::empty()
    } else if matches_at(c, p, k) {
        q + rewrite_from(c, p, q, k + p.len() as int)
    } else {
        seq![c[k]] + rewrite_from(c, p, q, k + 1)
    }
}

/// The whole of `c` with every occurrence of `p` replaced by `q`.
pub open spec fn rewrite_seq(c: Seq<u8>, p: Seq<u8>, q: Seq<u8>) -> Seq<u8> {
    rewrite_from(c, p, q, 0)
}

/// How many occurrences the scan from position `k` finds.
pub open spec fn count_from(c: Seq<u8>, p: Seq<u8>, k: int) -> nat
    decreases c.len() - k when 0 <= k && p.len() > 0
{
    if k < 0 || k >= c.len() || p.len() == 0 {
        0
    } else if matches_at(c, p, k) {
        1 + count_from(c, p, k + p.len() as int)
    } else {
        count_from(c, p, k + 1)
    }
}

/// How many occurrences of `p` the scan of the whole of `c` finds.
pub open spec fn occurrence_count(c: Seq<u8>, p: Seq<u8>) -> nat {
    count_from(c, p, 0)
}

/// Replacing by a spelling of the same length never changes the length.
pub proof fn lemma_rewrite_len(c: Seq<u8>, p: Seq<u8>, q: Seq<u8>, k: int)
    requires
        p.len() == q.len(),
        p.len() > 0,
        0 <= k <= c.len(),
    ensures
        rewrite_from(c, p, q, k).len() == c.len() - k,
    decreases c.len() - k,
{
    if k < c.len() {
        if matches_at(c, p, k) {
            lemma_rewrite_len(c, p, q, k + p.len() as int);
        } else {
            lemma_rewrite_len(c, p, q, k + 1);
        }
    }
}

/// A scan that finds nothing leaves the text as it was.
pub proof fn lemma_no_occurrence_unchanged(c: Seq<u8>, p: Seq<u8>, q: Seq<u8>, k: int)
    requires
        p.len() > 0,
        0 <= k <= c.len(),
        count_from(c, p, k) == 0,
    ensures
        rewrite_from(c, p, q, k) == c.subrange(k, c.len() as int),
    decreases c.len() - k,
{
    if k < c.len() {
        lemma_no_occurrence_unchanged(c, p, q, k + 1);
        assert(rewrite_from(c, p, q, k) =~= c.subrange(k, c.len() as int));
    } else {
        assert(rewrite_from(c, p, q, k) =~= c.subrange(k, c.len() as int));
    }
}

/// The pattern and its replacement share no boundary: the replacement is
/// different, no proper suffix of the pattern is a prefix of the
/// replacement, and no proper prefix of the pattern is a suffix of the
/// replacement. Two independently drawn 32-digit spellings satisfy this
/// with overwhelming likelihood; it is exactly what rules out a rewrite
/// conjuring a fresh occurrence that straddles a replaced region.
pub open spec fn no_boundary_overlap(p: Seq<u8>, q: Seq<u8>) -> bool {
    &&& p != q
    &&& forall|t: int|
        0 < t < p.len() ==> p.subrange(t, p.len() as int) != q.subrange(0, p.len() - t)
    &&& forall|t: int|
        0 < t < p.len() ==> p.subrange(0, t) != q.subrange(q.len() - t, q.len() as int)
}

/// A pattern occurrence could begin `t` characters before position `k` in
/// untouched text: those characters spell the pattern's first `t`, and no
/// occurrence was found at any of their positions.
spec fn straddle_hyp(c: Seq<u8>, p: Seq<u8>, k: int, t: int) -> bool {
    &&& 0 < t < p.len()
    &&& t <= k
    &&& p.subrange(0, t) == c.subrange(k - t, k)
    &&& forall|u: int| k - t <= u < k ==> !matches_at(c, p, u)
}

/// The rest of such an occurrence: the pattern's remaining characters stand
/// at the start of the rewritten suffix.
spec fn straddle_conc(c: Seq<u8>, p: Seq<u8>, q: Seq<u8>, k: int, t: int) -> bool {
    &&& p.len() - t <= rewrite_from(c, p, q, k).len()
    &&& p.subrange(t, p.len() as int) == rewrite_from(c, p, q, k).subrange(0, p.len() - t)
}

proof fn rewrite_from_clean(c: Seq<u8>, p: Seq<u8>, q: Seq<u8>, k: int)
    requires
        p.len() == q.len(),
        p.len() > 0,
        no_boundary_overlap(p, q),
        0 <= k <= c.len(),
    ensures
        forall|j: int| !matches_at(rewrite_from(c, p, q, k), p, j),
        forall|t: int| straddle_hyp(c, p, k, t) ==> !straddle_conc(c, p, q, k, t),
    decreases c.len() - k,
{
    let l = p.len() as int;
    let r = rewrite_from(c, p, q, k);
    if k >= c.len() {
        assert(r.len() == 0);
        assert forall|t: int| straddle_hyp(c, p, k, t) implies !straddle_conc(c, p, q, k, t) by {
            assert(l - t > 0);
        }
    } else if matches_at(c, p, k) {
        rewrite_from_clean(c, p, q, k + l);
        let rr = rewrite_from(c, p, q, k + l);
        assert(r == q + rr);
        assert forall|j: int| !matches_at(r, p, j) by {
            if matches_at(r, p, j) {
                if j == 0 {
                    assert(r.subrange(0, l) =~= q);
                    assert(p == q);
                    assert(false);
                } else if j < l {
                    assert(p.subrange(0, l - j) =~= q.subrange(j, l)) by {
                        assert forall|m: int| 0 <= m < l - j implies p.subrange(0, l - j)[m]
                            == q.subrange(j, l)[m] by {
                            assert(p[m] == r.subrange(j, j + l)[m]);
                            assert(r[j + m] == q[j + m]);
                        }
                    }
                    let t = l - j;
                    assert(p.subrange(0, t) == q.subrange(q.len() - t, q.len() as int));
                    assert(false);
                } else {
                    assert(matches_at(rr, p, j - l)) by {
                        assert(rr.subrange(j - l, j) =~= r.subrange(j, j + l));
                    }
                    assert(false);
                }
            }
        }
        assert forall|t: int| straddle_hyp(c, p, k, t) implies !straddle_conc(c, p, q, k, t) by {
            if straddle_conc(c, p, q, k, t) {
                assert(p.subrange(t, l) =~= q.subrange(0, l - t)) by {
                    assert forall|m: int| 0 <= m < l - t implies p.subrange(t, l)[m]
                        == q.subrange(0, l - t)[m] by {
                        assert(p.subrange(t, l)[m] == r.subrange(0, l - t)[m]);
                        assert(r[m] == q[m]);
                    }
                }
                assert(false);
            }
        }
    } else {
        rewrite_from_clean(c, p, q, k + 1);
        let rr = rewrite_from(c, p, q, k + 1);
        assert(r == seq![c[k]] + rr);
        assert forall|j: int| !matches_at(r, p, j) by {
            if matches_at(r, p, j) {
                if j >= 1 {
                    assert(matches_at(rr, p, j - 1)) by {
                        assert(rr.subrange(j - 1, j - 1 + l) =~= r.subrange(j, j + l));
                    }
                    assert(false);
                } else {
                    assert(p[0] == r[0]) by {
                        assert(p[0] == r.subrange(0, l)[0]);
                    }
                    assert(p[0] == c[k]);
                    if l == 1 {
                        assert(c.subrange(k, k + 1) =~= p);
                        assert(matches_at(c, p, k));
                        assert(false);
                    } else {
                        assert(p.subrange(0, 1) =~= c.subrange(k, k + 1));
                        assert(p.subrange(1, l) =~= rr.subrange(0, l - 1)) by {
                            assert forall|m: int| 0 <= m < l - 1 implies p.subrange(1, l)[m]
                                == rr.subrange(0, l - 1)[m] by {
                                assert(p[1 + m] == r.subrange(0, l)[1 + m]);
                                assert(r[1 + m] == rr[m]);
                            }
                        }
                        assert(straddle_hyp(c, p, k + 1, 1));
                        assert(straddle_conc(c, p, q, k + 1, 1));
                        assert(false);
                    }
                }
            }
        }
        assert forall|t: int| straddle_hyp(c, p, k, t) implies !straddle_conc(c, p, q, k, t) by {
            if straddle_conc(c, p, q, k, t) {
                assert(p[t] == r[0]) by {
                    assert(p[t] == p.subrange(t, l)[0]);
                    assert(p.subrange(t, l)[0] == r.subrange(0, l - t)[0]);
                }
                assert(p[t] == c[k]);
                if t + 1 == l {
                    assert(matches_at(c, p, k - t)) by {
                        assert(c.subrange(k - t, k - t + l) =~= p) by {
                            assert forall|m: int| 0 <= m < l implies c.subrange(
                                k - t,
                                k - t + l,
                            )[m] == p[m] by {
                                if m < t {
                                    assert(p.subrange(0, t)[m] == c.subrange(k - t, k)[m]);
                                }
                            }
                        }
                    }
                    assert(!matches_at(c, p, k - t));
                    assert(false);
                } else {
                    let t1 = t + 1;
                    let lo = k - t;
                    let hi = k + 1;
                    assert(p.subrange(0, t1) =~= c.subrange(lo, hi)) by {
                        assert forall|m: int| 0 <= m < t1 implies #[trigger] p.subrange(0, t1)[m]
                            == c.subrange(lo, hi)[m] by {
                            if m < t {
                                assert(p.subrange(0, t)[m] == c.subrange(k - t, k)[m]);
                            }
                        }
                    }
                    let rest = l - t1;
                    assert(p.subrange(t1, l) =~= rr.subrange(0, rest)) by {
                        assert forall|m: int| 0 <= m < rest implies #[trigger] p.subrange(t1, l)[m]
                            == rr.subrange(0, rest)[m] by {
                            assert(p[t1 + m] == p.subrange(t, l)[1 + m]);
                            assert(p.subrange(t, l)[1 + m] == r.subrange(0, l - t)[1 + m]);
                            assert(r[1 + m] == rr[m]);
                        }
                    }
                    assert(straddle_hyp(c, p, k + 1, t + 1));
                    assert(straddle_conc(c, p, q, k + 1, t + 1));
                    assert(false);
                }
            }
        }
    }
}

/// How many positions of `s`, from `k` on, an occurrence of `p` starts at;
/// unlike the scan count, overlapping occurrences all count.
pub open spec fn position_count(s: Seq<u8>, p: Seq<u8>, k: int) -> nat
    decreases s.len() - k when 0 <= k
{
    if k < 0 || k >= s.len() {
        0
    } else {
        (if matches_at(s, p, k) {
            1nat
        } else {
            0nat
        }) + position_count(s, p, k + 1)
    }
}

/// The spelling never overlaps itself: no proper suffix of it is also a
/// prefix of it, so two of its occurrences can never share a character.
pub open spec fn no_self_overlap(p: Seq<u8>) -> bool {
    forall|d: int| 0 < d < p.len() ==> p.subrange(d, p.len() as int) != p.subrange(0, p.len() - d)
}

proof fn lemma_position_count_range(s: Seq<u8>, p: Seq<u8>, a: int, b: int)
    requires
        0 <= a <= b <= s.len(),
        forall|j: int| a <= j < b ==> !matches_at(s, p, j),
    ensures
        position_count(s, p, a) == position_count(s, p, b),
    decreases b - a,
{
    if a < b {
        lemma_position_count_range(s, p, a + 1, b);
    }
}

proof fn lemma_position_count_shift(a: Seq<u8>, b: Seq<u8>, p: Seq<u8>, d: int)
    requires
        0 <= d <= b.len(),
    ensures
        position_count(a + b, p, a.len() + d) == position_count(b, p, d),
    decreases b.len() - d,
{
    let s = a + b;
    let l = p.len() as int;
    if matches_at(s, p, a.len() + d) {
        assert(b.subrange(d, d + l) =~= s.subrange(a.len() + d, a.len() + d + l));
        assert(matches_at(b, p, d));
    }
    if matches_at(b, p, d) {
        assert(s.subrange(a.len() + d, a.len() + d + l) =~= b.subrange(d, d + l));
        assert(matches_at(s, p, a.len() + d));
    }
    if d < b.len() {
        lemma_position_count_shift(a, b, p, d + 1);
    }
}

proof fn lemma_greedy_counts_all(c: Seq<u8>, p: Seq<u8>, k: int)
    requires
        p.len() > 0,
        no_self_overlap(p),
        0 <= k <= c.len(),
    ensures
        count_from(c, p, k) == position_count(c, p, k),
    decreases c.len() - k,
{
    let l = p.len() as int;
    if k < c.len() {
        if matches_at(c, p, k) {
            lemma_greedy_counts_all(c, p, k + l);
            assert forall|u: int| k < u < k + l implies !matches_at(c, p, u) by {
                if matches_at(c, p, u) {
                    let d = u - k;
                    assert(p.subrange(d, l) =~= p.subrange(0, l - d)) by {
                        assert forall|m: int| 0 <= m < l - d implies #[trigger] p.subrange(d, l)[m]
                            == p.subrange(0, l - d)[m] by {
                            assert(p[d + m] == c.subrange(k, k + l)[d + m]);
                            assert(p[m] == c.subrange(u, u + l)[m]);
                        }
                    }
                    assert(false);
                }
            }
            lemma_position_count_range(c, p, k + 1, k + l);
        } else {
            lemma_greedy_counts_all(c, p, k + 1);
        }
    }
}

/// A fresh occurrence of the replacement could begin `t` characters before
/// position `k`, in untouched text spelling the replacement's first `t`.
spec fn fresh_straddle_hyp(c: Seq<u8>, q: Seq<u8>, k: int, t: int) -> bool {
    &&& 0 < t < q.len()
    &&& t <= k
    &&& q.subrange(0, t) == c.subrange(k - t, k)
}

/// The rest of such an occurrence: the replacement's remaining characters
/// stand at the start of the rewritten suffix.
spec fn fresh_straddle_conc(c: Seq<u8>, p: Seq<u8>, q: Seq<u8>, k: int, t: int) -> bool {
    &&& q.len() - t <= rewrite_from(c, p, q, k).len()
    &&& q.subrange(t, q.len() as int) == rewrite_from(c, p, q, k).subrange(0, q.len() - t)
}

proof fn rewrite_from_fresh_count(c: Seq<u8>, p: Seq<u8>, q: Seq<u8>, k: int)
    requires
        p.len() == q.len(),
        p.len() > 0,
        no_self_overlap(q),
        forall|j: int| !matches_at(c, q, j),
        0 <= k <= c.len(),
    ensures
        position_count(rewrite_from(c, p, q, k), q, 0) == count_from(c, p, k),
        forall|t: int| fresh_straddle_hyp(c, q, k, t) ==> !fresh_straddle_conc(c, p, q, k, t),
    decreases c.len() - k,
{
    let l = p.len() as int;
    let r = rewrite_from(c, p, q, k);
    if k >= c.len() {
        assert(r.len() == 0);
        assert forall|t: int| fresh_straddle_hyp(c, q, k, t) implies !fresh_straddle_conc(
            c,
            p,
            q,
            k,
            t,
        ) by {
            assert(l - t > 0);
        }
    } else if matches_at(c, p, k) {
        rewrite_from_fresh_count(c, p, q, k + l);
        let rr = rewrite_from(c, p, q, k + l);
        assert(r == q + rr);
        assert(r.subrange(0, l) =~= q);
        assert(matches_at(r, q, 0));
        assert forall|j: int| 1 <= j < l implies !matches_at(r, q, j) by {
            if matches_at(r, q, j) {
                assert(q.subrange(j, l) =~= q.subrange(0, l - j)) by {
                    assert forall|m: int| 0 <= m < l - j implies #[trigger] q.subrange(j, l)[m]
                        == q.subrange(0, l - j)[m] by {
                        assert(q[m] == r.subrange(j, j + l)[m]);
                        assert(r[j + m] == q[j + m]);
                    }
                }
                assert(false);
            }
        }
        lemma_position_count_range(r, q, 1, l);
        lemma_position_count_shift(q, rr, q, 0);
        assert(position_count(r, q, l) == position_count(rr, q, 0));
        assert forall|t: int| fresh_straddle_hyp(c, q, k, t) implies !fresh_straddle_conc(
            c,
            p,
            q,
            k,
            t,
        ) by {
            if fresh_straddle_conc(c, p, q, k, t) {
                assert(q.subrange(t, l) =~= q.subrange(0, l - t)) by {
                    assert forall|m: int| 0 <= m < l - t implies #[trigger] q.subrange(t, l)[m]
                        == q.subrange(0, l - t)[m] by {
                        assert(q.subrange(t, l)[m] == r.subrange(0, l - t)[m]);
                        assert(r[m] == q[m]);
                    }
                }
                assert(false);
            }
        }
    } else {
        rewrite_from_fresh_count(c, p, q, k + 1);
        let rr = rewrite_from(c, p, q, k + 1);
        assert(r == seq![c[k]] + rr);
        assert(!matches_at(r, q, 0)) by {
            if matches_at(r, q, 0) {
                assert(q[0] == r[0]) by {
                    assert(q[0] == r.subrange(0, l)[0]);
                }
                assert(q[0] == c[k]);
                if l == 1 {
                    assert(c.subrange(k, k + 1) =~= q);
                    assert(matches_at(c, q, k));
                    assert(false);
                } else {
                    assert(q.subrange(0, 1) =~= c.subrange(k, k + 1));
                    assert(q.subrange(1, l) =~= rr.subrange(0, l - 1)) by {
                        assert forall|m: int| 0 <= m < l - 1 implies #[trigger] q.subrange(1, l)[m]
                            == rr.subrange(0, l - 1)[m] by {
                            assert(q[1 + m] == r.subrange(0, l)[1 + m]);
                            assert(r[1 + m] == rr[m]);
                        }
                    }
                    assert(fresh_straddle_hyp(c, q, k + 1, 1));
                    assert(fresh_straddle_conc(c, p, q, k + 1, 1));
                    assert(false);
                }
            }
        }
        lemma_position_count_shift(seq![c[k]], rr, q, 0);
        assert(position_count(r, q, 1) == position_count(rr, q, 0));
        assert forall|t: int| fresh_straddle_hyp(c, q, k, t) implies !fresh_straddle_conc(
            c,
            p,
            q,
            k,
            t,
        ) by {
            if fresh_straddle_conc(c, p, q, k, t) {
                assert(q[t] == r[0]) by {
                    assert(q[t] == q.subrange(t, l)[0]);
                    assert(q.subrange(t, l)[0] == r.subrange(0, l - t)[0]);
                }
                assert(q[t] == c[k]);
                if t + 1 == l {
                    assert(matches_at(c, q, k - t)) by {
                        assert(c.subrange(k - t, k - t + l) =~= q) by {
                            assert forall|m: int| 0 <= m < l implies c.subrange(
                                k - t,
                                k - t + l,
                            )[m] == q[m] by {
                                if m < t {
                                    assert(q.subrange(0, t)[m] == c.subrange(k - t, k)[m]);
                                }
                            }
                        }
                    }
                    assert(false);
                } else {
                    let t1 = t + 1;
                    let lo = k - t;
                    let hi = k + 1;
                    assert(q.subrange(0, t1) =~= c.subrange(lo, hi)) by {
                        assert forall|m: int| 0 <= m < t1 implies #[trigger] q.subrange(0, t1)[m]
                            == c.subrange(lo, hi)[m] by {
                            if m < t {
                                assert(q.subrange(0, t)[m] == c.subrange(k - t, k)[m]);
                            }
                        }
                    }
                    let rest = l - t1;
                    assert(q.subrange(t1, l) =~= rr.subrange(0, rest)) by {
                        assert forall|m: int| 0 <= m < rest implies #[trigger] q.subrange(t1, l)[m]
                            == rr.subrange(0, rest)[m] by {
                            assert(q[t1 + m] == q.subrange(t, l)[1 + m]);
                            assert(q.subrange(t, l)[1 + m] == r.subrange(0, l - t)[1 + m]);
                            assert(r[1 + m] == rr[m]);
                        }
                    }
                    assert(fresh_straddle_hyp(c, q, k + 1, t1));
                    assert(fresh_straddle_conc(c, p, q, k + 1, t1));
                    assert(false);
                }
            }
        }
    }
}

/// Substitution counting: a fresh replacement — one that occurs nowhere in
/// the text beforehand and never overlaps itself — occurs afterwards at
/// exactly as many positions as the scan found and replaced occurrences of
/// the pattern; when the pattern never overlaps itself either, that is
/// exactly the number of positions the pattern previously occurred at, so
/// the replacement's count rises by the pattern's prior count.
pub proof fn lemma_substitution_counts(c: Seq<u8>, p: Seq<u8>, q: Seq<u8>)
    requires
        p.len() == q.len(),
        p.len() > 0,
        no_self_overlap(q),
        forall|j: int| !matches_at(c, q, j),
    ensures
        position_count(c, q, 0) == 0,
        position_count(rewrite_seq(c, p, q), q, 0) == occurrence_count(c, p),
        no_self_overlap(p) ==> position_count(rewrite_seq(c, p, q), q, 0) == position_count(
            c,
            p,
            0,
        ),
{
    rewrite_from_fresh_count(c, p, q, 0);
    lemma_position_count_range(c, q, 0, c.len() as int);
    if no_self_overlap(p) {
        lemma_greedy_counts_all(c, p, 0);
    }
}

/// Substitution completeness: when the replacement has the pattern's
/// length and the two share no boundary, a rewrite leaves no occurrence of
/// the pattern anywhere in the result — neither where one was replaced nor
/// straddling the edge of a replaced region.
pub proof fn lemma_substitution_completeness(c: Seq<u8>, p: Seq<u8>, q: Seq<u8>)
    requires
        p.len() == q.len(),
        p.len() > 0,
        no_boundary_overlap(p, q),
    ensures
        forall|j: int| !matches_at(rewrite_seq(c, p, q), p, j),
{
    rewrite_from_clean(c, p, q, 0);
}

/// The rest of a straddling occurrence of an absent spelling `x`: its
/// remaining characters stand at the start of the rewritten suffix.
spec fn absent_straddle_conc(c: Seq<u8>, p: Seq<u8>, q: Seq<u8>, x: Seq<u8>, k: int, t: int) -> bool {
    &&& x.len() - t <= rewrite_from(c, p, q, k).len()
    &&& x.subrange(t, x.len() as int) == rewrite_from(c, p, q, k).subrange(0, x.len() - t)
}

proof fn rewrite_preserves_absence(c: Seq<u8>, p: Seq<u8>, q: Seq<u8>, x: Seq<u8>, k: int)
    requires
        p.len() == q.len(),
        p.len() > 0,
        x.len() == q.len(),
        no_boundary_overlap(x, q),
        forall|j: int| !matches_at(c, x, j),
        0 <= k <= c.len(),
    ensures
        forall|j: int| !matches_at(rewrite_from(c, p, q, k), x, j),
        forall|t: int| fresh_straddle_hyp(c, x, k, t) ==> !absent_straddle_conc(c, p, q, x, k, t),
    decreases c.len() - k,
{
    let l = x.len() as int;
    let r = rewrite_from(c, p, q, k);
    if k >= c.len() {
        assert(r.len() == 0);
        assert forall|t: int| fresh_straddle_hyp(c, x, k, t) implies !absent_straddle_conc(
            c,
            p,
            q,
            x,
            k,
            t,
        ) by {
            assert(l - t > 0);
        }
    } else if matches_at(c, p, k) {
        rewrite_preserves_absence(c, p, q, x, k + l);
        let rr = rewrite_from(c, p, q, k + l);
        assert(r == q + rr);
        assert forall|j: int| !matches_at(r, x, j) by {
            if matches_at(r, x, j) {
                if j == 0 {
                    assert(r.subrange(0, l) =~= q);
                    assert(x == q);
                    assert(false);
                } else if j < l {
                    assert(x.subrange(0, l - j) =~= q.subrange(j, l)) by {
                        assert forall|m: int| 0 <= m < l - j implies x.subrange(0, l - j)[m]
                            == q.subrange(j, l)[m] by {
                            assert(x[m] == r.subrange(j, j + l)[m]);
                            assert(r[j + m] == q[j + m]);
                        }
                    }
                    let t = l - j;
                    assert(x.subrange(0, t) == q.subrange(q.len() - t, q.len() as int));
                    assert(false);
                } else {
                    assert(matches_at(rr, x, j - l)) by {
                        assert(rr.subrange(j - l, j) =~= r.subrange(j, j + l));
                    }
                    assert(false);
                }
            }
        }
        assert forall|t: int| fresh_straddle_hyp(c, x, k, t) implies !absent_straddle_conc(
            c,
            p,
            q,
            x,
            k,
            t,
        ) by {
            if absent_straddle_conc(c, p, q, x, k, t) {
                assert(x.subrange(t, l) =~= q.subrange(0, l - t)) by {
                    assert forall|m: int| 0 <= m < l - t implies #[trigger] x.subrange(t, l)[m]
                        == q.subrange(0, l - t)[m] by {
                        assert(x.subrange(t, l)[m] == r.subrange(0, l - t)[m]);
                        assert(r[m] == q[m]);
                    }
                }
                assert(false);
            }
        }
    } else {
        rewrite_preserves_absence(c, p, q, x, k + 1);
        let rr = rewrite_from(c, p, q, k + 1);
        assert(r == seq![c[k]] + rr);
        assert forall|j: int| !matches_at(r, x, j) by {
            if matches_at(r, x, j) {
                if j >= 1 {
                    assert(matches_at(rr, x, j - 1)) by {
                        assert(rr.subrange(j - 1, j - 1 + l) =~= r.subrange(j, j + l));
                    }
                    assert(false);
                } else {
                    assert(x[0] == r[0]) by {
                        assert(x[0] == r.subrange(0, l)[0]);
                    }
                    assert(x[0] == c[k]);
                    if l == 1 {
                        assert(c.subrange(k, k + 1) =~= x);
                        assert(matches_at(c, x, k));
                        assert(false);
                    } else {
                        assert(x.subrange(0, 1) =~= c.subrange(k, k + 1));
                        assert(x.subrange(1, l) =~= rr.subrange(0, l - 1)) by {
                            assert forall|m: int| 0 <= m < l - 1 implies #[trigger] x.subrange(
                                1,
                                l,
                            )[m] == rr.subrange(0, l - 1)[m] by {
                                assert(x[1 + m] == r.subrange(0, l)[1 + m]);
                                assert(r[1 + m] == rr[m]);
                            }
                        }
                        assert(fresh_straddle_hyp(c, x, k + 1, 1));
                        assert(absent_straddle_conc(c, p, q, x, k + 1, 1));
                        assert(false);
                    }
                }
            }
        }
        assert forall|t: int| fresh_straddle_hyp(c, x, k, t) implies !absent_straddle_conc(
            c,
            p,
            q,
            x,
            k,
            t,
        ) by {
            if absent_straddle_conc(c, p, q, x, k, t) {
                assert(x[t] == r[0]) by {
                    assert(x[t] == x.subrange(t, l)[0]);
                    assert(x.subrange(t, l)[0] == r.subrange(0, l - t)[0]);
                }
                assert(x[t] == c[k]);
                if t + 1 == l {
                    assert(matches_at(c, x, k - t)) by {
                        assert(c.subrange(k - t, k - t + l) =~= x) by {
                            assert forall|m: int| 0 <= m < l implies c.subrange(
                                k - t,
                                k - t + l,
                            )[m] == x[m] by {
                                if m < t {
                                    assert(x.subrange(0, t)[m] == c.subrange(k - t, k)[m]);
                                }
                            }
                        }
                    }
                    assert(false);
                } else {
                    let t1 = t + 1;
                    let lo = k - t;
                    let hi = k + 1;
                    assert(x.subrange(0, t1) =~= c.subrange(lo, hi)) by {
                        assert forall|m: int| 0 <= m < t1 implies #[trigger] x.subrange(0, t1)[m]
                            == c.subrange(lo, hi)[m] by {
                            if m < t {
                                assert(x.subrange(0, t)[m] == c.subrange(k - t, k)[m]);
                            }
                        }
                    }
                    let rest = l - t1;
                    assert(x.subrange(t1, l) =~= rr.subrange(0, rest)) by {
                        assert forall|m: int| 0 <= m < rest implies #[trigger] x.subrange(t1, l)[m]
                            == rr.subrange(0, rest)[m] by {
                            assert(x[t1 + m] == x.subrange(t, l)[1 + m]);
                            assert(x.subrange(t, l)[1 + m] == r.subrange(0, l - t)[1 + m]);
                            assert(r[1 + m] == rr[m]);
                        }
                    }
                    assert(fresh_straddle_hyp(c, x, k + 1, t1));
                    assert(absent_straddle_conc(c, p, q, x, k + 1, t1));
                    assert(false);
                }
            }
        }
    }
}

proof fn apply_preserves_absence(c: Seq<u8>, m: Seq<MappingEntry>, x: Seq<u8>)
    requires
        forall|i: int| 0 <= i < m.len() ==> (#[trigger] m[i]).wf(),
        forall|i: int| 0 <= i < m.len() ==> no_boundary_overlap(x, (#[trigger] m[i]).new_id@),
        x.len() == 32,
        forall|j: int| !matches_at(c, x, j),
    ensures
        forall|j: int| !matches_at(apply_entries(c, m), x, j),
    decreases m.len(),
{
    if m.len() > 0 {
        assert(m[0].wf());
        let c1 = rewrite_seq(c, m[0].old_id@, m[0].new_id@);
        rewrite_preserves_absence(c, m[0].old_id@, m[0].new_id@, x, 0);
        let m1 = m.drop_first();
        assert(forall|i: int| 0 <= i < m1.len() ==> #[trigger] m1[i] == m[i + 1]);
        assert(apply_entries(c, m) == apply_entries(c1, m1));
        apply_preserves_absence(c1, m1, x);
    }
}

/// Substitution completeness over a whole mapping: after an apply pass, no
/// occurrence of any entry's old spelling remains anywhere in the text,
/// provided each old spelling shares no boundary with its own replacement
/// or with any replacement applied after it. Independently drawn 32-digit
/// spellings satisfy that condition with overwhelming likelihood; a mapping
/// whose spellings alias one another is the one case left open.
pub proof fn lemma_mapping_completeness(c: Seq<u8>, m: Seq<MappingEntry>)
    requires
        forall|i: int| 0 <= i < m.len() ==> (#[trigger] m[i]).wf(),
        forall|i: int, j: int|
            0 <= i <= j < m.len() ==> no_boundary_overlap(
                (#[trigger] m[i]).old_id@,
                (#[trigger] m[j]).new_id@,
            ),
    ensures
        forall|i: int, j: int|
            0 <= i < m.len() ==> !(#[trigger] matches_at(apply_entries(c, m), m[i].old_id@, j)),
    decreases m.len(),
{
    if m.len() > 0 {
        assert(m[0].wf());
        let e = m[0];
        let c1 = rewrite_seq(c, e.old_id@, e.new_id@);
        let m1 = m.drop_first();
        assert(forall|i: int| 0 <= i < m1.len() ==> #[trigger] m1[i] == m[i + 1]);
        assert(apply_entries(c, m) == apply_entries(c1, m1));
        assert(no_boundary_overlap(e.old_id@, e.new_id@));
        lemma_substitution_completeness(c, e.old_id@, e.new_id@);
        apply_preserves_absence(c1, m1, e.old_id@);
        lemma_mapping_completeness(c1, m1);
        assert forall|i: int, j: int| 0 <= i < m.len() implies !(#[trigger] matches_at(
            apply_entries(c, m),
            m[i].old_id@,
            j,
        )) by {
            if i > 0 {
                assert(m[i] == m1[i - 1]);
                assert(!matches_at(apply_entries(c1, m1), m1[i - 1].old_id@, j));
            }
        }
    }
}

/// Both halves of substitution completeness, stated of the engine's own
/// fold for a mapping of one entry: an apply pass leaves no occurrence of
/// the old spelling anywhere, and the new spelling afterwards occurs at
/// exactly as many positions as the old one did before — provided the new
/// spelling is fresh (it occurred nowhere beforehand and never overlaps
/// itself) and the two spellings share no boundary.
pub proof fn lemma_apply_single_entry(c: Seq<u8>, e: MappingEntry)
    requires
        e.wf(),
        no_boundary_overlap(e.old_id@, e.new_id@),
        no_self_overlap(e.new_id@),
        forall|j: int| !matches_at(c, e.new_id@, j),
    ensures
        forall|j: int| !matches_at(apply_entries(c, seq![e]), e.old_id@, j),
        position_count(apply_entries(c, seq![e]), e.new_id@, 0) == occurrence_count(c, e.old_id@),
        no_self_overlap(e.old_id@) ==> position_count(apply_entries(c, seq![e]), e.new_id@, 0)
            == position_count(c, e.old_id@, 0),
{
    let m = seq![e];
    assert(m.drop_first() =~= Seq::<MappingEntry>::empty());
    assert(m[0] == e);
    let w = rewrite_seq(c, e.old_id@, e.new_id@);
    assert(apply_entries(w, Seq::<MappingEntry>::empty()) == w);
    assert(apply_entries(c, m) == w);
    lemma_substitution_completeness(c, e.old_id@, e.new_id@);
    lemma_substitution_counts(c, e.old_id@, e.new_id@);
}

/// Whether position `i` of `c` is inside pattern bounds.
fn match_at(c: &Vec<u8>, p: &Vec<u8>, i: usize) -> (r: bool)
    requires
        i + p@.len() <= c@.len(),
    ensures
        r == matches_at(c@, p@, i as int),
{
    let n = c.len();
    let mut j: usize = 0;
    while j < p.len()
        invariant
            j <= p@.len(),
            i + p@.len() <= c@.len(),
            c@.len() == n,
            forall|m: int| 0 <= m < j ==> c@[i + m] == p@[m],
        decreases p@.len() - j,
    {
        if c[i + j] != p[j] {
            assert(c@.subrange(i as int, i + p@.len()) != p@) by {
                assert(c@.subrange(i as int, i + p@.len())[j as int] != p@[j as int]);
            }
            return false;
        }
        j += 1;
    }
    assert(c@.subrange(i as int, i + p@.len()) =~= p@);
    true
}

/// Replaces every occurrence of `p` in `c` by `q`, scanning left to right,
/// and returns the new text with the number of occurrences replaced. The
/// new text has exactly the length of the old.
pub fn substitute(c: &Vec<u8>, p: &Vec<u8>, q: &Vec<u8>) -> (r: (Vec<u8>, usize))
    requires
        p@.len() == q@.len(),
        p@.len() > 0,
    ensures
        r.0@ == rewrite_seq(c@, p@, q@),
        r.0@.len() == c@.len(),
        r.1 == occurrence_count(c@, p@),
        r.1 == 0 ==> r.0@ == c@,
{
    let mut out: Vec<u8> = Vec::new();
    let mut count: usize = 0;
    let mut i: usize = 0;
    while i < c.len()
        invariant
            p@.len() == q@.len(),
            p@.len() > 0,
            i <= c@.len(),
            out@.len() == i,
            count <= i,
            rewrite_seq(c@, p@, q@) == out@ + rewrite_from(c@, p@, q@, i as int),
            occurrence_count(c@, p@) == count + count_from(c@, p@, i as int),
        decreases c@.len() - i,
    {
        if p.len() <= c.len() - i && match_at(c, p, i) {
            let ghost base = out@;
            let mut j: usize = 0;
            while j < q.len()
                invariant
                    j <= q@.len(),
                    out@ == base + q@.subrange(0, j as int),
                decreases q@.len() - j,
            {
                let ghost pre = out@;
                out.push(q[j]);
                proof {
                    assert(out@ =~= base + q@.subrange(0, j + 1));
                }
                j += 1;
            }
            proof {
                assert(out@ =~= base + q@) by {
                    assert(q@.subrange(0, q@.len() as int) =~= q@);
                }
                assert(rewrite_from(c@, p@, q@, i as int) == q@ + rewrite_from(
                    c@,
                    p@,
                    q@,
                    i + p@.len(),
                ));
                assert(base + (q@ + rewrite_from(c@, p@, q@, i + p@.len())) =~= (base + q@)
                    + rewrite_from(c@, p@, q@, i + p@.len()));
            }
            i += p.len();
            count += 1;
        } else {
            assert(!matches_at(c@, p@, i as int));
            let ghost pre = out@;
            out.push(c[i]);
            proof {
                assert(rewrite_from(c@, p@, q@, i as int) == seq![c@[i as int]] + rewrite_from(c@, p@, q@, i + 1));
                assert(out@ + rewrite_from(c@, p@, q@, i + 1) =~= pre + rewrite_from(c@, p@, q@, i as int));
            }
            i += 1;
        }
    }
    assert(out@ + rewrite_from(c@, p@, q@, i as int) =~= out@);
    proof {
        if count == 0 {
            lemma_no_occurrence_unchanged(c@, p@, q@, 0);
            assert(c@.subrange(0, c@.len() as int) =~= c@);
        }
    }
    (out, count)
}

/// The text after the whole mapping is applied, entry by entry in mapping
/// order, each entry scanning the text the previous entries left behind.
pub open spec fn apply_entries(c: Seq<u8>, m: Seq<MappingEntry>) -> Seq<u8>
    decreases m.len(),
{
    if m.len() == 0 {
        c
    } else {
        apply_entries(rewrite_seq(c, m[0].old_id@, m[0].new_id@), m.drop_first())
    }
}

/// The occurrence count each entry sees while the mapping is applied.
pub open spec fn entry_counts(c: Seq<u8>, m: Seq<MappingEntry>) -> Seq<nat>
    decreases m.len(),
{
    if m.len() == 0 {
        Seq::empty()
    } else {
        seq![occurrence_count(c, m[0].old_id@)] + entry_counts(
            rewrite_seq(c, m[0].old_id@, m[0].new_id@),
            m.drop_first(),
        )
    }
}

/// An empty mapping never changes a text, whatever the text.
pub proof fn lemma_empty_mapping(c: Seq<u8>)
    ensures
        apply_entries(c, Seq::empty()) == c,
        entry_counts(c, Seq::empty()) == Seq::<nat>::empty(),
{
}

/// Applying well-formed entries never changes the length of the text.
pub proof fn lemma_apply_entries_len(c: Seq<u8>, m: Seq<MappingEntry>)
    requires
        forall|k: int| 0 <= k < m.len() ==> (#[trigger] m[k]).wf(),
    ensures
        apply_entries(c, m).len() == c.len(),
    decreases m.len(),
{
    if m.len() > 0 {
        assert(m[0].wf());
        lemma_rewrite_len(c, m[0].old_id@, m[0].new_id@, 0);
        assert(forall|k: int|
            0 <= k < m.drop_first().len() ==> (#[trigger] m.drop_first()[k]).wf());
        lemma_apply_entries_len(rewrite_seq(c, m[0].old_id@, m[0].new_id@), m.drop_first());
    }
}

/// Counts the occurrences of `p` that a left-to-right scan of `c` finds,
/// without changing anything.
pub fn count_occurrences(c: &Vec<u8>, p: &Vec<u8>) -> (r: usize)
    requires
        p@.len() > 0,
    ensures
        r == occurrence_count(c@, p@),
{
    let mut count: usize = 0;
    let mut i: usize = 0;
    while i < c.len()
        invariant
            p@.len() > 0,
            i <= c@.len(),
            count <= i,
            occurrence_count(c@, p@) == count + count_from(c@, p@, i as int),
        decreases c@.len() - i,
    {
        if p.len() <= c.len() - i && match_at(c, p, i) {
            i += p.len();
            count += 1;
        } else {
            assert(!matches_at(c@, p@, i as int));
            i += 1;
        }
    }
    count
}

/// Applies every entry of the mapping in order and returns the rewritten
/// text with the per-entry occurrence counts.
pub fn rewrite_all(c: &Vec<u8>, m: &Vec<MappingEntry>) -> (r: (Vec<u8>, Vec<usize>))
    requires
        forall|k: int| 0 <= k < m@.len() ==> (#[trigger] m@[k]).wf(),
    ensures
        r.0@ == apply_entries(c@, m@),
        r.0@.len() == c@.len(),
        r.1@.len() == m@.len(),
        r.1@.map_values(|x: usize| x as nat) == entry_counts(c@, m@),
{
    let mut cur: Vec<u8> = c.clone();
    assert(cur@ =~= c@);
    let mut counts: Vec<usize> = Vec::new();
    let mut i: usize = 0;
    proof {
        assert(m@.skip(0) =~= m@);
        assert(counts@.map_values(|x: usize| x as nat) =~= Seq::<nat>::empty());
        assert(Seq::<nat>::empty() + entry_counts(cur@, m@) =~= entry_counts(cur@, m@));
    }
    while i < m.len()
        invariant
            forall|k: int| 0 <= k < m@.len() ==> (#[trigger] m@[k]).wf(),
            i <= m@.len(),
            counts@.len() == i,
            cur@.len() == c@.len(),
            apply_entries(c@, m@) == apply_entries(cur@, m@.skip(i as int)),
            entry_counts(c@, m@) == counts@.map_values(|x: usize| x as nat) + entry_counts(
                cur@,
                m@.skip(i as int),
            ),
        decreases m@.len() - i,
    {
        let ghost pre_counts = counts@;
        let ghost pre_cur = cur@;
        assert(m@[i as int].wf());
        let e = &m[i];
        let (next, cnt) = substitute(&cur, &e.old_id, &e.new_id);
        cur = next;
        counts.push(cnt);
        i += 1;
        proof {
            let tail = m@.skip(i - 1);
            assert(tail[0] == m@[i - 1]);
            assert(tail.drop_first() =~= m@.skip(i as int));
            assert(apply_entries(pre_cur, tail) == apply_entries(cur@, m@.skip(i as int)));
            assert(entry_counts(pre_cur, tail) == seq![occurrence_count(pre_cur, m@[i - 1].old_id@)]
                + entry_counts(cur@, m@.skip(i as int)));
            assert(counts@.map_values(|x: usize| x as nat) =~= pre_counts.map_values(
                |x: usize| x as nat,
            ).push(cnt as nat));
            assert(pre_counts.map_values(|x: usize| x as nat) + entry_counts(pre_cur, tail)
                =~= counts@.map_values(|x: usize| x as nat) + entry_counts(
                cur@,
                m@.skip(i as int),
            ));
        }
    }
    proof {
        assert(m@.skip(m@.len() as int) =~= Seq::<MappingEntry>::empty());
        assert(counts@.map_values(|x: usize| x as nat) + Seq::<nat>::empty() =~= counts@.map_values(
            |x: usize| x as nat,
        ));
    }
    (cur, counts)
}

/// Whether `suf` is a suffix of `s`.
pub open spec fn is_suffix_of(suf: Seq<u8>, s: Seq<u8>) -> bool {
    suf.len() <= s.len() && s.subrange(s.len() - suf.len(), s.len() as int) == suf
}

/// Whether a file name ends with one of the ignored suffixes.
pub open spec fn spec_ignored(name: Seq<u8>, ignore: Seq<Vec<u8>>) -> bool {
    exists|k: int| 0 <= k < ignore.len() && is_suffix_of(ignore[k]@, name)
}

/// Whether `name` ends with the suffix `suf`.
pub fn ends_with(name: &Vec<u8>, suf: &Vec<u8>) -> (r: bool)
    ensures
        r == is_suffix_of(suf@, name@),
{
    if suf.len() > name.len() {
        return false;
    }
    let off = name.len() - suf.len();
    let r = match_at(name, suf, off);
    assert(name@.subrange(off as int, off + suf@.len()) == name@.subrange(
        name@.len() - suf@.len(),
        name@.len() as int,
    ));
    r
}

/// Whether the file name ends with any of the ignored suffixes; such a file
/// is left entirely alone by the rewrite engine.
pub fn is_ignored(name: &Vec<u8>, ignore: &Vec<Vec<u8>>) -> (r: bool)
    ensures
        r == spec_ignored(name@, ignore@),
{
    let mut k: usize = 0;
    while k < ignore.len()
        invariant
            k <= ignore@.len(),
            forall|j: int| 0 <= j < k ==> !is_suffix_of(ignore@[j]@, name@),
        decreases ignore@.len() - k,
    {
        if ends_with(name, &ignore[k]) {
            return true;
        }
        k += 1;
    }
    false
}

/// What the rewrite engine decides for one file: whether the ignore list
/// excluded it, what each mapping entry's scan counted, and the new content
/// to persist, if any.
pub struct FilePlan {
    pub ignored: bool,
    pub counts: Vec<usize>,
    pub write_back: Option<Vec<u8>>,
}

/// Whether any entry's scan found an occurrence.
fn any_positive(counts: &Vec<usize>) -> (r: bool)
    ensures
        r == exists|k: int| 0 <= k < counts@.len() && counts@[k] > 0,
{
    let mut k: usize = 0;
    while k < counts.len()
        invariant
            k <= counts@.len(),
            forall|j: int| 0 <= j < k ==> counts@[j] == 0,
        decreases counts@.len() - k,
    {
        if counts[k] > 0 {
            return true;
        }
        k += 1;
    }
    false
}

/// The whole per-file decision of the rewrite engine. An ignored file is
/// never touched; a dry run never asks for a write; otherwise the content
/// is rewritten entry by entry and written back exactly when some entry
/// found an occurrence. The rewritten text always keeps its length.
pub fn plan_file(
    name: &Vec<u8>,
    content: &Vec<u8>,
    mapping: &Vec<MappingEntry>,
    ignore: &Vec<Vec<u8>>,
    apply: bool,
) -> (r: FilePlan)
    requires
        forall|k: int| 0 <= k < mapping@.len() ==> (#[trigger] mapping@[k]).wf(),
    ensures
        r.ignored == spec_ignored(name@, ignore@),
        r.ignored ==> r.write_back is None && r.counts@.len() == 0,
        !apply ==> r.write_back is None,
        !r.ignored ==> r.counts@.len() == mapping@.len(),
        !r.ignored && !apply ==> forall|k: int|
            0 <= k < mapping@.len() ==> r.counts@[k] == occurrence_count(
                content@,
                mapping@[k].old_id@,
            ),
        !r.ignored && apply ==> r.counts@.map_values(|x: usize| x as nat) == entry_counts(
            content@,
            mapping@,
        ),
        apply && !r.ignored ==> ((r.write_back is Some) <==> exists|k: int|
            0 <= k < r.counts@.len() && r.counts@[k] > 0),
        r.write_back matches Some(w) ==> w@ == apply_entries(content@, mapping@) && w@.len()
            == content@.len(),
        mapping@.len() == 0 ==> r.write_back is None,
{
    if is_ignored(name, ignore) {
        return FilePlan { ignored: true, counts: Vec::new(), write_back: None };
    }
    if !apply {
        let mut counts: Vec<usize> = Vec::new();
        let mut k: usize = 0;
        while k < mapping.len()
            invariant
                forall|j: int| 0 <= j < mapping@.len() ==> (#[trigger] mapping@[j]).wf(),
                k <= mapping@.len(),
                counts@.len() == k,
                forall|j: int|
                    0 <= j < k ==> counts@[j] == occurrence_count(content@, mapping@[j].old_id@),
            decreases mapping@.len() - k,
        {
            assert(mapping@[k as int].wf());
            let c = count_occurrences(content, &mapping[k].old_id);
            counts.push(c);
            k += 1;
        }
        return FilePlan { ignored: false, counts, write_back: None };
    }
    let (out, counts) = rewrite_all(content, mapping);
    let changed = any_positive(&counts);
    proof {
        lemma_apply_entries_len(content@, mapping@);
    }
    if changed {
        FilePlan { ignored: false, counts, write_back: Some(out) }
    } else {
        FilePlan { ignored: false, counts, write_back: None }
    }
}

} // verus!
