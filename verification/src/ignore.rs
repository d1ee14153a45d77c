//! Normalization of the ignore list: the comma-separated text given on the
//! command line becomes one suffix per field, each field trimmed of ASCII
//! whitespace and prefixed with a dot.

use vstd::prelude::*;

verus! {

/// The ASCII whitespace characters trimmed from the ends of a fragment.
pub open spec fn is_ascii_space(b: u8) -> bool {
    b == 32 || b == 9 || b == 10 || b == 13 || b == 11 || b == 12
}

/// The fields of `s` between commas, in order, `start` being where the
/// current field began and `k` the scan position. A text without commas is
/// one field; every comma separates two, possibly empty, fields.
pub open spec fn split_from(s: Seq<u8>, start: int, k: int) -> Seq<Seq<u8>>
    decreases s.len() - k when 0 <= start <= k <= s.len()
{
    if !(0 <= start <= k <= s.len()) {
        Seq::empty()
    } else if k == s.len() {
        seq![s.subrange(start, k)]
    } else if s[k] == 44 {
        seq![s.subrange(start, k)] + split_from(s, k + 1, k + 1)
    } else {
        split_from(s, start, k + 1)
    }
}

/// The comma-separated fields of the whole of `s`.
pub open spec fn split_commas(s: Seq<u8>) -> Seq<Seq<u8>> {
    split_from(s, 0, 0)
}

/// `s` with ASCII whitespace removed from both ends.
pub open spec fn trim_spaces(s: Seq<u8>) -> Seq<u8>
    decreases s.len(),
{
    if s.len() == 0 {
        s
    } else if is_ascii_space(s[0]) {
        trim_spaces(s.drop_first())
    } else if is_ascii_space(s.last()) {
        trim_spaces(s.drop_last())
    } else {
        s
    }
}

/// The normalized ignore list: each field, trimmed, behind a dot.
pub open spec fn normalized_ignore(s: Seq<u8>) -> Seq<Seq<u8>> {
    split_commas(s).map_values(|f: Seq<u8>| seq![46u8] + trim_spaces(f))
}

proof fn lemma_trim_range(s: Seq<u8>, lo: int, hi: int)
    requires
        0 <= lo <= hi <= s.len(),
        forall|j: int| 0 <= j < lo ==> is_ascii_space(#[trigger] s[j]),
        forall|j: int| hi <= j < s.len() ==> is_ascii_space(#[trigger] s[j]),
        lo < hi ==> !is_ascii_space(s[lo]) && !is_ascii_space(s[hi - 1]),
    ensures
        trim_spaces(s) == s.subrange(lo, hi),
    decreases s.len(),
{
    if s.len() == 0 {
        assert(s.subrange(lo, hi) =~= s);
    } else if is_ascii_space(s[0]) {
        let s2 = s.drop_first();
        if lo == hi {
            assert(forall|j: int| 0 <= j < s2.len() ==> is_ascii_space(#[trigger] s2[j]));
            lemma_trim_range(s2, 0, 0);
            assert(s2.subrange(0, 0) =~= s.subrange(lo, hi));
        } else {
            assert(lo >= 1);
            assert(forall|j: int| 0 <= j < lo - 1 ==> is_ascii_space(#[trigger] s2[j]));
            assert(forall|j: int| hi - 1 <= j < s2.len() ==> is_ascii_space(#[trigger] s2[j]));
            lemma_trim_range(s2, lo - 1, hi - 1);
            assert(s2.subrange(lo - 1, hi - 1) =~= s.subrange(lo, hi));
        }
    } else {
        assert(lo == 0);
        assert(lo < hi) by {
            if lo == hi {
                assert(is_ascii_space(s[0]));
            }
        }
        if is_ascii_space(s.last()) {
            assert(hi < s.len());
            let s2 = s.drop_last();
            assert(forall|j: int| hi <= j < s2.len() ==> is_ascii_space(#[trigger] s2[j]));
            lemma_trim_range(s2, lo, hi);
            assert(s2.subrange(lo, hi) =~= s.subrange(lo, hi));
        } else {
            assert(hi == s.len()) by {
                if hi < s.len() {
                    assert(is_ascii_space(s[s.len() - 1]));
                }
            }
            assert(s.subrange(0, s.len() as int) =~= s);
        }
    }
}

/// One field of the window `[start, end)` of `s`, trimmed, behind a dot.
fn trim_window(s: &Vec<u8>, start: usize, end: usize) -> (r: Vec<u8>)
    requires
        start <= end <= s@.len(),
    ensures
        r@ == seq![46u8] + trim_spaces(s@.subrange(start as int, end as int)),
{
    let mut lo = start;
    let mut hi = end;
    while lo < hi && (s[lo] == 32 || s[lo] == 9 || s[lo] == 10 || s[lo] == 13 || s[lo] == 11
        || s[lo] == 12)
        invariant
            start <= lo <= hi <= end <= s@.len(),
            hi == end,
            forall|j: int| start <= j < lo ==> is_ascii_space(#[trigger] s@[j]),
        decreases hi - lo,
    {
        lo += 1;
    }
    while hi > lo && (s[hi - 1] == 32 || s[hi - 1] == 9 || s[hi - 1] == 10 || s[hi - 1] == 13
        || s[hi - 1] == 11 || s[hi - 1] == 12)
        invariant
            start <= lo <= hi <= end <= s@.len(),
            forall|j: int| start <= j < lo ==> is_ascii_space(#[trigger] s@[j]),
            forall|j: int| hi <= j < end ==> is_ascii_space(#[trigger] s@[j]),
            lo < hi ==> !is_ascii_space(s@[lo as int]),
        decreases hi - lo,
    {
        hi -= 1;
    }
    proof {
        let w = s@.subrange(start as int, end as int);
        assert(forall|j: int| 0 <= j < lo - start ==> is_ascii_space(#[trigger] w[j]));
        assert(forall|j: int| hi - start <= j < w.len() ==> is_ascii_space(#[trigger] w[j]));
        if lo < hi {
            assert(w[lo - start] == s@[lo as int]);
            assert(w[hi - start - 1] == s@[hi - 1]);
        }
        lemma_trim_range(w, lo - start, hi - start);
        assert(w.subrange(lo - start, hi - start) =~= s@.subrange(lo as int, hi as int));
    }
    let mut out: Vec<u8> = Vec::new();
    out.push(46);
    let mut j = lo;
    while j < hi
        invariant
            lo <= j <= hi <= s@.len(),
            out@ == seq![46u8] + s@.subrange(lo as int, j as int),
        decreases hi - j,
    {
        let ghost pre = out@;
        out.push(s[j]);
        proof {
            assert(out@ =~= seq![46u8] + s@.subrange(lo as int, j + 1));
        }
        j += 1;
    }
    out
}

/// Splits the configured ignore text at its commas and normalizes each
/// field: ASCII whitespace trimmed from both ends, then a dot prefixed.
/// Every field, an empty one too, yields exactly one suffix, in order.
pub fn normalize_ignore(s: &Vec<u8>) -> (r: Vec<Vec<u8>>)
    ensures
        r@.len() == normalized_ignore(s@).len(),
        forall|k: int| 0 <= k < r@.len() ==> r@[k]@ == normalized_ignore(s@)[k],
{
    let mut out: Vec<Vec<u8>> = Vec::new();
    let ghost mut fields: Seq<Seq<u8>> = Seq::empty();
    let mut start: usize = 0;
    let mut k: usize = 0;
    proof {
        assert(Seq::<Seq<u8>>::empty() + split_from(s@, 0, 0) =~= split_from(s@, 0, 0));
    }
    while k < s.len()
        invariant
            start <= k <= s@.len(),
            out@.len() == fields.len(),
            forall|m: int|
                0 <= m < fields.len() ==> #[trigger] out@[m]@ == seq![46u8] + trim_spaces(
                    fields[m],
                ),
            split_commas(s@) == fields + split_from(s@, start as int, k as int),
        decreases s@.len() - k,
    {
        if s[k] == 44 {
            let field = trim_window(s, start, k);
            out.push(field);
            proof {
                fields = fields + seq![s@.subrange(start as int, k as int)];
                assert(split_from(s@, start as int, k as int) == seq![
                    s@.subrange(start as int, k as int),
                ] + split_from(s@, k + 1, k + 1));
                assert(fields + split_from(s@, k + 1, k + 1) =~= split_commas(s@));
            }
            start = k + 1;
        }
        k += 1;
    }
    let field = trim_window(s, start, k);
    out.push(field);
    proof {
        assert(split_from(s@, start as int, k as int) == seq![
            s@.subrange(start as int, k as int),
        ]);
        fields = fields + seq![s@.subrange(start as int, k as int)];
        assert(fields =~= split_commas(s@));
        assert(normalized_ignore(s@).len() == fields.len());
    }
    out
}

} // verus!
