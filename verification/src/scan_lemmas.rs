//! Facts about matching, splitting and trimming that the laws of the header
//! grammar rest on.
use crate::scan::{
    first_match, free_of, is_trimmed, is_whitespace, lemma_first_match,
    lemma_first_match_unique, matches_at, split_spec, trim_end_spec, trim_spec, trim_start_spec,
};
use vstd::prelude::*;

verus! {

/// An occurrence at `i` puts the pattern's bytes at `i`, `i + 1`, and so on.
pub proof fn lemma_match_bytes(s: Seq<u8>, pat: Seq<u8>, i: int)
    requires
        matches_at(s, pat, i),
    ensures
        forall|k: int| 0 <= k < pat.len() ==> s[i + k] == pat[k],
{
    assert forall|k: int| 0 <= k < pat.len() implies s[i + k] == pat[k] by {
        assert(s.subrange(i, i + pat.len())[k] == s[i + k]);
    }
}

/// Where the pattern's bytes stand at `i`, `i + 1`, and so on, it occurs at
/// `i`.
pub proof fn lemma_bytes_match(s: Seq<u8>, pat: Seq<u8>, i: int)
    requires
        pat.len() > 0,
        0 <= i,
        i + pat.len() <= s.len(),
        forall|k: int| 0 <= k < pat.len() ==> s[i + k] == pat[k],
    ensures
        matches_at(s, pat, i),
{
    assert(s.subrange(i, i + pat.len()) =~= pat);
}

/// An occurrence in a part of `s` is an occurrence in `s`.
pub proof fn lemma_match_in_part(s: Seq<u8>, from: int, to: int, pat: Seq<u8>, i: int)
    requires
        0 <= from <= to <= s.len(),
        matches_at(s.subrange(from, to), pat, i),
    ensures
        matches_at(s, pat, from + i),
{
    assert(s.subrange(from + i, from + i + pat.len()) =~= s.subrange(from, to).subrange(
        i,
        i + pat.len(),
    ));
}

/// An occurrence in `s` that lies within a part of `s` is an occurrence in
/// that part.
pub proof fn lemma_match_within_part(s: Seq<u8>, from: int, to: int, pat: Seq<u8>, i: int)
    requires
        0 <= from <= to <= s.len(),
        matches_at(s, pat, i),
        from <= i,
        i + pat.len() <= to,
    ensures
        matches_at(s.subrange(from, to), pat, i - from),
{
    assert(s.subrange(i, i + pat.len()) =~= s.subrange(from, to).subrange(
        i - from,
        i - from + pat.len(),
    ));
}

/// A part of a buffer without the pattern is without it too.
pub proof fn lemma_free_part(s: Seq<u8>, from: int, to: int, pat: Seq<u8>)
    requires
        0 <= from <= to <= s.len(),
        free_of(s, pat),
    ensures
        free_of(s.subrange(from, to), pat),
{
    assert forall|i: int| !matches_at(s.subrange(from, to), pat, i) by {
        if matches_at(s.subrange(from, to), pat, i) {
            lemma_match_in_part(s, from, to, pat, i);
        }
    }
}

/// No end of the pattern is also its start: an occurrence cannot overlap
/// another one.
pub open spec fn border_free(pat: Seq<u8>) -> bool {
    forall|k: int|
        0 < k < pat.len() ==> pat.subrange(k, pat.len() as int) != pat.subrange(
            0,
            pat.len() - k,
        )
}

/// The first occurrence in `a` is the first occurrence in `a` followed by
/// anything.
pub proof fn lemma_first_match_extends(a: Seq<u8>, rest: Seq<u8>, pat: Seq<u8>)
    requires
        first_match(a, pat) is Some,
    ensures
        first_match(a + rest, pat) == first_match(a, pat),
{
    lemma_first_match(a, pat);
    let i = first_match(a, pat).unwrap();
    let s = a + rest;
    assert(s.subrange(i, i + pat.len()) =~= a.subrange(i, i + pat.len()));
    assert forall|j: int| j < i implies !matches_at(s, pat, j) by {
        if matches_at(s, pat, j) {
            assert(s.subrange(j, j + pat.len()) =~= a.subrange(j, j + pat.len()));
            assert(matches_at(a, pat, j));
        }
    }
    lemma_first_match_unique(s, pat, i);
}

/// Behind a buffer without the pattern, the pattern itself is the first
/// occurrence, where it cannot overlap itself.
pub proof fn lemma_first_match_behind(a: Seq<u8>, rest: Seq<u8>, pat: Seq<u8>)
    requires
        pat.len() > 0,
        border_free(pat),
        free_of(a, pat),
    ensures
        first_match(a + pat + rest, pat) == Some(a.len() as int),
{
    let s = a + pat + rest;
    let m = pat.len() as int;
    let n = a.len() as int;
    assert(s.subrange(n, n + m) =~= pat);
    assert forall|j: int| j < n implies !matches_at(s, pat, j) by {
        if matches_at(s, pat, j) {
            if j + m <= n {
                assert(s.subrange(j, j + m) =~= a.subrange(j, j + m));
                assert(matches_at(a, pat, j));
            } else {
                let k = n - j;
                lemma_match_bytes(s, pat, j);
                assert(pat.subrange(k, m) =~= pat.subrange(0, m - k)) by {
                    assert forall|t: int| 0 <= t < m - k implies pat.subrange(k, m)[t]
                        == pat.subrange(0, m - k)[t] by {
                        assert(s[j + (k + t)] == pat[k + t]);
                        assert(s[n + t] == pat[t]);
                    }
                }
            }
        }
    }
    lemma_first_match_unique(s, pat, n);
}

/// Splitting at every occurrence gives at least one piece.
pub proof fn lemma_split_nonempty(s: Seq<u8>, pat: Seq<u8>)
    ensures
        split_spec(s, pat).len() >= 1,
{
}

/// A buffer without the pattern is one piece.
pub proof fn lemma_split_free(s: Seq<u8>, pat: Seq<u8>)
    requires
        free_of(s, pat),
    ensures
        split_spec(s, pat) == seq![s],
{
    lemma_first_match(s, pat);
}

/// Splitting two buffers joined by the pattern gives the pieces of the first
/// and then the pieces of the second, where the pattern cannot overlap itself.
pub proof fn lemma_split_concat(a: Seq<u8>, b: Seq<u8>, pat: Seq<u8>)
    requires
        pat.len() > 0,
        border_free(pat),
    ensures
        split_spec(a + pat + b, pat) == split_spec(a, pat) + split_spec(b, pat),
    decreases a.len(),
{
    let s = a + pat + b;
    let m = pat.len() as int;
    lemma_first_match(a, pat);
    match first_match(a, pat) {
        None => {
            lemma_first_match_behind(a, b, pat);
            let n = a.len() as int;
            assert(s.subrange(0, n) =~= a);
            assert(s.subrange(n + m, s.len() as int) =~= b);
        },
        Some(i) => {
            assert(a + pat + b =~= a + (pat + b));
            lemma_first_match_extends(a, pat + b, pat);
            let tail = a.subrange(i + m, a.len() as int);
            assert(s.subrange(0, i) =~= a.subrange(0, i));
            assert(s.subrange(i + m, s.len() as int) =~= tail + pat + b);
            lemma_split_concat(tail, b, pat);
            assert(seq![a.subrange(0, i)] + (split_spec(tail, pat) + split_spec(b, pat))
                =~= (seq![a.subrange(0, i)] + split_spec(tail, pat)) + split_spec(b, pat));
        },
    }
}

/// No piece of a split holds the pattern.
pub proof fn lemma_split_pieces_free(s: Seq<u8>, pat: Seq<u8>)
    ensures
        forall|k: int|
            0 <= k < split_spec(s, pat).len() ==> free_of(#[trigger] split_spec(s, pat)[k], pat),
    decreases s.len(),
{
    lemma_first_match(s, pat);
    match first_match(s, pat) {
        None => {},
        Some(i) => {
            let head = s.subrange(0, i);
            let tail = s.subrange(i + pat.len(), s.len() as int);
            lemma_split_pieces_free(tail, pat);
            assert forall|j: int| !matches_at(head, pat, j) by {
                if matches_at(head, pat, j) {
                    lemma_match_in_part(s, 0, i, pat, j);
                }
            }
            assert forall|k: int| 0 <= k < split_spec(s, pat).len() implies free_of(
                #[trigger] split_spec(s, pat)[k],
                pat,
            ) by {
                if k > 0 {
                    assert(split_spec(s, pat)[k] == split_spec(tail, pat)[k - 1]);
                }
            }
        },
    }
}

/// What a buffer is free of, the pieces of its split are free of.
pub proof fn lemma_split_pieces_inherit(s: Seq<u8>, pat: Seq<u8>, other: Seq<u8>)
    requires
        free_of(s, other),
    ensures
        forall|k: int|
            0 <= k < split_spec(s, pat).len() ==> free_of(
                #[trigger] split_spec(s, pat)[k],
                other,
            ),
    decreases s.len(),
{
    lemma_first_match(s, pat);
    match first_match(s, pat) {
        None => {},
        Some(i) => {
            let tail = s.subrange(i + pat.len(), s.len() as int);
            lemma_free_part(s, 0, i, other);
            lemma_free_part(s, i + pat.len(), s.len() as int, other);
            lemma_split_pieces_inherit(tail, pat, other);
            assert forall|k: int| 0 <= k < split_spec(s, pat).len() implies free_of(
                #[trigger] split_spec(s, pat)[k],
                other,
            ) by {
                if k > 0 {
                    assert(split_spec(s, pat)[k] == split_spec(tail, pat)[k - 1]);
                }
            }
        },
    }
}

/// A buffer that splits into three pieces is those pieces with the pattern
/// between them.
pub proof fn lemma_split_three(s: Seq<u8>, pat: Seq<u8>)
    requires
        split_spec(s, pat).len() == 3,
    ensures
        s == split_spec(s, pat)[0] + pat + split_spec(s, pat)[1] + pat + split_spec(s, pat)[2],
{
    lemma_first_match(s, pat);
    let m = pat.len() as int;
    let i = first_match(s, pat).unwrap();
    let s1 = s.subrange(i + m, s.len() as int);
    lemma_first_match(s1, pat);
    assert(split_spec(s, pat) == seq![s.subrange(0, i)] + split_spec(s1, pat));
    assert(split_spec(s1, pat).len() == 2);
    let j = first_match(s1, pat).unwrap();
    let s2 = s1.subrange(j + m, s1.len() as int);
    lemma_first_match(s2, pat);
    assert(split_spec(s1, pat) == seq![s1.subrange(0, j)] + split_spec(s2, pat));
    assert(split_spec(s2, pat).len() == 1);
    if let Some(k) = first_match(s2, pat) {
        lemma_split_nonempty(s2.subrange(k + m, s2.len() as int), pat);
    }
    assert(first_match(s2, pat) is None);
    assert(split_spec(s, pat)[1] == split_spec(s1, pat)[0]);
    assert(split_spec(s, pat)[2] == split_spec(s1, pat)[1]);
    assert(split_spec(s1, pat)[1] == split_spec(s2, pat)[0]);
    assert(s1 =~= s1.subrange(0, j) + s1.subrange(j, j + m) + s2);
    assert(s =~= s.subrange(0, i) + s.subrange(i, i + m) + s1);
    assert(s =~= s.subrange(0, i) + pat + s1.subrange(0, j) + pat + s2);
}

/// Trimming the start leaves the part behind the leading whitespace.
pub proof fn lemma_trim_start(s: Seq<u8>)
    ensures
        exists|k: int| 0 <= k <= s.len() && trim_start_spec(s) == s.subrange(k, s.len() as int),
        trim_start_spec(s).len() == 0 || !is_whitespace(trim_start_spec(s).first()),
    decreases s.len(),
{
    if s.len() > 0 && is_whitespace(s[0]) {
        let tail = s.subrange(1, s.len() as int);
        lemma_trim_start(tail);
        let k = choose|k: int|
            0 <= k <= tail.len() && trim_start_spec(tail) == tail.subrange(k, tail.len() as int);
        assert(tail.subrange(k, tail.len() as int) =~= s.subrange(k + 1, s.len() as int));
    } else {
        assert(s =~= s.subrange(0, s.len() as int));
    }
}

/// Trimming the end leaves the part before the trailing whitespace.
pub proof fn lemma_trim_end(s: Seq<u8>)
    ensures
        exists|k: int| 0 <= k <= s.len() && trim_end_spec(s) == s.subrange(0, k),
        trim_end_spec(s).len() == 0 || !is_whitespace(trim_end_spec(s).last()),
    decreases s.len(),
{
    if s.len() > 0 && is_whitespace(s.last()) {
        let front = s.drop_last();
        lemma_trim_end(front);
        let k = choose|k: int| 0 <= k <= front.len() && trim_end_spec(front) == front.subrange(0, k);
        assert(front.subrange(0, k) =~= s.subrange(0, k));
    } else {
        assert(s =~= s.subrange(0, s.len() as int));
    }
}

/// What trimming leaves is a part of the buffer with no whitespace at either
/// end.
pub proof fn lemma_trim(s: Seq<u8>)
    ensures
        exists|from: int, to: int|
            0 <= from <= to <= s.len() && trim_spec(s) == s.subrange(from, to),
        is_trimmed(trim_spec(s)),
{
    lemma_trim_start(s);
    let mid = trim_start_spec(s);
    let from = choose|k: int| 0 <= k <= s.len() && mid == s.subrange(k, s.len() as int);
    lemma_trim_end(mid);
    let k = choose|k: int| 0 <= k <= mid.len() && trim_end_spec(mid) == mid.subrange(0, k);
    assert(mid.subrange(0, k) =~= s.subrange(from, from + k));
    if k > 0 {
        assert(mid.subrange(0, k).first() == mid.first());
    }
}

/// Trimming changes nothing where there is no whitespace at either end.
pub proof fn lemma_trim_fixed(s: Seq<u8>)
    requires
        is_trimmed(s),
    ensures
        trim_spec(s) == s,
{
}

/// Whitespace in front does not change what trimming leaves.
pub proof fn lemma_trim_leading(b: u8, s: Seq<u8>)
    requires
        is_whitespace(b),
    ensures
        trim_spec(seq![b] + s) == trim_spec(s),
{
    let t = seq![b] + s;
    assert(t.subrange(1, t.len() as int) =~= s);
}

/// What a buffer is free of, its trimmed part is free of.
pub proof fn lemma_trim_inherits(s: Seq<u8>, pat: Seq<u8>)
    requires
        free_of(s, pat),
    ensures
        free_of(trim_spec(s), pat),
{
    lemma_trim(s);
    let (from, to) = choose|from: int, to: int|
        0 <= from <= to <= s.len() && trim_spec(s) == s.subrange(from, to);
    lemma_free_part(s, from, to, pat);
}

} // verus!
