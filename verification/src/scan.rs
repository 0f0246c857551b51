//! Delimiter scanning: finding a byte pattern in a buffer, splitting a buffer
//! at its occurrences, and trimming ASCII whitespace.
use vstd::prelude::*;
use vstd::slice::slice_subrange;

verus! {

/// `pat` is not empty and occurs in `s` at offset `i`.
pub open spec fn matches_at(s: Seq<u8>, pat: Seq<u8>, i: int) -> bool {
    &&& pat.len() > 0
    &&& 0 <= i
    &&& i + pat.len() <= s.len()
    &&& s.subrange(i, i + pat.len()) == pat
}

/// `pat` occurs nowhere in `s`.
pub open spec fn free_of(s: Seq<u8>, pat: Seq<u8>) -> bool {
    forall|i: int| !matches_at(s, pat, i)
}

/// `i` is the offset of the leftmost occurrence of `pat` in `s`.
pub open spec fn is_first_match(s: Seq<u8>, pat: Seq<u8>, i: int) -> bool {
    &&& matches_at(s, pat, i)
    &&& forall|j: int| j < i ==> !matches_at(s, pat, j)
}

/// The offset of the leftmost occurrence of `pat` in `s` at or after `from`.
pub open spec fn first_match_from(s: Seq<u8>, pat: Seq<u8>, from: int) -> Option<int>
    decreases s.len() - from,
{
    if from < 0 || pat.len() == 0 || from + pat.len() > s.len() {
        None
    } else if matches_at(s, pat, from) {
        Some(from)
    } else {
        first_match_from(s, pat, from + 1)
    }
}

/// The offset of the leftmost occurrence of `pat` in `s`, if there is one.
/// An empty pattern occurs nowhere.
pub open spec fn first_match(s: Seq<u8>, pat: Seq<u8>) -> Option<int> {
    first_match_from(s, pat, 0)
}

/// `first_match_from` returns the least matching offset from `from` on, and
/// `None` only where there is no such offset.
pub proof fn lemma_first_match_from(s: Seq<u8>, pat: Seq<u8>, from: int)
    requires
        0 <= from,
    ensures
        match first_match_from(s, pat, from) {
            Some(i) => from <= i && matches_at(s, pat, i) && forall|j: int|
                from <= j < i ==> !matches_at(s, pat, j),
            None => forall|j: int| from <= j ==> !matches_at(s, pat, j),
        },
    decreases s.len() - from,
{
    if pat.len() == 0 || from + pat.len() > s.len() {
    } else if matches_at(s, pat, from) {
    } else {
        lemma_first_match_from(s, pat, from + 1);
    }
}

/// `first_match` is `Some(i)` exactly for the leftmost occurrence, and `None`
/// exactly where `pat` does not occur.
pub proof fn lemma_first_match(s: Seq<u8>, pat: Seq<u8>)
    ensures
        match first_match(s, pat) {
            Some(i) => is_first_match(s, pat, i),
            None => free_of(s, pat),
        },
{
    lemma_first_match_from(s, pat, 0);
}

/// An offset that `is_first_match` accepts is the one that `first_match` gives.
pub proof fn lemma_first_match_unique(s: Seq<u8>, pat: Seq<u8>, i: int)
    requires
        is_first_match(s, pat, i),
    ensures
        first_match(s, pat) == Some(i),
{
    lemma_first_match(s, pat);
}

/// Whether `pat` occurs in `buf` at offset `i`.
pub fn occurs_at(buf: &[u8], pat: &[u8], i: usize) -> (b: bool)
    ensures
        b == matches_at(buf@, pat@, i as int),
{
    let m: usize = pat.len();
    if m == 0 || buf.len() < m || i > buf.len() - m {
        return false;
    }
    let mut k: usize = 0;
    while k < m
        invariant
            m == pat.len(),
            0 < m,
            i + m <= buf.len(),
            k <= m,
            forall|j: int| 0 <= j < k ==> buf@[i + j] == pat@[j],
        decreases m - k,
    {
        if buf[i + k] != pat[k] {
            proof {
                assert(buf@.subrange(i as int, i + m)[k as int] == buf@[i + k]);
            }
            return false;
        }
        k += 1;
    }
    proof {
        assert(buf@.subrange(i as int, i + m) =~= pat@);
    }
    true
}

/// Finds the leftmost occurrence of `pat` in `buf`.
pub fn find(buf: &[u8], pat: &[u8]) -> (r: Option<usize>)
    ensures
        match r {
            Some(i) => is_first_match(buf@, pat@, i as int),
            None => free_of(buf@, pat@),
        },
        first_match(buf@, pat@) == match r {
            Some(i) => Some(i as int),
            None => None,
        },
{
    let n: usize = buf.len();
    let m: usize = pat.len();
    proof {
        lemma_first_match(buf@, pat@);
    }
    if m == 0 || m > n {
        return None;
    }
    let last: usize = n - m;
    let mut i: usize = 0;
    while i <= last
        invariant
            n == buf.len(),
            m == pat.len(),
            0 < m <= n,
            last == n - m,
            i <= last + 1,
            first_match(buf@, pat@) == first_match_from(buf@, pat@, i as int),
        decreases last + 1 - i,
    {
        if occurs_at(buf, pat, i) {
            proof {
                lemma_first_match(buf@, pat@);
            }
            return Some(i);
        }
        i += 1;
    }
    proof {
        lemma_first_match(buf@, pat@);
    }
    None
}

/// The pieces of `s` between the occurrences of `pat`, found from left to
/// right, each search starting behind the last occurrence. A buffer without an
/// occurrence is one piece; an occurrence at the very end leaves an empty last
/// piece.
pub open spec fn split_spec(s: Seq<u8>, pat: Seq<u8>) -> Seq<Seq<u8>>
    decreases s.len(),
    via split_spec_decreases
{
    match first_match(s, pat) {
        None => seq![s],
        Some(i) => seq![s.subrange(0, i)] + split_spec(
            s.subrange(i + pat.len(), s.len() as int),
            pat,
        ),
    }
}

#[via_fn]
proof fn split_spec_decreases(s: Seq<u8>, pat: Seq<u8>) {
    lemma_first_match(s, pat);
}

/// As `split_spec`, but with at most `n` pieces: only the first `n - 1`
/// occurrences split, and the last piece keeps whatever follows them.
pub open spec fn split_n_spec(s: Seq<u8>, pat: Seq<u8>, n: nat) -> Seq<Seq<u8>>
    decreases n,
{
    if n == 0 {
        Seq::empty()
    } else if n == 1 {
        seq![s]
    } else {
        match first_match(s, pat) {
            None => seq![s],
            Some(i) => seq![s.subrange(0, i)] + split_n_spec(
                s.subrange(i + pat.len(), s.len() as int),
                pat,
                (n - 1) as nat,
            ),
        }
    }
}

/// The contents of a list of borrowed pieces.
pub open spec fn views(pieces: Seq<&[u8]>) -> Seq<Seq<u8>> {
    Seq::new(pieces.len(), |i: int| pieces[i]@)
}

/// Splits `buf` at the leftmost occurrence of `pat` into what stands before it
/// and what stands behind it. `None` where `pat` does not occur.
pub fn split_once<'a>(buf: &'a [u8], pat: &[u8]) -> (r: Option<(&'a [u8], &'a [u8])>)
    ensures
        match r {
            Some((head, tail)) => {
                &&& first_match(buf@, pat@) matches Some(i)
                &&& head@ == buf@.subrange(0, i)
                &&& tail@ == buf@.subrange(i + pat@.len(), buf@.len() as int)
            },
            None => first_match(buf@, pat@) is None,
        },
{
    match find(buf, pat) {
        None => None,
        Some(i) => {
            let m: usize = pat.len();
            let n: usize = buf.len();
            assert(matches_at(buf@, pat@, i as int));
            let head = slice_subrange(buf, 0, i);
            let tail = slice_subrange(buf, i + m, n);
            Some((head, tail))
        },
    }
}

/// Splits `buf` at the first `n - 1` occurrences of `pat`.
pub fn split_n<'a>(buf: &'a [u8], pat: &[u8], n: usize) -> (pieces: Vec<&'a [u8]>)
    ensures
        views(pieces@) == split_n_spec(buf@, pat@, n as nat),
{
    let mut pieces: Vec<&'a [u8]> = Vec::new();
    if n == 0 {
        assert(views(pieces@) =~= split_n_spec(buf@, pat@, n as nat));
        return pieces;
    }
    let mut rest: &'a [u8] = buf;
    let mut left: usize = n;
    assert(views(pieces@) + split_n_spec(rest@, pat@, left as nat) =~= split_n_spec(
        buf@,
        pat@,
        n as nat,
    ));
    while left > 1
        invariant
            1 <= left,
            views(pieces@) + split_n_spec(rest@, pat@, left as nat) == split_n_spec(
                buf@,
                pat@,
                n as nat,
            ),
        ensures
            split_n_spec(rest@, pat@, left as nat) == seq![rest@],
        decreases left,
    {
        match split_once(rest, pat) {
            None => {
                break ;
            },
            Some((head, tail)) => {
                proof {
                    let ghost before = views(pieces@);
                    assert(views(pieces@.push(head)) =~= before.push(head@));
                    assert(before.push(head@) + split_n_spec(tail@, pat@, (left - 1) as nat)
                        =~= before + split_n_spec(rest@, pat@, left as nat));
                }
                pieces.push(head);
                rest = tail;
                left -= 1;
            },
        }
    }
    proof {
        assert(views(pieces@.push(rest)) =~= views(pieces@) + seq![rest@]);
    }
    pieces.push(rest);
    pieces
}

/// Splits `buf` at every occurrence of `pat`.
pub fn split<'a>(buf: &'a [u8], pat: &[u8]) -> (pieces: Vec<&'a [u8]>)
    ensures
        views(pieces@) == split_spec(buf@, pat@),
{
    let mut pieces: Vec<&'a [u8]> = Vec::new();
    let mut rest: &'a [u8] = buf;
    assert(views(pieces@) + split_spec(rest@, pat@) =~= split_spec(buf@, pat@));
    loop
        invariant
            views(pieces@) + split_spec(rest@, pat@) == split_spec(buf@, pat@),
        ensures
            views(pieces@) + split_spec(rest@, pat@) == split_spec(buf@, pat@),
            split_spec(rest@, pat@) == seq![rest@],
        decreases rest@.len(),
    {
        match split_once(rest, pat) {
            None => {
                break ;
            },
            Some((head, tail)) => {
                proof {
                    lemma_first_match(rest@, pat@);
                    let ghost before = views(pieces@);
                    assert(views(pieces@.push(head)) =~= before.push(head@));
                    assert(before.push(head@) + split_spec(tail@, pat@) =~= before + split_spec(
                        rest@,
                        pat@,
                    ));
                }
                pieces.push(head);
                rest = tail;
            },
        }
    }
    proof {
        assert(views(pieces@.push(rest)) =~= views(pieces@) + seq![rest@]);
    }
    pieces.push(rest);
    pieces
}

/// Hands the pieces back where there are exactly `k` of them.
pub fn collect_exact<'a>(pieces: Vec<&'a [u8]>, k: usize) -> (r: Option<Vec<&'a [u8]>>)
    ensures
        r == if pieces@.len() == k {
            Some(pieces)
        } else {
            None
        },
{
    if pieces.len() == k {
        Some(pieces)
    } else {
        None
    }
}

/// Hands the pieces back where there are at least `k` of them.
pub fn collect_min<'a>(pieces: Vec<&'a [u8]>, k: usize) -> (r: Option<Vec<&'a [u8]>>)
    ensures
        r == if pieces@.len() >= k {
            Some(pieces)
        } else {
            None
        },
{
    if pieces.len() >= k {
        Some(pieces)
    } else {
        None
    }
}

/// ASCII whitespace: space, tab, line feed, form feed, carriage return.
pub open spec fn is_whitespace(b: u8) -> bool {
    b == 0x20 || b == 0x09 || b == 0x0a || b == 0x0c || b == 0x0d
}

/// `s` without its leading whitespace.
pub open spec fn trim_start_spec(s: Seq<u8>) -> Seq<u8>
    decreases s.len(),
{
    if s.len() > 0 && is_whitespace(s[0]) {
        trim_start_spec(s.subrange(1, s.len() as int))
    } else {
        s
    }
}

/// `s` without its trailing whitespace.
pub open spec fn trim_end_spec(s: Seq<u8>) -> Seq<u8>
    decreases s.len(),
{
    if s.len() > 0 && is_whitespace(s.last()) {
        trim_end_spec(s.drop_last())
    } else {
        s
    }
}

/// `s` without the whitespace at either end.
pub open spec fn trim_spec(s: Seq<u8>) -> Seq<u8> {
    trim_end_spec(trim_start_spec(s))
}

/// `s` has no whitespace at either end.
pub open spec fn is_trimmed(s: Seq<u8>) -> bool {
    s.len() == 0 || (!is_whitespace(s.first()) && !is_whitespace(s.last()))
}

/// Whether `b` is ASCII whitespace.
pub fn is_whitespace_byte(b: u8) -> (r: bool)
    ensures
        r == is_whitespace(b),
{
    b == 0x20 || b == 0x09 || b == 0x0a || b == 0x0c || b == 0x0d
}

/// The part of `buf` between its leading and its trailing whitespace.
pub fn trim<'a>(buf: &'a [u8]) -> (r: &'a [u8])
    ensures
        r@ == trim_spec(buf@),
{
    let n: usize = buf.len();
    let mut start: usize = 0;
    assert(buf@.subrange(0, n as int) =~= buf@);
    while start < n && is_whitespace_byte(buf[start])
        invariant
            n == buf.len(),
            start <= n,
            trim_start_spec(buf@) == trim_start_spec(buf@.subrange(start as int, n as int)),
        decreases n - start,
    {
        assert(buf@.subrange(start as int, n as int).subrange(1, n - start) =~= buf@.subrange(
            start + 1,
            n as int,
        ));
        start += 1;
    }
    let mut end: usize = n;
    while end > start && is_whitespace_byte(buf[end - 1])
        invariant
            n == buf.len(),
            start <= end <= n,
            trim_end_spec(buf@.subrange(start as int, n as int)) == trim_end_spec(
                buf@.subrange(start as int, end as int),
            ),
        decreases end - start,
    {
        assert(buf@.subrange(start as int, end as int).drop_last() =~= buf@.subrange(
            start as int,
            end - 1,
        ));
        end -= 1;
    }
    slice_subrange(buf, start, end)
}

} // verus!
