//! Byte-string search and splitting.

use vstd::prelude::*;

verus! {

/// `pat` occurs in `s` starting at byte `i`.
pub open spec fn occurs_at(s: Seq<u8>, pat: Seq<u8>, i: int) -> bool {
    0 <= i && i + pat.len() <= s.len() && s.subrange(i, i + pat.len()) == pat
}

/// The first position at or after `k` where `pat` occurs in `s`, or -1.
pub open spec fn first_match_from(s: Seq<u8>, pat: Seq<u8>, k: int) -> int
    decreases s.len() + 1 - k,
{
    if k < 0 || k + pat.len() > s.len() {
        -1
    } else if occurs_at(s, pat, k) {
        k
    } else {
        first_match_from(s, pat, k + 1)
    }
}

/// `first_match_from` is the least occurrence at or after `k`.
pub proof fn lemma_first_match_from(s: Seq<u8>, pat: Seq<u8>, k: int)
    requires
        0 <= k,
    ensures
        first_match_from(s, pat, k) == -1 ==> forall|j: int| k <= j ==> !occurs_at(s, pat, j),
        first_match_from(s, pat, k) != -1 ==> {
            let r = first_match_from(s, pat, k);
            &&& k <= r
            &&& occurs_at(s, pat, r)
            &&& forall|j: int| k <= j < r ==> !occurs_at(s, pat, j)
        },
    decreases s.len() + 1 - k,
{
    if k + pat.len() > s.len() {
    } else if occurs_at(s, pat, k) {
    } else {
        lemma_first_match_from(s, pat, k + 1);
        assert forall|j: int| k <= j && !(k + 1 <= j) implies !occurs_at(s, pat, j) by {
            assert(j == k);
        }
    }
}

/// Searches `s` for the first occurrence of `pat` at or after byte `from`.
pub fn find_from(s: &Vec<u8>, pat: &Vec<u8>, from: usize) -> (r: Option<usize>)
    ensures
        match r {
            Some(i) => i as int == first_match_from(s@, pat@, from as int),
            None => first_match_from(s@, pat@, from as int) == -1,
        },
        match r {
            Some(i) => from <= i && occurs_at(s@, pat@, i as int) && forall|j: int|
                from <= j < i ==> !occurs_at(s@, pat@, j),
            None => forall|j: int| from <= j ==> !occurs_at(s@, pat@, j),
        },
{
    proof {
        lemma_first_match_from(s@, pat@, from as int);
    }
    let n = s.len();
    let m = pat.len();
    if m > n {
        proof {
            assert(first_match_from(s@, pat@, from as int) == -1);
        }
        return None;
    }
    let mut k: usize = from;
    while k <= n - m
        invariant
            n == s@.len(),
            m == pat@.len(),
            m <= n,
            from <= k,
            first_match_from(s@, pat@, k as int) == first_match_from(s@, pat@, from as int),
        decreases n - k,
    {
        let mut t: usize = 0;
        let mut same = true;
        while t < m
            invariant
                n == s@.len(),
                m == pat@.len(),
                k + m <= n,
                t <= m,
                same == (forall|u: int| 0 <= u < t ==> s@[k + u] == #[trigger] pat@[u]),
            decreases m - t,
        {
            if s[k + t] != pat[t] {
                same = false;
            }
            t = t + 1;
        }
        if same {
            assert(s@.subrange(k as int, k + m) =~= pat@);
            assert(occurs_at(s@, pat@, k as int));
            assert(first_match_from(s@, pat@, k as int) == k);
            proof {
                lemma_first_match_from(s@, pat@, from as int);
            }
            return Some(k);
        }
        proof {
            if occurs_at(s@, pat@, k as int) {
                assert forall|u: int| 0 <= u < m implies s@[k + u] == #[trigger] pat@[u] by {
                    assert(s@.subrange(k as int, k + m)[u] == s@[k + u]);
                }
            }
        }
        k = k + 1;
    }
    proof {
        lemma_first_match_from(s@, pat@, k as int);
    }
    None
}

/// Searches `s` for the first occurrence of `pat`, like `str::find`.
pub fn find_first(s: &Vec<u8>, pat: &Vec<u8>) -> (r: Option<usize>)
    ensures
        match r {
            Some(i) => occurs_at(s@, pat@, i as int) && forall|j: int|
                0 <= j < i ==> !occurs_at(s@, pat@, j),
            None => forall|j: int| !occurs_at(s@, pat@, j),
        },
        match r {
            Some(i) => i as int == first_match_from(s@, pat@, 0),
            None => first_match_from(s@, pat@, 0) == -1,
        },
{
    find_from(s, pat, 0)
}

/// The pieces of `s[start..]` between successive non-overlapping
/// occurrences of `sep`, found from left to right.
pub open spec fn split_from(s: Seq<u8>, sep: Seq<u8>, start: int) -> Seq<Seq<u8>>
    decreases s.len() + 1 - start,
{
    let i = first_match_from(s, sep, start);
    if sep.len() == 0 || start < 0 || start > s.len() || i < 0 {
        seq![s.subrange(start, s.len() as int)]
    } else {
        proof {
            lemma_first_match_from(s, sep, start);
        }
        seq![s.subrange(start, i)] + split_from(s, sep, i + sep.len())
    }
}

/// The pieces of `s` between successive occurrences of `sep`, as
/// `str::split` yields them.
pub open spec fn split_spec(s: Seq<u8>, sep: Seq<u8>) -> Seq<Seq<u8>> {
    split_from(s, sep, 0)
}

/// The pieces laid end to end with `sep` between neighbours.
pub open spec fn join_spec(pieces: Seq<Seq<u8>>, sep: Seq<u8>) -> Seq<u8>
    decreases pieces.len(),
{
    if pieces.len() == 0 {
        Seq::empty()
    } else if pieces.len() == 1 {
        pieces[0]
    } else {
        pieces[0] + sep + join_spec(pieces.drop_first(), sep)
    }
}

/// `sep` occurs nowhere in `s`.
pub open spec fn free_of(s: Seq<u8>, sep: Seq<u8>) -> bool {
    forall|j: int| !occurs_at(s, sep, j)
}

proof fn lemma_split_from(s: Seq<u8>, sep: Seq<u8>, start: int)
    requires
        sep.len() > 0,
        0 <= start <= s.len(),
    ensures
        join_spec(split_from(s, sep, start), sep) == s.subrange(start, s.len() as int),
        split_from(s, sep, start).len() >= 1,
        forall|k: int|
            0 <= k < split_from(s, sep, start).len() ==> free_of(
                #[trigger] split_from(s, sep, start)[k],
                sep,
            ),
    decreases s.len() + 1 - start,
{
    lemma_first_match_from(s, sep, start);
    let i = first_match_from(s, sep, start);
    let pieces = split_from(s, sep, start);
    if i < 0 {
        let p = s.subrange(start, s.len() as int);
        assert(pieces =~= seq![p]);
        assert forall|j: int| !occurs_at(p, sep, j) by {
            if occurs_at(p, sep, j) {
                assert(s.subrange(start + j, start + j + sep.len()) =~= p.subrange(j, j + sep.len()));
                assert(occurs_at(s, sep, start + j));
            }
        }
    } else {
        let p = s.subrange(start, i);
        let rest = split_from(s, sep, i + sep.len());
        lemma_split_from(s, sep, i + sep.len());
        assert(pieces =~= seq![p] + rest);
        assert(pieces.drop_first() =~= rest);
        assert(s.subrange(i, i + sep.len()) == sep);
        assert(s.subrange(start, s.len() as int) =~= p + sep + s.subrange(
            i + sep.len(),
            s.len() as int,
        ));
        assert forall|j: int| !occurs_at(p, sep, j) by {
            if occurs_at(p, sep, j) {
                assert(s.subrange(start + j, start + j + sep.len()) =~= p.subrange(j, j + sep.len()));
                assert(occurs_at(s, sep, start + j));
            }
        }
        assert forall|k: int| 0 <= k < pieces.len() implies free_of(#[trigger] pieces[k], sep) by {
            if k > 0 {
                assert(pieces[k] == rest[k - 1]);
            }
        }
    }
}

/// Splitting and joining again with the same separator gives back the
/// original bytes, and no piece contains the separator.
pub proof fn lemma_split_join(s: Seq<u8>, sep: Seq<u8>)
    requires
        sep.len() > 0,
    ensures
        join_spec(split_spec(s, sep), sep) == s,
        split_spec(s, sep).len() >= 1,
        forall|k: int|
            0 <= k < split_spec(s, sep).len() ==> free_of(#[trigger] split_spec(s, sep)[k], sep),
{
    lemma_split_from(s, sep, 0);
    assert(s.subrange(0, s.len() as int) =~= s);
}

/// An occurrence inside a prefix is an occurrence in the prefix itself.
pub proof fn lemma_occurs_in_prefix(a: Seq<u8>, b: Seq<u8>, pat: Seq<u8>, j: int)
    requires
        occurs_at(a + b, pat, j),
        j + pat.len() <= a.len(),
    ensures
        occurs_at(a, pat, j),
{
    assert((a + b).subrange(j, j + pat.len()) =~= a.subrange(j, j + pat.len()));
}

/// The byte of an occurrence at a covered position is the pattern's byte.
pub proof fn lemma_occurs_byte(s: Seq<u8>, pat: Seq<u8>, j: int, q: int)
    requires
        occurs_at(s, pat, j),
        j <= q < j + pat.len(),
    ensures
        s[q] == pat[q - j],
{
    assert(s.subrange(j, j + pat.len())[q - j] == s[q]);
}

proof fn lemma_first_match_shift(s: Seq<u8>, pat: Seq<u8>, start: int, k: int)
    requires
        0 <= start <= s.len(),
        0 <= k,
    ensures
        ({
            let r = first_match_from(s.subrange(start, s.len() as int), pat, k);
            first_match_from(s, pat, start + k) == if r < 0 {
                -1
            } else {
                r + start
            }
        }),
    decreases s.len() + 1 - (start + k),
{
    let t = s.subrange(start, s.len() as int);
    if start + k + pat.len() > s.len() {
    } else {
        assert(s.subrange(start + k, start + k + pat.len()) =~= t.subrange(k, k + pat.len()));
        if !occurs_at(s, pat, start + k) {
            lemma_first_match_shift(s, pat, start, k + 1);
        }
    }
}

proof fn lemma_split_from_shift(s: Seq<u8>, sep: Seq<u8>, start: int)
    requires
        sep.len() > 0,
        0 <= start <= s.len(),
    ensures
        split_from(s, sep, start) == split_spec(s.subrange(start, s.len() as int), sep),
    decreases s.len() + 1 - start,
{
    let t = s.subrange(start, s.len() as int);
    lemma_first_match_shift(s, sep, start, 0);
    lemma_first_match_from(s, sep, start);
    let i = first_match_from(s, sep, start);
    let r = first_match_from(t, sep, 0);
    if i < 0 {
        assert(t.subrange(0, t.len() as int) =~= t);
    } else {
        assert(r == i - start);
        assert(t.subrange(0, r) =~= s.subrange(start, i));
        lemma_split_from_shift(s, sep, i + sep.len());
        lemma_split_from_shift(t, sep, r + sep.len());
        assert(t.subrange(r + sep.len(), t.len() as int) =~= s.subrange(
            i + sep.len(),
            s.len() as int,
        ));
    }
}

/// When `p` holds no separator and none straddles its end, splitting
/// `p + sep + rest` yields `p` followed by the pieces of `rest`.
pub proof fn lemma_split_prefix(p: Seq<u8>, sep: Seq<u8>, rest: Seq<u8>)
    requires
        sep.len() > 0,
        forall|j: int| 0 <= j < p.len() ==> !occurs_at(p + sep + rest, sep, j),
    ensures
        split_spec(p + sep + rest, sep) == seq![p] + split_spec(rest, sep),
{
    let s = p + sep + rest;
    assert(s.subrange(p.len() as int, (p.len() + sep.len()) as int) =~= sep);
    assert(occurs_at(s, sep, p.len() as int));
    lemma_first_match_from(s, sep, 0);
    let i = first_match_from(s, sep, 0);
    assert(i == p.len());
    assert(s.subrange(0, i) =~= p);
    lemma_split_from_shift(s, sep, i + sep.len());
    assert(s.subrange(i + sep.len(), s.len() as int) =~= rest);
}

/// Bytes free of the separator split into themselves alone.
pub proof fn lemma_split_free(s: Seq<u8>, sep: Seq<u8>)
    requires
        sep.len() > 0,
        free_of(s, sep),
    ensures
        split_spec(s, sep) == seq![s],
{
    lemma_first_match_from(s, sep, 0);
    assert(s.subrange(0, s.len() as int) =~= s);
}

/// Copies `s[from..to]`.
pub fn copy_range(s: &Vec<u8>, from: usize, to: usize) -> (r: Vec<u8>)
    requires
        from <= to <= s@.len(),
    ensures
        r@ == s@.subrange(from as int, to as int),
{
    let mut r: Vec<u8> = Vec::new();
    let mut k: usize = from;
    while k < to
        invariant
            from <= k <= to <= s@.len(),
            r@ == s@.subrange(from as int, k as int),
        decreases to - k,
    {
        r.push(s[k]);
        k = k + 1;
        assert(r@ =~= s@.subrange(from as int, k as int));
    }
    r
}

/// The byte strings held by a vector of byte vectors.
pub open spec fn views(v: Seq<Vec<u8>>) -> Seq<Seq<u8>> {
    v.map_values(|p: Vec<u8>| p@)
}

/// Splits `s` at every occurrence of the non-empty `sep`, like `str::split`.
pub fn split_bytes(s: &Vec<u8>, sep: &Vec<u8>) -> (pieces: Vec<Vec<u8>>)
    requires
        sep@.len() > 0,
    ensures
        views(pieces@) == split_spec(s@, sep@),
{
    let mut pieces: Vec<Vec<u8>> = Vec::new();
    let mut start: usize = 0;
    loop
        invariant
            sep@.len() > 0,
            start <= s@.len(),
            views(pieces@) + split_from(s@, sep@, start as int) == split_spec(s@, sep@),
        decreases s@.len() + 1 - start,
    {
        let found = find_from(s, sep, start);
        match found {
            None => {
                let last = copy_range(s, start, s.len());
                let ghost before = views(pieces@);
                pieces.push(last);
                assert(views(pieces@) =~= before + split_from(s@, sep@, start as int));
                return pieces;
            },
            Some(i) => {
                let piece = copy_range(s, start, i);
                let ghost before = views(pieces@);
                pieces.push(piece);
                let ghost rest = split_from(s@, sep@, (i + sep.len()) as int);
                assert(split_from(s@, sep@, start as int) =~= seq![s@.subrange(start as int, i as int)] + rest);
                assert(views(pieces@) =~= before.push(s@.subrange(start as int, i as int)));
                assert(views(pieces@) + rest =~= before + split_from(s@, sep@, start as int));
                let l = sep.len();
                let n = s.len();
                assert(occurs_at(s@, sep@, i as int));
                assert(i + l <= n);
                start = i + l;
            },
        }
    }
}

} // verus!
