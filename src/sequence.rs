//! Character-level helpers shared by the index and the graph.
use vstd::prelude::*;

verus! {

/// The characters of `s`, one per element.
pub fn chars_of(s: &str) -> (r: Vec<char>)
    ensures
        r@ == s@,
{
    let mut r: Vec<char> = Vec::new();
    for c in it: s.chars()
        invariant
            r@ == it.seq().take(it.index() as int),
    {
        r.push(c);
    }
    r
}

/// The characters `v[start..start + len]`.
pub fn sub_chars(v: &Vec<char>, start: usize, len: usize) -> (r: Vec<char>)
    requires
        start + len <= v@.len(),
    ensures
        r@ == v@.subrange(start as int, start + len),
{
    let mut r: Vec<char> = Vec::new();
    let vl = v.len();
    for i in 0..len
        invariant
            start + len <= v@.len(),
            vl == v@.len(),
            r@ == v@.subrange(start as int, start + i),
    {
        r.push(v[start + i]);
        assert(r@ =~= v@.subrange(start as int, start + i + 1));
    }
    r
}

/// Number of positions below `n` where `a` and `b` differ.
pub open spec fn mismatches_upto(a: Seq<char>, b: Seq<char>, n: int) -> nat
    decreases n,
{
    if n <= 0 {
        0
    } else {
        mismatches_upto(a, b, n - 1) + if a[n - 1] != b[n - 1] {
            1nat
        } else {
            0nat
        }
    }
}

/// The shorter of two lengths.
pub open spec fn common_len(a: Seq<char>, b: Seq<char>) -> int {
    if a.len() <= b.len() {
        a.len() as int
    } else {
        b.len() as int
    }
}

/// Hamming distance over the positions both sequences have.
pub open spec fn hamming(a: Seq<char>, b: Seq<char>) -> nat {
    mismatches_upto(a, b, common_len(a, b))
}

/// The positions below `n` where `a` and `b` differ, ascending.
pub open spec fn diff_positions_upto(a: Seq<char>, b: Seq<char>, n: int) -> Seq<usize>
    decreases n,
{
    if n <= 0 {
        Seq::empty()
    } else if a[n - 1] != b[n - 1] {
        diff_positions_upto(a, b, n - 1).push((n - 1) as usize)
    } else {
        diff_positions_upto(a, b, n - 1)
    }
}

/// The positions where `a` and `b` differ, ascending.
pub open spec fn diff_positions(a: Seq<char>, b: Seq<char>) -> Seq<usize> {
    diff_positions_upto(a, b, common_len(a, b))
}

/// The characters of `b` at the given positions.
pub open spec fn chars_at(b: Seq<char>, ps: Seq<usize>) -> Seq<char> {
    ps.map_values(|p: usize| b[p as int])
}

/// There are as many differing positions as mismatches, and each is one.
pub proof fn lemma_diff_positions(a: Seq<char>, b: Seq<char>, n: int)
    requires
        0 <= n <= a.len(),
        n <= b.len(),
        n <= usize::MAX + 1,
    ensures
        diff_positions_upto(a, b, n).len() == mismatches_upto(a, b, n),
        mismatches_upto(a, b, n) <= n,
        forall|t: int|
            0 <= t < diff_positions_upto(a, b, n).len() ==> {
                let p = #[trigger] diff_positions_upto(a, b, n)[t];
                &&& p < n
                &&& a[p as int] != b[p as int]
            },
        forall|t: int, u: int|
            0 <= t < u < diff_positions_upto(a, b, n).len() ==> #[trigger] diff_positions_upto(
                a,
                b,
                n,
            )[t] < #[trigger] diff_positions_upto(a, b, n)[u],
        forall|p: int|
            0 <= p < n && a[p] != b[p] ==> #[trigger] diff_positions_upto(a, b, n).contains(p as usize),
    decreases n,
{
    if n > 0 {
        lemma_diff_positions(a, b, n - 1);
        let dp = diff_positions_upto(a, b, n);
        let dq = diff_positions_upto(a, b, n - 1);
        assert forall|p: int| 0 <= p < n && a[p] != b[p] implies #[trigger] dp.contains(p as usize) by {
            if p < n - 1 {
                assert(dq.contains(p as usize));
                let w = choose|x: int| 0 <= x < dq.len() && dq[x] == p as usize;
                assert(dp[w] == p as usize);
            } else {
                assert(dp[dp.len() - 1] == p as usize);
            }
        }
    }
}

/// `min(hamming(a, b), d + 1)`: counting stops once the distance exceeds `d`.
pub fn distance_capped(a: &Vec<char>, b: &Vec<char>, d: usize) -> (r: usize)
    ensures
        r == if hamming(a@, b@) <= d {
            hamming(a@, b@) as int
        } else {
            d + 1
        },
{
    let n = if a.len() <= b.len() {
        a.len()
    } else {
        b.len()
    };
    let mut differences: usize = 0;
    let mut i: usize = 0;
    while i < n
        invariant
            n == common_len(a@, b@),
            n <= a@.len(),
            n <= b@.len(),
            i <= n,
            differences == mismatches_upto(a@, b@, i as int),
            differences <= d,
            differences <= i,
        decreases n - i,
    {
        if a[i] != b[i] {
            differences = differences + 1;
        }
        i = i + 1;
        if differences > d {
            proof {
                lemma_mismatches_mono(a@, b@, i as int, n as int);
            }
            return differences;
        }
    }
    differences
}

/// Hamming distance never exceeds the compared length.
pub proof fn lemma_hamming_bound(a: Seq<char>, b: Seq<char>)
    ensures
        hamming(a, b) <= common_len(a, b),
{
    lemma_mismatches_bound(a, b, common_len(a, b));
}

/// A sequence is at distance zero from itself.
pub proof fn lemma_hamming_self(a: Seq<char>)
    ensures
        hamming(a, a) == 0,
{
    lemma_mismatches_self(a, a.len() as int);
}

proof fn lemma_mismatches_self(a: Seq<char>, n: int)
    ensures
        mismatches_upto(a, a, n) == 0,
    decreases n,
{
    if n > 0 {
        lemma_mismatches_self(a, n - 1);
    }
}

proof fn lemma_mismatches_bound(a: Seq<char>, b: Seq<char>, n: int)
    requires
        0 <= n,
    ensures
        mismatches_upto(a, b, n) <= n,
    decreases n,
{
    if n > 0 {
        lemma_mismatches_bound(a, b, n - 1);
    }
}

proof fn lemma_mismatches_mono(a: Seq<char>, b: Seq<char>, m: int, n: int)
    requires
        0 <= m <= n,
    ensures
        mismatches_upto(a, b, m) <= mismatches_upto(a, b, n),
    decreases n - m,
{
    if m < n {
        lemma_mismatches_mono(a, b, m, n - 1);
    }
}

/// The positions where `a` and `b` differ, ascending, and the characters of
/// `b` there.
pub fn differences(a: &Vec<char>, b: &Vec<char>) -> (r: (Vec<usize>, Vec<char>))
    ensures
        r.0@ == diff_positions(a@, b@),
        r.1@ == chars_at(b@, diff_positions(a@, b@)),
{
    let n = if a.len() <= b.len() {
        a.len()
    } else {
        b.len()
    };
    let mut positions: Vec<usize> = Vec::new();
    let mut letters: Vec<char> = Vec::new();
    let mut i: usize = 0;
    while i < n
        invariant
            n == common_len(a@, b@),
            n <= a@.len(),
            n <= b@.len(),
            i <= n,
            positions@ == diff_positions_upto(a@, b@, i as int),
            letters@ == chars_at(b@, positions@),
        decreases n - i,
    {
        if a[i] != b[i] {
            positions.push(i);
            letters.push(b[i]);
            assert(letters@ =~= chars_at(b@, positions@));
        }
        i = i + 1;
    }
    (positions, letters)
}

} // verus!
