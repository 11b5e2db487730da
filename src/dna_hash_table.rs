//! Exact-match index over the fixed-length windows of the reference segments.
use crate::sequence::chars_of;
use vstd::prelude::*;

verus! {

/// `4^i`.
pub open spec fn pow4(i: nat) -> nat
    decreases i,
{
    if i == 0 {
        1
    } else {
        4 * pow4((i - 1) as nat)
    }
}

/// The base-4 digit of a nucleotide; anything else counts as `A`.
pub open spec fn base_digit(c: char) -> nat {
    if c == 'C' {
        1
    } else if c == 'G' {
        2
    } else if c == 'T' {
        3
    } else {
        0
    }
}

/// The first `j` characters of `w` read as base-4 digits, least significant first.
pub open spec fn prefix_value(w: Seq<char>, j: nat) -> nat
    decreases j,
{
    if j == 0 {
        0
    } else {
        prefix_value(w, (j - 1) as nat) + base_digit(w[j - 1]) * pow4((j - 1) as nat)
    }
}

/// The bucket of a window: its hashed prefix modulo the table size.
pub open spec fn hash_spec(w: Seq<char>, j: nat, size: nat) -> nat {
    prefix_value(w, j) % size
}

/// `floor(log4(v))` for `v >= 1`.
pub open spec fn log4_floor(v: nat) -> nat
    decreases v,
{
    if v < 4 {
        0
    } else {
        1 + log4_floor(v / 4)
    }
}

/// The longest prefix whose value always fits in a `usize`.
pub open spec fn max_prefix_len() -> nat {
    log4_floor(usize::MAX as nat)
}

pub open spec fn is_prime(n: int) -> bool {
    n >= 2 && forall|d: int| 2 <= d < n ==> #[trigger] (n % d) != 0
}

/// The least prime that is at least `n`.
pub open spec fn is_least_prime_at_least(p: int, n: int) -> bool {
    &&& is_prime(p)
    &&& n <= p
    &&& forall|m: int| n <= m < p ==> !#[trigger] is_prime(m)
}

/// Number of windows of length `k` in a segment of length `len`.
pub open spec fn n_windows(len: nat, k: nat) -> nat {
    if len >= k {
        (len - k + 1) as nat
    } else {
        0
    }
}

/// Number of windows of length `k` over all segments.
pub open spec fn total_windows(segs: Seq<Seq<char>>, k: nat) -> nat
    decreases segs.len(),
{
    if segs.len() == 0 {
        0
    } else {
        total_windows(segs.drop_last(), k) + n_windows(segs.last().len(), k)
    }
}

/// `ceil(1.3 * n)`.
pub open spec fn size_target(n: nat) -> nat {
    (13 * n + 9) / 10
}

/// Every segment holds at least one window of length `k`, and the window
/// count leaves room for the table arithmetic.
pub open spec fn indexable(segs: Seq<Seq<char>>, k: nat) -> bool {
    &&& k >= 1
    &&& forall|s: int| 0 <= s < segs.len() ==> k <= #[trigger] segs[s].len()
    &&& total_windows(segs, k) <= usize::MAX / 16
}

pub open spec fn seg_views(v: Seq<String>) -> Seq<Seq<char>> {
    v.map_values(|s: String| s@)
}

pub proof fn lemma_pow4_monotone(a: nat, b: nat)
    requires
        a <= b,
    ensures
        pow4(a) <= pow4(b),
    decreases b,
{
    if a < b {
        lemma_pow4_monotone(a, (b - 1) as nat);
    }
}

proof fn lemma_pow4_exceeds(i: nat)
    ensures
        i < pow4(i),
    decreases i,
{
    if i > 0 {
        lemma_pow4_exceeds((i - 1) as nat);
    }
}

proof fn lemma_prefix_value_bound(w: Seq<char>, j: nat)
    ensures
        prefix_value(w, j) < pow4(j),
    decreases j,
{
    if j > 0 {
        lemma_prefix_value_bound(w, (j - 1) as nat);
    }
}

proof fn lemma_log4_floor(v: nat)
    requires
        v >= 1,
    ensures
        pow4(log4_floor(v)) <= v < pow4(log4_floor(v) + 1),
    decreases v,
{
    if v >= 4 {
        lemma_log4_floor(v / 4);
    }
}

/// Only the first `j` characters decide the bucket: windows that agree there
/// share a bucket whatever follows.
pub proof fn lemma_hash_depends_on_prefix_only(w1: Seq<char>, w2: Seq<char>, j: nat, size: nat)
    requires
        j <= w1.len(),
        j <= w2.len(),
        w1.take(j as int) == w2.take(j as int),
    ensures
        prefix_value(w1, j) == prefix_value(w2, j),
        hash_spec(w1, j, size) == hash_spec(w2, j, size),
    decreases j,
{
    if j > 0 {
        assert(w1[j - 1] == w1.take(j as int)[j - 1]);
        assert(w2[j - 1] == w2.take(j as int)[j - 1]);
        assert(w1.take(j - 1) == w1.take(j as int).take(j - 1));
        assert(w2.take(j - 1) == w2.take(j as int).take(j - 1));
        lemma_hash_depends_on_prefix_only(w1, w2, (j - 1) as nat, size);
    }
}

/// Relies on primes::PrimeSet::find, which returns the least prime that is
/// at least its argument. By Bertrand's postulate that prime is below `2 * n`,
/// so under the bound on `n` it fits in a `usize` and the search cannot overflow.
#[verifier::external_body]
fn least_prime_at_least(n: usize) -> (r: usize)
    requires
        n <= usize::MAX / 4,
    ensures
        is_least_prime_at_least(r as int, n as int),
{
    let mut pset = primes::PrimeSet::new();
    pset.find(n as u64).1 as usize
}


/// Where the windows of segment `s` start in creation-time order.
pub open spec fn seg_start(segs: Seq<Seq<char>>, k: nat, s: int) -> nat {
    total_windows(segs.take(s), k)
}

/// The windows of segment `s`, in position order.
pub open spec fn seg_loci(segs: Seq<Seq<char>>, k: nat, s: int) -> Seq<Kmer> {
    Seq::new(n_windows(segs[s].len(), k), |p: int| locus_at(segs, k, s, p))
}

/// The window of segment `s` at position `p`.
pub open spec fn locus_at(segs: Seq<Seq<char>>, k: nat, s: int, p: int) -> Kmer {
    Kmer {
        segment_index: s as usize,
        position: p as usize,
        creation_time: (seg_start(segs, k, s) + p) as usize,
    }
}

/// Every window of every segment, segment-major and position-minor: the
/// element at index `t` is the window created at time `t`.
pub open spec fn all_loci(segs: Seq<Seq<char>>, k: nat) -> Seq<Kmer>
    decreases segs.len(),
{
    if segs.len() == 0 {
        Seq::empty()
    } else {
        all_loci(segs.drop_last(), k) + seg_loci(segs, k, segs.len() - 1)
    }
}

/// The characters covered by a window.
pub open spec fn locus_window(segs: Seq<Seq<char>>, k: nat, m: Kmer) -> Seq<char> {
    segs[m.segment_index as int].subrange(m.position as int, m.position + k)
}

/// The loci of `loci` whose window hashes to bucket `b`, in their order.
pub open spec fn bucket_of(
    loci: Seq<Kmer>,
    segs: Seq<Seq<char>>,
    k: nat,
    j: nat,
    size: nat,
    b: nat,
) -> Seq<Kmer>
    decreases loci.len(),
{
    if loci.len() == 0 {
        Seq::empty()
    } else {
        let rest = bucket_of(loci.drop_last(), segs, k, j, size, b);
        if hash_spec(locus_window(segs, k, loci.last()), j, size) == b {
            rest.push(loci.last())
        } else {
            rest
        }
    }
}

/// A well-placed window: inside its segment, with its creation time.
pub open spec fn locus_ok(segs: Seq<Seq<char>>, k: nat, m: Kmer) -> bool {
    &&& m.segment_index < segs.len()
    &&& m.position + k <= segs[m.segment_index as int].len()
    &&& m.creation_time == seg_start(segs, k, m.segment_index as int) + m.position
}

pub proof fn lemma_seg_start_step(segs: Seq<Seq<char>>, k: nat, s: int)
    requires
        0 <= s < segs.len(),
    ensures
        seg_start(segs, k, s + 1) == seg_start(segs, k, s) + n_windows(segs[s].len(), k),
{
    assert(segs.take(s + 1).drop_last() == segs.take(s));
}

proof fn lemma_seg_start_mono(segs: Seq<Seq<char>>, k: nat, s: int, t: int)
    requires
        0 <= s <= t <= segs.len(),
    ensures
        seg_start(segs, k, s) <= seg_start(segs, k, t),
    decreases t - s,
{
    if s < t {
        lemma_seg_start_step(segs, k, t - 1);
        lemma_seg_start_mono(segs, k, s, t - 1);
    }
}

proof fn lemma_seg_start_bound(segs: Seq<Seq<char>>, k: nat, s: int)
    requires
        0 <= s <= segs.len(),
    ensures
        seg_start(segs, k, s) <= total_windows(segs, k),
{
    assert(segs.take(segs.len() as int) == segs);
    lemma_seg_start_mono(segs, k, s, segs.len() as int);
}

/// With at least one window per segment, there are at least as many windows as segments.
pub proof fn lemma_total_windows_covers_segments(segs: Seq<Seq<char>>, k: nat)
    requires
        forall|s: int| 0 <= s < segs.len() ==> k <= #[trigger] segs[s].len(),
    ensures
        segs.len() <= total_windows(segs, k),
    decreases segs.len(),
{
    if segs.len() > 0 {
        let d = segs.drop_last();
        assert forall|s: int| 0 <= s < d.len() implies k <= #[trigger] d[s].len() by {
            assert(d[s] == segs[s]);
        }
        lemma_total_windows_covers_segments(d, k);
        assert(k <= segs[segs.len() - 1].len());
    }
}

/// A window's creation time is below the window count.
pub proof fn lemma_window_time_bound(segs: Seq<Seq<char>>, k: nat, s: int, p: int)
    requires
        0 <= s < segs.len(),
        0 <= p,
        p + k <= segs[s].len(),
    ensures
        seg_start(segs, k, s) + p < seg_start(segs, k, s + 1) <= total_windows(segs, k),
{
    lemma_seg_start_step(segs, k, s);
    lemma_seg_start_bound(segs, k, s + 1);
}

proof fn lemma_seg_start_prefix(segs: Seq<Seq<char>>, k: nat, n: int, s: int)
    requires
        0 <= s <= n <= segs.len(),
    ensures
        seg_start(segs.take(n), k, s) == seg_start(segs, k, s),
{
    assert(segs.take(n).take(s) == segs.take(s));
}

/// The shape of `all_loci`: one locus per window, indexed by creation time.
pub proof fn lemma_all_loci(segs: Seq<Seq<char>>, k: nat)
    requires
        indexable(segs, k),
    ensures
        all_loci(segs, k).len() == total_windows(segs, k),
        forall|t: int|
            0 <= t < all_loci(segs, k).len() ==> {
                let m = #[trigger] all_loci(segs, k)[t];
                &&& locus_ok(segs, k, m)
                &&& m.creation_time == t
            },
        forall|s: int, p: int|
            0 <= s < segs.len() && 0 <= p && p + k <= segs[s].len() ==> #[trigger] all_loci(
                segs,
                k,
            )[seg_start(segs, k, s) + p] == locus_at(segs, k, s, p),
    decreases segs.len(),
{
    if segs.len() > 0 {
        let n = segs.len() - 1;
        let d = segs.drop_last();
        assert(d == segs.take(n));
        assert(total_windows(segs, k) == total_windows(d, k) + n_windows(segs[n].len(), k));
        assert forall|s: int| 0 <= s < d.len() implies k <= #[trigger] d[s].len() by {
            assert(d[s] == segs[s]);
        }
        lemma_all_loci(d, k);
        lemma_total_windows_covers_segments(segs, k);
        assert forall|s: int| 0 <= s <= n implies seg_start(d, k, s) == seg_start(segs, k, s) by {
            lemma_seg_start_prefix(segs, k, n, s);
        }
        assert(seg_start(segs, k, n) == total_windows(d, k));
        let a = all_loci(segs, k);
        assert forall|t: int| 0 <= t < a.len() implies {
            let m = #[trigger] a[t];
            &&& locus_ok(segs, k, m)
            &&& m.creation_time == t
        } by {
            if t < all_loci(d, k).len() {
                assert(a[t] == all_loci(d, k)[t]);
            }
        }
        assert forall|s: int, p: int| 0 <= s < segs.len() && 0 <= p && p + k <= segs[s].len() implies
            #[trigger] a[seg_start(segs, k, s) + p] == locus_at(segs, k, s, p) by {
            if s < n {
                assert(d[s] == segs[s]);
                lemma_seg_start_step(d, k, s);
                lemma_seg_start_bound(d, k, s + 1);
                assert(seg_start(d, k, s) + p < total_windows(d, k));
                assert(all_loci(d, k)[seg_start(d, k, s) + p] == locus_at(d, k, s, p));
                assert(a[seg_start(segs, k, s) + p] == all_loci(d, k)[seg_start(d, k, s) + p]);
            } else {
                assert(seg_start(segs, k, s) == total_windows(d, k));
                assert(seg_start(segs, k, s) + p < total_windows(segs, k));
                assert(a[seg_start(segs, k, s) + p] == seg_loci(segs, k, n)[p]);
            }
            assert(seg_start(segs, k, s) + p < total_windows(segs, k));
        }
    }
}

pub proof fn lemma_bucket_of_push(
    loci: Seq<Kmer>,
    m: Kmer,
    segs: Seq<Seq<char>>,
    k: nat,
    j: nat,
    size: nat,
    b: nat,
)
    ensures
        bucket_of(loci.push(m), segs, k, j, size, b) == if hash_spec(
            locus_window(segs, k, m),
            j,
            size,
        ) == b {
            bucket_of(loci, segs, k, j, size, b).push(m)
        } else {
            bucket_of(loci, segs, k, j, size, b)
        },
{
    assert(loci.push(m).drop_last() == loci);
}

/// Indices into `bucket` of the loci whose window is `q`, ascending.
pub open spec fn match_positions(bucket: Seq<Kmer>, segs: Seq<Seq<char>>, k: nat, q: Seq<char>) -> Seq<usize>
    decreases bucket.len(),
{
    if bucket.len() == 0 {
        Seq::empty()
    } else {
        let rest = match_positions(bucket.drop_last(), segs, k, q);
        if locus_window(segs, k, bucket.last()) == q {
            rest.push((bucket.len() - 1) as usize)
        } else {
            rest
        }
    }
}

/// The loci of `loci` whose window is `q`, in their order.
pub open spec fn occurrences(loci: Seq<Kmer>, segs: Seq<Seq<char>>, k: nat, q: Seq<char>) -> Seq<Kmer>
    decreases loci.len(),
{
    if loci.len() == 0 {
        Seq::empty()
    } else {
        let rest = occurrences(loci.drop_last(), segs, k, q);
        if locus_window(segs, k, loci.last()) == q {
            rest.push(loci.last())
        } else {
            rest
        }
    }
}

proof fn lemma_match_positions_push(bucket: Seq<Kmer>, m: Kmer, segs: Seq<Seq<char>>, k: nat, q: Seq<char>)
    ensures
        match_positions(bucket.push(m), segs, k, q) == if locus_window(segs, k, m) == q {
            match_positions(bucket, segs, k, q).push(bucket.len() as usize)
        } else {
            match_positions(bucket, segs, k, q)
        },
{
    assert(bucket.push(m).drop_last() == bucket);
}

/// What `match_positions` holds: ascending indices of exactly the matching loci.
pub proof fn lemma_match_positions(bucket: Seq<Kmer>, segs: Seq<Seq<char>>, k: nat, q: Seq<char>)
    requires
        bucket.len() <= usize::MAX,
    ensures
        match_positions(bucket, segs, k, q).len() <= bucket.len(),
        forall|t: int|
            0 <= t < match_positions(bucket, segs, k, q).len() ==> {
                let i = #[trigger] match_positions(bucket, segs, k, q)[t];
                &&& i < bucket.len()
                &&& locus_window(segs, k, bucket[i as int]) == q
            },
        forall|t: int, u: int|
            0 <= t < u < match_positions(bucket, segs, k, q).len() ==> #[trigger] match_positions(
                bucket,
                segs,
                k,
                q,
            )[t] < #[trigger] match_positions(bucket, segs, k, q)[u],
        forall|i: int|
            0 <= i < bucket.len() && locus_window(segs, k, #[trigger] bucket[i]) == q ==> match_positions(
                bucket,
                segs,
                k,
                q,
            ).contains(i as usize),
    decreases bucket.len(),
{
    if bucket.len() > 0 {
        let d = bucket.drop_last();
        lemma_match_positions(d, segs, k, q);
        let mp = match_positions(bucket, segs, k, q);
        let md = match_positions(d, segs, k, q);
        assert forall|i: int| 0 <= i < bucket.len() && locus_window(segs, k, #[trigger] bucket[i]) == q implies mp.contains(i as usize) by {
            if i < d.len() {
                assert(d[i] == bucket[i]);
                let w = choose|x: int| 0 <= x < md.len() && md[x] == i as usize;
                assert(mp[w] == i as usize);
            } else {
                assert(mp[mp.len() - 1] == i as usize);
            }
        }
    }
}

/// Every element of a bucket is one of the loci, placed by its hash.
pub proof fn lemma_bucket_of_elems(loci: Seq<Kmer>, segs: Seq<Seq<char>>, k: nat, j: nat, size: nat, b: nat)
    ensures
        bucket_of(loci, segs, k, j, size, b).len() <= loci.len(),
        forall|t: int|
            0 <= t < bucket_of(loci, segs, k, j, size, b).len() ==> {
                let m = #[trigger] bucket_of(loci, segs, k, j, size, b)[t];
                &&& loci.contains(m)
                &&& hash_spec(locus_window(segs, k, m), j, size) == b
            },
    decreases loci.len(),
{
    if loci.len() > 0 {
        let d = loci.drop_last();
        lemma_bucket_of_elems(d, segs, k, j, size, b);
        let bk = bucket_of(loci, segs, k, j, size, b);
        assert forall|t: int| 0 <= t < bk.len() implies {
            let m = #[trigger] bk[t];
            &&& loci.contains(m)
            &&& hash_spec(locus_window(segs, k, m), j, size) == b
        } by {
            if t < bucket_of(d, segs, k, j, size, b).len() {
                let m = bk[t];
                assert(m == bucket_of(d, segs, k, j, size, b)[t]);
                let u = choose|u: int| 0 <= u < d.len() && d[u] == m;
                assert(loci[u] == m);
            } else {
                assert(loci[loci.len() - 1] == bk[t]);
            }
        }
    }
}

proof fn lemma_occurrences_contains(loci: Seq<Kmer>, segs: Seq<Seq<char>>, k: nat, q: Seq<char>, u: int)
    requires
        0 <= u < loci.len(),
        locus_window(segs, k, loci[u]) == q,
    ensures
        occurrences(loci, segs, k, q).contains(loci[u]),
    decreases loci.len(),
{
    let d = loci.drop_last();
    if u < loci.len() - 1 {
        assert(d[u] == loci[u]);
        lemma_occurrences_contains(d, segs, k, q, u);
        let o = occurrences(d, segs, k, q);
        let w = choose|w: int| 0 <= w < o.len() && o[w] == loci[u];
        assert(occurrences(loci, segs, k, q)[w] == loci[u]);
    } else {
        let o = occurrences(loci, segs, k, q);
        assert(o[o.len() - 1] == loci[u]);
    }
}

/// Inside the bucket of `q`, the matches of `q` are exactly its occurrences
/// among all the loci, in the same order.
proof fn lemma_bucket_matches(loci: Seq<Kmer>, segs: Seq<Seq<char>>, k: nat, j: nat, size: nat, q: Seq<char>)
    requires
        loci.len() <= usize::MAX,
    ensures
        ({
            let bk = bucket_of(loci, segs, k, j, size, hash_spec(q, j, size));
            let mp = match_positions(bk, segs, k, q);
            &&& mp.len() == occurrences(loci, segs, k, q).len()
            &&& forall|t: int| 0 <= t < mp.len() ==> bk[#[trigger] mp[t] as int] == occurrences(loci, segs, k, q)[t]
        }),
    decreases loci.len(),
{
    let b = hash_spec(q, j, size);
    if loci.len() > 0 {
        let d = loci.drop_last();
        let m = loci.last();
        lemma_bucket_matches(d, segs, k, j, size, q);
        assert(loci == d.push(m));
        lemma_bucket_of_push(d, m, segs, k, j, size, b);
        lemma_bucket_of_elems(d, segs, k, j, size, b);
        let bd = bucket_of(d, segs, k, j, size, b);
        let bk = bucket_of(loci, segs, k, j, size, b);
        lemma_match_positions(bd, segs, k, q);
        lemma_match_positions_push(bd, m, segs, k, q);
        let mpd = match_positions(bd, segs, k, q);
        let mp = match_positions(bk, segs, k, q);
        assert forall|t: int| 0 <= t < mp.len() implies bk[#[trigger] mp[t] as int] == occurrences(loci, segs, k, q)[t] by {
            if t < mpd.len() {
                assert(mp[t] == mpd[t]);
                assert(bk[mp[t] as int] == bd[mpd[t] as int]);
            }
        }
    }
}

/// A window of a segment: where it starts and when it was indexed.
#[derive(Clone, Copy, Debug, PartialEq, Eq)]
pub struct Kmer {
    pub segment_index: usize,
    pub position: usize,
    pub creation_time: usize,
}

/// Exact-match index over the windows of length `k` of the segments.
pub struct DNAHashTable {
    /// One bucket per hash value; each lists its windows in creation order.
    pub hash_table: Vec<Vec<Kmer>>,
    /// The indexed segments.
    pub segments: Vec<Vec<char>>,
    /// The number of buckets, a prime.
    pub size: usize,
    /// The window length.
    pub k: usize,
    /// How many leading characters of a window are hashed.
    pub j: usize,
    /// The number of windows indexed.
    pub windows: usize,
}

impl DNAHashTable {
    /// The segments, as character sequences.
    pub open spec fn segs(&self) -> Seq<Seq<char>> {
        char_views(self.segments@)
    }

    /// The windows of the index, in creation-time order.
    pub open spec fn loci(&self) -> Seq<Kmer> {
        all_loci(self.segs(), self.k as nat)
    }

    /// What bucket `b` holds when the index is intact.
    pub open spec fn bucket_spec(&self, b: int) -> Seq<Kmer> {
        bucket_of(self.loci(), self.segs(), self.k as nat, self.j as nat, self.size as nat, b as nat)
    }

    /// The bucket of a window.
    pub open spec fn hash_of(&self, w: Seq<char>) -> nat {
        hash_spec(w, self.j as nat, self.size as nat)
    }

    /// The window of a locus.
    pub open spec fn window_of(&self, m: Kmer) -> Seq<char> {
        locus_window(self.segs(), self.k as nat, m)
    }

    /// The index holds every window of every segment exactly once, in the
    /// bucket of its hashed prefix, in creation-time order.
    pub open spec fn wf(&self) -> bool {
        &&& indexable(self.segs(), self.k as nat)
        &&& self.j == if self.k <= max_prefix_len() { self.k as nat } else { max_prefix_len() }
        &&& self.size == self.hash_table@.len()
        &&& self.windows == total_windows(self.segs(), self.k as nat)
        &&& is_least_prime_at_least(
            self.size as int,
            size_target(total_windows(self.segs(), self.k as nat)) as int,
        )
        &&& forall|b: int| 0 <= b < self.size ==> #[trigger] self.hash_table@[b]@ == self.bucket_spec(b)
    }

    /// Indexes every window of length `k` of `segments`.
    pub fn new(segments: &Vec<String>, k: usize) -> (r: DNAHashTable)
        requires
            indexable(seg_views(segments@), k as nat),
        ensures
            r.wf(),
            r.segs() == seg_views(segments@),
            r.k == k,
    {
        let segs = segments_chars(segments);
        DNAHashTable::from_chars(segs, k)
    }

    /// Indexes every window of length `k` of segments already split into characters.
    pub fn from_chars(segs: Vec<Vec<char>>, k: usize) -> (r: DNAHashTable)
        requires
            indexable(char_views(segs@), k as nat),
        ensures
            r.wf(),
            r.segs() == char_views(segs@),
            r.k == k,
    {
        let ghost sv = char_views(segs@);
        let j = DNAHashTable::get_max_j(k);
        let size = table_size(&segs, k);
        let windows = count_windows(&segs, k);
        let mut hash_table: Vec<Vec<Kmer>> = Vec::new();
        for b in 0..size
            invariant
                hash_table@.len() == b,
                forall|c: int| 0 <= c < b ==> (#[trigger] hash_table@[c])@.len() == 0,
        {
            hash_table.push(Vec::new());
        }
        proof {
            lemma_all_loci(sv, k as nat);
            assert(sv.take(0) == Seq::<Seq<char>>::empty());
            assert forall|c: int| 0 <= c < size implies #[trigger] hash_table@[c]@ == bucket_of(
                all_loci(sv.take(0), k as nat),
                sv,
                k as nat,
                j as nat,
                size as nat,
                c as nat,
            ) by {
                assert(hash_table@[c]@ == Seq::<Kmer>::empty());
            }
        }
        let mut creation_time: usize = 0;
        for s in 0..segs.len()
            invariant
                sv == char_views(segs@),
                indexable(sv, k as nat),
                j == if k <= max_prefix_len() { k as nat } else { max_prefix_len() },
                size > 0,
                hash_table@.len() == size,
                creation_time == seg_start(sv, k as nat, s as int),
                forall|c: int| 0 <= c < size ==> #[trigger] hash_table@[c]@ == bucket_of(
                    all_loci(sv.take(s as int), k as nat),
                    sv,
                    k as nat,
                    j as nat,
                    size as nat,
                    c as nat,
                ),
        {
            let ghost before = all_loci(sv.take(s as int), k as nat);
            proof {
                assert(k <= sv[s as int].len());
                lemma_seg_start_step(sv, k as nat, s as int);
                lemma_seg_start_bound(sv, k as nat, s + 1);
            }
            let n = segs[s].len() - k + 1;
            for p in 0..n
                invariant
                    sv == char_views(segs@),
                    indexable(sv, k as nat),
                    0 <= s < sv.len(),
                    n == n_windows(sv[s as int].len(), k as nat),
                    j == if k <= max_prefix_len() { k as nat } else { max_prefix_len() },
                    size > 0,
                    hash_table@.len() == size,
                    creation_time == seg_start(sv, k as nat, s as int) + p,
                    seg_start(sv, k as nat, s as int) + n <= total_windows(sv, k as nat),
                    before == all_loci(sv.take(s as int), k as nat),
                    forall|c: int| 0 <= c < size ==> #[trigger] hash_table@[c]@ == bucket_of(
                        before + seg_loci(sv, k as nat, s as int).take(p as int),
                        sv,
                        k as nat,
                        j as nat,
                        size as nat,
                        c as nat,
                    ),
            {
                let h = hash_window(&segs[s], p, k, j, size);
                let m = Kmer { segment_index: s, position: p, creation_time: creation_time };
                proof {
                    assert(segs@[s as int]@ == sv[s as int]);
                    assert(m == seg_loci(sv, k as nat, s as int)[p as int]);
                    assert(before + seg_loci(sv, k as nat, s as int).take(p + 1) == (before
                        + seg_loci(sv, k as nat, s as int).take(p as int)).push(m));
                    assert(locus_window(sv, k as nat, m) == segs@[s as int]@.subrange(
                        p as int,
                        p + k,
                    ));
                    assert forall|c: int| 0 <= c < size && c != h implies #[trigger] hash_table@[c]@
                        == bucket_of(
                        before + seg_loci(sv, k as nat, s as int).take(p + 1),
                        sv,
                        k as nat,
                        j as nat,
                        size as nat,
                        c as nat,
                    ) by {
                        lemma_bucket_of_push(
                            before + seg_loci(sv, k as nat, s as int).take(p as int),
                            m,
                            sv,
                            k as nat,
                            j as nat,
                            size as nat,
                            c as nat,
                        );
                    }
                    lemma_bucket_of_push(
                        before + seg_loci(sv, k as nat, s as int).take(p as int),
                        m,
                        sv,
                        k as nat,
                        j as nat,
                        size as nat,
                        h as nat,
                    );
                }
                hash_table[h].push(m);
                creation_time = creation_time + 1;
            }
            proof {
                let sl = seg_loci(sv, k as nat, s as int);
                assert(sl.take(n as int) == sl);
                assert(sv.take(s + 1).drop_last() == sv.take(s as int));
                lemma_seg_start_prefix(sv, k as nat, s + 1, s as int);
                assert(sv.take(s + 1)[s as int] == sv[s as int]);
                assert(seg_loci(sv.take(s + 1), k as nat, s as int) == sl);
                assert(all_loci(sv.take(s + 1), k as nat) == before + sl);
            }
        }
        assert(sv.take(segs@.len() as int) == sv);
        DNAHashTable { hash_table, segments: segs, size, k, j, windows }
    }

    /// Every window of the segments is found by looking itself up: within the
    /// bucket of `q`, the matching entries are exactly the windows equal to
    /// `q`, one per occurrence, in creation-time order. Entries of the bucket
    /// that only share the hash of `q` are never among them.
    pub proof fn lemma_lookup_finds_every_occurrence(&self, q: Seq<char>)
        requires
            self.wf(),
        ensures
            ({
                let bk = self.bucket_spec(self.hash_of(q) as int);
                let mp = match_positions(bk, self.segs(), self.k as nat, q);
                &&& mp.len() == occurrences(self.loci(), self.segs(), self.k as nat, q).len()
                &&& forall|t: int|
                    0 <= t < mp.len() ==> bk[#[trigger] mp[t] as int] == occurrences(
                        self.loci(),
                        self.segs(),
                        self.k as nat,
                        q,
                    )[t]
                &&& forall|t: int| 0 <= t < mp.len() ==> self.window_of(#[trigger] bk[mp[t] as int]) == q
            }),
    {
        lemma_all_loci(self.segs(), self.k as nat);
        lemma_bucket_matches(self.loci(), self.segs(), self.k as nat, self.j as nat, self.size as nat, q);
        let bk = self.bucket_spec(self.hash_of(q) as int);
        lemma_bucket_of_elems(self.loci(), self.segs(), self.k as nat, self.j as nat, self.size as nat, self.hash_of(q));
        lemma_match_positions(bk, self.segs(), self.k as nat, q);
    }

    /// The window of segment `s` at `p` is among the matches of its own lookup.
    pub proof fn lemma_window_found(&self, s: int, p: int) -> (u: int)
        requires
            self.wf(),
            0 <= s < self.segs().len(),
            0 <= p,
            p + self.k <= self.segs()[s].len(),
        ensures
            ({
                let q = self.segs()[s].subrange(p, p + self.k);
                let bk = self.bucket_spec(self.hash_of(q) as int);
                let mp = match_positions(bk, self.segs(), self.k as nat, q);
                &&& 0 <= u < mp.len()
                &&& bk[mp[u] as int] == locus_at(self.segs(), self.k as nat, s, p)
            }),
    {
        let q = self.segs()[s].subrange(p, p + self.k);
        lemma_all_loci(self.segs(), self.k as nat);
        let t = seg_start(self.segs(), self.k as nat, s) + p;
        lemma_window_time_bound(self.segs(), self.k as nat, s, p);
        lemma_total_windows_covers_segments(self.segs(), self.k as nat);
        assert(self.loci()[t] == locus_at(self.segs(), self.k as nat, s, p));
        assert(locus_at(self.segs(), self.k as nat, s, p).segment_index == s);
        assert(locus_at(self.segs(), self.k as nat, s, p).position == p);
        assert(locus_window(self.segs(), self.k as nat, self.loci()[t]) == q);
        lemma_occurrences_contains(self.loci(), self.segs(), self.k as nat, q, t);
        self.lemma_lookup_finds_every_occurrence(q);
        let o = occurrences(self.loci(), self.segs(), self.k as nat, q);
        let u = choose|u: int| 0 <= u < o.len() && o[u] == self.loci()[t];
        u
    }

    /// Facts about every entry of an intact table.
    pub proof fn lemma_entries(&self, b: int)
        requires
            self.wf(),
            0 <= b < self.size,
        ensures
            self.hash_table@[b]@.len() <= self.loci().len(),
            self.loci().len() == total_windows(self.segs(), self.k as nat),
            forall|t: int|
                0 <= t < self.hash_table@[b]@.len() ==> {
                    let m = #[trigger] self.hash_table@[b]@[t];
                    &&& locus_ok(self.segs(), self.k as nat, m)
                    &&& self.loci()[m.creation_time as int] == m
                    &&& self.hash_of(self.window_of(m)) == b
                },
    {
        lemma_all_loci(self.segs(), self.k as nat);
        lemma_bucket_of_elems(self.loci(), self.segs(), self.k as nat, self.j as nat, self.size as nat, b as nat);
        assert forall|t: int| 0 <= t < self.hash_table@[b]@.len() implies {
            let m = #[trigger] self.hash_table@[b]@[t];
            &&& locus_ok(self.segs(), self.k as nat, m)
            &&& self.loci()[m.creation_time as int] == m
            &&& self.hash_of(self.window_of(m)) == b
        } by {
            let m = self.hash_table@[b]@[t];
            assert(self.bucket_spec(b)[t] == m);
            let u = choose|u: int| 0 <= u < self.loci().len() && self.loci()[u] == m;
        }
    }

    /// Looks up a window given as characters: its bucket and the indices of
    /// the bucket's entries whose window is exactly `q`.
    pub fn lookup(&self, q: &Vec<char>) -> (r: Option<(&Vec<Kmer>, Vec<usize>)>)
        requires
            self.wf(),
        ensures
            match r {
                Some((b, idx)) => {
                    &&& q@.len() == self.k
                    &&& b@ == self.hash_table@[self.hash_of(q@) as int]@
                    &&& b@ == self.bucket_spec(self.hash_of(q@) as int)
                    &&& idx@ == match_positions(b@, self.segs(), self.k as nat, q@)
                    &&& idx@.len() > 0
                },
                None => q@.len() != self.k || match_positions(
                    self.bucket_spec(self.hash_of(q@) as int),
                    self.segs(),
                    self.k as nat,
                    q@,
                ).len() == 0,
            },
    {
        if q.len() != self.k {
            return None;
        }
        proof {
            lemma_all_loci(self.segs(), self.k as nat);
        }
        let h = hash_window(q, 0, self.k, self.j, self.size);
        assert(q@.subrange(0, q@.len() as int) == q@);
        let bucket: &Vec<Kmer> = &self.hash_table[h];
        proof {
            self.lemma_entries(h as int);
        }
        let mut idx: Vec<usize> = Vec::new();
        for i in 0..bucket.len()
            invariant
                self.wf(),
                q@.len() == self.k,
                h < self.size,
                bucket@ == self.hash_table@[h as int]@,
                forall|t: int|
                    0 <= t < bucket@.len() ==> locus_ok(self.segs(), self.k as nat, #[trigger] bucket@[t]),
                idx@ == match_positions(bucket@.take(i as int), self.segs(), self.k as nat, q@),
        {
            let m = bucket[i];
            assert(locus_ok(self.segs(), self.k as nat, bucket@[i as int]));
            assert(self.segments@[m.segment_index as int]@ == self.segs()[m.segment_index as int]);
            let hit = window_matches(&self.segments[m.segment_index], m.position, q);
            proof {
                assert(bucket@.take(i + 1) == bucket@.take(i as int).push(m));
                lemma_match_positions_push(bucket@.take(i as int), m, self.segs(), self.k as nat, q@);
            }
            if hit {
                idx.push(i);
            }
        }
        assert(bucket@.take(bucket@.len() as int) == bucket@);
        if idx.len() == 0 {
            None
        } else {
            Some((bucket, idx))
        }
    }

    /// Looks up a window: `None` when `kmer_string` has the wrong length or
    /// occurs nowhere; otherwise its bucket and the indices of the entries
    /// whose window is exactly `kmer_string`.
    pub fn get_kmer(&self, kmer_string: &str) -> (r: Option<(&Vec<Kmer>, Vec<usize>)>)
        requires
            self.wf(),
        ensures
            match r {
                Some((b, idx)) => {
                    &&& kmer_string@.len() == self.k
                    &&& b@ == self.hash_table@[self.hash_of(kmer_string@) as int]@
                    &&& idx@ == match_positions(b@, self.segs(), self.k as nat, kmer_string@)
                    &&& idx@.len() > 0
                },
                None => kmer_string@.len() != self.k || match_positions(
                    self.bucket_spec(self.hash_of(kmer_string@) as int),
                    self.segs(),
                    self.k as nat,
                    kmer_string@,
                ).len() == 0,
            },
    {
        let q = chars_of(kmer_string);
        self.lookup(&q)
    }

    /// The table size for windows of length `k` over `segments`: the least
    /// prime that is at least 1.3 times the window count.
    pub fn get_table_size(segments: &Vec<String>, k: usize) -> (r: usize)
        requires
            indexable(seg_views(segments@), k as nat),
        ensures
            is_least_prime_at_least(r as int, size_target(total_windows(seg_views(segments@), k as nat)) as int),
    {
        let segs = segments_chars(segments);
        table_size(&segs, k)
    }

    /// The prefix length that is hashed for windows of length `k`.
    pub fn get_max_j(k: usize) -> (r: usize)
        ensures
            r == if k <= max_prefix_len() { k as nat } else { max_prefix_len() },
    {
        let j = DNAHashTable::integer_log_base_4(usize::MAX);
        if j < k {
            j
        } else {
            k
        }
    }

    /// `floor(log4(value))`.
    pub fn integer_log_base_4(value: usize) -> (r: usize)
        requires
            value > 0,
        ensures
            r == log4_floor(value as nat),
    {
        let mut v: usize = value;
        let mut i: usize = 0;
        assert(pow4(0) == 1);
        while v >= 4
            invariant
                v >= 1,
                i + log4_floor(v as nat) == log4_floor(value as nat),
                pow4(i as nat) * v <= value,
            decreases v,
        {
            proof {
                lemma_pow4_exceeds(i as nat);
                lemma_log4_floor(v as nat);
                lemma_log4_floor(value as nat);
                assert(pow4(i as nat) * 4 * (v / 4) <= pow4(i as nat) * v) by (nonlinear_arith)
                    requires
                        v >= 4,
                        pow4(i as nat) >= 1,
                ;
                assert(pow4((i + 1) as nat) == 4 * pow4(i as nat));
                assert(pow4(i as nat) <= pow4(i as nat) * v) by (nonlinear_arith)
                    requires
                        v >= 1,
                ;
            }
            v = v / 4;
            i = i + 1;
        }
        i
    }

    /// The base-4 digit of one character.
    pub fn dna_to_int(dna_letter: char) -> (r: usize)
        ensures
            r == base_digit(dna_letter),
    {
        match dna_letter {
            'A' => 0,
            'C' => 1,
            'G' => 2,
            'T' => 3,
            _ => 0,
        }
    }

    /// The bucket of `kmer` in a table of `size` buckets, hashing its first `j` characters.
    pub fn hash_function(kmer: &str, j: usize, size: usize) -> (r: usize)
        requires
            j <= kmer@.len(),
            j <= max_prefix_len(),
            size > 0,
        ensures
            r == hash_spec(kmer@, j as nat, size as nat),
    {
        let w = chars_of(kmer);
        let n = w.len();
        assert(w@.subrange(0, n as int) == w@);
        hash_window(&w, 0, n, j, size)
    }
}

/// The bucket of the window `w[start..start + k]`, hashing its first `j` characters.
pub fn hash_window(w: &Vec<char>, start: usize, k: usize, j: usize, size: usize) -> (r: usize)
    requires
        start + k <= w@.len(),
        j <= k,
        j <= max_prefix_len(),
        size > 0,
    ensures
        r == hash_spec(w@.subrange(start as int, start + k), j as nat, size as nat),
        r < size,
{
    proof {
        lemma_log4_floor(usize::MAX as nat);
    }
    let ghost win = w@.subrange(start as int, start + k);
    let wl = w.len();
    let mut value: usize = 0;
    let mut p: usize = 1;
    let mut i: usize = 0;
    assert(pow4(0) == 1);
    while i < j
        invariant
            i <= j,
            j <= k,
            start + k <= w@.len(),
            w@.len() == wl,
            win == w@.subrange(start as int, start + k),
            j <= max_prefix_len(),
            pow4(max_prefix_len()) <= usize::MAX,
            value == prefix_value(win, i as nat),
            i < j ==> p == pow4(i as nat),
        decreases j - i,
    {
        let d = DNAHashTable::dna_to_int(w[start + i]);
        assert(win[i as int] == w@[start + i]);
        proof {
            lemma_prefix_value_bound(win, i as nat);
            lemma_pow4_monotone((i + 1) as nat, max_prefix_len());
            assert(pow4((i + 1) as nat) == 4 * pow4(i as nat));
            assert(d * p <= 3 * p) by (nonlinear_arith)
                requires
                    d <= 3,
            ;
        }
        value = value + d * p;
        if i + 1 < j {
            p = p * 4;
        } else {
            p = 0;
        }
        i = i + 1;
        proof {
            if i < j {
                assert(pow4(i as nat) == 4 * pow4((i - 1) as nat));
            }
        }
    }
    value % size
}

/// Whether `seg[pos..pos + q.len()]` is exactly `q`.
pub fn window_matches(seg: &Vec<char>, pos: usize, q: &Vec<char>) -> (r: bool)
    requires
        pos + q@.len() <= seg@.len(),
    ensures
        r == (seg@.subrange(pos as int, pos + q@.len()) == q@),
{
    let n = q.len();
    let sl = seg.len();
    let mut i: usize = 0;
    while i < n
        invariant
            n == q@.len(),
            sl == seg@.len(),
            pos + n <= seg@.len(),
            i <= n,
            forall|t: int| 0 <= t < i ==> seg@[pos + t] == q@[t],
        decreases n - i,
    {
        if seg[pos + i] != q[i] {
            assert(seg@.subrange(pos as int, pos + n)[i as int] != q@[i as int]);
            return false;
        }
        i = i + 1;
    }
    assert(seg@.subrange(pos as int, pos + n) =~= q@);
    true
}

/// The views of converted segments.
pub open spec fn char_views(v: Seq<Vec<char>>) -> Seq<Seq<char>> {
    v.map_values(|x: Vec<char>| x@)
}

/// Every segment as a vector of characters.
pub fn segments_chars(segments: &Vec<String>) -> (r: Vec<Vec<char>>)
    ensures
        char_views(r@) == seg_views(segments@),
{
    let mut r: Vec<Vec<char>> = Vec::new();
    for i in 0..segments.len()
        invariant
            r@.len() == i,
            char_views(r@) == seg_views(segments@).take(i as int),
    {
        let c = chars_of(segments[i].as_str());
        let ghost prev = r@;
        r.push(c);
        assert(prev.len() == i);
        assert(r@.len() == i + 1);
        assert(r@[i as int] == c);
        assert(c@ == segments@[i as int]@);
        assert forall|t: int| 0 <= t <= i implies #[trigger] char_views(r@)[t] == seg_views(
            segments@,
        ).take(i + 1)[t] by {
            if t < i {
                assert(char_views(prev)[t] == seg_views(segments@).take(i as int)[t]);
            }
        }
        assert(char_views(r@) =~= seg_views(segments@).take(i + 1));
    }
    assert(seg_views(segments@).take(segments@.len() as int) == seg_views(segments@));
    r
}

/// The number of windows of length `k` over all segments.
pub fn count_windows(segs: &Vec<Vec<char>>, k: usize) -> (r: usize)
    requires
        indexable(char_views(segs@), k as nat),
    ensures
        r == total_windows(char_views(segs@), k as nat),
{
    let ghost sv = char_views(segs@);
    let mut n: usize = 0;
    for i in 0..segs.len()
        invariant
            sv == char_views(segs@),
            indexable(sv, k as nat),
            n == seg_start(sv, k as nat, i as int),
    {
        proof {
            lemma_seg_start_step(sv, k as nat, i as int);
            lemma_seg_start_bound(sv, k as nat, i + 1);
            assert(k <= sv[i as int].len());
        }
        n = n + (segs[i].len() - k + 1);
    }
    assert(sv.take(segs@.len() as int) == sv);
    n
}

/// The table size for windows of length `k`: the least prime at least 1.3
/// times the window count.
fn table_size(segs: &Vec<Vec<char>>, k: usize) -> (r: usize)
    requires
        indexable(char_views(segs@), k as nat),
    ensures
        is_least_prime_at_least(r as int, size_target(total_windows(char_views(segs@), k as nat)) as int),
{
    let n = count_windows(segs, k);
    least_prime_at_least((13 * n + 9) / 10)
}

} // verus!
