//! Placing a probe by majority vote of its exactly matching k-windows.
use crate::dna_hash_table::{
    bucket_of, lemma_all_loci, lemma_bucket_of_elems, lemma_bucket_of_push,
    lemma_match_positions, lemma_total_windows_covers_segments, lemma_window_time_bound, locus_at,
    locus_ok, locus_window, match_positions, total_windows, DNAHashTable, Kmer,
};
use crate::sequence::{chars_of, sub_chars};
use crate::tally::{
    add_placement, best_of, first_seen, lemma_best_of_push, lemma_best_of_unique_max,
    lemma_first_seen_contains, lemma_first_seen_member, lemma_first_seen_push,
    new_placement_tally, placement_count, placement_tally,
};
use vstd::prelude::*;

verus! {

/// The placements voted for by the matches `mp` (indices into `bk`) of the
/// probe window at offset `i`: each match implies the probe starts
/// `i` characters before it, kept when the whole probe then fits in the segment.
pub open spec fn votes_at(bk: Seq<Kmer>, mp: Seq<usize>, i: int, plen: int, segs: Seq<Seq<char>>) -> Seq<(usize, usize)>
    decreases mp.len(),
{
    if mp.len() == 0 {
        Seq::empty()
    } else {
        let rest = votes_at(bk, mp.drop_last(), i, plen, segs);
        let m = bk[mp.last() as int];
        if i <= m.position && m.position - i + plen <= segs[m.segment_index as int].len() {
            rest.push((m.segment_index, (m.position - i) as usize))
        } else {
            rest
        }
    }
}

proof fn lemma_votes_at_push(bk: Seq<Kmer>, mp: Seq<usize>, x: usize, i: int, plen: int, segs: Seq<Seq<char>>)
    ensures
        votes_at(bk, mp.push(x), i, plen, segs) == ({
            let m = bk[x as int];
            if i <= m.position && m.position - i + plen <= segs[m.segment_index as int].len() {
                votes_at(bk, mp, i, plen, segs).push((m.segment_index, (m.position - i) as usize))
            } else {
                votes_at(bk, mp, i, plen, segs)
            }
        }),
{
    assert(mp.push(x).drop_last() == mp);
}

proof fn lemma_votes_at_len(bk: Seq<Kmer>, mp: Seq<usize>, i: int, plen: int, segs: Seq<Seq<char>>)
    ensures
        votes_at(bk, mp, i, plen, segs).len() <= mp.len(),
    decreases mp.len(),
{
    if mp.len() > 0 {
        lemma_votes_at_len(bk, mp.drop_last(), i, plen, segs);
    }
}

/// The probe's window at offset `i` matches the segment text when the probe
/// is placed at `v`, and the whole probe fits there.
pub open spec fn window_fits(segs: Seq<Seq<char>>, k: nat, probe: Seq<char>, v: (usize, usize), i: int) -> bool {
    &&& v.0 < segs.len()
    &&& v.1 + probe.len() <= segs[v.0 as int].len()
    &&& segs[v.0 as int].subrange(v.1 + i, v.1 + i + k) == probe.subrange(i, i + k)
}

/// How many of the probe's first `n` windows match at placement `v`.
pub open spec fn hits(segs: Seq<Seq<char>>, k: nat, probe: Seq<char>, v: (usize, usize), n: int) -> nat
    decreases n,
{
    if n <= 0 {
        0
    } else {
        hits(segs, k, probe, v, n - 1) + if window_fits(segs, k, probe, v, n - 1) {
            1nat
        } else {
            0nat
        }
    }
}

proof fn lemma_hits_all(segs: Seq<Seq<char>>, k: nat, probe: Seq<char>, v: (usize, usize), n: int)
    requires
        n >= 0,
    ensures
        hits(segs, k, probe, v, n) <= n,
        hits(segs, k, probe, v, n) == n ==> forall|i: int| 0 <= i < n ==> #[trigger] window_fits(segs, k, probe, v, i),
        (forall|i: int| 0 <= i < n ==> #[trigger] window_fits(segs, k, probe, v, i)) ==> hits(segs, k, probe, v, n) == n,
    decreases n,
{
    if n > 0 {
        lemma_hits_all(segs, k, probe, v, n - 1);
    }
}

proof fn lemma_bucket_increasing(loci: Seq<Kmer>, segs: Seq<Seq<char>>, k: nat, j: nat, size: nat, b: nat)
    requires
        forall|x: int, y: int| 0 <= x < y < loci.len() ==> (#[trigger] loci[x]).creation_time < (#[trigger] loci[y]).creation_time,
    ensures
        ({
            let bk = bucket_of(loci, segs, k, j, size, b);
            forall|x: int, y: int| 0 <= x < y < bk.len() ==> (#[trigger] bk[x]).creation_time < (#[trigger] bk[y]).creation_time
        }),
    decreases loci.len(),
{
    if loci.len() > 0 {
        let d = loci.drop_last();
        let m = loci.last();
        assert(loci == d.push(m));
        lemma_bucket_increasing(d, segs, k, j, size, b);
        lemma_bucket_of_elems(d, segs, k, j, size, b);
        lemma_bucket_of_push(d, m, segs, k, j, size, b);
        let bd = bucket_of(d, segs, k, j, size, b);
        assert forall|x: int| 0 <= x < bd.len() implies (#[trigger] bd[x]).creation_time < m.creation_time by {
            let u = choose|u: int| 0 <= u < d.len() && d[u] == bd[x];
            assert(loci[u] == bd[x]);
            assert(loci[loci.len() - 1] == m);
        }
    }
}

/// The votes of one window come from distinct windows of the index, so they
/// are distinct; each comes from one of the matches.
proof fn lemma_votes_at_distinct(bk: Seq<Kmer>, mp: Seq<usize>, i: int, plen: int, segs: Seq<Seq<char>>, k: nat)
    requires
        0 <= i,
        forall|x: int, y: int| 0 <= x < y < bk.len() ==> (#[trigger] bk[x]).creation_time < (#[trigger] bk[y]).creation_time,
        forall|x: int| 0 <= x < bk.len() ==> locus_ok(segs, k, #[trigger] bk[x]),
        forall|x: int| 0 <= x < mp.len() ==> #[trigger] mp[x] < bk.len(),
        forall|x: int, y: int| 0 <= x < y < mp.len() ==> #[trigger] mp[x] < #[trigger] mp[y],
    ensures
        votes_at(bk, mp, i, plen, segs).no_duplicates(),
        forall|v: (usize, usize)|
            #[trigger] votes_at(bk, mp, i, plen, segs).contains(v) ==> exists|u: int|
                0 <= u < mp.len() && {
                    let m = #[trigger] bk[mp[u] as int];
                    &&& i <= m.position
                    &&& m.position - i + plen <= segs[m.segment_index as int].len()
                    &&& v == (m.segment_index, (m.position - i) as usize)
                },
    decreases mp.len(),
{
    if mp.len() > 0 {
        let d = mp.drop_last();
        assert forall|x: int| 0 <= x < d.len() implies #[trigger] d[x] < bk.len() by {
            assert(d[x] == mp[x]);
        }
        assert forall|x: int, y: int| 0 <= x < y < d.len() implies #[trigger] d[x] < #[trigger] d[y] by {
            assert(d[x] == mp[x]);
            assert(d[y] == mp[y]);
        }
        lemma_votes_at_distinct(bk, d, i, plen, segs, k);
        let rest = votes_at(bk, d, i, plen, segs);
        let all = votes_at(bk, mp, i, plen, segs);
        let last = mp.last();
        assert(mp[mp.len() - 1] == last);
        let m = bk[last as int];
        assert forall|v: (usize, usize)| #[trigger] all.contains(v) implies exists|u: int|
            0 <= u < mp.len() && {
                let m = #[trigger] bk[mp[u] as int];
                &&& i <= m.position
                &&& m.position - i + plen <= segs[m.segment_index as int].len()
                &&& v == (m.segment_index, (m.position - i) as usize)
            } by {
            if rest.contains(v) {
                let u = choose|u: int|
                    0 <= u < d.len() && {
                        let m = #[trigger] bk[d[u] as int];
                        &&& i <= m.position
                        &&& m.position - i + plen <= segs[m.segment_index as int].len()
                        &&& v == (m.segment_index, (m.position - i) as usize)
                    };
                assert(mp[u] == d[u]);
            } else {
                let w = choose|w: int| 0 <= w < all.len() && all[w] == v;
                assert(w == rest.len());
                assert(mp[mp.len() - 1] == last);
            }
        }
        if i <= m.position && m.position - i + plen <= segs[m.segment_index as int].len() {
            let key = (m.segment_index, (m.position - i) as usize);
            if rest.contains(key) {
                let u = choose|u: int|
                    0 <= u < d.len() && {
                        let m = #[trigger] bk[d[u] as int];
                        &&& i <= m.position
                        &&& m.position - i + plen <= segs[m.segment_index as int].len()
                        &&& key == (m.segment_index, (m.position - i) as usize)
                    };
                let m2 = bk[d[u] as int];
                assert(d[u] == mp[u]);
                assert(mp[u] < last);
                assert(m2.creation_time < m.creation_time);
                assert(locus_ok(segs, k, m2));
                assert(locus_ok(segs, k, m));
                assert(i <= m2.position && key == (m2.segment_index, (m2.position - i) as usize));
                assert(m2.segment_index == m.segment_index);
                assert(key.1 == (m2.position - i) as usize);
                assert(key.1 == (m.position - i) as usize);
                assert(m2.position == m.position);
                assert(false);
            }
            assert forall|x: int, y: int| 0 <= x < y < all.len() implies all[x] != all[y] by {
                if y == all.len() - 1 {
                    assert(all[y] == key);
                    assert(all[x] == rest[x]);
                } else {
                    assert(all[x] == rest[x]);
                    assert(all[y] == rest[y]);
                }
            }
        }
    }
}

proof fn lemma_votes_at_prefix_contains(bk: Seq<Kmer>, mp: Seq<usize>, u: int, i: int, plen: int, segs: Seq<Seq<char>>)
    requires
        0 <= u < mp.len(),
        i <= bk[mp[u] as int].position,
        bk[mp[u] as int].position - i + plen <= segs[bk[mp[u] as int].segment_index as int].len(),
    ensures
        votes_at(bk, mp, i, plen, segs).contains(
            (bk[mp[u] as int].segment_index, (bk[mp[u] as int].position - i) as usize),
        ),
    decreases mp.len(),
{
    let d = mp.drop_last();
    let all = votes_at(bk, mp, i, plen, segs);
    if u < mp.len() - 1 {
        assert(d[u] == mp[u]);
        lemma_votes_at_prefix_contains(bk, d, u, i, plen, segs);
        let rest = votes_at(bk, d, i, plen, segs);
        let key = (bk[mp[u] as int].segment_index, (bk[mp[u] as int].position - i) as usize);
        let w = choose|w: int| 0 <= w < rest.len() && rest[w] == key;
        assert(all[w] == key);
    } else {
        assert(mp.last() == mp[u]);
        assert(all[all.len() - 1] == (bk[mp[u] as int].segment_index, (bk[mp[u] as int].position - i) as usize));
    }
}

impl DNAHashTable {
    /// The votes cast by the probe window at offset `i`.
    pub open spec fn window_votes(&self, probe: Seq<char>, i: int) -> Seq<(usize, usize)> {
        let w = probe.subrange(i, i + self.k);
        let bk = self.bucket_spec(self.hash_of(w) as int);
        votes_at(bk, match_positions(bk, self.segs(), self.k as nat, w), i, probe.len() as int, self.segs())
    }

    /// The votes cast by the first `n` windows of the probe, in order.
    pub open spec fn votes_upto(&self, probe: Seq<char>, n: int) -> Seq<(usize, usize)>
        decreases n,
    {
        if n <= 0 {
            Seq::empty()
        } else {
            self.votes_upto(probe, n - 1) + self.window_votes(probe, n - 1)
        }
    }

    /// Every vote cast by the probe's windows of length `k`.
    pub open spec fn all_votes(&self, probe: Seq<char>) -> Seq<(usize, usize)> {
        if probe.len() < self.k {
            Seq::empty()
        } else {
            self.votes_upto(probe, probe.len() - self.k + 1)
        }
    }

    /// The placement with the most votes; among equals, the one that received
    /// its first vote earliest. `None` when no vote was cast.
    pub open spec fn most_likely_position(&self, probe: Seq<char>) -> Option<(usize, usize)> {
        let v = self.all_votes(probe);
        best_of(first_seen(v), v.to_multiset())
    }

    /// The vote counter, a `usize`, cannot overflow for a probe of this length.
    pub open spec fn vote_room(&self, plen: nat) -> bool {
        self.windows == 0 || plen <= (usize::MAX - 1) as nat / self.windows as nat
    }

    /// Whether a probe of length `plen` can be voted on; see `vote_room`.
    pub fn has_vote_room(&self, plen: usize) -> (r: bool)
        ensures
            r == self.vote_room(plen as nat),
    {
        self.windows == 0 || plen <= (usize::MAX - 1) / self.windows
    }

    proof fn lemma_vote_room(&self, plen: nat)
        requires
            self.wf(),
            self.vote_room(plen),
        ensures
            plen * total_windows(self.segs(), self.k as nat) < usize::MAX,
    {
        let n = self.windows as nat;
        assert(n == total_windows(self.segs(), self.k as nat));
        if n == 0 {
            assert(plen * n == 0) by (nonlinear_arith)
                requires
                    n == 0,
            ;
        } else {
            let q = (usize::MAX - 1) as nat / n;
            assert(plen * n <= q * n) by (nonlinear_arith)
                requires
                    plen <= q,
            ;
            assert(q * n <= (usize::MAX - 1) as nat) by (nonlinear_arith)
                requires
                    q == (usize::MAX - 1) as nat / n,
                    n > 0,
            ;
        }
    }

    proof fn lemma_votes_at_valid(&self, bk: Seq<Kmer>, mp: Seq<usize>, i: int, plen: int)
        requires
            forall|v: int| 0 <= v < bk.len() ==> locus_ok(self.segs(), self.k as nat, #[trigger] bk[v]),
            forall|v: int| 0 <= v < mp.len() ==> #[trigger] mp[v] < bk.len(),
        ensures
            forall|t: int|
                0 <= t < votes_at(bk, mp, i, plen, self.segs()).len() ==> {
                    let v = #[trigger] votes_at(bk, mp, i, plen, self.segs())[t];
                    &&& v.0 < self.segs().len()
                    &&& v.1 + plen <= self.segs()[v.0 as int].len()
                },
        decreases mp.len(),
    {
        if mp.len() > 0 {
            self.lemma_votes_at_valid(bk, mp.drop_last(), i, plen);
            assert(mp[mp.len() - 1] == mp.last());
            let m = bk[mp.last() as int];
            assert(locus_ok(self.segs(), self.k as nat, m));
            let rest = votes_at(bk, mp.drop_last(), i, plen, self.segs());
            let all = votes_at(bk, mp, i, plen, self.segs());
            assert forall|t: int| 0 <= t < all.len() implies {
                let v = #[trigger] all[t];
                &&& v.0 < self.segs().len()
                &&& v.1 + plen <= self.segs()[v.0 as int].len()
            } by {
                if t < rest.len() {
                    assert(all[t] == rest[t]);
                }
            }
        }
    }

    proof fn lemma_votes_upto_valid(&self, probe: Seq<char>, n: int)
        requires
            self.wf(),
            n <= probe.len() - self.k + 1,
        ensures
            forall|t: int|
                0 <= t < self.votes_upto(probe, n).len() ==> {
                    let v = #[trigger] self.votes_upto(probe, n)[t];
                    &&& v.0 < self.segs().len()
                    &&& v.1 + probe.len() <= self.segs()[v.0 as int].len()
                },
        decreases n,
    {
        if n > 0 {
            self.lemma_votes_upto_valid(probe, n - 1);
            let w = probe.subrange(n - 1, n - 1 + self.k);
            let bk = self.bucket_spec(self.hash_of(w) as int);
            lemma_all_loci(self.segs(), self.k as nat);
            lemma_bucket_of_elems(self.loci(), self.segs(), self.k as nat, self.j as nat, self.size as nat, self.hash_of(w));
            assert forall|v: int| 0 <= v < bk.len() implies locus_ok(self.segs(), self.k as nat, #[trigger] bk[v]) by {
                let u = choose|u: int| 0 <= u < self.loci().len() && self.loci()[u] == bk[v];
            }
            lemma_match_positions(bk, self.segs(), self.k as nat, w);
            self.lemma_votes_at_valid(bk, match_positions(bk, self.segs(), self.k as nat, w), n - 1, probe.len() as int);
            let a = self.votes_upto(probe, n - 1);
            let b = self.window_votes(probe, n - 1);
            assert forall|t: int| 0 <= t < (a + b).len() implies {
                let v = #[trigger] (a + b)[t];
                &&& v.0 < self.segs().len()
                &&& v.1 + probe.len() <= self.segs()[v.0 as int].len()
            } by {
                if t >= a.len() {
                    assert((a + b)[t] == b[t - a.len()]);
                }
            }
        }
    }

    /// The votes of window `i` are distinct, and placement `v` gets one
    /// exactly when the window matches there.
    proof fn lemma_window_votes(&self, probe: Seq<char>, i: int)
        requires
            self.wf(),
            0 <= i,
            i + self.k <= probe.len(),
        ensures
            self.window_votes(probe, i).no_duplicates(),
            forall|v: (usize, usize)|
                #[trigger] self.window_votes(probe, i).contains(v) <==> window_fits(
                    self.segs(),
                    self.k as nat,
                    probe,
                    v,
                    i,
                ),
    {
        let segs = self.segs();
        let k = self.k as nat;
        let w = probe.subrange(i, i + self.k);
        let h = self.hash_of(w);
        let bk = self.bucket_spec(h as int);
        let mp = match_positions(bk, segs, k, w);
        lemma_all_loci(segs, k);
        lemma_bucket_increasing(self.loci(), segs, k, self.j as nat, self.size as nat, h);
        lemma_bucket_of_elems(self.loci(), segs, k, self.j as nat, self.size as nat, h);
        assert forall|x: int| 0 <= x < bk.len() implies locus_ok(segs, k, #[trigger] bk[x]) by {
            let u = choose|u: int| 0 <= u < self.loci().len() && self.loci()[u] == bk[x];
        }
        lemma_match_positions(bk, segs, k, w);
        lemma_votes_at_distinct(bk, mp, i, probe.len() as int, segs, k);
        let wv = self.window_votes(probe, i);
        assert forall|v: (usize, usize)| #[trigger] wv.contains(v) implies window_fits(segs, k, probe, v, i) by {
            let u = choose|u: int|
                0 <= u < mp.len() && {
                    let m = #[trigger] bk[mp[u] as int];
                    &&& i <= m.position
                    &&& m.position - i + probe.len() <= segs[m.segment_index as int].len()
                    &&& v == (m.segment_index, (m.position - i) as usize)
                };
            let m = bk[mp[u] as int];
            assert(locus_ok(segs, k, m));
            assert(locus_window(segs, k, m) == w);
        }
        assert forall|v: (usize, usize)| window_fits(segs, k, probe, v, i) implies #[trigger] wv.contains(v) by {
            lemma_window_time_bound(segs, k, v.0 as int, v.1 + i);
            assert(segs[v.0 as int].subrange(v.1 + i, v.1 + i + k) == w);
            let u = self.lemma_window_found(v.0 as int, v.1 + i);
            let m = bk[mp[u] as int];
            assert(m == locus_at(segs, k, v.0 as int, v.1 + i));
            assert(m.position == v.1 + i);
            assert(m.segment_index == v.0);
            lemma_votes_at_prefix_contains(bk, mp, u, i, probe.len() as int, segs);
        }
    }

    /// How often placement `v` is voted for by the first `n` windows.
    proof fn lemma_vote_count(&self, probe: Seq<char>, n: int, v: (usize, usize))
        requires
            self.wf(),
            0 <= n <= probe.len() - self.k + 1,
        ensures
            self.votes_upto(probe, n).to_multiset().count(v) == hits(self.segs(), self.k as nat, probe, v, n),
        decreases n,
    {
        broadcast use vstd::multiset::group_multiset_axioms;

        if n > 0 {
            self.lemma_vote_count(probe, n - 1, v);
            self.lemma_window_votes(probe, n - 1);
            let a = self.votes_upto(probe, n - 1);
            let b = self.window_votes(probe, n - 1);
            vstd::seq_lib::lemma_multiset_commutative(a, b);
            b.lemma_multiset_has_no_duplicates();
            b.to_multiset_ensures();
            assert(self.votes_upto(probe, n) == a + b);
            assert((a + b).to_multiset() == a.to_multiset().add(b.to_multiset()));
            assert(b.contains(v) == window_fits(self.segs(), self.k as nat, probe, v, n - 1));
            if b.contains(v) {
                assert(b.to_multiset().count(v) == 1);
            } else {
                assert(b.to_multiset().count(v) == 0);
            }
        } else {
            let e = self.votes_upto(probe, n);
            e.to_multiset_ensures();
            assert(!e.contains(v));
        }
    }

    /// A probe copied verbatim from segment `s` at position `p`, and found
    /// nowhere else in the segments, is placed exactly there.
    pub proof fn lemma_verbatim_probe_placed(&self, probe: Seq<char>, s: int, p: int)
        requires
            self.wf(),
            self.k <= probe.len(),
            0 <= s < self.segs().len(),
            0 <= p,
            p + probe.len() <= self.segs()[s].len(),
            self.segs()[s].subrange(p, p + probe.len()) == probe,
            forall|s2: int, p2: int|
                0 <= s2 < self.segs().len() && 0 <= p2 && p2 + probe.len() <= self.segs()[s2].len()
                    && #[trigger] self.segs()[s2].subrange(p2, p2 + probe.len()) == probe ==> s2 == s && p2 == p,
        ensures
            self.most_likely_position(probe) == Some((s as usize, p as usize)),
    {
        let segs = self.segs();
        let k = self.k as nat;
        let n = probe.len() - self.k + 1;
        let key = (s as usize, p as usize);
        lemma_all_loci(segs, k);
        lemma_total_windows_covers_segments(segs, k);
        lemma_window_time_bound(segs, k, s, p);
        let votes = self.votes_upto(probe, n);
        let tally = votes.to_multiset();
        assert forall|i: int| 0 <= i < n implies #[trigger] window_fits(segs, k, probe, key, i) by {
            assert(segs[s].subrange(p + i, p + i + k) =~= probe.subrange(i, i + k));
        }
        lemma_hits_all(segs, k, probe, key, n);
        self.lemma_vote_count(probe, n, key);
        assert forall|y: (usize, usize)| first_seen(votes).contains(y) && y != key implies tally.count(y) < tally.count(key) by {
            self.lemma_vote_count(probe, n, y);
            lemma_hits_all(segs, k, probe, y, n);
            if hits(segs, k, probe, y, n) == n {
                assert forall|j: int| 0 <= j < probe.len() implies segs[y.0 as int][y.1 + j] == probe[j] by {
                    let i = if j < n { j } else { n - 1 };
                    assert(window_fits(segs, k, probe, y, i));
                    assert(segs[y.0 as int].subrange(y.1 + i, y.1 + i + k)[j - i] == probe.subrange(i, i + k)[j - i]);
                }
                assert(segs[y.0 as int].subrange(y.1 as int, y.1 + probe.len()) =~= probe);
                assert(window_fits(segs, k, probe, y, 0));
            }
        }
        votes.to_multiset_ensures();
        lemma_first_seen_contains(votes, key);
        lemma_best_of_unique_max(first_seen(votes), tally, key);
    }

    /// A placement chosen by the vote is a real one: its segment exists and
    /// the whole probe fits there.
    pub proof fn lemma_position_valid(&self, probe: Seq<char>)
        requires
            self.wf(),
        ensures
            self.most_likely_position(probe) matches Some(v) ==> {
                &&& v.0 < self.segs().len()
                &&& v.1 + probe.len() <= self.segs()[v.0 as int].len()
            },
    {
        if probe.len() >= self.k {
            let n = probe.len() - self.k + 1;
            self.lemma_votes_upto_valid(probe, n);
        }
        let v = self.all_votes(probe);
        crate::tally::lemma_best_of_member(first_seen(v), v.to_multiset());
        if let Some(b) = self.most_likely_position(probe) {
            lemma_first_seen_member(v, b);
            let w = choose|w: int| 0 <= w < v.len() && v[w] == b;
        }
    }

    /// Places a probe by majority vote of its exactly matching windows.
    /// `segments` are the segments the table was built over.
    pub fn get_most_likely_position(&self, segments: &Vec<String>, lmer: &str) -> (r: Option<(usize, usize)>)
        requires
            self.wf(),
            self.vote_room(lmer@.len()),
        ensures
            r == self.most_likely_position(lmer@),
    {
        let probe = chars_of(lmer);
        self.vote_position(&probe)
    }

    /// Places a probe given as characters; see `get_most_likely_position`.
    pub fn vote_position(&self, probe: &Vec<char>) -> (r: Option<(usize, usize)>)
        requires
            self.wf(),
            self.vote_room(probe@.len()),
        ensures
            r == self.most_likely_position(probe@),
    {
        broadcast use vstd::seq_lib::group_to_multiset_ensures;

        let plen = probe.len();
        if plen < self.k {
            return None;
        }
        let ghost pv = probe@;
        let ghost n_loci = total_windows(self.segs(), self.k as nat);
        let nw = plen - self.k + 1;
        let mut tally = new_placement_tally();
        let mut order: Vec<(usize, usize)> = Vec::new();
        proof {
            lemma_all_loci(self.segs(), self.k as nat);
            self.lemma_vote_room(plen as nat);
            assert(self.votes_upto(pv, 0) == Seq::<(usize, usize)>::empty());
            assert(nw * n_loci <= plen * n_loci) by (nonlinear_arith)
                requires
                    nw <= plen,
            ;
        }
        for i in 0..nw
            invariant
                self.wf(),
                pv == probe@,
                plen == pv.len(),
                nw == plen - self.k + 1,
                n_loci == total_windows(self.segs(), self.k as nat),
                nw * n_loci < usize::MAX,
                placement_tally(tally) == self.votes_upto(pv, i as int).to_multiset(),
                order@ == first_seen(self.votes_upto(pv, i as int)),
                self.votes_upto(pv, i as int).len() <= i * n_loci,
        {
            let ghost before = self.votes_upto(pv, i as int);
            let w = sub_chars(probe, i, self.k);
            let ghost bk = self.bucket_spec(self.hash_of(w@) as int);
            let ghost mp = match_positions(bk, self.segs(), self.k as nat, w@);
            proof {
                lemma_all_loci(self.segs(), self.k as nat);
                lemma_bucket_of_elems(self.loci(), self.segs(), self.k as nat, self.j as nat, self.size as nat, self.hash_of(w@));
                lemma_match_positions(bk, self.segs(), self.k as nat, w@);
                lemma_votes_at_len(bk, mp, i as int, plen as int, self.segs());
                assert(self.votes_upto(pv, i + 1) == before + self.window_votes(pv, i as int));
                assert(i * n_loci + n_loci <= nw * n_loci) by (nonlinear_arith)
                    requires
                        i < nw,
                ;
                assert((i + 1) * n_loci == i * n_loci + n_loci) by (nonlinear_arith);
            }
            match self.lookup(&w) {
                Some((bucket, idx)) => {
                    proof {
                        self.lemma_entries(self.hash_of(w@) as int);
                    }
                    for t in 0..idx.len()
                        invariant
                            self.wf(),
                            pv == probe@,
                            plen == pv.len(),
                            i < nw,
                            nw == plen - self.k + 1,
                            n_loci == total_windows(self.segs(), self.k as nat),
                            nw * n_loci < usize::MAX,
                            i * n_loci + n_loci <= nw * n_loci,
                            bucket@ == bk,
                            bk.len() <= n_loci,
                            idx@ == mp,
                            mp.len() <= bk.len(),
                            forall|u: int| 0 <= u < mp.len() ==> #[trigger] mp[u] < bk.len(),
                            forall|u: int| 0 <= u < bk.len() ==> locus_ok(self.segs(), self.k as nat, #[trigger] bk[u]),
                            before.len() <= i * n_loci,
                            placement_tally(tally) == (before + votes_at(bk, mp.take(t as int), i as int, plen as int, self.segs())).to_multiset(),
                            order@ == first_seen(before + votes_at(bk, mp.take(t as int), i as int, plen as int, self.segs())),
                    {
                        let ghost cur = before + votes_at(bk, mp.take(t as int), i as int, plen as int, self.segs());
                        proof {
                            assert(mp.take(t + 1) == mp.take(t as int).push(mp[t as int]));
                            lemma_votes_at_push(bk, mp.take(t as int), mp[t as int], i as int, plen as int, self.segs());
                            lemma_votes_at_len(bk, mp.take(t as int), i as int, plen as int, self.segs());
                        }
                        let m = bucket[idx[t]];
                        assert(locus_ok(self.segs(), self.k as nat, m));
                        let seg_len = self.segments[m.segment_index].len();
                        assert(seg_len == self.segs()[m.segment_index as int].len());
                        if i <= m.position && plen <= seg_len && m.position - i <= seg_len - plen {
                            let key = (m.segment_index, m.position - i);
                            let c = placement_count(&tally, key);
                            proof {
                                cur.to_multiset_ensures();
                                lemma_first_seen_push(cur, key);
                                assert((cur + Seq::<(usize, usize)>::empty().push(key)) == cur.push(key));
                            }
                            if c == 0 {
                                order.push(key);
                            }
                            assert(cur.len() <= before.len() + t);
                            assert(cur.to_multiset().len() == cur.len());
                            add_placement(&mut tally, key);
                            assert(cur.push(key).to_multiset() == cur.to_multiset().insert(key));
                            assert(before + votes_at(bk, mp.take(t + 1), i as int, plen as int, self.segs()) == cur.push(key));
                        } else {
                            assert(before + votes_at(bk, mp.take(t + 1), i as int, plen as int, self.segs()) == cur);
                        }
                    }
                    assert(mp.take(mp.len() as int) == mp);
                },
                None => {
                    assert(mp.len() == 0);
                    assert(self.window_votes(pv, i as int) == Seq::<(usize, usize)>::empty());
                    assert(before + self.window_votes(pv, i as int) == before);
                },
            }
        }
        let ghost votes = self.votes_upto(pv, nw as int);
        let mut best_count: usize = 0;
        let mut best: (usize, usize) = (0, 0);
        assert(order@.take(0) == Seq::<(usize, usize)>::empty());
        for t in 0..order.len()
            invariant
                placement_tally(tally) == votes.to_multiset(),
                best_of(order@.take(t as int), votes.to_multiset()) == if best_count == 0 {
                    None
                } else {
                    Some(best)
                },
                best_count > 0 ==> best_count == votes.to_multiset().count(best),
        {
            let x = order[t];
            let c = placement_count(&tally, x);
            proof {
                assert(order@.take(t + 1) == order@.take(t as int).push(x));
                lemma_best_of_push(order@.take(t as int), x, votes.to_multiset());
            }
            if c > best_count {
                best_count = c;
                best = x;
            }
        }
        assert(order@.take(order@.len() as int) == order@);
        if best_count == 0 {
            None
        } else {
            Some(best)
        }
    }
}

} // verus!
