//! Graph over the l-windows of the segments: each window records the windows
//! within a bounded Hamming distance that share an aligned k-window with it,
//! and which single substitutions lead towards them.
use crate::dna_hash_table::{
    all_loci, indexable, lemma_all_loci, lemma_match_positions, lemma_window_time_bound, locus_at, locus_ok,
    locus_window, match_positions, occurrences, seg_start, seg_views, total_windows, DNAHashTable,
    Kmer,
};
use crate::sequence::{
    chars_at, chars_of, common_len, diff_positions, differences, distance_capped, hamming,
    lemma_diff_positions, lemma_hamming_bound, lemma_hamming_self, sub_chars,
};
use crate::tally::{
    add_node, first_seen, lemma_distinct_below, lemma_first_seen_push, new_node_tally, node_count,
    node_tally,
};
use vstd::multiset::Multiset;
use std::collections::HashMap;
use vstd::prelude::*;

verus! {

broadcast use vstd::std_specs::hash::group_hash_axioms;

/// The slot of a nucleotide in a substitution table; `None` for anything else.
pub open spec fn base_slot(c: char) -> Option<int> {
    if c == 'A' {
        Some(0)
    } else if c == 'C' {
        Some(1)
    } else if c == 'G' {
        Some(2)
    } else if c == 'T' {
        Some(3)
    } else {
        None
    }
}

/// The windows of `m1` and `m2` agree on the k characters starting `i` in.
pub open spec fn aligned_at(segs: Seq<Seq<char>>, k: nat, m1: Kmer, m2: Kmer, i: int) -> bool {
    segs[m1.segment_index as int].subrange(m1.position + i, m1.position + i + k)
        == segs[m2.segment_index as int].subrange(m2.position + i, m2.position + i + k)
}

/// The l-windows of `m1` and `m2` share an aligned k-window.
pub open spec fn shares_kmer(segs: Seq<Seq<char>>, k: nat, l: nat, m1: Kmer, m2: Kmer) -> bool {
    exists|i: int| 0 <= i <= l - k && #[trigger] aligned_at(segs, k, m1, m2, i)
}

/// `m2` is a neighbour of `m1`: another l-window that shares an aligned
/// k-window with it and is within Hamming distance `d`.
pub open spec fn is_neighbor(segs: Seq<Seq<char>>, k: nat, l: nat, d: nat, m1: Kmer, m2: Kmer) -> bool {
    &&& m2.creation_time != m1.creation_time
    &&& shares_kmer(segs, k, l, m1, m2)
    &&& hamming(locus_window(segs, l, m1), locus_window(segs, l, m2)) <= d
}

/// The substitution lists of a node: `near[b][o]` holds, once each, the
/// neighbours whose window has nucleotide `b` at offset `o` where the node's
/// own window differs.
pub open spec fn near_ok(
    segs: Seq<Seq<char>>,
    l: nat,
    me: Kmer,
    dist: Map<usize, usize>,
    near: Seq<Seq<Seq<usize>>>,
) -> bool {
    let loci = all_loci(segs, l);
    &&& forall|b: int, o: int|
        0 <= b < 4 && 0 <= o < l ==> (#[trigger] near[b][o]).no_duplicates()
    &&& forall|b: int, o: int, x: usize|
        0 <= b < 4 && 0 <= o < l ==> (#[trigger] near[b][o].contains(x) <==> {
            &&& dist.contains_key(x)
            &&& x < loci.len()
            &&& base_slot(locus_window(segs, l, loci[x as int])[o]) == Some(b)
            &&& locus_window(segs, l, me)[o] != locus_window(segs, l, loci[x as int])[o]
        })
}

/// A node's distance map holds exactly its neighbours, with their distances.
pub open spec fn dist_ok(segs: Seq<Seq<char>>, k: nat, l: nat, d: nat, me: Kmer, dist: Map<usize, usize>) -> bool {
    let loci = all_loci(segs, l);
    &&& forall|x: usize|
        #[trigger] dist.contains_key(x) <==> (x < loci.len() && is_neighbor(segs, k, l, d, me, loci[x as int]))
    &&& forall|x: usize|
        #[trigger] dist.contains_key(x) ==> dist[x] == hamming(
            locus_window(segs, l, me),
            locus_window(segs, l, loci[x as int]),
        )
}

/// Substitution lists as sequences.
pub open spec fn near_seqs(near: Seq<Vec<Vec<usize>>>) -> Seq<Seq<Seq<usize>>> {
    near.map_values(|v: Vec<Vec<usize>>| v@.map_values(|w: Vec<usize>| w@))
}

/// Offset `o` of the window `x` holds nucleotide `b` where the node `me` differs.
pub open spec fn subst_hit(segs: Seq<Seq<char>>, l: nat, me: Kmer, x: usize, b: int, o: int) -> bool {
    let w = locus_window(segs, l, all_loci(segs, l)[x as int]);
    &&& base_slot(w[o]) == Some(b)
    &&& locus_window(segs, l, me)[o] != w[o]
}

/// The k-window of the node's l-window at offset `i`.
pub open spec fn kmer_at(segs: Seq<Seq<char>>, k: nat, me: Kmer, i: int) -> Seq<char> {
    segs[me.segment_index as int].subrange(me.position + i, me.position + i + k)
}

/// The l-windows reached through the k-windows `ms` matched at offset `i`
/// of the node: the l-window starting `i` before each, when it fits its
/// segment and is not the node itself, by creation time.
pub open spec fn reached_from(ms: Seq<Kmer>, segs: Seq<Seq<char>>, l: nat, me: Kmer, i: int) -> Seq<usize>
    decreases ms.len(),
{
    if ms.len() == 0 {
        Seq::empty()
    } else {
        let rest = reached_from(ms.drop_last(), segs, l, me, i);
        let mk = ms.last();
        if i <= mk.position && mk.position - i + l <= segs[mk.segment_index as int].len() && cand_time(
            segs,
            l,
            mk,
            i,
        ) != me.creation_time {
            rest.push(cand_time(segs, l, mk, i) as usize)
        } else {
            rest
        }
    }
}

/// The l-windows reached through every occurrence of the node's k-window
/// at offset `i`, in creation order of those occurrences.
pub open spec fn reached_at(segs: Seq<Seq<char>>, k: nat, l: nat, me: Kmer, i: int) -> Seq<usize> {
    reached_from(occurrences(all_loci(segs, k), segs, k, kmer_at(segs, k, me, i)), segs, l, me, i)
}

/// The l-windows reached through the node's k-windows at offsets below `n`,
/// offset by offset.
pub open spec fn reached_upto(segs: Seq<Seq<char>>, k: nat, l: nat, me: Kmer, n: int) -> Seq<usize>
    decreases n,
{
    if n <= 0 {
        Seq::empty()
    } else {
        reached_upto(segs, k, l, me, n - 1) + reached_at(segs, k, l, me, n - 1)
    }
}

/// The elements of `s` within distance `d` of the node.
pub open spec fn keep_within(s: Seq<usize>, segs: Seq<Seq<char>>, l: nat, d: nat, me: Kmer) -> Seq<usize>
    decreases s.len(),
{
    if s.len() == 0 {
        Seq::empty()
    } else {
        let rest = keep_within(s.drop_last(), segs, l, d, me);
        if hamming(locus_window(segs, l, me), locus_window(segs, l, all_loci(segs, l)[s.last() as int])) <= d {
            rest.push(s.last())
        } else {
            rest
        }
    }
}

/// The node's neighbours in the order they are found: by offset of the
/// shared k-window, then by creation time of its occurrence, each once.
pub open spec fn discovered(segs: Seq<Seq<char>>, k: nat, l: nat, d: nat, me: Kmer) -> Seq<usize> {
    keep_within(first_seen(reached_upto(segs, k, l, me, l - k + 1)), segs, l, d, me)
}

/// The elements of `s` listed under nucleotide `b` at offset `o`.
pub open spec fn listed(s: Seq<usize>, segs: Seq<Seq<char>>, l: nat, me: Kmer, b: int, o: int) -> Seq<usize>
    decreases s.len(),
{
    if s.len() == 0 {
        Seq::empty()
    } else {
        let rest = listed(s.drop_last(), segs, l, me, b, o);
        if subst_hit(segs, l, me, s.last(), b, o) {
            rest.push(s.last())
        } else {
            rest
        }
    }
}

proof fn lemma_keep_within_push(s: Seq<usize>, x: usize, segs: Seq<Seq<char>>, l: nat, d: nat, me: Kmer)
    ensures
        keep_within(s.push(x), segs, l, d, me) == if hamming(
            locus_window(segs, l, me),
            locus_window(segs, l, all_loci(segs, l)[x as int]),
        ) <= d {
            keep_within(s, segs, l, d, me).push(x)
        } else {
            keep_within(s, segs, l, d, me)
        },
{
    assert(s.push(x).drop_last() == s);
}

proof fn lemma_keep_within_contains(s: Seq<usize>, x: usize, segs: Seq<Seq<char>>, l: nat, d: nat, me: Kmer)
    ensures
        keep_within(s, segs, l, d, me).contains(x) <==> (s.contains(x) && hamming(
            locus_window(segs, l, me),
            locus_window(segs, l, all_loci(segs, l)[x as int]),
        ) <= d),
    decreases s.len(),
{
    if s.len() > 0 {
        let t = s.drop_last();
        lemma_keep_within_contains(t, x, segs, l, d, me);
        assert(s == t.push(s.last()));
        let kt = keep_within(t, segs, l, d, me);
        let ks = keep_within(s, segs, l, d, me);
        if ks.contains(x) {
            let w = choose|w: int| 0 <= w < ks.len() && ks[w] == x;
            if w < kt.len() {
                assert(kt[w] == x);
                let v = choose|v: int| 0 <= v < t.len() && t[v] == x;
                assert(s[v] == x);
            } else {
                assert(s[s.len() - 1] == x);
            }
        }
        if s.contains(x) && hamming(locus_window(segs, l, me), locus_window(segs, l, all_loci(segs, l)[x as int])) <= d {
            let v = choose|v: int| 0 <= v < s.len() && s[v] == x;
            if v < t.len() {
                assert(t[v] == x);
                let w = choose|w: int| 0 <= w < kt.len() && kt[w] == x;
                assert(ks[w] == x);
            } else {
                assert(ks[ks.len() - 1] == x);
            }
        }
    }
}

proof fn lemma_listed_push(s: Seq<usize>, x: usize, segs: Seq<Seq<char>>, l: nat, me: Kmer, b: int, o: int)
    ensures
        listed(s.push(x), segs, l, me, b, o) == if subst_hit(segs, l, me, x, b, o) {
            listed(s, segs, l, me, b, o).push(x)
        } else {
            listed(s, segs, l, me, b, o)
        },
{
    assert(s.push(x).drop_last() == s);
}

/// The distance map holds exactly the elements of `ins`, and each
/// substitution list lists them in that order.
pub open spec fn order_ok(
    segs: Seq<Seq<char>>,
    l: nat,
    me: Kmer,
    near: Seq<Seq<Seq<usize>>>,
    dist: Map<usize, usize>,
    ins: Seq<usize>,
) -> bool {
    &&& forall|x: usize| #[trigger] dist.contains_key(x) <==> ins.contains(x)
    &&& forall|b: int, o: int|
        0 <= b < 4 && 0 <= o < l ==> #[trigger] near[b][o] == listed(ins, segs, l, me, b, o)
}

/// Reaching a window that is already recorded, or too far, changes nothing.
proof fn lemma_order_skip(
    segs: Seq<Seq<char>>,
    l: nat,
    d: nat,
    me: Kmer,
    near: Seq<Seq<Seq<usize>>>,
    dist: Map<usize, usize>,
    cur: Seq<usize>,
    x: usize,
)
    requires
        order_ok(segs, l, me, near, dist, keep_within(first_seen(cur), segs, l, d, me)),
        dist.contains_key(x) || hamming(
            locus_window(segs, l, me),
            locus_window(segs, l, all_loci(segs, l)[x as int]),
        ) > d,
    ensures
        order_ok(segs, l, me, near, dist, keep_within(first_seen(cur.push(x)), segs, l, d, me)),
{
    lemma_first_seen_push(cur, x);
    if dist.contains_key(x) {
        lemma_keep_within_contains(first_seen(cur), x, segs, l, d, me);
        crate::tally::lemma_first_seen_member(cur, x);
    } else {
        lemma_keep_within_push(first_seen(cur), x, segs, l, d, me);
    }
}

/// Reaching a new window within distance `d` records it last.
proof fn lemma_order_add(
    segs: Seq<Seq<char>>,
    l: nat,
    d: nat,
    me: Kmer,
    near: Seq<Seq<Seq<usize>>>,
    near2: Seq<Seq<Seq<usize>>>,
    dist: Map<usize, usize>,
    cur: Seq<usize>,
    x: usize,
    dx: usize,
)
    requires
        order_ok(segs, l, me, near, dist, keep_within(first_seen(cur), segs, l, d, me)),
        !dist.contains_key(x),
        hamming(locus_window(segs, l, me), locus_window(segs, l, all_loci(segs, l)[x as int])) <= d,
        forall|b: int, o: int|
            0 <= b < 4 && 0 <= o < l ==> #[trigger] near2[b][o] == if subst_hit(segs, l, me, x, b, o) {
                near[b][o].push(x)
            } else {
                near[b][o]
            },
    ensures
        order_ok(segs, l, me, near2, dist.insert(x, dx), keep_within(first_seen(cur.push(x)), segs, l, d, me)),
{
    let ins = keep_within(first_seen(cur), segs, l, d, me);
    lemma_first_seen_push(cur, x);
    if cur.contains(x) {
        crate::tally::lemma_first_seen_contains(cur, x);
        lemma_keep_within_contains(first_seen(cur), x, segs, l, d, me);
    }
    lemma_keep_within_push(first_seen(cur), x, segs, l, d, me);
    let ins2 = ins.push(x);
    assert forall|y: usize| #[trigger] dist.insert(x, dx).contains_key(y) <==> ins2.contains(y) by {
        if ins2.contains(y) && y != x {
            let w = choose|w: int| 0 <= w < ins2.len() && ins2[w] == y;
            assert(ins[w] == y);
        }
        if ins.contains(y) {
            let w = choose|w: int| 0 <= w < ins.len() && ins[w] == y;
            assert(ins2[w] == y);
        }
        if y == x {
            assert(ins2[ins.len() as int] == x);
        }
    }
    assert forall|b: int, o: int| 0 <= b < 4 && 0 <= o < l implies #[trigger] near2[b][o] == listed(ins2, segs, l, me, b, o) by {
        lemma_listed_push(ins, x, segs, l, me, b, o);
    }
}

/// Four tables of `l` lists each.
pub open spec fn near_shape(near: Seq<Vec<Vec<usize>>>, l: nat) -> bool {
    &&& near.len() == 4
    &&& forall|b: int| 0 <= b < 4 ==> (#[trigger] near[b])@.len() == l
}

/// Four tables of `l` empty lists.
fn empty_near(l: usize) -> (r: Vec<Vec<Vec<usize>>>)
    ensures
        near_shape(r@, l as nat),
        forall|b: int, o: int| 0 <= b < 4 && 0 <= o < l ==> (#[trigger] near_seqs(r@)[b][o]).len() == 0,
{
    let mut r: Vec<Vec<Vec<usize>>> = Vec::new();
    for b in 0..4usize
        invariant
            r@.len() == b,
            forall|c: int| 0 <= c < b ==> (#[trigger] r@[c])@.len() == l,
            forall|c: int, o: int| 0 <= c < b && 0 <= o < l ==> (#[trigger] r@[c]@[o])@.len() == 0,
    {
        let mut lists: Vec<Vec<usize>> = Vec::new();
        for o in 0..l
            invariant
                lists@.len() == o,
                forall|t: int| 0 <= t < o ==> (#[trigger] lists@[t])@.len() == 0,
        {
            lists.push(Vec::new());
        }
        r.push(lists);
    }
    r
}

/// Records the new neighbour `x` at distance `dx`: every offset where its
/// window `cand` differs from the node's window `lmer` lists it under the
/// nucleotide `cand` has there.
fn add_neighbor(
    near: &mut Vec<Vec<Vec<usize>>>,
    dist: &mut HashMap<usize, usize>,
    x: usize,
    dx: usize,
    lmer: &Vec<char>,
    cand: &Vec<char>,
    Ghost(segs): Ghost<Seq<Seq<char>>>,
    Ghost(l): Ghost<nat>,
    Ghost(me): Ghost<Kmer>,
)
    requires
        near_shape(old(near)@, l),
        near_ok(segs, l, me, old(dist)@, near_seqs(old(near)@)),
        !old(dist)@.contains_key(x),
        x < all_loci(segs, l).len(),
        lmer@ == locus_window(segs, l, me),
        cand@ == locus_window(segs, l, all_loci(segs, l)[x as int]),
        lmer@.len() == l,
        cand@.len() == l,
        l <= usize::MAX,
    ensures
        final(dist)@ == old(dist)@.insert(x, dx),
        near_shape(final(near)@, l),
        near_ok(segs, l, me, final(dist)@, near_seqs(final(near)@)),
        forall|b: int, o: int|
            0 <= b < 4 && 0 <= o < l ==> #[trigger] near_seqs(final(near)@)[b][o] == if subst_hit(
                segs,
                l,
                me,
                x,
                b,
                o,
            ) {
                near_seqs(old(near)@)[b][o].push(x)
            } else {
                near_seqs(old(near)@)[b][o]
            },
{
    let ghost old_dist = dist@;
    let ghost old_near = near_seqs(near@);
    let ghost lloci = all_loci(segs, l);
    dist.insert(x, dx);
    let (ps, cs) = differences(lmer, cand);
    proof {
        lemma_diff_positions(lmer@, cand@, l as int);
    }
    for u in 0..ps.len()
        invariant
            near_shape(near@, l),
            l <= usize::MAX,
            lmer@.len() == l,
            cand@.len() == l,
            ps@ == diff_positions(lmer@, cand@),
            cs@ == chars_at(cand@, ps@),
            !old_dist.contains_key(x),
            dist@ == old_dist.insert(x, dx),
            lloci == all_loci(segs, l),
            x < lloci.len(),
            lmer@ == locus_window(segs, l, me),
            cand@ == locus_window(segs, l, lloci[x as int]),
            diff_positions(lmer@, cand@) == crate::sequence::diff_positions_upto(lmer@, cand@, l as int),
            forall|t: int| 0 <= t < ps@.len() ==> {
                let p = #[trigger] ps@[t];
                &&& p < l
                &&& lmer@[p as int] != cand@[p as int]
            },
            forall|t: int, v: int| 0 <= t < v < ps@.len() ==> #[trigger] ps@[t] < #[trigger] ps@[v],
            forall|b: int, o: int| 0 <= b < 4 && 0 <= o < l ==> (#[trigger] near_seqs(near@)[b][o]).no_duplicates(),
            forall|b: int, o: int|
                0 <= b < 4 && 0 <= o < l ==> #[trigger] near_seqs(near@)[b][o] == if ps@.take(u as int).contains(
                    o as usize,
                ) && base_slot(cand@[o]) == Some(b) {
                    old_near[b][o].push(x)
                } else {
                    old_near[b][o]
                },
            forall|b: int, o: int, y: usize|
                0 <= b < 4 && 0 <= o < l ==> (#[trigger] near_seqs(near@)[b][o].contains(y) <==> {
                    ||| {
                        &&& old_dist.contains_key(y)
                        &&& y < lloci.len()
                        &&& base_slot(locus_window(segs, l, lloci[y as int])[o]) == Some(b)
                        &&& locus_window(segs, l, me)[o] != locus_window(segs, l, lloci[y as int])[o]
                    }
                    ||| {
                        &&& y == x
                        &&& ps@.take(u as int).contains(o as usize)
                        &&& base_slot(cand@[o]) == Some(b)
                    }
                }),
    {
        let o = ps[u];
        let c = cs[u];
        let slot: usize = match c {
            'A' => 0,
            'C' => 1,
            'G' => 2,
            'T' => 3,
            _ => 4,
        };
        let ghost before = near_seqs(near@);
        proof {
            assert(ps@.take(u + 1) == ps@.take(u as int).push(o));
            assert(c == cand@[o as int]);
            assert(slot < 4 ==> base_slot(c) == Some(slot as int));
            assert(slot >= 4 ==> base_slot(c) is None);
            assert forall|v: int| 0 <= v < u implies #[trigger] ps@.take(u as int)[v] != o by {
                assert(ps@[v] < ps@[u as int]);
            }
            assert(!ps@.take(u as int).contains(o));
            assert(o < l);
            assert forall|b: int, o2: int| #![trigger before[b][o2]] 0 <= b < 4 && 0 <= o2 < l && (b != slot || o2 != o)
                implies (ps@.take(u + 1).contains(o2 as usize) && base_slot(cand@[o2]) == Some(b))
                == (ps@.take(u as int).contains(o2 as usize) && base_slot(cand@[o2]) == Some(b)) by {
                if o2 == o {
                } else {
                    if ps@.take(u + 1).contains(o2 as usize) {
                        let pt = ps@.take(u + 1);
                        let w = choose|w: int| 0 <= w < pt.len() && #[trigger] pt[w] == o2 as usize;
                        assert(ps@.take(u as int)[w] == o2 as usize);
                    }
                }
            }
        }
        if slot < 4 {
            assert(!(before[slot as int][o as int].contains(x)));
            near[slot][o].push(x);
            proof {
                let after = near_seqs(near@);
                assert(after[slot as int][o as int] == before[slot as int][o as int].push(x));
                assert forall|b: int, o2: int| 0 <= b < 4 && 0 <= o2 < l && (b != slot || o2 != o) implies #[trigger] after[b][o2] == before[b][o2] by {}
                let bl = before[slot as int][o as int];
                let al = after[slot as int][o as int];
                assert forall|y: usize| #[trigger] al.contains(y) <==> (bl.contains(y) || y == x) by {
                    if y == x {
                        assert(al[bl.len() as int] == x);
                    }
                    if al.contains(y) && y != x {
                        let w = choose|w: int| 0 <= w < al.len() && #[trigger] al[w] == y;
                        assert(w < bl.len());
                        assert(bl[w] == y);
                    }
                    if bl.contains(y) {
                        let w = choose|w: int| 0 <= w < bl.len() && #[trigger] bl[w] == y;
                        assert(al[w] == y);
                    }
                }
                assert(ps@.take(u + 1)[u as int] == o);
                assert(ps@.take(u + 1).contains(o));
            }
        }
    }
    proof {
        assert(ps@.take(ps@.len() as int) == ps@);
        assert forall|b: int, o: int| 0 <= b < 4 && 0 <= o < l implies (ps@.contains(o as usize) && base_slot(cand@[o]) == Some(b)) == subst_hit(segs, l, me, x, b, o) by {
            if lmer@[o] != cand@[o] {
                assert(ps@.contains(o as usize));
            }
            if ps@.contains(o as usize) {
                let w = choose|w: int| 0 <= w < ps@.len() && ps@[w] == o as usize;
                assert(lmer@[ps@[w] as int] != cand@[ps@[w] as int]);
            }
        }
        assert forall|b: int, o: int, y: usize|
            0 <= b < 4 && 0 <= o < l implies (#[trigger] near_seqs(near@)[b][o].contains(y) <==> {
                &&& dist@.contains_key(y)
                &&& y < lloci.len()
                &&& base_slot(locus_window(segs, l, lloci[y as int])[o]) == Some(b)
                &&& locus_window(segs, l, me)[o] != locus_window(segs, l, lloci[y as int])[o]
            }) by {
            if y == x && lmer@[o] != cand@[o] {
                assert(ps@.contains(o as usize));
            }
        }
    }
}

/// The creation time of the l-window that starts `i` before the k-window `mk`.
pub open spec fn cand_time(segs: Seq<Seq<char>>, l: nat, mk: Kmer, i: int) -> int {
    seg_start(segs, l, mk.segment_index as int) + mk.position - i
}

/// The candidate reached through the k-window `mk`, matched at offset `i` of
/// the node's window, is recorded when it fits its segment, is not the node
/// itself and is within distance `d`.
pub open spec fn covered(
    segs: Seq<Seq<char>>,
    l: nat,
    d: nat,
    me: Kmer,
    dist: Map<usize, usize>,
    mk: Kmer,
    i: int,
) -> bool {
    let p2 = mk.position - i;
    (i <= mk.position && p2 + l <= segs[mk.segment_index as int].len() && cand_time(segs, l, mk, i)
        != me.creation_time && hamming(
        locus_window(segs, l, me),
        segs[mk.segment_index as int].subrange(p2, p2 + l),
    ) <= d) ==> dist.contains_key(cand_time(segs, l, mk, i) as usize)
}

/// Every recorded neighbour is a true neighbour at its true distance.
pub open spec fn dist_sound(segs: Seq<Seq<char>>, k: nat, l: nat, d: nat, me: Kmer, dist: Map<usize, usize>) -> bool {
    let loci = all_loci(segs, l);
    forall|x: usize|
        #[trigger] dist.contains_key(x) ==> {
            &&& x < loci.len()
            &&& is_neighbor(segs, k, l, d, me, loci[x as int])
            &&& dist[x] == hamming(locus_window(segs, l, me), locus_window(segs, l, loci[x as int]))
        }
}

/// Every neighbour sharing an aligned k-window at an offset below `n` is recorded.
pub open spec fn dist_complete_upto(
    segs: Seq<Seq<char>>,
    k: nat,
    l: nat,
    d: nat,
    me: Kmer,
    dist: Map<usize, usize>,
    n: int,
) -> bool {
    let loci = all_loci(segs, l);
    forall|x: usize, i2: int|
        x < loci.len() && 0 <= i2 < n && #[trigger] aligned_at(segs, k, me, loci[x as int], i2)
            && loci[x as int].creation_time != me.creation_time && hamming(
            locus_window(segs, l, me),
            locus_window(segs, l, loci[x as int]),
        ) <= d ==> dist.contains_key(x)
}

/// Builds the node of the l-window `me`: the candidates are the l-windows
/// that share an aligned k-window with it; those within distance `d` are kept.
fn build_node(kt: &DNAHashTable, nt: &DNAHashTable, me: Kmer, d: usize) -> (r: ReferenceRead)
    requires
        kt.wf(),
        nt.wf(),
        nt.segs() == kt.segs(),
        kt.k <= nt.k,
        nt.k <= usize::MAX / 4,
        me.creation_time < all_loci(kt.segs(), nt.k as nat).len(),
        me == all_loci(kt.segs(), nt.k as nat)[me.creation_time as int],
    ensures
        r.node_ok(kt.segs(), kt.k as nat, nt.k as nat, d as nat, me),
{
    let ghost segs = kt.segs();
    let k = kt.k;
    let l = nt.k;
    let ghost lloci = all_loci(segs, l as nat);
    proof {
        lemma_all_loci(segs, l as nat);
        lemma_all_loci(segs, k as nat);
        assert(locus_ok(segs, l as nat, me));
    }
    let seg = &kt.segments[me.segment_index];
    assert(seg@ == segs[me.segment_index as int]);
    let seg_len = seg.len();
    let lmer = sub_chars(seg, me.position, l);
    let mut near = empty_near(l);
    let mut dist: HashMap<usize, usize> = HashMap::new();
    let nk = l - k + 1;
    proof {
        let e = Seq::<usize>::empty();
        assert(reached_upto(segs, k as nat, l as nat, me, 0) == e);
        assert(first_seen(e) == e);
        assert(keep_within(e, segs, l as nat, d as nat, me) == e);
        assert forall|b: int, o: int| 0 <= b < 4 && 0 <= o < l implies #[trigger] near_seqs(near@)[b][o] == listed(e, segs, l as nat, me, b, o) by {
            assert(near_seqs(near@)[b][o] =~= e);
        }
    }
    for i in 0..nk
        invariant
            kt.wf(),
            nt.wf(),
            segs == kt.segs(),
            segs == nt.segs(),
            k == kt.k,
            l == nt.k,
            k <= l,
            l <= usize::MAX / 4,
            nk == l - k + 1,
            lloci == all_loci(segs, l as nat),
            me.creation_time < lloci.len(),
            me == lloci[me.creation_time as int],
            locus_ok(segs, l as nat, me),
            seg@ == segs[me.segment_index as int],
            seg@.len() == seg_len,
            lmer@ == locus_window(segs, l as nat, me),
            lmer@.len() == l,
            near_shape(near@, l as nat),
            near_ok(segs, l as nat, me, dist@, near_seqs(near@)),
            dist_sound(segs, k as nat, l as nat, d as nat, me, dist@),
            dist_complete_upto(segs, k as nat, l as nat, d as nat, me, dist@, i as int),
            order_ok(
                segs,
                l as nat,
                me,
                near_seqs(near@),
                dist@,
                keep_within(first_seen(reached_upto(segs, k as nat, l as nat, me, i as int)), segs, l as nat, d as nat, me),
            ),
    {
        let w = sub_chars(seg, me.position + i, k);
        let ghost occ = occurrences(all_loci(segs, k as nat), segs, k as nat, w@);
        let ghost before = reached_upto(segs, k as nat, l as nat, me, i as int);
        let ghost bk = kt.bucket_spec(kt.hash_of(w@) as int);
        let ghost mp = match_positions(bk, segs, k as nat, w@);
        proof {
            kt.lemma_entries(kt.hash_of(w@) as int);
            lemma_match_positions(bk, segs, k as nat, w@);
            kt.lemma_lookup_finds_every_occurrence(w@);
            assert(w@ == kmer_at(segs, k as nat, me, i as int));
            assert(reached_upto(segs, k as nat, l as nat, me, i + 1) == before + reached_from(occ, segs, l as nat, me, i as int));
            assert(occ.take(0) == Seq::<Kmer>::empty());
            assert(before + reached_from(occ.take(0), segs, l as nat, me, i as int) == before);
        }
        match kt.lookup(&w) {
            Some((bucket, idx)) => {
                for t in 0..idx.len()
                    invariant
                        kt.wf(),
                        nt.wf(),
                        segs == kt.segs(),
                        segs == nt.segs(),
                        k == kt.k,
                        l == nt.k,
                        k <= l,
                        l <= usize::MAX / 4,
                        i < nk,
                        nk == l - k + 1,
                        lloci == all_loci(segs, l as nat),
                        me.creation_time < lloci.len(),
                        me == lloci[me.creation_time as int],
                        locus_ok(segs, l as nat, me),
                        lmer@ == locus_window(segs, l as nat, me),
                        lmer@.len() == l,
                        w@ == segs[me.segment_index as int].subrange(me.position + i, me.position + i + k),
                        bucket@ == bk,
                        idx@ == mp,
                        forall|v: int| 0 <= v < bk.len() ==> locus_ok(segs, k as nat, #[trigger] bk[v]),
                        forall|v: int|
                            0 <= v < mp.len() ==> {
                                let x = #[trigger] mp[v];
                                &&& x < bk.len()
                                &&& locus_window(segs, k as nat, bk[x as int]) == w@
                            },
                        near_shape(near@, l as nat),
                        near_ok(segs, l as nat, me, dist@, near_seqs(near@)),
                        dist_sound(segs, k as nat, l as nat, d as nat, me, dist@),
                        dist_complete_upto(segs, k as nat, l as nat, d as nat, me, dist@, i as int),
                        occ == occurrences(all_loci(segs, k as nat), segs, k as nat, w@),
                        mp.len() == occ.len(),
                        forall|v: int| 0 <= v < mp.len() ==> bk[#[trigger] mp[v] as int] == occ[v],
                        order_ok(
                            segs,
                            l as nat,
                            me,
                            near_seqs(near@),
                            dist@,
                            keep_within(
                                first_seen(before + reached_from(occ.take(t as int), segs, l as nat, me, i as int)),
                                segs,
                                l as nat,
                                d as nat,
                                me,
                            ),
                        ),
                        forall|v: int|
                            0 <= v < t ==> covered(
                                segs,
                                l as nat,
                                d as nat,
                                me,
                                dist@,
                                #[trigger] bk[mp[v] as int],
                                i as int,
                            ),
                {
                    let mk = bucket[idx[t]];
                    assert(locus_ok(segs, k as nat, mk));
                    let seg2 = &kt.segments[mk.segment_index];
                    assert(seg2@ == segs[mk.segment_index as int]);
                    let seg2_len = seg2.len();
                    let ghost dist0 = dist@;
                    let ghost near0 = near_seqs(near@);
                    let ghost cur = before + reached_from(occ.take(t as int), segs, l as nat, me, i as int);
                    proof {
                        assert(mk == occ[t as int]);
                        assert(occ.take(t + 1).drop_last() == occ.take(t as int));
                        assert(occ.take(t + 1).last() == mk);
                        assert(before + reached_from(occ.take(t + 1), segs, l as nat, me, i as int) == if i <= mk.position && mk.position - i + l <= segs[mk.segment_index as int].len() && cand_time(segs, l as nat, mk, i as int) != me.creation_time {
                            cur.push(cand_time(segs, l as nat, mk, i as int) as usize)
                        } else {
                            cur
                        });
                    }
                    if i <= mk.position && l <= seg2_len && mk.position - i <= seg2_len - l {
                        let p2 = mk.position - i;
                        let cand = sub_chars(seg2, p2, l);
                        let x = DNAReadGraph::lmer_index_of(nt, mk.segment_index, p2, &cand);
                        proof {
                            lemma_all_loci(segs, l as nat);
                            lemma_window_time_bound(segs, l as nat, mk.segment_index as int, p2 as int);
                            assert(lloci[x as int] == locus_at(segs, l as nat, mk.segment_index as int, p2 as int));
                            assert(cand@ == locus_window(segs, l as nat, lloci[x as int]));
                            assert(x == cand_time(segs, l as nat, mk, i as int));
                        }
                        if !(p2 == me.position && mk.segment_index == me.segment_index) {
                            assert(x != me.creation_time);
                            if !dist.contains_key(&x) {
                                let dx = distance_capped(&lmer, &cand, d);
                                if dx > d {
                                    proof {
                                        lemma_order_skip(segs, l as nat, d as nat, me, near0, dist0, cur, x);
                                    }
                                }
                                if dx <= d {
                                    add_neighbor(
                                        &mut near,
                                        &mut dist,
                                        x,
                                        dx,
                                        &lmer,
                                        &cand,
                                        Ghost(segs),
                                        Ghost(l as nat),
                                        Ghost(me),
                                    );
                                    proof {
                                        lemma_order_add(segs, l as nat, d as nat, me, near0, near_seqs(near@), dist0, cur, x, dx);
                                        let m2 = lloci[x as int];
                                        assert(aligned_at(segs, k as nat, me, m2, i as int));
                                        assert(shares_kmer(segs, k as nat, l as nat, me, m2));
                                        assert(is_neighbor(segs, k as nat, l as nat, d as nat, me, m2));
                                    }
                                }
                            } else {
                                proof {
                                    lemma_order_skip(segs, l as nat, d as nat, me, near0, dist0, cur, x);
                                }
                            }
                        } else {
                            assert(x == me.creation_time);
                        }
                    }
                    assert(covered(segs, l as nat, d as nat, me, dist@, bk[mp[t as int] as int], i as int));
                }
                assert(occ.take(occ.len() as int) == occ);
            },
            None => {
                assert(occ.len() == 0);
                assert(occ == Seq::<Kmer>::empty());
                assert(reached_from(occ, segs, l as nat, me, i as int) == Seq::<usize>::empty());
                assert(before + Seq::<usize>::empty() == before);
            },
        }
        proof {
            assert forall|x: usize, i2: int|
                x < lloci.len() && 0 <= i2 < i + 1 && #[trigger] aligned_at(segs, k as nat, me, lloci[x as int], i2)
                    && lloci[x as int].creation_time != me.creation_time && hamming(
                    locus_window(segs, l as nat, me),
                    locus_window(segs, l as nat, lloci[x as int]),
                ) <= d implies dist@.contains_key(x) by {
                if i2 == i {
                    lemma_all_loci(segs, l as nat);
                    let m2 = lloci[x as int];
                    assert(locus_ok(segs, l as nat, m2));
                    let u = kt.lemma_window_found(m2.segment_index as int, m2.position + i);
                    let mk = bk[mp[u] as int];
                    assert(mk == locus_at(segs, k as nat, m2.segment_index as int, m2.position + i));
                    assert(covered(segs, l as nat, d as nat, me, dist@, mk, i as int));
                    assert(cand_time(segs, l as nat, mk, i as int) == x);
                }
            }
        }
    }
    proof {
        assert forall|x: usize| #[trigger] dist@.contains_key(x) <==> (x < lloci.len() && is_neighbor(
            segs,
            k as nat,
            l as nat,
            d as nat,
            me,
            lloci[x as int],
        )) by {
            if x < lloci.len() && is_neighbor(segs, k as nat, l as nat, d as nat, me, lloci[x as int]) {
                let i2 = choose|i2: int| 0 <= i2 <= l - k && #[trigger] aligned_at(segs, k as nat, me, lloci[x as int], i2);
            }
        }
        assert(discovered(segs, k as nat, l as nat, d as nat, me) == keep_within(
            first_seen(reached_upto(segs, k as nat, l as nat, me, nk as int)),
            segs,
            l as nat,
            d as nat,
            me,
        ));
    }
    ReferenceRead { lmer: me, near_reads: near, read_distances: dist }
}

/// The substitution list for nucleotide `c` at offset `o`; empty for anything
/// but a nucleotide.
pub open spec fn slot_list(near: Seq<Seq<Seq<usize>>>, c: char, o: usize) -> Seq<usize> {
    match base_slot(c) {
        Some(b) => near[b][o as int],
        None => Seq::empty(),
    }
}

/// The neighbours listed for each difference `(o, read[o])`, concatenated
/// in the order of `ps`.
pub open spec fn candidates(near: Seq<Seq<Seq<usize>>>, ps: Seq<usize>, read: Seq<char>) -> Seq<usize>
    decreases ps.len(),
{
    if ps.len() == 0 {
        Seq::empty()
    } else {
        candidates(near, ps.drop_last(), read) + slot_list(near, read[ps.last() as int], ps.last())
    }
}

/// The estimated distance from the read to a neighbour at distance `dx`
/// from the anchor that resolves `m` of the read's `init` differences.
pub open spec fn candidate_distance(init: nat, dx: nat, m: nat) -> int {
    init + dx - m
}

/// A neighbour is gathered at most once per difference of the read.
proof fn lemma_candidates_count(near: Seq<Seq<Seq<usize>>>, ps: Seq<usize>, read: Seq<char>, l: nat, x: usize)
    requires
        forall|b: int, o: int| 0 <= b < 4 && 0 <= o < l ==> (#[trigger] near[b][o]).no_duplicates(),
        forall|t: int| 0 <= t < ps.len() ==> #[trigger] ps[t] < l,
    ensures
        candidates(near, ps, read).to_multiset().count(x) <= ps.len(),
    decreases ps.len(),
{
    broadcast use vstd::multiset::group_multiset_axioms;

    if ps.len() > 0 {
        let d = ps.drop_last();
        assert forall|t: int| 0 <= t < d.len() implies #[trigger] d[t] < l by {
            assert(d[t] == ps[t]);
        }
        lemma_candidates_count(near, d, read, l, x);
        let o = ps.last();
        assert(ps[ps.len() - 1] == o);
        let a = candidates(near, d, read);
        let sl = slot_list(near, read[o as int], o);
        vstd::seq_lib::lemma_multiset_commutative(a, sl);
        assert(sl.no_duplicates());
        sl.lemma_multiset_has_no_duplicates();
        sl.to_multiset_ensures();
        assert(sl.to_multiset().count(x) <= 1);
        assert(candidates(near, ps, read) == a + sl);
    } else {
        let e = candidates(near, ps, read);
        e.to_multiset_ensures();
        assert(!e.contains(x));
    }
}

/// The reads as character sequences.
pub open spec fn read_views(reads: Seq<String>) -> Seq<Seq<char>> {
    reads.map_values(|r: String| r@)
}

/// Every element of `s` is a recorded neighbour below `n`.
pub open spec fn all_listed(dist: Map<usize, usize>, n: nat, s: Seq<usize>) -> bool {
    forall|t: int| 0 <= t < s.len() ==> dist.contains_key(#[trigger] s[t]) && s[t] < n
}

/// Scanning `order` from the anchor `(init, c0)`, the candidate with the
/// least estimated distance; a later one wins only when strictly closer.
pub open spec fn refine(
    order: Seq<usize>,
    tally: Multiset<usize>,
    dist: Map<usize, usize>,
    init: nat,
    c0: usize,
) -> (int, usize)
    decreases order.len(),
{
    if order.len() == 0 {
        (init as int, c0)
    } else {
        let prev = refine(order.drop_last(), tally, dist, init, c0);
        let x = order.last();
        let cd = candidate_distance(init, dist[x] as nat, tally.count(x));
        if cd < prev.0 {
            (cd, x)
        } else {
            prev
        }
    }
}

/// The scan ends on the anchor or on one of the scanned candidates.
proof fn lemma_refine_member(order: Seq<usize>, tally: Multiset<usize>, dist: Map<usize, usize>, init: nat, c0: usize)
    ensures
        refine(order, tally, dist, init, c0).1 == c0 || order.contains(refine(order, tally, dist, init, c0).1),
    decreases order.len(),
{
    if order.len() > 0 {
        let d = order.drop_last();
        lemma_refine_member(d, tally, dist, init, c0);
        let b = refine(d, tally, dist, init, c0).1;
        if b != c0 && d.contains(b) {
            let w = choose|w: int| 0 <= w < d.len() && d[w] == b;
            assert(order[w] == b);
        }
        assert(order[order.len() - 1] == order.last());
    }
}

/// Every candidate gathered through the substitution lists is a recorded
/// neighbour.
proof fn lemma_candidates_listed(
    segs: Seq<Seq<char>>,
    l: nat,
    me: Kmer,
    dist: Map<usize, usize>,
    near: Seq<Seq<Seq<usize>>>,
    ps: Seq<usize>,
    read: Seq<char>,
)
    requires
        near_ok(segs, l, me, dist, near),
        forall|t: int| 0 <= t < ps.len() ==> #[trigger] ps[t] < l,
    ensures
        all_listed(dist, all_loci(segs, l).len(), candidates(near, ps, read)),
    decreases ps.len(),
{
    if ps.len() > 0 {
        let d = ps.drop_last();
        assert forall|t: int| 0 <= t < d.len() implies #[trigger] d[t] < l by {
            assert(d[t] == ps[t]);
        }
        lemma_candidates_listed(segs, l, me, dist, near, d, read);
        let o = ps.last();
        assert(ps[ps.len() - 1] == o);
        let a = candidates(near, d, read);
        let sl = slot_list(near, read[o as int], o);
        let all = a + sl;
        assert forall|t: int| 0 <= t < all.len() implies dist.contains_key(#[trigger] all[t]) && all[t] < all_loci(segs, l).len() by {
            if t >= a.len() {
                assert(all[t] == sl[t - a.len()]);
                if let Some(b) = base_slot(read[o as int]) {
                    assert(near[b][o as int].contains(sl[t - a.len()]));
                }
            }
        }
    }
}

/// One node of the graph: an l-window and its neighbours.
pub struct ReferenceRead {
    /// The l-window of this node.
    pub lmer: Kmer,
    /// `near_reads[b][o]`: the neighbours reached by putting nucleotide `b`
    /// (A, C, G, T) at offset `o`, by creation time.
    pub near_reads: Vec<Vec<Vec<usize>>>,
    /// The Hamming distance to each neighbour, by creation time.
    pub read_distances: HashMap<usize, usize>,
}

impl ReferenceRead {
    /// The substitution lists as sequences.
    pub open spec fn near_view(&self) -> Seq<Seq<Seq<usize>>> {
        near_seqs(self.near_reads@)
    }

    /// A well-formed node for the window `me`.
    pub open spec fn node_ok(&self, segs: Seq<Seq<char>>, k: nat, l: nat, d: nat, me: Kmer) -> bool {
        &&& self.lmer == me
        &&& self.near_reads@.len() == 4
        &&& forall|b: int| 0 <= b < 4 ==> (#[trigger] self.near_reads@[b])@.len() == l
        &&& dist_ok(segs, k, l, d, me, self.read_distances@)
        &&& near_ok(segs, l, me, self.read_distances@, self.near_view())
        &&& forall|b: int, o: int|
            0 <= b < 4 && 0 <= o < l ==> #[trigger] self.near_view()[b][o] == listed(
                discovered(segs, k, l, d, me),
                segs,
                l,
                me,
                b,
                o,
            )
    }
}

/// The neighbour graph over the l-windows, with the two indexes it was built from.
pub struct DNAReadGraph {
    /// One node per l-window, indexed by creation time.
    pub nodes: Vec<ReferenceRead>,
    /// The index of the l-windows.
    pub node_hash_table: DNAHashTable,
    /// The index of the k-windows.
    pub kmer_hash_table: DNAHashTable,
    /// The largest distance between neighbours.
    pub d: usize,
}

impl DNAReadGraph {
    pub open spec fn segs(&self) -> Seq<Seq<char>> {
        self.kmer_hash_table.segs()
    }

    pub open spec fn k(&self) -> nat {
        self.kmer_hash_table.k as nat
    }

    pub open spec fn l(&self) -> nat {
        self.node_hash_table.k as nat
    }

    /// The l-windows, indexed by creation time.
    pub open spec fn lmers(&self) -> Seq<Kmer> {
        all_loci(self.segs(), self.l())
    }

    /// Both indexes are intact over the same segments, and node `c` is the
    /// l-window created at time `c` with exactly its neighbours.
    pub open spec fn wf(&self) -> bool {
        &&& self.kmer_hash_table.wf()
        &&& self.node_hash_table.wf()
        &&& self.node_hash_table.segs() == self.segs()
        &&& self.k() <= self.l()
        &&& self.l() <= usize::MAX / 4
        &&& self.l() * self.lmers().len() < usize::MAX
        &&& self.nodes@.len() == self.lmers().len()
        &&& forall|c: int|
            0 <= c < self.nodes@.len() ==> (#[trigger] self.nodes@[c]).node_ok(
                self.segs(),
                self.k(),
                self.l(),
                self.d as nat,
                self.lmers()[c],
            )
    }

    /// Builds both indexes over `segments` (windows of length `k` and `l`)
    /// and one node per l-window, in creation-time order, linking the windows
    /// within Hamming distance `d` that share an aligned k-window.
    pub fn new(segments: &Vec<String>, l: usize, k: usize, d: usize) -> (r: DNAReadGraph)
        requires
            indexable(seg_views(segments@), k as nat),
            indexable(seg_views(segments@), l as nat),
            k <= l,
            l <= usize::MAX / 4,
            l * total_windows(seg_views(segments@), l as nat) < usize::MAX,
        ensures
            r.wf(),
            r.segs() == seg_views(segments@),
            r.k() == k,
            r.l() == l,
            r.d == d,
    {
        let kmer_hash_table = DNAHashTable::new(segments, k);
        let node_hash_table = DNAHashTable::new(segments, l);
        let ghost segs = kmer_hash_table.segs();
        let ghost lloci = all_loci(segs, l as nat);
        let mut nodes: Vec<ReferenceRead> = Vec::new();
        let mut creation_time: usize = 0;
        let n_segs = kmer_hash_table.segments.len();
        proof {
            lemma_all_loci(segs, l as nat);
            assert(segs.take(0) == Seq::<Seq<char>>::empty());
        }
        for s in 0..n_segs
            invariant
                kmer_hash_table.wf(),
                node_hash_table.wf(),
                segs == kmer_hash_table.segs(),
                segs == node_hash_table.segs(),
                kmer_hash_table.k == k,
                node_hash_table.k == l,
                k <= l,
                l <= usize::MAX / 4,
                n_segs == segs.len(),
                lloci == all_loci(segs, l as nat),
                creation_time == seg_start(segs, l as nat, s as int),
                nodes@.len() == creation_time,
                forall|c: int|
                    0 <= c < nodes@.len() ==> (#[trigger] nodes@[c]).node_ok(
                        segs,
                        k as nat,
                        l as nat,
                        d as nat,
                        lloci[c],
                    ),
        {
            proof {
                assert(l <= segs[s as int].len());
                crate::dna_hash_table::lemma_seg_start_step(segs, l as nat, s as int);
            }
            let n = kmer_hash_table.segments[s].len() - l + 1;
            for p in 0..n
                invariant
                    kmer_hash_table.wf(),
                    node_hash_table.wf(),
                    segs == kmer_hash_table.segs(),
                    segs == node_hash_table.segs(),
                    kmer_hash_table.k == k,
                    node_hash_table.k == l,
                    k <= l,
                    l <= usize::MAX / 4,
                    0 <= s < segs.len(),
                    n == segs[s as int].len() - l + 1,
                    lloci == all_loci(segs, l as nat),
                    creation_time == seg_start(segs, l as nat, s as int) + p,
                    nodes@.len() == creation_time,
                    forall|c: int|
                        0 <= c < nodes@.len() ==> (#[trigger] nodes@[c]).node_ok(
                            segs,
                            k as nat,
                            l as nat,
                            d as nat,
                            lloci[c],
                        ),
            {
                proof {
                    lemma_all_loci(segs, l as nat);
                    lemma_window_time_bound(segs, l as nat, s as int, p as int);
                    assert(lloci[creation_time as int] == locus_at(segs, l as nat, s as int, p as int));
                }
                let me = Kmer { segment_index: s, position: p, creation_time };
                let node = build_node(&kmer_hash_table, &node_hash_table, me, d);
                nodes.push(node);
                creation_time = creation_time + 1;
            }
        }
        proof {
            assert(segs.take(segs.len() as int) == segs);
            lemma_all_loci(segs, l as nat);
        }
        DNAReadGraph { nodes, node_hash_table, kmer_hash_table, d }
    }

    /// Where a read is placed: the segment of the graph node nearest to it,
    /// starting from the anchor that the k-window vote gives. `None` when the
    /// vote finds no placement, when the anchor's l-window runs past its
    /// segment, or when the read is too long for the vote counter.
    pub open spec fn locate_spec(&self, read: Seq<char>) -> Option<usize> {
        if !self.kmer_hash_table.vote_room(read.len()) {
            None
        } else {
            match self.kmer_hash_table.most_likely_position(read) {
                None => None,
                Some(v) => if v.1 + self.l() > self.segs()[v.0 as int].len() {
                    None
                } else {
                    let c0 = seg_start(self.segs(), self.l(), v.0 as int) + v.1;
                    let node = self.nodes@[c0];
                    let w = locus_window(self.segs(), self.l(), node.lmer);
                    let cands = candidates(node.near_view(), diff_positions(w, read), read);
                    let best = refine(
                        first_seen(cands),
                        cands.to_multiset(),
                        node.read_distances@,
                        hamming(w, read),
                        c0 as usize,
                    ).1;
                    Some(self.nodes@[best as int].lmer.segment_index)
                },
            }
        }
    }

    /// Places `read` on a segment; see `locate_spec`. `l` is the graph's
    /// window length and `segments` the segments it was built over.
    pub fn get_read_graph_segment_index(&self, segments: &Vec<String>, read: &str, l: usize) -> (r: Option<usize>)
        requires
            self.wf(),
            l == self.l(),
        ensures
            r == self.locate_spec(read@),
    {
        let rv = chars_of(read);
        self.locate(&rv)
    }

    /// Places a read given as characters; see `locate_spec`.
    pub fn locate(&self, read: &Vec<char>) -> (r: Option<usize>)
        requires
            self.wf(),
        ensures
            r == self.locate_spec(read@),
            r matches Some(s) ==> s < self.segs().len(),
    {
        broadcast use vstd::seq_lib::group_to_multiset_ensures;

        if !self.kmer_hash_table.has_vote_room(read.len()) {
            return None;
        }
        let anchor = self.kmer_hash_table.vote_position(read);
        proof {
            self.kmer_hash_table.lemma_position_valid(read@);
        }
        match anchor {
            None => None,
            Some((s, p)) => {
                let ghost segs = self.segs();
                let l = self.node_hash_table.k;
                let seg = &self.node_hash_table.segments[s];
                assert(seg@ == segs[s as int]);
                let seg_len = seg.len();
                if l > seg_len || p > seg_len - l {
                    return None;
                }
                let lmer = sub_chars(seg, p, l);
                let c0 = DNAReadGraph::lmer_index_of(&self.node_hash_table, s, p, &lmer);
                let ghost lloci = self.lmers();
                let ghost n_nodes = lloci.len();
                proof {
                    lemma_all_loci(segs, l as nat);
                    lemma_window_time_bound(segs, l as nat, s as int, p as int);
                    assert(lloci[c0 as int] == locus_at(segs, l as nat, s as int, p as int));
                    assert(self.nodes@[c0 as int].node_ok(segs, self.k(), self.l(), self.d as nat, lloci[c0 as int]));
                }
                let node = &self.nodes[c0];
                let ghost near = node.near_view();
                let ghost dist = node.read_distances@;
                assert(lmer@ == locus_window(segs, l as nat, node.lmer));
                proof {
                    lemma_hamming_bound(lmer@, read@);
                }
                let init = distance_capped(&lmer, read, l);
                let (ps, cs) = differences(&lmer, read);
                proof {
                    lemma_diff_positions(lmer@, read@, common_len(lmer@, read@));
                }
                let mut tally = new_node_tally();
                let mut order: Vec<usize> = Vec::new();
                assert(ps@.take(0) == Seq::<usize>::empty());
                for u in 0..ps.len()
                    invariant
                        self.wf(),
                        segs == self.segs(),
                        lloci == self.lmers(),
                        n_nodes == lloci.len(),
                        l == self.l(),
                        l * n_nodes < usize::MAX,
                        ps@ == diff_positions(lmer@, read@),
                        cs@ == chars_at(read@, ps@),
                        ps@.len() <= l,
                        forall|t: int| 0 <= t < ps@.len() ==> #[trigger] ps@[t] < l,
                        near == node.near_view(),
                        dist == node.read_distances@,
                        node.node_ok(segs, self.k(), self.l(), self.d as nat, lloci[c0 as int]),
                        node_tally(tally) == candidates(near, ps@.take(u as int), read@).to_multiset(),
                        order@ == first_seen(candidates(near, ps@.take(u as int), read@)),
                        candidates(near, ps@.take(u as int), read@).len() <= u * n_nodes,
                        all_listed(dist, n_nodes, candidates(near, ps@.take(u as int), read@)),
                {
                    let o = ps[u];
                    let c = cs[u];
                    let ghost before = candidates(near, ps@.take(u as int), read@);
                    let slot: usize = match c {
                        'A' => 0,
                        'C' => 1,
                        'G' => 2,
                        'T' => 3,
                        _ => 4,
                    };
                    proof {
                        assert(ps@.take(u + 1).drop_last() == ps@.take(u as int));
                        assert(c == read@[o as int]);
                        assert(candidates(near, ps@.take(u + 1), read@) == before + slot_list(near, c, o));
                        assert((u + 1) * n_nodes == u * n_nodes + n_nodes) by (nonlinear_arith);
                        assert(u * n_nodes + n_nodes <= l * n_nodes) by (nonlinear_arith)
                            requires
                                u < ps@.len(),
                                ps@.len() <= l,
                        ;
                    }
                    if slot < 4 {
                        let list = &node.near_reads[slot][o];
                        assert(list@ == near[slot as int][o as int]);
                        assert(slot_list(near, c, o) == list@);
                        proof {
                            assert forall|t: int| 0 <= t < list@.len() implies #[trigger] list@[t] < n_nodes by {
                                assert(near[slot as int][o as int].contains(list@[t]));
                            }
                            lemma_distinct_below(list@, n_nodes);
                        }
                        for v in 0..list.len()
                            invariant
                                n_nodes == lloci.len(),
                                l * n_nodes < usize::MAX,
                                before.len() + list@.len() <= l * n_nodes,
                                list@ == near[slot as int][o as int],
                                0 <= slot < 4,
                                o < l,
                                near == node.near_view(),
                                dist == node.read_distances@,
                                node.node_ok(segs, self.k(), self.l(), self.d as nat, lloci[c0 as int]),
                                node_tally(tally) == (before + list@.take(v as int)).to_multiset(),
                                order@ == first_seen(before + list@.take(v as int)),
                                all_listed(dist, n_nodes, before),
                        {
                            let y = list[v];
                            let ghost cur = before + list@.take(v as int);
                            proof {
                                assert(near[slot as int][o as int].contains(y));
                                assert(before + list@.take(v + 1) == cur.push(y));
                                cur.to_multiset_ensures();
                                lemma_first_seen_push(cur, y);
                            }
                            if node_count(&tally, y) == 0 {
                                order.push(y);
                            }
                            add_node(&mut tally, y);
                        }
                        proof {
                            assert(list@.take(list@.len() as int) == list@);
                            let all = before + list@;
                            assert forall|t: int| 0 <= t < all.len() implies dist.contains_key(#[trigger] all[t]) && all[t] < n_nodes by {
                                if t >= before.len() {
                                    assert(all[t] == list@[t - before.len()]);
                                    assert(near[slot as int][o as int].contains(list@[t - before.len()]));
                                }
                            }
                        }
                    } else {
                        assert(slot_list(near, c, o) == Seq::<usize>::empty());
                        assert(before + Seq::<usize>::empty() == before);
                    }
                }
                assert(ps@.take(ps@.len() as int) == ps@);
                let ghost cands = candidates(near, ps@, read@);
                proof {
                    assert forall|v: int| 0 <= v < order@.len() implies dist.contains_key(#[trigger] order@[v]) && order@[v] < n_nodes by {
                        assert(first_seen(cands).contains(order@[v]));
                        crate::tally::lemma_first_seen_member(cands, order@[v]);
                        let w = choose|w: int| 0 <= w < cands.len() && cands[w] == order@[v];
                        assert(dist.contains_key(cands[w]));
                    }
                }
                proof {
                    assert forall|x: usize| cands.to_multiset().count(x) <= init by {
                        lemma_candidates_count(near, ps@, read@, l as nat, x);
                    }
                }
                let mut best_d: usize = init;
                let mut best: usize = c0;
                assert(order@.take(0) == Seq::<usize>::empty());
                for t in 0..order.len()
                    invariant
                        self.wf(),
                        segs == self.segs(),
                        lloci == self.lmers(),
                        n_nodes == lloci.len(),
                        l == self.l(),
                        l <= usize::MAX / 4,
                        init <= l,
                        c0 < n_nodes,
                        dist == node.read_distances@,
                        node.node_ok(segs, self.k(), self.l(), self.d as nat, lloci[c0 as int]),
                        node_tally(tally) == cands.to_multiset(),
                        order@ == first_seen(cands),
                        all_listed(dist, n_nodes, order@),
                        (best_d as int, best) == refine(order@.take(t as int), cands.to_multiset(), dist, init as nat, c0),
                        init == hamming(lmer@, read@),
                        forall|x: usize| cands.to_multiset().count(x) <= init,
                        best < n_nodes,
                {
                    let y = order[t];
                    let dy: usize = match node.read_distances.get(&y) {
                        Some(v) => *v,
                        None => 0,
                    };
                    proof {
                        lemma_all_loci(segs, l as nat);
                        lemma_hamming_bound(locus_window(segs, l as nat, lloci[c0 as int]), locus_window(segs, l as nat, lloci[y as int]));
                        assert(order@.take(t + 1).drop_last() == order@.take(t as int));
                    }
                    assert(dy <= l);
                    let m = node_count(&tally, y);
                    assert(m <= init);
                    let cd: usize = init + dy - m;
                    if cd < best_d {
                        best_d = cd;
                        best = y;
                    }
                }
                assert(order@.take(order@.len() as int) == order@);
                proof {
                    lemma_all_loci(segs, l as nat);
                    assert(self.nodes@[best as int].node_ok(segs, self.k(), self.l(), self.d as nat, lloci[best as int]));
                    assert(locus_ok(segs, l as nat, lloci[best as int]));
                }
                Some(self.nodes[best].lmer.segment_index)
            },
        }
    }

    /// Two distinct l-windows with the same text are each other's neighbours
    /// at distance 0, and neither is listed under any substitution of the
    /// other.
    pub proof fn lemma_duplicate_windows(&self, a: int, b: int)
        requires
            self.wf(),
            0 <= a < self.nodes@.len(),
            0 <= b < self.nodes@.len(),
            a != b,
            locus_window(self.segs(), self.l(), self.lmers()[a]) == locus_window(
                self.segs(),
                self.l(),
                self.lmers()[b],
            ),
        ensures
            self.nodes@[a].read_distances@.contains_key(b as usize),
            self.nodes@[a].read_distances@[b as usize] == 0,
            self.nodes@[b].read_distances@.contains_key(a as usize),
            self.nodes@[b].read_distances@[a as usize] == 0,
            forall|x: int, o: int|
                0 <= x < 4 && 0 <= o < self.l() ==> !(#[trigger] self.nodes@[a].near_view()[x][o]).contains(
                    b as usize,
                ),
            forall|x: int, o: int|
                0 <= x < 4 && 0 <= o < self.l() ==> !(#[trigger] self.nodes@[b].near_view()[x][o]).contains(
                    a as usize,
                ),
    {
        let segs = self.segs();
        let l = self.l();
        let k = self.k();
        let lloci = self.lmers();
        lemma_all_loci(segs, l);
        let ma = lloci[a];
        let mb = lloci[b];
        let w = locus_window(segs, l, ma);
        lemma_hamming_self(w);
        assert(locus_ok(segs, l, ma));
        assert(locus_ok(segs, l, mb));
        assert(aligned_at(segs, k, ma, mb, 0)) by {
            assert(segs[ma.segment_index as int].subrange(ma.position as int, ma.position + k) =~= w.subrange(0, k as int));
            assert(segs[mb.segment_index as int].subrange(mb.position as int, mb.position + k) =~= w.subrange(0, k as int));
        }
        assert(aligned_at(segs, k, mb, ma, 0));
        assert(shares_kmer(segs, k, l, ma, mb));
        assert(shares_kmer(segs, k, l, mb, ma));
        assert(self.nodes@[a].node_ok(segs, k, l, self.d as nat, ma));
        assert(self.nodes@[b].node_ok(segs, k, l, self.d as nat, mb));
        assert(lloci[a as usize as int] == ma);
        assert(lloci[b as usize as int] == mb);
        assert(is_neighbor(segs, k, l, self.d as nat, ma, mb));
        assert(self.nodes@[a].read_distances@.contains_key(b as usize));
        assert(self.nodes@[a].read_distances@[b as usize] == hamming(w, locus_window(segs, l, mb)));
        assert(is_neighbor(segs, k, l, self.d as nat, mb, ma));
        assert(self.nodes@[b].read_distances@.contains_key(a as usize));
        assert(self.nodes@[b].read_distances@[a as usize] == hamming(locus_window(segs, l, mb), w));
    }

    /// Placing the same read twice on an unchanged graph gives the same
    /// answer: what `locate` returns is determined by the graph and the read.
    pub proof fn lemma_locate_repeatable(&self, read: Seq<char>, first: Option<usize>, second: Option<usize>)
        requires
            first == self.locate_spec(read),
            second == self.locate_spec(read),
        ensures
            first == second,
    {
    }

    /// A placed read lands on an existing segment.
    pub proof fn lemma_locate_segment(&self, read: Seq<char>)
        requires
            self.wf(),
        ensures
            self.locate_spec(read) matches Some(s) ==> s < self.segs().len(),
    {
        self.kmer_hash_table.lemma_position_valid(read);
        if let Some(v) = self.kmer_hash_table.most_likely_position(read) {
            if self.kmer_hash_table.vote_room(read.len()) && v.1 + self.l() <= self.segs()[v.0 as int].len() {
                let segs = self.segs();
                let l = self.l();
                let lloci = self.lmers();
                lemma_all_loci(segs, l);
                lemma_window_time_bound(segs, l, v.0 as int, v.1 as int);
                let c0 = seg_start(segs, l, v.0 as int) + v.1;
                assert(lloci[c0] == locus_at(segs, l, v.0 as int, v.1 as int));
                let node = self.nodes@[c0];
                assert(node.node_ok(segs, self.k(), l, self.d as nat, lloci[c0]));
                let w = locus_window(segs, l, node.lmer);
                let ps = diff_positions(w, read);
                lemma_diff_positions(w, read, common_len(w, read));
                let cands = candidates(node.near_view(), ps, read);
                lemma_candidates_listed(segs, l, node.lmer, node.read_distances@, node.near_view(), ps, read);
                let order = first_seen(cands);
                assert forall|t: int| 0 <= t < order.len() implies node.read_distances@.contains_key(#[trigger] order[t]) && order[t] < lloci.len() by {
                    assert(order.contains(order[t]));
                    crate::tally::lemma_first_seen_member(cands, order[t]);
                    let u = choose|u: int| 0 <= u < cands.len() && cands[u] == order[t];
                    assert(node.read_distances@.contains_key(cands[u]));
                }
                let best = refine(order, cands.to_multiset(), node.read_distances@, hamming(w, read), c0 as usize).1;
                lemma_refine_member(order, cands.to_multiset(), node.read_distances@, hamming(w, read), c0 as usize);
                if best != c0 as usize {
                    let u = choose|u: int| 0 <= u < order.len() && order[u] == best;
                    assert(order[u] < lloci.len());
                }
                assert(self.nodes@[best as int].node_ok(segs, self.k(), l, self.d as nat, lloci[best as int]));
                assert(locus_ok(segs, l, lloci[best as int]));
            }
        }
    }

    /// How many of `reads` are placed on segment `s`.
    pub open spec fn located_count(&self, reads: Seq<Seq<char>>, s: int) -> nat
        decreases reads.len(),
    {
        if reads.len() == 0 {
            0
        } else {
            self.located_count(reads.drop_last(), s) + if self.locate_spec(reads.last()) == Some(s as usize) {
                1nat
            } else {
                0nat
            }
        }
    }

    /// Per segment index, how many of `reads` are placed there; segments that
    /// receive no read are absent.
    pub open spec fn count_map(&self, reads: Seq<Seq<char>>) -> Map<i32, i32> {
        Map::new(
            |key: i32| key >= 0 && self.located_count(reads, key as int) > 0,
            |key: i32| self.located_count(reads, key as int) as i32,
        )
    }

    pub proof fn lemma_located_count_bound(&self, reads: Seq<Seq<char>>, s: int)
        ensures
            self.located_count(reads, s) <= reads.len(),
        decreases reads.len(),
    {
        if reads.len() > 0 {
            self.lemma_located_count_bound(reads.drop_last(), s);
        }
    }

    /// Places every read and counts the reads per segment index; reads that
    /// cannot be placed are skipped. `segments` are the segments the graph
    /// was built over.
    pub fn get_read_segment_indexes(&self, segments: &Vec<String>, reads: &Vec<String>) -> (r: HashMap<i32, i32>)
        requires
            self.wf(),
            self.segs().len() <= i32::MAX,
            reads@.len() <= i32::MAX,
        ensures
            r@ == self.count_map(read_views(reads@)),
    {
        let ghost rs = read_views(reads@);
        let mut counts: HashMap<i32, i32> = HashMap::new();
        assert(rs.take(0) == Seq::<Seq<char>>::empty());
        assert(counts@ =~= self.count_map(rs.take(0)));
        for i in 0..reads.len()
            invariant
                self.wf(),
                self.segs().len() <= i32::MAX,
                reads@.len() <= i32::MAX,
                rs == read_views(reads@),
                counts@ == self.count_map(rs.take(i as int)),
        {
            let rv = chars_of(reads[i].as_str());
            let ghost before = rs.take(i as int);
            proof {
                assert(rs.take(i + 1).drop_last() == before);
                assert(rs.take(i + 1).last() == rv@);
            }
            match self.locate(&rv) {
                Some(s) => {
                    let key = s as i32;
                    proof {
                        self.lemma_located_count_bound(before, s as int);
                    }
                    let c: i32 = match counts.get(&key) {
                        Some(v) => *v,
                        None => 0,
                    };
                    assert(c == self.located_count(before, s as int));
                    counts.insert(key, c + 1);
                    assert(counts@ =~= self.count_map(rs.take(i + 1)));
                },
                None => {
                    assert(counts@ =~= self.count_map(rs.take(i + 1)));
                },
            }
        }
        assert(rs.take(reads@.len() as int) == rs);
        counts
    }

    /// Hamming distance between two windows, counted only up to `d + 1`.
    pub fn lmers_distance(lmer1: &str, lmer2: &str, d: usize) -> (r: usize)
        ensures
            r == if hamming(lmer1@, lmer2@) <= d {
                hamming(lmer1@, lmer2@) as int
            } else {
                d + 1
            },
    {
        let a = chars_of(lmer1);
        let b = chars_of(lmer2);
        distance_capped(&a, &b, d)
    }

    /// The offsets where two windows differ, ascending, and the characters of
    /// `lmer2` there. `d`, the expected number of differences, sizes the result.
    pub fn get_lmer_differences(lmer1: &str, lmer2: &str, d: usize) -> (r: (Vec<usize>, Vec<char>))
        ensures
            r.0@ == diff_positions(lmer1@, lmer2@),
            r.1@ == chars_at(lmer2@, diff_positions(lmer1@, lmer2@)),
    {
        let a = chars_of(lmer1);
        let b = chars_of(lmer2);
        differences(&a, &b)
    }

    /// The creation time of the window of `node_hash_table` that starts at
    /// `lmer_position` of segment `lmer_segment_index`, whose text is `lmer_string`.
    pub fn get_lmer_index(
        node_hash_table: &DNAHashTable,
        lmer_segment_index: usize,
        lmer_position: usize,
        lmer_string: &str,
    ) -> (r: usize)
        requires
            node_hash_table.wf(),
            lmer_segment_index < node_hash_table.segs().len(),
            lmer_position + node_hash_table.k <= node_hash_table.segs()[lmer_segment_index as int].len(),
            lmer_string@ == locus_window(
                node_hash_table.segs(),
                node_hash_table.k as nat,
                locus_at(node_hash_table.segs(), node_hash_table.k as nat, lmer_segment_index as int, lmer_position as int),
            ),
        ensures
            r == seg_start(node_hash_table.segs(), node_hash_table.k as nat, lmer_segment_index as int)
                + lmer_position,
    {
        let q = chars_of(lmer_string);
        DNAReadGraph::lmer_index_of(node_hash_table, lmer_segment_index, lmer_position, &q)
    }

    /// `get_lmer_index` on a window given as characters.
    pub fn lmer_index_of(table: &DNAHashTable, s: usize, p: usize, q: &Vec<char>) -> (r: usize)
        requires
            table.wf(),
            s < table.segs().len(),
            p + table.k <= table.segs()[s as int].len(),
            q@ == table.segs()[s as int].subrange(p as int, p + table.k),
        ensures
            r == seg_start(table.segs(), table.k as nat, s as int) + p,
    {
        let ghost segs = table.segs();
        let ghost kk = table.k as nat;
        let ghost expected = seg_start(segs, kk, s as int) + p;
        let ghost u0 = table.lemma_window_found(s as int, p as int);
        proof {
            lemma_window_time_bound(segs, kk, s as int, p as int);
            lemma_all_loci(segs, kk);
        }
        match table.lookup(q) {
            Some((bucket, idx)) => {
                proof {
                    table.lemma_entries(table.hash_of(q@) as int);
                    lemma_match_positions(bucket@, segs, kk, q@);
                }
                let mut lmer_index: usize = 0;
                let mut found: bool = false;
                for t in 0..idx.len()
                    invariant
                        table.wf(),
                        segs == table.segs(),
                        kk == table.k,
                        expected == seg_start(segs, kk, s as int) + p,
                        expected < total_windows(segs, kk),
                        bucket@ == table.bucket_spec(table.hash_of(q@) as int),
                        idx@ == match_positions(bucket@, segs, kk, q@),
                        0 <= u0 < idx@.len(),
                        bucket@[idx@[u0] as int] == locus_at(segs, kk, s as int, p as int),
                        bucket@ == table.hash_table@[table.hash_of(q@) as int]@,
                        forall|v: int|
                            0 <= v < bucket@.len() ==> locus_ok(segs, kk, #[trigger] bucket@[v]),
                        forall|v: int| 0 <= v < idx@.len() ==> #[trigger] idx@[v] < bucket@.len(),
                        found ==> lmer_index == expected,
                        t > u0 ==> found,
                {
                    let m = bucket[idx[t]];
                    if m.segment_index == s && m.position == p {
                        assert(locus_ok(segs, kk, m));
                        lmer_index = m.creation_time;
                        found = true;
                    }
                }
                lmer_index
            },
            None => {
                proof {
                    assert(false);
                }
                0
            },
        }
    }
}

} // verus!
