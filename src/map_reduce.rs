//! Placement of a batch of reads split into chunks that are processed in
//! parallel, with the per-chunk counts merged at the end.
use crate::dna_read_graph::{read_views, DNAReadGraph};
use rayon::iter::{IntoParallelRefIterator, ParallelIterator};
use std::collections::HashMap;
use vstd::prelude::*;

verus! {

broadcast use vstd::std_specs::hash::group_hash_axioms;

/// The chunks, concatenated in order.
pub open spec fn concat_all(chunks: Seq<Seq<Seq<char>>>) -> Seq<Seq<char>>
    decreases chunks.len(),
{
    if chunks.len() == 0 {
        Seq::empty()
    } else {
        concat_all(chunks.drop_last()) + chunks.last()
    }
}

/// The views of every chunk.
pub open spec fn chunk_views(chunks: Seq<Vec<String>>) -> Seq<Seq<Seq<char>>> {
    chunks.map_values(|c: Vec<String>| read_views(c@))
}

/// The reads placed on segment `s`, summed over the chunks.
pub open spec fn sum_counts(g: DNAReadGraph, chunks: Seq<Seq<Seq<char>>>, s: int) -> nat
    decreases chunks.len(),
{
    if chunks.len() == 0 {
        0
    } else {
        sum_counts(g, chunks.drop_last(), s) + g.located_count(chunks.last(), s)
    }
}

/// Counting a concatenation of reads adds the counts of its parts.
pub proof fn lemma_located_count_concat(g: DNAReadGraph, a: Seq<Seq<char>>, b: Seq<Seq<char>>, s: int)
    ensures
        g.located_count(a + b, s) == g.located_count(a, s) + g.located_count(b, s),
    decreases b.len(),
{
    if b.len() == 0 {
        assert(a + b == a);
    } else {
        lemma_located_count_concat(g, a, b.drop_last(), s);
        assert((a + b).drop_last() == a + b.drop_last());
    }
}

/// Counting the reads of all chunks together gives the sum of the per-chunk
/// counts, for every way of cutting the reads into chunks.
pub proof fn lemma_counts_merge(g: DNAReadGraph, chunks: Seq<Seq<Seq<char>>>, s: int)
    ensures
        g.located_count(concat_all(chunks), s) == sum_counts(g, chunks, s),
    decreases chunks.len(),
{
    if chunks.len() > 0 {
        lemma_counts_merge(g, chunks.drop_last(), s);
        lemma_located_count_concat(g, concat_all(chunks.drop_last()), chunks.last(), s);
    }
}

/// Splits `reads` into `n_partition` chunks of `reads.len() / n_partition`
/// reads each, in order; the remainder goes to the last chunk.
pub fn partition_reads(reads: &Vec<String>, n_partition: usize) -> (r: Vec<Vec<String>>)
    requires
        0 < n_partition <= reads@.len(),
    ensures
        r@.len() == n_partition,
        concat_all(chunk_views(r@)) == read_views(reads@),
        forall|i: int|
            0 <= i < n_partition - 1 ==> (#[trigger] r@[i])@.len() == reads@.len() / (n_partition as nat),
{
    let n = reads.len();
    let q = n / n_partition;
    let ghost rs = read_views(reads@);
    let mut chunks: Vec<Vec<String>> = Vec::new();
    let mut start: usize = 0;
    assert(chunk_views(chunks@) == Seq::<Seq<Seq<char>>>::empty());
    proof {
        assert(q * n_partition <= n) by (nonlinear_arith)
            requires
                q == n / n_partition,
                n_partition > 0,
        ;
    }
    for c in 0..n_partition
        invariant
            n == reads@.len(),
            rs == read_views(reads@),
            q == n / n_partition,
            q * n_partition <= n,
            chunks@.len() == c,
            start == if c == n_partition {
                n as int
            } else {
                c * q
            },
            start <= n,
            concat_all(chunk_views(chunks@)) == rs.subrange(0, start as int),
            forall|i: int| 0 <= i < c && i < n_partition - 1 ==> (#[trigger] chunks@[i])@.len() == q,
    {
        proof {
            assert((c + 1) * q <= n) by (nonlinear_arith)
                requires
                    c < n_partition,
                    q * n_partition <= n,
            ;
            assert((c + 1) * q == c * q + q) by (nonlinear_arith);
        }
        let end: usize = if c + 1 == n_partition {
            n
        } else {
            start + q
        };
        let mut chunk: Vec<String> = Vec::new();
        for t in start..end
            invariant
                n == reads@.len(),
                rs == read_views(reads@),
                start <= end <= n,
                read_views(chunk@) == rs.subrange(start as int, t as int),
                chunk@.len() == t - start,
        {
            let read = reads[t].clone();
            let ghost prev = chunk@;
            chunk.push(read);
            assert(read_views(chunk@) =~= rs.subrange(start as int, t + 1)) by {
                assert(read_views(prev) == rs.subrange(start as int, t as int));
            }
        }
        let ghost before = chunks@;
        chunks.push(chunk);
        proof {
            assert(chunk_views(chunks@).drop_last() == chunk_views(before));
            assert(chunk_views(chunks@).last() == read_views(chunk@));
            assert(rs.subrange(0, end as int) == rs.subrange(0, start as int) + rs.subrange(start as int, end as int));
            assert forall|i: int| 0 <= i < c + 1 && i < n_partition - 1 implies (#[trigger] chunks@[i])@.len() == q by {
                if i < c {
                    assert(chunks@[i] == before[i]);
                }
            }
        }
        start = end;
    }
    assert(rs.subrange(0, n as int) == rs);
    chunks
}

/// Relies on rayon's `par_iter().map(f).collect()` into a `Vec`: `f` runs on
/// every chunk and the results come back in chunk order. `f` is the verified
/// `DNAReadGraph::get_read_segment_indexes`, whose requirements hold for every chunk.
#[verifier::external_body]
fn count_chunks(graph: &DNAReadGraph, segments: &Vec<String>, chunks: &Vec<Vec<String>>) -> (r: Vec<HashMap<i32, i32>>)
    requires
        graph.wf(),
        graph.segs().len() <= i32::MAX,
        forall|i: int| 0 <= i < chunks@.len() ==> (#[trigger] chunks@[i])@.len() <= i32::MAX,
    ensures
        r@.len() == chunks@.len(),
        forall|i: int|
            0 <= i < chunks@.len() ==> (#[trigger] r@[i])@ == graph.count_map(read_views(chunks@[i]@)),
{
    chunks.par_iter().map(|chunk| graph.get_read_segment_indexes(segments, chunk)).collect()
}

/// Places every read, chunk by chunk in parallel, and merges the per-chunk
/// counts: the result is the same per-segment count as placing the reads one
/// by one. `segments` are the segments the graph was built over.
pub fn perform_map_reduce(
    n_partition: usize,
    segments: &Vec<String>,
    reads: &Vec<String>,
    dna_read_graph: &DNAReadGraph,
) -> (r: HashMap<i32, i32>)
    requires
        dna_read_graph.wf(),
        0 < n_partition <= reads@.len(),
        dna_read_graph.segs().len() <= i32::MAX,
        reads@.len() <= i32::MAX,
    ensures
        r@ == dna_read_graph.count_map(read_views(reads@)),
{
    let chunks = partition_reads(reads, n_partition);
    let ghost cv = chunk_views(chunks@);
    proof {
        lemma_concat_len(cv);
        assert forall|i: int| 0 <= i < chunks@.len() implies (#[trigger] chunks@[i])@.len() <= i32::MAX by {
            assert(cv[i] == read_views(chunks@[i]@));
            lemma_chunk_within(cv, i);
        }
    }
    let partial = count_chunks(dna_read_graph, segments, &chunks);
    let n_segs = dna_read_graph.kmer_hash_table.segments.len();
    let ghost rs = read_views(reads@);
    let ghost g = *dna_read_graph;
    let mut global: HashMap<i32, i32> = HashMap::new();
    for s in 0..n_segs
        invariant
            dna_read_graph.wf(),
            g == *dna_read_graph,
            n_segs == g.segs().len(),
            n_segs <= i32::MAX,
            reads@.len() <= i32::MAX,
            rs == read_views(reads@),
            cv == chunk_views(chunks@),
            concat_all(cv) == rs,
            partial@.len() == chunks@.len(),
            forall|i: int| 0 <= i < chunks@.len() ==> (#[trigger] partial@[i])@ == g.count_map(read_views(chunks@[i]@)),
            forall|key: i32| #[trigger] global@.contains_key(key) ==> 0 <= key < s,
            forall|key: i32| 0 <= key < s ==> (#[trigger] global@.contains_key(key) <==> g.count_map(rs).contains_key(key)),
            forall|key: i32| #[trigger] global@.contains_key(key) ==> global@[key] == g.count_map(rs)[key],
    {
        let key = s as i32;
        let mut total: i32 = 0;
        proof {
            lemma_counts_merge(g, cv, s as int);
            g.lemma_located_count_bound(rs, s as int);
        }
        for i in 0..partial.len()
            invariant
                key == s as i32,
                s < n_segs,
                n_segs <= i32::MAX,
                reads@.len() <= i32::MAX,
                rs == read_views(reads@),
                cv == chunk_views(chunks@),
                concat_all(cv) == rs,
                partial@.len() == chunks@.len(),
                forall|i: int| 0 <= i < chunks@.len() ==> (#[trigger] partial@[i])@ == g.count_map(read_views(chunks@[i]@)),
                total == sum_counts(g, cv.take(i as int), s as int),
                g.located_count(rs, s as int) == sum_counts(g, cv, s as int),
                g.located_count(rs, s as int) <= rs.len(),
        {
            let c: i32 = match partial[i].get(&key) {
                Some(v) => *v,
                None => 0,
            };
            proof {
                assert(cv[i as int] == read_views(chunks@[i as int]@));
                assert(cv.take(i + 1).drop_last() == cv.take(i as int));
                lemma_sum_counts_prefix(g, cv, i + 1, s as int);
            }
            total = total + c;
        }
        assert(cv.take(partial@.len() as int) == cv);
        if total > 0 {
            global.insert(key, total);
        }
    }
    proof {
        assert forall|key: i32| #[trigger] g.count_map(rs).contains_key(key) implies key < n_segs by {
            lemma_count_keys(g, rs, key as int);
        }
        assert(global@ =~= g.count_map(rs));
    }
    global
}

proof fn lemma_sum_counts_prefix(g: DNAReadGraph, cv: Seq<Seq<Seq<char>>>, n: int, s: int)
    requires
        0 <= n <= cv.len(),
    ensures
        sum_counts(g, cv.take(n), s) <= sum_counts(g, cv, s),
    decreases cv.len() - n,
{
    if n < cv.len() {
        lemma_sum_counts_prefix(g, cv, n + 1, s);
        assert(cv.take(n + 1).drop_last() == cv.take(n));
    } else {
        assert(cv.take(n) == cv);
    }
}

proof fn lemma_concat_len(cv: Seq<Seq<Seq<char>>>)
    ensures
        forall|i: int| 0 <= i < cv.len() ==> (#[trigger] cv[i]).len() <= concat_all(cv).len(),
    decreases cv.len(),
{
    if cv.len() > 0 {
        lemma_concat_len(cv.drop_last());
        assert forall|i: int| 0 <= i < cv.len() implies (#[trigger] cv[i]).len() <= concat_all(cv).len() by {
            if i < cv.len() - 1 {
                assert(cv[i] == cv.drop_last()[i]);
            }
        }
    }
}

proof fn lemma_chunk_within(cv: Seq<Seq<Seq<char>>>, i: int)
    requires
        0 <= i < cv.len(),
    ensures
        cv[i].len() <= concat_all(cv).len(),
{
    lemma_concat_len(cv);
}

/// Only existing segments are counted.
proof fn lemma_count_keys(g: DNAReadGraph, reads: Seq<Seq<char>>, s: int)
    requires
        g.wf(),
        g.located_count(reads, s) > 0,
        0 <= s <= usize::MAX,
    ensures
        s < g.segs().len(),
    decreases reads.len(),
{
    if g.located_count(reads.drop_last(), s) > 0 {
        lemma_count_keys(g, reads.drop_last(), s);
    } else {
        g.lemma_locate_segment(reads.last());
    }
}

} // verus!
