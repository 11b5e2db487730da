//! The run's configuration and the checks made on it before any indexing.
use crate::dna_hash_table::{indexable, seg_views, segments_chars, total_windows, char_views};
use vstd::prelude::*;

verus! {

/// What a run is asked to do.
pub struct Opt {
    /// Whether to log in detail.
    pub verbose: bool,
    /// The length of the exactly matched windows.
    pub k: usize,
    /// How many chunks the reads are split into.
    pub n_partition: usize,
    /// The file holding the reads.
    pub read_input_filename: String,
    /// The file holding the reference segments.
    pub seq_input_filename: String,
    /// The file the per-segment counts are written to.
    pub seqcount_output_filename: String,
}

/// Why a configuration is refused.
#[derive(Clone, Copy, Debug, PartialEq, Eq, Structural)]
pub enum ConfigError {
    /// `k` is zero or longer than the shortest segment.
    KmerLength,
    /// `l` is shorter than `k`.
    LmerShorterThanKmer,
    /// `l` is longer than the shortest segment.
    LmerLength,
    /// `n_partition` is zero or exceeds the number of reads.
    PartitionCount,
    /// The window counts or the number of segments or reads exceed what the
    /// index and count arithmetic holds.
    InputTooLarge,
}

/// Some segment is shorter than `n`.
pub open spec fn some_shorter(segs: Seq<Seq<char>>, n: nat) -> bool {
    exists|s: int| 0 <= s < segs.len() && #[trigger] segs[s].len() < n
}

/// The sizes fit the index, graph and count arithmetic.
pub open spec fn sizes_fit(segs: Seq<Seq<char>>, k: nat, l: nat, n_reads: nat) -> bool {
    &&& total_windows(segs, k) <= usize::MAX / 16
    &&& total_windows(segs, l) <= usize::MAX / 16
    &&& l <= usize::MAX / 4
    &&& l * total_windows(segs, l) < usize::MAX
    &&& segs.len() <= i32::MAX
    &&& n_reads <= i32::MAX
}

/// The verdict on a configuration, the first failing check deciding.
pub open spec fn config_verdict(segs: Seq<Seq<char>>, k: nat, l: nat, n_partition: nat, n_reads: nat) -> Result<(), ConfigError> {
    if k == 0 || some_shorter(segs, k) {
        Err(ConfigError::KmerLength)
    } else if l < k {
        Err(ConfigError::LmerShorterThanKmer)
    } else if some_shorter(segs, l) {
        Err(ConfigError::LmerLength)
    } else if n_partition == 0 || n_partition > n_reads {
        Err(ConfigError::PartitionCount)
    } else if !sizes_fit(segs, k, l, n_reads) {
        Err(ConfigError::InputTooLarge)
    } else {
        Ok(())
    }
}

/// An accepted configuration meets what building the graph and placing the
/// reads ask for.
pub proof fn lemma_accepted_config(segs: Seq<Seq<char>>, k: nat, l: nat, n_partition: nat, n_reads: nat)
    requires
        config_verdict(segs, k, l, n_partition, n_reads) is Ok,
    ensures
        indexable(segs, k),
        indexable(segs, l),
        k <= l,
        l <= usize::MAX / 4,
        l * total_windows(segs, l) < usize::MAX,
        0 < n_partition <= n_reads,
        segs.len() <= i32::MAX,
        n_reads <= i32::MAX,
{
    assert forall|s: int| 0 <= s < segs.len() implies l <= #[trigger] segs[s].len() by {
        if segs[s].len() < l {
            assert(some_shorter(segs, l));
        }
    }
    assert forall|s: int| 0 <= s < segs.len() implies k <= #[trigger] segs[s].len() by {
        if segs[s].len() < k {
            assert(some_shorter(segs, k));
        }
    }
}

/// The shortest segment's length, or `None` when there are no segments.
fn shortest(segs: &Vec<Vec<char>>) -> (r: Option<usize>)
    ensures
        match r {
            Some(m) => segs@.len() > 0 && !some_shorter(char_views(segs@), m as nat) && some_shorter(
                char_views(segs@),
                (m + 1) as nat,
            ),
            None => segs@.len() == 0,
        },
{
    if segs.len() == 0 {
        return None;
    }
    let ghost sv = char_views(segs@);
    let mut m: usize = segs[0].len();
    let mut at: usize = 0;
    for i in 1..segs.len()
        invariant
            sv == char_views(segs@),
            0 <= at < segs@.len(),
            1 <= i <= segs@.len(),
            at < i,
            m == sv[at as int].len(),
            forall|s: int| 0 <= s < i ==> m <= #[trigger] sv[s].len(),
    {
        if segs[i].len() < m {
            m = segs[i].len();
            at = i;
        }
    }
    assert(sv[at as int].len() < m + 1);
    Some(m)
}

/// Window count of length `w` over all segments when it is at most
/// `usize::MAX / 16`; `None` when it is larger.
fn windows_within(segs: &Vec<Vec<char>>, w: usize) -> (r: Option<usize>)
    requires
        w >= 1,
        forall|s: int| 0 <= s < segs@.len() ==> w <= #[trigger] char_views(segs@)[s].len(),
    ensures
        match r {
            Some(n) => n == total_windows(char_views(segs@), w as nat) && n <= usize::MAX / 16,
            None => total_windows(char_views(segs@), w as nat) > usize::MAX / 16,
        },
{
    let ghost sv = char_views(segs@);
    let mut n: usize = 0;
    for i in 0..segs.len()
        invariant
            sv == char_views(segs@),
            w >= 1,
            forall|s: int| 0 <= s < segs@.len() ==> w <= #[trigger] sv[s].len(),
            n == total_windows(sv.take(i as int), w as nat),
            n <= usize::MAX / 16,
    {
        assert(sv.take(i + 1).drop_last() == sv.take(i as int));
        assert(sv.take(i + 1).last() == sv[i as int]);
        assert(w <= sv[i as int].len());
        let c = segs[i].len() - w + 1;
        if c > usize::MAX / 16 - n {
            proof {
                lemma_total_windows_mono(sv, w as nat, i + 1);
            }
            return None;
        }
        n = n + c;
    }
    assert(sv.take(segs@.len() as int) == sv);
    Some(n)
}

proof fn lemma_total_windows_mono(segs: Seq<Seq<char>>, w: nat, i: int)
    requires
        0 <= i <= segs.len(),
    ensures
        total_windows(segs.take(i), w) <= total_windows(segs, w),
    decreases segs.len() - i,
{
    if i < segs.len() {
        lemma_total_windows_mono(segs, w, i + 1);
        assert(segs.take(i + 1).drop_last() == segs.take(i));
    } else {
        assert(segs.take(i) == segs);
    }
}

/// Checks a configuration before any indexing: window lengths against the
/// segments, the partition count against the reads, and the sizes against
/// the arithmetic.
pub fn check_config(
    segments: &Vec<String>,
    k: usize,
    l: usize,
    n_partition: usize,
    n_reads: usize,
) -> (r: Result<(), ConfigError>)
    ensures
        r == config_verdict(seg_views(segments@), k as nat, l as nat, n_partition as nat, n_reads as nat),
{
    let segs = segments_chars(segments);
    let ghost sv = seg_views(segments@);
    let shortest_len = shortest(&segs);
    let fits_k = match shortest_len {
        Some(m) => k <= m,
        None => true,
    };
    let fits_l = match shortest_len {
        Some(m) => l <= m,
        None => true,
    };
    assert(fits_k == !some_shorter(sv, k as nat));
    assert(fits_l == !some_shorter(sv, l as nat));
    if k == 0 || !fits_k {
        return Err(ConfigError::KmerLength);
    }
    if l < k {
        return Err(ConfigError::LmerShorterThanKmer);
    }
    if !fits_l {
        return Err(ConfigError::LmerLength);
    }
    if n_partition == 0 || n_partition > n_reads {
        return Err(ConfigError::PartitionCount);
    }
    proof {
        assert forall|s: int| 0 <= s < segs@.len() implies l <= #[trigger] char_views(segs@)[s].len() by {
            if sv[s].len() < l {
                assert(some_shorter(sv, l as nat));
            }
        }
        assert forall|s: int| 0 <= s < segs@.len() implies k <= #[trigger] char_views(segs@)[s].len() by {
            if sv[s].len() < k {
                assert(some_shorter(sv, k as nat));
            }
        }
    }
    let nk = windows_within(&segs, k);
    let nl = windows_within(&segs, l);
    match (nk, nl) {
        (Some(_), Some(n_l)) => {
            if l <= usize::MAX / 4 && (n_l == 0 || l <= (usize::MAX - 1) / n_l) && segments.len() <= 0x7fff_ffff
                && n_reads <= 0x7fff_ffff {
                proof {
                    if n_l > 0 {
                        let q = (usize::MAX - 1) as nat / (n_l as nat);
                        assert(l * n_l <= q * n_l) by (nonlinear_arith)
                            requires
                                l <= q,
                        ;
                        assert(q * n_l <= (usize::MAX - 1) as nat) by (nonlinear_arith)
                            requires
                                q == (usize::MAX - 1) as nat / (n_l as nat),
                                n_l > 0,
                        ;
                    }
                }
                Ok(())
            } else {
                proof {
                    let q = (usize::MAX - 1) as nat / (n_l as nat);
                    if l <= usize::MAX / 4 && n_l > 0 && l > q {
                        assert(l * n_l >= (q + 1) * n_l) by (nonlinear_arith)
                            requires
                                l >= q + 1,
                        ;
                        assert((q + 1) * n_l > (usize::MAX - 1) as nat) by (nonlinear_arith)
                            requires
                                q == (usize::MAX - 1) as nat / (n_l as nat),
                                n_l > 0,
                        ;
                    }
                }
                Err(ConfigError::InputTooLarge)
            }
        },
        _ => Err(ConfigError::InputTooLarge),
    }
}

} // verus!
