//! Counting with `multiset::HashMultiSet`: the votes for probe placements and
//! the candidate neighbours of a graph node.
use multiset::HashMultiSet;
use vstd::multiset::Multiset;
use vstd::prelude::*;

verus! {

#[verifier::external_type_specification]
#[verifier::external_body]
#[verifier::reject_recursive_types(K)]
pub struct ExHashMultiSet<K>(HashMultiSet<K>);

/// What a tally of `(segment, offset)` placements holds.
pub uninterp spec fn placement_tally(m: HashMultiSet<(usize, usize)>) -> Multiset<(usize, usize)>;

/// What a tally of graph nodes holds.
pub uninterp spec fn node_tally(m: HashMultiSet<usize>) -> Multiset<usize>;

/// Relies on multiset::HashMultiSet::new: the new multiset is empty.
#[verifier::external_body]
pub(crate) fn new_placement_tally() -> (r: HashMultiSet<(usize, usize)>)
    ensures
        placement_tally(r) == Multiset::<(usize, usize)>::empty(),
{
    HashMultiSet::new()
}

/// Relies on multiset::HashMultiSet::insert: one more copy of `v`. The
/// multiset keeps its total size in a `usize` that `insert` increments.
#[verifier::external_body]
pub(crate) fn add_placement(m: &mut HashMultiSet<(usize, usize)>, v: (usize, usize))
    requires
        placement_tally(*old(m)).len() < usize::MAX,
    ensures
        placement_tally(*final(m)) == placement_tally(*old(m)).insert(v),
{
    m.insert(v)
}

/// Relies on multiset::HashMultiSet::count_of: the number of copies of `v`.
#[verifier::external_body]
pub(crate) fn placement_count(m: &HashMultiSet<(usize, usize)>, v: (usize, usize)) -> (r: usize)
    ensures
        r == placement_tally(*m).count(v),
{
    m.count_of(&v)
}

/// Relies on multiset::HashMultiSet::new: the new multiset is empty.
#[verifier::external_body]
pub(crate) fn new_node_tally() -> (r: HashMultiSet<usize>)
    ensures
        node_tally(r) == Multiset::<usize>::empty(),
{
    HashMultiSet::new()
}

/// Relies on multiset::HashMultiSet::insert: one more copy of `v`. The
/// multiset keeps its total size in a `usize` that `insert` increments.
#[verifier::external_body]
pub(crate) fn add_node(m: &mut HashMultiSet<usize>, v: usize)
    requires
        node_tally(*old(m)).len() < usize::MAX,
    ensures
        node_tally(*final(m)) == node_tally(*old(m)).insert(v),
{
    m.insert(v)
}

/// Relies on multiset::HashMultiSet::count_of: the number of copies of `v`.
#[verifier::external_body]
pub(crate) fn node_count(m: &HashMultiSet<usize>, v: usize) -> (r: usize)
    ensures
        r == node_tally(*m).count(v),
{
    m.count_of(&v)
}

/// The distinct elements of `s`, in the order of their first occurrence.
pub open spec fn first_seen<A>(s: Seq<A>) -> Seq<A>
    decreases s.len(),
{
    if s.len() == 0 {
        Seq::empty()
    } else {
        let r = first_seen(s.drop_last());
        if s.drop_last().contains(s.last()) {
            r
        } else {
            r.push(s.last())
        }
    }
}

/// Scanning `order`, the element with the greatest count in `tally`; a later
/// element replaces the current one only with a strictly greater count.
/// `None` when no element has a positive count.
pub open spec fn best_of<A>(order: Seq<A>, tally: Multiset<A>) -> Option<A>
    decreases order.len(),
{
    if order.len() == 0 {
        None
    } else {
        let x = order.last();
        match best_of(order.drop_last(), tally) {
            None => if tally.count(x) > 0 {
                Some(x)
            } else {
                None
            },
            Some(b) => if tally.count(x) > tally.count(b) {
                Some(x)
            } else {
                Some(b)
            },
        }
    }
}

pub proof fn lemma_first_seen_push<A>(s: Seq<A>, x: A)
    ensures
        first_seen(s.push(x)) == if s.contains(x) {
            first_seen(s)
        } else {
            first_seen(s).push(x)
        },
{
    assert(s.push(x).drop_last() == s);
}

pub proof fn lemma_best_of_push<A>(order: Seq<A>, x: A, tally: Multiset<A>)
    ensures
        best_of(order.push(x), tally) == match best_of(order, tally) {
            None => if tally.count(x) > 0 {
                Some(x)
            } else {
                None
            },
            Some(b) => if tally.count(x) > tally.count(b) {
                Some(x)
            } else {
                Some(b)
            },
        },
{
    assert(order.push(x).drop_last() == order);
}

/// The scan picks one of the scanned elements.
pub proof fn lemma_best_of_member<A>(order: Seq<A>, tally: Multiset<A>)
    ensures
        best_of(order, tally) matches Some(b) ==> order.contains(b),
    decreases order.len(),
{
    if order.len() > 0 {
        let d = order.drop_last();
        lemma_best_of_member(d, tally);
        if let Some(b) = best_of(d, tally) {
            let w = choose|w: int| 0 <= w < d.len() && d[w] == b;
            assert(order[w] == b);
        }
        assert(order[order.len() - 1] == order.last());
    }
}

/// Every first occurrence is an element.
pub proof fn lemma_first_seen_member<A>(s: Seq<A>, x: A)
    requires
        first_seen(s).contains(x),
    ensures
        s.contains(x),
    decreases s.len(),
{
    if s.len() > 0 {
        let d = s.drop_last();
        if first_seen(d).contains(x) {
            lemma_first_seen_member(d, x);
            let w = choose|w: int| 0 <= w < d.len() && d[w] == x;
            assert(s[w] == x);
        } else {
            assert(s[s.len() - 1] == x);
        }
    }
}

/// An element of `s` is among its first occurrences.
pub proof fn lemma_first_seen_contains<A>(s: Seq<A>, x: A)
    requires
        s.contains(x),
    ensures
        first_seen(s).contains(x),
    decreases s.len(),
{
    let d = s.drop_last();
    if d.contains(x) {
        lemma_first_seen_contains(d, x);
        let f = first_seen(d);
        let w = choose|w: int| 0 <= w < f.len() && f[w] == x;
        assert(first_seen(s)[w] == x);
    } else {
        let w = choose|w: int| 0 <= w < s.len() && s[w] == x;
        if w < s.len() - 1 {
            assert(d[w] == x);
        }
        assert(s.last() == x);
        let f = first_seen(s);
        assert(f == first_seen(d).push(x));
        assert(f[f.len() - 1] == x);
    }
}

/// An element whose count beats every other scanned element's is the one
/// picked, once it has been scanned.
pub proof fn lemma_best_of_unique_max<A>(order: Seq<A>, tally: Multiset<A>, x: A)
    requires
        tally.count(x) > 0,
        forall|y: A| #[trigger] order.contains(y) && y != x ==> tally.count(y) < tally.count(x),
    ensures
        order.contains(x) ==> best_of(order, tally) == Some(x),
        !order.contains(x) ==> match best_of(order, tally) {
            None => true,
            Some(b) => b != x && tally.count(b) < tally.count(x),
        },
    decreases order.len(),
{
    if order.len() > 0 {
        let d = order.drop_last();
        let z = order.last();
        assert(order == d.push(z));
        assert forall|y: A| #[trigger] d.contains(y) && y != x implies tally.count(y) < tally.count(x) by {
            let w = choose|w: int| 0 <= w < d.len() && d[w] == y;
            assert(d[w] == order[w]);
            assert(order.contains(y));
        }
        lemma_best_of_unique_max(d, tally, x);
        assert(order[order.len() - 1] == z);
        assert(order.contains(z));
        if d.contains(x) {
            let w = choose|w: int| 0 <= w < d.len() && d[w] == x;
            assert(order[w] == x);
        }
        if order.contains(x) && z != x {
            let w = choose|w: int| 0 <= w < order.len() && order[w] == x;
            assert(d[w] == x);
            assert(d.contains(x));
        }
        lemma_best_of_push(d, z, tally);
    }
}

/// The numbers below `n`.
pub open spec fn below(n: nat) -> Set<usize> {
    Set::new(|x: usize| x < n)
}

proof fn lemma_below(n: nat)
    requires
        n <= usize::MAX + 1,
    ensures
        below(n).finite(),
        below(n).len() == n,
    decreases n,
{
    if n == 0 {
        assert(below(0) == Set::<usize>::empty());
    } else {
        lemma_below((n - 1) as nat);
        assert(below(n) == below((n - 1) as nat).insert((n - 1) as usize));
    }
}

/// A list without repeats of numbers below `n` has at most `n` elements.
pub proof fn lemma_distinct_below(s: Seq<usize>, n: nat)
    requires
        s.no_duplicates(),
        n <= usize::MAX + 1,
        forall|t: int| 0 <= t < s.len() ==> #[trigger] s[t] < n,
    ensures
        s.len() <= n,
{
    lemma_below(n);
    s.unique_seq_to_set();
    assert(s.to_set().subset_of(below(n)));
    vstd::set_lib::lemma_len_subset(s.to_set(), below(n));
}

} // verus!
