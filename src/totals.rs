//! Sums of signed weights per call stack over a bag of recorded parts. A
//! stack's total may be split over several parts; what counts is their sum.

use vstd::multiset::Multiset;
use vstd::prelude::*;

verus! {

broadcast use vstd::multiset::group_multiset_axioms;

/// What one part contributes to the total of stack `s`.
pub open spec fn share(e: (Seq<usize>, int), s: Seq<usize>) -> int {
    if e.0 == s {
        e.1
    } else {
        0
    }
}

/// The total weight of stack `s` over all parts in `m`.
pub open spec fn weight_of(m: Multiset<(Seq<usize>, int)>, s: Seq<usize>) -> int
    decreases m.len(),
    via weight_of_decreases
{
    if m.len() == 0 {
        0
    } else {
        share(m.choose(), s) + weight_of(m.remove(m.choose()), s)
    }
}

#[via_fn]
proof fn weight_of_decreases(m: Multiset<(Seq<usize>, int)>, s: Seq<usize>) {
    broadcast use vstd::multiset::lemma_multiset_empty_len;

    if m.len() != 0 {
        assert(m.count(m.choose()) > 0);
        assert(m.remove(m.choose()).len() < m.len());
    }
}

/// Whether some part in `m` belongs to stack `s`.
pub open spec fn holds_stack(m: Multiset<(Seq<usize>, int)>, s: Seq<usize>) -> bool {
    exists|c: int| m.count((s, c)) > 0
}

/// The total weight of stack `s` over a sequence of parts.
pub open spec fn weight_of_seq(q: Seq<(Seq<usize>, int)>, s: Seq<usize>) -> int
    decreases q.len(),
{
    if q.len() == 0 {
        0
    } else {
        weight_of_seq(q.drop_last(), s) + share(q.last(), s)
    }
}

/// Taking out any one part takes out exactly its share.
pub proof fn lemma_weight_remove(m: Multiset<(Seq<usize>, int)>, x: (Seq<usize>, int), s: Seq<usize>)
    requires
        m.count(x) > 0,
    ensures
        weight_of(m, s) == share(x, s) + weight_of(m.remove(x), s),
    decreases m.len(),
{
    broadcast use vstd::multiset::lemma_multiset_empty_len;

    let y = m.choose();
    assert(m.len() > 0);
    assert(m.count(y) > 0);
    if y != x {
        assert(m.remove(y).count(x) > 0);
        assert(m.remove(y).len() < m.len());
        lemma_weight_remove(m.remove(y), x, s);
        assert(m.remove(x).count(y) > 0);
        assert(m.remove(x).len() < m.len());
        lemma_weight_remove(m.remove(x), y, s);
        assert(m.remove(y).remove(x) =~= m.remove(x).remove(y));
    }
}

/// Adding a part adds exactly its share.
pub proof fn lemma_weight_insert(m: Multiset<(Seq<usize>, int)>, x: (Seq<usize>, int), s: Seq<usize>)
    ensures
        weight_of(m.insert(x), s) == share(x, s) + weight_of(m, s),
{
    lemma_weight_remove(m.insert(x), x, s);
    assert(m.insert(x).remove(x) =~= m);
}

/// No parts, no weight.
pub proof fn lemma_weight_empty(s: Seq<usize>)
    ensures
        weight_of(Multiset::empty(), s) == 0,
{
    broadcast use vstd::multiset::lemma_multiset_empty_len;

    assert(Multiset::<(Seq<usize>, int)>::empty().len() == 0);
}

/// Summing a sequence of parts in order gives the total of its bag.
pub proof fn lemma_weight_seq(q: Seq<(Seq<usize>, int)>, s: Seq<usize>)
    ensures
        weight_of_seq(q, s) == weight_of(q.to_multiset(), s),
    decreases q.len(),
{
    broadcast use vstd::seq_lib::group_to_multiset_ensures;

    if q.len() == 0 {
        assert(q.to_multiset() =~= Multiset::empty());
        lemma_weight_empty(s);
    } else {
        lemma_weight_seq(q.drop_last(), s);
        assert(q =~= q.drop_last().push(q.last()));
        assert(q.to_multiset() =~= q.drop_last().to_multiset().insert(q.last()));
        lemma_weight_insert(q.drop_last().to_multiset(), q.last(), s);
    }
}

/// The total over `n` parts each within `b` of zero is within `n * b`.
pub proof fn lemma_weight_seq_bound(q: Seq<(Seq<usize>, int)>, s: Seq<usize>, b: int)
    requires
        forall|i: int| 0 <= i < q.len() ==> -b <= #[trigger] q[i].1 <= b,
        b >= 0,
    ensures
        -(q.len() * b) <= weight_of_seq(q, s) <= q.len() * b,
    decreases q.len(),
{
    if q.len() > 0 {
        lemma_weight_seq_bound(q.drop_last(), s, b);
        assert(q.last().1 == q[q.len() - 1].1);
        assert((q.len() - 1) * b + b == q.len() * b) by (nonlinear_arith);
    }
}

} // verus!
