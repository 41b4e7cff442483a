//! Merging collector entries, where one stack may stand in several, into
//! one entry per stack with its summed weight.

use crate::stack::{key_frames, Stack, StackKey};
use crate::totals::{
    holds_stack, lemma_weight_seq, lemma_weight_seq_bound, share, weight_of, weight_of_seq,
};
use vstd::multiset::Multiset;
use vstd::prelude::*;

verus! {

/// Collector entries as the frames of their stacks and their counts.
pub open spec fn parts_of(v: Seq<(StackKey, isize)>) -> Seq<(Seq<usize>, int)> {
    v.map_values(|e: (StackKey, isize)| (key_frames(e.0), e.1 as int))
}

/// Sums entries per stack: the result holds each stack of `entries` once,
/// with the sum of the counts of that stack's entries.
pub fn merge_parts(entries: &Vec<(StackKey, isize)>) -> (out: Vec<(Stack, i128)>)
    ensures
        forall|j: int| 0 <= j < out@.len() ==> #[trigger] out@[j].1 == weight_of(parts_of(entries@).to_multiset(), out@[j].0@),
        forall|j: int| 0 <= j < out@.len() ==> holds_stack(parts_of(entries@).to_multiset(), #[trigger] out@[j].0@),
        forall|a: int, b: int| 0 <= a < b < out@.len() ==> #[trigger] out@[a].0@ != #[trigger] out@[b].0@,
        forall|s: Seq<usize>| holds_stack(parts_of(entries@).to_multiset(), s) ==> exists|j: int| 0 <= j < out@.len() && #[trigger] out@[j].0@ == s,
{
    let ghost q = parts_of(entries@);
    let mut out: Vec<(Stack, i128)> = Vec::new();
    proof {
        lemma_merge_start(q);
    }
    let mut i: usize = 0;
    while i < entries.len()
        invariant
            i <= entries@.len(),
            q == parts_of(entries@),
            merged(q, i as int, out@),
        decreases entries@.len() - i,
    {
        let k = entries[i].0;
        let c = entries[i].1;
        let st = Stack::from_key(&k);
        assert(q[i as int] == (st@, c as int));
        proof {
            lemma_prefix_bound(q, i as int + 1);
        }
        let j = position_of(&out, &st);
        if j < out.len() {
            proof {
                lemma_merge_sum(q, i as int, out@, j as int);
            }
            let sum: i128 = out[j].1 + c as i128;
            proof {
                lemma_merge_add(q, i as int, out@, j as int, (st, sum));
            }
            out.set(j, (st, sum));
        } else {
            proof {
                lemma_merge_push(q, i as int, out@, (st, c as i128));
            }
            out.push((st, c as i128));
        }
        i = i + 1;
    }
    proof {
        lemma_merge_end(q, out@);
    }
    out
}

/// The merged entries of a sequence whose bag is `m` carry the totals of
/// `m`, once each.
pub proof fn lemma_merged_totals(q: Seq<(Seq<usize>, int)>, m: Multiset<(Seq<usize>, int)>, out: Seq<(Stack, i128)>)
    requires
        q.to_multiset() == m,
        forall|j: int| 0 <= j < out.len() ==> #[trigger] out[j].1 == weight_of(q.to_multiset(), out[j].0@),
        forall|j: int| 0 <= j < out.len() ==> holds_stack(q.to_multiset(), #[trigger] out[j].0@),
        forall|s: Seq<usize>| holds_stack(q.to_multiset(), s) ==> exists|j: int| 0 <= j < out.len() && #[trigger] out[j].0@ == s,
    ensures
        forall|j: int| 0 <= j < out.len() ==> #[trigger] out[j].1 == weight_of(m, out[j].0@),
        forall|j: int| 0 <= j < out.len() ==> holds_stack(m, #[trigger] out[j].0@),
        forall|s: Seq<usize>| holds_stack(m, s) ==> exists|j: int| 0 <= j < out.len() && #[trigger] out[j].0@ == s,
{
}

/// `out` holds each stack of the first `n` parts of `q` once, with its total
/// over those parts.
#[verifier::opaque]
spec fn merged(q: Seq<(Seq<usize>, int)>, n: int, out: Seq<(Stack, i128)>) -> bool {
    &&& 0 <= n <= q.len()
    &&& forall|j: int| 0 <= j < out.len() ==> #[trigger] out[j].1 == weight_of_seq(q.take(n), out[j].0@)
    &&& forall|a: int, b: int| 0 <= a < b < out.len() ==> #[trigger] out[a].0@ != #[trigger] out[b].0@
    &&& forall|j: int| 0 <= j < out.len() ==> exists|t: int| 0 <= t < n && q[t].0 == #[trigger] out[j].0@
    &&& forall|t: int| 0 <= t < n ==> lists(out, (#[trigger] q.take(n)[t]).0)
}

/// Whether some entry of `out` is for stack `s`.
spec fn lists(out: Seq<(Stack, i128)>, s: Seq<usize>) -> bool {
    exists|j: int| 0 <= j < out.len() && #[trigger] out[j].0@ == s
}

proof fn lemma_merge_start(q: Seq<(Seq<usize>, int)>)
    ensures
        merged(q, 0, Seq::empty()),
{
    reveal(merged);
}

proof fn lemma_take_step(q: Seq<(Seq<usize>, int)>, n: int, s: Seq<usize>)
    requires
        0 <= n < q.len(),
    ensures
        weight_of_seq(q.take(n + 1), s) == weight_of_seq(q.take(n), s) + share(q[n], s),
{
    assert(q.take(n + 1).drop_last() =~= q.take(n));
    assert(q.take(n + 1).last() == q[n]);
}

proof fn lemma_merge_sum(q: Seq<(Seq<usize>, int)>, n: int, out: Seq<(Stack, i128)>, j: int)
    requires
        merged(q, n, out),
        0 <= n < q.len(),
        0 <= j < out.len(),
        out[j].0@ == q[n].0,
    ensures
        out[j].1 + q[n].1 == weight_of_seq(q.take(n + 1), q[n].0),
{
    reveal(merged);
    lemma_take_step(q, n, q[n].0);
}

proof fn lemma_cover_update(q: Seq<(Seq<usize>, int)>, n: int, out: Seq<(Stack, i128)>, j: int, x: (Stack, i128))
    requires
        0 <= n < q.len(),
        0 <= j < out.len(),
        x.0@ == q[n].0,
        out[j].0@ == q[n].0,
        forall|t: int| 0 <= t < n ==> lists(out, (#[trigger] q.take(n)[t]).0),
    ensures
        forall|t: int| 0 <= t < n + 1 ==> lists(out.update(j, x), (#[trigger] q.take(n + 1)[t]).0),
{
    let o = out.update(j, x);
    assert forall|t: int| 0 <= t < n + 1 implies lists(o, (#[trigger] q.take(n + 1)[t]).0) by {
        assert(q.take(n + 1)[t] == q[t]);
        if t < n {
            assert(q.take(n)[t] == q[t]);
            let m = choose|m: int| 0 <= m < out.len() && #[trigger] out[m].0@ == q.take(n)[t].0;
            if m == j {
                assert(o[m] == x);
            } else {
                assert(o[m] == out[m]);
            }
            assert(0 <= m < o.len() && o[m].0@ == q.take(n + 1)[t].0);
        } else {
            assert(o[j] == x);
            assert(0 <= j < o.len() && o[j].0@ == q.take(n + 1)[t].0);
        }
    }
}

proof fn lemma_merge_add(q: Seq<(Seq<usize>, int)>, n: int, out: Seq<(Stack, i128)>, j: int, x: (Stack, i128))
    requires
        merged(q, n, out),
        0 <= n < q.len(),
        0 <= j < out.len(),
        out[j].0@ == q[n].0,
        x.0@ == q[n].0,
        x.1 == out[j].1 + q[n].1,
    ensures
        merged(q, n + 1, out.update(j, x)),
{
    reveal(merged);
    let o = out.update(j, x);
    assert forall|m: int| 0 <= m < o.len() implies #[trigger] o[m].1 == weight_of_seq(q.take(n + 1), o[m].0@) by {
        lemma_take_step(q, n, o[m].0@);
        if m != j {
            assert(out[m].0@ != out[j].0@);
        }
    }
    assert forall|a: int, b: int| 0 <= a < b < o.len() implies #[trigger] o[a].0@ != #[trigger] o[b].0@ by {
        assert(out[a].0@ != out[b].0@);
    }
    assert forall|m: int| 0 <= m < o.len() implies exists|t: int| 0 <= t < n + 1 && q[t].0 == #[trigger] o[m].0@ by {
        let t = choose|t: int| 0 <= t < n && q[t].0 == #[trigger] out[m].0@;
        assert(q[t].0 == o[m].0@);
    }
    lemma_cover_update(q, n, out, j, x);
}

proof fn lemma_merge_push(q: Seq<(Seq<usize>, int)>, n: int, out: Seq<(Stack, i128)>, x: (Stack, i128))
    requires
        merged(q, n, out),
        0 <= n < q.len(),
        forall|m: int| 0 <= m < out.len() ==> #[trigger] out[m].0@ != q[n].0,
        x.0@ == q[n].0,
        x.1 == q[n].1,
    ensures
        merged(q, n + 1, out.push(x)),
{
    reveal(merged);
    let o = out.push(x);
    assert(weight_of_seq(q.take(n), q[n].0) == 0) by {
        assert forall|t: int| 0 <= t < q.take(n).len() implies q.take(n)[t].0 != q[n].0 by {
            assert(q.take(n)[t] == q[t]);
            let m = choose|m: int| 0 <= m < out.len() && #[trigger] out[m].0@ == q.take(n)[t].0;
            assert(out[m].0@ != q[n].0);
        }
        lemma_weight_seq_absent(q.take(n), q[n].0);
    }
    assert forall|m: int| 0 <= m < o.len() implies #[trigger] o[m].1 == weight_of_seq(q.take(n + 1), o[m].0@) by {
        lemma_take_step(q, n, o[m].0@);
        if m < out.len() {
            assert(o[m] == out[m]);
        }
    }
    assert forall|a: int, b: int| 0 <= a < b < o.len() implies #[trigger] o[a].0@ != #[trigger] o[b].0@ by {
        if b < out.len() {
            assert(out[a].0@ != out[b].0@);
        }
    }
    assert forall|m: int| 0 <= m < o.len() implies exists|t: int| 0 <= t < n + 1 && q[t].0 == #[trigger] o[m].0@ by {
        if m < out.len() {
            let t = choose|t: int| 0 <= t < n && q[t].0 == #[trigger] out[m].0@;
            assert(q[t].0 == o[m].0@);
        } else {
            assert(q[n].0 == o[m].0@);
        }
    }
    assert forall|t: int| 0 <= t < n + 1 implies lists(o, (#[trigger] q.take(n + 1)[t]).0) by {
        assert(q.take(n + 1)[t] == q[t]);
        if t < n {
            assert(q.take(n)[t] == q[t]);
            let m = choose|m: int| 0 <= m < out.len() && #[trigger] out[m].0@ == q.take(n)[t].0;
            assert(o[m].0@ == q[t].0);
        } else {
            assert(o[out.len() as int].0@ == q[t].0);
        }
    }
}

proof fn lemma_merge_end(q: Seq<(Seq<usize>, int)>, out: Seq<(Stack, i128)>)
    requires
        merged(q, q.len() as int, out),
    ensures
        forall|j: int| 0 <= j < out.len() ==> #[trigger] out[j].1 == weight_of(q.to_multiset(), out[j].0@),
        forall|j: int| 0 <= j < out.len() ==> holds_stack(q.to_multiset(), #[trigger] out[j].0@),
        forall|a: int, b: int| 0 <= a < b < out.len() ==> #[trigger] out[a].0@ != #[trigger] out[b].0@,
        forall|s: Seq<usize>| holds_stack(q.to_multiset(), s) ==> exists|j: int| 0 <= j < out.len() && #[trigger] out[j].0@ == s,
{
    reveal(merged);
    assert(q.take(q.len() as int) =~= q);
    assert forall|j: int| 0 <= j < out.len() implies #[trigger] out[j].1 == weight_of(q.to_multiset(), out[j].0@) by {
        lemma_weight_seq(q, out[j].0@);
    }
    assert forall|j: int| 0 <= j < out.len() implies holds_stack(q.to_multiset(), #[trigger] out[j].0@) by {
        lemma_holds_in_seq(q, out[j].0@);
    }
    assert forall|s: Seq<usize>| holds_stack(q.to_multiset(), s) implies exists|j: int| 0 <= j < out.len() && #[trigger] out[j].0@ == s by {
        lemma_holds_in_seq(q, s);
        let t = choose|t: int| 0 <= t < q.len() && q[t].0 == s;
        assert(q.take(q.len() as int)[t] == q[t]);
    }
}

/// The first position in `out` whose stack equals `st`, or the length of
/// `out` when there is none.
fn position_of(out: &Vec<(Stack, i128)>, st: &Stack) -> (j: usize)
    ensures
        j <= out@.len(),
        j < out@.len() ==> out@[j as int].0@ == st@,
        forall|m: int| 0 <= m < j ==> #[trigger] out@[m].0@ != st@,
{
    let mut j: usize = 0;
    while j < out.len()
        invariant
            j <= out@.len(),
            forall|m: int| 0 <= m < j ==> #[trigger] out@[m].0@ != st@,
        decreases out@.len() - j,
    {
        if out[j].0.same_as(st) {
            return j;
        }
        j = j + 1;
    }
    j
}

/// Every prefix total of a sequence of `isize` counts, no longer than
/// `usize` allows, fits in an `i128`.
proof fn lemma_prefix_bound(q: Seq<(Seq<usize>, int)>, n: int)
    requires
        0 <= n <= q.len(),
        n <= usize::MAX,
        forall|t: int| 0 <= t < q.len() ==> isize::MIN <= #[trigger] q[t].1 <= isize::MAX,
    ensures
        forall|s: Seq<usize>|
            i128::MIN < #[trigger] weight_of_seq(q.take(n), s) < i128::MAX,
{
    let b = 0x8000_0000_0000_0000int;
    assert forall|t: int| 0 <= t < q.take(n).len() implies -b <= #[trigger] q.take(n)[t].1 <= b by {
        assert(q.take(n)[t] == q[t]);
    }
    assert(n * b <= 0xffff_ffff_ffff_ffffint * b) by (nonlinear_arith)
        requires
            n <= 0xffff_ffff_ffff_ffffint,
            b >= 0,
    ;
    assert forall|s: Seq<usize>| i128::MIN < #[trigger] weight_of_seq(q.take(n), s) < i128::MAX by {
        lemma_weight_seq_bound(q.take(n), s, b);
    }
}

/// A stack with no part in a sequence has total zero there.
proof fn lemma_weight_seq_absent(q: Seq<(Seq<usize>, int)>, s: Seq<usize>)
    requires
        forall|t: int| 0 <= t < q.len() ==> q[t].0 != s,
    ensures
        weight_of_seq(q, s) == 0,
    decreases q.len(),
{
    if q.len() > 0 {
        lemma_weight_seq_absent(q.drop_last(), s);
    }
}

/// A stack has a part in the bag of a sequence exactly when one of its
/// elements belongs to that stack.
proof fn lemma_holds_in_seq(q: Seq<(Seq<usize>, int)>, s: Seq<usize>)
    ensures
        holds_stack(q.to_multiset(), s) <==> exists|t: int| 0 <= t < q.len() && q[t].0 == s,
{
    broadcast use vstd::seq_lib::group_to_multiset_ensures;

    if holds_stack(q.to_multiset(), s) {
        let c = choose|c: int| q.to_multiset().count((s, c)) > 0;
        assert(q.contains((s, c)));
    }
    if exists|t: int| 0 <= t < q.len() && q[t].0 == s {
        let t = choose|t: int| 0 <= t < q.len() && q[t].0 == s;
        assert(q.contains(q[t]));
        assert(q.to_multiset().count((s, q[t].1)) > 0);
    }
}

} // verus!
