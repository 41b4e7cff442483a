//! The keyed accumulator: one running total of signed byte deltas per
//! distinct call stack, held in pprof's collector.

use crate::stack::{key_frames, Stack, StackKey, MAX_DEPTH};
use crate::merge::{lemma_merged_totals, merge_parts, parts_of};
use crate::totals::{holds_stack, lemma_weight_empty, lemma_weight_insert, lemma_weight_remove, weight_of};
use vstd::multiset::Multiset;
use vstd::prelude::*;

verus! {

broadcast use vstd::multiset::group_multiset_axioms;

#[verifier::external_type_specification]
#[verifier::external_body]
#[verifier::reject_recursive_types(T)]
pub struct ExCollector<T: std::hash::Hash + Eq + 'static>(pprof::Collector<T>);

#[verifier::external_type_specification]
#[verifier::external_body]
pub struct ExIoError(std::io::Error);

/// The entries that a collector holds, each as the frames of its stack and
/// its count. One stack may stand in several entries once the collector has
/// moved some out of its table.
pub uninterp spec fn collector_parts(c: pprof::Collector<([usize; MAX_DEPTH], usize)>) -> Multiset<
    (Seq<usize>, int),
>;

/// Relies on pprof::Collector::new: a new collector holds no entries; it fails
/// only when its spill file cannot be created.
#[verifier::external_body]
fn collector_new() -> (r: Result<pprof::Collector<StackKey>, std::io::Error>)
    ensures
        r is Ok ==> collector_parts(r->Ok_0) == Multiset::<(Seq<usize>, int)>::empty(),
{
    pprof::Collector::new()
}

/// Relies on pprof::Collector::add: the entry of an equal key in the table
/// gains the count, or the key enters the table with that count; an entry
/// pushed out of a full bucket moves to the spill file, which is where the
/// call can fail.
#[verifier::external_body]
fn collector_add(c: &mut pprof::Collector<StackKey>, k: StackKey, w: isize) -> (r: Result<
    (),
    std::io::Error,
>)
    requires
        forall|x: int|
            collector_parts(*old(c)).count((key_frames(k), x)) > 0 ==> isize::MIN <= x + w
                <= isize::MAX,
    ensures
        r is Ok ==> (exists|x: int|
            collector_parts(*old(c)).count((key_frames(k), x)) > 0 && collector_parts(*final(c))
                == collector_parts(*old(c)).remove((key_frames(k), x)).insert(
                (key_frames(k), x + w),
            )) || collector_parts(*final(c)) == collector_parts(*old(c)).insert(
            (key_frames(k), w as int),
        ),
{
    c.add(k, w)
}

/// Relies on pprof::Collector::try_iter: it yields each entry of the table
/// and of the spill file once, with its key and count.
#[verifier::external_body]
fn collector_entries(c: &pprof::Collector<StackKey>) -> (r: Result<
    Vec<(StackKey, isize)>,
    std::io::Error,
>)
    ensures
        r is Ok ==> parts_of(r->Ok_0@).to_multiset() == collector_parts(*c),
{
    c.try_iter().map(|it| it.map(|e| (e.item, e.count)).collect())
}

/// A failure of the aggregator's storage.
#[derive(Clone, Copy, Debug, PartialEq, Eq)]
pub enum AggregatorError {
    /// The collector's spill file could not be created, written or read.
    Storage,
}

/// Running totals per distinct stack. Samples are only ever added; a
/// failure to store one leaves the aggregator broken, after which samples
/// are dropped and exports fail.
pub struct Aggregator {
    collector: pprof::Collector<StackKey>,
    volume: usize,
    broken: bool,
}

impl Aggregator {
    /// The recorded parts of all totals.
    pub closed spec fn parts(&self) -> Multiset<(Seq<usize>, int)> {
        collector_parts(self.collector)
    }

    /// The sum of the magnitudes of all weights recorded so far.
    pub closed spec fn volume(&self) -> int {
        self.volume as int
    }

    /// Whether storing a sample has failed.
    pub closed spec fn is_broken(&self) -> bool {
        self.broken
    }

    /// The volume stays within `isize`, and while nothing has failed every
    /// stored count is within the volume of zero.
    pub closed spec fn wf(&self) -> bool {
        &&& self.volume <= isize::MAX
        &&& !self.broken ==> forall|e: (Seq<usize>, int)|
            #[trigger] self.parts().count(e) > 0 ==> -self.volume <= e.1 <= self.volume
    }

    /// The running total of stack `s`.
    pub open spec fn total(&self, s: Seq<usize>) -> int {
        weight_of(self.parts(), s)
    }

    /// Whether stack `s` has an entry.
    pub open spec fn holds(&self, s: Seq<usize>) -> bool {
        holds_stack(self.parts(), s)
    }

    /// Whether a weight of `w` still fits under the bound on the recorded
    /// volume, which keeps every count within `isize`.
    pub open spec fn has_room(&self, w: isize) -> bool {
        self.volume() + (if w < 0 { -w } else { w as int }) <= isize::MAX
    }

    /// `after` is `before` with a sample of weight `w` on stack `s` kept.
    pub open spec fn adds_sample(before: Aggregator, after: Aggregator, s: Seq<usize>, w: isize) -> bool {
        &&& !before.is_broken() && before.has_room(w)
        &&& !after.is_broken()
        &&& after.volume() == before.volume() + (if w < 0 { -w } else { w as int })
        &&& forall|t: Seq<usize>|
            #[trigger] after.total(t) == before.total(t) + (if t == s {
                w as int
            } else {
                0
            })
        &&& forall|t: Seq<usize>| #[trigger] after.holds(t) == (before.holds(t) || t == s)
    }

    /// An empty aggregator.
    pub fn new() -> (r: Result<Aggregator, AggregatorError>)
        ensures
            r is Ok ==> {
                &&& r->Ok_0.wf()
                &&& !r->Ok_0.is_broken()
                &&& r->Ok_0.volume() == 0
                &&& forall|s: Seq<usize>| !r->Ok_0.holds(s) && r->Ok_0.total(s) == 0
            },
    {
        match collector_new() {
            Ok(collector) => {
                let r = Aggregator { collector, volume: 0, broken: false };
                assert forall|s: Seq<usize>| !r.holds(s) && r.total(s) == 0 by {
                    lemma_weight_empty(s);
                }
                Ok(r)
            },
            Err(_) => Err(AggregatorError::Storage),
        }
    }

    /// Adds `w` to the total of `stack`, creating its entry on first sight.
    /// Returns whether the sample was kept. A sample is dropped, leaving the
    /// totals as they were, when the aggregator is broken or the weight does
    /// not fit under the volume bound; it is also dropped when storing it
    /// fails, which breaks the aggregator.
    pub fn record(&mut self, stack: &Stack, w: isize) -> (kept: bool)
        requires
            old(self).wf(),
        ensures
            final(self).wf(),
            kept ==> Self::adds_sample(*old(self), *final(self), stack@, w),
            !kept ==> final(self).is_broken() || *final(self) == *old(self),
            !old(self).is_broken() && old(self).has_room(w) && !final(self).is_broken() ==> kept,
    {
        if self.broken {
            return false;
        }
        if w == isize::MIN {
            return false;
        }
        let mag: usize = if w < 0 { (-w) as usize } else { w as usize };
        if mag > (isize::MAX as usize) - self.volume {
            return false;
        }
        let ghost before = self.parts();
        let k = stack.key();
        let ghost f = key_frames(k);
        assert(f == stack@);
        match collector_add(&mut self.collector, k, w) {
            Ok(()) => {
                self.volume = self.volume + mag;
                proof {
                    let after = self.parts();
                    if exists|x: int| before.count((f, x)) > 0 && after == before.remove((f, x)).insert((f, x + w as int)) {
                        let x = choose|x: int| before.count((f, x)) > 0 && after == before.remove((f, x)).insert((f, x + w as int));
                        assert forall|s: Seq<usize>|
                            #[trigger] weight_of(after, s) == weight_of(before, s) + (if s == f { w as int } else { 0 }) by {
                            lemma_weight_remove(before, (f, x), s);
                            lemma_weight_insert(before.remove((f, x)), (f, x + w as int), s);
                        }
                        assert forall|s: Seq<usize>| #[trigger] holds_stack(after, s) == (holds_stack(before, s) || s == f) by {
                            if holds_stack(before, s) {
                                let y = choose|y: int| before.count((s, y)) > 0;
                                if s != f || y != x {
                                    assert(after.count((s, y)) > 0);
                                }
                            }
                            if s == f {
                                assert(after.count((f, x + w as int)) > 0);
                            }
                            if holds_stack(after, s) {
                                let y = choose|y: int| after.count((s, y)) > 0;
                                if s != f {
                                    assert(before.count((s, y)) > 0);
                                }
                            }
                        }
                        assert forall|e: (Seq<usize>, int)| #[trigger] after.count(e) > 0 implies -self.volume <= e.1 <= self.volume by {
                            if e != (f, x + w as int) {
                                assert(before.count(e) > 0);
                            }
                        }
                    } else {
                        assert(after == before.insert((f, w as int)));
                        assert forall|s: Seq<usize>|
                            #[trigger] weight_of(after, s) == weight_of(before, s) + (if s == f { w as int } else { 0 }) by {
                            lemma_weight_insert(before, (f, w as int), s);
                        }
                        assert forall|s: Seq<usize>| #[trigger] holds_stack(after, s) == (holds_stack(before, s) || s == f) by {
                            if holds_stack(before, s) {
                                let y = choose|y: int| before.count((s, y)) > 0;
                                assert(after.count((s, y)) > 0);
                            }
                            if s == f {
                                assert(after.count((f, w as int)) > 0);
                            }
                            if holds_stack(after, s) {
                                let y = choose|y: int| after.count((s, y)) > 0;
                                if s != f {
                                    assert(before.count((s, y)) > 0);
                                }
                            }
                        }
                        assert forall|e: (Seq<usize>, int)| #[trigger] after.count(e) > 0 implies -self.volume <= e.1 <= self.volume by {
                            if e != (f, w as int) {
                                assert(before.count(e) > 0);
                            }
                        }
                    }
                }
                true
            },
            Err(_) => {
                self.broken = true;
                false
            },
        }
    }

    /// A snapshot of every entry: each recorded stack once, with its total.
    /// Fails when the aggregator is broken or the collector cannot be read.
    pub fn export(&self) -> (r: Result<Vec<(Stack, i128)>, AggregatorError>)
        requires
            self.wf(),
        ensures
            self.is_broken() ==> r is Err,
            r is Ok ==> {
                &&& forall|j: int| 0 <= j < r->Ok_0@.len() ==> #[trigger] r->Ok_0@[j].1 == self.total(r->Ok_0@[j].0@)
                &&& forall|j: int| 0 <= j < r->Ok_0@.len() ==> self.holds(#[trigger] r->Ok_0@[j].0@)
                &&& forall|a: int, b: int|
                    0 <= a < b < r->Ok_0@.len() ==> #[trigger] r->Ok_0@[a].0@ != #[trigger] r->Ok_0@[b].0@
                &&& forall|s: Seq<usize>| self.holds(s) ==> exists|j: int| 0 <= j < r->Ok_0@.len() && #[trigger] r->Ok_0@[j].0@ == s
            },
    {
        if self.broken {
            return Err(AggregatorError::Storage);
        }
        let entries = match collector_entries(&self.collector) {
            Ok(v) => v,
            Err(_) => return Err(AggregatorError::Storage),
        };
        let out = merge_parts(&entries);
        proof {
            lemma_merged_totals(parts_of(entries@), self.parts(), out@);
        }
        let r: Result<Vec<(Stack, i128)>, AggregatorError> = Ok(out);
        proof {
            assert forall|s: Seq<usize>| self.holds(s) implies exists|j: int|
                0 <= j < r->Ok_0@.len() && #[trigger] r->Ok_0@[j].0@ == s by {
                let j = choose|j: int| 0 <= j < out@.len() && #[trigger] out@[j].0@ == s;
                assert(r->Ok_0@[j] == out@[j]);
            }
        }
        r
    }
}

/// The sum of a sequence of weights.
pub open spec fn sum_of(ws: Seq<isize>) -> int
    decreases ws.len(),
{
    if ws.len() == 0 {
        0
    } else {
        sum_of(ws.drop_last()) + ws.last() as int
    }
}

/// Two kept samples of one stack merge into its single total: the total
/// grows by both weights, the stack has an entry, and every other total
/// stays as it was.
pub proof fn lemma_same_stack_accumulates(
    a0: Aggregator,
    a1: Aggregator,
    a2: Aggregator,
    s: Seq<usize>,
    w1: isize,
    w2: isize,
)
    requires
        Aggregator::adds_sample(a0, a1, s, w1),
        Aggregator::adds_sample(a1, a2, s, w2),
    ensures
        a2.total(s) == a0.total(s) + w1 + w2,
        a2.holds(s),
        forall|t: Seq<usize>| t != s ==> #[trigger] a2.total(t) == a0.total(t) && a2.holds(t) == a0.holds(t),
{
    assert(a1.total(s) == a0.total(s) + w1);
    assert(a2.total(s) == a1.total(s) + w2);
    assert(a2.holds(s));
    assert forall|t: Seq<usize>| t != s implies #[trigger] a2.total(t) == a0.total(t) && a2.holds(t) == a0.holds(t) by {
        assert(a1.total(t) == a0.total(t));
        assert(a2.total(t) == a1.total(t));
        assert(a1.holds(t) == a0.holds(t));
        assert(a2.holds(t) == a1.holds(t));
    }
}

/// Samples of two different stacks land in two separate totals, each grown
/// by its own weight alone.
pub proof fn lemma_different_stacks_independent(
    a0: Aggregator,
    a1: Aggregator,
    a2: Aggregator,
    s1: Seq<usize>,
    w1: isize,
    s2: Seq<usize>,
    w2: isize,
)
    requires
        s1 != s2,
        Aggregator::adds_sample(a0, a1, s1, w1),
        Aggregator::adds_sample(a1, a2, s2, w2),
    ensures
        a2.total(s1) == a0.total(s1) + w1,
        a2.total(s2) == a0.total(s2) + w2,
        a2.holds(s1) && a2.holds(s2),
{
    assert(a1.total(s1) == a0.total(s1) + w1);
    assert(a2.total(s1) == a1.total(s1));
    assert(a1.total(s2) == a0.total(s2));
    assert(a2.total(s2) == a1.total(s2) + w2);
    assert(a1.holds(s1));
    assert(a2.holds(s1));
    assert(a2.holds(s2));
}

/// Kept samples applied one after another lose no update: after any run of
/// them on one stack, its total has grown by the sum of their weights.
pub proof fn lemma_no_lost_updates(states: Seq<Aggregator>, s: Seq<usize>, ws: Seq<isize>)
    requires
        states.len() == ws.len() + 1,
        forall|i: int| 0 <= i < ws.len() ==> Aggregator::adds_sample(#[trigger] states[i], states[i + 1], s, ws[i]),
    ensures
        states.last().total(s) == states[0].total(s) + sum_of(ws),
    decreases ws.len(),
{
    if ws.len() > 0 {
        let n = ws.len() - 1;
        lemma_no_lost_updates(states.drop_last(), s, ws.drop_last());
        assert(Aggregator::adds_sample(states[n], states[n + 1], s, ws[n]));
        assert(states[n + 1].total(s) == states[n].total(s) + ws[n]);
        assert(states.drop_last().last() == states[n]);
    }
}
} // verus!
