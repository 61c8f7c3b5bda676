use vstd::prelude::*;

use num::BigInt;

use crate::bigint::big_add_u64;
use crate::bigint::big_from_u64;
use crate::bigint::big_value;
use crate::expected::fact;
use crate::expected::factorial_big;
use crate::expected::total_moves;
use crate::expected::ResultRational;
use crate::moves::moves;

verus! {

/// ConcurrentAggregator's admission control: wait-before-spawn bookkeeping.
/// A budget below 1 would demand a completion signal that no worker could
/// ever send, so construction clamps it to 1.  In-flight workers never
/// exceed the budget.
pub struct Admission {
    pub budget: usize,
    pub in_flight: usize,
}

impl Admission {
    pub open spec fn inv(self) -> bool {
        &&& self.budget >= 1
        &&& self.in_flight <= self.budget
    }

    /// Clamp the requested thread budget to at least one.
    pub fn new(t: usize) -> (r: Admission)
        ensures
            r.inv(),
            r.budget == if t >= 1 {
                t
            } else {
                1
            },
            r.in_flight == 0,
    {
        Admission { budget: if t >= 1 { t } else { 1 }, in_flight: 0 }
    }

    /// The next spawn must wait for a completion signal first.
    pub fn must_wait(&self) -> (r: bool)
        requires
            self.inv(),
        ensures
            r <==> self.in_flight == self.budget,
    {
        self.in_flight == self.budget
    }

    /// Record one spawned worker; only allowed below the budget.
    pub fn on_spawn(&mut self)
        requires
            old(self).inv(),
            old(self).in_flight < old(self).budget,
        ensures
            final(self).inv(),
            final(self).budget == old(self).budget,
            final(self).in_flight == old(self).in_flight + 1,
    {
        self.in_flight = self.in_flight + 1;
    }

    /// Record one completion signal.
    pub fn on_complete(&mut self)
        requires
            old(self).inv(),
            old(self).in_flight >= 1,
        ensures
            final(self).inv(),
            final(self).budget == old(self).budget,
            final(self).in_flight == old(self).in_flight - 1,
    {
        self.in_flight = self.in_flight - 1;
    }
}

/// The plain sum of a batch of counts.
pub open spec fn sum_seq(s: Seq<u64>) -> nat
    decreases s.len(),
{
    if s.len() == 0 {
        0
    } else {
        sum_seq(s.drop_last()) + s.last() as nat
    }
}

proof fn lemma_sum_remove(s: Seq<u64>, j: int)
    requires
        0 <= j < s.len(),
    ensures
        sum_seq(s) == sum_seq(s.remove(j)) + s[j],
    decreases s.len(),
{
    if j == s.len() - 1 {
        assert(s.remove(j) =~= s.drop_last());
    } else {
        let t = s.remove(j);
        assert(t.drop_last() =~= s.drop_last().remove(j));
        assert(t.last() == s.last());
        lemma_sum_remove(s.drop_last(), j);
    }
}

/// The accumulator's total does not depend on completion order: two count
/// batches with one multiset of values sum alike.
pub proof fn lemma_sum_order_free(a: Seq<u64>, b: Seq<u64>)
    requires
        a.to_multiset() == b.to_multiset(),
    ensures
        sum_seq(a) == sum_seq(b),
    decreases a.len(),
{
    a.to_multiset_ensures();
    b.to_multiset_ensures();
    if a.len() == 0 {
        assert(b.to_multiset().len() == 0);
    } else {
        let v = a.last();
        assert(a.contains(v));
        assert(b.to_multiset().count(v) > 0);
        assert(b.contains(v));
        let j = choose|j: int| 0 <= j < b.len() && b[j] == v;
        assert(a.drop_last() =~= a.remove(a.len() - 1));
        lemma_sum_remove(b, j);
        lemma_sum_order_free(a.drop_last(), b.remove(j));
    }
}

/// A batch of per-worker counts that matches the enumeration's move counts,
/// one for one, sums to the sequential total.
pub proof fn lemma_counts_total(ps: Seq<Seq<u64>>, counts: Seq<u64>)
    requires
        counts.len() == ps.len(),
        forall|i: int| 0 <= i < ps.len() ==> #[trigger] counts[i] == moves(ps[i]),
    ensures
        sum_seq(counts) == total_moves(ps),
    decreases ps.len(),
{
    if ps.len() > 0 {
        lemma_counts_total(ps.drop_last(), counts.drop_last());
    }
}

/// Whatever order the workers finish in, a completion batch holding the same
/// multiset of counts as the sequential enumeration accumulates to exactly
/// the sequential sum of move counts.
pub proof fn lemma_accumulator_total(
    ps: Seq<Seq<u64>>,
    seq_counts: Seq<u64>,
    completed: Seq<u64>,
)
    requires
        seq_counts.len() == ps.len(),
        forall|i: int| 0 <= i < ps.len() ==> #[trigger] seq_counts[i] == moves(ps[i]),
        completed.to_multiset() == seq_counts.to_multiset(),
    ensures
        sum_seq(completed) == total_moves(ps),
{
    lemma_sum_order_free(completed, seq_counts);
    lemma_counts_total(ps, seq_counts);
}

/// Fold per-worker counts into the exact big-integer total, in batch order.
pub fn sum_counts(counts: &Vec<u64>) -> (r: BigInt)
    ensures
        big_value(r) == sum_seq(counts@),
{
    let mut acc = big_from_u64(0);
    let mut k: usize = 0;
    while k < counts.len()
        invariant
            0 <= k <= counts@.len(),
            big_value(acc) == sum_seq(counts@.take(k as int)),
        decreases counts@.len() - k,
    {
        acc = big_add_u64(acc, counts[k]);
        k = k + 1;
        proof {
            assert(counts@.take(k as int).drop_last() =~= counts@.take(k as int - 1));
            assert(counts@.take(k as int).last() == counts@[k as int - 1]);
        }
    }
    proof {
        assert(counts@.take(counts@.len() as int) =~= counts@);
    }
    acc
}

/// Concurrent mode's final assembly: the joined accumulator total over n!.
/// When the total is the enumeration's move-count sum -- which holds of
/// every completion order by `lemma_sum_order_free` and `lemma_counts_total`
/// -- the result meets `e_spec`.
pub fn to_rational(total: BigInt, n: u64) -> (r: ResultRational)
    ensures
        big_value(r.num) == big_value(total),
        big_value(r.den) == fact(n as nat),
{
    ResultRational { num: total, den: factorial_big(n) }
}

} // verus!
